//! Descriptions of widget trees.

use vstd::prelude::*;

use crate::vdom::toolkit::ObjectType;

verus! {

/// A property of a widget: a name and the setter that applies it. Nothing is
/// known of the value, so a property is applied again on every patch.
#[derive(Clone, Debug)]
pub struct VProperty {
    pub name: String,
    pub setter: u64,
}

/// An event handler binding. Two bindings are the same when `name` and `id`
/// agree; `setter` makes the connection.
#[derive(Clone, Debug)]
pub struct VHandler {
    pub name: String,
    pub id: u64,
    pub setter: u64,
}

/// The description of a widget and of the widgets below it.
#[derive(Debug)]
pub struct VWidget {
    pub object_type: ObjectType,
    pub constructor: Option<u64>,
    pub properties: Vec<VProperty>,
    pub child_props: Vec<VProperty>,
    pub handlers: Vec<VHandler>,
    pub children: Vec<VNode>,
}

/// The description of a nested component: its type, the class of the root
/// object that it shows to its parent, and the properties handed to it.
#[derive(Clone, Debug)]
pub struct VComponent {
    pub component_type: u64,
    pub object_type: ObjectType,
    pub properties: Vec<VProperty>,
}

/// A node of a description.
#[derive(Debug)]
pub enum VNode {
    Widget(VWidget),
    Component(VComponent),
}

/// The name of the child property that asks a box for its centre slot.
pub open spec fn center_name() -> Seq<char> {
    "center_widget"@
}

/// Whether some property of the list has the given name.
pub open spec fn has_prop(props: Seq<VProperty>, name: Seq<char>) -> bool {
    exists|i: int| 0 <= i < props.len() && (#[trigger] props[i]).name@ == name
}

/// The first property of the list with the given name, if there is one.
pub fn find_prop<'a>(props: &'a Vec<VProperty>, name: &String) -> (found: Option<&'a VProperty>)
    ensures
        found is Some <==> has_prop(props@, name@),
        found is Some ==> exists|i: int|
            0 <= i < props.len() && props[i] == *found->0 && props[i].name@ == name@
                && !has_prop(props@.take(i), name@),
{
    let mut i: usize = 0;
    while i < props.len()
        invariant
            i <= props.len(),
            !has_prop(props@.take(i as int), name@),
        decreases props.len() - i,
    {
        if props[i].name == *name {
            return Some(&props[i]);
        }
        assert forall|j: int| 0 <= j < i + 1 implies (#[trigger] props@.take(i + 1)[j]).name@
            != name@ by {
            if j < i {
                assert(props@.take(i as int)[j].name@ != name@);
            }
        }
        i = i + 1;
    }
    assert(props@.take(i as int) =~= props@);
    None
}

impl VNode {
    /// The class of the object that stands for this node in its parent.
    pub open spec fn object_type(self) -> ObjectType {
        match self {
            VNode::Widget(w) => w.object_type,
            VNode::Component(c) => c.object_type,
        }
    }

    /// The properties applied to this node as a child of its container.
    /// A component has none.
    pub open spec fn child_props(self) -> Seq<VProperty> {
        match self {
            VNode::Widget(w) => w.child_props@,
            VNode::Component(_) => Seq::empty(),
        }
    }

    /// Whether the node asks a box for its centre slot.
    pub open spec fn is_centered(self) -> bool {
        has_prop(self.child_props(), center_name())
    }

    /// The class of the object that stands for this node in its parent.
    pub fn get_object_type(&self) -> (t: ObjectType)
        ensures
            t == self.object_type(),
    {
        match self {
            VNode::Widget(w) => w.object_type,
            VNode::Component(c) => c.object_type,
        }
    }

    /// The first child property of the given name, if the node has one.
    pub fn get_child_prop(&self, name: &String) -> (found: Option<&VProperty>)
        ensures
            found is Some <==> has_prop(self.child_props(), name@),
            found is Some ==> exists|i: int|
                0 <= i < self.child_props().len() && self.child_props()[i] == *found->0
                    && self.child_props()[i].name@ == name@ && !has_prop(
                    self.child_props().take(i),
                    name@,
                ),
    {
        match self {
            VNode::Widget(w) => find_prop(&w.child_props, name),
            VNode::Component(_) => None,
        }
    }

    /// How many handles building this node takes at most: one for each
    /// object and one for each handler.
    pub open spec fn demand(self) -> nat
        decreases self, 1nat,
    {
        match self {
            VNode::Widget(w) => w.demand(),
            VNode::Component(_) => 1,
        }
    }
}

impl VWidget {
    /// How many handles building this widget takes at most: one for each
    /// object and one for each handler.
    pub open spec fn demand(self) -> nat
        decreases self, 0nat,
    {
        1 + self.handlers@.len() + demand_all(self.children@, self.children@.len())
    }
}

/// The handles that building the first `n` of the nodes takes at most.
pub open spec fn demand_all(nodes: Seq<VNode>, n: nat) -> nat
    decreases nodes, n,
{
    if n == 0 || n > nodes.len() {
        0
    } else {
        demand_all(nodes, (n - 1) as nat) + nodes[n - 1].demand()
    }
}

} // verus!
