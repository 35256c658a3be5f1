//! What building and patching are: functions of the description, the live
//! tree and the next free handle.

use vstd::prelude::*;

use crate::vdom::handlers::{added, connects, disconnects, distinct, dropped, retained, Entry};
use crate::vdom::placement::{applied, placed, placement_fault, Fault};
use crate::vdom::toolkit::{ObjectType, Op, Widget};
use crate::vdom::vnode::{demand_all, VComponent, VNode, VWidget};

verus! {

/// What a node of the live tree stands for.
pub enum Live {
    Gtk { object: Widget, handlers: Seq<Entry>, children: Seq<Live> },
    Component { object: Widget, component_type: u64 },
}

impl Live {
    /// The toolkit object that stands for this node in its parent.
    pub open spec fn object(self) -> Widget {
        match self {
            Live::Gtk { object, .. } => object,
            Live::Component { object, .. } => object,
        }
    }

    /// No object of the tree has two connections for one key.
    pub open spec fn wf(self) -> bool
        decreases self,
    {
        match self {
            Live::Gtk { handlers, children, .. } => distinct(handlers) && forall|i: int|
                0 <= i < children.len() ==> (#[trigger] children[i]).wf(),
            Live::Component { .. } => true,
        }
    }

    /// Whether the node can be patched to stand for the description: both
    /// are widgets of one class, or both are components of one type.
    pub open spec fn compatible(self, node: VNode) -> bool {
        match (self, node) {
            (Live::Gtk { object, .. }, VNode::Widget(w)) => object.object_type == w.object_type,
            (Live::Component { component_type, .. }, VNode::Component(c)) => component_type
                == c.component_type,
            _ => false,
        }
    }
}

/// A live node as a function leaves it, the calls that the function asked of
/// the toolkit, and the next free handle after it.
pub struct Step {
    pub live: Live,
    pub ops: Seq<Op>,
    pub next: nat,
}

/// The same for a run of children.
pub struct Steps {
    pub lives: Seq<Live>,
    pub ops: Seq<Op>,
    pub next: nat,
}

/// One call that makes each node's object visible, in order.
pub open spec fn shown(nodes: Seq<Live>) -> Seq<Op> {
    Seq::new(nodes.len(), |i: int| Op::Show { object: nodes[i].object().handle })
}

/// Building a node, with handles from `base` upwards.
pub open spec fn built(node: VNode, parent: Option<u64>, base: nat) -> Step
    decreases node, 1nat,
{
    match node {
        VNode::Widget(w) => built_widget(w, parent, base),
        VNode::Component(c) => built_component(c, parent, base),
    }
}

/// Building a widget, with handles from `base` upwards: it is constructed,
/// its properties are applied for the first time, its handlers are
/// connected, its children are built and placed in it one after the other,
/// and at last it is made visible.
pub open spec fn built_widget(w: VWidget, parent: Option<u64>, base: nat) -> Step
    decreases w, 0nat,
{
    let object = Widget { handle: base as u64, object_type: w.object_type };
    let entries = added(Seq::empty(), w.handlers@, w.handlers@.len(), base + 1);
    let kids = if w.object_type.role.is_container() {
        built_range(w.children@, object, 0, w.children@.len(), false, base + 1 + entries.len())
    } else {
        Steps { lives: Seq::empty(), ops: Seq::empty(), next: base + 1 + entries.len() }
    };
    Step {
        live: Live::Gtk { object, handlers: entries, children: kids.lives },
        ops: seq![
            Op::Construct {
                object: object.handle,
                object_type: w.object_type,
                constructor: w.constructor,
            },
        ] + applied(w.properties@, object.handle, parent, true) + connects(
            Seq::empty(),
            w.handlers@,
            w.handlers@.len(),
            object.handle,
            base + 1,
        ) + kids.ops + seq![Op::Show { object: object.handle }],
        next: kids.next,
    }
}

/// Building a component, with the handle `base`: it is mounted and handed
/// its properties.
pub open spec fn built_component(c: VComponent, parent: Option<u64>, base: nat) -> Step {
    let object = Widget { handle: base as u64, object_type: c.object_type };
    Step {
        live: Live::Component { object, component_type: c.component_type },
        ops: seq![
            Op::Mount {
                object: object.handle,
                component_type: c.component_type,
                object_type: c.object_type,
                parent,
            },
        ] + applied(c.properties@, object.handle, parent, true),
        next: base + 1,
    }
}

/// Building the children `from..upto` of a container, one after the other:
/// each is built, placed at its index among all of `nodes`, and, if `show`
/// is set, made visible once more.
pub open spec fn built_range(
    nodes: Seq<VNode>,
    container: Widget,
    from: nat,
    upto: nat,
    show: bool,
    base: nat,
) -> Steps
    decreases nodes, upto,
{
    if upto <= from || upto > nodes.len() {
        Steps { lives: Seq::empty(), ops: Seq::empty(), next: base }
    } else {
        let before = built_range(nodes, container, from, (upto - 1) as nat, show, base);
        let index = (upto - 1) as nat;
        let child = built(nodes[index as int], Some(container.handle), before.next);
        Steps {
            lives: before.lives.push(child.live),
            ops: before.ops + child.ops + placed(
                container,
                index,
                nodes.len(),
                nodes[index as int],
                child.live.object(),
            ) + (if show {
                seq![Op::Show { object: child.live.object().handle }]
            } else {
                Seq::empty()
            }),
            next: child.next,
        }
    }
}

/// The first thing that stands in the way of building a node, in the order
/// in which building meets them.
pub open spec fn build_fault(node: VNode) -> Option<Fault>
    decreases node, 1nat,
{
    match node {
        VNode::Widget(w) => widget_build_fault(w),
        VNode::Component(_) => None,
    }
}

/// The first thing that stands in the way of building a widget.
pub open spec fn widget_build_fault(w: VWidget) -> Option<Fault>
    decreases w, 0nat,
{
    if w.object_type.role.is_container() {
        range_fault(w.children@, w.object_type, 0, w.children@.len())
    } else if w.children@.len() > 0 {
        Some(Fault::NotAContainer)
    } else {
        None
    }
}

/// The first thing that stands in the way of building the children
/// `from..upto` of a container and placing them in it.
pub open spec fn range_fault(nodes: Seq<VNode>, container: ObjectType, from: nat, upto: nat) -> Option<
    Fault,
>
    decreases nodes, upto,
{
    if upto <= from || upto > nodes.len() {
        None
    } else {
        let before = range_fault(nodes, container, from, (upto - 1) as nat);
        if before is Some {
            before
        } else {
            let inner = build_fault(nodes[upto - 1]);
            if inner is Some {
                inner
            } else {
                placement_fault(container.role, nodes.len(), nodes[upto - 1].object_type())
            }
        }
    }
}

/// Tearing a live node down, depth first: its children are torn down, its
/// own connections are released, and it is removed from its container. The
/// root object of a nested component is removed and the component stopped.
pub open spec fn destroyed(live: Live, container: u64) -> Seq<Op>
    decreases live, 0nat,
{
    match live {
        Live::Gtk { object, handlers, children } => destroyed_range(
            children,
            object.handle,
            0,
            children.len(),
        ) + disconnects(handlers, object.handle) + seq![
            Op::Detach { container, child: object.handle },
        ],
        Live::Component { object, .. } => seq![
            Op::Detach { container, child: object.handle },
            Op::Unmount { object: object.handle },
        ],
    }
}

/// Tearing down the children `from..upto` of a container, in order.
pub open spec fn destroyed_range(nodes: Seq<Live>, container: u64, from: nat, upto: nat) -> Seq<Op>
    decreases nodes, upto,
{
    if upto <= from || upto > nodes.len() {
        Seq::empty()
    } else {
        destroyed_range(nodes, container, from, (upto - 1) as nat) + destroyed(
            nodes[upto - 1],
            container,
        )
    }
}

/// How many children, counted from `from`, can be patched in place: the
/// index of the first live child that has no description or is not
/// compatible with its description, or the number of live children.
pub open spec fn agree(nodes: Seq<Live>, specs: Seq<VNode>, from: nat) -> nat
    decreases nodes.len() - from,
{
    if from >= nodes.len() || from >= specs.len() || !nodes[from as int].compatible(specs[from as int]) {
        from
    } else {
        agree(nodes, specs, from + 1)
    }
}

/// Patching a live node to stand for a description with which it is
/// compatible, with handles from `base` upwards.
///
/// The children of a container are reconciled; then every property and every
/// child property is applied again, and the handlers are brought in line
/// with the description's bindings. A component is handed its properties
/// again. A node that is not compatible with the description is left alone.
pub open spec fn patched(live: Live, node: VNode, parent: Option<u64>, base: nat) -> Step
    decreases node, 1nat,
{
    match (live, node) {
        (Live::Gtk { object, handlers, children }, VNode::Widget(w)) => {
            if object.object_type == w.object_type {
                patched_widget(object, handlers, children, w, parent, base)
            } else {
                Step { live, ops: Seq::empty(), next: base }
            }
        },
        (Live::Component { object, component_type }, VNode::Component(c)) => {
            if component_type == c.component_type {
                Step { live, ops: applied(c.properties@, object.handle, parent, false), next: base }
            } else {
                Step { live, ops: Seq::empty(), next: base }
            }
        },
        _ => Step { live, ops: Seq::empty(), next: base },
    }
}

/// Patching a live widget to stand for a description of a widget of its
/// class.
pub open spec fn patched_widget(
    object: Widget,
    handlers: Seq<Entry>,
    children: Seq<Live>,
    w: VWidget,
    parent: Option<u64>,
    base: nat,
) -> Step
    decreases w, 0nat,
{
    let kids = if object.object_type.role.is_container() {
        reconciled(children, w.children@, object, base)
    } else {
        Steps { lives: children, ops: Seq::empty(), next: base }
    };
    let fresh = added(handlers, w.handlers@, w.handlers@.len(), kids.next);
    Step {
        live: Live::Gtk {
            object,
            handlers: retained(handlers, w.handlers@, handlers.len()) + fresh,
            children: kids.lives,
        },
        ops: kids.ops + applied(w.properties@, object.handle, parent, false) + applied(
            w.child_props@,
            object.handle,
            parent,
            false,
        ) + connects(handlers, w.handlers@, w.handlers@.len(), object.handle, kids.next)
            + disconnects(dropped(handlers, w.handlers@, handlers.len()), object.handle),
        next: kids.next + fresh.len(),
    }
}

/// Patching the first `upto` children in place, one after the other.
pub open spec fn patched_range(
    nodes: Seq<Live>,
    specs: Seq<VNode>,
    container: Widget,
    upto: nat,
    base: nat,
) -> Steps
    decreases specs, (if upto <= specs.len() { upto } else { specs.len() }),
{
    if upto == 0 || upto > nodes.len() || upto > specs.len() {
        Steps { lives: Seq::empty(), ops: Seq::empty(), next: base }
    } else {
        let before = patched_range(nodes, specs, container, (upto - 1) as nat, base);
        let child = patched(nodes[upto - 1], specs[upto - 1], Some(container.handle), before.next);
        Steps {
            lives: before.lives.push(child.live),
            ops: before.ops + child.ops,
            next: child.next,
        }
    }
}

/// Reconciling the live children of a container with the children of its
/// new description, position by position.
///
/// The children before the first divergence are patched in place. The live
/// children from there on are torn down, and the described children from
/// there on are built and placed. Where live children were torn down, each
/// new child is made visible as soon as it is placed; where children are
/// only appended, they are made visible together at the end.
pub open spec fn reconciled(nodes: Seq<Live>, specs: Seq<VNode>, container: Widget, base: nat) -> Steps
    decreases specs, specs.len() + 1,
{
    let k = agree(nodes, specs, 0);
    let head = patched_range(nodes, specs, container, k, base);
    let gone = destroyed_range(nodes, container.handle, k, nodes.len());
    let tail = built_range(specs, container, k, specs.len(), k < nodes.len(), head.next);
    Steps {
        lives: head.lives + tail.lives,
        ops: head.ops + gone + tail.ops + (if k < nodes.len() {
            Seq::empty()
        } else {
            shown(tail.lives)
        }),
        next: tail.next,
    }
}

/// The first thing that stands in the way of patching a live node to stand
/// for a description, in the order in which patching meets them.
pub open spec fn patch_fault(live: Live, node: VNode) -> Option<Fault>
    decreases node, 1nat,
{
    match (live, node) {
        (Live::Gtk { object, handlers, children }, VNode::Widget(w)) => widget_patch_fault(
            object,
            children,
            w,
        ),
        _ => None,
    }
}

/// The first thing that stands in the way of patching a live widget to
/// stand for a widget description. Nothing does where the widget is not of
/// the described class: it is then left alone.
pub open spec fn widget_patch_fault(object: Widget, children: Seq<Live>, w: VWidget) -> Option<Fault>
    decreases w, 0nat,
{
    if object.object_type == w.object_type && object.object_type.role.is_container() {
        reconcile_fault(children, w.children@, object)
    } else {
        None
    }
}

/// The first thing that stands in the way of patching the first `upto`
/// children in place.
pub open spec fn patch_range_fault(nodes: Seq<Live>, specs: Seq<VNode>, upto: nat) -> Option<Fault>
    decreases specs, (if upto <= specs.len() { upto } else { specs.len() }),
{
    if upto == 0 || upto > nodes.len() || upto > specs.len() {
        None
    } else {
        let before = patch_range_fault(nodes, specs, (upto - 1) as nat);
        if before is Some {
            before
        } else {
            patch_fault(nodes[upto - 1], specs[upto - 1])
        }
    }
}

/// The first thing that stands in the way of reconciling the children of a
/// container.
///
/// A window that holds a title bar and a main widget cannot have its
/// children rebuilt from the first, nor lose the second alone; a window that
/// holds its main widget cannot be given another child.
pub open spec fn reconcile_fault(nodes: Seq<Live>, specs: Seq<VNode>, container: Widget) -> Option<Fault>
    decreases specs, specs.len() + 1,
{
    let k = agree(nodes, specs, 0);
    let role = container.object_type.role;
    let inner = patch_range_fault(nodes, specs, k);
    let fresh = range_fault(specs, container.object_type, k, specs.len());
    if inner is Some {
        inner
    } else if k < nodes.len() {
        if role.is_window() && nodes.len() == 2 && ((k < specs.len() && k == 0) || (k == specs.len()
            && k == 1)) {
            Some(Fault::TitlebarRemoved)
        } else {
            fresh
        }
    } else if fresh is Some {
        fresh
    } else if role.is_window() && k < specs.len() && nodes.len() == 1 {
        Some(Fault::TitlebarAdded)
    } else {
        None
    }
}

/// Where nothing stands in the way of building a run of children, nothing
/// stands in the way of building and placing any one of them.
pub proof fn lemma_range_fault(nodes: Seq<VNode>, container: ObjectType, from: nat, upto: nat)
    requires
        upto <= nodes.len(),
        range_fault(nodes, container, from, upto) is None,
    ensures
        forall|i: int|
            from <= i < upto ==> build_fault(#[trigger] nodes[i]) is None && placement_fault(
                container.role,
                nodes.len(),
                nodes[i].object_type(),
            ) is None,
    decreases upto,
{
    if upto > from {
        lemma_range_fault(nodes, container, from, (upto - 1) as nat);
    }
}

/// The demand of a run of nodes grows with the run.
pub proof fn lemma_demand_all(nodes: Seq<VNode>, n: nat, m: nat)
    requires
        n <= m <= nodes.len(),
    ensures
        demand_all(nodes, n) <= demand_all(nodes, m),
    decreases m,
{
    if n < m {
        lemma_demand_all(nodes, n, (m - 1) as nat);
    }
}

/// What [`agree`] returns: the children from `from` up to it are compatible
/// with their descriptions, and the child at it, if both lists reach so far,
/// is not.
pub proof fn lemma_agree(nodes: Seq<Live>, specs: Seq<VNode>, from: nat)
    requires
        from <= nodes.len(),
        from <= specs.len(),
    ensures
        from <= agree(nodes, specs, from) <= nodes.len(),
        agree(nodes, specs, from) <= specs.len(),
        forall|i: int|
            from <= i < agree(nodes, specs, from) ==> (#[trigger] nodes[i]).compatible(specs[i]),
        agree(nodes, specs, from) < nodes.len() && agree(nodes, specs, from) < specs.len()
            ==> !nodes[agree(nodes, specs, from) as int].compatible(
            specs[agree(nodes, specs, from) as int],
        ),
    decreases nodes.len() - from,
{
    if from >= nodes.len() || from >= specs.len() || !nodes[from as int].compatible(specs[from as int]) {
    } else {
        lemma_agree(nodes, specs, from + 1);
    }
}

/// Where nothing stands in the way of patching a run of children in place,
/// nothing stands in the way of patching any one of them.
pub proof fn lemma_patch_range_fault(nodes: Seq<Live>, specs: Seq<VNode>, upto: nat)
    requires
        upto <= nodes.len(),
        upto <= specs.len(),
        patch_range_fault(nodes, specs, upto) is None,
    ensures
        forall|i: int| 0 <= i < upto ==> patch_fault(#[trigger] nodes[i], specs[i]) is None,
    decreases upto,
{
    if upto > 0 {
        lemma_patch_range_fault(nodes, specs, (upto - 1) as nat);
    }
}

/// A run of children built or patched has one live node for each.
pub proof fn lemma_range_len(
    nodes: Seq<Live>,
    specs: Seq<VNode>,
    container: Widget,
    k: nat,
    upto: nat,
    show: bool,
    base: nat,
    start: nat,
)
    requires
        k <= nodes.len(),
        k <= upto <= specs.len(),
    ensures
        patched_range(nodes, specs, container, k, base).lives.len() == k,
        built_range(specs, container, k, upto, show, start).lives.len() == upto - k,
    decreases k + upto,
{
    if upto > k {
        lemma_range_len(nodes, specs, container, k, (upto - 1) as nat, show, base, start);
    } else if k > 0 {
        lemma_range_len(nodes, specs, container, (k - 1) as nat, (k - 1) as nat, show, base, start);
    }
}

/// Tearing down a run of children looks at that run only.
pub proof fn lemma_destroyed_range(a: Seq<Live>, b: Seq<Live>, container: u64, from: nat, upto: nat)
    requires
        a.len() == b.len(),
        upto <= a.len(),
        forall|i: int| from <= i < upto ==> a[i] == b[i],
    ensures
        destroyed_range(a, container, from, upto) == destroyed_range(b, container, from, upto),
    decreases upto,
{
    if upto > from {
        lemma_destroyed_range(a, b, container, from, (upto - 1) as nat);
    }
}

} // verus!
