//! The live tree, and the functions that build and patch it.

use vstd::prelude::*;

use crate::vdom::handlers::{added, connects, disconnects, dropped, lemma_added, retained, Entry, Handlers};
use crate::vdom::handles::{law_built_is_fresh, law_patched_below};
use crate::vdom::ownership::{law_built_exclusive, law_patched_exclusive};
use crate::vdom::laws::{law_built_mirrors, law_built_wf, law_patched_mirrors, law_patched_wf, mirrors};
use crate::vdom::model::{
    agree, build_fault, built, built_component, built_range, built_widget, destroyed,
    destroyed_range, lemma_agree, lemma_demand_all, lemma_destroyed_range, lemma_patch_range_fault,
    lemma_range_fault, lemma_range_len, patch_fault, patched, patched_range, patched_widget,
    reconcile_fault, reconciled, shown, widget_build_fault, widget_patch_fault, Live,
};
use crate::vdom::placement::{add_child, applied, apply_properties, placement_fault};
use crate::vdom::toolkit::{Op, Role, Toolkit, Widget};
use crate::vdom::vnode::{demand_all, VComponent, VHandler, VNode, VProperty, VWidget};

verus! {

/// The live counterpart of a widget description: the toolkit object built
/// for it, the handlers connected to that object, and the live children.
#[derive(Debug)]
pub struct GtkState {
    pub object: Widget,
    pub handlers: Handlers,
    pub children: Vec<State>,
}

/// The live counterpart of a component description: a nested component, of
/// which its parent sees the type and the root object.
#[derive(Debug)]
pub struct ComponentState {
    pub object: Widget,
    pub component_type: u64,
}

/// A node of the live tree.
#[derive(Debug)]
pub enum State {
    Gtk(GtkState),
    Component(ComponentState),
}

/// What a live node stands for.
pub open spec fn live_of(state: State) -> Live
    decreases state,
{
    match state {
        State::Gtk(g) => Live::Gtk {
            object: g.object,
            handlers: g.handlers@,
            children: Seq::new(
                g.children@.len(),
                |i: int|
                    if 0 <= i < g.children@.len() {
                        live_of(g.children@[i])
                    } else {
                        arbitrary()
                    },
            ),
        },
        State::Component(c) => Live::Component {
            object: c.object,
            component_type: c.component_type,
        },
    }
}

/// What a list of live nodes stands for.
pub open spec fn lives(states: Seq<State>) -> Seq<Live> {
    Seq::new(states.len(), |i: int| live_of(states[i]))
}

impl View for State {
    type V = Live;

    open spec fn view(&self) -> Live {
        live_of(*self)
    }
}

impl View for GtkState {
    type V = Live;

    open spec fn view(&self) -> Live {
        Live::Gtk { object: self.object, handlers: self.handlers@, children: lives(self.children@) }
    }
}

impl View for ComponentState {
    type V = Live;

    open spec fn view(&self) -> Live {
        Live::Component { object: self.object, component_type: self.component_type }
    }
}

/// A node of the live tree stands for the same thing whether it is looked at
/// as a node or as the widget or component that it holds.
pub proof fn lemma_state_view(s: State)
    ensures
        s matches State::Gtk(g) ==> s@ == g@,
        s matches State::Component(c) ==> s@ == c@,
{
    match s {
        State::Gtk(g) => {
            assert(s@->Gtk_children.len() == g.children@.len());
            assert forall|i: int| 0 <= i < g.children@.len() implies s@->Gtk_children[i]
                == lives(g.children@)[i] by {
                assert(s@->Gtk_children[i] == g.children@[i]@);
            }
            assert(s@->Gtk_children =~= lives(g.children@));
        },
        State::Component(_) => {},
    }
}

impl State {
    /// The toolkit object that stands for this node in its parent.
    pub fn object(&self) -> (w: &Widget)
        ensures
            *w == self@.object(),
    {
        match self {
            State::Gtk(g) => &g.object,
            State::Component(c) => &c.object,
        }
    }

    /// Builds the live counterpart of a description, for attaching into
    /// `parent` if there is one.
    pub fn build(spec: &VNode, parent: Option<u64>, tk: &mut Toolkit) -> (state: State)
        requires
            build_fault(*spec) is None,
            old(tk).has_room(spec.demand()),
        ensures
            state@ == built(*spec, parent, old(tk).next()).live,
            final(tk)@ == old(tk)@ + built(*spec, parent, old(tk).next()).ops,
            final(tk).next() == built(*spec, parent, old(tk).next()).next,
            old(tk).next() < final(tk).next() <= old(tk).next() + spec.demand(),
            state@.wf(),
            mirrors(state@, *spec),
            state@.since(old(tk).next()),
            state@.below(final(tk).next()),
            state@.exclusive(),
        decreases spec, 1nat,
    {
        proof {
            law_built_exclusive(*spec, parent, tk.next());
            law_built_wf(*spec, parent, tk.next());
            law_built_mirrors(*spec, parent, tk.next());
            law_built_is_fresh(*spec, parent, tk.next());
        }
        match spec {
            VNode::Widget(w) => {
                let g = GtkState::build(w, parent, tk);
                let state = State::Gtk(g);
                proof {
                    lemma_state_view(state);
                }
                state
            },
            VNode::Component(c) => {
                let cs = ComponentState::build(c, parent, tk);
                State::Component(cs)
            },
        }
    }
}

impl ComponentState {
    /// Mounts a nested component and hands it its properties.
    pub fn build(spec: &VComponent, parent: Option<u64>, tk: &mut Toolkit) -> (state: ComponentState)
        requires
            old(tk).has_room(1),
        ensures
            state@ == built_component(*spec, parent, old(tk).next()).live,
            final(tk)@ == old(tk)@ + built_component(*spec, parent, old(tk).next()).ops,
            final(tk).next() == old(tk).next() + 1,
    {
        let ghost journal = tk@;
        let object = tk.mount(spec.component_type, spec.object_type, parent);
        apply_properties(&spec.properties, object.handle, parent, true, tk);
        assert(tk@ =~= journal + built_component(*spec, parent, old(tk).next()).ops);
        ComponentState { object, component_type: spec.component_type }
    }
}

impl GtkState {
    /// Builds a widget and everything below it, for attaching into `parent`
    /// if there is one.
    pub fn build(vobj: &VWidget, parent: Option<u64>, tk: &mut Toolkit) -> (state: GtkState)
        requires
            widget_build_fault(*vobj) is None,
            old(tk).has_room(vobj.demand()),
        ensures
            state@ == built_widget(*vobj, parent, old(tk).next()).live,
            final(tk)@ == old(tk)@ + built_widget(*vobj, parent, old(tk).next()).ops,
            final(tk).next() == built_widget(*vobj, parent, old(tk).next()).next,
            old(tk).next() < final(tk).next() <= old(tk).next() + vobj.demand(),
        decreases vobj, 1nat,
    {
        let ghost journal = tk@;
        let ghost base = tk.next();
        let ghost goal = built_widget(*vobj, parent, base);
        let object = tk.construct(vobj.object_type, vobj.constructor);
        apply_properties(&vobj.properties, object.handle, parent, true, tk);
        let mut handlers = Handlers::new();
        handlers.reconcile(object.handle, &vobj.handlers, tk);
        let ghost entries = added(Seq::empty(), vobj.handlers@, vobj.handlers@.len(), base + 1);
        let ghost head = tk@;
        let ghost start = tk.next();
        proof {
            lemma_added(
                Seq::empty(),
                vobj.handlers@,
                vobj.handlers@.len(),
                base + 1,
            );
            assert(retained(Seq::<Entry>::empty(), vobj.handlers@, 0) + entries =~= entries);
            assert(disconnects(dropped(Seq::<Entry>::empty(), vobj.handlers@, 0), object.handle)
                =~= Seq::<Op>::empty());
            assert(head =~= journal + seq![
                Op::Construct {
                    object: object.handle,
                    object_type: vobj.object_type,
                    constructor: vobj.constructor,
                },
            ] + applied(vobj.properties@, object.handle, parent, true) + connects(
                Seq::empty(),
                vobj.handlers@,
                vobj.handlers@.len(),
                object.handle,
                base + 1,
            ));
        }
        let mut children: Vec<State> = Vec::new();
        if is_container(object.object_type.role) {
            proof {
                assert(lives(children@) =~= Seq::<Live>::empty());
                lemma_demand_all(vobj.children@, 0, vobj.children@.len());
                lemma_range_fault(vobj.children@, vobj.object_type, 0, vobj.children@.len());
            }
            build_from(&mut children, vobj, &object, false, tk);
            proof {
                let kids = built_range(vobj.children@, object, 0, vobj.children@.len(), false, start);
                assert(lives(children@) =~= kids.lives);
            }
        } else {
            proof {
                assert(lives(children@) =~= Seq::<Live>::empty());
                assert(tk@ =~= head + Seq::<Op>::empty());
            }
        }
        tk.show(object.handle);
        proof {
            assert(lives(children@) =~= goal.live->Gtk_children);
            assert(tk@ =~= journal + goal.ops);
        }
        GtkState { object, handlers, children }
    }
}

/// How many children, counted from the first, can be patched in place.
pub fn agreement(children: &Vec<State>, specs: &Vec<VNode>) -> (k: usize)
    ensures
        k == agree(lives(children@), specs@, 0),
        k <= children@.len(),
        k <= specs@.len(),
{
    let mut i: usize = 0;
    while i < children.len() && i < specs.len() && children[i].is_compatible(&specs[i])
        invariant
            i <= children@.len(),
            i <= specs@.len(),
            agree(lives(children@), specs@, 0) == agree(lives(children@), specs@, i as nat),
        decreases children@.len() - i,
    {
        i = i + 1;
    }
    i
}

impl State {
    /// Whether the node can be patched to stand for the description.
    pub fn is_compatible(&self, spec: &VNode) -> (b: bool)
        ensures
            b == self@.compatible(*spec),
    {
        match self {
            State::Gtk(g) => match spec {
                VNode::Widget(w) => g.object.object_type == w.object_type,
                VNode::Component(_) => false,
            },
            State::Component(c) => match spec {
                VNode::Widget(_) => false,
                VNode::Component(vc) => c.component_type == vc.component_type,
            },
        }
    }

    /// Tears the node down, depth first, and removes its object from
    /// `container`. The node itself is left for its owner to discard.
    pub fn unmount(&self, container: u64, tk: &mut Toolkit)
        ensures
            final(tk)@ == old(tk)@ + destroyed(self@, container),
            final(tk).next() == old(tk).next(),
        decreases self, 1nat,
    {
        let ghost journal = tk@;
        proof {
            lemma_state_view(*self);
        }
        match self {
            State::Gtk(g) => {
                g.unmount(container, tk);
            },
            State::Component(c) => {
                tk.detach(container, c.object.handle);
                tk.unmount(c.object.handle);
                proof {
                    assert(tk@ =~= journal + destroyed(self@, container));
                }
            },
        }
    }

    /// Patches the node to stand for a new description, and tells whether it
    /// could: `false` means that the node is not compatible with the
    /// description and was left alone, and that its owner has to discard it
    /// and build anew.
    pub fn patch(&mut self, spec: &VNode, parent: Option<u64>, tk: &mut Toolkit) -> (ok: bool)
        requires
            patch_fault(old(self)@, *spec) is None,
            old(tk).has_room(spec.demand()),
        ensures
            ok == old(self)@.compatible(*spec),
            final(self)@ == patched(old(self)@, *spec, parent, old(tk).next()).live,
            final(tk)@ == old(tk)@ + patched(old(self)@, *spec, parent, old(tk).next()).ops,
            final(tk).next() == patched(old(self)@, *spec, parent, old(tk).next()).next,
            old(tk).next() <= final(tk).next() <= old(tk).next() + spec.demand(),
            old(self)@.wf() ==> final(self)@.wf(),
            ok ==> mirrors(final(self)@, *spec),
            old(self)@.below(old(tk).next()) ==> final(self)@.below(final(tk).next()),
            old(self)@.below(old(tk).next()) && old(self)@.exclusive() ==> final(self)@.exclusive(),
        decreases spec, 0nat,
    {
        proof {
            if self@.below(tk.next()) && self@.exclusive() {
                law_patched_exclusive(self@, *spec, parent, tk.next());
            }
            if self@.wf() {
                law_patched_wf(self@, *spec, parent, tk.next());
            }
            if self@.below(tk.next()) {
                law_patched_below(self@, *spec, parent, tk.next());
            }
            if self@.compatible(*spec) {
                law_patched_mirrors(self@, *spec, parent, tk.next());
            }
            lemma_state_view(*self);
            assert(tk@ =~= tk@ + Seq::<Op>::empty());
        }
        match spec {
            VNode::Widget(w) => match self {
                State::Gtk(g) => {
                    let ok = g.patch(w, parent, tk);
                    proof {
                        lemma_state_view(*self);
                    }
                    ok
                },
                State::Component(_) => false,
            },
            VNode::Component(c) => match self {
                State::Gtk(_) => false,
                State::Component(cs) => cs.patch(c, parent, tk),
            },
        }
    }
}

impl ComponentState {
    /// Hands a nested component its properties again, if it is of the
    /// described type, and tells whether it is.
    pub fn patch(&mut self, spec: &VComponent, parent: Option<u64>, tk: &mut Toolkit) -> (ok: bool)
        ensures
            ok == (old(self).component_type == spec.component_type),
            *final(self) == *old(self),
            final(tk)@ == old(tk)@ + (if ok {
                applied(spec.properties@, old(self).object.handle, parent, false)
            } else {
                Seq::empty()
            }),
            final(tk).next() == old(tk).next(),
    {
        if self.component_type == spec.component_type {
            apply_properties(&spec.properties, self.object.handle, parent, false, tk);
            true
        } else {
            assert(tk@ =~= tk@ + Seq::<Op>::empty());
            false
        }
    }
}

impl GtkState {
    /// Tears the widget down, depth first: its children are torn down, its
    /// own connections are released, and it is removed from `container`.
    pub fn unmount(&self, container: u64, tk: &mut Toolkit)
        ensures
            final(tk)@ == old(tk)@ + destroyed(self@, container),
            final(tk).next() == old(tk).next(),
        decreases self, 0nat,
    {
        let ghost journal = tk@;
        let handle: u64 = self.object.handle;
        let ghost kids = lives(self.children@);
        proof {
            assert(tk@ =~= journal + destroyed_range(kids, handle, 0, 0));
        }
        let mut i: usize = 0;
        while i < self.children.len()
            invariant
                i <= self.children@.len(),
                kids == lives(self.children@),
                tk@ == journal + destroyed_range(kids, handle, 0, i as nat),
                tk.next() == old(tk).next(),
            decreases self.children@.len() - i,
        {
            self.children[i].unmount(handle, tk);
            proof {
                assert(tk@ =~= journal + destroyed_range(kids, handle, 0, (i + 1) as nat));
            }
            i = i + 1;
        }
        let ghost torn = tk@;
        let connections = self.handlers.connections();
        let mut j: usize = 0;
        proof {
            assert(tk@ =~= torn + disconnects(self.handlers@.take(0), handle));
        }
        while j < connections.len()
            invariant
                j <= connections@.len(),
                connections@.len() == self.handlers@.len(),
                forall|n: int|
                    0 <= n < connections@.len() ==> connections@[n] == (
                    #[trigger] self.handlers@[n]).connection,
                tk@ == torn + disconnects(self.handlers@.take(j as int), handle),
                tk.next() == old(tk).next(),
            decreases connections@.len() - j,
        {
            tk.disconnect(handle, connections[j]);
            proof {
                assert(tk@ =~= torn + disconnects(self.handlers@.take(j + 1), handle));
            }
            j = j + 1;
        }
        tk.detach(container, handle);
        proof {
            assert(self.handlers@.take(j as int) =~= self.handlers@);
            assert(tk@ =~= journal + destroyed(self@, container));
        }
    }

    /// Patches the widget and everything below it to stand for a new
    /// description, and tells whether it could. A widget of another class
    /// than the described cannot be patched: it is left alone, nothing is
    /// asked of the toolkit, and `false` tells its owner to discard it and
    /// build anew. Else the children are reconciled, every property and
    /// child property is applied again, and the handlers are brought in line
    /// with the description's bindings.
    pub fn patch(&mut self, vobj: &VWidget, parent: Option<u64>, tk: &mut Toolkit) -> (ok: bool)
        requires
            widget_patch_fault(old(self).object, lives(old(self).children@), *vobj) is None,
            old(tk).has_room(vobj.demand()),
        ensures
            ok == (old(self).object.object_type == vobj.object_type),
            !ok ==> *final(self) == *old(self) && final(tk)@ == old(tk)@ && final(tk).next() == old(
                tk,
            ).next(),
            ok ==> final(self)@ == patched_widget(
                old(self).object,
                old(self).handlers@,
                lives(old(self).children@),
                *vobj,
                parent,
                old(tk).next(),
            ).live,
            ok ==> final(tk)@ == old(tk)@ + patched_widget(
                old(self).object,
                old(self).handlers@,
                lives(old(self).children@),
                *vobj,
                parent,
                old(tk).next(),
            ).ops,
            ok ==> final(tk).next() == patched_widget(
                old(self).object,
                old(self).handlers@,
                lives(old(self).children@),
                *vobj,
                parent,
                old(tk).next(),
            ).next,
            old(tk).next() <= final(tk).next() <= old(tk).next() + vobj.demand(),
        decreases vobj, 2nat,
    {
        if self.object.object_type != vobj.object_type {
            return false;
        }
        let ghost journal = tk@;
        let ghost base = tk.next();
        let ghost goal = patched_widget(
            self.object,
            self.handlers@,
            lives(self.children@),
            *vobj,
            parent,
            base,
        );
        if is_container(self.object.object_type.role) {
            self.patch_children(vobj, tk);
        } else {
            assert(tk@ =~= journal + Seq::<Op>::empty());
        }
        let handle: u64 = self.object.handle;
        self.patch_properties(&vobj.properties, parent, tk);
        self.patch_properties(&vobj.child_props, parent, tk);
        proof {
            lemma_added(
                self.handlers@,
                vobj.handlers@,
                vobj.handlers@.len(),
                tk.next(),
            );
        }
        self.patch_handlers(&vobj.handlers, tk);
        proof {
            assert(tk@ =~= journal + goal.ops);
        }
        true
    }

    /// Applies each property's setter to the widget again.
    pub fn patch_properties(&mut self, properties: &Vec<VProperty>, parent: Option<u64>, tk: &mut Toolkit)
        ensures
            *final(self) == *old(self),
            final(tk)@ == old(tk)@ + applied(properties@, old(self).object.handle, parent, false),
            final(tk).next() == old(tk).next(),
    {
        apply_properties(properties, self.object.handle, parent, false, tk);
    }

    /// Brings the widget's connections in line with the bindings of a
    /// description: see [`Handlers::reconcile`].
    pub fn patch_handlers(&mut self, handlers: &Vec<VHandler>, tk: &mut Toolkit)
        requires
            old(tk).has_room(handlers@.len()),
        ensures
            final(self).object == old(self).object,
            final(self).children == old(self).children,
            final(self).handlers@ == retained(
                old(self).handlers@,
                handlers@,
                old(self).handlers@.len(),
            ) + added(old(self).handlers@, handlers@, handlers@.len(), old(tk).next()),
            final(tk)@ == old(tk)@ + connects(
                old(self).handlers@,
                handlers@,
                handlers@.len(),
                old(self).object.handle,
                old(tk).next(),
            ) + disconnects(
                dropped(old(self).handlers@, handlers@, old(self).handlers@.len()),
                old(self).object.handle,
            ),
            final(tk).next() == old(tk).next() + added(
                old(self).handlers@,
                handlers@,
                handlers@.len(),
                old(tk).next(),
            ).len(),
            old(self).handlers.wf() ==> final(self).handlers.wf(),
    {
        self.handlers.reconcile(self.object.handle, handlers, tk);
    }

    /// Reconciles the live children with the children of a new description,
    /// position by position: see [`reconciled`].
    #[verifier::rlimit(40)]
    pub fn patch_children(&mut self, vobj: &VWidget, tk: &mut Toolkit)
        requires
            reconcile_fault(lives(old(self).children@), vobj.children@, old(self).object) is None,
            old(tk).has_room(demand_all(vobj.children@, vobj.children@.len())),
        ensures
            final(self).object == old(self).object,
            final(self).handlers == old(self).handlers,
            lives(final(self).children@) == reconciled(
                lives(old(self).children@),
                vobj.children@,
                old(self).object,
                old(tk).next(),
            ).lives,
            final(tk)@ == old(tk)@ + reconciled(
                lives(old(self).children@),
                vobj.children@,
                old(self).object,
                old(tk).next(),
            ).ops,
            final(tk).next() == reconciled(
                lives(old(self).children@),
                vobj.children@,
                old(self).object,
                old(tk).next(),
            ).next,
            old(tk).next() <= final(tk).next() <= old(tk).next() + demand_all(
                vobj.children@,
                vobj.children@.len(),
            ),
        decreases vobj, 1nat,
    {
        let ghost journal = tk@;
        let ghost base = tk.next();
        let ghost orig = lives(self.children@);
        let ghost specs = vobj.children@;
        let object: Widget = self.object;
        let live_len: usize = self.children.len();
        let k: usize = agreement(&self.children, &vobj.children);
        let ghost goal = reconciled(orig, specs, object, base);
        let ghost head = patched_range(orig, specs, object, k as nat, base);
        proof {
            lemma_agree(orig, specs, 0);
            lemma_patch_range_fault(orig, specs, k as nat);
            lemma_demand_all(specs, k as nat, specs.len());
            lemma_range_len(orig, specs, object, k as nat, specs.len(), k < live_len, base, head.next);
        }
        patch_prefix(&mut self.children, vobj, &object, k, tk);
        let show: bool = k < live_len;
        if show {
            unmount_from(&self.children, object.handle, k, tk);
            let ghost kept = self.children@;
            self.children.truncate(k);
            proof {
                assert(self.children@ =~= kept.take(k as int));
                assert(lives(kept) == head.lives + orig.skip(k as int));
                assert(lives(kept.take(k as int)) =~= lives(kept).take(k as int));
                assert(lives(kept).take(k as int) =~= head.lives);
                assert(lives(kept).len() == orig.len());
                assert forall|n: int| k <= n < live_len implies lives(kept)[n] == orig[n] by {
                    assert(lives(kept)[n] == orig.skip(k as int)[n - k]);
                }
                lemma_destroyed_range(lives(kept), orig, object.handle, k as nat, live_len as nat);
            }
        } else {
            proof {
                assert(orig.skip(k as int) =~= Seq::<Live>::empty());
                assert(lives(self.children@) =~= head.lives);
                assert(tk@ =~= journal + head.ops + destroyed_range(
                    orig,
                    object.handle,
                    k as nat,
                    live_len as nat,
                ));
            }
        }
        proof {
            lemma_range_fault(specs, object.object_type, k as nat, specs.len());
        }
        build_from(&mut self.children, vobj, &object, show, tk);
        if !show {
            proof {
                assert(lives(self.children@).len() == self.children@.len());
                assert(head.lives.len() == k);
            }
            show_from(&self.children, k, tk);
            proof {
                let tail = built_range(specs, object, k as nat, specs.len(), show, head.next);
                assert(lives(self.children@).skip(k as int) =~= tail.lives);
            }
        }
        proof {
            assert(tk@ =~= journal + goal.ops);
        }
    }
}

/// Patches the first `k` children in place, one after the other.
pub fn patch_prefix(
    children: &mut Vec<State>,
    vobj: &VWidget,
    container: &Widget,
    k: usize,
    tk: &mut Toolkit,
)
    requires
        k <= old(children)@.len(),
        k <= vobj.children@.len(),
        forall|n: int|
            0 <= n < k ==> patch_fault(#[trigger] lives(old(children)@)[n], vobj.children@[n]) is None,
        old(tk).has_room(demand_all(vobj.children@, k as nat)),
    ensures
        final(children)@.len() == old(children)@.len(),
        lives(final(children)@) == patched_range(
            lives(old(children)@),
            vobj.children@,
            *container,
            k as nat,
            old(tk).next(),
        ).lives + lives(old(children)@).skip(k as int),
        final(tk)@ == old(tk)@ + patched_range(
            lives(old(children)@),
            vobj.children@,
            *container,
            k as nat,
            old(tk).next(),
        ).ops,
        final(tk).next() == patched_range(
            lives(old(children)@),
            vobj.children@,
            *container,
            k as nat,
            old(tk).next(),
        ).next,
        old(tk).next() <= final(tk).next() <= old(tk).next() + demand_all(vobj.children@, k as nat),
    decreases vobj, 0nat,
{
    let ghost journal = tk@;
    let ghost base = tk.next();
    let ghost orig = lives(children@);
    let ghost specs = vobj.children@;
    let ghost object = *container;
    proof {
        assert(lives(children@) =~= patched_range(orig, specs, object, 0, base).lives + orig.skip(0));
        assert(tk@ =~= journal + patched_range(orig, specs, object, 0, base).ops);
    }
    let mut i: usize = 0;
    while i < k
        invariant
            i <= k,
            k <= orig.len(),
            k <= specs.len(),
            specs == vobj.children@,
            object == *container,
            children@.len() == orig.len(),
            forall|n: int| 0 <= n < k ==> patch_fault(#[trigger] orig[n], specs[n]) is None,
            patched_range(orig, specs, object, i as nat, base).lives.len() == i,
            lives(children@) == patched_range(orig, specs, object, i as nat, base).lives + orig.skip(
                i as int,
            ),
            tk@ == journal + patched_range(orig, specs, object, i as nat, base).ops,
            tk.next() == patched_range(orig, specs, object, i as nat, base).next,
            base <= tk.next() <= base + demand_all(specs, i as nat),
            base + demand_all(specs, k as nat) <= u64::MAX,
        decreases k - i,
    {
        let ghost before = patched_range(orig, specs, object, i as nat, base);
        let ghost now = lives(children@);
        let ghost kids = children@;
        proof {
            lemma_demand_all(specs, (i + 1) as nat, k as nat);
            assert(now[i as int] == orig[i as int]);
            assert(now[i as int] == kids[i as int]@);
        }
        let child: &mut State = &mut children[i];
        child.patch(&vobj.children[i], Some(container.handle), tk);
        proof {
            let after = patched_range(orig, specs, object, (i + 1) as nat, base);
            let step = patched(orig[i as int], specs[i as int], Some(object.handle), before.next);
            assert(children@ =~= kids.update(i as int, children@[i as int]));
            assert(children@[i as int]@ == step.live);
            assert(after.lives == before.lives.push(step.live));
            assert forall|n: int| 0 <= n < orig.len() implies lives(children@)[n] == (after.lives
                + orig.skip(i + 1))[n] by {
                if n < i {
                    assert(children@[n] == kids[n]);
                    assert(now[n] == before.lives[n]);
                } else if n > i {
                    assert(children@[n] == kids[n]);
                    assert(now[n] == orig[n]);
                }
            }
            assert(lives(children@) =~= after.lives + orig.skip(i + 1));
            assert(tk@ =~= journal + after.ops);
        }
        i = i + 1;
    }
}

/// Tears down the children from `from` on, in order.
pub fn unmount_from(children: &Vec<State>, container: u64, from: usize, tk: &mut Toolkit)
    requires
        from <= children@.len(),
    ensures
        final(tk)@ == old(tk)@ + destroyed_range(
            lives(children@),
            container,
            from as nat,
            children@.len(),
        ),
        final(tk).next() == old(tk).next(),
{
    let ghost journal = tk@;
    let ghost kids = lives(children@);
    let mut j: usize = from;
    proof {
        assert(tk@ =~= journal + destroyed_range(kids, container, from as nat, from as nat));
    }
    while j < children.len()
        invariant
            from <= j <= children@.len(),
            kids == lives(children@),
            tk@ == journal + destroyed_range(kids, container, from as nat, j as nat),
            tk.next() == old(tk).next(),
        decreases children@.len() - j,
    {
        children[j].unmount(container, tk);
        proof {
            assert(tk@ =~= journal + destroyed_range(kids, container, from as nat, (j + 1) as nat));
        }
        j = j + 1;
    }
}

/// Builds the described children for which there is no live child yet, one
/// after the other, and places each in the container. With `show`, each is
/// made visible once more as soon as it is placed.
pub fn build_from(
    children: &mut Vec<State>,
    vobj: &VWidget,
    container: &Widget,
    show: bool,
    tk: &mut Toolkit,
)
    requires
        old(children)@.len() <= vobj.children@.len(),
        forall|n: int|
            old(children)@.len() <= n < vobj.children@.len() ==> build_fault(
                #[trigger] vobj.children@[n],
            ) is None && placement_fault(
                container.object_type.role,
                vobj.children@.len(),
                vobj.children@[n].object_type(),
            ) is None,
        old(tk).next() + demand_all(vobj.children@, vobj.children@.len()) - demand_all(
            vobj.children@,
            old(children)@.len(),
        ) <= u64::MAX,
    ensures
        lives(final(children)@) == lives(old(children)@) + built_range(
            vobj.children@,
            *container,
            old(children)@.len(),
            vobj.children@.len(),
            show,
            old(tk).next(),
        ).lives,
        final(tk)@ == old(tk)@ + built_range(
            vobj.children@,
            *container,
            old(children)@.len(),
            vobj.children@.len(),
            show,
            old(tk).next(),
        ).ops,
        final(tk).next() == built_range(
            vobj.children@,
            *container,
            old(children)@.len(),
            vobj.children@.len(),
            show,
            old(tk).next(),
        ).next,
        old(tk).next() <= final(tk).next(),
        final(tk).next() + demand_all(vobj.children@, old(children)@.len()) <= old(tk).next()
            + demand_all(vobj.children@, vobj.children@.len()),
    decreases vobj, 0nat,
{
    let ghost journal = tk@;
    let ghost base = tk.next();
    let ghost had = lives(children@);
    let ghost specs = vobj.children@;
    let ghost object = *container;
    let k: usize = children.len();
    let total: usize = vobj.children.len();
    let mut j: usize = k;
    proof {
        assert(lives(children@) =~= had + built_range(specs, object, k as nat, k as nat, show, base).lives);
        assert(tk@ =~= journal + built_range(specs, object, k as nat, k as nat, show, base).ops);
    }
    while j < total
        invariant
            k <= j <= total,
            total == specs.len(),
            specs == vobj.children@,
            object == *container,
            children@.len() == j,
            forall|n: int|
                k <= n < total ==> build_fault(#[trigger] specs[n]) is None && placement_fault(
                    object.object_type.role,
                    specs.len(),
                    specs[n].object_type(),
                ) is None,
            lives(children@) == had + built_range(specs, object, k as nat, j as nat, show, base).lives,
            tk@ == journal + built_range(specs, object, k as nat, j as nat, show, base).ops,
            tk.next() == built_range(specs, object, k as nat, j as nat, show, base).next,
            base <= tk.next(),
            tk.next() + demand_all(specs, k as nat) <= base + demand_all(specs, j as nat),
            base + demand_all(specs, total as nat) - demand_all(specs, k as nat) <= u64::MAX,
        decreases total - j,
    {
        let ghost done = lives(children@);
        proof {
            lemma_demand_all(specs, (j + 1) as nat, total as nat);
            lemma_demand_all(specs, k as nat, j as nat);
        }
        let child = State::build(&vobj.children[j], Some(container.handle), tk);
        let widget: Widget = *child.object();
        add_child(container, j, total, &vobj.children[j], &widget, tk);
        if show {
            tk.show(widget.handle);
        }
        children.push(child);
        proof {
            let after = built_range(specs, object, k as nat, (j + 1) as nat, show, base);
            assert(lives(children@) =~= done.push(child@));
            assert(done.push(child@) =~= had + after.lives);
            assert(tk@ =~= journal + after.ops);
        }
        j = j + 1;
    }
}

/// Makes the children from `from` on visible, in order.
pub fn show_from(children: &Vec<State>, from: usize, tk: &mut Toolkit)
    requires
        from <= children@.len(),
    ensures
        final(tk)@ == old(tk)@ + shown(lives(children@).skip(from as int)),
        final(tk).next() == old(tk).next(),
{
    let ghost journal = tk@;
    let ghost rest = lives(children@).skip(from as int);
    let mut j: usize = from;
    proof {
        assert(tk@ =~= journal + shown(rest.take(0)));
    }
    while j < children.len()
        invariant
            from <= j <= children@.len(),
            rest == lives(children@).skip(from as int),
            tk@ == journal + shown(rest.take(j - from)),
            tk.next() == old(tk).next(),
        decreases children@.len() - j,
    {
        let handle: u64 = children[j].object().handle;
        tk.show(handle);
        proof {
            assert(rest[j - from] == children@[j as int]@);
            assert(tk@ =~= journal + shown(rest.take(j + 1 - from)));
        }
        j = j + 1;
    }
    proof {
        assert(rest.take(rest.len() as int) =~= rest);
    }
}

/// Whether objects of this role can hold children at all.
pub fn is_container(role: Role) -> (b: bool)
    ensures
        b == role.is_container(),
{
    match role {
        Role::Widget => false,
        _ => true,
    }
}

} // verus!
