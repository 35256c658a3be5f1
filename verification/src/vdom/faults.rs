//! Telling beforehand whether a description can be built or patched onto a
//! live tree, and building and patching that refuse what cannot.

use vstd::prelude::*;

use crate::vdom::gtk_state::{agreement, is_container, lives, GtkState, State};
use crate::vdom::model::{agree, build_fault, built, lemma_agree, patch_fault, patch_range_fault, patched, range_fault, widget_build_fault, widget_patch_fault};
use crate::vdom::placement::{validate_placement, Fault};
use crate::vdom::laws::mirrors;
use crate::vdom::toolkit::{ObjectType, Role, Toolkit};
use crate::vdom::vnode::{demand_all, VNode, VWidget};

verus! {

/// The first fault of a run of children is the first fault of every longer
/// run that starts where it starts.
pub proof fn lemma_range_fault_first(nodes: Seq<VNode>, container: ObjectType, from: nat, at: nat, upto: nat)
    requires
        from <= at <= upto <= nodes.len(),
        range_fault(nodes, container, from, at) is Some,
    ensures
        range_fault(nodes, container, from, upto) == range_fault(nodes, container, from, at),
    decreases upto,
{
    if upto > at {
        lemma_range_fault_first(nodes, container, from, at, (upto - 1) as nat);
    }
}

/// The same for patching children in place.
pub proof fn lemma_patch_range_fault_first(nodes: Seq<crate::vdom::model::Live>, specs: Seq<VNode>, at: nat, upto: nat)
    requires
        at <= upto <= nodes.len(),
        upto <= specs.len(),
        patch_range_fault(nodes, specs, at) is Some,
    ensures
        patch_range_fault(nodes, specs, upto) == patch_range_fault(nodes, specs, at),
    decreases upto,
{
    if upto > at {
        lemma_patch_range_fault_first(nodes, specs, at, (upto - 1) as nat);
    }
}

/// Whether objects of this role are windows.
pub fn is_window(role: Role) -> (b: bool)
    ensures
        b == role.is_window(),
{
    match role {
        Role::Window | Role::Dialog => true,
        _ => false,
    }
}

/// Tells whether the children of `vobj` from `from` on can be built and
/// placed in a container of the given class, and if not, what stands in the
/// way first.
pub fn validate_range(vobj: &VWidget, container: ObjectType, from: usize) -> (r: Result<(), Fault>)
    requires
        from <= vobj.children@.len(),
    ensures
        r is Ok <==> range_fault(vobj.children@, container, from as nat, vobj.children@.len()) is None,
        r is Err ==> range_fault(vobj.children@, container, from as nat, vobj.children@.len())
            == Some(r->Err_0),
    decreases vobj, 0nat,
{
    let total: usize = vobj.children.len();
    let mut j: usize = from;
    while j < total
        invariant
            from <= j <= total,
            total == vobj.children@.len(),
            range_fault(vobj.children@, container, from as nat, j as nat) is None,
        decreases total - j,
    {
        match vobj.children[j].validate_build() {
            Err(f) => {
                proof {
                    lemma_range_fault_first(
                        vobj.children@,
                        container,
                        from as nat,
                        (j + 1) as nat,
                        total as nat,
                    );
                }
                return Err(f);
            },
            Ok(()) => {},
        }
        match validate_placement(container.role, total, vobj.children[j].get_object_type()) {
            Err(f) => {
                proof {
                    lemma_range_fault_first(
                        vobj.children@,
                        container,
                        from as nat,
                        (j + 1) as nat,
                        total as nat,
                    );
                }
                return Err(f);
            },
            Ok(()) => {},
        }
        j = j + 1;
    }
    Ok(())
}

impl VWidget {
    /// Tells whether the widget can be built, and if not, what stands in the
    /// way first.
    pub fn validate_build(&self) -> (r: Result<(), Fault>)
        ensures
            r is Ok <==> widget_build_fault(*self) is None,
            r is Err ==> widget_build_fault(*self) == Some(r->Err_0),
        decreases self, 1nat,
    {
        if is_container(self.object_type.role) {
            validate_range(self, self.object_type, 0)
        } else if self.children.len() > 0 {
            Err(Fault::NotAContainer)
        } else {
            Ok(())
        }
    }

    /// The handles that building the widget takes at most, if the number
    /// fits the handle type.
    pub fn handle_demand(&self) -> (r: Option<u64>)
        ensures
            r is Some <==> self.demand() <= u64::MAX,
            r is Some ==> r->0 == self.demand(),
        decreases self, 0nat,
    {
        let n: usize = self.handlers.len();
        if n as u64 >= u64::MAX {
            return None;
        }
        let mut sum: u64 = 1 + n as u64;
        let mut i: usize = 0;
        while i < self.children.len()
            invariant
                i <= self.children@.len(),
                sum == 1 + self.handlers@.len() + demand_all(self.children@, i as nat),
            decreases self.children@.len() - i,
        {
            proof {
                crate::vdom::model::lemma_demand_all(
                    self.children@,
                    (i + 1) as nat,
                    self.children@.len(),
                );
            }
            match self.children[i].handle_demand() {
                None => {
                    return None;
                },
                Some(d) => {
                    if d > u64::MAX - sum {
                        return None;
                    }
                    sum = sum + d;
                },
            }
            i = i + 1;
        }
        Some(sum)
    }
}

impl VNode {
    /// Tells whether the node can be built, and if not, what stands in the
    /// way first.
    pub fn validate_build(&self) -> (r: Result<(), Fault>)
        ensures
            r is Ok <==> build_fault(*self) is None,
            r is Err ==> build_fault(*self) == Some(r->Err_0),
        decreases self, 2nat,
    {
        match self {
            VNode::Widget(w) => w.validate_build(),
            VNode::Component(_) => Ok(()),
        }
    }

    /// The handles that building the node takes at most, if the number fits
    /// the handle type.
    pub fn handle_demand(&self) -> (r: Option<u64>)
        ensures
            r is Some <==> self.demand() <= u64::MAX,
            r is Some ==> r->0 == self.demand(),
        decreases self, 1nat,
    {
        match self {
            VNode::Widget(w) => w.handle_demand(),
            VNode::Component(_) => Some(1),
        }
    }
}

impl GtkState {
    /// Tells whether the widget can be patched to stand for the description,
    /// and if not, what stands in the way first. A widget of another class
    /// than the described is left alone by a patch, so nothing stands in its
    /// way.
    pub fn validate_patch(&self, vobj: &VWidget) -> (r: Result<(), Fault>)
        ensures
            r is Ok <==> widget_patch_fault(self.object, lives(self.children@), *vobj) is None,
            r is Err ==> widget_patch_fault(self.object, lives(self.children@), *vobj) == Some(
                r->Err_0,
            ),
        decreases vobj, 0nat,
    {
        let role = self.object.object_type.role;
        if self.object.object_type != vobj.object_type || !is_container(role) {
            return Ok(());
        }
        let ghost nodes = lives(self.children@);
        let ghost specs = vobj.children@;
        let live_len: usize = self.children.len();
        let spec_len: usize = vobj.children.len();
        let k: usize = agreement(&self.children, &vobj.children);
        proof {
            lemma_agree(nodes, specs, 0);
        }
        let mut i: usize = 0;
        while i < k
            invariant
                i <= k,
                k <= self.children@.len(),
                k <= vobj.children@.len(),
                nodes == lives(self.children@),
                specs == vobj.children@,
                k == agree(nodes, specs, 0),
                self.object.object_type == vobj.object_type,
                self.object.object_type.role.is_container(),
                patch_range_fault(nodes, specs, i as nat) is None,
            decreases k - i,
        {
            match self.children[i].validate_patch(&vobj.children[i]) {
                Err(f) => {
                    proof {
                        lemma_patch_range_fault_first(nodes, specs, (i + 1) as nat, k as nat);
                    }
                    return Err(f);
                },
                Ok(()) => {},
            }
            i = i + 1;
        }
        if k < live_len {
            if is_window(role) && live_len == 2 && ((k < spec_len && k == 0) || (k == spec_len && k
                == 1)) {
                Err(Fault::TitlebarRemoved)
            } else {
                validate_range(vobj, self.object.object_type, k)
            }
        } else {
            match validate_range(vobj, self.object.object_type, k) {
                Err(f) => Err(f),
                Ok(()) => if is_window(role) && k < spec_len && live_len == 1 {
                    Err(Fault::TitlebarAdded)
                } else {
                    Ok(())
                },
            }
        }
    }
}

impl State {
    /// Tells whether the node can be patched to stand for the description,
    /// and if not, what stands in the way first. A node that is not
    /// compatible with the description is left alone by a patch, so nothing
    /// stands in its way.
    pub fn validate_patch(&self, spec: &VNode) -> (r: Result<(), Fault>)
        ensures
            r is Ok <==> patch_fault(self@, *spec) is None,
            r is Err ==> patch_fault(self@, *spec) == Some(r->Err_0),
        decreases spec, 1nat,
    {
        proof {
            crate::vdom::gtk_state::lemma_state_view(*self);
        }
        match self {
            State::Gtk(g) => match spec {
                VNode::Widget(w) => g.validate_patch(w),
                VNode::Component(_) => Ok(()),
            },
            State::Component(_) => Ok(()),
        }
    }
}

/// What refuses a description: what stands in the way first, if anything
/// does, and else the want of handles.
pub open spec fn refusal(fault: Option<Fault>, tk: Toolkit, node: VNode) -> Option<Fault> {
    if fault is Some {
        fault
    } else if !tk.has_room(node.demand()) {
        Some(Fault::HandlesExhausted)
    } else {
        None
    }
}

/// Whether the session can hand out the handles that the description may
/// take.
pub fn has_room_for(tk: &Toolkit, spec: &VNode) -> (b: bool)
    ensures
        b == tk.has_room(spec.demand()),
{
    match spec.handle_demand() {
        Some(d) => tk.room_for(d),
        None => false,
    }
}

impl State {
    /// Builds the live counterpart of a description if the description can
    /// be built, and says why if it cannot. Nothing is asked of the toolkit
    /// where it is refused.
    pub fn try_build(spec: &VNode, parent: Option<u64>, tk: &mut Toolkit) -> (r: Result<State, Fault>)
        ensures
            r is Ok <==> refusal(build_fault(*spec), *old(tk), *spec) is None,
            r matches Ok(state) ==> {
                &&& state@ == built(*spec, parent, old(tk).next()).live
                &&& final(tk)@ == old(tk)@ + built(*spec, parent, old(tk).next()).ops
                &&& final(tk).next() == built(*spec, parent, old(tk).next()).next
                &&& state@.wf()
                &&& mirrors(state@, *spec)
                &&& state@.since(old(tk).next())
                &&& state@.below(final(tk).next())
                &&& state@.exclusive()
            },
            r matches Err(f) ==> {
                &&& refusal(build_fault(*spec), *old(tk), *spec) == Some(f)
                &&& final(tk)@ == old(tk)@
                &&& final(tk).next() == old(tk).next()
            },
    {
        match spec.validate_build() {
            Err(f) => Err(f),
            Ok(()) => if has_room_for(tk, spec) {
                Ok(State::build(spec, parent, tk))
            } else {
                Err(Fault::HandlesExhausted)
            },
        }
    }

    /// Patches the node to stand for a new description if nothing stands in
    /// the way, and says what does if something does. `Ok(false)` means that
    /// the node is not compatible with the description and has to be
    /// discarded and built anew. Nothing is changed, and nothing asked of
    /// the toolkit, where the patch is refused.
    pub fn try_patch(&mut self, spec: &VNode, parent: Option<u64>, tk: &mut Toolkit) -> (r: Result<
        bool,
        Fault,
    >)
        ensures
            r is Ok <==> refusal(patch_fault(old(self)@, *spec), *old(tk), *spec) is None,
            r matches Ok(ok) ==> {
                &&& ok == old(self)@.compatible(*spec)
                &&& final(self)@ == patched(old(self)@, *spec, parent, old(tk).next()).live
                &&& final(tk)@ == old(tk)@ + patched(old(self)@, *spec, parent, old(tk).next()).ops
                &&& final(tk).next() == patched(old(self)@, *spec, parent, old(tk).next()).next
                &&& old(self)@.wf() ==> final(self)@.wf()
                &&& ok ==> mirrors(final(self)@, *spec)
                &&& old(self)@.below(old(tk).next()) ==> final(self)@.below(final(tk).next())
                &&& old(self)@.below(old(tk).next()) && old(self)@.exclusive()
                    ==> final(self)@.exclusive()
            },
            r matches Err(f) ==> {
                &&& refusal(patch_fault(old(self)@, *spec), *old(tk), *spec) == Some(f)
                &&& final(self)@ == old(self)@
                &&& final(tk)@ == old(tk)@
                &&& final(tk).next() == old(tk).next()
            },
    {
        match self.validate_patch(spec) {
            Err(f) => Err(f),
            Ok(()) => if has_room_for(tk, spec) {
                Ok(self.patch(spec, parent, tk))
            } else {
                Err(Fault::HandlesExhausted)
            },
        }
    }
}

} // verus!
