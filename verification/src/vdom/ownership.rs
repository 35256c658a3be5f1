//! Every object of a live tree is in one place of it: building makes it so,
//! and patching keeps it so.

use vstd::prelude::*;

use crate::vdom::handlers::{added, connects, disconnects, dropped, lemma_added, Entry};
use crate::vdom::handles::{
    holds_inside, law_built_is_fresh, law_kept_children_are_untouched, lemma_adjustments_touch_nothing,
    lemma_below_grows, lemma_built_range_bound, lemma_built_range_fresh,
    lemma_connects_touch_nothing, lemma_holds_within, lemma_patched_bound,
    lemma_patched_range_bound, lemma_touches_split, separate, touches,
};
use crate::vdom::laws::{law_rebuilt_from_first_divergence, patched_in_place};
use crate::vdom::model::{
    agree, built, built_range, lemma_agree, lemma_demand_all, lemma_range_len, patched,
    patched_range, patched_widget, reconciled, Live,
};
use crate::vdom::placement::applied;
use crate::vdom::toolkit::Widget;
use crate::vdom::vnode::{demand_all, VNode, VWidget};

verus! {

/// Building leaves a tree in which every object is in one place.
pub proof fn law_built_exclusive(node: VNode, parent: Option<u64>, base: nat)
    requires
        base + node.demand() <= u64::MAX,
    ensures
        built(node, parent, base).live.exclusive(),
    decreases node, 1nat,
{
    match node {
        VNode::Widget(w) => {
            let live = built(node, parent, base).live;
            let object = Widget { handle: base as u64, object_type: w.object_type };
            let entries = added(Seq::empty(), w.handlers@, w.handlers@.len(), base + 1);
            lemma_added(Seq::empty(), w.handlers@, w.handlers@.len(), base + 1);
            let start = base + 1 + entries.len();
            if w.object_type.role.is_container() {
                let kids = built_range(w.children@, object, 0, w.children@.len(), false, start);
                lemma_built_range_exclusive(w.children@, object, 0, w.children@.len(), false, start);
                lemma_built_range_fresh(w.children@, object, 0, w.children@.len(), false, start);
                assert(live->Gtk_children == kids.lives);
                if holds_inside(live, object.handle) {
                    let i = choose|i: int|
                        0 <= i < kids.lives.len() && (#[trigger] kids.lives[i]).holds(object.handle);
                    lemma_holds_within(kids.lives[i], object.handle, start);
                }
            } else {
                assert(live->Gtk_children.len() == 0);
            }
        },
        VNode::Component(_) => {},
    }
}

/// The same for a run of children: each has every object in one place, and
/// no two have an object in common.
pub proof fn lemma_built_range_exclusive(
    specs: Seq<VNode>,
    container: Widget,
    from: nat,
    upto: nat,
    show: bool,
    base: nat,
)
    requires
        from <= upto <= specs.len(),
        base + demand_all(specs, upto) - demand_all(specs, from) <= u64::MAX,
    ensures
        separate(built_range(specs, container, from, upto, show, base).lives),
        forall|i: int|
            0 <= i < built_range(specs, container, from, upto, show, base).lives.len() ==> (
            #[trigger] built_range(specs, container, from, upto, show, base).lives[i]).exclusive(),
    decreases specs, upto,
{
    if upto > from {
        let m = (upto - 1) as nat;
        lemma_demand_all(specs, from, m);
        lemma_built_range_exclusive(specs, container, from, m, show, base);
        lemma_built_range_fresh(specs, container, from, m, show, base);
        lemma_built_range_bound(specs, container, from, m, show, base);
        let before = built_range(specs, container, from, m, show, base);
        let now = built_range(specs, container, from, upto, show, base);
        let child = built(specs[m as int], Some(container.handle), before.next);
        law_built_exclusive(specs[m as int], Some(container.handle), before.next);
        law_built_is_fresh(specs[m as int], Some(container.handle), before.next);
        let last = before.lives.len() as int;
        assert forall|i: int| 0 <= i < now.lives.len() implies (#[trigger] now.lives[i]).exclusive() by {
            if i < last {
                assert(now.lives[i] == before.lives[i]);
            }
        }
        assert forall|i: int, j: int, h: u64|
            0 <= i < now.lives.len() && 0 <= j < now.lives.len() && i != j && (
            #[trigger] now.lives[i].holds(h)) implies !(#[trigger] now.lives[j].holds(h)) by {
            if now.lives[j].holds(h) {
                if i < last && j < last {
                    assert(now.lives[i] == before.lives[i]);
                    assert(now.lives[j] == before.lives[j]);
                    assert(before.lives[i].holds(h));
                    assert(!before.lives[j].holds(h));
                } else if i < last {
                    assert(now.lives[i] == before.lives[i]);
                    lemma_holds_within(before.lives[i], h, before.next);
                    lemma_holds_within(child.live, h, before.next);
                } else {
                    assert(now.lives[j] == before.lives[j]);
                    lemma_holds_within(before.lives[j], h, before.next);
                    lemma_holds_within(child.live, h, before.next);
                }
            }
        }
    }
}

/// What a patched tree holds, the tree held before or is new: patching
/// brings in no object but under a handle that was free.
pub proof fn lemma_patched_holds(live: Live, node: VNode, parent: Option<u64>, base: nat, h: u64)
    requires
        base + node.demand() <= u64::MAX,
        patched(live, node, parent, base).live.holds(h),
    ensures
        live.holds(h) || base <= h < patched(live, node, parent, base).next,
    decreases node, 1nat,
{
    lemma_patched_bound(live, node, parent, base);
    match (live, node) {
        (Live::Gtk { object, handlers, children }, VNode::Widget(w)) => {
            if object.object_type == w.object_type && object.object_type.role.is_container() {
                let step = patched(live, node, parent, base);
                let kids = reconciled(children, w.children@, object, base);
                lemma_added(handlers, w.handlers@, w.handlers@.len(), kids.next);
                assert(step.live->Gtk_children == kids.lives);
                if object.handle != h {
                    let i = choose|i: int| 0 <= i < kids.lives.len() && (#[trigger] kids.lives[i]).holds(h);
                    lemma_reconciled_holds(children, w.children@, object, base, i, h);
                    if !(base <= h < kids.next) {
                        assert(children[i].holds(h));
                    }
                }
            }
        },
        _ => {},
    }
}

/// The same for the children of a container: what the child at `i` holds
/// afterwards, the child at `i` held before or is new.
pub proof fn lemma_reconciled_holds(
    nodes: Seq<Live>,
    specs: Seq<VNode>,
    container: Widget,
    base: nat,
    i: int,
    h: u64,
)
    requires
        base + demand_all(specs, specs.len()) <= u64::MAX,
        0 <= i < reconciled(nodes, specs, container, base).lives.len(),
        reconciled(nodes, specs, container, base).lives[i].holds(h),
    ensures
        (i < agree(nodes, specs, 0) && i < nodes.len() && nodes[i].holds(h)) || base <= h < reconciled(
            nodes,
            specs,
            container,
            base,
        ).next,
    decreases specs, specs.len() + 1,
{
    let k = agree(nodes, specs, 0);
    lemma_agree(nodes, specs, 0);
    lemma_demand_all(specs, k, specs.len());
    let after = reconciled(nodes, specs, container, base);
    let head = patched_range(nodes, specs, container, k, base);
    let show = k < nodes.len();
    let tail = built_range(specs, container, k, specs.len(), show, head.next);
    lemma_range_len(nodes, specs, container, k, specs.len(), show, base, head.next);
    lemma_patched_range_bound(nodes, specs, container, k, base);
    lemma_built_range_bound(specs, container, k, specs.len(), show, head.next);
    if i < k {
        assert(after.lives[i] == head.lives[i]);
        lemma_patched_range_holds(nodes, specs, container, k, base, i, h);
    } else {
        assert(after.lives[i] == tail.lives[i - k]);
        lemma_built_range_fresh(specs, container, k, specs.len(), show, head.next);
        lemma_holds_within(tail.lives[i - k], h, head.next);
        lemma_holds_within(tail.lives[i - k], h, tail.next);
    }
}

/// The same for a run of children patched in place.
pub proof fn lemma_patched_range_holds(
    nodes: Seq<Live>,
    specs: Seq<VNode>,
    container: Widget,
    upto: nat,
    base: nat,
    i: int,
    h: u64,
)
    requires
        upto <= nodes.len(),
        upto <= specs.len(),
        base + demand_all(specs, upto) <= u64::MAX,
        0 <= i < upto,
        patched_range(nodes, specs, container, upto, base).lives.len() == upto,
        patched_range(nodes, specs, container, upto, base).lives[i].holds(h),
    ensures
        nodes[i].holds(h) || base <= h < patched_range(nodes, specs, container, upto, base).next,
    decreases specs, upto,
{
    let m = (upto - 1) as nat;
    lemma_patched_range_bound(nodes, specs, container, m, base);
    lemma_range_len(nodes, specs, container, m, m, false, base, base);
    let before = patched_range(nodes, specs, container, m, base);
    let now = patched_range(nodes, specs, container, upto, base);
    lemma_patched_bound(nodes[m as int], specs[m as int], Some(container.handle), before.next);
    if i < m {
        assert(now.lives[i] == before.lives[i]);
        lemma_patched_range_holds(nodes, specs, container, m, base, i, h);
    } else {
        lemma_patched_holds(nodes[m as int], specs[m as int], Some(container.handle), before.next, h);
    }
}

/// Patching keeps every object in one place: a tree that was so, and whose
/// handles were all given before, is so afterwards.
pub proof fn law_patched_exclusive(live: Live, node: VNode, parent: Option<u64>, base: nat)
    requires
        live.exclusive(),
        live.below(base),
        base + node.demand() <= u64::MAX,
    ensures
        patched(live, node, parent, base).live.exclusive(),
    decreases node, 1nat,
{
    match (live, node) {
        (Live::Gtk { object, handlers, children }, VNode::Widget(w)) => {
            if object.object_type == w.object_type && object.object_type.role.is_container() {
                let step = patched(live, node, parent, base);
                let kids = reconciled(children, w.children@, object, base);
                lemma_added(handlers, w.handlers@, w.handlers@.len(), kids.next);
                assert(step.live->Gtk_children == kids.lives);
                lemma_reconciled_exclusive(children, w.children@, object, base);
                if holds_inside(step.live, object.handle) {
                    let i = choose|i: int|
                        0 <= i < kids.lives.len() && (#[trigger] kids.lives[i]).holds(object.handle);
                    lemma_reconciled_holds(children, w.children@, object, base, i, object.handle);
                    assert(children[i].holds(object.handle));
                    assert(holds_inside(live, object.handle));
                }
            } else if object.object_type == w.object_type {
                let step = patched(live, node, parent, base);
                assert(step.live->Gtk_children == children);
                assert(holds_inside(step.live, object.handle) == holds_inside(live, object.handle));
            }
        },
        _ => {},
    }
}

/// The same for the children of a container.
pub proof fn lemma_reconciled_exclusive(
    nodes: Seq<Live>,
    specs: Seq<VNode>,
    container: Widget,
    base: nat,
)
    requires
        separate(nodes),
        forall|i: int| 0 <= i < nodes.len() ==> (#[trigger] nodes[i]).exclusive(),
        forall|i: int| 0 <= i < nodes.len() ==> (#[trigger] nodes[i]).below(base),
        base + demand_all(specs, specs.len()) <= u64::MAX,
    ensures
        separate(reconciled(nodes, specs, container, base).lives),
        forall|i: int|
            0 <= i < reconciled(nodes, specs, container, base).lives.len() ==> (
            #[trigger] reconciled(nodes, specs, container, base).lives[i]).exclusive(),
    decreases specs, specs.len() + 1,
{
    let k = agree(nodes, specs, 0);
    lemma_agree(nodes, specs, 0);
    lemma_demand_all(specs, k, specs.len());
    let after = reconciled(nodes, specs, container, base);
    let head = patched_range(nodes, specs, container, k, base);
    let show = k < nodes.len();
    let tail = built_range(specs, container, k, specs.len(), show, head.next);
    lemma_range_len(nodes, specs, container, k, specs.len(), show, base, head.next);
    lemma_patched_range_bound(nodes, specs, container, k, base);
    lemma_patched_range_exclusive(nodes, specs, container, k, base);
    lemma_built_range_exclusive(specs, container, k, specs.len(), show, head.next);
    lemma_built_range_fresh(specs, container, k, specs.len(), show, head.next);
    assert forall|i: int| 0 <= i < after.lives.len() implies (#[trigger] after.lives[i]).exclusive() by {
        if i < k {
            assert(after.lives[i] == head.lives[i]);
        } else {
            assert(after.lives[i] == tail.lives[i - k]);
        }
    }
    assert forall|i: int, j: int, h: u64|
        0 <= i < after.lives.len() && 0 <= j < after.lives.len() && i != j && (
        #[trigger] after.lives[i].holds(h)) implies !(#[trigger] after.lives[j].holds(h)) by {
        if after.lives[j].holds(h) {
            if i < k && j < k {
                assert(after.lives[i] == head.lives[i]);
                assert(after.lives[j] == head.lives[j]);
                assert(head.lives[i].holds(h));
                assert(!head.lives[j].holds(h));
            } else if i >= k && j >= k {
                assert(after.lives[i] == tail.lives[i - k]);
                assert(after.lives[j] == tail.lives[j - k]);
                assert(tail.lives[i - k].holds(h));
                assert(!tail.lives[j - k].holds(h));
            } else {
                let a = if i < k { i } else { j };
                let b = if i < k { j } else { i };
                assert(after.lives[a] == head.lives[a]);
                assert(after.lives[b] == tail.lives[b - k]);
                lemma_patched_range_holds(nodes, specs, container, k, base, a, h);
                lemma_holds_within(tail.lives[b - k], h, head.next);
                if nodes[a].holds(h) {
                    lemma_holds_within(nodes[a], h, base);
                }
            }
        }
    }
}

/// The same for a run of children patched in place.
pub proof fn lemma_patched_range_exclusive(
    nodes: Seq<Live>,
    specs: Seq<VNode>,
    container: Widget,
    upto: nat,
    base: nat,
)
    requires
        upto <= nodes.len(),
        upto <= specs.len(),
        separate(nodes),
        forall|i: int| 0 <= i < nodes.len() ==> (#[trigger] nodes[i]).exclusive(),
        forall|i: int| 0 <= i < nodes.len() ==> (#[trigger] nodes[i]).below(base),
        base + demand_all(specs, upto) <= u64::MAX,
    ensures
        separate(patched_range(nodes, specs, container, upto, base).lives),
        forall|i: int|
            0 <= i < patched_range(nodes, specs, container, upto, base).lives.len() ==> (
            #[trigger] patched_range(nodes, specs, container, upto, base).lives[i]).exclusive(),
    decreases specs, upto,
{
    if upto > 0 {
        let m = (upto - 1) as nat;
        lemma_patched_range_exclusive(nodes, specs, container, m, base);
        lemma_patched_range_bound(nodes, specs, container, m, base);
        lemma_range_len(nodes, specs, container, m, m, false, base, base);
        lemma_range_len(nodes, specs, container, upto, upto, false, base, base);
        let before = patched_range(nodes, specs, container, m, base);
        let now = patched_range(nodes, specs, container, upto, base);
        let child = patched(nodes[m as int], specs[m as int], Some(container.handle), before.next);
        lemma_below_grows(nodes[m as int], base, before.next);
        law_patched_exclusive(nodes[m as int], specs[m as int], Some(container.handle), before.next);
        assert forall|i: int| 0 <= i < now.lives.len() implies (#[trigger] now.lives[i]).exclusive() by {
            if i < m {
                assert(now.lives[i] == before.lives[i]);
            }
        }
        assert forall|i: int, j: int, h: u64|
            0 <= i < now.lives.len() && 0 <= j < now.lives.len() && i != j && (
            #[trigger] now.lives[i].holds(h)) implies !(#[trigger] now.lives[j].holds(h)) by {
            if now.lives[j].holds(h) {
                if i < m && j < m {
                    assert(now.lives[i] == before.lives[i]);
                    assert(now.lives[j] == before.lives[j]);
                    assert(before.lives[i].holds(h));
                    assert(!before.lives[j].holds(h));
                } else {
                    let a = if i < m { i } else { j };
                    assert(now.lives[a] == before.lives[a]);
                    lemma_patched_range_holds(nodes, specs, container, m, base, a, h);
                    lemma_patched_holds(
                        nodes[m as int],
                        specs[m as int],
                        Some(container.handle),
                        before.next,
                        h,
                    );
                    if nodes[a].holds(h) {
                        lemma_holds_within(nodes[a], h, base);
                        assert(!nodes[m as int].holds(h));
                    }
                    if nodes[m as int].holds(h) {
                        lemma_holds_within(nodes[m as int], h, base);
                    }
                }
            }
        }
    }
}

/// The children of a tree in which every object is in one place have no
/// object in common, and none holds its own root a second time.
pub proof fn lemma_exclusive_children(live: Live)
    requires
        live.exclusive(),
    ensures
        live matches Live::Gtk { children, .. } ==> separate(children) && forall|i: int|
            0 <= i < children.len() ==> !holds_inside(
                #[trigger] children[i],
                children[i].object().handle,
            ),
{
    match live {
        Live::Gtk { children, .. } => {
            assert forall|i: int| 0 <= i < children.len() implies !holds_inside(
                #[trigger] children[i],
                children[i].object().handle,
            ) by {
                assert(children[i].exclusive());
            }
        },
        Live::Component { .. } => {},
    }
}

/// Where a container is patched to stand for a description of its class
/// and `k` is the index of the first child that diverges from its
/// description, every child before `k` stays in its place. It is the same
/// object at the same index afterwards, patched to stand for its own
/// description; and nothing that the patch asks of the toolkit, at any
/// level, makes an object under its handle, places it or removes it. This
/// holds of every tree that building and patching leave: one whose objects
/// are each in one place, with handles that were given before.
pub proof fn law_kept_children_stay_in_place(live: Live, w: VWidget, parent: Option<u64>, base: nat)
    requires
        live is Gtk,
        live->Gtk_object.object_type == w.object_type,
        w.object_type.role.is_container(),
        live.exclusive(),
        live.below(base),
        base + w.demand() <= u64::MAX,
    ensures
        ({
            let step = patched(live, VNode::Widget(w), parent, base);
            let children = live->Gtk_children;
            let k = agree(children, w.children@, 0);
            &&& step.live is Gtk
            &&& k <= step.live->Gtk_children.len()
            &&& forall|i: int|
                0 <= i < k ==> {
                    &&& patched_in_place(
                        #[trigger] step.live->Gtk_children[i],
                        children[i],
                        w.children@[i],
                    )
                    &&& !touches(step.ops, children[i].object().handle)
                }
        }),
{
    let node = VNode::Widget(w);
    let step = patched(live, node, parent, base);
    match live {
        Live::Gtk { object, handlers, children } => {
            let specs = w.children@;
            let k = agree(children, specs, 0);
            let kids = reconciled(children, specs, object, base);
            lemma_agree(children, specs, 0);
            lemma_exclusive_children(live);
            law_kept_children_are_untouched(children, specs, object, base);
            law_rebuilt_from_first_divergence(children, specs, object, base);
            assert(step.live->Gtk_children == kids.lives);
            assert forall|i: int| 0 <= i < k implies !touches(
                step.ops,
                (#[trigger] children[i]).object().handle,
            ) by {
                let h = children[i].object().handle;
                if touches(step.ops, h) {
                    lemma_step_touches_children(object, handlers, children, w, parent, base, h);
                    assert(!touches(kids.ops, h));
                }
            }
        },
        Live::Component { .. } => {},
    }
}

/// What the patch of a widget touches, the reconciliation of its children
/// touches.
proof fn lemma_step_touches_children(
    object: Widget,
    handlers: Seq<Entry>,
    children: Seq<Live>,
    w: VWidget,
    parent: Option<u64>,
    base: nat,
    h: u64,
)
    requires
        object.object_type.role.is_container(),
        touches(patched_widget(object, handlers, children, w, parent, base).ops, h),
    ensures
        touches(reconciled(children, w.children@, object, base).ops, h),
{
    let kids = reconciled(children, w.children@, object, base);
    let props = applied(w.properties@, object.handle, parent, false);
    let child_props = applied(w.child_props@, object.handle, parent, false);
    let made = connects(handlers, w.handlers@, w.handlers@.len(), object.handle, kids.next);
    let gone = disconnects(dropped(handlers, w.handlers@, handlers.len()), object.handle);
    lemma_touches_split(kids.ops + props + child_props + made, gone, h);
    lemma_adjustments_touch_nothing(gone, h);
    lemma_touches_split(kids.ops + props + child_props, made, h);
    lemma_connects_touch_nothing(handlers, w.handlers@, w.handlers@.len(), object.handle, kids.next, h);
    lemma_touches_split(kids.ops + props, child_props, h);
    lemma_adjustments_touch_nothing(child_props, h);
    lemma_touches_split(kids.ops, props, h);
    lemma_adjustments_touch_nothing(props, h);
}

} // verus!
