//! Which handles a live tree holds: building takes handles that nothing
//! holds yet, and patching keeps the handles of what it keeps.

use vstd::prelude::*;

use crate::vdom::handlers::{
    added, connects, disconnects, dropped, lemma_added, lemma_retained, retained, Entry,
};
use crate::vdom::laws::lemma_built_next;
use crate::vdom::model::{
    agree, built, built_range, destroyed, destroyed_range, lemma_agree, lemma_demand_all,
    lemma_range_len, patched, patched_range, reconciled, shown, Live, Steps,
};
use crate::vdom::placement::{applied, placed};
use crate::vdom::toolkit::{Op, Widget};
use crate::vdom::vnode::{demand_all, VHandler, VNode};

verus! {

impl Live {
    /// Every handle in the tree, of an object or of a connection, is below
    /// `n`: it was given before `n` was the next free handle.
    pub open spec fn below(self, n: nat) -> bool
        decreases self,
    {
        match self {
            Live::Gtk { object, handlers, children } => {
                &&& object.handle < n
                &&& forall|i: int| 0 <= i < handlers.len() ==> (#[trigger] handlers[i]).connection < n
                &&& forall|i: int| 0 <= i < children.len() ==> (#[trigger] children[i]).below(n)
            },
            Live::Component { object, .. } => object.handle < n,
        }
    }

    /// Every handle in the tree is `n` or above: it was given when `n` was
    /// the next free handle, or later.
    pub open spec fn since(self, n: nat) -> bool
        decreases self,
    {
        match self {
            Live::Gtk { object, handlers, children } => {
                &&& object.handle >= n
                &&& forall|i: int| 0 <= i < handlers.len() ==> (#[trigger] handlers[i]).connection >= n
                &&& forall|i: int| 0 <= i < children.len() ==> (#[trigger] children[i]).since(n)
            },
            Live::Component { object, .. } => object.handle >= n,
        }
    }
}

/// What is below a handle is below every later one, and what is since a
/// handle is since every earlier one.
pub proof fn lemma_below_grows(live: Live, n: nat, m: nat)
    requires
        n <= m,
    ensures
        live.below(n) ==> live.below(m),
        live.since(m) ==> live.since(n),
    decreases live,
{
    match live {
        Live::Gtk { object, handlers, children } => {
            assert forall|i: int| 0 <= i < children.len() implies ((#[trigger] children[i]).below(n)
                ==> children[i].below(m)) && (children[i].since(m) ==> children[i].since(n)) by {
                lemma_below_grows(children[i], n, m);
            }
        },
        Live::Component { .. } => {},
    }
}

/// Building takes no more handles than the description's demand.
pub proof fn lemma_built_bound(node: VNode, parent: Option<u64>, base: nat)
    ensures
        base < built(node, parent, base).next <= base + node.demand(),
    decreases node, 1nat,
{
    lemma_built_next(node, parent, base);
    match node {
        VNode::Widget(w) => {
            let entries = added(Seq::empty(), w.handlers@, w.handlers@.len(), base + 1);
            lemma_added(Seq::empty(), w.handlers@, w.handlers@.len(), base + 1);
            if w.object_type.role.is_container() {
                let object = Widget { handle: base as u64, object_type: w.object_type };
                lemma_built_range_bound(
                    w.children@,
                    object,
                    0,
                    w.children@.len(),
                    false,
                    base + 1 + entries.len(),
                );
            }
        },
        VNode::Component(_) => {},
    }
}

/// The same for a run of children.
pub proof fn lemma_built_range_bound(
    specs: Seq<VNode>,
    container: Widget,
    from: nat,
    upto: nat,
    show: bool,
    base: nat,
)
    requires
        from <= upto <= specs.len(),
    ensures
        base <= built_range(specs, container, from, upto, show, base).next,
        built_range(specs, container, from, upto, show, base).next + demand_all(specs, from) <= base
            + demand_all(specs, upto),
    decreases specs, upto,
{
    if upto > from {
        let m = (upto - 1) as nat;
        lemma_built_range_bound(specs, container, from, m, show, base);
        let before = built_range(specs, container, from, m, show, base);
        lemma_built_bound(specs[m as int], Some(container.handle), before.next);
    }
}

/// Patching takes no more handles than the description's demand.
pub proof fn lemma_patched_bound(live: Live, node: VNode, parent: Option<u64>, base: nat)
    ensures
        base <= patched(live, node, parent, base).next <= base + node.demand(),
    decreases node, 1nat,
{
    match (live, node) {
        (Live::Gtk { object, handlers, children }, VNode::Widget(w)) => {
            if object.object_type == w.object_type {
                let kids = if object.object_type.role.is_container() {
                    reconciled(children, w.children@, object, base)
                } else {
                    Steps { lives: children, ops: Seq::empty(), next: base }
                };
                if object.object_type.role.is_container() {
                    lemma_reconciled_bound(children, w.children@, object, base);
                }
                lemma_added(handlers, w.handlers@, w.handlers@.len(), kids.next);
            }
        },
        _ => {},
    }
}

/// The same for the children of a container.
pub proof fn lemma_reconciled_bound(nodes: Seq<Live>, specs: Seq<VNode>, container: Widget, base: nat)
    ensures
        base <= reconciled(nodes, specs, container, base).next <= base + demand_all(specs, specs.len()),
    decreases specs, specs.len() + 1,
{
    let k = agree(nodes, specs, 0);
    lemma_agree(nodes, specs, 0);
    let head = patched_range(nodes, specs, container, k, base);
    lemma_patched_range_bound(nodes, specs, container, k, base);
    lemma_built_range_bound(specs, container, k, specs.len(), k < nodes.len(), head.next);
}

/// The same for a run of children patched in place.
pub proof fn lemma_patched_range_bound(
    nodes: Seq<Live>,
    specs: Seq<VNode>,
    container: Widget,
    upto: nat,
    base: nat,
)
    requires
        upto <= nodes.len(),
        upto <= specs.len(),
    ensures
        base <= patched_range(nodes, specs, container, upto, base).next <= base + demand_all(
            specs,
            upto,
        ),
    decreases specs, upto,
{
    if upto > 0 {
        let m = (upto - 1) as nat;
        lemma_patched_range_bound(nodes, specs, container, m, base);
        let before = patched_range(nodes, specs, container, m, base);
        lemma_patched_bound(nodes[m as int], specs[m as int], Some(container.handle), before.next);
    }
}

/// Building takes fresh handles: every handle of what it leaves was free
/// before and is taken afterwards.
pub proof fn law_built_is_fresh(node: VNode, parent: Option<u64>, base: nat)
    requires
        base + node.demand() <= u64::MAX,
    ensures
        built(node, parent, base).live.since(base),
        built(node, parent, base).live.below(built(node, parent, base).next),
    decreases node, 1nat,
{
    lemma_built_bound(node, parent, base);
    match node {
        VNode::Widget(w) => {
            let entries = added(Seq::empty(), w.handlers@, w.handlers@.len(), base + 1);
            lemma_added(Seq::empty(), w.handlers@, w.handlers@.len(), base + 1);
            let start = base + 1 + entries.len();
            let next = built(node, parent, base).next;
            if w.object_type.role.is_container() {
                let object = Widget { handle: base as u64, object_type: w.object_type };
                lemma_built_range_bound(w.children@, object, 0, w.children@.len(), false, start);
                lemma_built_range_fresh(w.children@, object, 0, w.children@.len(), false, start);
                let kids = built_range(w.children@, object, 0, w.children@.len(), false, start);
                assert forall|i: int| 0 <= i < kids.lives.len() implies (#[trigger] kids.lives[i]).since(
                    base,
                ) by {
                    lemma_below_grows(kids.lives[i], base, start);
                }
            }
        },
        VNode::Component(_) => {},
    }
}

/// The same for a run of children.
pub proof fn lemma_built_range_fresh(
    specs: Seq<VNode>,
    container: Widget,
    from: nat,
    upto: nat,
    show: bool,
    base: nat,
)
    requires
        from <= upto <= specs.len(),
        base + demand_all(specs, upto) - demand_all(specs, from) <= u64::MAX,
    ensures
        forall|i: int|
            0 <= i < built_range(specs, container, from, upto, show, base).lives.len() ==> {
                let child = #[trigger] built_range(specs, container, from, upto, show, base).lives[i];
                child.since(base) && child.below(
                    built_range(specs, container, from, upto, show, base).next,
                )
            },
    decreases specs, upto,
{
    if upto > from {
        let m = (upto - 1) as nat;
        lemma_demand_all(specs, from, m);
        lemma_built_range_fresh(specs, container, from, m, show, base);
        lemma_built_range_bound(specs, container, from, m, show, base);
        let before = built_range(specs, container, from, m, show, base);
        let now = built_range(specs, container, from, upto, show, base);
        let child = built(specs[m as int], Some(container.handle), before.next);
        law_built_is_fresh(specs[m as int], Some(container.handle), before.next);
        lemma_built_bound(specs[m as int], Some(container.handle), before.next);
        lemma_below_grows(child.live, base, before.next);
        assert forall|i: int| 0 <= i < now.lives.len() implies {
            let c = #[trigger] now.lives[i];
            c.since(base) && c.below(now.next)
        } by {
            if i < before.lives.len() {
                assert(now.lives[i] == before.lives[i]);
                lemma_below_grows(before.lives[i], before.next, now.next);
            }
        }
    }
}

/// Patching a tree whose handles were all given before leaves a tree whose
/// handles have all been given: what it keeps keeps its handles, and what
/// it builds takes fresh ones.
pub proof fn law_patched_below(live: Live, node: VNode, parent: Option<u64>, base: nat)
    requires
        live.below(base),
        base + node.demand() <= u64::MAX,
    ensures
        patched(live, node, parent, base).live.below(patched(live, node, parent, base).next),
    decreases node, 1nat,
{
    lemma_patched_bound(live, node, parent, base);
    match (live, node) {
        (Live::Gtk { object, handlers, children }, VNode::Widget(w)) => {
            if object.object_type == w.object_type {
                let step = patched(live, node, parent, base);
                let kids = if object.object_type.role.is_container() {
                    reconciled(children, w.children@, object, base)
                } else {
                    Steps { lives: children, ops: Seq::empty(), next: base }
                };
                if object.object_type.role.is_container() {
                    lemma_reconciled_below(children, w.children@, object, base);
                }
                let kept = retained(handlers, w.handlers@, handlers.len());
                let fresh = added(handlers, w.handlers@, w.handlers@.len(), kids.next);
                lemma_retained(handlers, w.handlers@, handlers.len());
                lemma_added(handlers, w.handlers@, w.handlers@.len(), kids.next);
                assert(handlers.take(handlers.len() as int) =~= handlers);
                let all = kept + fresh;
                assert forall|i: int| 0 <= i < all.len() implies (#[trigger] all[i]).connection
                    < step.next by {
                    if i < kept.len() {
                        let j = choose|j: int| 0 <= j < handlers.len() && handlers[j] == kept[i];
                        assert(handlers[j].connection < base);
                    } else {
                        assert(all[i] == fresh[i - kept.len()]);
                    }
                }
                assert forall|i: int| 0 <= i < kids.lives.len() implies (#[trigger] kids.lives[i]).below(
                    step.next,
                ) by {
                    lemma_below_grows(kids.lives[i], kids.next, step.next);
                }
            }
        },
        _ => {},
    }
}

/// The same for the children of a container.
pub proof fn lemma_reconciled_below(nodes: Seq<Live>, specs: Seq<VNode>, container: Widget, base: nat)
    requires
        forall|i: int| 0 <= i < nodes.len() ==> (#[trigger] nodes[i]).below(base),
        base + demand_all(specs, specs.len()) <= u64::MAX,
    ensures
        forall|i: int|
            0 <= i < reconciled(nodes, specs, container, base).lives.len() ==> (
            #[trigger] reconciled(nodes, specs, container, base).lives[i]).below(
                reconciled(nodes, specs, container, base).next,
            ),
    decreases specs, specs.len() + 1,
{
    let k = agree(nodes, specs, 0);
    lemma_agree(nodes, specs, 0);
    lemma_demand_all(specs, k, specs.len());
    let after = reconciled(nodes, specs, container, base);
    let head = patched_range(nodes, specs, container, k, base);
    lemma_patched_range_below(nodes, specs, container, k, base);
    lemma_patched_range_bound(nodes, specs, container, k, base);
    let show = k < nodes.len();
    let tail = built_range(specs, container, k, specs.len(), show, head.next);
    lemma_built_range_fresh(specs, container, k, specs.len(), show, head.next);
    lemma_built_range_bound(specs, container, k, specs.len(), show, head.next);
    assert forall|i: int| 0 <= i < after.lives.len() implies (#[trigger] after.lives[i]).below(
        after.next,
    ) by {
        if i < head.lives.len() {
            assert(after.lives[i] == head.lives[i]);
            lemma_below_grows(head.lives[i], head.next, after.next);
        } else {
            assert(after.lives[i] == tail.lives[i - head.lives.len()]);
        }
    }
}

/// The same for a run of children patched in place.
pub proof fn lemma_patched_range_below(
    nodes: Seq<Live>,
    specs: Seq<VNode>,
    container: Widget,
    upto: nat,
    base: nat,
)
    requires
        upto <= nodes.len(),
        upto <= specs.len(),
        forall|i: int| 0 <= i < nodes.len() ==> (#[trigger] nodes[i]).below(base),
        base + demand_all(specs, upto) <= u64::MAX,
    ensures
        forall|i: int|
            0 <= i < patched_range(nodes, specs, container, upto, base).lives.len() ==> (
            #[trigger] patched_range(nodes, specs, container, upto, base).lives[i]).below(
                patched_range(nodes, specs, container, upto, base).next,
            ),
    decreases specs, upto,
{
    if upto > 0 {
        let m = (upto - 1) as nat;
        lemma_patched_range_below(nodes, specs, container, m, base);
        lemma_patched_range_bound(nodes, specs, container, m, base);
        let before = patched_range(nodes, specs, container, m, base);
        let now = patched_range(nodes, specs, container, upto, base);
        lemma_below_grows(nodes[m as int], base, before.next);
        law_patched_below(nodes[m as int], specs[m as int], Some(container.handle), before.next);
        lemma_patched_bound(nodes[m as int], specs[m as int], Some(container.handle), before.next);
        assert forall|i: int| 0 <= i < now.lives.len() implies (#[trigger] now.lives[i]).below(
            now.next,
        ) by {
            if i < before.lives.len() {
                assert(now.lives[i] == before.lives[i]);
                lemma_below_grows(before.lives[i], before.next, now.next);
            }
        }
    }
}

/// An object of a tree has a handle within the bounds of the tree.
pub proof fn lemma_holds_within(live: Live, handle: u64, n: nat)
    requires
        live.holds(handle),
    ensures
        live.below(n) ==> handle < n,
        live.since(n) ==> handle >= n,
    decreases live,
{
    match live {
        Live::Gtk { object, handlers, children } => {
            if object.handle != handle {
                let i = choose|i: int| 0 <= i < children.len() && (#[trigger] children[i]).holds(handle);
                lemma_holds_within(children[i], handle, n);
            }
        },
        Live::Component { .. } => {},
    }
}

/// Where the children of a container are reconciled and `k` is the index of
/// the first divergence, the children that are built from `k` on are new
/// objects: none has the handle of any object that the live tree held.
pub proof fn law_rebuilt_children_are_new(
    nodes: Seq<Live>,
    specs: Seq<VNode>,
    container: Widget,
    base: nat,
)
    requires
        forall|i: int| 0 <= i < nodes.len() ==> (#[trigger] nodes[i]).below(base),
        base + demand_all(specs, specs.len()) <= u64::MAX,
    ensures
        forall|j: int, i: int, h: u64|
            agree(nodes, specs, 0) <= j < specs.len() && 0 <= i < nodes.len() && (
            #[trigger] reconciled(nodes, specs, container, base).lives[j].holds(h)) ==> !(
            #[trigger] nodes[i].holds(h)),
{
    let k = agree(nodes, specs, 0);
    lemma_agree(nodes, specs, 0);
    lemma_demand_all(specs, k, specs.len());
    let after = reconciled(nodes, specs, container, base);
    let head = patched_range(nodes, specs, container, k, base);
    lemma_patched_range_bound(nodes, specs, container, k, base);
    lemma_range_len(nodes, specs, container, k, specs.len(), k < nodes.len(), base, head.next);
    let tail = built_range(specs, container, k, specs.len(), k < nodes.len(), head.next);
    lemma_built_range_fresh(specs, container, k, specs.len(), k < nodes.len(), head.next);
    assert forall|j: int, i: int, h: u64|
        k <= j < specs.len() && 0 <= i < nodes.len() && (#[trigger] after.lives[j].holds(h)) implies !(
    #[trigger] nodes[i].holds(h)) by {
        assert(after.lives[j] == tail.lives[j - k]);
        lemma_holds_within(after.lives[j], h, head.next);
        if nodes[i].holds(h) {
            lemma_holds_within(nodes[i], h, base);
        }
    }
}

/// Whether the call makes the object `handle`, places it in a container,
/// removes it from one, or stops it.
pub open spec fn touched(op: Op, handle: u64) -> bool {
    match op {
        Op::Construct { object, .. } => object == handle,
        Op::Mount { object, .. } => object == handle,
        Op::Unmount { object } => object == handle,
        Op::Attach { child, .. } => child == handle,
        Op::Detach { child, .. } => child == handle,
        _ => false,
    }
}

/// Whether one of the calls makes, places, removes or stops the object.
pub open spec fn touches(ops: Seq<Op>, handle: u64) -> bool {
    exists|i: int| 0 <= i < ops.len() && touched(#[trigger] ops[i], handle)
}

/// Whether `handle` is the handle of an object below the root of the tree.
pub open spec fn holds_inside(live: Live, handle: u64) -> bool {
    live matches Live::Gtk { children, .. } && exists|i: int|
        0 <= i < children.len() && (#[trigger] children[i]).holds(handle)
}

/// No two of the trees have an object in common.
pub open spec fn separate(nodes: Seq<Live>) -> bool {
    forall|i: int, j: int, h: u64|
        0 <= i < nodes.len() && 0 <= j < nodes.len() && i != j && (#[trigger] nodes[i].holds(h))
            ==> !(#[trigger] nodes[j].holds(h))
}

impl Live {
    /// Every object of the tree is in one place of it: no handle is that of
    /// two objects.
    pub open spec fn exclusive(self) -> bool
        decreases self,
    {
        match self {
            Live::Gtk { object, children, .. } => {
                &&& !holds_inside(self, object.handle)
                &&& separate(children)
                &&& forall|i: int| 0 <= i < children.len() ==> (#[trigger] children[i]).exclusive()
            },
            Live::Component { .. } => true,
        }
    }
}

/// A call among two runs of calls is in one of the runs.
pub proof fn lemma_touches_split(a: Seq<Op>, b: Seq<Op>, h: u64)
    requires
        touches(a + b, h),
    ensures
        touches(a, h) || touches(b, h),
{
    let i = choose|i: int| 0 <= i < (a + b).len() && touched(#[trigger] (a + b)[i], h);
    if i < a.len() {
        assert((a + b)[i] == a[i]);
    } else {
        assert((a + b)[i] == b[i - a.len()]);
    }
}

/// Applying properties and connecting and releasing handlers touches no
/// object.
pub proof fn lemma_adjustments_touch_nothing(ops: Seq<Op>, h: u64)
    requires
        forall|i: int|
            0 <= i < ops.len() ==> (#[trigger] ops[i]) is SetProperty || ops[i] is Connect || ops[i] is Disconnect
                || ops[i] is Show,
    ensures
        !touches(ops, h),
{
}

/// Connecting handlers touches no object.
pub proof fn lemma_connects_touch_nothing(
    entries: Seq<Entry>,
    handlers: Seq<VHandler>,
    n: nat,
    object: u64,
    base: nat,
    h: u64,
)
    requires
        n <= handlers.len(),
    ensures
        !touches(connects(entries, handlers, n, object, base), h),
    decreases n,
{
    if n > 0 {
        lemma_connects_touch_nothing(entries, handlers, (n - 1) as nat, object, base, h);
        let before = connects(entries, handlers, (n - 1) as nat, object, base);
        let now = connects(entries, handlers, n, object, base);
        if touches(now, h) {
            let i = choose|i: int| 0 <= i < now.len() && touched(#[trigger] now[i], h);
            if i < before.len() {
                assert(now[i] == before[i]);
            }
        }
    }
}

/// What building makes is known by the handle that was free first.
pub proof fn lemma_built_object(node: VNode, parent: Option<u64>, base: nat)
    ensures
        built(node, parent, base).live.object().handle == base as u64,
{
}

/// Building touches new objects only: every object that it makes or places
/// has a handle that was free before and is taken afterwards.
pub proof fn lemma_built_touches(node: VNode, parent: Option<u64>, base: nat, h: u64)
    requires
        base + node.demand() <= u64::MAX,
        touches(built(node, parent, base).ops, h),
    ensures
        base <= h < built(node, parent, base).next,
    decreases node, 1nat,
{
    lemma_built_bound(node, parent, base);
    match node {
        VNode::Widget(w) => {
            let object = Widget { handle: base as u64, object_type: w.object_type };
            let entries = added(Seq::empty(), w.handlers@, w.handlers@.len(), base + 1);
            lemma_added(Seq::empty(), w.handlers@, w.handlers@.len(), base + 1);
            let start = base + 1 + entries.len();
            let kids = if w.object_type.role.is_container() {
                built_range(w.children@, object, 0, w.children@.len(), false, start)
            } else {
                Steps { lives: Seq::empty(), ops: Seq::empty(), next: start }
            };
            let first = seq![
                Op::Construct {
                    object: object.handle,
                    object_type: w.object_type,
                    constructor: w.constructor,
                },
            ];
            let props = applied(w.properties@, object.handle, parent, true);
            let made = connects(Seq::empty(), w.handlers@, w.handlers@.len(), object.handle, base + 1);
            let last = seq![Op::Show { object: object.handle }];
            lemma_touches_split(first + props + made + kids.ops, last, h);
            lemma_adjustments_touch_nothing(last, h);
            lemma_touches_split(first + props + made, kids.ops, h);
            if touches(kids.ops, h) {
                lemma_built_range_bound(w.children@, object, 0, w.children@.len(), false, start);
                lemma_built_range_touches(w.children@, object, 0, w.children@.len(), false, start, h);
            } else {
                lemma_touches_split(first + props, made, h);
                lemma_connects_touch_nothing(
                    Seq::empty(),
                    w.handlers@,
                    w.handlers@.len(),
                    object.handle,
                    base + 1,
                    h,
                );
                lemma_touches_split(first, props, h);
                lemma_adjustments_touch_nothing(props, h);
                let i = choose|i: int| 0 <= i < first.len() && touched(#[trigger] first[i], h);
                assert(h == base);
            }
        },
        VNode::Component(c) => {
            let first = seq![
                Op::Mount {
                    object: base as u64,
                    component_type: c.component_type,
                    object_type: c.object_type,
                    parent,
                },
            ];
            let props = applied(c.properties@, base as u64, parent, true);
            lemma_touches_split(first, props, h);
            lemma_adjustments_touch_nothing(props, h);
            let i = choose|i: int| 0 <= i < first.len() && touched(#[trigger] first[i], h);
            assert(h == base);
        },
    }
}

/// The same for a run of children.
pub proof fn lemma_built_range_touches(
    specs: Seq<VNode>,
    container: Widget,
    from: nat,
    upto: nat,
    show: bool,
    base: nat,
    h: u64,
)
    requires
        from <= upto <= specs.len(),
        base + demand_all(specs, upto) - demand_all(specs, from) <= u64::MAX,
        touches(built_range(specs, container, from, upto, show, base).ops, h),
    ensures
        base <= h < built_range(specs, container, from, upto, show, base).next,
    decreases specs, upto,
{
    if upto > from {
        let m = (upto - 1) as nat;
        lemma_demand_all(specs, from, m);
        lemma_built_range_bound(specs, container, from, m, show, base);
        let before = built_range(specs, container, from, m, show, base);
        let child = built(specs[m as int], Some(container.handle), before.next);
        lemma_built_bound(specs[m as int], Some(container.handle), before.next);
        lemma_built_object(specs[m as int], Some(container.handle), before.next);
        let place = placed(container, m, specs.len(), specs[m as int], child.live.object());
        let shows = if show {
            seq![Op::Show { object: child.live.object().handle }]
        } else {
            Seq::<Op>::empty()
        };
        lemma_touches_split(before.ops + child.ops + place, shows, h);
        lemma_adjustments_touch_nothing(shows, h);
        lemma_touches_split(before.ops + child.ops, place, h);
        if touches(place, h) {
            let i = choose|i: int| 0 <= i < place.len() && touched(#[trigger] place[i], h);
            assert(i == 0);
        } else {
            lemma_touches_split(before.ops, child.ops, h);
            if touches(before.ops, h) {
                lemma_built_range_touches(specs, container, from, m, show, base, h);
            } else {
                lemma_built_touches(specs[m as int], Some(container.handle), before.next, h);
            }
        }
    } else {
        assert(built_range(specs, container, from, upto, show, base).ops.len() == 0);
    }
}

/// Tearing a tree down touches the objects of that tree only.
pub proof fn lemma_destroyed_touches(live: Live, container: u64, h: u64)
    requires
        touches(destroyed(live, container), h),
    ensures
        live.holds(h),
    decreases live, 0nat,
{
    match live {
        Live::Gtk { object, handlers, children } => {
            let kids = destroyed_range(children, object.handle, 0, children.len());
            let own = disconnects(handlers, object.handle);
            let last = seq![Op::Detach { container, child: object.handle }];
            lemma_touches_split(kids + own, last, h);
            if !touches(last, h) {
                lemma_touches_split(kids, own, h);
                lemma_adjustments_touch_nothing(own, h);
                lemma_destroyed_range_touches(children, object.handle, 0, children.len(), h);
            } else {
                let i = choose|i: int| 0 <= i < last.len() && touched(#[trigger] last[i], h);
            }
        },
        Live::Component { object, .. } => {
            let ops = destroyed(live, container);
            let i = choose|i: int| 0 <= i < ops.len() && touched(#[trigger] ops[i], h);
        },
    }
}

/// Whether one of the trees `from..upto` holds the object.
pub open spec fn held_in(nodes: Seq<Live>, from: nat, upto: nat, h: u64) -> bool {
    exists|i: int| from <= i < upto && i < nodes.len() && (#[trigger] nodes[i]).holds(h)
}

/// The same for a run of children.
pub proof fn lemma_destroyed_range_touches(
    nodes: Seq<Live>,
    container: u64,
    from: nat,
    upto: nat,
    h: u64,
)
    requires
        touches(destroyed_range(nodes, container, from, upto), h),
    ensures
        held_in(nodes, from, upto, h),
    decreases nodes, upto,
{
    if upto > from && upto <= nodes.len() {
        let before = destroyed_range(nodes, container, from, (upto - 1) as nat);
        let last = destroyed(nodes[upto - 1], container);
        lemma_touches_split(before, last, h);
        if touches(before, h) {
            lemma_destroyed_range_touches(nodes, container, from, (upto - 1) as nat, h);
            let i = choose|i: int|
                from <= i < upto - 1 && i < nodes.len() && (#[trigger] nodes[i]).holds(h);
            assert(nodes[i].holds(h));
        } else {
            lemma_destroyed_touches(nodes[upto - 1], container, h);
            assert(nodes[upto - 1].holds(h));
        }
    } else {
        assert(destroyed_range(nodes, container, from, upto).len() == 0);
    }
}

/// Whether the object is below the root of one of the first `upto` trees.
pub open spec fn inside_one(nodes: Seq<Live>, upto: nat, h: u64) -> bool {
    exists|i: int| 0 <= i < upto && i < nodes.len() && holds_inside(#[trigger] nodes[i], h)
}

/// Patching touches no object but new ones and those below the root of the
/// tree: the root itself is neither made nor placed nor removed.
pub proof fn lemma_patched_touches(live: Live, node: VNode, parent: Option<u64>, base: nat, h: u64)
    requires
        base + node.demand() <= u64::MAX,
        touches(patched(live, node, parent, base).ops, h),
    ensures
        h >= base || holds_inside(live, h),
    decreases node, 1nat,
{
    match (live, node) {
        (Live::Gtk { object, handlers, children }, VNode::Widget(w)) => {
            if object.object_type == w.object_type {
                let kids = if object.object_type.role.is_container() {
                    reconciled(children, w.children@, object, base)
                } else {
                    Steps { lives: children, ops: Seq::empty(), next: base }
                };
                let props = applied(w.properties@, object.handle, parent, false);
                let child_props = applied(w.child_props@, object.handle, parent, false);
                let made = connects(handlers, w.handlers@, w.handlers@.len(), object.handle, kids.next);
                let gone = disconnects(dropped(handlers, w.handlers@, handlers.len()), object.handle);
                lemma_touches_split(kids.ops + props + child_props + made, gone, h);
                lemma_adjustments_touch_nothing(gone, h);
                lemma_touches_split(kids.ops + props + child_props, made, h);
                lemma_connects_touch_nothing(
                    handlers,
                    w.handlers@,
                    w.handlers@.len(),
                    object.handle,
                    kids.next,
                    h,
                );
                lemma_touches_split(kids.ops + props, child_props, h);
                lemma_adjustments_touch_nothing(child_props, h);
                lemma_touches_split(kids.ops, props, h);
                lemma_adjustments_touch_nothing(props, h);
                assert(touches(kids.ops, h));
                assert(object.object_type.role.is_container()) by {
                    if !object.object_type.role.is_container() {
                        assert(kids.ops.len() == 0);
                    }
                }
                lemma_reconciled_touches(children, w.children@, object, base, h);
                if h < base {
                    let k = agree(children, w.children@, 0);
                    if inside_one(children, k, h) {
                        let i = choose|i: int|
                            0 <= i < k && i < children.len() && holds_inside(#[trigger] children[i], h);
                        lemma_inside_is_held(children[i], h);
                        assert(children[i].holds(h));
                    } else {
                        let i = choose|i: int|
                            k <= i < children.len() && i < children.len() && (#[trigger] children[i]).holds(
                                h,
                            );
                        assert(children[i].holds(h));
                    }
                }
            } else {
                assert(patched(live, node, parent, base).ops.len() == 0);
            }
        },
        (Live::Component { object, component_type }, VNode::Component(c)) => {
            let ops = patched(live, node, parent, base).ops;
            if component_type == c.component_type {
                lemma_adjustments_touch_nothing(ops, h);
            } else {
                assert(ops.len() == 0);
            }
        },
        _ => {
            assert(patched(live, node, parent, base).ops.len() == 0);
        },
    }
}

/// What is below the root of a tree is in the tree.
pub proof fn lemma_inside_is_held(live: Live, h: u64)
    requires
        holds_inside(live, h),
    ensures
        live.holds(h),
{
}

/// Reconciling the children of a container touches no object but new ones,
/// those below the root of a child that is patched in place, and those of
/// the children that are torn down.
pub proof fn lemma_reconciled_touches(
    nodes: Seq<Live>,
    specs: Seq<VNode>,
    container: Widget,
    base: nat,
    h: u64,
)
    requires
        base + demand_all(specs, specs.len()) <= u64::MAX,
        touches(reconciled(nodes, specs, container, base).ops, h),
    ensures
        h >= base || inside_one(nodes, agree(nodes, specs, 0), h) || held_in(
            nodes,
            agree(nodes, specs, 0),
            nodes.len(),
            h,
        ),
    decreases specs, specs.len() + 1,
{
    let k = agree(nodes, specs, 0);
    lemma_agree(nodes, specs, 0);
    lemma_demand_all(specs, k, specs.len());
    let head = patched_range(nodes, specs, container, k, base);
    let gone = destroyed_range(nodes, container.handle, k, nodes.len());
    let show = k < nodes.len();
    let tail = built_range(specs, container, k, specs.len(), show, head.next);
    let shows = if show {
        Seq::<Op>::empty()
    } else {
        shown(tail.lives)
    };
    lemma_patched_range_bound(nodes, specs, container, k, base);
    lemma_touches_split(head.ops + gone + tail.ops, shows, h);
    lemma_adjustments_touch_nothing(shows, h);
    lemma_touches_split(head.ops + gone, tail.ops, h);
    if touches(tail.ops, h) {
        lemma_built_range_touches(specs, container, k, specs.len(), show, head.next, h);
    } else {
        lemma_touches_split(head.ops, gone, h);
        if touches(gone, h) {
            lemma_destroyed_range_touches(nodes, container.handle, k, nodes.len(), h);
        } else {
            lemma_patched_range_touches(nodes, specs, container, k, base, h);
        }
    }
}

/// The same for a run of children patched in place.
pub proof fn lemma_patched_range_touches(
    nodes: Seq<Live>,
    specs: Seq<VNode>,
    container: Widget,
    upto: nat,
    base: nat,
    h: u64,
)
    requires
        upto <= nodes.len(),
        upto <= specs.len(),
        base + demand_all(specs, upto) <= u64::MAX,
        touches(patched_range(nodes, specs, container, upto, base).ops, h),
    ensures
        h >= base || inside_one(nodes, upto, h),
    decreases specs, upto,
{
    if upto > 0 {
        let m = (upto - 1) as nat;
        lemma_patched_range_bound(nodes, specs, container, m, base);
        let before = patched_range(nodes, specs, container, m, base);
        let child = patched(nodes[m as int], specs[m as int], Some(container.handle), before.next);
        lemma_touches_split(before.ops, child.ops, h);
        if touches(before.ops, h) {
            lemma_patched_range_touches(nodes, specs, container, m, base, h);
            if h < base {
                let i = choose|i: int|
                    0 <= i < m && i < nodes.len() && holds_inside(#[trigger] nodes[i], h);
                assert(holds_inside(nodes[i], h));
            }
        } else {
            lemma_patched_touches(nodes[m as int], specs[m as int], Some(container.handle), before.next, h);
            if h < base {
                assert(holds_inside(nodes[m as int], h));
            }
        }
    } else {
        assert(patched_range(nodes, specs, container, upto, base).ops.len() == 0);
    }
}

/// Where the children of a container are reconciled, a child that is kept
/// before the first divergence is left where it is: no call makes an object
/// under its handle, places it or removes it. This holds of children whose
/// handles were given before, that have no object in common, and none of
/// which holds its own root a second time.
pub proof fn law_kept_children_are_untouched(
    nodes: Seq<Live>,
    specs: Seq<VNode>,
    container: Widget,
    base: nat,
)
    requires
        forall|i: int| 0 <= i < nodes.len() ==> (#[trigger] nodes[i]).below(base),
        forall|i: int|
            0 <= i < nodes.len() ==> !holds_inside(#[trigger] nodes[i], nodes[i].object().handle),
        separate(nodes),
        base + demand_all(specs, specs.len()) <= u64::MAX,
    ensures
        forall|i: int|
            0 <= i < agree(nodes, specs, 0) ==> !touches(
                reconciled(nodes, specs, container, base).ops,
                (#[trigger] nodes[i]).object().handle,
            ),
{
    let k = agree(nodes, specs, 0);
    lemma_agree(nodes, specs, 0);
    let after = reconciled(nodes, specs, container, base);
    assert forall|i: int| 0 <= i < k implies !touches(after.ops, (#[trigger] nodes[i]).object().handle) by {
        let h = nodes[i].object().handle;
        assert(nodes[i].holds(h));
        lemma_holds_within(nodes[i], h, base);
        if touches(after.ops, h) {
            lemma_reconciled_touches(nodes, specs, container, base, h);
            if inside_one(nodes, k, h) {
                let j = choose|j: int| 0 <= j < k && j < nodes.len() && holds_inside(#[trigger] nodes[j], h);
                lemma_inside_is_held(nodes[j], h);
                assert(nodes[j].holds(h));
                assert(j != i);
            } else {
                let j = choose|j: int| k <= j < nodes.len() && j < nodes.len() && (#[trigger] nodes[j]).holds(h);
                assert(nodes[j].holds(h));
                assert(j != i);
            }
        }
    }
}

} // verus!
