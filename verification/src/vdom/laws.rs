//! What holds of building and patching, whatever the description.

use vstd::prelude::*;

use crate::vdom::faults::lemma_range_fault_first;
use crate::vdom::model::{
    agree, build_fault, built, built_range, built_widget, destroyed, destroyed_range, lemma_agree,
    patch_fault, patch_range_fault, patched, patched_range, patched_widget, range_fault,
    reconcile_fault, reconciled, shown, widget_build_fault, Live, Steps,
};
use crate::vdom::handlers::{
    added, bound, connects, disconnects, distinct, law_entries_follow_bindings,
    lemma_added_none, lemma_retained_all, reconciled_entries, wanted, Entry,
};
use crate::vdom::placement::{applied, placement_fault, Fault};
use crate::vdom::toolkit::{ObjectType, Op, Role, Widget};
use crate::vdom::vnode::{VHandler, VNode, VWidget};

verus! {

/// The entries are those of the bindings: every entry has a key that the
/// bindings name, and every binding's key has an entry.
pub open spec fn entries_mirror(entries: Seq<Entry>, handlers: Seq<VHandler>) -> bool {
    &&& forall|i: int|
        0 <= i < entries.len() ==> wanted(handlers, (#[trigger] entries[i]).name, entries[i].id)
    &&& forall|i: int|
        0 <= i < handlers.len() ==> bound(entries, (#[trigger] handlers[i]).name@, handlers[i].id)
}

/// The live node stands for the description: it is of the described class
/// or type, it has the described handlers connected, and, if it is a
/// container, its children stand for the described children, each at the
/// index of its description.
pub open spec fn mirrors(live: Live, node: VNode) -> bool
    decreases node, 1nat,
{
    match (live, node) {
        (Live::Gtk { object, handlers, children }, VNode::Widget(w)) => {
            &&& object.object_type == w.object_type
            &&& entries_mirror(handlers, w.handlers@)
            &&& object.object_type.role.is_container() ==> all_mirror(children, w.children@)
        },
        (Live::Component { component_type, .. }, VNode::Component(c)) => component_type
            == c.component_type,
        _ => false,
    }
}

/// The live nodes stand for the descriptions, one for one.
pub open spec fn all_mirror(nodes: Seq<Live>, specs: Seq<VNode>) -> bool
    decreases specs, 0nat,
{
    &&& nodes.len() == specs.len()
    &&& forall|i: int| 0 <= i < specs.len() ==> mirrors(nodes[i], #[trigger] specs[i])
}

/// Every call applies a property again; none constructs, connects,
/// attaches, removes, releases or shows anything.
pub open spec fn only_reapplies(ops: Seq<Op>) -> bool {
    forall|i: int| 0 <= i < ops.len() ==> is_reapplication(#[trigger] ops[i])
}

/// The call applies a property to an object that has had it applied before.
pub open spec fn is_reapplication(op: Op) -> bool {
    match op {
        Op::SetProperty { initial, .. } => !initial,
        _ => false,
    }
}

proof fn lemma_only_reapplies_add(a: Seq<Op>, b: Seq<Op>)
    requires
        only_reapplies(a),
        only_reapplies(b),
    ensures
        only_reapplies(a + b),
{
    assert forall|i: int| 0 <= i < (a + b).len() implies is_reapplication(#[trigger] (a + b)[i]) by {
        if i < a.len() {
            assert((a + b)[i] == a[i]);
        } else {
            assert((a + b)[i] == b[i - a.len()]);
        }
    }
}

proof fn lemma_agree_all(nodes: Seq<Live>, specs: Seq<VNode>, from: nat)
    requires
        nodes.len() == specs.len(),
        from <= nodes.len(),
        forall|i: int| 0 <= i < specs.len() ==> (#[trigger] nodes[i]).compatible(specs[i]),
    ensures
        agree(nodes, specs, from) == nodes.len(),
    decreases nodes.len() - from,
{
    if from < nodes.len() {
        assert(nodes[from as int].compatible(specs[from as int]));
        lemma_agree_all(nodes, specs, from + 1);
    }
}

/// Patching a live tree with the description that it already stands for
/// changes nothing in it, takes no handle, and asks nothing of the toolkit
/// but to apply properties again: no handler is connected or released, no
/// child is built, moved or torn down. Nothing stands in the way of such a
/// patch.
pub proof fn law_patch_is_idempotent(live: Live, node: VNode, parent: Option<u64>, base: nat)
    requires
        mirrors(live, node),
    ensures
        patched(live, node, parent, base).live == live,
        patched(live, node, parent, base).next == base,
        only_reapplies(patched(live, node, parent, base).ops),
        patch_fault(live, node) is None,
    decreases node, 1nat,
{
    match (live, node) {
        (Live::Gtk { object, handlers, children }, VNode::Widget(w)) => {
            let h = object.handle;
            let step = patched_widget(object, handlers, children, w, parent, base);
            let kids = if object.object_type.role.is_container() {
                reconciled(children, w.children@, object, base)
            } else {
                Steps { lives: children, ops: Seq::empty(), next: base }
            };
            if object.object_type.role.is_container() {
                let specs = w.children@;
                let n = specs.len();
                assert forall|i: int| 0 <= i < specs.len() implies (#[trigger] children[i]).compatible(
                    specs[i],
                ) by {
                    assert(mirrors(children[i], specs[i]));
                }
                lemma_agree_all(children, specs, 0);
                lemma_patched_range_idempotent(children, specs, object, n, base);
                let head = patched_range(children, specs, object, n, base);
                assert(children.take(n as int) =~= children);
                assert(destroyed_range(children, h, n, n) =~= Seq::<Op>::empty());
                let tail = built_range(specs, object, n, n, false, base);
                assert(shown(tail.lives) =~= Seq::<Op>::empty());
                assert(kids.lives =~= children);
                assert(kids.ops =~= head.ops);
            }
            lemma_retained_all(handlers, w.handlers@, handlers.len());
            lemma_added_none(handlers, w.handlers@, w.handlers@.len(), h, kids.next);
            assert(handlers.take(handlers.len() as int) =~= handlers);
            assert(step.live->Gtk_handlers =~= handlers);
            assert(disconnects(Seq::<Entry>::empty(), h) =~= Seq::<Op>::empty());
            let props = applied(w.properties@, h, parent, false) + applied(
                w.child_props@,
                h,
                parent,
                false,
            );
            assert(only_reapplies(applied(w.properties@, h, parent, false)));
            assert(only_reapplies(applied(w.child_props@, h, parent, false)));
            lemma_only_reapplies_add(
                applied(w.properties@, h, parent, false),
                applied(w.child_props@, h, parent, false),
            );
            lemma_only_reapplies_add(kids.ops, props);
            assert(step.ops =~= kids.ops + props);
        },
        (Live::Component { object, component_type }, VNode::Component(c)) => {},
        _ => {},
    }
}

/// The same for a run of children patched in place.
pub proof fn lemma_patched_range_idempotent(
    nodes: Seq<Live>,
    specs: Seq<VNode>,
    container: Widget,
    upto: nat,
    base: nat,
)
    requires
        all_mirror(nodes, specs),
        upto <= specs.len(),
    ensures
        patched_range(nodes, specs, container, upto, base).lives == nodes.take(upto as int),
        patched_range(nodes, specs, container, upto, base).next == base,
        only_reapplies(patched_range(nodes, specs, container, upto, base).ops),
        patch_range_fault(nodes, specs, upto) is None,
    decreases specs, upto,
{
    if upto > 0 {
        lemma_patched_range_idempotent(nodes, specs, container, (upto - 1) as nat, base);
        assert(mirrors(nodes[upto - 1], specs[upto - 1]));
        law_patch_is_idempotent(nodes[upto - 1], specs[upto - 1], Some(container.handle), base);
        let before = patched_range(nodes, specs, container, (upto - 1) as nat, base);
        let child = patched(nodes[upto - 1], specs[upto - 1], Some(container.handle), base);
        lemma_only_reapplies_add(before.ops, child.ops);
        assert(nodes.take(upto - 1).push(nodes[upto - 1]) =~= nodes.take(upto as int));
    } else {
        assert(nodes.take(0) =~= Seq::<Live>::empty());
    }
}

/// What building leaves stands for the description that was built.
pub proof fn law_built_mirrors(node: VNode, parent: Option<u64>, base: nat)
    ensures
        mirrors(built(node, parent, base).live, node),
    decreases node, 1nat,
{
    match node {
        VNode::Widget(w) => {
            let entries = added(Seq::empty(), w.handlers@, w.handlers@.len(), base + 1);
            law_entries_follow_bindings(Seq::empty(), w.handlers@, base + 1);
            assert(reconciled_entries(Seq::empty(), w.handlers@, base + 1) =~= entries);
            lemma_entries_mirror(entries, w.handlers@);
            if w.object_type.role.is_container() {
                let object = Widget { handle: base as u64, object_type: w.object_type };
                lemma_built_range_mirrors(
                    w.children@,
                    object,
                    0,
                    w.children@.len(),
                    false,
                    base + 1 + entries.len(),
                );
            }
        },
        VNode::Component(_) => {},
    }
}

proof fn lemma_entries_mirror(entries: Seq<Entry>, handlers: Seq<VHandler>)
    requires
        forall|name: Seq<char>, id: u64| bound(entries, name, id) <==> wanted(handlers, name, id),
    ensures
        entries_mirror(entries, handlers),
{
    assert forall|i: int| 0 <= i < entries.len() implies wanted(
        handlers,
        (#[trigger] entries[i]).name,
        entries[i].id,
    ) by {
        assert(bound(entries, entries[i].name, entries[i].id));
    }
    assert forall|i: int| 0 <= i < handlers.len() implies bound(
        entries,
        (#[trigger] handlers[i]).name@,
        handlers[i].id,
    ) by {
        assert(wanted(handlers, handlers[i].name@, handlers[i].id));
    }
}

/// The live node is what building the description leaves, with handles that
/// had not been given when `base` was the next free handle.
pub open spec fn freshly_built(live: Live, node: VNode, parent: Option<u64>, base: nat) -> bool {
    exists|b: nat| b >= base && live == (#[trigger] built(node, parent, b)).live
}

/// Each child of a run that was built stands for its description, and was
/// built with handles that had not been given before.
pub proof fn lemma_built_range_mirrors(
    specs: Seq<VNode>,
    container: Widget,
    from: nat,
    upto: nat,
    show: bool,
    base: nat,
)
    requires
        from <= upto <= specs.len(),
    ensures
        built_range(specs, container, from, upto, show, base).lives.len() == upto - from,
        built_range(specs, container, from, upto, show, base).next >= base,
        forall|i: int|
            from <= i < upto ==> mirrors(
                built_range(specs, container, from, upto, show, base).lives[i - from],
                #[trigger] specs[i],
            ),
        forall|i: int|
            from <= i < upto ==> freshly_built(
                built_range(specs, container, from, upto, show, base).lives[i - from],
                #[trigger] specs[i],
                Some(container.handle),
                base,
            ),
    decreases specs, upto,
{
    if upto > from {
        let m = (upto - 1) as nat;
        lemma_built_range_mirrors(specs, container, from, m, show, base);
        let before = built_range(specs, container, from, m, show, base);
        let now = built_range(specs, container, from, upto, show, base);
        law_built_mirrors(specs[m as int], Some(container.handle), before.next);
        lemma_built_next(specs[m as int], Some(container.handle), before.next);
        assert forall|i: int| from <= i < upto implies mirrors(now.lives[i - from], #[trigger] specs[i]) by {
            if i < m {
                assert(now.lives[i - from] == before.lives[i - from]);
            }
        }
        assert forall|i: int| from <= i < upto implies freshly_built(
            now.lives[i - from],
            #[trigger] specs[i],
            Some(container.handle),
            base,
        ) by {
            if i < m {
                assert(now.lives[i - from] == before.lives[i - from]);
            } else {
                assert(now.lives[i - from] == built(
                    specs[i],
                    Some(container.handle),
                    before.next,
                ).live);
            }
        }
    }
}

/// Building takes at least one handle.
pub proof fn lemma_built_next(node: VNode, parent: Option<u64>, base: nat)
    ensures
        built(node, parent, base).next > base,
    decreases node, 1nat,
{
    match node {
        VNode::Widget(w) => {
            let entries = added(Seq::empty(), w.handlers@, w.handlers@.len(), base + 1);
            if w.object_type.role.is_container() {
                let object = Widget { handle: base as u64, object_type: w.object_type };
                lemma_built_range_mirrors(
                    w.children@,
                    object,
                    0,
                    w.children@.len(),
                    false,
                    base + 1 + entries.len(),
                );
            }
        },
        VNode::Component(_) => {},
    }
}

/// What patching leaves of a node that is compatible with the description
/// stands for the description.
pub proof fn law_patched_mirrors(live: Live, node: VNode, parent: Option<u64>, base: nat)
    requires
        live.compatible(node),
    ensures
        mirrors(patched(live, node, parent, base).live, node),
        patched(live, node, parent, base).live.object() == live.object(),
        patched(live, node, parent, base).next >= base,
    decreases node, 1nat,
{
    match (live, node) {
        (Live::Gtk { object, handlers, children }, VNode::Widget(w)) => {
            let kids = if object.object_type.role.is_container() {
                reconciled(children, w.children@, object, base)
            } else {
                Steps { lives: children, ops: Seq::empty(), next: base }
            };
            if object.object_type.role.is_container() {
                lemma_reconciled_mirrors(children, w.children@, object, base);
            }
            law_entries_follow_bindings(handlers, w.handlers@, kids.next);
            lemma_entries_mirror(reconciled_entries(handlers, w.handlers@, kids.next), w.handlers@);
        },
        _ => {},
    }
}

/// The children that a reconciliation leaves stand for the described
/// children, one for one.
pub proof fn lemma_reconciled_mirrors(nodes: Seq<Live>, specs: Seq<VNode>, container: Widget, base: nat)
    ensures
        all_mirror(reconciled(nodes, specs, container, base).lives, specs),
        reconciled(nodes, specs, container, base).next >= base,
    decreases specs, specs.len() + 1,
{
    let k = agree(nodes, specs, 0);
    lemma_agree(nodes, specs, 0);
    let head = patched_range(nodes, specs, container, k, base);
    lemma_patched_range_mirrors(nodes, specs, container, k, base);
    let tail = built_range(specs, container, k, specs.len(), k < nodes.len(), head.next);
    lemma_built_range_mirrors(specs, container, k, specs.len(), k < nodes.len(), head.next);
    let all = reconciled(nodes, specs, container, base).lives;
    assert forall|i: int| 0 <= i < specs.len() implies mirrors(all[i], #[trigger] specs[i]) by {
        if i < k {
            assert(all[i] == head.lives[i]);
        } else {
            assert(all[i] == tail.lives[i - k]);
        }
    }
}

/// Each child of a run that was patched in place stands for its description
/// and is the object that it was.
pub proof fn lemma_patched_range_mirrors(
    nodes: Seq<Live>,
    specs: Seq<VNode>,
    container: Widget,
    upto: nat,
    base: nat,
)
    requires
        upto <= nodes.len(),
        upto <= specs.len(),
        forall|i: int| 0 <= i < upto ==> (#[trigger] nodes[i]).compatible(specs[i]),
    ensures
        patched_range(nodes, specs, container, upto, base).lives.len() == upto,
        patched_range(nodes, specs, container, upto, base).next >= base,
        forall|i: int|
            0 <= i < upto ==> mirrors(
                patched_range(nodes, specs, container, upto, base).lives[i],
                #[trigger] specs[i],
            ),
        forall|i: int|
            0 <= i < upto ==> (#[trigger] patched_range(
                nodes,
                specs,
                container,
                upto,
                base,
            ).lives[i]).object() == nodes[i].object(),
    decreases specs, upto,
{
    if upto > 0 {
        let m = (upto - 1) as nat;
        lemma_patched_range_mirrors(nodes, specs, container, m, base);
        let before = patched_range(nodes, specs, container, m, base);
        let now = patched_range(nodes, specs, container, upto, base);
        assert(nodes[m as int].compatible(specs[m as int]));
        law_patched_mirrors(nodes[m as int], specs[m as int], Some(container.handle), before.next);
        assert forall|i: int| 0 <= i < upto implies mirrors(now.lives[i], #[trigger] specs[i]) by {
            if i < m {
                assert(now.lives[i] == before.lives[i]);
            }
        }
        assert forall|i: int| 0 <= i < upto implies (#[trigger] now.lives[i]).object()
            == nodes[i].object() by {
            if i < m {
                assert(now.lives[i] == before.lives[i]);
            }
        }
    }
}

/// Patching a live tree twice in succession with the same description asks
/// nothing of the toolkit the second time but to apply properties again,
/// and leaves the tree as the first patch left it.
pub proof fn law_second_patch_only_reapplies(
    live: Live,
    node: VNode,
    parent: Option<u64>,
    base: nat,
)
    requires
        live.compatible(node),
    ensures
        ({
            let first = patched(live, node, parent, base);
            let second = patched(first.live, node, parent, first.next);
            &&& second.live == first.live
            &&& second.next == first.next
            &&& only_reapplies(second.ops)
            &&& patch_fault(first.live, node) is None
        }),
{
    let first = patched(live, node, parent, base);
    law_patched_mirrors(live, node, parent, base);
    law_patch_is_idempotent(first.live, node, parent, first.next);
}

/// Building a description and then patching with the same description
/// leaves every node of the live tree as it was built: no object is
/// replaced, and no connection.
pub proof fn law_patch_after_build_keeps_tree(
    node: VNode,
    parent: Option<u64>,
    base: nat,
    next: nat,
)
    ensures
        ({
            let first = built(node, parent, base);
            let second = patched(first.live, node, parent, next);
            &&& second.live == first.live
            &&& second.next == next
            &&& only_reapplies(second.ops)
            &&& patch_fault(first.live, node) is None
        }),
{
    let first = built(node, parent, base);
    law_built_mirrors(node, parent, base);
    law_patch_is_idempotent(first.live, node, parent, next);
}


impl Live {
    /// Whether `handle` is the handle of an object of this tree.
    pub open spec fn holds(self, handle: u64) -> bool
        decreases self,
    {
        match self {
            Live::Gtk { object, children, .. } => object.handle == handle || exists|i: int|
                0 <= i < children.len() && (#[trigger] children[i]).holds(handle),
            Live::Component { object, .. } => object.handle == handle,
        }
    }
}

/// Whether the call removes the object `handle` from its container.
pub open spec fn is_detach_of(op: Op, handle: u64) -> bool {
    match op {
        Op::Detach { child, .. } => child == handle,
        _ => false,
    }
}

/// Whether one of the calls removes the object `handle` from its container.
pub open spec fn detaches(ops: Seq<Op>, handle: u64) -> bool {
    exists|i: int| 0 <= i < ops.len() && is_detach_of(#[trigger] ops[i], handle)
}

proof fn lemma_detaches_add(a: Seq<Op>, b: Seq<Op>, handle: u64)
    requires
        detaches(a, handle) || detaches(b, handle),
    ensures
        detaches(a + b, handle),
{
    if detaches(a, handle) {
        let i = choose|i: int| 0 <= i < a.len() && is_detach_of(#[trigger] a[i], handle);
        assert((a + b)[i] == a[i]);
    } else {
        let i = choose|i: int| 0 <= i < b.len() && is_detach_of(#[trigger] b[i], handle);
        assert((a + b)[a.len() + i] == b[i]);
    }
}

/// Tearing a live tree down removes every object of it from its container.
pub proof fn lemma_destroyed_detaches(live: Live, container: u64, handle: u64)
    requires
        live.holds(handle),
    ensures
        detaches(destroyed(live, container), handle),
    decreases live, 0nat,
{
    match live {
        Live::Gtk { object, handlers, children } => {
            let kids = destroyed_range(children, object.handle, 0, children.len());
            let own = disconnects(handlers, object.handle);
            let last = seq![Op::Detach { container, child: object.handle }];
            if object.handle == handle {
                assert(is_detach_of(last[0], handle));
                lemma_detaches_add(kids + own, last, handle);
            } else {
                let i = choose|i: int| 0 <= i < children.len() && (#[trigger] children[i]).holds(handle);
                lemma_destroyed_range_detaches(children, object.handle, 0, children.len(), i, handle);
                lemma_detaches_add(kids, own, handle);
                lemma_detaches_add(kids + own, last, handle);
            }
        },
        Live::Component { object, .. } => {
            let ops = destroyed(live, container);
            assert(is_detach_of(ops[0], handle));
        },
    }
}

/// The same for a run of children.
pub proof fn lemma_destroyed_range_detaches(
    nodes: Seq<Live>,
    container: u64,
    from: nat,
    upto: nat,
    at: int,
    handle: u64,
)
    requires
        from <= at < upto <= nodes.len(),
        nodes[at].holds(handle),
    ensures
        detaches(destroyed_range(nodes, container, from, upto), handle),
    decreases nodes, upto,
{
    let before = destroyed_range(nodes, container, from, (upto - 1) as nat);
    let last = destroyed(nodes[upto - 1], container);
    if at == upto - 1 {
        lemma_destroyed_detaches(nodes[at], container, handle);
    } else {
        lemma_destroyed_range_detaches(nodes, container, from, (upto - 1) as nat, at, handle);
    }
    lemma_detaches_add(before, last, handle);
}

impl Live {
    /// Whether `connection` is a connection held for the object `object` of
    /// this tree.
    pub open spec fn connected(self, object: u64, connection: u64) -> bool
        decreases self,
    {
        match self {
            Live::Gtk { object: own, handlers, children } => (own.handle == object && exists|i: int|
                0 <= i < handlers.len() && (#[trigger] handlers[i]).connection == connection)
                || exists|i: int|
                0 <= i < children.len() && (#[trigger] children[i]).connected(object, connection),
            Live::Component { .. } => false,
        }
    }
}

/// Whether one of the calls releases the connection made on the object.
pub open spec fn releases(ops: Seq<Op>, object: u64, connection: u64) -> bool {
    exists|i: int| 0 <= i < ops.len() && #[trigger] ops[i] == (Op::Disconnect { object, connection })
}

proof fn lemma_releases_add(a: Seq<Op>, b: Seq<Op>, object: u64, connection: u64)
    requires
        releases(a, object, connection) || releases(b, object, connection),
    ensures
        releases(a + b, object, connection),
{
    let op = Op::Disconnect { object, connection };
    if releases(a, object, connection) {
        let i = choose|i: int| 0 <= i < a.len() && #[trigger] a[i] == op;
        assert((a + b)[i] == a[i]);
    } else {
        let i = choose|i: int| 0 <= i < b.len() && #[trigger] b[i] == op;
        assert((a + b)[a.len() + i] == b[i]);
    }
}

/// Tearing a live tree down releases every connection held in it.
pub proof fn lemma_destroyed_releases(live: Live, container: u64, object: u64, connection: u64)
    requires
        live.connected(object, connection),
    ensures
        releases(destroyed(live, container), object, connection),
    decreases live, 0nat,
{
    match live {
        Live::Gtk { object: own, handlers, children } => {
            let kids = destroyed_range(children, own.handle, 0, children.len());
            let mine = disconnects(handlers, own.handle);
            let last = seq![Op::Detach { container, child: own.handle }];
            if own.handle == object && exists|i: int|
                0 <= i < handlers.len() && (#[trigger] handlers[i]).connection == connection {
                let i = choose|i: int|
                    0 <= i < handlers.len() && (#[trigger] handlers[i]).connection == connection;
                assert(mine[i] == (Op::Disconnect { object, connection }));
                lemma_releases_add(kids, mine, object, connection);
            } else {
                let i = choose|i: int|
                    0 <= i < children.len() && (#[trigger] children[i]).connected(object, connection);
                lemma_destroyed_range_releases(
                    children,
                    own.handle,
                    0,
                    children.len(),
                    i,
                    object,
                    connection,
                );
                lemma_releases_add(kids, mine, object, connection);
            }
            lemma_releases_add(kids + mine, last, object, connection);
        },
        Live::Component { .. } => {},
    }
}

/// The same for a run of children.
pub proof fn lemma_destroyed_range_releases(
    nodes: Seq<Live>,
    container: u64,
    from: nat,
    upto: nat,
    at: int,
    object: u64,
    connection: u64,
)
    requires
        from <= at < upto <= nodes.len(),
        nodes[at].connected(object, connection),
    ensures
        releases(destroyed_range(nodes, container, from, upto), object, connection),
    decreases nodes, upto,
{
    let before = destroyed_range(nodes, container, from, (upto - 1) as nat);
    let last = destroyed(nodes[upto - 1], container);
    if at == upto - 1 {
        lemma_destroyed_releases(nodes[at], container, object, connection);
    } else {
        lemma_destroyed_range_releases(
            nodes,
            container,
            from,
            (upto - 1) as nat,
            at,
            object,
            connection,
        );
    }
    lemma_releases_add(before, last, object, connection);
}

/// The live node is what patching `was` in place leaves: the same object,
/// standing for the description.
pub open spec fn patched_in_place(live: Live, was: Live, node: VNode) -> bool {
    live.object() == was.object() && mirrors(live, node)
}

/// Where the children of a container are reconciled and `k` is the index of
/// the first live child that has no description, or whose class, type or
/// kind is not that of its description: the children before `k` are patched
/// in place and stay the objects that they were; every object of every live
/// child from `k` on is removed from its container, and every connection
/// held in such a child is released; and every described child from `k` on
/// is built anew, with handles that had not been given. Afterwards there is
/// one live child for each described child.
pub proof fn law_rebuilt_from_first_divergence(
    nodes: Seq<Live>,
    specs: Seq<VNode>,
    container: Widget,
    base: nat,
)
    ensures
        ({
            let k = agree(nodes, specs, 0);
            let after = reconciled(nodes, specs, container, base);
            &&& k <= nodes.len() && k <= specs.len()
            &&& after.lives.len() == specs.len()
            &&& forall|i: int|
                0 <= i < k ==> patched_in_place(after.lives[i], nodes[i], #[trigger] specs[i])
            &&& forall|j: int, h: u64|
                k <= j < nodes.len() && (#[trigger] nodes[j].holds(h)) ==> detaches(after.ops, h)
            &&& forall|j: int, o: u64, c: u64|
                k <= j < nodes.len() && (#[trigger] nodes[j].connected(o, c)) ==> releases(
                    after.ops,
                    o,
                    c,
                )
            &&& forall|j: int|
                k <= j < specs.len() ==> freshly_built(
                    after.lives[j],
                    #[trigger] specs[j],
                    Some(container.handle),
                    base,
                )
        }),
{
    let k = agree(nodes, specs, 0);
    let after = reconciled(nodes, specs, container, base);
    lemma_agree(nodes, specs, 0);
    let head = patched_range(nodes, specs, container, k, base);
    let gone = destroyed_range(nodes, container.handle, k, nodes.len());
    let show = k < nodes.len();
    let tail = built_range(specs, container, k, specs.len(), show, head.next);
    let shows = if show {
        Seq::<Op>::empty()
    } else {
        shown(tail.lives)
    };
    lemma_patched_range_mirrors(nodes, specs, container, k, base);
    lemma_built_range_mirrors(specs, container, k, specs.len(), show, head.next);
    assert forall|i: int| 0 <= i < k implies patched_in_place(
        after.lives[i],
        nodes[i],
        #[trigger] specs[i],
    ) by {
        assert(after.lives[i] == head.lives[i]);
    }
    assert forall|j: int, h: u64| k <= j < nodes.len() && (#[trigger] nodes[j].holds(h)) implies detaches(
        after.ops,
        h,
    ) by {
        lemma_destroyed_range_detaches(nodes, container.handle, k, nodes.len(), j, h);
        lemma_detaches_add(head.ops, gone, h);
        lemma_detaches_add(head.ops + gone, tail.ops, h);
        lemma_detaches_add(head.ops + gone + tail.ops, shows, h);
    }
    assert forall|j: int, o: u64, c: u64|
        k <= j < nodes.len() && (#[trigger] nodes[j].connected(o, c)) implies releases(
        after.ops,
        o,
        c,
    ) by {
        lemma_destroyed_range_releases(nodes, container.handle, k, nodes.len(), j, o, c);
        lemma_releases_add(head.ops, gone, o, c);
        lemma_releases_add(head.ops + gone, tail.ops, o, c);
        lemma_releases_add(head.ops + gone + tail.ops, shows, o, c);
    }
    assert forall|j: int| k <= j < specs.len() implies freshly_built(
        after.lives[j],
        #[trigger] specs[j],
        Some(container.handle),
        base,
    ) by {
        assert(after.lives[j] == tail.lives[j - k]);
        let b = choose|b: nat|
            b >= head.next && tail.lives[j - k] == (#[trigger] built(
                specs[j],
                Some(container.handle),
                b,
            )).live;
        assert(b >= base);
    }
}

/// Where every described child has a compatible live child at its index and
/// live children are left over, the described children are patched in
/// place, the others are torn down, and nothing is built.
pub proof fn law_truncation(nodes: Seq<Live>, specs: Seq<VNode>, container: Widget, base: nat)
    requires
        specs.len() <= nodes.len(),
        agree(nodes, specs, 0) == specs.len(),
    ensures
        ({
            let after = reconciled(nodes, specs, container, base);
            let head = patched_range(nodes, specs, container, specs.len(), base);
            &&& after.lives == head.lives
            &&& after.lives.len() == specs.len()
            &&& after.ops == head.ops + destroyed_range(
                nodes,
                container.handle,
                specs.len(),
                nodes.len(),
            )
            &&& after.next == head.next
        }),
{
    let k = specs.len();
    let after = reconciled(nodes, specs, container, base);
    let head = patched_range(nodes, specs, container, k, base);
    let gone = destroyed_range(nodes, container.handle, k, nodes.len());
    lemma_agree(nodes, specs, 0);
    lemma_patched_range_mirrors(nodes, specs, container, k, base);
    let tail = built_range(specs, container, k, k, k < nodes.len(), head.next);
    assert(shown(tail.lives) =~= Seq::<Op>::empty());
    assert(after.lives =~= head.lives);
    assert(after.ops =~= head.ops + gone);
}

/// A widget described with more children than its role admits cannot be
/// built: something stands in the way, and no child is passed over in
/// silence. The same holds of a widget that is no container and is
/// described with any child.
pub proof fn law_arity_is_enforced(w: VWidget)
    requires
        w.object_type.role.capacity() is Some,
        w.children@.len() > w.object_type.role.capacity()->0,
    ensures
        widget_build_fault(w) is Some,
        build_fault(w.children@[0]) is None && w.object_type.role.is_container()
            ==> widget_build_fault(w) == Some(
            Fault::TooManyChildren {
                role: w.object_type.role,
                total: w.children@.len() as usize,
            },
        ),
{
    if w.object_type.role.is_container() {
        let first = range_fault(w.children@, w.object_type, 0, 1);
        assert(range_fault(w.children@, w.object_type, 0, 0) is None);
        assert(first is Some);
        lemma_range_fault_first(
            w.children@,
            w.object_type,
            0,
            1,
            w.children@.len(),
        );
    }
}

/// A container is never asked to take a child as one of more children than
/// its role admits, whatever the child and its index: the placement is at
/// fault, so that no call attaches anything and no child property is
/// applied. A role that admits one child refuses each of two.
pub proof fn law_placement_enforces_arity(role: Role, total: nat, child: ObjectType)
    requires
        role.capacity() is Some,
        total > role.capacity()->0,
    ensures
        placement_fault(role, total, child) is Some,
        role.is_container() ==> placement_fault(role, total, child) == Some(
            Fault::TooManyChildren { role, total: total as usize },
        ),
{
}

/// A patch that would build a child for a container described with more
/// children than its role admits is at fault: the live tree is not given
/// a child too many, nor is a described child passed over in silence.
pub proof fn law_arity_is_enforced_in_patch(nodes: Seq<Live>, specs: Seq<VNode>, container: Widget)
    requires
        container.object_type.role.capacity() is Some,
        specs.len() > container.object_type.role.capacity()->0,
        agree(nodes, specs, 0) < specs.len(),
    ensures
        reconcile_fault(nodes, specs, container) is Some,
{
    let k = agree(nodes, specs, 0);
    lemma_agree(nodes, specs, 0);
    let role = container.object_type.role;
    assert(range_fault(specs, container.object_type, k, k) is None);
    let first = range_fault(specs, container.object_type, k, k + 1);
    assert(first is Some) by {
        if build_fault(specs[k as int]) is None {
            law_placement_enforces_arity(role, specs.len(), specs[k as int].object_type());
        }
    }
    lemma_range_fault_first(specs, container.object_type, k, k + 1, specs.len());
}

/// The live node has the shape of the description: it is of the described
/// class or type, and, if it is a container, it has one child of the shape
/// of each described child, at its index. Its handlers may be any.
pub open spec fn same_shape(live: Live, node: VNode) -> bool
    decreases node, 1nat,
{
    match (live, node) {
        (Live::Gtk { object, children, .. }, VNode::Widget(w)) => {
            &&& object.object_type == w.object_type
            &&& object.object_type.role.is_container() ==> all_same_shape(children, w.children@)
        },
        (Live::Component { component_type, .. }, VNode::Component(c)) => component_type
            == c.component_type,
        _ => false,
    }
}

/// The live nodes have the shapes of the descriptions, one for one.
pub open spec fn all_same_shape(nodes: Seq<Live>, specs: Seq<VNode>) -> bool
    decreases specs, 0nat,
{
    &&& nodes.len() == specs.len()
    &&& forall|i: int| 0 <= i < specs.len() ==> same_shape(nodes[i], #[trigger] specs[i])
}

/// The two trees are made of the same objects in the same places.
pub open spec fn same_objects(a: Live, b: Live) -> bool
    decreases a,
{
    match (a, b) {
        (
            Live::Gtk { object, children, .. },
            Live::Gtk { object: other, children: others, .. },
        ) => {
            &&& object == other
            &&& children.len() == others.len()
            &&& forall|i: int|
                0 <= i < children.len() ==> same_objects(#[trigger] children[i], others[i])
        },
        (Live::Component { object, .. }, Live::Component { object: other, .. }) => object == other,
        _ => false,
    }
}

/// The call applies a property again, connects a handler or releases a
/// connection: it makes, places, removes and shows no object.
pub open spec fn is_adjustment(op: Op) -> bool {
    match op {
        Op::SetProperty { initial, .. } => !initial,
        Op::Connect { .. } => true,
        Op::Disconnect { .. } => true,
        _ => false,
    }
}

/// Every call is an adjustment.
pub open spec fn only_adjusts(ops: Seq<Op>) -> bool {
    forall|i: int| 0 <= i < ops.len() ==> is_adjustment(#[trigger] ops[i])
}

proof fn lemma_only_adjusts_add(a: Seq<Op>, b: Seq<Op>)
    requires
        only_adjusts(a),
        only_adjusts(b),
    ensures
        only_adjusts(a + b),
{
    assert forall|i: int| 0 <= i < (a + b).len() implies is_adjustment(#[trigger] (a + b)[i]) by {
        if i < a.len() {
            assert((a + b)[i] == a[i]);
        } else {
            assert((a + b)[i] == b[i - a.len()]);
        }
    }
}

/// Patching a live tree that has the shape of the description constructs
/// nothing, places nothing and removes nothing, at any level: every object
/// stays where it is, and the toolkit is asked only to apply properties
/// again and to connect and release handlers.
pub proof fn law_patch_of_same_shape_builds_nothing(
    live: Live,
    node: VNode,
    parent: Option<u64>,
    base: nat,
)
    requires
        same_shape(live, node),
    ensures
        only_adjusts(patched(live, node, parent, base).ops),
        same_objects(patched(live, node, parent, base).live, live),
        patch_fault(live, node) is None,
    decreases node, 1nat,
{
    match (live, node) {
        (Live::Gtk { object, handlers, children }, VNode::Widget(w)) => {
            let h = object.handle;
            let step = patched_widget(object, handlers, children, w, parent, base);
            let kids = if object.object_type.role.is_container() {
                reconciled(children, w.children@, object, base)
            } else {
                Steps { lives: children, ops: Seq::empty(), next: base }
            };
            if object.object_type.role.is_container() {
                let specs = w.children@;
                let n = specs.len();
                assert forall|i: int| 0 <= i < specs.len() implies (#[trigger] children[i]).compatible(
                    specs[i],
                ) by {
                    assert(same_shape(children[i], specs[i]));
                }
                lemma_agree_all(children, specs, 0);
                lemma_patched_range_of_same_shape(children, specs, object, n, base);
                let head = patched_range(children, specs, object, n, base);
                assert(destroyed_range(children, h, n, n) =~= Seq::<Op>::empty());
                let tail = built_range(specs, object, n, n, false, head.next);
                assert(shown(tail.lives) =~= Seq::<Op>::empty());
                assert(kids.lives =~= head.lives);
                assert(kids.ops =~= head.ops);
            } else {
                lemma_same_objects_refl_all(children);
            }
            let props = applied(w.properties@, h, parent, false);
            let child_props = applied(w.child_props@, h, parent, false);
            let made = connects(handlers, w.handlers@, w.handlers@.len(), h, kids.next);
            let gone = disconnects(
                crate::vdom::handlers::dropped(handlers, w.handlers@, handlers.len()),
                h,
            );
            crate::vdom::handlers::lemma_connects(handlers, w.handlers@, w.handlers@.len(), h, kids.next);
            assert(only_adjusts(props));
            assert(only_adjusts(child_props));
            assert(only_adjusts(made)) by {
                assert forall|i: int| 0 <= i < made.len() implies is_adjustment(#[trigger] made[i]) by {
                    let e = added(handlers, w.handlers@, w.handlers@.len(), kids.next)[i];
                    assert(crate::vdom::handlers::made_for(made[i], h, e, w.handlers@));
                }
            }
            assert(only_adjusts(gone));
            lemma_only_adjusts_add(kids.ops, props);
            lemma_only_adjusts_add(kids.ops + props, child_props);
            lemma_only_adjusts_add(kids.ops + props + child_props, made);
            lemma_only_adjusts_add(kids.ops + props + child_props + made, gone);
        },
        (Live::Component { object, component_type }, VNode::Component(c)) => {},
        _ => {},
    }
}

/// The same for a run of children patched in place.
pub proof fn lemma_patched_range_of_same_shape(
    nodes: Seq<Live>,
    specs: Seq<VNode>,
    container: Widget,
    upto: nat,
    base: nat,
)
    requires
        upto <= nodes.len(),
        upto <= specs.len(),
        forall|i: int| 0 <= i < upto ==> same_shape(nodes[i], #[trigger] specs[i]),
    ensures
        patched_range(nodes, specs, container, upto, base).lives.len() == upto,
        only_adjusts(patched_range(nodes, specs, container, upto, base).ops),
        forall|i: int|
            0 <= i < upto ==> same_objects(
                #[trigger] patched_range(nodes, specs, container, upto, base).lives[i],
                nodes[i],
            ),
        patch_range_fault(nodes, specs, upto) is None,
    decreases specs, upto,
{
    if upto > 0 {
        let m = (upto - 1) as nat;
        lemma_patched_range_of_same_shape(nodes, specs, container, m, base);
        let before = patched_range(nodes, specs, container, m, base);
        let now = patched_range(nodes, specs, container, upto, base);
        assert(same_shape(nodes[m as int], specs[m as int]));
        law_patch_of_same_shape_builds_nothing(
            nodes[m as int],
            specs[m as int],
            Some(container.handle),
            before.next,
        );
        let child = patched(nodes[m as int], specs[m as int], Some(container.handle), before.next);
        lemma_only_adjusts_add(before.ops, child.ops);
        assert forall|i: int| 0 <= i < upto implies same_objects(#[trigger] now.lives[i], nodes[i]) by {
            if i < m {
                assert(now.lives[i] == before.lives[i]);
            }
        }
    }
}

/// A tree is made of the objects that it is made of.
pub proof fn lemma_same_objects_refl(live: Live)
    ensures
        same_objects(live, live),
    decreases live,
{
    match live {
        Live::Gtk { children, .. } => {
            lemma_same_objects_refl_all(children);
        },
        Live::Component { .. } => {},
    }
}

/// The same for every node of a list.
pub proof fn lemma_same_objects_refl_all(nodes: Seq<Live>)
    ensures
        forall|i: int| 0 <= i < nodes.len() ==> same_objects(#[trigger] nodes[i], nodes[i]),
    decreases nodes,
{
    assert forall|i: int| 0 <= i < nodes.len() implies same_objects(#[trigger] nodes[i], nodes[i]) by {
        lemma_same_objects_refl(nodes[i]);
    }
}

/// Tearing down makes, places and shows nothing: every call releases a
/// connection, removes an object from its container or stops a component.
pub open spec fn only_removes(ops: Seq<Op>) -> bool {
    forall|i: int|
        0 <= i < ops.len() ==> (#[trigger] ops[i]) is Disconnect || ops[i] is Detach || ops[i] is Unmount
}

proof fn lemma_only_removes_add(a: Seq<Op>, b: Seq<Op>)
    requires
        only_removes(a),
        only_removes(b),
    ensures
        only_removes(a + b),
{
    assert forall|i: int| 0 <= i < (a + b).len() implies (#[trigger] (a + b)[i]) is Disconnect || (a
        + b)[i] is Detach || (a + b)[i] is Unmount by {
        if i < a.len() {
            assert((a + b)[i] == a[i]);
        } else {
            assert((a + b)[i] == b[i - a.len()]);
        }
    }
}

/// What tearing a tree down asks of the toolkit.
pub proof fn lemma_destroyed_only_removes(live: Live, container: u64)
    ensures
        only_removes(destroyed(live, container)),
    decreases live, 0nat,
{
    match live {
        Live::Gtk { object, handlers, children } => {
            let kids = destroyed_range(children, object.handle, 0, children.len());
            let own = disconnects(handlers, object.handle);
            let last = seq![Op::Detach { container, child: object.handle }];
            lemma_destroyed_range_only_removes(children, object.handle, 0, children.len());
            assert(only_removes(own));
            assert(only_removes(last));
            lemma_only_removes_add(kids, own);
            lemma_only_removes_add(kids + own, last);
        },
        Live::Component { .. } => {},
    }
}

/// The same for a run of children.
pub proof fn lemma_destroyed_range_only_removes(nodes: Seq<Live>, container: u64, from: nat, upto: nat)
    ensures
        only_removes(destroyed_range(nodes, container, from, upto)),
    decreases nodes, upto,
{
    if upto > from && upto <= nodes.len() {
        lemma_destroyed_range_only_removes(nodes, container, from, (upto - 1) as nat);
        lemma_destroyed_only_removes(nodes[upto - 1], container);
        lemma_only_removes_add(
            destroyed_range(nodes, container, from, (upto - 1) as nat),
            destroyed(nodes[upto - 1], container),
        );
    }
}

/// Where each described child has a live child of its shape at its index
/// and live children are left over, no reconstruction takes place. The
/// described children are patched where they are, by adjustments alone, and
/// stay the objects that they were at every level; then the children left
/// over are torn down, one after the other. No object is constructed, no
/// component is mounted, nothing is placed and nothing is shown.
pub proof fn law_truncation_builds_nothing(
    nodes: Seq<Live>,
    specs: Seq<VNode>,
    container: Widget,
    base: nat,
)
    requires
        specs.len() <= nodes.len(),
        forall|i: int| 0 <= i < specs.len() ==> same_shape(nodes[i], #[trigger] specs[i]),
    ensures
        ({
            let after = reconciled(nodes, specs, container, base);
            let head = patched_range(nodes, specs, container, specs.len(), base);
            let gone = destroyed_range(nodes, container.handle, specs.len(), nodes.len());
            &&& agree(nodes, specs, 0) == specs.len()
            &&& after.ops == head.ops + gone
            &&& only_adjusts(head.ops)
            &&& only_removes(gone)
            &&& after.lives.len() == specs.len()
            &&& forall|i: int|
                0 <= i < specs.len() ==> same_objects(#[trigger] after.lives[i], nodes[i])
            &&& forall|i: int|
                0 <= i < after.ops.len() ==> !((#[trigger] after.ops[i]) is Construct || after.ops[i] is Mount
                    || after.ops[i] is Attach || after.ops[i] is Show)
        }),
{
    let k = specs.len();
    let after = reconciled(nodes, specs, container, base);
    let head = patched_range(nodes, specs, container, k, base);
    let gone = destroyed_range(nodes, container.handle, k, nodes.len());
    lemma_agree(nodes, specs, 0);
    lemma_agree_prefix(nodes, specs, 0);
    lemma_patched_range_of_same_shape(nodes, specs, container, k, base);
    lemma_destroyed_range_only_removes(nodes, container.handle, k, nodes.len());
    let tail = built_range(specs, container, k, k, k < nodes.len(), head.next);
    assert(shown(tail.lives) =~= Seq::<Op>::empty());
    assert(after.lives =~= head.lives);
    assert(after.ops =~= head.ops + gone);
    assert forall|i: int| 0 <= i < after.ops.len() implies !((#[trigger] after.ops[i]) is Construct
        || after.ops[i] is Mount || after.ops[i] is Attach || after.ops[i] is Show) by {
        if i < head.ops.len() {
            assert(after.ops[i] == head.ops[i]);
            assert(is_adjustment(head.ops[i]));
        } else {
            assert(after.ops[i] == gone[i - head.ops.len()]);
        }
    }
}

/// Where every described child has a compatible live child at its index,
/// all of them can be patched in place.
proof fn lemma_agree_prefix(nodes: Seq<Live>, specs: Seq<VNode>, from: nat)
    requires
        from <= specs.len() <= nodes.len(),
        forall|i: int| 0 <= i < specs.len() ==> same_shape(nodes[i], #[trigger] specs[i]),
    ensures
        agree(nodes, specs, from) == specs.len(),
    decreases specs.len() - from,
{
    if from < specs.len() {
        assert(same_shape(nodes[from as int], specs[from as int]));
        lemma_agree_prefix(nodes, specs, from + 1);
    }
}

/// Building leaves a tree in which no object has two connections for one
/// key.
pub proof fn law_built_wf(node: VNode, parent: Option<u64>, base: nat)
    ensures
        built(node, parent, base).live.wf(),
    decreases node, 1nat,
{
    match node {
        VNode::Widget(w) => {
            let step = built_widget(w, parent, base);
            let entries = added(Seq::empty(), w.handlers@, w.handlers@.len(), base + 1);
            law_entries_follow_bindings(Seq::empty(), w.handlers@, base + 1);
            assert(reconciled_entries(Seq::empty(), w.handlers@, base + 1) =~= entries);
            assert(distinct(Seq::<Entry>::empty()));
            assert(distinct(entries));
            if w.object_type.role.is_container() {
                let object = Widget { handle: base as u64, object_type: w.object_type };
                lemma_built_range_wf(
                    w.children@,
                    object,
                    0,
                    w.children@.len(),
                    false,
                    base + 1 + entries.len(),
                );
                let kids = built_range(
                    w.children@,
                    object,
                    0,
                    w.children@.len(),
                    false,
                    base + 1 + entries.len(),
                );
                assert(step.live->Gtk_children == kids.lives);
                assert forall|i: int| 0 <= i < kids.lives.len() implies (#[trigger] kids.lives[i]).wf() by {}
            } else {
                assert(step.live->Gtk_children.len() == 0);
            }
            assert(step.live->Gtk_handlers == entries);
            assert(forall|i: int|
                0 <= i < step.live->Gtk_children.len() ==> (#[trigger] step.live->Gtk_children[i]).wf());
            assert(step.live.wf());
        },
        VNode::Component(_) => {},
    }
}

/// The same for a run of children.
pub proof fn lemma_built_range_wf(
    specs: Seq<VNode>,
    container: Widget,
    from: nat,
    upto: nat,
    show: bool,
    base: nat,
)
    requires
        from <= upto <= specs.len(),
    ensures
        forall|i: int|
            0 <= i < built_range(specs, container, from, upto, show, base).lives.len() ==> (
            #[trigger] built_range(specs, container, from, upto, show, base).lives[i]).wf(),
    decreases specs, upto,
{
    if upto > from {
        let m = (upto - 1) as nat;
        lemma_built_range_wf(specs, container, from, m, show, base);
        let before = built_range(specs, container, from, m, show, base);
        let now = built_range(specs, container, from, upto, show, base);
        law_built_wf(specs[m as int], Some(container.handle), before.next);
        assert forall|i: int| 0 <= i < now.lives.len() implies (#[trigger] now.lives[i]).wf() by {
            if i < before.lives.len() {
                assert(now.lives[i] == before.lives[i]);
            }
        }
    }
}

/// Patching keeps it so.
pub proof fn law_patched_wf(live: Live, node: VNode, parent: Option<u64>, base: nat)
    requires
        live.wf(),
    ensures
        patched(live, node, parent, base).live.wf(),
    decreases node, 1nat,
{
    match (live, node) {
        (Live::Gtk { object, handlers, children }, VNode::Widget(w)) => {
            if object.object_type == w.object_type {
                let kids = if object.object_type.role.is_container() {
                    reconciled(children, w.children@, object, base)
                } else {
                    Steps { lives: children, ops: Seq::empty(), next: base }
                };
                law_entries_follow_bindings(handlers, w.handlers@, kids.next);
                if object.object_type.role.is_container() {
                    let specs = w.children@;
                    let k = agree(children, specs, 0);
                    lemma_agree(children, specs, 0);
                    let head = patched_range(children, specs, object, k, base);
                    lemma_patched_range_wf(children, specs, object, k, base);
                    let tail = built_range(specs, object, k, specs.len(), k < children.len(), head.next);
                    lemma_built_range_wf(specs, object, k, specs.len(), k < children.len(), head.next);
                    assert forall|i: int| 0 <= i < kids.lives.len() implies (#[trigger] kids.lives[i]).wf() by {
                        if i < head.lives.len() {
                            assert(kids.lives[i] == head.lives[i]);
                        } else {
                            assert(kids.lives[i] == tail.lives[i - head.lives.len()]);
                        }
                    }
                }
            }
        },
        _ => {},
    }
}

/// The same for a run of children.
pub proof fn lemma_patched_range_wf(
    nodes: Seq<Live>,
    specs: Seq<VNode>,
    container: Widget,
    upto: nat,
    base: nat,
)
    requires
        upto <= nodes.len(),
        upto <= specs.len(),
        forall|i: int| 0 <= i < nodes.len() ==> (#[trigger] nodes[i]).wf(),
    ensures
        forall|i: int|
            0 <= i < patched_range(nodes, specs, container, upto, base).lives.len() ==> (
            #[trigger] patched_range(nodes, specs, container, upto, base).lives[i]).wf(),
    decreases specs, upto,
{
    if upto > 0 {
        let m = (upto - 1) as nat;
        lemma_patched_range_wf(nodes, specs, container, m, base);
        let before = patched_range(nodes, specs, container, m, base);
        let now = patched_range(nodes, specs, container, upto, base);
        law_patched_wf(nodes[m as int], specs[m as int], Some(container.handle), before.next);
        assert forall|i: int| 0 <= i < now.lives.len() implies (#[trigger] now.lives[i]).wf() by {
            if i < before.lives.len() {
                assert(now.lives[i] == before.lives[i]);
            }
        }
    }
}

} // verus!
