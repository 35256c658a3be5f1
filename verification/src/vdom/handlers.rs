//! The handlers connected to a live object, and how they follow the bindings
//! of a description.

use vstd::prelude::*;

use crate::vdom::toolkit::{Op, Toolkit};
use crate::vdom::vnode::VHandler;

verus! {

/// A connected handler: the key of its binding and the connection that the
/// toolkit gave for it.
#[derive(Clone, Debug)]
pub struct Binding {
    pub name: String,
    pub id: u64,
    pub connection: u64,
}

/// What a [`Binding`] stands for.
pub struct Entry {
    pub name: Seq<char>,
    pub id: u64,
    pub connection: u64,
}

impl View for Binding {
    type V = Entry;

    open spec fn view(&self) -> Entry {
        Entry { name: self.name@, id: self.id, connection: self.connection }
    }
}

/// Whether the entries hold a connection for the key.
pub open spec fn bound(entries: Seq<Entry>, name: Seq<char>, id: u64) -> bool {
    exists|i: int| 0 <= i < entries.len() && (#[trigger] entries[i]).name == name && entries[i].id == id
}

/// Whether the bindings of a description name the key.
pub open spec fn wanted(handlers: Seq<VHandler>, name: Seq<char>, id: u64) -> bool {
    exists|i: int|
        0 <= i < handlers.len() && (#[trigger] handlers[i]).name@ == name && handlers[i].id == id
}

/// No key has two entries.
pub open spec fn distinct(entries: Seq<Entry>) -> bool {
    forall|i: int, j: int|
        0 <= i < j < entries.len() ==> !((#[trigger] entries[i]).name == (#[trigger] entries[j]).name
            && entries[i].id == entries[j].id)
}

/// The connection held for the key. Meaningful where the key is bound.
pub open spec fn connection_of(entries: Seq<Entry>, name: Seq<char>, id: u64) -> u64 {
    let i = choose|i: int|
        0 <= i < entries.len() && (#[trigger] entries[i]).name == name && entries[i].id == id;
    entries[i].connection
}

/// The entries made for those of the first `n` bindings whose key has no
/// entry yet, in the order of the bindings. The connections are numbered
/// upwards from `base`.
pub open spec fn added(entries: Seq<Entry>, handlers: Seq<VHandler>, n: nat, base: nat) -> Seq<Entry>
    decreases n,
{
    if n == 0 || n > handlers.len() {
        Seq::empty()
    } else {
        let before = added(entries, handlers, (n - 1) as nat, base);
        let h = handlers[n - 1];
        if bound(entries + before, h.name@, h.id) {
            before
        } else {
            before.push(Entry { name: h.name@, id: h.id, connection: (base + before.len()) as u64 })
        }
    }
}

/// The calls that make the connections of [`added`], each with the setter of
/// the binding that it is made for.
pub open spec fn connects(
    entries: Seq<Entry>,
    handlers: Seq<VHandler>,
    n: nat,
    object: u64,
    base: nat,
) -> Seq<Op>
    decreases n,
{
    if n == 0 || n > handlers.len() {
        Seq::empty()
    } else {
        let ops = connects(entries, handlers, (n - 1) as nat, object, base);
        let before = added(entries, handlers, (n - 1) as nat, base);
        let h = handlers[n - 1];
        if bound(entries + before, h.name@, h.id) {
            ops
        } else {
            ops.push(Op::Connect { object, setter: h.setter, connection: (base + before.len()) as u64 })
        }
    }
}

/// Those of the first `n` entries whose key the bindings still name.
pub open spec fn retained(entries: Seq<Entry>, handlers: Seq<VHandler>, n: nat) -> Seq<Entry>
    decreases n,
{
    if n == 0 || n > entries.len() {
        Seq::empty()
    } else {
        let before = retained(entries, handlers, (n - 1) as nat);
        let e = entries[n - 1];
        if wanted(handlers, e.name, e.id) {
            before.push(e)
        } else {
            before
        }
    }
}

/// Those of the first `n` entries whose key the bindings no longer name.
pub open spec fn dropped(entries: Seq<Entry>, handlers: Seq<VHandler>, n: nat) -> Seq<Entry>
    decreases n,
{
    if n == 0 || n > entries.len() {
        Seq::empty()
    } else {
        let before = dropped(entries, handlers, (n - 1) as nat);
        let e = entries[n - 1];
        if wanted(handlers, e.name, e.id) {
            before
        } else {
            before.push(e)
        }
    }
}

/// One call that releases each of the entries' connections, in their order.
pub open spec fn disconnects(entries: Seq<Entry>, object: u64) -> Seq<Op> {
    Seq::new(entries.len(), |i: int| Op::Disconnect { object, connection: entries[i].connection })
}

/// The handlers connected to one live object, by the key of their binding.
#[derive(Clone, Debug)]
pub struct Handlers {
    entries: Vec<Binding>,
}

impl View for Handlers {
    type V = Seq<Entry>;

    closed spec fn view(&self) -> Seq<Entry> {
        Seq::new(self.entries@.len(), |i: int| self.entries@[i]@)
    }
}

impl Handlers {
    /// No handler connected.
    pub fn new() -> (h: Handlers)
        ensures
            h@ == Seq::<Entry>::empty(),
    {
        let h = Handlers { entries: Vec::new() };
        assert(h@ =~= Seq::<Entry>::empty());
        h
    }

    /// The number of connections held.
    pub fn len(&self) -> (n: usize)
        ensures
            n == self@.len(),
    {
        self.entries.len()
    }

    /// The connection held for a key, if there is one: that of the first
    /// entry with the key, which is the only one where the handlers are
    /// well formed.
    pub fn get(&self, name: &String, id: u64) -> (found: Option<u64>)
        ensures
            found is Some <==> bound(self@, name@, id),
            found is Some ==> exists|i: int|
                0 <= i < self@.len() && (#[trigger] self@[i]).name == name@ && self@[i].id == id
                    && self@[i].connection == found->0 && !bound(self@.take(i), name@, id),
            distinct(self@) && found is Some ==> found->0 == connection_of(self@, name@, id),
    {
        let mut i: usize = 0;
        while i < self.entries.len()
            invariant
                i <= self.entries.len(),
                forall|j: int| 0 <= j < i ==> !((#[trigger] self@[j]).name == name@ && self@[j].id == id),
            decreases self.entries.len() - i,
        {
            if self.entries[i].id == id && self.entries[i].name == *name {
                assert(self@[i as int].name == name@ && self@[i as int].id == id);
                assert forall|j: int| 0 <= j < i implies !((#[trigger] self@.take(i as int)[j]).name
                    == name@ && self@.take(i as int)[j].id == id) by {
                    assert(self@.take(i as int)[j] == self@[j]);
                }
                return Some(self.entries[i].connection);
            }
            i = i + 1;
        }
        None
    }

    /// Whether a connection is held for a key.
    pub fn has(&self, name: &String, id: u64) -> (b: bool)
        ensures
            b == bound(self@, name@, id),
    {
        self.get(name, id).is_some()
    }

    /// The connections held, in the order in which they were made.
    pub fn connections(&self) -> (all: Vec<u64>)
        ensures
            all@.len() == self@.len(),
            forall|i: int| 0 <= i < all@.len() ==> all@[i] == (#[trigger] self@[i]).connection,
    {
        let mut all: Vec<u64> = Vec::new();
        let mut i: usize = 0;
        while i < self.entries.len()
            invariant
                i <= self.entries.len(),
                all@.len() == i,
                forall|j: int| 0 <= j < i ==> all@[j] == (#[trigger] self@[j]).connection,
            decreases self.entries.len() - i,
        {
            all.push(self.entries[i].connection);
            i = i + 1;
        }
        all
    }
}

/// Whether the call connects a binding with the entry's key to the object
/// and gives the entry's connection.
pub open spec fn made_for(op: Op, object: u64, entry: Entry, handlers: Seq<VHandler>) -> bool {
    exists|j: int|
        0 <= j < handlers.len() && (#[trigger] handlers[j]).name@ == entry.name && handlers[j].id
            == entry.id && op == (Op::Connect {
            object,
            setter: handlers[j].setter,
            connection: entry.connection,
        })
}

/// [`connects`] has one call for each entry of [`added`], which connects a
/// binding with the entry's key and gives the entry's connection.
pub proof fn lemma_connects(
    entries: Seq<Entry>,
    handlers: Seq<VHandler>,
    n: nat,
    object: u64,
    base: nat,
)
    requires
        n <= handlers.len(),
    ensures
        connects(entries, handlers, n, object, base).len() == added(entries, handlers, n, base).len(),
        forall|i: int|
            0 <= i < added(entries, handlers, n, base).len() ==> made_for(
                #[trigger] connects(entries, handlers, n, object, base)[i],
                object,
                added(entries, handlers, n, base)[i],
                handlers,
            ),
    decreases n,
{
    if n > 0 {
        lemma_connects(entries, handlers, (n - 1) as nat, object, base);
        let before = added(entries, handlers, (n - 1) as nat, base);
        let ops = connects(entries, handlers, (n - 1) as nat, object, base);
        let now = added(entries, handlers, n, base);
        let all = connects(entries, handlers, n, object, base);
        assert forall|i: int| 0 <= i < now.len() implies made_for(
            #[trigger] all[i],
            object,
            now[i],
            handlers,
        ) by {
            if i < before.len() {
                assert(all[i] == ops[i]);
                assert(now[i] == before[i]);
                assert(made_for(ops[i], object, before[i], handlers));
            } else {
                assert(handlers[n - 1].name@ == now[i].name);
            }
        }
    }
}

/// Every entry of [`added`] has a key that the bindings name, that had no
/// entry before, and that no other entry of it has.
pub proof fn lemma_added(entries: Seq<Entry>, handlers: Seq<VHandler>, n: nat, base: nat)
    requires
        n <= handlers.len(),
    ensures
        added(entries, handlers, n, base).len() <= n,
        forall|i: int|
            0 <= i < added(entries, handlers, n, base).len() ==> {
                let e = #[trigger] added(entries, handlers, n, base)[i];
                &&& wanted(handlers, e.name, e.id)
                &&& !bound(entries, e.name, e.id)
                &&& e.connection == (base + i) as u64
            },
        distinct(entries) ==> distinct(entries + added(entries, handlers, n, base)),
    decreases n,
{
    if n > 0 {
        lemma_added(entries, handlers, (n - 1) as nat, base);
        let before = added(entries, handlers, (n - 1) as nat, base);
        let h = handlers[n - 1];
        if !bound(entries + before, h.name@, h.id) {
            let e = Entry { name: h.name@, id: h.id, connection: (base + before.len()) as u64 };
            let now = before.push(e);
            assert(now == added(entries, handlers, n, base));
            assert(wanted(handlers, e.name, e.id));

            if bound(entries, e.name, e.id) {
                let j = choose|j: int|
                    0 <= j < entries.len() && (#[trigger] entries[j]).name == e.name && entries[j].id
                        == e.id;
                assert((entries + before)[j] == entries[j]);
            }
            assert forall|i: int| 0 <= i < now.len() implies {
                let x = #[trigger] now[i];
                &&& wanted(handlers, x.name, x.id)
                &&& !bound(entries, x.name, x.id)
                &&& x.connection == (base + i) as u64
            } by {
                if i < before.len() {
                    assert(now[i] == before[i]);
                }
            }
            if distinct(entries) {
                let all = entries + now;
                assert(all =~= (entries + before).push(e));
                assert forall|i: int, j: int| 0 <= i < j < all.len() implies !((#[trigger] all[i]).name
                    == (#[trigger] all[j]).name && all[i].id == all[j].id) by {
                    if j < all.len() - 1 {
                        assert(all[i] == (entries + before)[i]);
                        assert(all[j] == (entries + before)[j]);
                    } else {
                        assert(all[i] == (entries + before)[i]);
                    }
                }
            }
        }
    } else {
        assert(entries + added(entries, handlers, n, base) =~= entries);
    }
}

/// [`retained`] and [`dropped`] look at the first `n` entries only.
pub proof fn lemma_retained_prefix(a: Seq<Entry>, b: Seq<Entry>, handlers: Seq<VHandler>, n: nat)
    requires
        n <= a.len(),
    ensures
        retained(a + b, handlers, n) == retained(a, handlers, n),
        dropped(a + b, handlers, n) == dropped(a, handlers, n),
    decreases n,
{
    if n > 0 {
        lemma_retained_prefix(a, b, handlers, (n - 1) as nat);
        assert((a + b)[n - 1] == a[n - 1]);
    }
}

/// Entries whose keys are all named are all retained, and none is dropped.
pub proof fn lemma_retained_suffix(a: Seq<Entry>, b: Seq<Entry>, handlers: Seq<VHandler>, m: nat)
    requires
        m <= b.len(),
        forall|i: int| 0 <= i < b.len() ==> wanted(handlers, (#[trigger] b[i]).name, b[i].id),
    ensures
        retained(a + b, handlers, a.len() + m) == retained(a, handlers, a.len()) + b.take(m as int),
        dropped(a + b, handlers, a.len() + m) == dropped(a, handlers, a.len()),
    decreases m,
{
    if m == 0 {
        lemma_retained_prefix(a, b, handlers, a.len());
        assert(retained(a, handlers, a.len()) + b.take(0) =~= retained(a, handlers, a.len()));
    } else {
        lemma_retained_suffix(a, b, handlers, (m - 1) as nat);
        assert((a + b)[a.len() + m - 1] == b[m - 1]);
        assert(b.take(m as int) =~= b.take(m - 1).push(b[m - 1]));
        assert((retained(a, handlers, a.len()) + b.take(m - 1)).push(b[m - 1]) =~= retained(
            a,
            handlers,
            a.len(),
        ) + b.take(m as int));
    }
}

impl Handlers {
    /// No key has two connections.
    pub open spec fn wf(&self) -> bool {
        distinct(self@)
    }

    /// Brings the connections of `object` in line with the bindings of a
    /// description. A binding whose key has no connection is connected, in
    /// the order of the bindings; a connection whose key is still named is
    /// left as it is; a connection whose key is no longer named is released.
    pub fn reconcile(&mut self, object: u64, handlers: &Vec<VHandler>, tk: &mut Toolkit)
        requires
            old(tk).has_room(handlers@.len()),
        ensures
            final(self)@ == retained(old(self)@, handlers@, old(self)@.len()) + added(
                old(self)@,
                handlers@,
                handlers@.len(),
                old(tk).next(),
            ),
            final(tk)@ == old(tk)@ + connects(
                old(self)@,
                handlers@,
                handlers@.len(),
                object,
                old(tk).next(),
            ) + disconnects(dropped(old(self)@, handlers@, old(self)@.len()), object),
            final(tk).next() == old(tk).next() + added(
                old(self)@,
                handlers@,
                handlers@.len(),
                old(tk).next(),
            ).len(),
            old(self).wf() ==> final(self).wf(),
    {
        let ghost before = self@;
        let ghost journal = tk@;
        let ghost base = tk.next();
        let mut i: usize = 0;
        proof {
            assert(self@ =~= before + added(before, handlers@, 0, base));
            assert(tk@ =~= journal + connects(before, handlers@, 0, object, base));
        }
        while i < handlers.len()
            invariant
                i <= handlers.len(),
                base + handlers@.len() <= u64::MAX,
                self@ == before + added(before, handlers@, i as nat, base),
                tk@ == journal + connects(before, handlers@, i as nat, object, base),
                tk.next() == base + added(before, handlers@, i as nat, base).len(),
                added(before, handlers@, i as nat, base).len() <= i,
            decreases handlers.len() - i,
        {
            let h = &handlers[i];
            let ghost so_far = added(before, handlers@, i as nat, base);
            if !self.has(&h.name, h.id) {
                let connection: u64 = tk.connect(object, h.setter);
                self.entries.push(Binding { name: h.name.clone(), id: h.id, connection });
                proof {
                    let e = Entry { name: h.name@, id: h.id, connection };
                    assert(self@ =~= (before + so_far).push(e));
                    assert((before + so_far).push(e) =~= before + so_far.push(e));
                    assert(tk@ =~= journal + connects(before, handlers@, (i + 1) as nat, object, base));
                }
            }
            i = i + 1;
        }
        let ghost fresh = added(before, handlers@, handlers@.len(), base);
        let ghost mid = self@;
        let ghost connected = tk@;
        let mut at: usize = 0;
        let mut seen: usize = 0;
        let total: usize = self.entries.len();
        proof {
            lemma_added(before, handlers@, handlers@.len(), base);
            assert(self@ =~= retained(mid, handlers@, 0) + mid.skip(0));
            assert(tk@ =~= connected + disconnects(dropped(mid, handlers@, 0), object));
        }
        while seen < total
            invariant
                seen <= total,
                total == mid.len(),
                at == retained(mid, handlers@, seen as nat).len(),
                at <= seen,
                self@ == retained(mid, handlers@, seen as nat) + mid.skip(seen as int),
                tk@ == connected + disconnects(dropped(mid, handlers@, seen as nat), object),
                tk.next() == base + fresh.len(),
                distinct(mid) ==> distinct(self@),
            decreases total - seen,
        {
            let ghost kept = retained(mid, handlers@, seen as nat);
            let ghost gone = dropped(mid, handlers@, seen as nat);
            let ghost now = self@;
            assert(self@[at as int] == mid[seen as int]);
            assert(self.entries@.len() == self@.len());
            assert(self.entries@[at as int]@ == self@[at as int]);
            if is_wanted(handlers, &self.entries[at].name, self.entries[at].id) {
                proof {
                    assert(self@ =~= kept.push(mid[seen as int]) + mid.skip(seen + 1));
                }
                at = at + 1;
            } else {
                let e = self.entries.remove(at);
                tk.disconnect(object, e.connection);
                proof {
                    assert(self@ =~= now.remove(at as int));
                    assert(self@ =~= kept + mid.skip(seen + 1));
                    assert(disconnects(gone, object).push(
                        Op::Disconnect { object, connection: e.connection },
                    ) =~= disconnects(gone.push(mid[seen as int]), object));
                    if distinct(mid) {
                        assert forall|i: int, j: int| 0 <= i < j < self@.len() implies !((
                        #[trigger] self@[i]).name == (#[trigger] self@[j]).name && self@[i].id
                            == self@[j].id) by {
                            let ii = if i < at { i } else { i + 1 };
                            let jj = if j < at { j } else { j + 1 };
                            assert(self@[i] == now[ii]);
                            assert(self@[j] == now[jj]);
                        }
                    }
                }
            }
            seen = seen + 1;
        }
        proof {
            assert(mid.skip(mid.len() as int) =~= Seq::<Entry>::empty());
            assert(self@ =~= retained(mid, handlers@, mid.len()));
            lemma_retained_suffix(before, fresh, handlers@, fresh.len());
            assert(fresh.take(fresh.len() as int) =~= fresh);
            assert(mid.len() == before.len() + fresh.len());
        }
    }
}

/// Whether the bindings of a description name the key.
pub fn is_wanted(handlers: &Vec<VHandler>, name: &String, id: u64) -> (b: bool)
    ensures
        b == wanted(handlers@, name@, id),
{
    let mut i: usize = 0;
    while i < handlers.len()
        invariant
            i <= handlers.len(),
            forall|j: int| 0 <= j < i ==> !((#[trigger] handlers@[j]).name@ == name@ && handlers@[j].id == id),
        decreases handlers.len() - i,
    {
        if handlers[i].id == id && handlers[i].name == *name {
            return true;
        }
        i = i + 1;
    }
    false
}


/// Every retained entry is one of the first `n` entries and has a key that
/// the bindings name; every dropped entry is one of them and has a key that
/// they do not name; and each of the first `n` entries is in one of the two.
pub proof fn lemma_retained(entries: Seq<Entry>, handlers: Seq<VHandler>, n: nat)
    requires
        n <= entries.len(),
    ensures
        forall|i: int|
            0 <= i < retained(entries, handlers, n).len() ==> {
                let e = #[trigger] retained(entries, handlers, n)[i];
                wanted(handlers, e.name, e.id) && entries.take(n as int).contains(e)
            },
        forall|i: int|
            0 <= i < dropped(entries, handlers, n).len() ==> {
                let e = #[trigger] dropped(entries, handlers, n)[i];
                !wanted(handlers, e.name, e.id) && entries.take(n as int).contains(e)
            },
        forall|j: int|
            0 <= j < n ==> if wanted(handlers, (#[trigger] entries[j]).name, entries[j].id) {
                retained(entries, handlers, n).contains(entries[j])
            } else {
                dropped(entries, handlers, n).contains(entries[j])
            },
        distinct(entries) ==> distinct(retained(entries, handlers, n)) && distinct(
            dropped(entries, handlers, n),
        ),
    decreases n,
{
    if n > 0 {
        let m = (n - 1) as nat;
        lemma_retained(entries, handlers, m);
        let e = entries[n - 1];
        let kept = retained(entries, handlers, m);
        let gone = dropped(entries, handlers, m);
        let kept2 = retained(entries, handlers, n);
        let gone2 = dropped(entries, handlers, n);
        assert(entries.take(n as int)[n - 1] == e);
        assert forall|x: Entry| entries.take(m as int).contains(x) implies entries.take(
            n as int,
        ).contains(x) by {
            let j = choose|j: int| 0 <= j < m && entries.take(m as int)[j] == x;
            assert(entries.take(n as int)[j] == x);
        }
        assert forall|i: int| 0 <= i < kept2.len() implies {
            let x = #[trigger] kept2[i];
            wanted(handlers, x.name, x.id) && entries.take(n as int).contains(x)
        } by {
            if i < kept.len() {
                assert(kept2[i] == kept[i]);
            }
        }
        assert forall|i: int| 0 <= i < gone2.len() implies {
            let x = #[trigger] gone2[i];
            !wanted(handlers, x.name, x.id) && entries.take(n as int).contains(x)
        } by {
            if i < gone.len() {
                assert(gone2[i] == gone[i]);
            }
        }
        assert forall|j: int| 0 <= j < n implies if wanted(
            handlers,
            (#[trigger] entries[j]).name,
            entries[j].id,
        ) {
            kept2.contains(entries[j])
        } else {
            gone2.contains(entries[j])
        } by {
            if j < m {
                if wanted(handlers, entries[j].name, entries[j].id) {
                    let i = choose|i: int| 0 <= i < kept.len() && kept[i] == entries[j];
                    assert(kept2[i] == entries[j]);
                } else {
                    let i = choose|i: int| 0 <= i < gone.len() && gone[i] == entries[j];
                    assert(gone2[i] == entries[j]);
                }
            } else {
                if wanted(handlers, e.name, e.id) {
                    assert(kept2[kept2.len() - 1] == e);
                } else {
                    assert(gone2[gone2.len() - 1] == e);
                }
            }
        }
        if distinct(entries) {
            assert forall|a: int, b: int| 0 <= a < b < kept2.len() implies !((#[trigger] kept2[a]).name
                == (#[trigger] kept2[b]).name && kept2[a].id == kept2[b].id) by {
                if b < kept.len() {
                    assert(kept2[a] == kept[a] && kept2[b] == kept[b]);
                } else {
                    assert(kept2[a] == kept[a]);
                    let j = choose|j: int| 0 <= j < m && entries.take(m as int)[j] == kept[a];
                    assert(entries[j] == kept[a]);
                    assert(entries[n - 1] == kept2[b]);
                }
            }
            assert forall|a: int, b: int| 0 <= a < b < gone2.len() implies !((#[trigger] gone2[a]).name
                == (#[trigger] gone2[b]).name && gone2[a].id == gone2[b].id) by {
                if b < gone.len() {
                    assert(gone2[a] == gone[a] && gone2[b] == gone[b]);
                } else {
                    assert(gone2[a] == gone[a]);
                    let j = choose|j: int| 0 <= j < m && entries.take(m as int)[j] == gone[a];
                    assert(entries[j] == gone[a]);
                    assert(entries[n - 1] == gone2[b]);
                }
            }
        }
    }
}

/// Where the bindings name the key of every entry, all entries are retained
/// and none is dropped.
pub proof fn lemma_retained_all(entries: Seq<Entry>, handlers: Seq<VHandler>, n: nat)
    requires
        n <= entries.len(),
        forall|i: int| 0 <= i < n ==> wanted(handlers, (#[trigger] entries[i]).name, entries[i].id),
    ensures
        retained(entries, handlers, n) == entries.take(n as int),
        dropped(entries, handlers, n) == Seq::<Entry>::empty(),
    decreases n,
{
    if n > 0 {
        lemma_retained_all(entries, handlers, (n - 1) as nat);
        assert(entries.take(n - 1).push(entries[n - 1]) =~= entries.take(n as int));
    } else {
        assert(entries.take(0) =~= Seq::<Entry>::empty());
    }
}

/// Where every binding's key has an entry, no entry is added and no
/// connection is made.
pub proof fn lemma_added_none(
    entries: Seq<Entry>,
    handlers: Seq<VHandler>,
    n: nat,
    object: u64,
    base: nat,
)
    requires
        n <= handlers.len(),
        forall|i: int| 0 <= i < n ==> bound(entries, (#[trigger] handlers[i]).name@, handlers[i].id),
    ensures
        added(entries, handlers, n, base) == Seq::<Entry>::empty(),
        connects(entries, handlers, n, object, base) == Seq::<Op>::empty(),
    decreases n,
{
    if n > 0 {
        lemma_added_none(entries, handlers, (n - 1) as nat, object, base);
        let h = handlers[n - 1];
        assert(entries + Seq::<Entry>::empty() =~= entries);
    }
}

/// After the missing entries are added, every one of the first `n` bindings
/// has an entry.
pub proof fn lemma_added_bound(entries: Seq<Entry>, handlers: Seq<VHandler>, n: nat, base: nat)
    requires
        n <= handlers.len(),
    ensures
        forall|i: int|
            0 <= i < n ==> bound(
                entries + added(entries, handlers, n, base),
                (#[trigger] handlers[i]).name@,
                handlers[i].id,
            ),
    decreases n,
{
    if n > 0 {
        let m = (n - 1) as nat;
        lemma_added_bound(entries, handlers, m, base);
        let before = entries + added(entries, handlers, m, base);
        let after = entries + added(entries, handlers, n, base);
        assert forall|i: int| 0 <= i < n implies bound(
            after,
            (#[trigger] handlers[i]).name@,
            handlers[i].id,
        ) by {
            if i < m || bound(before, handlers[n - 1].name@, handlers[n - 1].id) {
                let j = choose|j: int|
                    0 <= j < before.len() && (#[trigger] before[j]).name == handlers[i].name@
                        && before[j].id == handlers[i].id;
                assert(after[j] == before[j]);
            } else {
                assert(after[after.len() - 1].name == handlers[i].name@);
            }
        }
    }
}

/// The entries that a reconciliation leaves: those that are retained, then
/// those that are added.
pub open spec fn reconciled_entries(entries: Seq<Entry>, handlers: Seq<VHandler>, base: nat) -> Seq<
    Entry,
> {
    retained(entries, handlers, entries.len()) + added(entries, handlers, handlers.len(), base)
}

/// A reconciliation leaves exactly one entry for each key that the bindings
/// name, and none for any other key.
pub proof fn law_entries_follow_bindings(entries: Seq<Entry>, handlers: Seq<VHandler>, base: nat)
    ensures
        forall|name: Seq<char>, id: u64|
            bound(reconciled_entries(entries, handlers, base), name, id) <==> wanted(
                handlers,
                name,
                id,
            ),
        distinct(entries) ==> distinct(reconciled_entries(entries, handlers, base)),
{
    let kept = retained(entries, handlers, entries.len());
    let fresh = added(entries, handlers, handlers.len(), base);
    let fin = reconciled_entries(entries, handlers, base);
    lemma_retained(entries, handlers, entries.len());
    lemma_added(entries, handlers, handlers.len(), base);
    lemma_added_bound(entries, handlers, handlers.len(), base);
    assert(entries.take(entries.len() as int) =~= entries);
    assert forall|name: Seq<char>, id: u64| bound(fin, name, id) <==> wanted(
        handlers,
        name,
        id,
    ) by {
        if bound(fin, name, id) {
            let j = choose|j: int|
                0 <= j < fin.len() && (#[trigger] fin[j]).name == name && fin[j].id == id;
            if j < kept.len() {
                assert(fin[j] == kept[j]);
            } else {
                assert(fin[j] == fresh[j - kept.len()]);
            }
        }
        if wanted(handlers, name, id) {
            let i = choose|i: int|
                0 <= i < handlers.len() && (#[trigger] handlers[i]).name@ == name && handlers[i].id
                    == id;
            let all = entries + fresh;
            let j = choose|j: int|
                0 <= j < all.len() && (#[trigger] all[j]).name == name && all[j].id == id;
            if j < entries.len() {
                assert(all[j] == entries[j]);
                let a = choose|a: int| 0 <= a < kept.len() && kept[a] == entries[j];
                assert(fin[a] == kept[a]);
            } else {
                assert(all[j] == fresh[j - entries.len()]);
                assert(fin[kept.len() + (j - entries.len())] == fresh[j - entries.len()]);
            }
        }
    }
    if distinct(entries) {
        assert forall|a: int, b: int| 0 <= a < b < fin.len() implies !((#[trigger] fin[a]).name == (
        #[trigger] fin[b]).name && fin[a].id == fin[b].id) by {
            if b < kept.len() {
                assert(fin[a] == kept[a] && fin[b] == kept[b]);
            } else if a >= kept.len() {
                let all = entries + fresh;
                assert(all[entries.len() + (a - kept.len())] == fin[a]);
                assert(all[entries.len() + (b - kept.len())] == fin[b]);
            } else {
                assert(fin[a] == kept[a]);
                assert(fin[b] == fresh[b - kept.len()]);
                let j = choose|j: int|
                    0 <= j < entries.len() && entries.take(entries.len() as int)[j] == kept[a];
                assert(entries[j] == kept[a]);
                assert(bound(entries, kept[a].name, kept[a].id));
            }
        }
    }
}

/// A connection whose key the bindings still name is kept as it is, and no
/// new connection is made for its key: every call that connects is made for
/// another key. Through any number of reconciliations, the key has the one
/// connection that was made for it first.
pub proof fn law_connection_kept(
    entries: Seq<Entry>,
    handlers: Seq<VHandler>,
    name: Seq<char>,
    id: u64,
    object: u64,
    base: nat,
)
    requires
        distinct(entries),
        bound(entries, name, id),
        wanted(handlers, name, id),
    ensures
        bound(reconciled_entries(entries, handlers, base), name, id),
        connection_of(reconciled_entries(entries, handlers, base), name, id) == connection_of(
            entries,
            name,
            id,
        ),
        !bound(added(entries, handlers, handlers.len(), base), name, id),
        forall|i: int|
            0 <= i < connects(entries, handlers, handlers.len(), object, base).len() ==> made_for(
                #[trigger] connects(entries, handlers, handlers.len(), object, base)[i],
                object,
                added(entries, handlers, handlers.len(), base)[i],
                handlers,
            ) && !(added(entries, handlers, handlers.len(), base)[i].name == name && added(
                entries,
                handlers,
                handlers.len(),
                base,
            )[i].id == id),
{
    let kept = retained(entries, handlers, entries.len());
    let fresh = added(entries, handlers, handlers.len(), base);
    let fin = reconciled_entries(entries, handlers, base);
    law_entries_follow_bindings(entries, handlers, base);
    lemma_retained(entries, handlers, entries.len());
    lemma_added(entries, handlers, handlers.len(), base);
    assert(entries.take(entries.len() as int) =~= entries);
    let j = choose|j: int|
        0 <= j < entries.len() && (#[trigger] entries[j]).name == name && entries[j].id == id;
    let a = choose|a: int| 0 <= a < kept.len() && kept[a] == entries[j];
    assert(fin[a] == entries[j]);
    let c = choose|c: int| 0 <= c < fin.len() && (#[trigger] fin[c]).name == name && fin[c].id == id;
    assert(c == a) by {
        if c < a {
            assert(!(fin[c].name == fin[a].name && fin[c].id == fin[a].id));
        } else if a < c {
            assert(!(fin[a].name == fin[c].name && fin[a].id == fin[c].id));
        }
    }
    if bound(fresh, name, id) {
        let f = choose|f: int|
            0 <= f < fresh.len() && (#[trigger] fresh[f]).name == name && fresh[f].id == id;
        assert(!bound(entries, fresh[f].name, fresh[f].id));
    }
    lemma_connects(entries, handlers, handlers.len(), object, base);
    assert forall|i: int|
        0 <= i < connects(entries, handlers, handlers.len(), object, base).len() implies !(fresh[i].name
        == name && fresh[i].id == id) by {
        assert(!bound(entries, fresh[i].name, fresh[i].id));
    }
}

/// Whether the entry at `i` is the only one with the key.
pub open spec fn sole_entry(entries: Seq<Entry>, name: Seq<char>, id: u64, i: int) -> bool {
    &&& 0 <= i < entries.len()
    &&& entries[i].name == name && entries[i].id == id
    &&& forall|j: int|
        0 <= j < entries.len() && j != i ==> !((#[trigger] entries[j]).name == name && entries[j].id
            == id)
}

/// A connection whose key the bindings no longer name is released exactly
/// once, and no entry is left for its key: among the dropped entries, each
/// of which is released by one call, exactly one has the key, and it holds
/// the key's connection.
pub proof fn law_connection_released(
    entries: Seq<Entry>,
    handlers: Seq<VHandler>,
    name: Seq<char>,
    id: u64,
    base: nat,
)
    requires
        distinct(entries),
        bound(entries, name, id),
        !wanted(handlers, name, id),
    ensures
        !bound(reconciled_entries(entries, handlers, base), name, id),
        exists|i: int|
            #[trigger] sole_entry(dropped(entries, handlers, entries.len()), name, id, i) && dropped(
                entries,
                handlers,
                entries.len(),
            )[i].connection == connection_of(entries, name, id),
{
    let gone = dropped(entries, handlers, entries.len());
    law_entries_follow_bindings(entries, handlers, base);
    lemma_retained(entries, handlers, entries.len());
    assert(entries.take(entries.len() as int) =~= entries);
    let c = choose|c: int|
        0 <= c < entries.len() && (#[trigger] entries[c]).name == name && entries[c].id == id;
    let i = choose|i: int| 0 <= i < gone.len() && gone[i] == entries[c];
    assert forall|j: int| 0 <= j < gone.len() && j != i implies !((#[trigger] gone[j]).name == name
        && gone[j].id == id) by {
        if j < i {
            assert(!(gone[j].name == gone[i].name && gone[j].id == gone[i].id));
        } else {
            assert(!(gone[i].name == gone[j].name && gone[i].id == gone[j].id));
        }
    }
    assert(sole_entry(gone, name, id, i));
}

} // verus!
