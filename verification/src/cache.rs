//! A cache of values per scope and key, swept by reachability.
//!
//! A lookup roots the entry it finds. A value that is made during a lookup is
//! made with a handle to the new entry published as the current dependent, so
//! that every entry that is looked up meanwhile records the new entry as one
//! of its dependents. A sweep keeps the entries that were rooted since the
//! sweep before and the entries they were made from, and removes the others.

use crate::context::{current_id, dependent_frame, popped, Context, Frame};
use crate::dep_node::{
    live, mark_each, spec_incoming, DepNode, Dependent, Liveness, NodeView,
};
use crate::id::CallId;
use vstd::laws_eq::obeys_concrete_eq;
use vstd::prelude::*;

verus! {

/// What the cache holds of one entry, as a mathematical value.
pub struct Record<Q, V> {
    /// The scope in which the entry was made.
    pub scope: CallId,
    /// The key under which it was made.
    pub key: Q,
    /// The value that was made.
    pub value: V,
    /// The entry's liveness record.
    pub node: NodeView,
}

impl<Q, V> Record<Q, V> {
    /// The entry after `dependent` rooted it.
    pub open spec fn rooted(self, dependent: Dependent) -> Record<Q, V> {
        Record { node: self.node.rooted(dependent), ..self }
    }

    /// The entry after a marking that found it live, or not.
    pub open spec fn marked_as(self, marked: bool) -> Record<Q, V> {
        Record { node: self.node.marked_as(marked), ..self }
    }

    /// The entry after a sweep that kept it.
    pub open spec fn swept(self) -> Record<Q, V> {
        Record { node: self.node.swept(), ..self }
    }
}

/// A lookup that found nothing: what is needed to make the value and to store
/// it.
#[derive(Debug)]
pub struct CacheMiss<Q> {
    /// The scope in which the lookup was made.
    pub scope: CallId,
    /// The key that was looked up.
    pub key: Q,
    /// The address set aside for the new entry's liveness record.
    pub addr: u64,
    /// The dependent on whose behalf the lookup was made.
    pub incoming: Dependent,
}

impl<Q> CacheMiss<Q> {
    /// The handle to publish while the value is made.
    pub fn dependent(&self) -> (dependent: Dependent)
        ensures
            dependent.addr == self.addr,
    {
        Dependent { addr: self.addr }
    }
}

/// The mathematical value of a [`Cache`].
pub struct CacheView<Q, V> {
    /// The entries, oldest first.
    pub records: Seq<Record<Q, V>>,
    /// The next address that will be set aside; all below it were given out.
    pub next_addr: u64,
}

/// The entries of `records` from place `from` on that are live in `nodes`,
/// each as a sweep leaves it, in their order.
pub open spec fn survivors<Q, V>(
    records: Seq<Record<Q, V>>,
    nodes: Seq<NodeView>,
    from: int,
) -> Seq<Record<Q, V>>
    decreases records.len() - from,
{
    if from < 0 || from >= records.len() {
        Seq::empty()
    } else if live(nodes, from) {
        seq![records[from].swept()] + survivors(records, nodes, from + 1)
    } else {
        survivors(records, nodes, from + 1)
    }
}

impl<Q, V> CacheView<Q, V> {
    /// The cache without entries, which has given out no address yet.
    pub open spec fn empty() -> CacheView<Q, V> {
        CacheView { records: Seq::empty(), next_addr: 1 }
    }

    /// Whether the entry at place `i` is the one for `scope` and `key`.
    pub open spec fn holds(self, scope: CallId, key: Q, i: int) -> bool {
        &&& 0 <= i < self.records.len()
        &&& self.records[i].scope == scope
        &&& self.records[i].key == key
    }

    /// Whether there is an entry for `scope` and `key`.
    pub open spec fn contains(self, scope: CallId, key: Q) -> bool {
        exists|i: int| self.holds(scope, key, i)
    }

    /// The place of the entry for `scope` and `key`.
    pub open spec fn position(self, scope: CallId, key: Q) -> int {
        choose|i: int| self.holds(scope, key, i)
    }

    /// The liveness records of the entries, in their order.
    pub open spec fn nodes(self) -> Seq<NodeView> {
        Seq::new(self.records.len(), |i: int| self.records[i].node)
    }

    /// The cache's invariant: there is one entry at most per scope and key,
    /// no two entries share an address, and every address in use was given
    /// out and is not null.
    pub open spec fn wf(self) -> bool {
        &&& forall|i: int, j: int|
            0 <= i < j < self.records.len() ==> !((#[trigger] self.records[i]).scope == (
            #[trigger] self.records[j]).scope && self.records[i].key == self.records[j].key)
        &&& forall|i: int, j: int|
            0 <= i < j < self.records.len() ==> (#[trigger] self.records[i]).node.addr != (
            #[trigger] self.records[j]).node.addr
        &&& forall|i: int|
            0 <= i < self.records.len() ==> 0 < (#[trigger] self.records[i]).node.addr
                < self.next_addr
        &&& 0 < self.next_addr
    }

    /// Whether `addr` was set aside and no entry uses it.
    pub open spec fn reserved(self, addr: u64) -> bool {
        &&& 0 < addr < self.next_addr
        &&& forall|i: int|
            0 <= i < self.records.len() ==> (#[trigger] self.records[i]).node.addr != addr
    }

    /// The cache after the entry at place `i` was rooted by `dependent`.
    pub open spec fn touched(self, i: int, dependent: Dependent) -> CacheView<Q, V> {
        CacheView { records: self.records.update(i, self.records[i].rooted(dependent)), ..self }
    }

    /// The cache after one more address was set aside.
    pub open spec fn begun(self) -> CacheView<Q, V> {
        CacheView { next_addr: (self.next_addr + 1) as u64, ..self }
    }

    /// The cache without the entry for `scope` and `key`.
    pub open spec fn without(self, scope: CallId, key: Q) -> CacheView<Q, V> {
        if self.contains(scope, key) {
            CacheView { records: self.records.remove(self.position(scope, key)), ..self }
        } else {
            self
        }
    }

    /// The entry that storing `value` for `miss` makes: it is rooted, and its
    /// one dependent is the one on whose behalf the lookup was made.
    pub open spec fn made(miss: CacheMiss<Q>, value: V) -> Record<Q, V> {
        Record {
            scope: miss.scope,
            key: miss.key,
            value,
            node: NodeView::fresh(miss.addr).rooted(miss.incoming),
        }
    }

    /// The cache after `value` was stored for `miss`: the new entry stands
    /// last, in place of any other for the same scope and key.
    pub open spec fn stored(self, miss: CacheMiss<Q>, value: V) -> CacheView<Q, V> {
        let base = self.without(miss.scope, miss.key);
        CacheView { records: base.records.push(Self::made(miss, value)), ..base }
    }

    /// The cache after a sweep: the live entries stay, with their root flags
    /// cleared.
    pub open spec fn swept(self) -> CacheView<Q, V> {
        CacheView { records: survivors(self.records, self.nodes(), 0), ..self }
    }
}

/// Whether two entries have the same scope, key and address.
pub open spec fn same_entry<Q, V>(a: Record<Q, V>, b: Record<Q, V>) -> bool {
    a.scope == b.scope && a.key == b.key && a.node.addr == b.node.addr
}

/// Removing an entry keeps the invariant and uses no address anew.
pub proof fn lemma_remove_keeps_wf<Q, V>(view: CacheView<Q, V>, p: int)
    requires
        view.wf(),
        0 <= p < view.records.len(),
    ensures
        (CacheView { records: view.records.remove(p), ..view }).wf(),
        forall|addr: u64|
            view.reserved(addr) ==> (CacheView { records: view.records.remove(p), ..view }).reserved(
                addr,
            ),
{
    let after = CacheView { records: view.records.remove(p), ..view };
    assert forall|a: int| 0 <= a < after.records.len() implies #[trigger] after.records[a]
        == view.records[if a < p {
        a
    } else {
        a + 1
    }] by {}
    assert forall|a: int, b: int| 0 <= a < b < after.records.len() implies !((
    #[trigger] after.records[a]).scope == (#[trigger] after.records[b]).scope
        && after.records[a].key == after.records[b].key) by {
        let a0 = if a < p { a } else { a + 1 };
        let b0 = if b < p { b } else { b + 1 };
        assert(after.records[a] == view.records[a0]);
        assert(after.records[b] == view.records[b0]);
    }
    assert forall|a: int, b: int| 0 <= a < b < after.records.len() implies (
    #[trigger] after.records[a]).node.addr != (#[trigger] after.records[b]).node.addr by {
        let a0 = if a < p { a } else { a + 1 };
        let b0 = if b < p { b } else { b + 1 };
        assert(after.records[a] == view.records[a0]);
        assert(after.records[b] == view.records[b0]);
    }
    assert forall|a: int| 0 <= a < after.records.len() implies 0 < (
    #[trigger] after.records[a]).node.addr < after.next_addr by {
        let a0 = if a < p { a } else { a + 1 };
        assert(after.records[a] == view.records[a0]);
    }
    assert forall|addr: u64| view.reserved(addr) implies after.reserved(addr) by {
        assert forall|a: int| 0 <= a < after.records.len() implies (
        #[trigger] after.records[a]).node.addr != addr by {
            let a0 = if a < p { a } else { a + 1 };
            assert(after.records[a] == view.records[a0]);
        }
    }
}

/// Changing an entry without changing its scope, key or address keeps the
/// invariant and uses no address anew.
pub proof fn lemma_update_keeps_wf<Q, V>(view: CacheView<Q, V>, p: int, record: Record<Q, V>)
    requires
        view.wf(),
        0 <= p < view.records.len(),
        same_entry(record, view.records[p]),
    ensures
        (CacheView { records: view.records.update(p, record), ..view }).wf(),
        forall|addr: u64|
            view.reserved(addr) ==> (CacheView {
                records: view.records.update(p, record),
                ..view
            }).reserved(addr),
{
    let after = CacheView { records: view.records.update(p, record), ..view };
    assert forall|a: int| 0 <= a < after.records.len() implies same_entry(
        #[trigger] after.records[a],
        view.records[a],
    ) by {}
    assert forall|a: int, b: int| 0 <= a < b < after.records.len() implies !((
    #[trigger] after.records[a]).scope == (#[trigger] after.records[b]).scope
        && after.records[a].key == after.records[b].key) by {
        assert(same_entry(after.records[a], view.records[a]));
        assert(same_entry(after.records[b], view.records[b]));
    }
    assert forall|a: int, b: int| 0 <= a < b < after.records.len() implies (
    #[trigger] after.records[a]).node.addr != (#[trigger] after.records[b]).node.addr by {
        assert(same_entry(after.records[a], view.records[a]));
        assert(same_entry(after.records[b], view.records[b]));
    }
    assert forall|a: int| 0 <= a < after.records.len() implies 0 < (
    #[trigger] after.records[a]).node.addr < after.next_addr by {
        assert(same_entry(after.records[a], view.records[a]));
    }
    assert forall|addr: u64| view.reserved(addr) implies after.reserved(addr) by {
        assert forall|a: int| 0 <= a < after.records.len() implies (
        #[trigger] after.records[a]).node.addr != addr by {
            assert(same_entry(after.records[a], view.records[a]));
        }
    }
}

/// Whether `record` is what a sweep leaves of an entry that stands at place
/// `from` or later and is live in `nodes`.
pub open spec fn kept<Q, V>(
    records: Seq<Record<Q, V>>,
    nodes: Seq<NodeView>,
    from: int,
    record: Record<Q, V>,
) -> bool {
    exists|i: int|
        from <= i < records.len() && live(nodes, i) && record == (#[trigger] records[i]).swept()
}

/// What a sweep keeps from place `from` on is what was live there.
pub proof fn lemma_survivors_are_the_live<Q, V>(
    records: Seq<Record<Q, V>>,
    nodes: Seq<NodeView>,
    from: int,
)
    requires
        0 <= from,
    ensures
        forall|record: Record<Q, V>| #[trigger]
            survivors(records, nodes, from).contains(record) <==> kept(
                records,
                nodes,
                from,
                record,
            ),
    decreases records.len() - from,
{
    let here = survivors(records, nodes, from);
    if from < records.len() {
        let rest = survivors(records, nodes, from + 1);
        lemma_survivors_are_the_live(records, nodes, from + 1);
        let first = records[from].swept();
        assert forall|record: Record<Q, V>| #[trigger] here.contains(record) implies kept(
            records,
            nodes,
            from,
            record,
        ) by {
            let k = choose|k: int| 0 <= k < here.len() && here[k] == record;
            if live(nodes, from) && k == 0 {
                assert(record == records[from].swept());
            } else {
                let shift: int = if live(nodes, from) { 1 } else { 0 };
                assert(here[k] == rest[k - shift]);
                assert(rest.contains(record));
                assert(kept(records, nodes, from + 1, record));
                let i = choose|i: int|
                    from + 1 <= i < records.len() && live(nodes, i) && record == (
                    #[trigger] records[i]).swept();
                assert(record == records[i].swept());
            }
        }
        assert forall|record: Record<Q, V>| kept(records, nodes, from, record) implies #[trigger]
            here.contains(record) by {
            let i = choose|i: int|
                from <= i < records.len() && live(nodes, i) && record == (
                #[trigger] records[i]).swept();
            if i == from {
                assert(here[0] == record);
            } else {
                assert(kept(records, nodes, from + 1, record));
                assert(rest.contains(record));
                let k = choose|k: int| 0 <= k < rest.len() && rest[k] == record;
                let shift: int = if live(nodes, from) { 1 } else { 0 };
                assert(here[k + shift] == rest[k]);
            }
        }
    } else {
        assert forall|record: Record<Q, V>| kept(records, nodes, from, record) implies #[trigger]
            here.contains(record) by {
            let i = choose|i: int|
                from <= i < records.len() && live(nodes, i) && record == (
                #[trigger] records[i]).swept();
        }
    }
}

/// What a sweep keeps is what was reached, and nothing else: an entry stays
/// if and only if it was rooted since the sweep before or a chain of
/// dependents leads from it to an entry that was. The entries that stay are
/// neither rooted nor marked any more.
pub proof fn lemma_gc_keeps_the_live<Q, V>(view: CacheView<Q, V>)
    ensures
        forall|record: Record<Q, V>| #[trigger]
            view.swept().records.contains(record) <==> kept(
                view.records,
                view.nodes(),
                0,
                record,
            ),
        forall|record: Record<Q, V>| #[trigger]
            view.swept().records.contains(record) ==> !record.node.has_root
                && !record.node.marked,
{
    lemma_survivors_are_the_live(view.records, view.nodes(), 0);
    assert forall|record: Record<Q, V>| #[trigger]
        view.swept().records.contains(record) implies !record.node.has_root
        && !record.node.marked by {
        assert(kept(view.records, view.nodes(), 0, record));
        let i = choose|i: int|
            0 <= i < view.records.len() && live(view.nodes(), i) && record == (
            #[trigger] view.records[i]).swept();
    }
}

/// Where nothing is rooted nothing is kept.
pub proof fn lemma_unrooted_is_swept<Q, V>(
    records: Seq<Record<Q, V>>,
    nodes: Seq<NodeView>,
    from: int,
)
    requires
        0 <= from,
        forall|i: int| 0 <= i < nodes.len() ==> !(#[trigger] nodes[i]).has_root,
    ensures
        survivors(records, nodes, from) == Seq::<Record<Q, V>>::empty(),
    decreases records.len() - from,
{
    if from < records.len() {
        lemma_unrooted_is_swept(records, nodes, from + 1);
        if live(nodes, from) {
            let path = choose|path: Seq<int>|
                #[trigger] crate::dep_node::chain(nodes, path) && path[0] == from;
            assert(0 <= path[path.len() - 1] < nodes.len());
            assert(!nodes[path.last()].has_root);
        }
    }
}

/// Liveness lasts for one revision: the entries that a sweep kept are removed
/// by the next sweep unless they are rooted again in between, directly or
/// through their dependents.
pub proof fn lemma_second_sweep_clears<Q, V>(view: CacheView<Q, V>)
    ensures
        view.swept().swept().records == Seq::<Record<Q, V>>::empty(),
{
    let once = view.swept();
    lemma_gc_keeps_the_live(view);
    assert forall|i: int| 0 <= i < once.nodes().len() implies !(
    #[trigger] once.nodes()[i]).has_root by {
        assert(once.records.contains(once.records[i]));
    }
    lemma_unrooted_is_swept(once.records, once.nodes(), 0);
}

/// At most one build: once a value is stored for a scope and key, the entry
/// is found there with that value, so that the next lookup makes no other.
pub proof fn lemma_stored_is_found<Q, V>(view: CacheView<Q, V>, miss: CacheMiss<Q>, value: V)
    requires
        view.wf(),
        view.reserved(miss.addr),
    ensures
        view.stored(miss, value).wf(),
        view.stored(miss, value).contains(miss.scope, miss.key),
        view.stored(miss, value).records[view.stored(miss, value).position(
            miss.scope,
            miss.key,
        )].value == value,
        view.stored(miss, value).records[view.stored(miss, value).position(
            miss.scope,
            miss.key,
        )].node.has_root,
        view.stored(miss, value).position(miss.scope, miss.key) == view.stored(
            miss,
            value,
        ).records.len() - 1,
        forall|addr: u64|
            addr != miss.addr && view.reserved(addr) ==> view.stored(miss, value).reserved(addr),
{
    let base = view.without(miss.scope, miss.key);
    let after = view.stored(miss, value);
    let last = base.records.len() as int;
    if view.contains(miss.scope, miss.key) {
        lemma_remove_keeps_wf(view, view.position(miss.scope, miss.key));
    }
    assert(base.wf());
    assert(base.reserved(miss.addr));
    assert forall|a: int| 0 <= a < base.records.len() implies !base.holds(miss.scope, miss.key, a) by {
        if view.contains(miss.scope, miss.key) {
            let p = view.position(miss.scope, miss.key);
            let a0 = if a < p { a } else { a + 1 };
            assert(base.records[a] == view.records[a0]);
            if base.holds(miss.scope, miss.key, a) {
                assert(view.holds(miss.scope, miss.key, a0));
                if a0 < p {
                    assert(view.records[a0].scope == view.records[p].scope);
                } else {
                    assert(view.records[p].scope == view.records[a0].scope);
                }
            }
        } else {
            if base.holds(miss.scope, miss.key, a) {
                assert(view.holds(miss.scope, miss.key, a));
            }
        }
    }
    assert(after.holds(miss.scope, miss.key, last));
    let found = after.position(miss.scope, miss.key);
    assert(after.holds(miss.scope, miss.key, found));
    if found < last {
        assert(after.records[found] == base.records[found]);
        assert(base.holds(miss.scope, miss.key, found));
    }
    assert(found == last);
    assert forall|a: int, b: int| 0 <= a < b < after.records.len() implies !((
    #[trigger] after.records[a]).scope == (#[trigger] after.records[b]).scope
        && after.records[a].key == after.records[b].key) by {
        assert(after.records[a] == base.records[a]);
        if b == last {
            assert(!base.holds(miss.scope, miss.key, a));
        } else {
            assert(after.records[b] == base.records[b]);
        }
    }
    assert forall|a: int, b: int| 0 <= a < b < after.records.len() implies (
    #[trigger] after.records[a]).node.addr != (#[trigger] after.records[b]).node.addr by {
        assert(after.records[a] == base.records[a]);
        if b < last {
            assert(after.records[b] == base.records[b]);
        }
    }
    assert forall|a: int| 0 <= a < after.records.len() implies 0 < (
    #[trigger] after.records[a]).node.addr < after.next_addr by {
        if a < last {
            assert(after.records[a] == base.records[a]);
        }
    }
    assert forall|addr: u64| addr != miss.addr && view.reserved(addr) implies after.reserved(
        addr,
    ) by {
        assert(base.reserved(addr));
        assert forall|a: int| 0 <= a < after.records.len() implies (
        #[trigger] after.records[a]).node.addr != addr by {
            if a < last {
                assert(after.records[a] == base.records[a]);
            }
        }
    }
}

/// One entry of the cache.
#[derive(Debug)]
struct Entry<Q, V> {
    scope: CallId,
    key: Q,
    value: V,
}

/// The entries of a cache, their liveness records in the same order, and the
/// next address to give out.
#[derive(Debug)]
struct Store<Q, V> {
    entries: Vec<Entry<Q, V>>,
    nodes: Vec<DepNode>,
    next_addr: u64,
}

impl<Q, V> View for Store<Q, V> {
    type V = CacheView<Q, V>;

    closed spec fn view(&self) -> CacheView<Q, V> {
        CacheView {
            records: Seq::new(
                self.entries@.len(),
                |i: int|
                    Record {
                        scope: self.entries@[i].scope,
                        key: self.entries@[i].key,
                        value: self.entries@[i].value,
                        node: self.nodes@[i]@,
                    },
            ),
            next_addr: self.next_addr,
        }
    }
}

impl<Q, V> Store<Q, V> {
    /// The invariant: each entry has its liveness record, and the entries are
    /// as [`CacheView::wf`] says.
    spec fn wf(&self) -> bool {
        &&& self.entries@.len() == self.nodes@.len()
        &&& self@.wf()
    }

    /// A store without entries.
    fn new() -> (store: Store<Q, V>)
        ensures
            store.wf(),
            store@ == CacheView::<Q, V>::empty(),
    {
        let store = Store { entries: Vec::new(), nodes: Vec::new(), next_addr: 1 };
        assert(store@.records =~= Seq::empty());
        store
    }

    /// The value of the entry at place `i`.
    fn value_at(&self, i: usize) -> (value: &V)
        requires
            self.wf(),
            i < self@.records.len(),
        ensures
            *value == self@.records[i as int].value,
    {
        &self.entries[i].value
    }

    /// Whether `addr` was set aside and no entry uses it.
    fn is_reserved(&self, addr: u64) -> (free: bool)
        requires
            self.wf(),
        ensures
            free == self@.reserved(addr),
    {
        if addr == 0 || addr >= self.next_addr {
            return false;
        }
        let mut i: usize = 0;
        while i < self.nodes.len()
            invariant
                i <= self.nodes.len(),
                self.wf(),
                forall|k: int| 0 <= k < i ==> (#[trigger] self@.records[k]).node.addr != addr,
            decreases self.nodes.len() - i,
        {
            if self.nodes[i].as_dependent().addr == addr {
                assert(self@.records[i as int].node.addr == addr);
                return false;
            }
            i += 1;
        }
        true
    }


    /// The place of the entry for `scope` and `key`.
    fn position(&self, scope: CallId, key: &Q) -> (place: Option<usize>) where Q: PartialEq
        requires
            obeys_concrete_eq::<Q>(),
            self.wf(),
        ensures
            match place {
                Some(i) => self@.holds(scope, *key, i as int) && self@.position(scope, *key) == i,
                None => !self@.contains(scope, *key),
            },
    {
        let mut i: usize = 0;
        while i < self.entries.len()
            invariant
                i <= self.entries.len(),
                self.wf(),
                obeys_concrete_eq::<Q>(),
                forall|k: int| 0 <= k < i ==> !self@.holds(scope, *key, k),
            decreases self.entries.len() - i,
        {
            let same_scope = self.entries[i].scope == scope;
            let same_key = self.entries[i].key == *key;
            proof {
                reveal(obeys_concrete_eq);
            }
            if same_scope && same_key {
                proof {
                    assert(self@.holds(scope, *key, i as int));
                    let p = self@.position(scope, *key);
                    assert(self@.holds(scope, *key, p));
                    if p < i {
                        assert(self@.records[p].scope == self@.records[i as int].scope);
                    } else if p > i {
                        assert(self@.records[i as int].scope == self@.records[p].scope);
                    }
                }
                return Some(i);
            }
            i += 1;
        }
        None
    }

    /// Roots the entry at place `i` on behalf of `dependent`.
    fn touch(&mut self, i: usize, dependent: Dependent)
        requires
            old(self).wf(),
            i < old(self)@.records.len(),
        ensures
            final(self).wf(),
            final(self)@ == old(self)@.touched(i as int, dependent),
            forall|addr: u64| old(self)@.reserved(addr) ==> final(self)@.reserved(addr),
    {
        self.nodes[i].root(dependent);
        proof {
            let before = old(self)@;
            let after = self@;
            assert(after.records =~= before.touched(i as int, dependent).records);
            assert forall|a: int| 0 <= a < after.records.len() implies (
            #[trigger] after.records[a]).node.addr == before.records[a].node.addr
                && after.records[a].scope == before.records[a].scope && after.records[a].key
                == before.records[a].key by {}
            assert forall|addr: u64| before.reserved(addr) implies after.reserved(addr) by {
                assert forall|a: int| 0 <= a < after.records.len() implies (
                #[trigger] after.records[a]).node.addr != addr by {
                    assert(before.records[a].node.addr != addr);
                }
            }
        }
    }

    /// Begins an entry for `scope` and `key` on behalf of `incoming`: sets an
    /// address aside for it.
    fn begin(&mut self, scope: CallId, incoming: Dependent, key: Q) -> (miss: CacheMiss<Q>)
        requires
            old(self).wf(),
            old(self)@.next_addr < u64::MAX,
        ensures
            final(self).wf(),
            final(self)@ == old(self)@.begun(),
            miss == (CacheMiss { scope, key, addr: old(self)@.next_addr, incoming }),
            final(self)@.reserved(miss.addr),
            forall|addr: u64| old(self)@.reserved(addr) ==> final(self)@.reserved(addr),
    {
        let addr = self.next_addr;
        self.next_addr = addr + 1;
        proof {
            assert(self@.records =~= old(self)@.records);
            assert forall|a: int| 0 <= a < self@.records.len() implies 0 < (
            #[trigger] self@.records[a]).node.addr < addr by {
                assert(old(self)@.records[a].node.addr < addr);
            }
        }
        CacheMiss { scope, key, addr, incoming }
    }

    /// Stores `value` as the entry that `miss` began and roots it. An entry
    /// that was stored for the same scope and key meanwhile gives way to it.
    fn store(&mut self, miss: CacheMiss<Q>, value: V) where Q: PartialEq
        requires
            obeys_concrete_eq::<Q>(),
            old(self).wf(),
            old(self)@.reserved(miss.addr),
        ensures
            final(self).wf(),
            final(self)@ == old(self)@.stored(miss, value),
            final(self)@.holds(miss.scope, miss.key, final(self)@.records.len() - 1),
            forall|addr: u64|
                addr != miss.addr && old(self)@.reserved(addr) ==> final(self)@.reserved(addr),
    {
        match self.position(miss.scope, &miss.key) {
            Some(i) => {
                self.entries.remove(i);
                self.nodes.remove(i);
                assert(self@.records =~= old(self)@.without(miss.scope, miss.key).records);
            },
            None => {},
        }
        let ghost base = self@;
        let ghost made = CacheView::<Q, V>::made(miss, value);
        let mut node = DepNode::new(miss.addr);
        node.root(miss.incoming);
        self.entries.push(Entry { scope: miss.scope, key: miss.key, value });
        self.nodes.push(node);
        proof {
            assert(self@.records =~= base.records.push(made));
            lemma_stored_is_found(old(self)@, miss, value);
        }
    }

    /// Sweeps the cache: marks every entry, keeps those that their sweep
    /// finds live, and removes all others.
    fn gc(&mut self)
        requires
            old(self).wf(),
        ensures
            final(self).wf(),
            final(self)@ == old(self)@.swept(),
            forall|addr: u64| old(self)@.reserved(addr) ==> final(self)@.reserved(addr),
    {
        let ghost before = old(self)@;
        let ghost graph = before.nodes();
        assert(graph =~= crate::dep_node::graph(self.nodes@));
        mark_each(&mut self.nodes);
        let ghost marked = self@;
        proof {
            assert forall|k: int| 0 <= k < before.records.len() implies #[trigger] marked.records[k]
                == before.records[k].marked_as(live(graph, k)) by {
                assert(self.nodes@[k]@ == old(self).nodes@[k]@.marked_as(live(graph, k)));
            }
            assert forall|a: int, b: int| 0 <= a < b < marked.records.len() implies !((
            #[trigger] marked.records[a]).scope == (#[trigger] marked.records[b]).scope
                && marked.records[a].key == marked.records[b].key) by {
                assert(same_entry(marked.records[a], before.records[a]));
                assert(same_entry(marked.records[b], before.records[b]));
            }
            assert forall|a: int, b: int| 0 <= a < b < marked.records.len() implies (
            #[trigger] marked.records[a]).node.addr != (#[trigger] marked.records[b]).node.addr by {
                assert(same_entry(marked.records[a], before.records[a]));
                assert(same_entry(marked.records[b], before.records[b]));
            }
            assert forall|a: int| 0 <= a < marked.records.len() implies 0 < (
            #[trigger] marked.records[a]).node.addr < marked.next_addr by {
                assert(same_entry(marked.records[a], before.records[a]));
            }
            assert forall|addr: u64| before.reserved(addr) implies marked.reserved(addr) by {
                assert forall|a: int| 0 <= a < marked.records.len() implies (
                #[trigger] marked.records[a]).node.addr != addr by {
                    assert(same_entry(marked.records[a], before.records[a]));
                }
            }
        }
        let mut i: usize = self.entries.len();
        assert(self@.records =~= marked.records.take(i as int) + survivors(
            before.records,
            graph,
            i as int,
        ));
        while i > 0
            invariant
                i <= before.records.len(),
                before == old(self)@,
                graph == before.nodes(),
                self.wf(),
                self@.next_addr == before.next_addr,
                marked.records.len() == before.records.len(),
                forall|k: int|
                    0 <= k < before.records.len() ==> #[trigger] marked.records[k]
                        == before.records[k].marked_as(live(graph, k)),
                self@.records == marked.records.take(i as int) + survivors(
                    before.records,
                    graph,
                    i as int,
                ),
                forall|addr: u64| before.reserved(addr) ==> self@.reserved(addr),
            decreases i,
        {
            i -= 1;
            let ghost current = self@;
            assert(current.records[i as int] == marked.records[i as int]);
            assert(marked.records.take(i + 1) =~= marked.records.take(i as int).push(
                marked.records[i as int],
            ));
            match self.nodes[i].sweep() {
                Liveness::Live => {
                    proof {
                        assert(current.records[i as int].swept() == before.records[i as int].swept());
                        assert(self@.records =~= current.records.update(
                            i as int,
                            current.records[i as int].swept(),
                        ));
                        lemma_update_keeps_wf(
                            current,
                            i as int,
                            current.records[i as int].swept(),
                        );
                        assert(self@ == (CacheView {
                            records: current.records.update(
                                i as int,
                                current.records[i as int].swept(),
                            ),
                            ..current
                        }));
                        assert(self@.records =~= marked.records.take(i as int) + survivors(
                            before.records,
                            graph,
                            i as int,
                        ));
                    }
                },
                Liveness::Dead => {
                    self.entries.remove(i);
                    self.nodes.remove(i);
                    proof {
                        assert(self@.records =~= current.records.remove(i as int));
                        lemma_remove_keeps_wf(current, i as int);
                        assert(self@ == (CacheView {
                            records: current.records.remove(i as int),
                            ..current
                        }));
                        assert(self@.records =~= marked.records.take(i as int) + survivors(
                            before.records,
                            graph,
                            i as int,
                        ));
                    }
                },
            }
        }
        assert(marked.records.take(0) =~= Seq::empty());
        assert(self@.records =~= before.swept().records);
    }
}

/// A cache of values per scope and key.
#[derive(Debug)]
pub struct Cache<Q, V> {
    store: Store<Q, V>,
}

impl<Q, V> View for Cache<Q, V> {
    type V = CacheView<Q, V>;

    closed spec fn view(&self) -> CacheView<Q, V> {
        self.store@
    }
}

impl<Q, V> Cache<Q, V> {
    #[verifier::type_invariant]
    spec fn inv(&self) -> bool {
        self.store.wf()
    }

    /// A cache without entries.
    pub fn new() -> (cache: Cache<Q, V>)
        ensures
            cache@ == CacheView::<Q, V>::empty(),
    {
        Cache { store: Store::new() }
    }

    /// The number of entries.
    pub fn len(&self) -> (len: usize)
        ensures
            len == self@.records.len(),
            self@.wf(),
    {
        proof {
            use_type_invariant(self);
        }
        self.store.entries.len()
    }

    /// Whether `addr` was set aside by [`Cache::begin`] and no entry uses it:
    /// whether an entry may be stored at `addr`.
    pub fn is_reserved(&self, addr: u64) -> (free: bool)
        ensures
            free == self@.reserved(addr),
    {
        proof {
            use_type_invariant(self);
        }
        self.store.is_reserved(addr)
    }

    /// Sweeps the cache: keeps the entries that were rooted since the last
    /// sweep and those from which a chain of dependents leads to one of them,
    /// clears their root flags, and removes all other entries.
    pub fn gc(&mut self)
        ensures
            final(self)@ == old(self)@.swept(),
            final(self)@.wf(),
            forall|addr: u64| old(self)@.reserved(addr) ==> final(self)@.reserved(addr),
    {
        proof {
            use_type_invariant(&*self);
        }
        let mut taken = Cache::new();
        core::mem::swap(self, &mut taken);
        let Cache { store: mut store } = taken;
        store.gc();
        *self = Cache { store };
    }
}

impl<Q: PartialEq, V> Cache<Q, V> {
    /// The place of the entry for `scope` and `key`.
    fn position(&self, scope: CallId, key: &Q) -> (place: Option<usize>)
        requires
            obeys_concrete_eq::<Q>(),
        ensures
            self@.wf(),
            match place {
                Some(i) => self@.holds(scope, *key, i as int) && self@.position(scope, *key) == i,
                None => !self@.contains(scope, *key),
            },
    {
        proof {
            use_type_invariant(self);
        }
        self.store.position(scope, key)
    }

    /// Roots the entry at place `i` on behalf of `dependent` and returns its
    /// value.
    fn touch(&mut self, i: usize, dependent: Dependent) -> (value: &V)
        requires
            i < old(self)@.records.len(),
        ensures
            final(self)@ == old(self)@.touched(i as int, dependent),
            final(self)@.wf(),
            *value == old(self)@.records[i as int].value,
            forall|addr: u64| old(self)@.reserved(addr) ==> final(self)@.reserved(addr),
    {
        proof {
            use_type_invariant(&*self);
        }
        let mut taken = Cache::new();
        core::mem::swap(self, &mut taken);
        let Cache { store: mut store } = taken;
        store.touch(i, dependent);
        *self = Cache { store };
        self.store.value_at(i)
    }

    /// Whether there is an entry for `scope` and `key`.
    pub fn contains(&self, scope: CallId, key: &Q) -> (found: bool)
        requires
            obeys_concrete_eq::<Q>(),
        ensures
            found == self@.contains(scope, *key),
    {
        proof {
            use_type_invariant(self);
        }
        self.store.position(scope, key).is_some()
    }

    /// The value stored for `scope` and `key`, if there is one. The entry is
    /// not rooted by this.
    pub fn peek(&self, scope: CallId, key: &Q) -> (value: Option<&V>)
        requires
            obeys_concrete_eq::<Q>(),
        ensures
            match value {
                Some(v) => self@.contains(scope, *key) && *v == self@.records[self@.position(
                    scope,
                    *key,
                )].value,
                None => !self@.contains(scope, *key),
            },
    {
        proof {
            use_type_invariant(self);
        }
        match self.store.position(scope, key) {
            Some(i) => Some(self.store.value_at(i)),
            None => None,
        }
    }

    /// Looks up the entry for `scope` and `key`. An entry that is found is
    /// rooted on behalf of `incoming`.
    pub fn lookup(&mut self, scope: CallId, incoming: Dependent, key: &Q) -> (value: Option<&V>)
        requires
            obeys_concrete_eq::<Q>(),
        ensures
            final(self)@.wf(),
            forall|addr: u64| old(self)@.reserved(addr) ==> final(self)@.reserved(addr),
            match value {
                Some(v) => {
                    &&& old(self)@.contains(scope, *key)
                    &&& *v == old(self)@.records[old(self)@.position(scope, *key)].value
                    &&& final(self)@ == old(self)@.touched(
                        old(self)@.position(scope, *key),
                        incoming,
                    )
                },
                None => !old(self)@.contains(scope, *key) && final(self)@ == old(self)@,
            },
    {
        match self.position(scope, key) {
            Some(i) => Some(self.touch(i, incoming)),
            None => None,
        }
    }

    /// Looks up the entry for `key` in the current scope. An entry that is
    /// found is rooted on behalf of the current dependent.
    pub fn get(&mut self, ctx: &Context, key: &Q) -> (value: Option<&V>)
        requires
            obeys_concrete_eq::<Q>(),
        ensures
            final(self)@.wf(),
            forall|addr: u64| old(self)@.reserved(addr) ==> final(self)@.reserved(addr),
            match value {
                Some(v) => {
                    &&& old(self)@.contains(current_id(ctx@), *key)
                    &&& *v == old(self)@.records[old(self)@.position(current_id(ctx@), *key)].value
                    &&& final(self)@ == old(self)@.touched(
                        old(self)@.position(current_id(ctx@), *key),
                        spec_incoming(ctx@),
                    )
                },
                None => !old(self)@.contains(current_id(ctx@), *key) && final(self)@ == old(self)@,
            },
    {
        self.lookup(CallId::current(ctx), Dependent::incoming(ctx), key)
    }

    /// Begins an entry for `scope` and `key` on behalf of `incoming`: sets an
    /// address aside for it.
    pub fn begin(&mut self, scope: CallId, incoming: Dependent, key: Q) -> (miss: CacheMiss<Q>)
        requires
            old(self)@.next_addr < u64::MAX,
        ensures
            final(self)@ == old(self)@.begun(),
            final(self)@.wf(),
            miss == (CacheMiss { scope, key, addr: old(self)@.next_addr, incoming }),
            final(self)@.reserved(miss.addr),
            forall|addr: u64| old(self)@.reserved(addr) ==> final(self)@.reserved(addr),
    {
        proof {
            use_type_invariant(&*self);
        }
        let mut taken = Cache::new();
        core::mem::swap(self, &mut taken);
        let Cache { store: mut store } = taken;
        let miss = store.begin(scope, incoming, key);
        *self = Cache { store };
        miss
    }

    /// As [`Cache::begin`], where it is not known that an address is left to
    /// set aside: hands the key back where none is.
    pub fn try_begin(&mut self, scope: CallId, incoming: Dependent, key: Q) -> (miss: Result<
        CacheMiss<Q>,
        Q,
    >)
        ensures
            final(self)@.wf(),
            forall|addr: u64| old(self)@.reserved(addr) ==> final(self)@.reserved(addr),
            match miss {
                Ok(begun) => {
                    &&& old(self)@.next_addr < u64::MAX
                    &&& final(self)@ == old(self)@.begun()
                    &&& begun == (CacheMiss {
                        scope,
                        key,
                        addr: old(self)@.next_addr,
                        incoming,
                    })
                    &&& final(self)@.reserved(begun.addr)
                },
                Err(unused) => {
                    &&& old(self)@.next_addr == u64::MAX
                    &&& final(self)@ == old(self)@
                    &&& unused == key
                },
            },
    {
        proof {
            use_type_invariant(&*self);
        }
        if self.store.next_addr < u64::MAX {
            Ok(self.begin(scope, incoming, key))
        } else {
            Err(key)
        }
    }

    /// As [`Cache::store`], where it is not known that the address of `miss`
    /// is still set aside: stores the value where it is, and hands it back
    /// where it is not.
    pub fn try_store(&mut self, miss: CacheMiss<Q>, value: V) -> (unstored: Option<V>)
        requires
            obeys_concrete_eq::<Q>(),
        ensures
            final(self)@.wf(),
            forall|addr: u64|
                addr != miss.addr && old(self)@.reserved(addr) ==> final(self)@.reserved(addr),
            match unstored {
                None => old(self)@.reserved(miss.addr) && final(self)@ == old(self)@.stored(
                    miss,
                    value,
                ),
                Some(v) => !old(self)@.reserved(miss.addr) && final(self)@ == old(self)@ && v
                    == value,
            },
    {
        proof {
            use_type_invariant(&*self);
        }
        if self.is_reserved(miss.addr) {
            self.store(miss, value);
            None
        } else {
            Some(value)
        }
    }

    /// Stores `value` as the entry that `miss` began and roots it. An entry
    /// that was stored for the same scope and key meanwhile gives way to it.
    pub fn store(&mut self, miss: CacheMiss<Q>, value: V) -> (stored: &V)
        requires
            obeys_concrete_eq::<Q>(),
            old(self)@.reserved(miss.addr),
        ensures
            final(self)@ == old(self)@.stored(miss, value),
            final(self)@.wf(),
            *stored == value,
            final(self)@.contains(miss.scope, miss.key),
            forall|addr: u64|
                addr != miss.addr && old(self)@.reserved(addr) ==> final(self)@.reserved(addr),
    {
        proof {
            use_type_invariant(&*self);
        }
        let mut taken = Cache::new();
        core::mem::swap(self, &mut taken);
        let Cache { store: mut store } = taken;
        store.store(miss, value);
        *self = Cache { store };
        let n = self.store.entries.len();
        self.store.value_at(n - 1)
    }

    /// Returns the value stored for `key` in the current scope, or makes it
    /// with `init`, stores it and returns it.
    ///
    /// Where the entry exists it is rooted and `init` is not run: the cached
    /// value wins. Where it does not, `init` runs once, with a handle to the
    /// new entry published as the current dependent, and its result is stored
    /// as a rooted entry.
    pub fn get_or_init<F>(&mut self, ctx: &mut Context, key: Q, init: F) -> (value: &V) where
        F: FnOnce(&mut Cache<Q, V>, &mut Context) -> V,
        requires
            obeys_concrete_eq::<Q>(),
            !old(self)@.contains(current_id(old(ctx)@), key) ==> {
                &&& old(self)@.next_addr < u64::MAX
                &&& forall|c: &mut Cache<Q, V>, x: &mut Context|
                    c@ == old(self)@.begun() && x@ == old(ctx)@.push(
                        dependent_frame(Dependent { addr: old(self)@.next_addr }),
                    ) ==> init.requires((c, x))
                &&& forall|c: &mut Cache<Q, V>, x: &mut Context, v: V, addr: u64|
                    c@ == old(self)@.begun() && x@ == old(ctx)@.push(
                        dependent_frame(Dependent { addr: old(self)@.next_addr }),
                    ) && #[trigger] init.ensures((c, x), v) && #[trigger] c@.reserved(addr)
                        ==> final(c)@.reserved(addr)
            },
        ensures
            final(self)@.wf(),
            forall|addr: u64| old(self)@.reserved(addr) ==> final(self)@.reserved(addr),
            final(self)@.contains(current_id(old(ctx)@), key),
            old(self)@.contains(current_id(old(ctx)@), key) ==> {
                &&& *value == old(self)@.records[old(self)@.position(
                    current_id(old(ctx)@),
                    key,
                )].value
                &&& final(self)@ == old(self)@.touched(
                    old(self)@.position(current_id(old(ctx)@), key),
                    spec_incoming(old(ctx)@),
                )
                &&& final(ctx)@ == old(ctx)@
            },
            !old(self)@.contains(current_id(old(ctx)@), key) ==> exists|
                c: &mut Cache<Q, V>,
                x: &mut Context,
            |
                {
                    &&& c@ == old(self)@.begun()
                    &&& x@ == old(ctx)@.push(
                        dependent_frame(Dependent { addr: old(self)@.next_addr }),
                    )
                    &&& #[trigger] init.ensures((c, x), *value)
                    &&& final(self)@ == final(c)@.stored(
                        CacheMiss {
                            scope: current_id(old(ctx)@),
                            key,
                            addr: old(self)@.next_addr,
                            incoming: spec_incoming(old(ctx)@),
                        },
                        *value,
                    )
                    &&& final(ctx)@ == popped(final(x)@)
                },
    {
        let scope = CallId::current(ctx);
        match self.position(scope, &key) {
            Some(i) => {
                let value = self.touch(i, Dependent::incoming(ctx));
                assert(old(self)@.touched(i as int, spec_incoming(old(ctx)@)).holds(
                    scope,
                    key,
                    i as int,
                ));
                value
            },
            None => {
                let miss = self.begin(scope, Dependent::incoming(ctx), key);
                ctx.push(Frame::new().offer_dependent(miss.dependent()));
                let made = init(self, ctx);
                ctx.pop();
                self.store(miss, made)
            },
        }
    }

    /// As [`Cache::get_or_init`], with an `init` that may fail. Where `init`
    /// fails its error is returned and nothing is stored.
    pub fn try_get_or_init<F, E>(&mut self, ctx: &mut Context, key: Q, init: F) -> (value: Result<
        &V,
        E,
    >) where F: FnOnce(&mut Cache<Q, V>, &mut Context) -> Result<V, E>
        requires
            obeys_concrete_eq::<Q>(),
            !old(self)@.contains(current_id(old(ctx)@), key) ==> {
                &&& old(self)@.next_addr < u64::MAX
                &&& forall|c: &mut Cache<Q, V>, x: &mut Context|
                    c@ == old(self)@.begun() && x@ == old(ctx)@.push(
                        dependent_frame(Dependent { addr: old(self)@.next_addr }),
                    ) ==> init.requires((c, x))
                &&& forall|c: &mut Cache<Q, V>, x: &mut Context, v: Result<V, E>, addr: u64|
                    c@ == old(self)@.begun() && x@ == old(ctx)@.push(
                        dependent_frame(Dependent { addr: old(self)@.next_addr }),
                    ) && #[trigger] init.ensures((c, x), v) && #[trigger] c@.reserved(addr)
                        ==> final(c)@.reserved(addr)
            },
        ensures
            final(self)@.wf(),
            forall|addr: u64| old(self)@.reserved(addr) ==> final(self)@.reserved(addr),
            old(self)@.contains(current_id(old(ctx)@), key) ==> {
                &&& value matches Ok(v)
                &&& *v == old(self)@.records[old(self)@.position(current_id(old(ctx)@), key)].value
                &&& final(self)@ == old(self)@.touched(
                    old(self)@.position(current_id(old(ctx)@), key),
                    spec_incoming(old(ctx)@),
                )
                &&& final(ctx)@ == old(ctx)@
            },
            !old(self)@.contains(current_id(old(ctx)@), key) ==> exists|
                c: &mut Cache<Q, V>,
                x: &mut Context,
                made: Result<V, E>,
            |
                {
                    &&& c@ == old(self)@.begun()
                    &&& x@ == old(ctx)@.push(
                        dependent_frame(Dependent { addr: old(self)@.next_addr }),
                    )
                    &&& #[trigger] init.ensures((c, x), made)
                    &&& final(ctx)@ == popped(final(x)@)
                    &&& match made {
                        Ok(v) => {
                            &&& value matches Ok(stored)
                            &&& *stored == v
                            &&& final(self)@ == final(c)@.stored(
                                CacheMiss {
                                    scope: current_id(old(ctx)@),
                                    key,
                                    addr: old(self)@.next_addr,
                                    incoming: spec_incoming(old(ctx)@),
                                },
                                v,
                            )
                        },
                        Err(e) => value == Err::<&V, E>(e) && final(self)@ == final(c)@,
                    }
                },
    {
        let scope = CallId::current(ctx);
        match self.position(scope, &key) {
            Some(i) => Ok(self.touch(i, Dependent::incoming(ctx))),
            None => {
                let miss = self.begin(scope, Dependent::incoming(ctx), key);
                ctx.push(Frame::new().offer_dependent(miss.dependent()));
                let made = init(self, ctx);
                ctx.pop();
                proof {
                    use_type_invariant(&*self);
                }
                match made {
                    Ok(v) => Ok(self.store(miss, v)),
                    Err(e) => Err(e),
                }
            },
        }
    }
}

/// What the first part of a lookup that returns values, not references,
/// found.
#[derive(Debug)]
pub enum Fetched<Q, V> {
    /// The entry exists: a clone of its value.
    Hit(V),
    /// The entry does not exist and was begun.
    Miss(CacheMiss<Q>),
    /// The entry does not exist and no address is left to begin it: the key.
    Full(Q),
}

impl<Q: PartialEq, V: Clone> Cache<Q, V> {
    /// Looks up the entry for `scope` and `key`. An entry that is found is
    /// rooted on behalf of `incoming`, and a clone of its value is returned.
    /// Where none is found an entry is begun, if an address is left for it.
    pub fn fetch(&mut self, scope: CallId, incoming: Dependent, key: Q) -> (fetched: Fetched<Q, V>)
        requires
            obeys_concrete_eq::<Q>(),
        ensures
            final(self)@.wf(),
            forall|addr: u64| old(self)@.reserved(addr) ==> final(self)@.reserved(addr),
            match fetched {
                Fetched::Hit(v) => {
                    &&& old(self)@.contains(scope, key)
                    &&& cloned(old(self)@.records[old(self)@.position(scope, key)].value, v)
                    &&& final(self)@ == old(self)@.touched(
                        old(self)@.position(scope, key),
                        incoming,
                    )
                },
                Fetched::Miss(miss) => {
                    &&& !old(self)@.contains(scope, key)
                    &&& old(self)@.next_addr < u64::MAX
                    &&& final(self)@ == old(self)@.begun()
                    &&& miss == (CacheMiss { scope, key, addr: old(self)@.next_addr, incoming })
                    &&& final(self)@.reserved(miss.addr)
                },
                Fetched::Full(unused) => {
                    &&& !old(self)@.contains(scope, key)
                    &&& old(self)@.next_addr == u64::MAX
                    &&& final(self)@ == old(self)@
                    &&& unused == key
                },
            },
    {
        match self.position(scope, &key) {
            Some(i) => Fetched::Hit(self.touch(i, incoming).clone()),
            None => match self.try_begin(scope, incoming, key) {
                Ok(miss) => Fetched::Miss(miss),
                Err(key) => Fetched::Full(key),
            },
        }
    }
}

} // verus!
