//! Liveness records of cache entries, the weak handles that name them, and
//! the marking that decides which records outlive a sweep.
//!
//! Each cache entry owns one record. A record lists its dependents: handles
//! to the records of the entries whose initializers looked this entry up. A
//! record is live when it was rooted since the last sweep, or when one of its
//! dependents names a live record: an entry that is in use keeps alive what it
//! was made from. Marking notes in each record whether it is live, and the
//! sweep that follows keeps the records that are marked.

use crate::context::{dependent_frame, popped, same_scopes, visible_dependent, Context, Frame};
use vstd::prelude::*;

verus! {

/// What a sweep finds of one record.
#[derive(Clone, Copy, Debug, PartialEq, Eq, Structural)]
pub enum Liveness {
    /// The record was reached: its entry is kept.
    Live,
    /// The record was not reached: its entry is removed.
    Dead,
}

/// A weak handle to the liveness record of a cache entry.
///
/// A handle is an address. It keeps nothing alive: once the record is gone
/// the address names nothing, and it is never given out again. Address 0 is
/// the null handle, which never names a record.
#[derive(Clone, Copy, Debug, PartialEq, Eq, Hash, Structural)]
pub struct Dependent {
    pub addr: u64,
}

/// The mathematical value of a [`DepNode`].
pub struct NodeView {
    /// The address by which handles name the record.
    pub addr: u64,
    /// Whether the record was rooted since the last sweep.
    pub has_root: bool,
    /// Whether the last marking found the record live.
    pub marked: bool,
    /// The handles of the entries that depend on this one.
    pub dependents: Seq<Dependent>,
}

/// The list of dependents after `dependent` was recorded: it is appended
/// unless it already stands last.
pub open spec fn recorded(dependents: Seq<Dependent>, dependent: Dependent) -> Seq<Dependent> {
    if dependents.len() > 0 && dependents.last() == dependent {
        dependents
    } else {
        dependents.push(dependent)
    }
}

/// Whether `dependent` names `node`: it is not the null handle, and its
/// address is that of `node`.
pub open spec fn names(dependent: Dependent, node: NodeView) -> bool {
    dependent.addr != 0 && dependent.addr == node.addr
}

impl NodeView {
    /// The record after `dependent` rooted it.
    pub open spec fn rooted(self, dependent: Dependent) -> NodeView {
        NodeView { has_root: true, dependents: recorded(self.dependents, dependent), ..self }
    }

    /// The record after a marking that found it live, or not.
    pub open spec fn marked_as(self, marked: bool) -> NodeView {
        NodeView { marked, ..self }
    }

    /// The record after a sweep that kept it: neither rooted nor marked.
    pub open spec fn swept(self) -> NodeView {
        NodeView { has_root: false, marked: false, ..self }
    }

    /// A record at `addr` that nothing has rooted or marked yet.
    pub open spec fn fresh(addr: u64) -> NodeView {
        NodeView { addr, has_root: false, marked: false, dependents: Seq::empty() }
    }
}

/// The part of a liveness record that changes: the root flag, the mark and
/// the list of dependents.
#[derive(Debug)]
pub struct InnerDepNode {
    has_root: bool,
    marked: bool,
    dependents: Vec<Dependent>,
}

impl InnerDepNode {
    /// Whether the record was rooted since the last sweep.
    pub closed spec fn spec_has_root(&self) -> bool {
        self.has_root
    }

    /// Whether the last marking found the record live.
    pub closed spec fn spec_marked(&self) -> bool {
        self.marked
    }

    /// The handles of the entries that depend on this one.
    pub closed spec fn spec_dependents(&self) -> Seq<Dependent> {
        self.dependents@
    }

    /// A record part that nothing has rooted or marked yet.
    pub fn new() -> (inner: InnerDepNode)
        ensures
            !inner.spec_has_root(),
            !inner.spec_marked(),
            inner.spec_dependents() == Seq::<Dependent>::empty(),
    {
        InnerDepNode { has_root: false, marked: false, dependents: Vec::new() }
    }

    /// Roots the record for this revision and records `dependent` as one of
    /// its dependents.
    pub fn root(&mut self, dependent: Dependent)
        ensures
            final(self).spec_has_root(),
            final(self).spec_marked() == old(self).spec_marked(),
            final(self).spec_dependents() == recorded(old(self).spec_dependents(), dependent),
    {
        let n = self.dependents.len();
        if n == 0 || self.dependents[n - 1] != dependent {
            self.dependents.push(dependent);
        }
        self.has_root = true;
    }

    /// Marks the record: finds whether it is live among the records of
    /// `nodes`, notes that in the record and returns it. The record is live
    /// when it is rooted, or when one of its dependents names a record of
    /// `nodes` that is live.
    pub fn mark(&mut self, nodes: &Vec<DepNode>) -> (marked: bool)
        ensures
            marked == live_with(
                graph(nodes@),
                old(self).spec_has_root(),
                old(self).spec_dependents(),
            ),
            final(self).spec_marked() == marked,
            final(self).spec_has_root() == old(self).spec_has_root(),
            final(self).spec_dependents() == old(self).spec_dependents(),
    {
        let marked = if self.has_root {
            true
        } else {
            let flags = mark_all(nodes);
            self.has_marked_dependent(nodes, &flags)
        };
        self.marked = marked;
        marked
    }

    /// Notes in the record what a marking of the whole list found of it.
    fn set_marked(&mut self, marked: bool)
        ensures
            final(self).spec_marked() == marked,
            final(self).spec_has_root() == old(self).spec_has_root(),
            final(self).spec_dependents() == old(self).spec_dependents(),
    {
        self.marked = marked;
    }

    /// Sweeps the record: says whether the marking before found it live, and
    /// clears the root flag and the mark for the next revision.
    pub fn sweep(&mut self) -> (liveness: Liveness)
        ensures
            !final(self).spec_has_root(),
            !final(self).spec_marked(),
            final(self).spec_dependents() == old(self).spec_dependents(),
            liveness == if old(self).spec_marked() {
                Liveness::Live
            } else {
                Liveness::Dead
            },
    {
        let was_marked = self.marked;
        self.has_root = false;
        self.marked = false;
        if was_marked {
            Liveness::Live
        } else {
            Liveness::Dead
        }
    }

    /// Whether the record lists a dependent that names a flagged record of
    /// `nodes`.
    fn has_marked_dependent(&self, nodes: &Vec<DepNode>, flags: &Vec<bool>) -> (found: bool)
        requires
            flags.len() == nodes.len(),
        ensures
            found == exists|k: int, j: int|
                0 <= k < self.spec_dependents().len() && 0 <= j < nodes.len() && #[trigger] names(
                    self.spec_dependents()[k],
                    graph(nodes@)[j],
                ) && flags@[j],
    {
        let mut k: usize = 0;
        while k < self.dependents.len()
            invariant
                k <= self.dependents.len(),
                flags.len() == nodes.len(),
                forall|a: int, j: int|
                    0 <= a < k && 0 <= j < nodes.len() && #[trigger] names(
                        self.spec_dependents()[a],
                        graph(nodes@)[j],
                    ) ==> !flags@[j],
            decreases self.dependents.len() - k,
        {
            let addr = self.dependents[k].addr;
            let mut j: usize = 0;
            while addr != 0 && j < nodes.len()
                invariant
                    j <= nodes.len(),
                    k < self.dependents.len(),
                    addr == self.spec_dependents()[k as int].addr,
                    flags.len() == nodes.len(),
                    forall|b: int|
                        0 <= b < j && addr == (#[trigger] graph(nodes@)[b]).addr ==> !flags@[b],
                decreases nodes.len() - j,
            {
                if nodes[j].addr == addr && flags[j] {
                    assert(names(self.spec_dependents()[k as int], graph(nodes@)[j as int]));
                    return true;
                }
                j += 1;
            }
            k += 1;
        }
        false
    }
}

/// The liveness record of one cache entry, with the address that names it.
#[derive(Debug)]
pub struct DepNode {
    addr: u64,
    inner: InnerDepNode,
}

impl View for DepNode {
    type V = NodeView;

    closed spec fn view(&self) -> NodeView {
        NodeView {
            addr: self.addr,
            has_root: self.inner.spec_has_root(),
            marked: self.inner.spec_marked(),
            dependents: self.inner.spec_dependents(),
        }
    }
}

impl DepNode {
    /// A record at `addr` that nothing has rooted or marked yet. At address 0
    /// no handle names it.
    pub fn new(addr: u64) -> (node: DepNode)
        ensures
            node@ == NodeView::fresh(addr),
    {
        DepNode { addr, inner: InnerDepNode::new() }
    }

    /// Roots the record for this revision and records `dependent` as one of
    /// its dependents.
    pub fn root(&mut self, dependent: Dependent)
        ensures
            final(self)@ == old(self)@.rooted(dependent),
    {
        self.inner.root(dependent);
    }

    /// A weak handle to this record.
    pub fn as_dependent(&self) -> (dependent: Dependent)
        ensures
            dependent.addr == self@.addr,
    {
        Dependent { addr: self.addr }
    }

    /// Whether the record was rooted since the last sweep.
    pub fn has_root(&self) -> (rooted: bool)
        ensures
            rooted == self@.has_root,
    {
        self.inner.has_root
    }

    /// Marks the record: finds whether it is live among the records of
    /// `nodes`, notes that in the record and returns it. The record is live
    /// when it is rooted, or when a chain of dependents leads from it,
    /// through records of `nodes`, to a rooted record.
    pub fn mark(&mut self, nodes: &Vec<DepNode>) -> (marked: bool)
        ensures
            marked == live_record(graph(nodes@), old(self)@),
            final(self)@ == old(self)@.marked_as(marked),
    {
        self.inner.mark(nodes)
    }

    /// Sweeps the record: says whether the marking before found it live, and
    /// clears the root flag and the mark for the next revision.
    pub fn sweep(&mut self) -> (liveness: Liveness)
        ensures
            final(self)@ == old(self)@.swept(),
            liveness == if old(self)@.marked {
                Liveness::Live
            } else {
                Liveness::Dead
            },
    {
        self.inner.sweep()
    }
}

/// The records of a list of nodes, in the same order.
pub open spec fn graph(nodes: Seq<DepNode>) -> Seq<NodeView> {
    Seq::new(nodes.len(), |i: int| nodes[i]@)
}

/// Whether record `i` lists a dependent that names record `j`: entry `j`
/// depends on entry `i`.
pub open spec fn edge(nodes: Seq<NodeView>, i: int, j: int) -> bool {
    &&& 0 <= i < nodes.len()
    &&& 0 <= j < nodes.len()
    &&& exists|k: int|
        0 <= k < nodes[i].dependents.len() && #[trigger] names(nodes[i].dependents[k], nodes[j])
}

/// Whether `path` leads over edges, from each record to one of its
/// dependents, to a record that is rooted.
pub open spec fn chain(nodes: Seq<NodeView>, path: Seq<int>) -> bool {
    &&& path.len() > 0
    &&& forall|t: int| 0 <= t < path.len() ==> 0 <= #[trigger] path[t] < nodes.len()
    &&& forall|t: int| 0 <= t < path.len() - 1 ==> edge(nodes, #[trigger] path[t], path[t + 1])
    &&& nodes[path.last()].has_root
}

/// Whether record `i` is live: it is rooted, or a chain of dependents leads
/// from it to a rooted record.
pub open spec fn live(nodes: Seq<NodeView>, i: int) -> bool {
    exists|path: Seq<int>| #[trigger] chain(nodes, path) && path[0] == i
}

/// Whether a record with this root flag and these dependents is live among
/// `nodes`: it is rooted, or one of its dependents names a record of `nodes`
/// that is live.
pub open spec fn live_with(nodes: Seq<NodeView>, has_root: bool, dependents: Seq<Dependent>) -> bool {
    has_root || exists|k: int, j: int|
        0 <= k < dependents.len() && 0 <= j < nodes.len() && #[trigger] names(
            dependents[k],
            nodes[j],
        ) && live(nodes, j)
}

/// Whether `record` is live among `nodes`.
pub open spec fn live_record(nodes: Seq<NodeView>, record: NodeView) -> bool {
    live_with(nodes, record.has_root, record.dependents)
}

/// A rooted record is live.
pub proof fn lemma_rooted_is_live(nodes: Seq<NodeView>, i: int)
    requires
        0 <= i < nodes.len(),
        nodes[i].has_root,
    ensures
        live(nodes, i),
{
    let path = seq![i];
    assert(chain(nodes, path));
    assert(path[0] == i);
}

/// A record with a live dependent is live.
pub proof fn lemma_live_dependent(nodes: Seq<NodeView>, i: int, j: int)
    requires
        edge(nodes, i, j),
        live(nodes, j),
    ensures
        live(nodes, i),
{
    let tail = choose|path: Seq<int>| #[trigger] chain(nodes, path) && path[0] == j;
    let path = seq![i] + tail;
    assert forall|t: int| 0 <= t < path.len() - 1 implies edge(
        nodes,
        #[trigger] path[t],
        path[t + 1],
    ) by {
        if t > 0 {
            assert(path[t] == tail[t - 1]);
            assert(path[t + 1] == tail[t]);
        }
    }
    assert forall|t: int| 0 <= t < path.len() implies 0 <= #[trigger] path[t] < nodes.len() by {
        if t > 0 {
            assert(path[t] == tail[t - 1]);
        }
    }
    assert(path.last() == tail.last());
    assert(chain(nodes, path));
    assert(path[0] == i);
}

/// A live record is rooted or has a live dependent.
pub proof fn lemma_live_unfolds(nodes: Seq<NodeView>, i: int)
    requires
        live(nodes, i),
    ensures
        0 <= i < nodes.len(),
        nodes[i].has_root || exists|j: int| #[trigger] edge(nodes, i, j) && live(nodes, j),
{
    let path = choose|path: Seq<int>| #[trigger] chain(nodes, path) && path[0] == i;
    if path.len() > 1 {
        let tail = path.skip(1);
        assert forall|t: int| 0 <= t < tail.len() - 1 implies edge(
            nodes,
            #[trigger] tail[t],
            tail[t + 1],
        ) by {
            assert(edge(nodes, path[t + 1], path[t + 2]));
        }
        assert forall|t: int| 0 <= t < tail.len() implies 0 <= #[trigger] tail[t] < nodes.len() by {
            assert(0 <= path[t + 1] < nodes.len());
        }
        assert(tail.last() == path.last());
        assert(chain(nodes, tail));
        assert(tail[0] == path[1]);
        assert(edge(nodes, path[0], path[1]));
        assert(live(nodes, path[1]));
    } else {
        assert(path.last() == path[0]);
    }
}

/// A record of the list is live among the records of the list exactly when a
/// chain of dependents leads from its place to a rooted record.
pub proof fn lemma_live_at_place(nodes: Seq<NodeView>, i: int)
    requires
        0 <= i < nodes.len(),
    ensures
        live(nodes, i) == live_record(nodes, nodes[i]),
{
    if live(nodes, i) {
        lemma_live_unfolds(nodes, i);
        if !nodes[i].has_root {
            let j = choose|j: int| #[trigger] edge(nodes, i, j) && live(nodes, j);
            let k = choose|k: int|
                0 <= k < nodes[i].dependents.len() && #[trigger] names(
                    nodes[i].dependents[k],
                    nodes[j],
                );
            assert(names(nodes[i].dependents[k], nodes[j]) && live(nodes, j));
        }
    }
    if live_record(nodes, nodes[i]) {
        if nodes[i].has_root {
            lemma_rooted_is_live(nodes, i);
        } else {
            let (k, j) = choose|k: int, j: int|
                0 <= k < nodes[i].dependents.len() && 0 <= j < nodes.len() && #[trigger] names(
                    nodes[i].dependents[k],
                    nodes[j],
                ) && live(nodes, j);
            assert(edge(nodes, i, j));
            lemma_live_dependent(nodes, i, j);
        }
    }
}

/// Whether the marks say of every record what they must: they mark the rooted
/// records, and each record that has a marked dependent.
pub open spec fn closed(nodes: Seq<NodeView>, flags: Seq<bool>) -> bool {
    &&& flags.len() == nodes.len()
    &&& forall|i: int| 0 <= i < nodes.len() && (#[trigger] nodes[i]).has_root ==> flags[i]
    &&& forall|i: int, j: int| #[trigger] edge(nodes, i, j) && flags[j] ==> flags[i]
}

/// Marks that are closed mark the first record of every chain.
proof fn lemma_closed_marks_chain(nodes: Seq<NodeView>, flags: Seq<bool>, path: Seq<int>)
    requires
        closed(nodes, flags),
        chain(nodes, path),
    ensures
        flags[path[0]],
    decreases path.len(),
{
    if path.len() > 1 {
        let tail = path.skip(1);
        assert forall|t: int| 0 <= t < tail.len() - 1 implies edge(
            nodes,
            #[trigger] tail[t],
            tail[t + 1],
        ) by {
            assert(edge(nodes, path[t + 1], path[t + 2]));
        }
        assert forall|t: int| 0 <= t < tail.len() implies 0 <= #[trigger] tail[t] < nodes.len() by {
            assert(0 <= path[t + 1] < nodes.len());
        }
        assert(tail.last() == path.last());
        lemma_closed_marks_chain(nodes, flags, tail);
        assert(tail[0] == path[1]);
        assert(edge(nodes, path[0], path[1]));
    } else {
        assert(path.last() == path[0]);
    }
}

/// The number of records that are not marked.
pub open spec fn unmarked(flags: Seq<bool>) -> nat
    decreases flags.len(),
{
    if flags.len() == 0 {
        0
    } else {
        unmarked(flags.drop_last()) + if flags.last() {
            0nat
        } else {
            1nat
        }
    }
}

/// Marking one more record leaves one record less unmarked.
proof fn lemma_unmarked_after_mark(flags: Seq<bool>, i: int)
    requires
        0 <= i < flags.len(),
        !flags[i],
    ensures
        unmarked(flags.update(i, true)) + 1 == unmarked(flags),
    decreases flags.len(),
{
    let after = flags.update(i, true);
    if i == flags.len() - 1 {
        assert(after.drop_last() =~= flags.drop_last());
    } else {
        assert(after.drop_last() =~= flags.drop_last().update(i, true));
        lemma_unmarked_after_mark(flags.drop_last(), i);
    }
}

/// Says of each record whether it is live.
///
/// The marks start from the rooted records. Each pass marks the records that
/// have a marked dependent, and the passes end when one has marked nothing
/// new: a marked record is never looked at again, so cycles among the
/// dependents do no harm.
pub fn mark_all(nodes: &Vec<DepNode>) -> (flags: Vec<bool>)
    ensures
        flags.len() == nodes.len(),
        forall|i: int| 0 <= i < nodes.len() ==> flags@[i] == live(graph(nodes@), i),
{
    let n = nodes.len();
    let mut flags: Vec<bool> = Vec::new();
    let mut i: usize = 0;
    while i < n
        invariant
            n == nodes.len(),
            i <= n,
            flags.len() == i,
            forall|a: int| 0 <= a < i ==> flags@[a] == (#[trigger] graph(nodes@)[a]).has_root,
        decreases n - i,
    {
        flags.push(nodes[i].has_root());
        i += 1;
    }
    proof {
        assert forall|a: int| 0 <= a < n && flags@[a] implies live(graph(nodes@), a) by {
            lemma_rooted_is_live(graph(nodes@), a);
        }
    }
    let mut changed = true;
    while changed
        invariant
            n == nodes.len(),
            flags.len() == n,
            forall|a: int| 0 <= a < n && (#[trigger] graph(nodes@)[a]).has_root ==> flags@[a],
            forall|a: int| 0 <= a < n && flags@[a] ==> live(graph(nodes@), a),
            !changed ==> closed(graph(nodes@), flags@),
        decreases unmarked(flags@), if changed { 1nat } else { 0nat },
    {
        changed = false;
        let ghost start = flags@;
        let mut i: usize = 0;
        while i < n
            invariant
                n == nodes.len(),
                flags.len() == n,
                i <= n,
                forall|a: int| 0 <= a < n && (#[trigger] graph(nodes@)[a]).has_root ==> flags@[a],
                forall|a: int| 0 <= a < n && flags@[a] ==> live(graph(nodes@), a),
                !changed ==> flags@ == start,
                changed ==> unmarked(flags@) < unmarked(start),
                !changed ==> forall|a: int, j: int|
                    0 <= a < i && #[trigger] edge(graph(nodes@), a, j) && flags@[j] ==> flags@[a],
            decreases n - i,
        {
            if !flags[i] {
                let found = nodes[i].inner.has_marked_dependent(nodes, &flags);
                proof {
                    let g = graph(nodes@);
                    if found {
                        let (k, j) = choose|k: int, j: int|
                            0 <= k < g[i as int].dependents.len() && 0 <= j < nodes.len()
                                && #[trigger] names(g[i as int].dependents[k], g[j]) && flags@[j];
                        assert(edge(g, i as int, j));
                        lemma_live_dependent(g, i as int, j);
                        lemma_unmarked_after_mark(flags@, i as int);
                    } else {
                        assert forall|j: int| #[trigger] edge(g, i as int, j) implies !flags@[j] by {
                            let k = choose|k: int|
                                0 <= k < g[i as int].dependents.len() && #[trigger] names(
                                    g[i as int].dependents[k],
                                    g[j],
                                );
                        }
                    }
                }
                if found {
                    flags.set(i, true);
                    changed = true;
                }
            }
            i += 1;
        }
    }
    proof {
        let g = graph(nodes@);
        assert forall|a: int| 0 <= a < n implies flags@[a] == live(g, a) by {
            if live(g, a) {
                let path = choose|path: Seq<int>| #[trigger] chain(g, path) && path[0] == a;
                lemma_closed_marks_chain(g, flags@, path);
            }
        }
    }
    flags
}

/// Marks every record of the list: notes in each whether it is live among
/// the records of the list.
pub fn mark_each(nodes: &mut Vec<DepNode>)
    ensures
        final(nodes)@.len() == old(nodes)@.len(),
        forall|i: int|
            0 <= i < old(nodes)@.len() ==> (#[trigger] final(nodes)@[i])@ == old(nodes)@[i]@.marked_as(
                live(graph(old(nodes)@), i),
            ),
{
    let flags = mark_all(nodes);
    let n = nodes.len();
    let mut i: usize = 0;
    while i < n
        invariant
            i <= n,
            n == old(nodes)@.len(),
            nodes@.len() == n,
            flags@.len() == n,
            forall|a: int| 0 <= a < n ==> flags@[a] == live(graph(old(nodes)@), a),
            forall|a: int|
                0 <= a < i ==> (#[trigger] nodes@[a])@ == old(nodes)@[a]@.marked_as(
                    live(graph(old(nodes)@), a),
                ),
            forall|a: int| i <= a < n ==> (#[trigger] nodes@[a]) == old(nodes)@[a],
        decreases n - i,
    {
        nodes[i].inner.set_marked(flags[i]);
        i += 1;
    }
}

impl Dependent {
    /// The null handle.
    pub open spec fn null() -> Dependent {
        Dependent { addr: 0 }
    }

    /// The address that the handle names.
    pub fn addr(&self) -> (addr: u64)
        ensures
            addr == self.addr,
    {
        self.addr
    }

    /// The place in `nodes` of the record that the handle names, if it is
    /// still there: the first record at the handle's address. The null handle
    /// names no record.
    pub fn upgrade(&self, nodes: &Vec<DepNode>) -> (place: Option<usize>)
        ensures
            match place {
                Some(i) => {
                    &&& i < nodes.len()
                    &&& names(*self, graph(nodes@)[i as int])
                    &&& forall|j: int| 0 <= j < i ==> !names(*self, #[trigger] graph(nodes@)[j])
                },
                None => forall|j: int|
                    0 <= j < nodes.len() ==> !names(*self, #[trigger] graph(nodes@)[j]),
            },
    {
        if self.addr == 0 {
            return None;
        }
        let mut i: usize = 0;
        while i < nodes.len()
            invariant
                i <= nodes.len(),
                self.addr != 0,
                forall|j: int| 0 <= j < i ==> !names(*self, #[trigger] graph(nodes@)[j]),
            decreases nodes.len() - i,
        {
            if nodes[i].addr == self.addr {
                return Some(i);
            }
            i += 1;
        }
        None
    }

    /// The dependent on whose behalf code runs where `published` is what a
    /// lookup of the dependent found: the one that was found, or the null
    /// handle where none was.
    pub fn or_null(published: Option<Dependent>) -> (dependent: Dependent)
        ensures
            dependent == match published {
                Some(found) => found,
                None => Dependent::null(),
            },
    {
        match published {
            Some(found) => found,
            None => Dependent::default(),
        }
    }

    /// The dependent on whose behalf code runs now: the one that `ctx`
    /// publishes, or the null handle where it publishes none.
    pub fn incoming(ctx: &Context) -> (dependent: Dependent)
        ensures
            dependent == spec_incoming(ctx@),
    {
        Dependent::or_null(ctx.get_dependent())
    }

    /// Runs `op` with this handle published as the current dependent, and
    /// takes the frame that publishes it off the stack when `op` has
    /// returned, whatever it returned.
    pub fn init_dependency<F, R>(self, ctx: &mut Context, op: F) -> (r: R) where
        F: FnOnce(&mut Context) -> R,
        requires
            forall|c: &mut Context| c@ == old(ctx)@.push(dependent_frame(self)) ==> op.requires((c,)),
        ensures
            exists|c: &mut Context|
                {
                    &&& c@ == old(ctx)@.push(dependent_frame(self))
                    &&& #[trigger] op.ensures((c,), r)
                    &&& final(ctx)@ == popped(final(c)@)
                },
            (forall|c: &mut Context, x: R|
                c@ == old(ctx)@.push(dependent_frame(self)) && #[trigger] op.ensures((c,), x)
                    ==> same_scopes(final(c)@, c@)) ==> same_scopes(final(ctx)@, old(ctx)@),
    {
        ctx.enter(Frame::new().offer_dependent(self), op)
    }
}

/// The dependent on whose behalf code runs: the visible one, or the null
/// handle where none is visible.
pub open spec fn spec_incoming(frames: Seq<crate::context::FrameView>) -> Dependent {
    match visible_dependent(frames) {
        Some(dependent) => dependent,
        None => Dependent::null(),
    }
}

impl Default for Dependent {
    /// The null handle.
    fn default() -> (dependent: Dependent)
        ensures
            dependent == Dependent::null(),
    {
        Dependent { addr: 0 }
    }
}

} // verus!
