//! The state of one active scope: its id, the callsite it was entered at, and
//! how often each callsite has been entered inside it.

use crate::id::{CallId, Callsite, Slot, SlotView};
use vstd::prelude::*;

verus! {

/// The mathematical value of a [`Scope`].
pub struct ScopeView {
    /// The scope's id.
    pub id: CallId,
    /// The callsite at which the scope was entered.
    pub callsite: Callsite,
    /// How often each callsite has been entered in this scope; callsites that
    /// were never entered are not in the map.
    pub counts: Map<Callsite, nat>,
}

impl ScopeView {
    /// How often `callsite` has been entered in this scope.
    pub open spec fn count(self, callsite: Callsite) -> nat {
        if self.counts.dom().contains(callsite) {
            self.counts[callsite]
        } else {
            0
        }
    }

    /// The scope after one more entry at `callsite`.
    pub open spec fn incremented(self, callsite: Callsite) -> ScopeView {
        ScopeView { counts: self.counts.insert(callsite, self.count(callsite) + 1), ..self }
    }

    /// The root scope, in which nothing has been entered yet.
    pub open spec fn root() -> ScopeView {
        ScopeView { id: CallId::spec_root(), callsite: Callsite::spec_root(), counts: Map::empty() }
    }

    /// A scope with the given id and callsite in which nothing has been
    /// entered yet.
    pub open spec fn fresh(id: CallId, callsite: Callsite) -> ScopeView {
        ScopeView { id, callsite, counts: Map::empty() }
    }
}

/// The runtime state of the currently executing identified call.
#[derive(Debug)]
pub struct Scope {
    id: CallId,
    callsite: Callsite,
    callsite_counts: Vec<(Callsite, u32)>,
}

/// Whether `i` is the first place in the list at which `site` stands.
pub open spec fn first_at(pairs: Seq<(Callsite, u32)>, site: Callsite, i: int) -> bool {
    &&& 0 <= i < pairs.len()
    &&& pairs[i].0 == site
    &&& forall|k: int| 0 <= k < i ==> (#[trigger] pairs[k]).0 != site
}

/// The counts that a list of pairs stands for: each callsite has the count
/// that stands beside it where it first occurs.
pub open spec fn counts_of(pairs: Seq<(Callsite, u32)>) -> Map<Callsite, nat> {
    Map::new(
        |site: Callsite| exists|i: int| first_at(pairs, site, i),
        |site: Callsite| pairs[choose|i: int| first_at(pairs, site, i)].1 as nat,
    )
}

/// A callsite stands first at one place only.
proof fn lemma_first_unique(pairs: Seq<(Callsite, u32)>, site: Callsite, i: int, j: int)
    requires
        first_at(pairs, site, i),
        first_at(pairs, site, j),
    ensures
        i == j,
{
    if i < j {
        assert(pairs[i].0 != site);
    } else if j < i {
        assert(pairs[j].0 != site);
    }
}

/// The count of a callsite that stands first at `i` is the one beside it.
proof fn lemma_count_at_first(pairs: Seq<(Callsite, u32)>, site: Callsite, i: int)
    requires
        first_at(pairs, site, i),
    ensures
        counts_of(pairs).dom().contains(site),
        counts_of(pairs)[site] == pairs[i].1,
{
    let j = choose|j: int| first_at(pairs, site, j);
    lemma_first_unique(pairs, site, i, j);
}

/// Writing `count + 1` beside `site`, where it first stands, counts one more
/// entry at `site`.
proof fn lemma_counts_after_set(
    before: Seq<(Callsite, u32)>,
    site: Callsite,
    i: int,
    scope: ScopeView,
)
    requires
        first_at(before, site, i),
        before[i].1 < u32::MAX,
        scope.counts == counts_of(before),
    ensures
        counts_of(before.update(i, (site, (before[i].1 + 1) as u32))) == scope.incremented(
            site,
        ).counts,
{
    let after = before.update(i, (site, (before[i].1 + 1) as u32));
    let goal = scope.incremented(site).counts;
    lemma_count_at_first(before, site, i);
    assert forall|other: Callsite, k: int| first_at(after, other, k) == first_at(
        before,
        other,
        k,
    ) by {
        if first_at(after, other, k) {
            assert forall|m: int| 0 <= m < k implies (#[trigger] before[m]).0 != other by {
                assert(after[m].0 != other);
            }
        }
        if first_at(before, other, k) {
            assert forall|m: int| 0 <= m < k implies (#[trigger] after[m]).0 != other by {
                assert(before[m].0 != other);
            }
        }
    }
    assert forall|other: Callsite| #[trigger]
        counts_of(after).dom().contains(other) == goal.dom().contains(other) by {
        if counts_of(after).dom().contains(other) {
            let k = choose|k: int| first_at(after, other, k);
            assert(first_at(before, other, k));
        }
        if counts_of(before).dom().contains(other) {
            let k = choose|k: int| first_at(before, other, k);
            assert(first_at(after, other, k));
        }
        if other == site {
            assert(first_at(after, other, i));
        }
    }
    assert forall|other: Callsite| #[trigger]
        counts_of(after).dom().contains(other) implies counts_of(after)[other] == goal[other] by {
        let k = choose|k: int| first_at(after, other, k);
        assert(first_at(before, other, k));
        lemma_count_at_first(after, other, k);
        lemma_count_at_first(before, other, k);
        if other == site {
            lemma_first_unique(before, site, i, k);
        } else {
            assert(k != i);
        }
    }
    assert(counts_of(after) =~= goal);
}

/// Appending `(site, 1)` where `site` does not stand yet counts its first
/// entry.
proof fn lemma_counts_after_push(before: Seq<(Callsite, u32)>, site: Callsite, scope: ScopeView)
    requires
        forall|k: int| 0 <= k < before.len() ==> (#[trigger] before[k]).0 != site,
        scope.counts == counts_of(before),
    ensures
        counts_of(before.push((site, 1u32))) == scope.incremented(site).counts,
{
    let after = before.push((site, 1u32));
    let goal = scope.incremented(site).counts;
    let last = before.len() as int;
    assert(!counts_of(before).dom().contains(site)) by {
        if counts_of(before).dom().contains(site) {
            let k = choose|k: int| first_at(before, site, k);
            assert(before[k].0 != site);
        }
    }
    assert(first_at(after, site, last)) by {
        assert forall|m: int| 0 <= m < last implies (#[trigger] after[m]).0 != site by {
            assert(before[m].0 != site);
        }
    }
    assert forall|other: Callsite, k: int| other != site implies first_at(after, other, k)
        == first_at(before, other, k) by {
        if first_at(after, other, k) {
            assert(k < last);
            assert forall|m: int| 0 <= m < k implies (#[trigger] before[m]).0 != other by {
                assert(after[m].0 != other);
            }
        }
        if first_at(before, other, k) {
            assert forall|m: int| 0 <= m < k implies (#[trigger] after[m]).0 != other by {
                assert(before[m].0 != other);
            }
        }
    }
    assert forall|other: Callsite| #[trigger]
        counts_of(after).dom().contains(other) == goal.dom().contains(other) by {
        if other != site {
            if counts_of(after).dom().contains(other) {
                let k = choose|k: int| first_at(after, other, k);
                assert(first_at(before, other, k));
            }
            if counts_of(before).dom().contains(other) {
                let k = choose|k: int| first_at(before, other, k);
                assert(first_at(after, other, k));
            }
        }
    }
    assert forall|other: Callsite| #[trigger]
        counts_of(after).dom().contains(other) implies counts_of(after)[other] == goal[other] by {
        let k = choose|k: int| first_at(after, other, k);
        lemma_count_at_first(after, other, k);
        if other == site {
            lemma_first_unique(after, site, last, k);
        } else {
            assert(first_at(before, other, k));
            lemma_count_at_first(before, other, k);
        }
    }
    assert(counts_of(after) =~= goal);
}

impl View for Scope {
    type V = ScopeView;

    closed spec fn view(&self) -> ScopeView {
        ScopeView {
            id: self.id,
            callsite: self.callsite,
            counts: counts_of(self.callsite_counts@),
        }
    }
}

impl Scope {
    /// A scope with the given id and callsite in which nothing has been
    /// entered yet.
    pub fn new(id: CallId, callsite: Callsite) -> (scope: Scope)
        ensures
            scope@ == ScopeView::fresh(id, callsite),
    {
        let scope = Scope { id, callsite, callsite_counts: Vec::new() };
        assert(scope@.counts =~= Map::empty());
        scope
    }

    /// The scope's id.
    pub fn id(&self) -> (id: CallId)
        ensures
            id == self@.id,
    {
        self.id
    }

    /// The callsite at which the scope was entered.
    pub fn callsite(&self) -> (callsite: Callsite)
        ensures
            callsite == self@.callsite,
    {
        self.callsite
    }

    /// How often `callsite` has been entered in this scope so far: the slot
    /// that the next entry at `callsite` takes by default.
    pub fn current_count(&self, callsite: Callsite) -> (count: u32)
        ensures
            count == self@.count(callsite),
    {
        let mut i: usize = 0;
        while i < self.callsite_counts.len()
            invariant
                i <= self.callsite_counts.len(),
                forall|k: int| 0 <= k < i ==> (#[trigger] self.callsite_counts@[k]).0 != callsite,
            decreases self.callsite_counts.len() - i,
        {
            if self.callsite_counts[i].0 == callsite {
                proof {
                    lemma_count_at_first(self.callsite_counts@, callsite, i as int);
                }
                return self.callsite_counts[i].1;
            }
            i += 1;
        }
        proof {
            if counts_of(self.callsite_counts@).dom().contains(callsite) {
                let k = choose|k: int| first_at(self.callsite_counts@, callsite, k);
                assert(self.callsite_counts@[k].0 != callsite);
            }
        }
        0
    }

    /// Records one more entry at `callsite`.
    pub fn increment_count(&mut self, callsite: Callsite)
        requires
            old(self)@.count(callsite) < u32::MAX,
        ensures
            final(self)@ == old(self)@.incremented(callsite),
    {
        let mut i: usize = 0;
        while i < self.callsite_counts.len()
            invariant
                i <= self.callsite_counts.len(),
                *self == *old(self),
                old(self)@.count(callsite) < u32::MAX,
                forall|k: int| 0 <= k < i ==> (#[trigger] self.callsite_counts@[k]).0 != callsite,
            decreases self.callsite_counts.len() - i,
        {
            if self.callsite_counts[i].0 == callsite {
                let count: u32 = self.callsite_counts[i].1;
                proof {
                    lemma_count_at_first(self.callsite_counts@, callsite, i as int);
                    lemma_counts_after_set(self.callsite_counts@, callsite, i as int, old(self)@);
                }
                self.callsite_counts.set(i, (callsite, count + 1));
                return ;
            }
            i += 1;
        }
        proof {
            lemma_counts_after_push(self.callsite_counts@, callsite, old(self)@);
        }
        self.callsite_counts.push((callsite, 1));
    }
}

/// The id from which children descend where `current` is the enclosing
/// scope: its id, or the root id where there is none.
pub open spec fn parent_id(current: Option<ScopeView>) -> CallId {
    match current {
        Some(scope) => scope.id,
        None => CallId::spec_root(),
    }
}

/// The slot that an entry at `callsite` takes: the key where one is given,
/// else the number of earlier entries at `callsite` in the enclosing scope.
pub open spec fn slot_taken(
    current: Option<ScopeView>,
    callsite: Callsite,
    key: Option<Seq<u8>>,
) -> SlotView {
    match key {
        Some(bytes) => SlotView::Key(bytes),
        None => SlotView::Count(
            match current {
                Some(scope) => scope.count(callsite) as u32,
                None => 0,
            },
        ),
    }
}

/// The child scope that an entry at `callsite` makes.
pub open spec fn child_of(
    current: Option<ScopeView>,
    callsite: Callsite,
    key: Option<Seq<u8>>,
) -> ScopeView {
    ScopeView::fresh(
        parent_id(current).spec_child(callsite, slot_taken(current, callsite, key)),
        callsite,
    )
}

impl Scope {
    /// Makes the child scope for an entry at `callsite`, and counts the entry
    /// in the enclosing scope `current`, if there is one.
    ///
    /// The entry is not counted where the count has no room to grow: the
    /// enclosing scope is then left as it was.
    pub fn descend(current: Option<&mut Scope>, callsite: Callsite, key: Option<Vec<u8>>) -> (child:
        Scope)
        ensures
            child@ == child_of(
                match current {
                    Some(scope) => Some(scope@),
                    None => None,
                },
                callsite,
                match key {
                    Some(bytes) => Some(bytes@),
                    None => None,
                },
            ),
            match current {
                Some(scope) => final(scope)@ == if scope@.count(callsite) < u32::MAX {
                    scope@.incremented(callsite)
                } else {
                    scope@
                },
                None => true,
            },
    {
        match current {
            Some(scope) => {
                let count = scope.current_count(callsite);
                let parent = scope.id();
                if count < u32::MAX {
                    scope.increment_count(callsite);
                }
                let slot = match key {
                    Some(bytes) => Slot::Key(bytes),
                    None => Slot::Count(count),
                };
                Scope::new(parent.child(callsite, &slot), callsite)
            },
            None => {
                let slot = match key {
                    Some(bytes) => Slot::Key(bytes),
                    None => Slot::Count(0),
                };
                Scope::new(CallId::root().child(callsite, &slot), callsite)
            },
        }
    }
}

impl PartialEq for Scope {
    /// Two scopes are equal when their ids are.
    fn eq(&self, other: &Self) -> (equal: bool) {
        self.id == other.id
    }
}

impl vstd::std_specs::cmp::PartialEqSpecImpl for Scope {
    open spec fn obeys_eq_spec() -> bool {
        true
    }

    open spec fn eq_spec(&self, other: &Self) -> bool {
        self@.id == other@.id
    }
}

impl Default for Scope {
    /// The root scope, in which nothing has been entered yet.
    fn default() -> (scope: Scope)
        ensures
            scope@ == ScopeView::root(),
    {
        Scope::new(CallId::root(), Callsite::root())
    }
}

} // verus!
