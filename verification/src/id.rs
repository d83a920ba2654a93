//! Identifiers of scopes in the call topology.
//!
//! A [`CallId`] is the fingerprint of a parent id, a [`Callsite`] and a
//! [`Slot`], taken with the standard library's default hasher over a fixed
//! sequence of writes.

use std::collections::hash_map::DefaultHasher;
use std::hash::Hasher;
use vstd::bytes::{spec_u32_to_le_bytes, spec_u64_to_le_bytes, u32_to_le_bytes, u64_to_le_bytes};
use vstd::prelude::*;
use vstd::std_specs::hash::DefaultHasherAdditionalSpecFns;

verus! {

/// An opaque token for one syntactic call location.
///
/// Two callsites are equal exactly when their tokens are.
#[derive(Clone, Copy, Debug, PartialEq, Eq, Hash, Structural)]
pub struct Callsite {
    pub token: u64,
}

impl Callsite {
    /// The callsite that carries `token`.
    pub fn new(token: u64) -> (site: Callsite)
        ensures
            site == (Callsite { token }),
    {
        Callsite { token }
    }

    /// The callsite at which [`crate::root`] enters its scope: token 0, which
    /// callers that number their own callsites leave free.
    pub open spec fn spec_root() -> Callsite {
        Callsite { token: 0 }
    }

    /// The callsite at which [`crate::root`] enters its scope.
    #[verifier::when_used_as_spec(spec_root)]
    pub fn root() -> (site: Callsite)
        ensures
            site == Callsite::spec_root(),
    {
        Callsite { token: 0 }
    }
}

/// What tells repeated entries at one callsite apart.
#[derive(Debug)]
pub enum Slot {
    /// How often the callsite had been entered before in the enclosing scope.
    Count(u32),
    /// A key chosen by the caller, as the bytes that are hashed.
    Key(Vec<u8>),
}

/// The mathematical value of a [`Slot`].
pub enum SlotView {
    Count(u32),
    Key(Seq<u8>),
}

impl View for Slot {
    type V = SlotView;

    open spec fn view(&self) -> SlotView {
        match self {
            Slot::Count(n) => SlotView::Count(*n),
            Slot::Key(bytes) => SlotView::Key(bytes@),
        }
    }
}

impl SlotView {
    /// The byte that tells the two kinds of slot apart in the hashed input.
    pub open spec fn tag(self) -> u8 {
        match self {
            SlotView::Count(_) => 0,
            SlotView::Key(_) => 1,
        }
    }

    /// The bytes that stand for the slot's content in the hashed input.
    pub open spec fn payload(self) -> Seq<u8> {
        match self {
            SlotView::Count(n) => spec_u32_to_le_bytes(n),
            SlotView::Key(bytes) => bytes,
        }
    }
}

/// The fingerprint of one scope of the call topology.
#[derive(Clone, Copy, Debug, PartialEq, Eq, Hash, Structural)]
pub struct CallId {
    pub fingerprint: u64,
}

/// The writes that are hashed for the child of `parent` at `callsite` in
/// `slot`: the parent's fingerprint, the callsite's token, the slot's tag and
/// the slot's payload, in this order.
pub open spec fn child_input(parent: CallId, callsite: Callsite, slot: SlotView) -> Seq<Seq<u8>> {
    seq![
        spec_u64_to_le_bytes(parent.fingerprint),
        spec_u64_to_le_bytes(callsite.token),
        seq![slot.tag()],
        slot.payload(),
    ]
}

impl CallId {
    /// The id of the root scope: the fingerprint of no write at all.
    pub open spec fn spec_root() -> CallId {
        CallId { fingerprint: DefaultHasher::spec_finish(Seq::<Seq<u8>>::empty()) }
    }

    /// The id of the child of `self` at `callsite` in `slot`.
    pub open spec fn spec_child(self, callsite: Callsite, slot: SlotView) -> CallId {
        CallId { fingerprint: DefaultHasher::spec_finish(child_input(self, callsite, slot)) }
    }

    /// The id of the root scope.
    #[verifier::when_used_as_spec(spec_root)]
    pub fn root() -> (id: CallId)
        ensures
            id == CallId::spec_root(),
    {
        let hasher = DefaultHasher::new();
        CallId { fingerprint: hasher.finish() }
    }

    /// The id of the child of `self` at `callsite` in `slot`.
    pub fn child(&self, callsite: Callsite, slot: &Slot) -> (id: CallId)
        ensures
            id == self.spec_child(callsite, slot@),
    {
        let mut hasher = DefaultHasher::new();
        let parent_bytes = u64_to_le_bytes(self.fingerprint);
        hasher.write(parent_bytes.as_slice());
        let site_bytes = u64_to_le_bytes(callsite.token);
        hasher.write(site_bytes.as_slice());
        match slot {
            Slot::Count(n) => {
                let tag: Vec<u8> = vec![0u8];
                assert(tag@ =~= seq![slot@.tag()]);
                hasher.write(tag.as_slice());
                let payload = u32_to_le_bytes(*n);
                hasher.write(payload.as_slice());
            },
            Slot::Key(bytes) => {
                let tag: Vec<u8> = vec![1u8];
                assert(tag@ =~= seq![slot@.tag()]);
                hasher.write(tag.as_slice());
                hasher.write(bytes.as_slice());
            },
        }
        proof {
            assert(hasher@ =~= child_input(*self, callsite, slot@));
        }
        CallId { fingerprint: hasher.finish() }
    }
}

/// Whether the hasher tells the two inputs apart, or they are the same input.
pub open spec fn collision_free(a: Seq<Seq<u8>>, b: Seq<Seq<u8>>) -> bool {
    DefaultHasher::spec_finish(a) == DefaultHasher::spec_finish(b) ==> a == b
}

/// The hashed input determines the parent, the callsite and the slot: two
/// inputs are equal only if all three are.
pub proof fn lemma_child_input_injective(
    parent_a: CallId,
    callsite_a: Callsite,
    slot_a: SlotView,
    parent_b: CallId,
    callsite_b: Callsite,
    slot_b: SlotView,
)
    requires
        child_input(parent_a, callsite_a, slot_a) == child_input(parent_b, callsite_b, slot_b),
    ensures
        parent_a == parent_b,
        callsite_a == callsite_b,
        slot_a == slot_b,
{
    let a = child_input(parent_a, callsite_a, slot_a);
    let b = child_input(parent_b, callsite_b, slot_b);
    vstd::bytes::lemma_auto_spec_u64_to_from_le_bytes();
    vstd::bytes::lemma_auto_spec_u32_to_from_le_bytes();
    assert(a[0] == b[0]);
    assert(a[1] == b[1]);
    assert(a[2] == b[2]);
    assert(a[3] == b[3]);
    assert(a[2][0] == b[2][0]);
    assert(slot_a.tag() == slot_b.tag());
    assert(slot_a.payload() == slot_b.payload());
}

/// Successive entries at one callsite of one scope take the counts 0, 1, 2, ..
/// as their slots. Two of them with different counts get different ids,
/// unless the hasher maps their two inputs to one fingerprint.
pub proof fn lemma_counted_children_distinct(parent: CallId, callsite: Callsite, i: u32, j: u32)
    requires
        i != j,
        collision_free(
            child_input(parent, callsite, SlotView::Count(i)),
            child_input(parent, callsite, SlotView::Count(j)),
        ),
    ensures
        parent.spec_child(callsite, SlotView::Count(i)) != parent.spec_child(
            callsite,
            SlotView::Count(j),
        ),
{
    if child_input(parent, callsite, SlotView::Count(i)) == child_input(
        parent,
        callsite,
        SlotView::Count(j),
    ) {
        lemma_child_input_injective(
            parent,
            callsite,
            SlotView::Count(i),
            parent,
            callsite,
            SlotView::Count(j),
        );
    }
}

} // verus!
