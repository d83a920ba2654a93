//! An incremental call-topology runtime.
//!
//! Every scope that a program enters gets a [`CallId`]: the fingerprint of
//! the path of callsites and slots that leads to it. The ids are the same on
//! every run along the same path. A cache keeps values per scope and key, and
//! drops at each sweep what was not reached since the sweep before.
//!
//! The runtime comes in two forms.
//!
//! - With the context handed down: [`call`], [`call_in_slot`] and [`root`]
//!   take the [`Context`], a stack of frames, and hand it to their bodies;
//!   [`cache::Cache`] is owned by one caller. The contracts say exactly which
//!   scope a body runs in and what the stack and the cache hold afterwards.
//! - With the context kept per thread: the functions of [`ambient`] publish
//!   the current scope through `illicit`, and [`shared::SharedCache`] stands
//!   behind a mutex of `parking_lot`. They compute what the first form
//!   computes, but what the thread or another owner has published at a given
//!   moment is beyond the verifier, and their contracts do not speak of it.

pub mod ambient;
pub mod cache;
pub mod context;
pub mod dep_node;
pub mod id;
pub mod scope;
pub mod shared;

pub use crate::context::Context;
pub use crate::id::{CallId, Callsite, Slot};
pub use crate::scope::Scope;

use crate::context::{
    bumped, current_id, current_scope, default_slot, descended, entered, hiding_frame,
    lemma_bumped_same_scopes, lemma_descended_id, lemma_push_pop, lemma_same_scopes_popped,
    lemma_same_scopes_transitive, popped, same_scopes, visible_scope, Frame, FrameView,
};
use crate::id::SlotView;
use vstd::prelude::*;

verus! {

impl Scope {
    /// Runs `op` with the current scope: the one that `ctx` publishes, or a
    /// root scope made for this call where it publishes none.
    pub fn with_current<F, Out>(ctx: &Context, op: F) -> (out: Out) where F: FnOnce(&Scope) -> Out
        requires
            forall|scope: &Scope| scope@ == current_scope(ctx@) ==> op.requires((scope,)),
        ensures
            exists|scope: &Scope| scope@ == current_scope(ctx@) && #[trigger] op.ensures((scope,), out),
    {
        match ctx.get_scope() {
            Some(current) => op(current),
            None => {
                let root = Scope::default();
                op(&root)
            },
        }
    }

    /// Enters the child of the current scope at `callsite` in `slot` and runs
    /// `child` in it.
    ///
    /// The entry is counted in the current scope. The child's id is the
    /// fingerprint of the current id, `callsite` and `slot`. The child's frame
    /// is on top of the stack while `child` runs and is taken off when it has
    /// returned, whatever it returned.
    pub fn enter_child<C, R>(ctx: &mut Context, callsite: Callsite, slot: &Slot, child: C) -> (r: R) where
        C: FnOnce(&mut Context) -> R,
        requires
            current_scope(old(ctx)@).count(callsite) < u32::MAX,
            forall|c: &mut Context|
                c@ == descended(old(ctx)@, callsite, slot@) ==> child.requires((c,)),
        ensures
            exists|c: &mut Context|
                {
                    &&& c@ == descended(old(ctx)@, callsite, slot@)
                    &&& #[trigger] child.ensures((c,), r)
                    &&& final(ctx)@ == popped(final(c)@)
                },
            (forall|c: &mut Context, x: R|
                c@ == descended(old(ctx)@, callsite, slot@) && #[trigger] child.ensures((c,), x)
                    ==> same_scopes(final(c)@, c@)) ==> same_scopes(final(ctx)@, old(ctx)@),
    {
        let parent = CallId::current(ctx);
        ctx.increment_count(callsite);
        let child_point = Scope::new(parent.child(callsite, slot), callsite);
        let r = ctx.enter(Frame::new().offer_scope(child_point), child);
        proof {
            lemma_bumped_same_scopes(old(ctx)@, callsite);
            if same_scopes(ctx@, bumped(old(ctx)@, callsite)) {
                lemma_same_scopes_transitive(ctx@, bumped(old(ctx)@, callsite), old(ctx)@);
            }
        }
        r
    }
}

impl CallId {
    /// The id of the current scope; the root id where `ctx` publishes no
    /// scope.
    pub fn current(ctx: &Context) -> (id: CallId)
        ensures
            id == current_id(ctx@),
    {
        Scope::with_current(ctx, Scope::id)
    }
}

/// Runs `op` in the child of the current scope at `callsite`. The slot is the
/// number of times that `callsite` has been entered in the current scope
/// before.
pub fn call<F, R>(ctx: &mut Context, callsite: Callsite, op: F) -> (r: R) where
    F: FnOnce(&mut Context) -> R,
    requires
        current_scope(old(ctx)@).count(callsite) < u32::MAX,
        forall|c: &mut Context| c@ == entered(old(ctx)@, callsite) ==> op.requires((c,)),
    ensures
        exists|c: &mut Context|
            {
                &&& c@ == entered(old(ctx)@, callsite)
                &&& #[trigger] op.ensures((c,), r)
                &&& final(ctx)@ == popped(final(c)@)
            },
        (forall|c: &mut Context, x: R|
            c@ == entered(old(ctx)@, callsite) && #[trigger] op.ensures((c,), x) ==> same_scopes(
                final(c)@,
                c@,
            )) ==> same_scopes(final(ctx)@, old(ctx)@),
{
    let counting = |parent: &Scope| -> (count: u32)
        ensures
            count == parent@.count(callsite),
    {
        parent.current_count(callsite)
    };
    let count = Scope::with_current(ctx, counting);
    let slot = Slot::Count(count);
    Scope::enter_child(ctx, callsite, &slot, op)
}

/// Runs `op` in the child of the current scope at `callsite`, with the bytes
/// of `slot` as the slot. Entering the same slot again gives the same id.
pub fn call_in_slot<F, R>(ctx: &mut Context, callsite: Callsite, slot: &[u8], op: F) -> (r: R) where
    F: FnOnce(&mut Context) -> R,
    requires
        current_scope(old(ctx)@).count(callsite) < u32::MAX,
        forall|c: &mut Context|
            c@ == descended(old(ctx)@, callsite, SlotView::Key(slot@)) ==> op.requires((c,)),
    ensures
        exists|c: &mut Context|
            {
                &&& c@ == descended(old(ctx)@, callsite, SlotView::Key(slot@))
                &&& #[trigger] op.ensures((c,), r)
                &&& final(ctx)@ == popped(final(c)@)
            },
        (forall|c: &mut Context, x: R|
            c@ == descended(old(ctx)@, callsite, SlotView::Key(slot@)) && #[trigger] op.ensures(
                (c,),
                x,
            ) ==> same_scopes(final(c)@, c@)) ==> same_scopes(final(ctx)@, old(ctx)@),
{
    let key = Slot::Key(vstd::slice::slice_to_vec(slot));
    Scope::enter_child(ctx, callsite, &key, op)
}

/// The stack as the body of [`root`] finds it: the scope is hidden, and on
/// top of that stands the frame of the first child of the root scope.
pub open spec fn rooted(frames: Seq<FrameView>) -> Seq<FrameView> {
    entered(frames.push(hiding_frame()), Callsite::spec_root())
}

/// Root invariance: whatever stack [`root`] is called on, its body runs in the
/// same scope, the first child of the root scope.
pub proof fn lemma_root_is_invariant(a: Seq<FrameView>, b: Seq<FrameView>)
    ensures
        current_id(rooted(a)) == current_id(rooted(b)),
        current_id(rooted(a)) == CallId::spec_root().spec_child(
            Callsite::spec_root(),
            SlotView::Count(0),
        ),
{
    lemma_hidden_is_root(a);
    lemma_hidden_is_root(b);
    lemma_descended_id(a.push(hiding_frame()), Callsite::spec_root(), SlotView::Count(0));
    lemma_descended_id(b.push(hiding_frame()), Callsite::spec_root(), SlotView::Count(0));
    assert(default_slot(a.push(hiding_frame()), Callsite::spec_root()) == SlotView::Count(0));
    assert(default_slot(b.push(hiding_frame()), Callsite::spec_root()) == SlotView::Count(0));
}

/// Under a frame that hides the scope, code runs in the root scope.
proof fn lemma_hidden_is_root(frames: Seq<FrameView>)
    ensures
        visible_scope(frames.push(hiding_frame())) is None,
        current_scope(frames.push(hiding_frame())) == crate::scope::ScopeView::root(),
{
    let hidden = frames.push(hiding_frame());
    assert(hidden.last() == hiding_frame());
}

/// Runs `op` as the root of a call tree of its own: the current scope is
/// hidden while `op` runs, so the ids that `op` sees do not depend on where
/// `root` was called from. The hidden scope is visible again afterwards.
pub fn root<F, R>(ctx: &mut Context, op: F) -> (r: R) where F: FnOnce(&mut Context) -> R
    requires
        forall|c: &mut Context| c@ == rooted(old(ctx)@) ==> op.requires((c,)),
    ensures
        exists|c: &mut Context|
            {
                &&& c@ == rooted(old(ctx)@)
                &&& #[trigger] op.ensures((c,), r)
                &&& final(ctx)@ == popped(popped(final(c)@))
            },
        (forall|c: &mut Context, x: R|
            c@ == rooted(old(ctx)@) && #[trigger] op.ensures((c,), x) ==> same_scopes(
                final(c)@,
                c@,
            )) ==> same_scopes(final(ctx)@, old(ctx)@),
{
    ctx.push(Frame::new().hide_scope());
    let ghost hidden = ctx@;
    let r = call(ctx, Callsite::root(), op);
    let ghost returned = ctx@;
    ctx.pop();
    proof {
        lemma_push_pop(old(ctx)@, hiding_frame());
        if same_scopes(returned, hidden) {
            lemma_same_scopes_popped(returned, hidden);
        }
    }
    r
}

} // verus!
