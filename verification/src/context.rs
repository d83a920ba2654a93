//! The context stack: a last-in, first-out stack of frames through which the
//! runtime publishes the current [`Scope`] and the current [`Dependent`].
//!
//! A frame says of each kind of value whether it offers one, hides the kind,
//! or lets lookups pass to the frames below it.

use crate::dep_node::Dependent;
use crate::id::{CallId, Callsite, SlotView};
use crate::scope::{Scope, ScopeView};
use vstd::prelude::*;

verus! {

/// What one frame says of one kind of value.
#[derive(Debug)]
pub enum Binding<T> {
    /// The frame says nothing: lookups go on to the frame below.
    Inherit,
    /// Lookups stop here and find nothing.
    Hidden,
    /// Lookups stop here and find the value.
    Bound(T),
}

/// One layer of the context stack.
#[derive(Debug)]
pub struct Frame {
    pub scope: Binding<Scope>,
    pub dependent: Binding<Dependent>,
}

/// The mathematical value of a [`Frame`].
pub struct FrameView {
    pub scope: Binding<ScopeView>,
    pub dependent: Binding<Dependent>,
}

impl View for Frame {
    type V = FrameView;

    open spec fn view(&self) -> FrameView {
        FrameView {
            scope: match self.scope {
                Binding::Inherit => Binding::Inherit,
                Binding::Hidden => Binding::Hidden,
                Binding::Bound(scope) => Binding::Bound(scope@),
            },
            dependent: self.dependent,
        }
    }
}

impl Frame {
    /// A frame that offers and hides nothing.
    pub fn new() -> (frame: Frame)
        ensures
            frame@ == (FrameView { scope: Binding::Inherit, dependent: Binding::Inherit }),
    {
        Frame { scope: Binding::Inherit, dependent: Binding::Inherit }
    }

    /// The frame, offering `scope` as the current scope.
    pub fn offer_scope(self, scope: Scope) -> (frame: Frame)
        ensures
            frame@ == (FrameView { scope: Binding::Bound(scope@), ..self@ }),
    {
        Frame { scope: Binding::Bound(scope), dependent: self.dependent }
    }

    /// The frame, offering `dependent` as the current dependent.
    pub fn offer_dependent(self, dependent: Dependent) -> (frame: Frame)
        ensures
            frame@ == (FrameView { dependent: Binding::Bound(dependent), ..self@ }),
    {
        Frame { scope: self.scope, dependent: Binding::Bound(dependent) }
    }

    /// The frame, hiding whatever scope the frames below it offer.
    pub fn hide_scope(self) -> (frame: Frame)
        ensures
            frame@ == (FrameView { scope: Binding::Hidden, ..self@ }),
    {
        Frame { scope: Binding::Hidden, dependent: self.dependent }
    }

    /// The frame, hiding whatever dependent the frames below it offer.
    pub fn hide_dependent(self) -> (frame: Frame)
        ensures
            frame@ == (FrameView { dependent: Binding::Hidden, ..self@ }),
    {
        Frame { scope: self.scope, dependent: Binding::Hidden }
    }
}

/// The place of the frame at which a lookup of the scope stops: the topmost
/// frame that offers a scope or hides it.
pub open spec fn scope_index(frames: Seq<FrameView>) -> Option<int>
    decreases frames.len(),
{
    if frames.len() == 0 {
        None
    } else if frames.last().scope is Inherit {
        scope_index(frames.drop_last())
    } else {
        Some(frames.len() - 1)
    }
}

/// The scope that a lookup finds: that of the topmost frame that offers or
/// hides one, if it offers one.
pub open spec fn visible_scope(frames: Seq<FrameView>) -> Option<ScopeView> {
    match scope_index(frames) {
        Some(i) => match frames[i].scope {
            Binding::Bound(scope) => Some(scope),
            _ => None,
        },
        None => None,
    }
}

/// The dependent that a lookup finds: that of the topmost frame that offers
/// or hides one, if it offers one.
pub open spec fn visible_dependent(frames: Seq<FrameView>) -> Option<Dependent>
    decreases frames.len(),
{
    if frames.len() == 0 {
        None
    } else {
        match frames.last().dependent {
            Binding::Inherit => visible_dependent(frames.drop_last()),
            Binding::Hidden => None,
            Binding::Bound(dependent) => Some(dependent),
        }
    }
}

/// The scope in which code runs: the visible one, or the root scope where
/// none is visible.
pub open spec fn current_scope(frames: Seq<FrameView>) -> ScopeView {
    match visible_scope(frames) {
        Some(scope) => scope,
        None => ScopeView::root(),
    }
}

/// The id of the scope in which code runs.
pub open spec fn current_id(frames: Seq<FrameView>) -> CallId {
    current_scope(frames).id
}

/// The stack without its top frame; the empty stack stays empty.
pub open spec fn popped(frames: Seq<FrameView>) -> Seq<FrameView> {
    if frames.len() == 0 {
        frames
    } else {
        frames.drop_last()
    }
}

/// The stack after one more entry at `callsite` was counted in the visible
/// scope. Where no scope is visible nothing is counted: the root scope that
/// stands in is made anew for each entry.
pub open spec fn bumped(frames: Seq<FrameView>, callsite: Callsite) -> Seq<FrameView> {
    match scope_index(frames) {
        Some(i) => match frames[i].scope {
            Binding::Bound(scope) => frames.update(
                i,
                FrameView { scope: Binding::Bound(scope.incremented(callsite)), ..frames[i] },
            ),
            _ => frames,
        },
        None => frames,
    }
}

/// The frame that an entry at `callsite` in `slot` puts on the stack: it
/// offers the child scope, in which nothing has been entered yet.
pub open spec fn child_frame(frames: Seq<FrameView>, callsite: Callsite, slot: SlotView) -> FrameView {
    FrameView {
        scope: Binding::Bound(
            ScopeView::fresh(current_id(frames).spec_child(callsite, slot), callsite),
        ),
        dependent: Binding::Inherit,
    }
}

/// The stack as the body of a child scope finds it: the entry is counted in
/// the enclosing scope, and the child's frame is on top.
pub open spec fn descended(frames: Seq<FrameView>, callsite: Callsite, slot: SlotView) -> Seq<
    FrameView,
> {
    bumped(frames, callsite).push(child_frame(frames, callsite, slot))
}

/// The slot that an entry at `callsite` takes by default: the number of earlier
/// entries at `callsite` in the current scope.
pub open spec fn default_slot(frames: Seq<FrameView>, callsite: Callsite) -> SlotView {
    SlotView::Count(current_scope(frames).count(callsite) as u32)
}

/// The stack as the body of a child scope in the default slot finds it.
pub open spec fn entered(frames: Seq<FrameView>, callsite: Callsite) -> Seq<FrameView> {
    descended(frames, callsite, default_slot(frames, callsite))
}

/// The frame that hides the scope and says nothing else.
pub open spec fn hiding_frame() -> FrameView {
    FrameView { scope: Binding::Hidden, dependent: Binding::Inherit }
}

/// The frame that offers `dependent` and says nothing else.
pub open spec fn dependent_frame(dependent: Dependent) -> FrameView {
    FrameView { scope: Binding::Inherit, dependent: Binding::Bound(dependent) }
}

/// Two frames say the same but for the counts of the scope they offer.
pub open spec fn same_frame(a: FrameView, b: FrameView) -> bool {
    &&& a.dependent == b.dependent
    &&& match (a.scope, b.scope) {
        (Binding::Inherit, Binding::Inherit) => true,
        (Binding::Hidden, Binding::Hidden) => true,
        (Binding::Bound(x), Binding::Bound(y)) => x.id == y.id && x.callsite == y.callsite,
        _ => false,
    }
}

/// Two stacks publish the same: they have the same frames but for the counts
/// of their scopes.
pub open spec fn same_scopes(after: Seq<FrameView>, before: Seq<FrameView>) -> bool {
    &&& after.len() == before.len()
    &&& forall|i: int| 0 <= i < before.len() ==> same_frame(#[trigger] after[i], before[i])
}

/// Publishing the same carries over from stack to stack.
pub proof fn lemma_same_scopes_transitive(
    a: Seq<FrameView>,
    b: Seq<FrameView>,
    c: Seq<FrameView>,
)
    requires
        same_scopes(a, b),
        same_scopes(b, c),
    ensures
        same_scopes(a, c),
{
    assert forall|i: int| 0 <= i < c.len() implies same_frame(#[trigger] a[i], c[i]) by {
        assert(same_frame(a[i], b[i]));
        assert(same_frame(b[i], c[i]));
    }
}

/// Stacks that publish the same still do so without their top frames.
pub proof fn lemma_same_scopes_popped(a: Seq<FrameView>, b: Seq<FrameView>)
    requires
        same_scopes(a, b),
    ensures
        same_scopes(popped(a), popped(b)),
{
    if b.len() > 0 {
        assert forall|i: int| 0 <= i < popped(b).len() implies same_frame(
            #[trigger] popped(a)[i],
            popped(b)[i],
        ) by {
            assert(same_frame(a[i], b[i]));
        }
    }
}

/// Lookups of the scope stop at the same frame in stacks that publish the
/// same.
pub proof fn lemma_same_scopes_index(a: Seq<FrameView>, b: Seq<FrameView>)
    requires
        same_scopes(a, b),
    ensures
        scope_index(a) == scope_index(b),
    decreases b.len(),
{
    if b.len() > 0 {
        assert(same_frame(a[a.len() - 1], b[b.len() - 1]));
        if b.last().scope is Inherit {
            lemma_same_scopes_popped(a, b);
            lemma_same_scopes_index(a.drop_last(), b.drop_last());
        }
    }
}

/// Stacks that publish the same have the same current id, current callsite
/// and current dependent.
pub proof fn lemma_same_scopes_publish(a: Seq<FrameView>, b: Seq<FrameView>)
    requires
        same_scopes(a, b),
    ensures
        current_id(a) == current_id(b),
        current_scope(a).callsite == current_scope(b).callsite,
        visible_scope(a) is Some <==> visible_scope(b) is Some,
        visible_dependent(a) == visible_dependent(b),
    decreases b.len(),
{
    lemma_same_scopes_index(a, b);
    lemma_scope_index_bounds(b);
    match scope_index(b) {
        Some(i) => {
            assert(same_frame(a[i], b[i]));
        },
        None => {},
    }
    if b.len() > 0 {
        assert(same_frame(a[a.len() - 1], b[b.len() - 1]));
        lemma_same_scopes_popped(a, b);
        lemma_same_scopes_publish(a.drop_last(), b.drop_last());
    }
}

/// The place at which lookups of the scope stop lies on the stack.
pub proof fn lemma_scope_index_bounds(frames: Seq<FrameView>)
    ensures
        scope_index(frames) matches Some(i) ==> 0 <= i < frames.len() && !(frames[i].scope
            is Inherit),
    decreases frames.len(),
{
    if frames.len() > 0 && frames.last().scope is Inherit {
        lemma_scope_index_bounds(frames.drop_last());
    }
}

/// Counting an entry changes no id: the stack publishes the same as before.
pub proof fn lemma_bumped_same_scopes(frames: Seq<FrameView>, callsite: Callsite)
    ensures
        same_scopes(bumped(frames, callsite), frames),
{
    lemma_scope_index_bounds(frames);
}

/// Last in, first out: a frame that is put on a stack and taken off again
/// leaves the stack as it was.
pub proof fn lemma_push_pop(frames: Seq<FrameView>, frame: FrameView)
    ensures
        popped(frames.push(frame)) == frames,
{
    assert(frames.push(frame).drop_last() =~= frames);
}

/// The id that is reached from `start` by entering the callsites and slots of
/// `path` one inside the other.
pub open spec fn path_id(start: CallId, path: Seq<(Callsite, SlotView)>) -> CallId
    decreases path.len(),
{
    if path.len() == 0 {
        start
    } else {
        path_id(start, path.drop_last()).spec_child(path.last().0, path.last().1)
    }
}

/// The stack after the callsites and slots of `path` were entered one inside
/// the other.
pub open spec fn descended_along(frames: Seq<FrameView>, path: Seq<(Callsite, SlotView)>) -> Seq<
    FrameView,
>
    decreases path.len(),
{
    if path.len() == 0 {
        frames
    } else {
        descended(descended_along(frames, path.drop_last()), path.last().0, path.last().1)
    }
}

/// Inside a child scope the current id is the fingerprint of the id outside,
/// the callsite and the slot, and nothing has been entered yet.
pub proof fn lemma_descended_id(frames: Seq<FrameView>, callsite: Callsite, slot: SlotView)
    ensures
        current_id(descended(frames, callsite, slot)) == current_id(frames).spec_child(
            callsite,
            slot,
        ),
        current_scope(descended(frames, callsite, slot)).counts == Map::<Callsite, nat>::empty(),
{
    let entered = descended(frames, callsite, slot);
    assert(entered.last() == child_frame(frames, callsite, slot));
}

/// Stability: the id of a scope depends on nothing but the id from which the
/// descent started and the callsites and slots on the way. Two runs that
/// start from scopes with the same id and enter the same callsites and slots
/// see the same id at every point.
pub proof fn lemma_ids_are_stable(
    a: Seq<FrameView>,
    b: Seq<FrameView>,
    path: Seq<(Callsite, SlotView)>,
)
    requires
        current_id(a) == current_id(b),
    ensures
        current_id(descended_along(a, path)) == path_id(current_id(a), path),
        current_id(descended_along(a, path)) == current_id(descended_along(b, path)),
    decreases path.len(),
{
    if path.len() > 0 {
        lemma_ids_are_stable(a, b, path.drop_last());
        lemma_descended_id(descended_along(a, path.drop_last()), path.last().0, path.last().1);
        lemma_descended_id(descended_along(b, path.drop_last()), path.last().0, path.last().1);
    }
}

/// The slot that an entry at `callsite` takes: the key where one is given,
/// else the default slot.
pub open spec fn entry_slot(
    frames: Seq<FrameView>,
    callsite: Callsite,
    key: Option<Seq<u8>>,
) -> SlotView {
    match key {
        Some(bytes) => SlotView::Key(bytes),
        None => default_slot(frames, callsite),
    }
}

/// The stack after the entries of `steps` were made one inside the other,
/// each at its callsite, with its key or in the default slot.
pub open spec fn entered_along(
    frames: Seq<FrameView>,
    steps: Seq<(Callsite, Option<Seq<u8>>)>,
) -> Seq<FrameView>
    decreases steps.len(),
{
    if steps.len() == 0 {
        frames
    } else {
        let outer = entered_along(frames, steps.drop_last());
        descended(outer, steps.last().0, entry_slot(outer, steps.last().0, steps.last().1))
    }
}

/// Stability, with default slots: two runs that start in scopes with the same
/// id and the same counts, and make the same entries one inside the other,
/// with the same keys or in the default slot, are in scopes with the same id
/// and the same counts afterwards. What else the stacks hold, and what the
/// bodies have at hand besides the slot, has no part in it.
pub proof fn lemma_entries_are_stable(
    a: Seq<FrameView>,
    b: Seq<FrameView>,
    steps: Seq<(Callsite, Option<Seq<u8>>)>,
)
    requires
        current_id(a) == current_id(b),
        current_scope(a).counts == current_scope(b).counts,
    ensures
        current_id(entered_along(a, steps)) == current_id(entered_along(b, steps)),
        current_scope(entered_along(a, steps)).counts == current_scope(
            entered_along(b, steps),
        ).counts,
    decreases steps.len(),
{
    if steps.len() > 0 {
        let rest = steps.drop_last();
        lemma_entries_are_stable(a, b, rest);
        let outer_a = entered_along(a, rest);
        let outer_b = entered_along(b, rest);
        let callsite = steps.last().0;
        assert(entry_slot(outer_a, callsite, steps.last().1) == entry_slot(
            outer_b,
            callsite,
            steps.last().1,
        ));
        lemma_descended_id(outer_a, callsite, entry_slot(outer_a, callsite, steps.last().1));
        lemma_descended_id(outer_b, callsite, entry_slot(outer_b, callsite, steps.last().1));
    }
}

/// Each entry at a callsite is counted: in a visible scope the next default
/// slot at that callsite is one higher, and those at other callsites stay.
pub proof fn lemma_bumped_counts(frames: Seq<FrameView>, callsite: Callsite, other: Callsite)
    requires
        visible_scope(frames) is Some,
    ensures
        current_scope(bumped(frames, callsite)).count(callsite) == current_scope(frames).count(
            callsite,
        ) + 1,
        other != callsite ==> current_scope(bumped(frames, callsite)).count(other)
            == current_scope(frames).count(other),
        current_id(bumped(frames, callsite)) == current_id(frames),
{
    lemma_scope_index_bounds(frames);
    lemma_bumped_same_scopes(frames, callsite);
    lemma_same_scopes_index(bumped(frames, callsite), frames);
}

/// Uniqueness at a callsite: of two successive entries at one callsite of a
/// visible scope, the second takes the next count as its slot, and the two
/// children get different ids unless the hasher maps their two inputs to one
/// fingerprint.
pub proof fn lemma_successive_entries_differ(frames: Seq<FrameView>, callsite: Callsite)
    requires
        visible_scope(frames) is Some,
        current_scope(frames).count(callsite) + 1 < u32::MAX,
        crate::id::collision_free(
            crate::id::child_input(current_id(frames), callsite, default_slot(frames, callsite)),
            crate::id::child_input(
                current_id(frames),
                callsite,
                SlotView::Count((current_scope(frames).count(callsite) + 1) as u32),
            ),
        ),
    ensures
        default_slot(bumped(frames, callsite), callsite) == SlotView::Count(
            (current_scope(frames).count(callsite) + 1) as u32,
        ),
        current_id(entered(frames, callsite)) != current_id(
            entered(bumped(frames, callsite), callsite),
        ),
{
    let count = current_scope(frames).count(callsite) as u32;
    lemma_bumped_counts(frames, callsite, callsite);
    lemma_descended_id(frames, callsite, default_slot(frames, callsite));
    lemma_descended_id(
        bumped(frames, callsite),
        callsite,
        default_slot(bumped(frames, callsite), callsite),
    );
    crate::id::lemma_counted_children_distinct(
        current_id(frames),
        callsite,
        count,
        (count + 1) as u32,
    );
}

/// Last in, first out, for scopes: when a child scope is left, whether its
/// body succeeded or failed, the stack publishes what it published before the
/// child was entered, if the body has taken off every frame that it put on.
pub proof fn lemma_exit_restores_scope(
    frames: Seq<FrameView>,
    callsite: Callsite,
    slot: SlotView,
    left: Seq<FrameView>,
)
    requires
        same_scopes(left, descended(frames, callsite, slot)),
    ensures
        same_scopes(popped(left), frames),
        popped(left).len() == frames.len(),
        current_id(popped(left)) == current_id(frames),
        current_scope(popped(left)).callsite == current_scope(frames).callsite,
        visible_dependent(popped(left)) == visible_dependent(frames),
{
    let inside = descended(frames, callsite, slot);
    lemma_same_scopes_popped(left, inside);
    lemma_push_pop(bumped(frames, callsite), child_frame(frames, callsite, slot));
    lemma_bumped_same_scopes(frames, callsite);
    lemma_same_scopes_transitive(popped(left), bumped(frames, callsite), frames);
    lemma_same_scopes_publish(popped(left), frames);
}

/// The context stack.
#[derive(Debug)]
pub struct Context {
    frames: Vec<Frame>,
}

impl View for Context {
    type V = Seq<FrameView>;

    closed spec fn view(&self) -> Seq<FrameView> {
        Seq::new(self.frames@.len(), |i: int| self.frames@[i]@)
    }
}

impl Context {
    /// A stack without frames.
    pub fn new() -> (ctx: Context)
        ensures
            ctx@ == Seq::<FrameView>::empty(),
    {
        let ctx = Context { frames: Vec::new() };
        assert(ctx@ =~= Seq::empty());
        ctx
    }

    /// The number of frames on the stack.
    pub fn depth(&self) -> (depth: usize)
        ensures
            depth == self@.len(),
    {
        self.frames.len()
    }

    /// Puts `frame` on top of the stack.
    pub fn push(&mut self, frame: Frame)
        ensures
            final(self)@ == old(self)@.push(frame@),
    {
        self.frames.push(frame);
        assert(self@ =~= old(self)@.push(frame@));
    }

    /// Takes the top frame off the stack and returns it; `None` where the
    /// stack is empty.
    pub fn pop(&mut self) -> (frame: Option<Frame>)
        ensures
            final(self)@ == popped(old(self)@),
            old(self)@.len() == 0 <==> frame is None,
            frame matches Some(top) ==> top@ == old(self)@.last(),
    {
        let frame = self.frames.pop();
        assert(self@ =~= popped(old(self)@));
        frame
    }

    /// Looks the current scope up: the nearest one from the top of the stack
    /// that no frame hides.
    pub fn get_scope(&self) -> (scope: Option<&Scope>)
        ensures
            match scope {
                Some(s) => visible_scope(self@) == Some(s@),
                None => visible_scope(self@) is None,
            },
    {
        let mut i: usize = self.frames.len();
        assert(self@.take(i as int) =~= self@);
        while i > 0
            invariant
                i <= self.frames.len(),
                scope_index(self@) == scope_index(self@.take(i as int)),
            decreases i,
        {
            assert(self@.take(i as int).drop_last() =~= self@.take(i - 1));
            match &self.frames[i - 1].scope {
                Binding::Bound(scope) => {
                    return Some(scope);
                },
                Binding::Hidden => {
                    return None;
                },
                Binding::Inherit => {},
            }
            i -= 1;
        }
        None
    }

    /// Looks the current dependent up: the nearest one from the top of the
    /// stack that no frame hides.
    pub fn get_dependent(&self) -> (dependent: Option<Dependent>)
        ensures
            dependent == visible_dependent(self@),
    {
        let mut i: usize = self.frames.len();
        assert(self@.take(i as int) =~= self@);
        while i > 0
            invariant
                i <= self.frames.len(),
                visible_dependent(self@) == visible_dependent(self@.take(i as int)),
            decreases i,
        {
            assert(self@.take(i as int).drop_last() =~= self@.take(i - 1));
            match self.frames[i - 1].dependent {
                Binding::Bound(dependent) => {
                    return Some(dependent);
                },
                Binding::Hidden => {
                    return None;
                },
                Binding::Inherit => {},
            }
            i -= 1;
        }
        None
    }

    /// Hides the scope in the current frame: until that frame is taken off,
    /// lookups of the scope find nothing. Without a frame there is nothing to
    /// hide, and nothing changes.
    pub fn hide_scope(&mut self)
        ensures
            old(self)@.len() == 0 ==> final(self)@ == old(self)@,
            old(self)@.len() > 0 ==> final(self)@ == old(self)@.update(
                old(self)@.len() - 1,
                FrameView { scope: Binding::Hidden, ..old(self)@.last() },
            ),
            visible_scope(final(self)@) is None,
    {
        let n = self.frames.len();
        if n > 0 {
            self.frames[n - 1].scope = Binding::Hidden;
            assert(self@ =~= old(self)@.update(
                n - 1,
                FrameView { scope: Binding::Hidden, ..old(self)@.last() },
            ));
        }
    }

    /// Hides the dependent in the current frame: until that frame is taken
    /// off, lookups of the dependent find nothing. Without a frame there is
    /// nothing to hide, and nothing changes.
    pub fn hide_dependent(&mut self)
        ensures
            old(self)@.len() == 0 ==> final(self)@ == old(self)@,
            old(self)@.len() > 0 ==> final(self)@ == old(self)@.update(
                old(self)@.len() - 1,
                FrameView { dependent: Binding::Hidden, ..old(self)@.last() },
            ),
            visible_dependent(final(self)@) is None,
    {
        let n = self.frames.len();
        if n > 0 {
            self.frames[n - 1].dependent = Binding::Hidden;
            assert(self@ =~= old(self)@.update(
                n - 1,
                FrameView { dependent: Binding::Hidden, ..old(self)@.last() },
            ));
        }
    }

    /// Runs `op` with `frame` on top of the stack, and takes the top frame
    /// off when `op` has returned, whatever it returned.
    pub fn enter<F, R>(&mut self, frame: Frame, op: F) -> (r: R) where F: FnOnce(&mut Context) -> R
        requires
            forall|c: &mut Context| c@ == old(self)@.push(frame@) ==> op.requires((c,)),
        ensures
            exists|c: &mut Context|
                {
                    &&& c@ == old(self)@.push(frame@)
                    &&& #[trigger] op.ensures((c,), r)
                    &&& final(self)@ == popped(final(c)@)
                },
            (forall|c: &mut Context, x: R|
                c@ == old(self)@.push(frame@) && #[trigger] op.ensures((c,), x) ==> same_scopes(
                    final(c)@,
                    c@,
                )) ==> same_scopes(final(self)@, old(self)@),
    {
        self.push(frame);
        let r = op(self);
        self.pop();
        r
    }

    /// The place of the frame at which a lookup of the scope stops.
    fn scope_position(&self) -> (place: Option<usize>)
        ensures
            match place {
                Some(i) => scope_index(self@) == Some(i as int) && i < self@.len(),
                None => scope_index(self@) is None,
            },
    {
        let mut i: usize = self.frames.len();
        assert(self@.take(i as int) =~= self@);
        while i > 0
            invariant
                i <= self.frames.len(),
                scope_index(self@) == scope_index(self@.take(i as int)),
            decreases i,
        {
            assert(self@.take(i as int).drop_last() =~= self@.take(i - 1));
            match &self.frames[i - 1].scope {
                Binding::Inherit => {},
                _ => {
                    return Some(i - 1);
                },
            }
            i -= 1;
        }
        None
    }

    /// Counts one more entry at `callsite` in the visible scope. Where no
    /// scope is visible nothing changes.
    pub fn increment_count(&mut self, callsite: Callsite)
        requires
            current_scope(old(self)@).count(callsite) < u32::MAX,
        ensures
            final(self)@ == bumped(old(self)@, callsite),
    {
        match self.scope_position() {
            Some(i) => {
                match &mut self.frames[i].scope {
                    Binding::Bound(scope) => {
                        scope.increment_count(callsite);
                    },
                    _ => {},
                }
                assert(self@ =~= bumped(old(self)@, callsite));
            },
            None => {},
        }
    }
}

} // verus!
