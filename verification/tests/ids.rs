use std::collections::hash_map::DefaultHasher;
use std::hash::Hasher;
use topo::{call, call_in_slot, root, CallId, Callsite, Context, Scope, Slot};

fn fingerprint(parent: u64, callsite: u64, tag: u8, payload: &[u8]) -> u64 {
    let mut hasher = DefaultHasher::new();
    hasher.write(&parent.to_le_bytes());
    hasher.write(&callsite.to_le_bytes());
    hasher.write(&[tag]);
    hasher.write(payload);
    hasher.finish()
}

#[test]
fn root_id_is_the_fingerprint_of_nothing() {
    assert_eq!(CallId::root().fingerprint, DefaultHasher::new().finish());
    assert_eq!(CallId::root(), CallId::root());
}

#[test]
fn child_id_hashes_parent_callsite_tag_and_payload_in_order() {
    let parent = CallId { fingerprint: 11 };
    let counted = parent.child(Callsite::new(22), &Slot::Count(3));
    assert_eq!(counted.fingerprint, fingerprint(11, 22, 0, &3u32.to_le_bytes()));
    let keyed = parent.child(Callsite::new(22), &Slot::Key(b"name".to_vec()));
    assert_eq!(keyed.fingerprint, fingerprint(11, 22, 1, b"name"));
    assert_ne!(counted, keyed);
}

#[test]
fn child_id_depends_on_each_of_its_three_inputs() {
    let base = CallId { fingerprint: 1 }.child(Callsite::new(2), &Slot::Count(3));
    assert_ne!(base, CallId { fingerprint: 9 }.child(Callsite::new(2), &Slot::Count(3)));
    assert_ne!(base, CallId { fingerprint: 1 }.child(Callsite::new(9), &Slot::Count(3)));
    assert_ne!(base, CallId { fingerprint: 1 }.child(Callsite::new(2), &Slot::Count(9)));
    assert_eq!(base, CallId { fingerprint: 1 }.child(Callsite::new(2), &Slot::Count(3)));
}

#[test]
fn call_enters_the_child_at_the_count_of_earlier_entries() {
    let mut ctx = Context::new();
    call(&mut ctx, Callsite::new(5), |ctx| {
        let parent = CallId::current(ctx);
        assert_eq!(parent, CallId::root().child(Callsite::new(5), &Slot::Count(0)));
        for n in 0..4u32 {
            let id = call(ctx, Callsite::new(6), |ctx| CallId::current(ctx));
            assert_eq!(id, parent.child(Callsite::new(6), &Slot::Count(n)));
            let other = call(ctx, Callsite::new(7), |ctx| CallId::current(ctx));
            assert_eq!(other, parent.child(Callsite::new(7), &Slot::Count(n)));
        }
    });
}

#[test]
fn call_outside_of_any_scope_starts_from_a_fresh_root_each_time() {
    let mut ctx = Context::new();
    let first = call(&mut ctx, Callsite::new(5), |ctx| CallId::current(ctx));
    let second = call(&mut ctx, Callsite::new(5), |ctx| CallId::current(ctx));
    assert_eq!(first, second);
    assert_eq!(first, CallId::root().child(Callsite::new(5), &Slot::Count(0)));
}

#[test]
fn call_in_slot_enters_the_child_at_the_key() {
    let mut ctx = Context::new();
    let id = call_in_slot(&mut ctx, Callsite::new(5), b"key", |ctx| CallId::current(ctx));
    assert_eq!(id, CallId::root().child(Callsite::new(5), &Slot::Key(b"key".to_vec())));
    let empty = call_in_slot(&mut ctx, Callsite::new(5), b"", |ctx| CallId::current(ctx));
    assert_eq!(empty, CallId::root().child(Callsite::new(5), &Slot::Key(Vec::new())));
    assert_ne!(id, empty);
}

#[test]
fn root_enters_the_first_child_of_the_root_scope() {
    let mut ctx = Context::new();
    let expected = CallId::root().child(Callsite::root(), &Slot::Count(0));
    assert_eq!(root(&mut ctx, |ctx| CallId::current(ctx)), expected);
    let nested = call(&mut ctx, Callsite::new(1), |ctx| {
        call(ctx, Callsite::new(2), |ctx| root(ctx, |ctx| CallId::current(ctx)))
    });
    assert_eq!(nested, expected);
}

#[test]
fn scope_counts_entries_per_callsite() {
    let mut scope = Scope::new(CallId { fingerprint: 4 }, Callsite::new(8));
    assert_eq!(scope.id(), CallId { fingerprint: 4 });
    assert_eq!(scope.callsite(), Callsite::new(8));
    assert_eq!(scope.current_count(Callsite::new(1)), 0);
    scope.increment_count(Callsite::new(1));
    scope.increment_count(Callsite::new(2));
    scope.increment_count(Callsite::new(1));
    assert_eq!(scope.current_count(Callsite::new(1)), 2);
    assert_eq!(scope.current_count(Callsite::new(2)), 1);
    assert_eq!(scope.current_count(Callsite::new(3)), 0);
}

#[test]
fn default_scope_is_the_root_scope() {
    let scope = Scope::default();
    assert_eq!(scope.id(), CallId::root());
    assert_eq!(scope.callsite(), Callsite::root());
    assert_eq!(scope.current_count(Callsite::root()), 0);
}

#[test]
fn descend_counts_the_entry_and_makes_the_child() {
    let mut parent = Scope::new(CallId { fingerprint: 4 }, Callsite::new(8));
    let first = Scope::descend(Some(&mut parent), Callsite::new(1), None);
    let second = Scope::descend(Some(&mut parent), Callsite::new(1), None);
    let keyed = Scope::descend(Some(&mut parent), Callsite::new(1), Some(b"k".to_vec()));
    assert_eq!(parent.current_count(Callsite::new(1)), 3);
    assert_eq!(first.id(), CallId { fingerprint: 4 }.child(Callsite::new(1), &Slot::Count(0)));
    assert_eq!(second.id(), CallId { fingerprint: 4 }.child(Callsite::new(1), &Slot::Count(1)));
    assert_eq!(keyed.id(), CallId { fingerprint: 4 }.child(Callsite::new(1), &Slot::Key(b"k".to_vec())));
    assert_eq!(first.callsite(), Callsite::new(1));
    assert_eq!(first.current_count(Callsite::new(1)), 0);

    let orphan = Scope::descend(None, Callsite::new(1), None);
    assert_eq!(orphan.id(), CallId::root().child(Callsite::new(1), &Slot::Count(0)));
}

#[test]
fn with_current_hands_over_the_published_scope_or_a_root_scope() {
    let mut ctx = Context::new();
    let outside = Scope::with_current(&ctx, |scope| (scope.id(), scope.callsite()));
    assert_eq!(outside, (CallId::root(), Callsite::root()));
    call(&mut ctx, Callsite::new(3), |ctx| {
        let inside = Scope::with_current(ctx, |scope| (scope.id(), scope.callsite()));
        assert_eq!(inside, (CallId::current(ctx), Callsite::new(3)));
    });
}

#[test]
fn enter_child_takes_the_slot_it_is_given() {
    let mut ctx = Context::new();
    let id = Scope::enter_child(&mut ctx, Callsite::new(3), &Slot::Count(41), |ctx| {
        CallId::current(ctx)
    });
    assert_eq!(id, CallId::root().child(Callsite::new(3), &Slot::Count(41)));
    assert_eq!(ctx.depth(), 0);
}

#[test]
fn scopes_are_equal_when_their_ids_are() {
    let mut a = Scope::new(CallId { fingerprint: 4 }, Callsite::new(8));
    let b = Scope::new(CallId { fingerprint: 4 }, Callsite::new(9));
    let c = Scope::new(CallId { fingerprint: 5 }, Callsite::new(8));
    a.increment_count(Callsite::new(1));
    assert!(a == b);
    assert!(a != c);
}
