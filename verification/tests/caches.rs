use std::cell::Cell;
use topo::cache::{Cache, CacheMiss, Fetched};
use topo::dep_node::Dependent;
use topo::{call, CallId, Callsite, Context};

const A: u64 = 1;
const B: u64 = 2;

fn scope(n: u64) -> CallId {
    CallId { fingerprint: n }
}

fn top_level() -> Dependent {
    Dependent::default()
}

#[test]
fn a_new_cache_is_empty() {
    let cache: Cache<u64, u8> = Cache::new();
    assert_eq!(cache.len(), 0);
    assert!(!cache.contains(scope(1), &A));
    assert_eq!(cache.peek(scope(1), &A), None);
    assert!(!cache.is_reserved(0));
    assert!(!cache.is_reserved(1));
}

#[test]
fn entries_in_a_loop_survive_while_their_scopes_are_reached() {
    let mut ctx = Context::new();
    let mut cache: Cache<u64, usize> = Cache::new();
    let revision = |ctx: &mut Context, cache: &mut Cache<u64, usize>, iterations: usize| {
        call(ctx, Callsite::new(1), |ctx| {
            for i in 0..iterations {
                call(ctx, Callsite::new(2), |ctx| {
                    let value = *cache.get_or_init(ctx, A, |_, _| i);
                    assert_eq!(value, i);
                });
            }
        })
    };

    revision(&mut ctx, &mut cache, 3);
    assert_eq!(cache.len(), 3);
    cache.gc();
    assert_eq!(cache.len(), 3);

    revision(&mut ctx, &mut cache, 2);
    assert_eq!(cache.len(), 3);
    cache.gc();
    assert_eq!(cache.len(), 2);

    cache.gc();
    assert_eq!(cache.len(), 0);
}

#[test]
fn an_entry_in_use_keeps_the_entry_it_was_made_from() {
    let mut ctx = Context::new();
    let mut cache: Cache<u64, u32> = Cache::new();
    let builds_of_b = Cell::new(0);

    let a = *cache.get_or_init(&mut ctx, A, |cache, ctx| {
        let b = *cache.get_or_init(ctx, B, |_, _| {
            builds_of_b.set(builds_of_b.get() + 1);
            20
        });
        b + 1
    });
    assert_eq!(a, 21);
    assert_eq!(cache.len(), 2);
    cache.gc();
    assert_eq!(cache.len(), 2);

    // The next revision uses A only: B is not rooted again.
    let again = *cache.get_or_init(&mut ctx, A, |_, _| 0);
    assert_eq!(again, 21);
    cache.gc();
    assert_eq!(cache.len(), 2);
    assert!(cache.contains(CallId::root(), &A));
    assert_eq!(cache.peek(CallId::root(), &B), Some(&20));
    assert_eq!(builds_of_b.get(), 1);

    // A revision that uses B only does not keep A.
    assert_eq!(cache.get(&ctx, &B), Some(&20));
    cache.gc();
    assert_eq!(cache.len(), 1);
    assert!(cache.contains(CallId::root(), &B));

    cache.gc();
    assert_eq!(cache.len(), 0);
}

#[test]
fn a_failing_initializer_leaves_no_entry_and_no_frame() {
    let mut ctx = Context::new();
    let mut cache: Cache<u64, u32> = Cache::new();
    call(&mut ctx, Callsite::new(1), |ctx| {
        let before = CallId::current(ctx);
        let depth = ctx.depth();
        let outcome: Result<u32, String> = call(ctx, Callsite::new(2), |ctx| {
            let value = cache.try_get_or_init(ctx, A, |_, _| Err(String::from("failed")))?;
            Ok(*value)
        });
        assert_eq!(outcome, Err(String::from("failed")));
        assert_eq!(CallId::current(ctx), before);
        assert_eq!(ctx.depth(), depth);
    });
    assert_eq!(cache.len(), 0);
    assert_eq!(ctx.depth(), 0);

    let retried: Result<&u32, String> = cache.try_get_or_init(&mut ctx, A, |_, _| Ok(5));
    assert_eq!(retried, Ok(&5));
    let hit: Result<&u32, String> = cache.try_get_or_init(&mut ctx, A, |_, _| Err(String::new()));
    assert_eq!(hit, Ok(&5));
    assert_eq!(cache.len(), 1);
}

#[test]
fn a_value_is_built_once_per_scope_and_key() {
    let mut ctx = Context::new();
    let mut cache: Cache<u64, u32> = Cache::new();
    let builds = Cell::new(0u32);
    let mut build = |ctx: &mut Context, key: u64| {
        *cache.get_or_init(ctx, key, |_, _| {
            builds.set(builds.get() + 1);
            builds.get()
        })
    };
    assert_eq!(build(&mut ctx, A), 1);
    assert_eq!(build(&mut ctx, A), 1);
    assert_eq!(build(&mut ctx, B), 2);
    assert_eq!(build(&mut ctx, A), 1);
    let elsewhere = call(&mut ctx, Callsite::new(1), |ctx| build(ctx, A));
    assert_eq!(elsewhere, 3);
    assert_eq!(builds.get(), 3);
    assert_eq!(cache.len(), 3);
}

#[test]
fn the_cached_value_wins_over_a_new_initializer() {
    let mut ctx = Context::new();
    let mut cache: Cache<u64, &str> = Cache::new();
    assert_eq!(*cache.get_or_init(&mut ctx, A, |_, _| "first"), "first");
    assert_eq!(*cache.get_or_init(&mut ctx, A, |_, _| "second"), "first");
    cache.gc();
    assert_eq!(*cache.get_or_init(&mut ctx, A, |_, _| "third"), "first");
}

#[test]
fn the_initializer_sees_its_own_entry_as_the_current_dependent() {
    let mut ctx = Context::new();
    let mut cache: Cache<u64, Dependent> = Cache::new();
    let first = *cache.get_or_init(&mut ctx, A, |_, ctx| Dependent::incoming(ctx));
    let second = *cache.get_or_init(&mut ctx, B, |_, ctx| Dependent::incoming(ctx));
    assert_eq!(first, Dependent { addr: 1 });
    assert_eq!(second, Dependent { addr: 2 });
    assert_eq!(Dependent::incoming(&ctx), Dependent::default());
    assert_eq!(ctx.depth(), 0);
}

#[test]
fn lookups_root_and_misses_change_nothing() {
    let mut cache: Cache<u64, u32> = Cache::new();
    assert_eq!(cache.lookup(scope(1), top_level(), &A), None);
    let miss = cache.begin(scope(1), top_level(), A);
    assert_eq!(miss.addr, 1);
    assert_eq!(miss.dependent(), Dependent { addr: 1 });
    assert!(cache.is_reserved(1));
    assert_eq!(*cache.store(miss, 7), 7);
    assert!(!cache.is_reserved(1));
    cache.gc();
    assert_eq!(cache.len(), 1);

    assert_eq!(cache.lookup(scope(2), top_level(), &A), None);
    assert_eq!(cache.lookup(scope(1), top_level(), &B), None);
    cache.gc();
    assert_eq!(cache.len(), 0);
}

#[test]
fn storing_again_for_a_scope_and_key_replaces_the_entry() {
    let mut cache: Cache<u64, u32> = Cache::new();
    let first = cache.begin(scope(1), top_level(), A);
    let second = cache.begin(scope(1), top_level(), A);
    cache.store(first, 1);
    cache.store(second, 2);
    assert_eq!(cache.len(), 1);
    assert_eq!(cache.peek(scope(1), &A), Some(&2));
}

#[test]
fn an_address_that_was_not_set_aside_stores_nothing() {
    let mut cache: Cache<u64, u32> = Cache::new();
    let forged = CacheMiss { scope: scope(1), key: A, addr: 5, incoming: top_level() };
    assert_eq!(cache.try_store(forged, 9), Some(9));
    assert_eq!(cache.len(), 0);

    let miss = cache.try_begin(scope(1), top_level(), A).unwrap();
    assert_eq!(cache.try_store(miss, 9), None);
    assert_eq!(cache.peek(scope(1), &A), Some(&9));

    let used = CacheMiss { scope: scope(1), key: B, addr: 1, incoming: top_level() };
    assert_eq!(cache.try_store(used, 3), Some(3));
    assert_eq!(cache.len(), 1);
}

#[test]
fn fetch_hits_with_a_clone_and_begins_on_a_miss() {
    let mut cache: Cache<u64, String> = Cache::new();
    let miss = match cache.fetch(scope(1), top_level(), A) {
        Fetched::Miss(miss) => miss,
        other => panic!("unexpected {:?}", other),
    };
    assert_eq!((miss.scope, miss.key, miss.addr, miss.incoming), (scope(1), A, 1, top_level()));
    cache.store(miss, String::from("made"));
    cache.gc();
    match cache.fetch(scope(1), Dependent { addr: 77 }, A) {
        Fetched::Hit(value) => assert_eq!(value, "made"),
        other => panic!("unexpected {:?}", other),
    }
    cache.gc();
    assert_eq!(cache.len(), 1);
}

#[test]
fn sweeps_end_on_cycles_among_the_dependents() {
    let mut cache: Cache<u64, u32> = Cache::new();
    // A is looked up on behalf of B and B on behalf of A.
    let a = cache.begin(scope(1), Dependent { addr: 2 }, A);
    let b = cache.begin(scope(1), Dependent { addr: 1 }, B);
    cache.store(a, 1);
    cache.store(b, 2);
    cache.gc();
    assert_eq!(cache.len(), 2);

    assert_eq!(cache.lookup(scope(1), top_level(), &A), Some(&1));
    cache.gc();
    assert_eq!(cache.len(), 2);

    cache.gc();
    assert_eq!(cache.len(), 0);
}

#[test]
fn an_entry_that_lists_itself_is_swept_like_any_other() {
    let mut cache: Cache<u64, u32> = Cache::new();
    let a = cache.begin(scope(1), Dependent { addr: 1 }, A);
    cache.store(a, 1);
    cache.gc();
    assert_eq!(cache.len(), 1);
    cache.gc();
    assert_eq!(cache.len(), 0);
}

#[test]
fn a_dependent_that_was_swept_keeps_nothing_alive() {
    let mut ctx = Context::new();
    let mut cache: Cache<u64, u32> = Cache::new();
    cache.get_or_init(&mut ctx, A, |cache, ctx| *cache.get_or_init(ctx, B, |_, _| 1));
    cache.gc();
    // B is used, A is not: A goes, and B's handle to it dangles.
    assert_eq!(cache.get(&ctx, &B), Some(&1));
    cache.gc();
    assert_eq!(cache.len(), 1);
    cache.gc();
    assert_eq!(cache.len(), 0);
}

#[test]
fn addresses_are_not_given_out_twice() {
    let mut ctx = Context::new();
    let mut cache: Cache<u64, Dependent> = Cache::new();
    let first = *cache.get_or_init(&mut ctx, A, |_, ctx| Dependent::incoming(ctx));
    cache.gc();
    cache.gc();
    assert_eq!(cache.len(), 0);
    let second = *cache.get_or_init(&mut ctx, A, |_, ctx| Dependent::incoming(ctx));
    assert_ne!(first, second);
}
