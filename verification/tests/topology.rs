use std::collections::HashSet;
use topo::{call, call_in_slot, root, CallId, Callsite, Context};

#[test]
fn alternating_in_a_loop() {
    let mut ctx = Context::new();
    call(&mut ctx, Callsite::new(1), |ctx| {
        let mut ids = HashSet::new();

        for i in 0..4 {
            if i % 2 == 0 {
                call(ctx, Callsite::new(2), |ctx| ids.insert(CallId::current(ctx)));
            } else {
                call(ctx, Callsite::new(3), |ctx| ids.insert(CallId::current(ctx)));
            }
        }

        assert_eq!(ids.len(), 4, "each callsite must produce multiple IDs");
    });
}

#[test]
fn one_child_in_a_loop() {
    let mut ctx = Context::new();
    call(&mut ctx, Callsite::new(1), |ctx| {
        let root = CallId::current(ctx);
        assert_eq!(
            root,
            CallId::current(ctx),
            "CallId must be stable across calls within the same scope"
        );

        let mut prev = root;

        for _ in 0..100 {
            let mut called = false;
            call(ctx, Callsite::new(2), |ctx| {
                let current = CallId::current(ctx);
                assert_ne!(prev, current, "each CallId in this loop must be unique");
                prev = current;
                called = true;
            });
            let _ = called;

            assert_eq!(
                root,
                CallId::current(ctx),
                "CallId must be stable across calls within the same scope"
            );

            let mut prev = root;

            for _ in 0..100 {
                let mut called = false;
                call(ctx, Callsite::new(3), |ctx| {
                    let current = CallId::current(ctx);
                    assert_ne!(prev, current, "each CallId in this loop must be unique");
                    prev = current;
                    called = true;
                });

                assert_eq!(
                    root,
                    CallId::current(ctx),
                    "outside the call must have the same CallId as root"
                );
                assert!(called, "the call must be made on each loop iteration");
            }
        }
    });
}

#[test]
fn reuse_same_root_two_places() {
    let mut ctx = Context::new();
    let dependent = |ctx: &mut Context| call(ctx, Callsite::new(1), |ctx| CallId::current(ctx));
    let independent = |ctx: &mut Context| root(ctx, |ctx| CallId::current(ctx));

    assert_ne!(
        call(&mut ctx, Callsite::new(2), dependent),
        call(&mut ctx, Callsite::new(3), dependent)
    );
    assert_eq!(
        call(&mut ctx, Callsite::new(4), independent),
        call(&mut ctx, Callsite::new(5), independent)
    );
}

#[test]
fn loop_over_map_with_keys_in_slots() {
    let slots = vec!["first", "second", "third", "fourth", "fifth"];

    let to_call = |ctx: &mut Context| {
        call(ctx, Callsite::new(1), |ctx| {
            let mut unique_ids = HashSet::new();
            for s in &slots {
                call_in_slot(ctx, Callsite::new(2), s.as_bytes(), |ctx| {
                    let current = CallId::current(ctx);
                    unique_ids.insert(current);
                });
            }
            assert_eq!(slots.len(), unique_ids.len(), "must be one CallId per slot");
            unique_ids
        })
    };

    let mut ctx = Context::new();
    let first = to_call(&mut ctx);
    let second = to_call(&mut ctx);
    assert_eq!(first, second, "same Ids must be produced for each slot each time");
}

fn current(ctx: &mut Context) -> CallId {
    CallId::current(ctx)
}

#[test]
fn ids_are_equal_within_a_scope_and_differ_between_children() {
    let mut ctx = Context::new();
    call(&mut ctx, Callsite::new(1), |ctx| {
        let readings = [CallId::current(ctx), CallId::current(ctx), CallId::current(ctx)];
        assert_eq!(readings[0], readings[1]);
        assert_eq!(readings[1], readings[2]);

        let mut wrapped = Vec::new();
        for _ in 0..3 {
            wrapped.push(call(ctx, Callsite::new(2), current));
        }
        assert_ne!(wrapped[0], wrapped[1]);
        assert_ne!(wrapped[0], wrapped[2]);
        assert_ne!(wrapped[1], wrapped[2]);
    });
}

#[test]
fn rooted_bodies_agree_and_nested_bodies_differ() {
    let mut ctx = Context::new();
    let f = |ctx: &mut Context| root(ctx, current);
    let g = |ctx: &mut Context| call(ctx, Callsite::new(9), current);
    call(&mut ctx, Callsite::new(1), |ctx| {
        assert_eq!(call(ctx, Callsite::new(2), f), call(ctx, Callsite::new(2), f));
        assert_ne!(call(ctx, Callsite::new(3), g), call(ctx, Callsite::new(3), g));
    });
}

#[test]
fn two_runs_along_the_same_path_see_the_same_ids() {
    let run = |ctx: &mut Context| {
        let mut seen = Vec::new();
        call(ctx, Callsite::new(1), |ctx| {
            seen.push(CallId::current(ctx));
            for name in ["a", "b"] {
                call_in_slot(ctx, Callsite::new(2), name.as_bytes(), |ctx| {
                    seen.push(CallId::current(ctx));
                    call(ctx, Callsite::new(3), |ctx| seen.push(CallId::current(ctx)));
                });
            }
            seen.push(CallId::current(ctx));
        });
        seen
    };
    let mut first_ctx = Context::new();
    let mut second_ctx = Context::new();
    let first = run(&mut first_ctx);
    let second = run(&mut second_ctx);
    assert_eq!(first.len(), 6);
    assert_eq!(first, second);
}

#[test]
fn explicit_slot_of_a_number_is_not_the_default_slot() {
    let mut ctx = Context::new();
    call(&mut ctx, Callsite::new(1), |ctx| {
        let counted = call(ctx, Callsite::new(2), current);
        let slotted = call_in_slot(ctx, Callsite::new(2), &0u32.to_le_bytes(), current);
        assert_ne!(counted, slotted);
    });
}

#[test]
fn the_stack_is_as_before_after_a_body_that_fails() {
    let mut ctx = Context::new();
    call(&mut ctx, Callsite::new(1), |ctx| {
        let before = CallId::current(ctx);
        let depth = ctx.depth();
        let outcome: Result<u8, String> =
            call(ctx, Callsite::new(2), |ctx| {
                assert_ne!(CallId::current(ctx), before);
                Err(String::from("no"))
            });
        assert_eq!(outcome, Err(String::from("no")));
        assert_eq!(CallId::current(ctx), before);
        assert_eq!(ctx.depth(), depth);
    });
    assert_eq!(ctx.depth(), 0);
    assert_eq!(CallId::current(&ctx), CallId::root());
}

#[test]
fn root_restores_the_scope_it_hid() {
    let mut ctx = Context::new();
    call(&mut ctx, Callsite::new(1), |ctx| {
        let before = CallId::current(ctx);
        let inside = root(ctx, current);
        assert_ne!(inside, before);
        assert_eq!(CallId::current(ctx), before);
        let next = call(ctx, Callsite::new(2), current);
        assert_eq!(next, before.child(Callsite::new(2), &topo::Slot::Count(0)));
    });
}
