use std::collections::HashSet;
use topo::ambient;
use topo::dep_node::Dependent;
use topo::{CallId, Callsite};

#[test]
fn ambient_ids_are_root_outside_of_any_scope() {
    assert_eq!(ambient::current_id(), CallId::root());
}

#[test]
fn ambient_call_publishes_a_child_scope() {
    let outside = ambient::current_id();
    let inside = ambient::call(Callsite::new(1), ambient::current_id);
    assert_ne!(outside, inside);
    assert_eq!(inside, CallId::root().child(Callsite::new(1), &topo::Slot::Count(0)));
    assert_eq!(ambient::current_id(), outside);
}

#[test]
fn ambient_default_slots_count_up() {
    ambient::call(Callsite::new(1), || {
        let parent = ambient::current_id();
        let mut ids = Vec::new();
        for _ in 0..3 {
            ids.push(ambient::call(Callsite::new(2), ambient::current_id));
            assert_eq!(ambient::current_id(), parent);
        }
        for (n, id) in ids.iter().enumerate() {
            assert_eq!(*id, parent.child(Callsite::new(2), &topo::Slot::Count(n as u32)));
        }
        let unique: HashSet<CallId> = ids.into_iter().collect();
        assert_eq!(unique.len(), 3);
    });
}

#[test]
fn ambient_slots_name_the_same_scope_again() {
    ambient::call(Callsite::new(1), || {
        let parent = ambient::current_id();
        let first = ambient::call_in_slot(Callsite::new(2), b"bob", ambient::current_id);
        let again = ambient::call_in_slot(Callsite::new(2), b"bob", ambient::current_id);
        let other = ambient::call_in_slot(Callsite::new(2), b"alice", ambient::current_id);
        assert_eq!(first, again);
        assert_ne!(first, other);
        assert_eq!(first, parent.child(Callsite::new(2), &topo::Slot::Key(b"bob".to_vec())));
    });
}

#[test]
fn ambient_root_ignores_the_enclosing_scope() {
    let independent = || ambient::root(ambient::current_id);
    let a = ambient::call(Callsite::new(1), independent);
    let b = ambient::call(Callsite::new(2), independent);
    assert_eq!(a, b);
    assert_eq!(a, CallId::root().child(Callsite::root(), &topo::Slot::Count(0)));
}

#[test]
fn ambient_root_restores_the_hidden_scope() {
    ambient::call(Callsite::new(1), || {
        let before = ambient::current_id();
        ambient::root(|| ());
        assert_eq!(ambient::current_id(), before);
    });
}

#[test]
fn ambient_dependent_is_published_for_the_body_only() {
    assert_eq!(ambient::incoming(), Dependent::default());
    let handle = Dependent { addr: 7 };
    let seen = ambient::init_dependency(handle, ambient::incoming);
    assert_eq!(seen, handle);
    assert_eq!(ambient::incoming(), Dependent::default());
}

#[test]
fn id_of_no_scope_is_the_root_id() {
    assert_eq!(ambient::id_of(None), CallId::root());
    let mut scope = topo::Scope::new(CallId { fingerprint: 4 }, Callsite::new(8));
    assert_eq!(ambient::id_of(Some(&mut scope)), CallId { fingerprint: 4 });
}

#[test]
fn a_dependent_that_was_not_found_is_the_null_handle() {
    assert_eq!(Dependent::or_null(None), Dependent { addr: 0 });
    assert_eq!(Dependent::or_null(Some(Dependent { addr: 3 })), Dependent { addr: 3 });
}

#[test]
fn a_scope_that_is_in_use_elsewhere_counts_as_no_scope() {
    ambient::call(Callsite::new(1), || {
        let inside = ambient::current_id();
        let published = illicit::get::<std::cell::RefCell<topo::Scope>>().unwrap();
        let held = published.borrow_mut();
        assert_eq!(ambient::current_id(), CallId::root());
        let child = ambient::call(Callsite::new(2), ambient::current_id);
        assert_eq!(child, CallId::root().child(Callsite::new(2), &topo::Slot::Count(0)));
        drop(held);
        assert_eq!(ambient::current_id(), inside);
        assert_eq!(published.borrow().current_count(Callsite::new(2)), 0);
    });
}
