//! The runtime with the context kept per thread.
//!
//! The functions of this module do what those at the crate's root do, without
//! a [`crate::Context`] to hand down: the current scope and the current
//! dependent are published through the layers of `illicit`, which are local to
//! the thread. What a scope entry computes is verified; what the thread's
//! layers hold at a given moment is not known to the verifier, so these
//! functions promise of their results only that the body was run.

use crate::dep_node::Dependent;
use crate::id::{CallId, Callsite};
use crate::scope::Scope;
use std::cell::RefCell;
use vstd::prelude::*;

verus! {

/// `illicit::Layer`: a set of values to publish. It is carried from call to
/// call and never looked into.
#[verifier::external_type_specification]
#[verifier::external_body]
pub struct ExLayer(illicit::Layer);

/// `illicit::Layer::new`: a layer that holds what the thread's current layer
/// holds. Nothing is claimed of it.
#[verifier::external_body]
fn new_layer() -> illicit::Layer {
    illicit::Layer::new()
}

/// `illicit::Layer::offer`, with a scope: the layer, holding `scope` as well.
/// Nothing is claimed of it.
#[verifier::external_body]
fn offer_scope(layer: illicit::Layer, scope: Scope) -> illicit::Layer {
    layer.offer(RefCell::new(scope))
}

/// `illicit::Layer::offer`, with a dependent: the layer, holding `dependent`
/// as well. Nothing is claimed of it.
#[verifier::external_body]
fn offer_dependent(layer: illicit::Layer, dependent: Dependent) -> illicit::Layer {
    layer.offer(dependent)
}

/// `illicit::Layer::enter`: makes `layer` the thread's current layer, calls
/// `op` once, puts the former layer back and returns what `op` returned.
#[verifier::external_body]
fn enter<F, R>(layer: illicit::Layer, op: F) -> (r: R) where F: FnOnce() -> R
    requires
        call_requires(op, ()),
    ensures
        call_ensures(op, (), r),
{
    layer.enter(op)
}

/// `illicit::hide`: takes the scope out of the thread's current layer.
/// Nothing is claimed of it.
#[verifier::external_body]
fn hide_scope() {
    illicit::hide::<RefCell<Scope>>()
}

/// `illicit::get`, for the scope: calls `op` once, with the scope that the
/// thread's current layer holds, and returns what `op` returned. `op` gets
/// `None` where the layer holds no scope, and also where the scope is in use
/// (`RefCell::try_borrow_mut` fails), as it is while another `op` runs. Which
/// of these holds is not claimed.
#[verifier::external_body]
fn with_scope<F, Out>(op: F) -> (out: Out) where F: FnOnce(Option<&mut Scope>) -> Out
    requires
        forall|current: Option<&mut Scope>| call_requires(op, (current,)),
    ensures
        exists|current: Option<&mut Scope>| call_ensures(op, (current,), out),
{
    match illicit::get::<RefCell<Scope>>() {
        Ok(cell) => match cell.try_borrow_mut() {
            Ok(mut scope) => op(Some(&mut *scope)),
            Err(_) => op(None),
        },
        Err(_) => op(None),
    }
}

/// `illicit::get`, for the dependent: the dependent that the thread's current
/// layer holds, or `None` where it holds none. Which of the two is not
/// claimed.
#[verifier::external_body]
fn published_dependent() -> Option<Dependent> {
    match illicit::get::<Dependent>() {
        Ok(dependent) => Some(*dependent),
        Err(_) => None,
    }
}

/// The id of `current`, or the root id where there is no scope.
pub fn id_of(current: Option<&mut Scope>) -> (id: CallId)
    ensures
        id == crate::scope::parent_id(
            match current {
                Some(scope) => Some(scope@),
                None => None,
            },
        ),
        match current {
            Some(scope) => final(scope)@ == scope@,
            None => true,
        },
{
    match current {
        Some(scope) => scope.id(),
        None => CallId::root(),
    }
}

/// The id of the thread's current scope; the root id outside of any scope.
pub fn current_id() -> CallId {
    with_scope(id_of)
}

/// Enters the child of the thread's current scope at `callsite` and runs `op`
/// in it. The slot is `key` where one is given, else the number of earlier
/// entries at `callsite` in the current scope.
fn enter_child<F, R>(callsite: Callsite, key: Option<Vec<u8>>, op: F) -> (r: R) where
    F: FnOnce() -> R,
    requires
        call_requires(op, ()),
    ensures
        call_ensures(op, (), r),
{
    let descending = |current: Option<&mut Scope>| -> (child: Scope)
    {
        Scope::descend(current, callsite, key)
    };
    let child = with_scope(descending);
    enter(offer_scope(new_layer(), child), op)
}

/// Runs `op` in the child of the thread's current scope at `callsite`. The
/// slot is the number of times that `callsite` has been entered in the
/// current scope before.
pub fn call<F, R>(callsite: Callsite, op: F) -> (r: R) where F: FnOnce() -> R
    requires
        call_requires(op, ()),
    ensures
        call_ensures(op, (), r),
{
    enter_child(callsite, None, op)
}

/// Runs `op` in the child of the thread's current scope at `callsite`, with
/// the bytes of `slot` as the slot.
pub fn call_in_slot<F, R>(callsite: Callsite, slot: &[u8], op: F) -> (r: R) where
    F: FnOnce() -> R,
    requires
        call_requires(op, ()),
    ensures
        call_ensures(op, (), r),
{
    enter_child(callsite, Some(vstd::slice::slice_to_vec(slot)), op)
}

/// Runs `op` as the root of a call tree of its own: in a layer in which the
/// thread's current scope is hidden, so that the ids that `op` sees do not
/// depend on where `root` was called from. The hidden scope is visible again
/// afterwards.
pub fn root<F, R>(op: F) -> (r: R) where F: FnOnce() -> R
    requires
        call_requires(op, ()),
    ensures
        call_ensures(op, (), r),
{
    let hidden = || -> (r: R)
        requires
            call_requires(op, ()),
        ensures
            call_ensures(op, (), r),
    {
        hide_scope();
        call(Callsite::root(), op)
    };
    enter(new_layer(), hidden)
}

/// The dependent on whose behalf the thread runs now; the null handle where
/// none is published.
pub fn incoming() -> Dependent {
    Dependent::or_null(published_dependent())
}

/// Runs `op` with `dependent` published as the thread's current dependent.
pub fn init_dependency<F, R>(dependent: Dependent, op: F) -> (r: R) where F: FnOnce() -> R
    requires
        call_requires(op, ()),
    ensures
        call_ensures(op, (), r),
{
    enter(offer_dependent(new_layer(), dependent), op)
}

} // verus!
