//! A cache that several owners share.
//!
//! The cache stands behind a reentrant mutex of `parking_lot`, and the current
//! scope and the current dependent are those that the thread publishes (see
//! [`crate::ambient`]). The mutex is held while the cache is read or changed
//! and is free while a value is made, so that making one value may look up
//! others. A thread that comes back to the cache while it is itself reading
//! or changing it, as the `==` of a key or the `clone` of a value may, is
//! turned away and does without the cache. What the cache holds when the
//! mutex is taken depends on what its other owners did; the verifier knows of
//! it only that it is a cache.

use crate::ambient::{current_id, incoming, init_dependency};
use crate::cache::{Cache, Fetched};
use vstd::laws_eq::obeys_concrete_eq;
use vstd::prelude::*;

verus! {

/// `parking_lot::RawMutex`: the lock inside a mutex. It only occurs in the
/// mutex's type.
#[verifier::external_type_specification]
#[verifier::external_body]
pub struct ExRawMutex(parking_lot::RawMutex);

/// `parking_lot::RawThreadId`: how a mutex tells threads apart. It only
/// occurs in the mutex's type.
#[verifier::external_type_specification]
#[verifier::external_body]
pub struct ExRawThreadId(parking_lot::RawThreadId);

/// `parking_lot::ReentrantMutex`, which is `lock_api::ReentrantMutex` with
/// the two types above: what it guards is reached through [`locked`] alone.
#[verifier::external_type_specification]
#[verifier::external_body]
#[verifier::reject_recursive_types(R)]
#[verifier::reject_recursive_types(G)]
#[verifier::reject_recursive_types(T)]
pub struct ExReentrantMutex<R, G, T: ?Sized>(parking_lot::lock_api::ReentrantMutex<R, G, T>);

/// `std::cell::RefCell`: the cell in which the mutex guards the cache, so
/// that the thread that holds the mutex can change the cache. It is reached
/// through [`locked`] alone.
#[verifier::external_type_specification]
#[verifier::external_body]
#[verifier::reject_recursive_types(T)]
pub struct ExRefCell<T: ?Sized>(std::cell::RefCell<T>);

/// `parking_lot::ReentrantMutex::new`: a mutex that guards `cache`. Nothing
/// is claimed of it.
#[verifier::external_body]
fn guarded<Q, V>(cache: Cache<Q, V>) -> parking_lot::ReentrantMutex<std::cell::RefCell<Cache<Q, V>>> {
    parking_lot::ReentrantMutex::new(std::cell::RefCell::new(cache))
}

/// `parking_lot::ReentrantMutex::lock`: takes the mutex, waiting while
/// another thread holds it, and frees it before returning. Where the cache
/// is free, `op` is called once with it and what `op` returned is handed
/// back in `Some`. Where the cache is in use by this very thread
/// (`RefCell::try_borrow_mut` fails), as it is while another `op` runs, `op`
/// is not called and `None` is returned. What the cache holds is not
/// claimed, nor which of the two happens. The mutex counts how often its
/// thread holds it; as a thread that is turned away calls nothing, that is
/// twice at most.
#[verifier::external_body]
fn locked<Q, V, F, R>(
    mutex: &parking_lot::ReentrantMutex<std::cell::RefCell<Cache<Q, V>>>,
    op: F,
) -> (r: Option<R>) where F: FnOnce(&mut Cache<Q, V>) -> R
    requires
        forall|cache: &mut Cache<Q, V>| call_requires(op, (cache,)),
    ensures
        r matches Some(x) ==> exists|cache: &mut Cache<Q, V>| call_ensures(op, (cache,), x),
{
    let guard = mutex.lock();
    let r = match guard.try_borrow_mut() {
        Ok(mut cache) => Some(op(&mut *cache)),
        Err(_) => None,
    };
    r
}

/// A cache behind a mutex.
#[verifier::reject_recursive_types(Q)]
#[verifier::reject_recursive_types(V)]
pub struct SharedCache<Q, V> {
    inner: parking_lot::ReentrantMutex<std::cell::RefCell<Cache<Q, V>>>,
}

impl<Q, V> SharedCache<Q, V> {
    /// A cache without entries.
    pub fn new() -> SharedCache<Q, V> {
        SharedCache { inner: guarded(Cache::new()) }
    }

    /// The number of entries at the time of the call; `None` where the call
    /// is made while this thread is using the cache.
    pub fn len(&self) -> Option<usize> {
        let counting = |cache: &mut Cache<Q, V>| -> (len: usize)
        {
            cache.len()
        };
        locked(&self.inner, counting)
    }

    /// Sweeps the cache, as [`Cache::gc`] does, and says whether it did: it
    /// does not where the call is made while this thread is using the cache.
    pub fn gc(&self) -> bool {
        let sweeping = |cache: &mut Cache<Q, V>|
            ensures
                final(cache)@ == old(cache)@.swept(),
        {
            cache.gc()
        };
        locked(&self.inner, sweeping).is_some()
    }
}

impl<Q: PartialEq, V: Clone> SharedCache<Q, V> {
    /// Returns a clone of the value stored for `key` in the thread's current
    /// scope, or makes the value with `init`, stores a clone of it and returns
    /// it.
    ///
    /// Where the entry exists it is rooted and `init` is not run. Where it
    /// does not, `init` runs once, with a handle to the new entry published as
    /// the thread's current dependent and with the mutex free. The value is
    /// returned but not stored where the cache has no address left for the
    /// entry, and where the call is made while this thread is using the cache.
    pub fn get_or_init<F>(&self, key: Q, init: F) -> V where F: FnOnce() -> V
        requires
            obeys_concrete_eq::<Q>(),
            call_requires(init, ()),
    {
        let scope = current_id();
        let dependent = incoming();
        let fetching = |cache: &mut Cache<Q, V>| -> (fetched: Fetched<Q, V>)
            requires
                obeys_concrete_eq::<Q>(),
            ensures
                fetched matches Fetched::Miss(miss) ==> miss.scope == scope && miss.incoming
                    == dependent,
        {
            cache.fetch(scope, dependent, key)
        };
        let fetched = locked(&self.inner, fetching);
        self.finish(fetched, init)
    }

    /// Finishes a lookup of which the first part, made with the mutex held,
    /// gave `fetched`; `None` stands for a first part that found the cache in
    /// use by this thread.
    ///
    /// After a hit the value that was fetched is returned and `init` is not
    /// run. After a miss `init` runs once, with the handle of the entry that
    /// was begun published as the thread's current dependent and with the
    /// mutex free; its result is returned, and a clone of it is stored where
    /// the cache is free and the address of the entry is still set aside.
    /// Where the cache was full or in use `init` runs once and its result is
    /// returned.
    pub fn finish<F>(&self, fetched: Option<Fetched<Q, V>>, init: F) -> (value: V) where
        F: FnOnce() -> V,
        requires
            obeys_concrete_eq::<Q>(),
            !(fetched matches Some(Fetched::Hit(_))) ==> call_requires(init, ()),
        ensures
            match fetched {
                Some(Fetched::Hit(found)) => value == found,
                Some(Fetched::Miss(_)) => call_ensures(init, (), value),
                Some(Fetched::Full(_)) => call_ensures(init, (), value),
                None => call_ensures(init, (), value),
            },
    {
        match fetched {
            Some(Fetched::Hit(found)) => found,
            Some(Fetched::Miss(miss)) => {
                let made = init_dependency(miss.dependent(), init);
                let kept = made.clone();
                let storing = |cache: &mut Cache<Q, V>|
                    requires
                        obeys_concrete_eq::<Q>(),
                {
                    let _ = cache.try_store(miss, kept);
                };
                let _ = locked(&self.inner, storing);
                made
            },
            Some(Fetched::Full(_)) => init(),
            None => init(),
        }
    }
}

} // verus!
