//! The shared cell behind every handle.
//!
//! Aliased handles to one tree all hold reference-counted pointers to a
//! single reader/writer-locked cell; a write made through any of them is
//! seen by the next read through every other.  The cell's contents are
//! shared mutable state, outside what the verifier can track across calls,
//! so the items here are trusted: each body is a single lock operation,
//! and every statement about the tree a handle finds in the cell is made,
//! and proved, downstream of these calls.
//!
//! Reads copy the contents out under the shared lock.  Writes do not go
//! through a copy: [`lock_write`] hands out the lock's own write guard,
//! [`guard_mut`] exposes the guarded tree, and the caller's verified
//! mutation runs in place while the exclusive lock is held, so concurrent
//! writers are serialized and no append can overwrite another.

use std::sync::Arc;
use std::sync::RwLock;
use std::sync::RwLockWriteGuard;
use vstd::prelude::*;

verus! {

#[verifier::external_type_specification]
#[verifier::external_body]
#[verifier::reject_recursive_types(T)]
pub struct ExRwLock<T: ?Sized>(RwLock<T>);

#[verifier::external_type_specification]
#[verifier::external_body]
#[verifier::reject_recursive_types(T)]
pub struct ExRwLockWriteGuard<'a, T: ?Sized + 'a>(RwLockWriteGuard<'a, T>);

/// Relies on std::sync::RwLock::new: the returned lock owns `value`, with
/// no readers or writers yet.
#[verifier::external_body]
pub(crate) fn new_lock<U>(value: U) -> (l: RwLock<U>) {
    RwLock::new(value)
}

/// Relies on std::sync::RwLock::read: takes the shared lock, clones the
/// current contents, and releases the lock before returning.  What comes
/// back is whatever the cell held when the lock was granted, so nothing
/// more can be promised of it.  Panics only when the lock is poisoned,
/// which this library treats as fatal.
#[verifier::external_body]
pub(crate) fn read_copy<U: Clone>(l: &RwLock<U>) -> (value: U) {
    l.read().unwrap().clone()
}

/// Relies on std::sync::RwLock::write: takes the exclusive lock and hands
/// its guard out.  The lock stays held until the guard is dropped, so
/// everything done to the contents through [`guard_mut`] in between is one
/// atomic update to every other handle.  Panics only when the lock is
/// poisoned, which this library treats as fatal.
#[verifier::external_body]
pub(crate) fn lock_write<'a, U>(l: &'a RwLock<U>) -> (g: RwLockWriteGuard<'a, U>) {
    l.write().unwrap()
}

/// Relies on std::sync::RwLockWriteGuard's DerefMut: the guarded value,
/// borrowed mutably for as long as the guard is held.  Its current value
/// is whatever the cell held when the lock was granted, so nothing can be
/// promised of it.
#[verifier::external_body]
pub(crate) fn guard_mut<'a, 'b, U>(g: &'b mut RwLockWriteGuard<'a, U>) -> (r: &'b mut U) {
    &mut **g
}

/// Relies on std::sync::Arc::clone: the returned pointer shares the same
/// allocation as `a`, and so carries the same value.
#[verifier::external_body]
pub(crate) fn share<U>(a: &Arc<U>) -> (r: Arc<U>)
    ensures
        r == *a,
{
    Arc::clone(a)
}

} // verus!
