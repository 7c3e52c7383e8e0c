//! Shared handles to nodes.

use std::rc::Rc;
use vstd::prelude::*;

verus! {

/// Another handle to the value that `handle` points to.
///
/// Calls `Rc::clone`, which makes a new pointer to the same allocation and
/// raises its reference count: the value behind the new handle is the value
/// behind the old one.
#[verifier::external_body]
pub(crate) fn share<T>(handle: &Rc<T>) -> (shared: Rc<T>)
    ensures
        shared == *handle,
{
    Rc::clone(handle)
}

/// The value behind a handle, to be changed in place: the value itself
/// where the handle is the only one to it, a clone of it behind a new
/// allocation where it is not.
///
/// Calls `Rc::make_mut`, which clones the inner value into a new allocation
/// when other handles point to the same one, so that no other handle sees the
/// change. What the handle points to in the end is what the reference that
/// comes back points to in the end.
#[verifier::external_body]
pub(crate) fn make_unique<T: Clone>(handle: &mut Rc<T>) -> (inner: &mut T)
    ensures
        *inner == **old(handle) || cloned::<T>(**old(handle), *inner),
        **final(handle) == *final(inner),
{
    Rc::make_mut(handle)
}

} // verus!
