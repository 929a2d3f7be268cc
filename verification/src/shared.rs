//! Shared handles and the outside types that columns carry.

use std::sync::Arc;
use chrono_tz::Tz;
use vstd::prelude::*;

verus! {

/// A time zone of `chrono_tz`. Columns of dates carry one and never look inside.
#[verifier::external_type_specification]
#[verifier::external_body]
pub struct ExTz(Tz);

/// `Arc::clone`: another handle to the same allocation, so both handles show
/// the same value.
#[verifier::external_body]
pub(crate) fn share<T>(handle: &Arc<T>) -> (r: Arc<T>)
    ensures
        r == *handle,
{
    Arc::clone(handle)
}

/// `Arc::get_mut`: a mutable reference to the value where this handle is the
/// only one, `None` where others exist. Through the reference the handle's own
/// value changes; without it nothing does.
#[verifier::external_body]
pub(crate) fn exclusive<T>(handle: &mut Arc<T>) -> (r: Option<&mut T>)
    ensures
        r matches Some(value) ==> *value == **old(handle) && **final(handle) == *final(value),
        r is None ==> *final(handle) == *old(handle),
{
    Arc::get_mut(handle)
}

} // verus!
