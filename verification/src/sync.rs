//! Declarations of the synchronisation primitives of `parking_lot` and `std`
//! that the library holds, and the trusted calls it makes into them.

use crate::monitor::{NotEmpty, NotFull};
use parking_lot::lock_api;
use std::any::TypeId;
use std::sync::Arc;
use vstd::prelude::*;

verus! {

/// `parking_lot::Condvar`, held opaquely.
#[verifier::external_type_specification]
#[verifier::external_body]
pub struct ExCondvar(parking_lot::Condvar);

/// `parking_lot::RawMutex`, the raw lock under `parking_lot::Mutex`.
#[verifier::external_type_specification]
#[verifier::external_body]
pub struct ExRawMutex(parking_lot::RawMutex);

/// `lock_api::Mutex`, of which `parking_lot::Mutex` is an instance; held opaquely.
#[verifier::external_type_specification]
#[verifier::external_body]
#[verifier::reject_recursive_types(R)]
#[verifier::reject_recursive_types(T)]
pub struct ExMutex<R, T: ?Sized>(lock_api::Mutex<R, T>);

/// `std::any::TypeId`, held opaquely.
#[verifier::external_type_specification]
#[verifier::external_body]
pub struct ExTypeId(TypeId);

/// Calls `parking_lot::Condvar::new`. A condition variable has no state that
/// the library reads, so nothing is stated of the result.
#[verifier::external_body]
pub(crate) fn new_condvar() -> parking_lot::Condvar {
    parking_lot::Condvar::new()
}

/// Calls `parking_lot::Mutex::new`. The mutex is opaque here: what it holds is
/// only ever read by the code that locks it, so nothing is stated of it.
#[verifier::external_body]
pub(crate) fn new_mutex<T>(value: T) -> parking_lot::Mutex<T> {
    parking_lot::Mutex::new(value)
}

/// Calls `parking_lot::Condvar::notify_all`. The number of woken threads that
/// it returns depends on the other threads, so nothing is stated of it.
#[verifier::external_body]
pub(crate) fn notify_all(condvar: &parking_lot::Condvar) -> usize {
    condvar.notify_all()
}

/// Calls `std::any::TypeId::of`. The identifier is fixed by the compiler, not
/// by any argument, so nothing is stated of it.
#[verifier::external_body]
pub(crate) fn type_key<K: ?Sized + 'static>() -> TypeId {
    TypeId::of::<K>()
}

/// Calls `std::any::TypeId::of` for the two markers of a bounded buffer,
/// `NotEmpty` and `NotFull`. A `TypeId` is a globally unique identifier of a
/// type, so the two identifiers differ.
#[verifier::external_body]
pub(crate) fn buffer_condition_keys() -> (keys: (TypeId, TypeId))
    ensures
        keys.0 != keys.1,
{
    (TypeId::of::<NotEmpty>(), TypeId::of::<NotFull>())
}

/// Calls `std::sync::Arc::clone`: the new handle points at the same
/// allocation, so it stands for the same value.
#[verifier::external_body]
pub(crate) fn share<T>(handle: &Arc<T>) -> (shared: Arc<T>)
    ensures
        shared == *handle,
{
    Arc::clone(handle)
}

/// Calls `std::sync::Arc::as_ptr` and gives the address as an integer. An
/// address depends on the allocator, so nothing is stated of it: two handles
/// give the same number exactly when they point at the same allocation, which
/// the library relies on only at run time.
#[verifier::external_body]
pub(crate) fn address_of<T>(handle: &Arc<T>) -> usize {
    Arc::as_ptr(handle) as usize
}

} // verus!
