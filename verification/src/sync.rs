//! The calls into `parking_lot`, the atomics and `Arc` that the pools make.
//!
//! What a lock or an atomic word holds is reached through `&self`, so what a
//! read returns depends on every other holder of the pool: the contracts below
//! state nothing about it.

use vstd::prelude::*;

verus! {

#[verifier::external_type_specification]
#[verifier::external_body]
#[verifier::reject_recursive_types(R)]
#[verifier::reject_recursive_types(T)]
pub struct ExLockApiMutex<R, T: ?Sized>(parking_lot::lock_api::Mutex<R, T>);

#[verifier::external_type_specification]
#[verifier::external_body]
pub struct ExRawMutex(parking_lot::RawMutex);

/// Calls `parking_lot::Mutex::new`: the new lock holds `value`.
/// Nothing is stated of the result, whose contents later change through `&self`.
#[verifier::external_body]
pub(crate) fn new_lock<T>(value: T) -> parking_lot::Mutex<T> {
    parking_lot::Mutex::new(value)
}

/// Locks `stack` (`parking_lot::Mutex::lock`, which never panics) and calls
/// `Vec::len` on what it holds. The result is not stated: other holders of the
/// lock change the stack between calls.
#[verifier::external_body]
pub(crate) fn locked_len<T>(stack: &parking_lot::Mutex<Vec<T>>) -> usize {
    stack.lock().len()
}

/// Locks `stack` and calls `Vec::is_empty` on what it holds; the result is not stated.
#[verifier::external_body]
pub(crate) fn locked_is_empty<T>(stack: &parking_lot::Mutex<Vec<T>>) -> bool {
    stack.lock().is_empty()
}

/// Locks `stack` and calls `Vec::pop` on what it holds; the result is not stated.
#[verifier::external_body]
pub(crate) fn locked_pop<T>(stack: &parking_lot::Mutex<Vec<T>>) -> Option<T> {
    stack.lock().pop()
}

/// Locks `stack` and calls `Vec::push` on what it holds.
/// Declared not to unwind, so that a drop may make the call: `Vec::push` unwinds
/// only when the stack's buffer would pass `isize::MAX` bytes (for a zero-sized
/// type, when it already holds `usize::MAX` values), which is not stated.
#[verifier::external_body]
pub(crate) fn locked_push<T>(stack: &parking_lot::Mutex<Vec<T>>, value: T)
    opens_invariants none
    no_unwind
{
    stack.lock().push(value)
}

/// Locks `slot` and calls `Option::take` on what it holds: the slot is left
/// empty. What it held is not stated.
#[verifier::external_body]
pub(crate) fn locked_take<T>(slot: &parking_lot::Mutex<Option<T>>) -> Option<T> {
    slot.lock().take()
}

/// Locks the slot at `i` and calls `Option::replace` on what it holds: the slot
/// then holds `value`, and what it held before is returned (not stated).
/// Neither the indexing (`i` is in bounds), the lock nor the replacement panics;
/// the slot is reached here rather than by the caller because a destructor makes
/// this call and Verus lets it make no call that may open invariants.
#[verifier::external_body]
pub(crate) fn locked_replace_at<T>(slots: &Vec<parking_lot::Mutex<Option<T>>>, i: usize, value: T) -> Option<T>
    requires
        i < slots.len(),
    opens_invariants none
    no_unwind
{
    slots[i].lock().replace(value)
}

/// Calls `AtomicU64::fetch_or` with release ordering on the word at `w`: sets in it
/// the bits of `mask`. The word's contents are not stated. Neither the indexing
/// (`w` is in bounds) nor the call panics; the word is reached here for the same
/// reason as in `locked_replace_at`.
#[verifier::external_body]
pub(crate) fn set_bits_at(words: &Vec<std::sync::atomic::AtomicU64>, w: usize, mask: u64)
    requires
        w < words.len(),
    opens_invariants none
    no_unwind
{
    words[w].fetch_or(mask, std::sync::atomic::Ordering::Release);
}

/// Calls `Arc::clone`: another handle on the same shared value.
#[verifier::external_body]
pub(crate) fn share<T>(shared: &std::sync::Arc<T>) -> (copy: std::sync::Arc<T>)
    ensures
        copy == *shared,
{
    std::sync::Arc::clone(shared)
}

} // verus!
