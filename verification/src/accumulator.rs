//! The counter into which every worker folds its partial sum.
//!
//! The counter exists so that the compiler cannot discard the summation as
//! unused work. Its value carries no meaning for the user, which is why
//! nothing is stated about it here.

use std::sync::atomic::AtomicUsize;
use std::sync::atomic::Ordering;
use vstd::prelude::*;

verus! {

/// Adds `amount` to `counter` atomically. Relaxed ordering is enough: no other
/// memory access is ordered against this one. The addition wraps around.
pub(crate) fn fold_into(counter: &AtomicUsize, amount: usize) {
    let _previous: usize = counter.fetch_add(amount, Ordering::Relaxed);
}

} // verus!
