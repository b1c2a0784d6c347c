//! Best-effort upper bounds for a desired size, taken from a fixed table of round candidates.
//!
//! A family of computations, one for each possible bound, names the value it desires.
//! The smallest candidate of the table that is at least that value is its upper bound,
//! which is below twice the desired value, and the one computation of the family that
//! belongs to this bound is realized.
//!
//! - [`candidates`] says which values the table of a word width holds.
//! - [`selection`] says which candidate is selected for a desired value, and proves what
//!   holds of it: it exists, is monotonic in the desired value, and is tight.
//! - [`table`] makes the table and runs selection and dispatch on it.
//! - [`AcceptUpperBound`], [`desired_generic`], [`get_upper_bound`] and
//!   [`eval_with_upper_bound`] apply them to a family on this target's word width.

pub mod candidates;
pub mod selection;
pub mod table;

use crate::selection::{lemma_selection_is_tight, lemma_selection_is_total, selected_bound};
use crate::table::BoundTable;
use vstd::layout::unsigned_int_max_values;
use vstd::prelude::*;

verus! {

/// The bound that is selected for `desired` on this target, whose word has
/// `usize::BITS` bits.
pub open spec fn upper_bound(desired: usize) -> usize {
    selected_bound(usize::BITS as nat, desired as nat) as usize
}

/// A family of computations that accepts an upper bound of the value it desires.
pub trait AcceptUpperBound {
    /// What every computation of the family gives.
    type Output;

    /// The desired value, and the least bound that the family accepts.
    const DESIRED_GENERIC: usize;

    /// The computation of the family for `upper`. It is only ever called for the bound
    /// that is selected for the desired value, so no other computation of the family has
    /// to succeed.
    fn eval(upper: usize) -> Self::Output
        requires
            upper == upper_bound(Self::DESIRED_GENERIC),
            Self::DESIRED_GENERIC <= upper,
            Self::DESIRED_GENERIC > 0 ==> upper < 2 * Self::DESIRED_GENERIC,
    ;
}

/// On this target every desired value has an upper bound: the smallest candidate of the
/// target's table that is at least the desired value. It is below twice a positive
/// desired value.
pub proof fn lemma_upper_bound(desired: usize)
    ensures
        upper_bound(desired) as nat == selected_bound(usize::BITS as nat, desired as nat),
        desired <= upper_bound(desired),
        desired > 0 ==> upper_bound(desired) < 2 * desired,
{
    unsigned_int_max_values();
    lemma_selection_is_total(usize::BITS as nat, desired as nat);
    if desired > 0 {
        lemma_selection_is_tight(usize::BITS as nat, desired as nat);
    }
}

/// Returns the value that the family desires.
pub fn desired_generic<A: AcceptUpperBound>() -> (desired: usize)
    ensures
        desired == A::DESIRED_GENERIC,
{
    A::DESIRED_GENERIC
}

/// Returns the bound that `eval_with_upper_bound` hands to the family: the smallest
/// candidate of this target's table that is at least the desired value.
pub fn get_upper_bound<A: AcceptUpperBound>() -> (upper: usize)
    ensures
        upper as nat == selected_bound(usize::BITS as nat, A::DESIRED_GENERIC as nat),
        upper == upper_bound(A::DESIRED_GENERIC),
        A::DESIRED_GENERIC <= upper,
        A::DESIRED_GENERIC > 0 ==> upper < 2 * A::DESIRED_GENERIC,
{
    proof {
        unsigned_int_max_values();
    }
    let table = BoundTable::generate(usize::BITS);
    table.select(A::DESIRED_GENERIC as u64) as usize
}

/// Evaluates the family with its upper bound: realizes the one computation that belongs
/// to the bound which `get_upper_bound` reports, and returns what it gives.
pub fn eval_with_upper_bound<A: AcceptUpperBound>() -> (out: A::Output)
    ensures
        call_ensures(A::eval, (upper_bound(A::DESIRED_GENERIC),), out),
{
    proof {
        unsigned_int_max_values();
        lemma_upper_bound(A::DESIRED_GENERIC);
    }
    let table = BoundTable::generate(usize::BITS);
    let branch = |bound: u64| -> (value: A::Output)
        requires
            bound == upper_bound(A::DESIRED_GENERIC),
        ensures
            call_ensures(A::eval, (upper_bound(A::DESIRED_GENERIC),), value),
        { A::eval(bound as usize) };
    table.dispatch(A::DESIRED_GENERIC as u64, branch)
}

} // verus!
