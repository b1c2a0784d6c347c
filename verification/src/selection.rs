//! Which candidate is selected for a desired value, as mathematics, and what holds of it.
//!
//! The selected bound of a desired value is the smallest candidate that is not below
//! it. A scan of the table in ascending order meets it first.

use crate::candidates::{
    candidate, is_candidate, lemma_candidate_fits, lemma_candidate_step, lemma_candidates_ascend,
    lemma_tables_share_prefix, max_value, table_len,
};
use vstd::prelude::*;

verus! {

/// Whether `bound` is the smallest candidate of a word of `width` bits that is at
/// least `desired`.
pub open spec fn is_selected_bound(width: nat, desired: nat, bound: nat) -> bool {
    &&& is_candidate(width, bound)
    &&& desired <= bound
    &&& forall|index: nat|
        index < table_len(width) && desired <= #[trigger] candidate(width, index) ==> bound
            <= candidate(width, index)
}

/// The bound that is selected for `desired` in a word of `width` bits: the smallest
/// candidate that is at least `desired`. It is meaningful where `width` is at least 1
/// and `desired` fits the word.
pub open spec fn selected_bound(width: nat, desired: nat) -> nat {
    choose|bound: nat| is_selected_bound(width, desired, bound)
}

/// Whether the scan of the table stops at `index`: the candidate there is at least
/// `desired`, and every candidate before it is below `desired`.
pub open spec fn is_first_match(width: nat, desired: nat, index: nat) -> bool {
    &&& index < table_len(width)
    &&& desired <= candidate(width, index)
    &&& forall|before: nat| before < index ==> #[trigger] candidate(width, before) < desired
}

/// At most one value is the selected bound of a desired value.
pub proof fn lemma_selected_bound_is_unique(width: nat, desired: nat, first: nat, second: nat)
    requires
        is_selected_bound(width, desired, first),
        is_selected_bound(width, desired, second),
    ensures
        first == second,
{
    // each of the two is a candidate at least `desired`, so the other is not above it
}

/// The candidate at which the scan stops is the selected bound.
pub proof fn lemma_first_match_is_selected(width: nat, desired: nat, index: nat)
    requires
        1 <= width,
        is_first_match(width, desired, index),
    ensures
        is_selected_bound(width, desired, candidate(width, index)),
        selected_bound(width, desired) == candidate(width, index),
{
    let bound = candidate(width, index);
    assert forall|other: nat|
        other < table_len(width) && desired <= #[trigger] candidate(width, other) implies bound
        <= candidate(width, other) by {
        if index <= other {
            lemma_candidates_ascend(width, index, other);
        }
    }
    assert(is_selected_bound(width, desired, bound));
    lemma_selected_bound_is_unique(width, desired, bound, selected_bound(width, desired));
}

/// A scan that has passed every index below `from` without a match stops at some index
/// from `from` on, as long as `desired` fits the word.
pub proof fn lemma_scan_stops(width: nat, desired: nat, from: nat) -> (index: nat)
    requires
        1 <= width,
        desired <= max_value(width),
        from < table_len(width),
        forall|before: nat| before < from ==> #[trigger] candidate(width, before) < desired,
    ensures
        from <= index,
        is_first_match(width, desired, index),
    decreases table_len(width) - from,
{
    if desired <= candidate(width, from) {
        from
    } else {
        lemma_candidate_fits(width, from);
        lemma_scan_stops(width, desired, from + 1)
    }
}

/// Selection is total: every desired value that fits the word has a selected bound,
/// which is a candidate, is at least the desired value, and is the least such candidate.
pub proof fn lemma_selection_is_total(width: nat, desired: nat)
    requires
        1 <= width,
        desired <= max_value(width),
    ensures
        is_selected_bound(width, desired, selected_bound(width, desired)),
        desired <= selected_bound(width, desired) <= max_value(width),
{
    let index = lemma_scan_stops(width, desired, 0);
    lemma_first_match_is_selected(width, desired, index);
    lemma_candidate_fits(width, index);
}

/// Selection is monotonic: a larger desired value never gets a smaller bound.
pub proof fn lemma_selection_is_monotonic(width: nat, smaller: nat, larger: nat)
    requires
        1 <= width,
        smaller <= larger <= max_value(width),
    ensures
        selected_bound(width, smaller) <= selected_bound(width, larger),
{
    // the bound of `larger` is a candidate at least `smaller`, and the bound of
    // `smaller` is the least of those
    lemma_selection_is_total(width, smaller);
    lemma_selection_is_total(width, larger);
}

/// Selection is tight: the bound of a positive desired value is below twice that value.
pub proof fn lemma_selection_is_tight(width: nat, desired: nat)
    requires
        1 <= width,
        0 < desired <= max_value(width),
    ensures
        desired <= selected_bound(width, desired) < 2 * desired,
{
    // the scan stops behind a candidate below `desired`, and one step of the table at
    // most doubles a value and adds one
    let index = lemma_scan_stops(width, desired, 0);
    lemma_first_match_is_selected(width, desired, index);
    lemma_candidate_step(width, index);
}

/// A candidate is its own bound: selection for a value of the table is an exact match.
pub proof fn lemma_candidate_selects_itself(width: nat, value: nat)
    requires
        1 <= width,
        is_candidate(width, value),
    ensures
        selected_bound(width, value) == value,
{
    let index = choose|index: nat|
        index < table_len(width) && #[trigger] candidate(width, index) == value;
    lemma_candidate_fits(width, index);
    lemma_selection_is_total(width, value);
    lemma_selected_bound_is_unique(width, value, value, selected_bound(width, value));
}

/// Selection is idempotent: selecting again for a selected bound gives that bound.
pub proof fn lemma_selection_is_idempotent(width: nat, desired: nat)
    requires
        1 <= width,
        desired <= max_value(width),
    ensures
        selected_bound(width, selected_bound(width, desired)) == selected_bound(width, desired),
{
    lemma_selection_is_total(width, desired);
    lemma_candidate_selects_itself(width, selected_bound(width, desired));
}

/// A wider word changes no selection below the narrower word's last round value: for
/// a desired value up to the candidate at index `2 * narrow - 1`, both widths select
/// the same bound.
pub proof fn lemma_selection_ignores_wider_word(narrow: nat, wide: nat, desired: nat)
    requires
        1 <= narrow <= wide,
        desired <= candidate(narrow, (2 * narrow - 1) as nat),
    ensures
        selected_bound(narrow, desired) == selected_bound(wide, desired),
{
    let last_shared = (2 * narrow - 1) as nat;
    lemma_candidate_fits(narrow, last_shared);
    // the scan of the narrow table stops at a shared index, where the wide one stops too
    let index = lemma_scan_stops(narrow, desired, 0);
    lemma_tables_share_prefix(narrow, wide, index);
    assert forall|before: nat| before < index implies #[trigger] candidate(wide, before)
        < desired by {
        lemma_tables_share_prefix(narrow, wide, before);
    }
    lemma_first_match_is_selected(narrow, desired, index);
    lemma_first_match_is_selected(wide, desired, index);
}

} // verus!
