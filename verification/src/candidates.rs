//! The candidate values of a word width, as mathematics.
//!
//! For a word of `width` bits the candidates are, in order: 0, 1, then for each
//! bit position `i` from 1 to `width - 1` the two round values `2 * 2^(i-1)` and
//! `3 * 2^(i-1)`, and last the largest value of the word, `2^width - 1`.

use vstd::arithmetic::power::lemma_pow0;
use vstd::arithmetic::power2::{lemma_pow2, lemma_pow2_pos, lemma_pow2_unfold, pow2};
use vstd::prelude::*;

verus! {

/// The largest value that a word of `width` bits holds. For the widths of the unsigned
/// integer types, `vstd::layout::unsigned_int_max_values` relates it to their `MAX`.
pub open spec fn max_value(width: nat) -> nat {
    (pow2(width) - 1) as nat
}

/// The number of candidates of a word of `width` bits.
pub open spec fn table_len(width: nat) -> nat {
    2 * width + 1
}

/// The round value of bit position `position`: `2 * 2^(position-1)` for part 0,
/// `3 * 2^(position-1)` for any other part.
pub open spec fn round_value(position: nat, part: nat) -> nat {
    if part == 0 {
        2 * pow2((position - 1) as nat)
    } else {
        3 * pow2((position - 1) as nat)
    }
}

/// The candidate at `index` for a word of `width` bits. Indices 0 and 1 hold 0 and 1,
/// index `2 * i + part` holds the round value of position `i`, and index `2 * width`,
/// the last one, holds the largest value of the word.
pub open spec fn candidate(width: nat, index: nat) -> nat {
    if index < 2 {
        index
    } else if index < 2 * width {
        round_value(index / 2, index % 2)
    } else {
        max_value(width)
    }
}

/// The whole table of a word of `width` bits, in ascending order.
pub open spec fn candidates(width: nat) -> Seq<nat> {
    Seq::new(table_len(width), |index: int| candidate(width, index as nat))
}

/// Whether `value` is one of the candidates of a word of `width` bits.
pub open spec fn is_candidate(width: nat, value: nat) -> bool {
    exists|index: nat| index < table_len(width) && #[trigger] candidate(width, index) == value
}

/// The first two powers of two.
pub(crate) proof fn lemma_pow2_base()
    ensures
        pow2(0) == 1,
        pow2(1) == 2,
{
    lemma_pow2(0);
    lemma_pow0(2);
    lemma_pow2_unfold(1);
}

/// The table of a word of `width` bits has `2 * width + 1` entries, begins with 0 and 1,
/// and ends with the largest value of the word.
pub proof fn lemma_table_ends(width: nat)
    requires
        1 <= width,
    ensures
        candidates(width).len() == 2 * width + 1,
        candidates(width)[0] == 0,
        candidates(width)[1] == 1,
        candidates(width).last() == max_value(width),
{
}

/// A candidate is at least its predecessor and at most one more than twice its predecessor.
pub proof fn lemma_candidate_step(width: nat, index: nat)
    requires
        1 <= width,
        1 <= index < table_len(width),
    ensures
        candidate(width, (index - 1) as nat) <= candidate(width, index),
        candidate(width, index) <= 2 * candidate(width, (index - 1) as nat) + 1,
        3 <= width ==> candidate(width, (index - 1) as nat) < candidate(width, index),
{
    if index < 3 {
        lemma_pow2_base();
    } else if index < 2 * width {
        let position = index / 2;
        lemma_pow2_pos((position - 1) as nat);
        if index % 2 == 0 {
            lemma_pow2_unfold((position - 1) as nat);
        }
    } else {
        lemma_pow2_unfold(width);
        lemma_pow2_pos((width - 1) as nat);
        if width >= 2 {
            lemma_pow2_unfold((width - 1) as nat);
            lemma_pow2_pos((width - 2) as nat);
            if width >= 3 {
                lemma_pow2_unfold((width - 2) as nat);
                lemma_pow2_pos((width - 3) as nat);
            }
        }
    }
}

/// The table never descends: a later candidate is at least an earlier one.
pub proof fn lemma_candidates_ascend(width: nat, low: nat, high: nat)
    requires
        1 <= width,
        low <= high < table_len(width),
    ensures
        candidate(width, low) <= candidate(width, high),
    decreases high,
{
    if low < high {
        lemma_candidates_ascend(width, low, (high - 1) as nat);
        lemma_candidate_step(width, high);
    }
}

/// From three bits on the table strictly ascends, so no value occurs twice in it.
/// (With one or two bits the largest value of the word is also the round value before it.)
pub proof fn lemma_candidates_strictly_ascend(width: nat, low: nat, high: nat)
    requires
        3 <= width,
        low < high < table_len(width),
    ensures
        candidate(width, low) < candidate(width, high),
    decreases high,
{
    lemma_candidate_step(width, high);
    if low + 1 < high {
        lemma_candidates_strictly_ascend(width, low, (high - 1) as nat);
    }
}

/// Every candidate fits the word: none is above the largest value, which is the last one.
pub proof fn lemma_candidate_fits(width: nat, index: nat)
    requires
        1 <= width,
        index < table_len(width),
    ensures
        candidate(width, index) <= max_value(width),
        candidate(width, (table_len(width) - 1) as nat) == max_value(width),
{
    lemma_candidates_ascend(width, index, (table_len(width) - 1) as nat);
}

/// A wider word keeps every candidate of a narrower one but its last: the two tables
/// agree on all indices below `2 * narrow`.
pub proof fn lemma_tables_share_prefix(narrow: nat, wide: nat, index: nat)
    requires
        1 <= narrow <= wide,
        index < 2 * narrow,
    ensures
        candidate(narrow, index) == candidate(wide, index),
{
}

} // verus!
