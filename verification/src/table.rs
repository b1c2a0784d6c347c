//! The bound table of a word width, and the selection and dispatch that run on it.

use crate::candidates::{
    candidate, candidates, lemma_candidate_fits, lemma_pow2_base, max_value, table_len,
};
use crate::selection::{
    is_first_match, lemma_first_match_is_selected, lemma_selection_is_tight,
    lemma_selection_is_total, selected_bound,
};
use vstd::arithmetic::power2::{
    lemma2_to64, lemma_pow2_pos, lemma_pow2_strictly_increases, lemma_pow2_unfold, pow2,
};
use vstd::prelude::*;

verus! {

/// The candidates of one word width, in ascending order.
pub struct BoundTable {
    width: u32,
    entries: Vec<u64>,
}

/// No power of two up to the 64th exceeds the 64th.
proof fn lemma_pow2_within_64(exponent: nat)
    requires
        exponent <= 64,
    ensures
        pow2(exponent) <= 0x1_0000_0000_0000_0000,
{
    lemma2_to64();
    if exponent < 64 {
        lemma_pow2_strictly_increases(exponent, 64);
    }
}

impl BoundTable {
    #[verifier::type_invariant]
    spec fn well_formed(self) -> bool {
        &&& 1 <= self.width <= 64
        &&& self.entries@.len() == table_len(self.width as nat)
        &&& forall|index: int|
            0 <= index < self.entries@.len() ==> #[trigger] self.entries@[index] as nat
                == candidate(self.width as nat, index as nat)
    }

    /// The word width that the table was made for, between 1 and 64 bits.
    pub closed spec fn spec_width(&self) -> u32 {
        self.width
    }

    /// The entries of the table, in order.
    pub closed spec fn view(&self) -> Seq<nat> {
        Seq::new(self.entries@.len(), |index: int| self.entries@[index] as nat)
    }

    /// Makes the table of a word of `width` bits: 0, 1, the two round values of each
    /// bit position from 1 to `width - 1`, and the largest value of the word.
    pub fn generate(width: u32) -> (table: BoundTable)
        requires
            1 <= width <= 64,
        ensures
            table.width() == width,
            table@ == candidates(width as nat),
    {
        let mut entries: Vec<u64> = Vec::new();
        entries.push(0);
        entries.push(1);
        let mut unit: u64 = 1;
        let mut position: u32 = 1;
        proof {
            lemma_pow2_base();
        }
        while position < width
            invariant
                1 <= position <= width <= 64,
                unit == pow2((position - 1) as nat),
                entries@.len() == 2 * position,
                forall|index: int|
                    0 <= index < entries@.len() ==> #[trigger] entries@[index] as nat == candidate(
                        width as nat,
                        index as nat,
                    ),
            decreases width - position,
        {
            proof {
                lemma_pow2_unfold(position as nat);
                lemma_pow2_unfold((position + 1) as nat);
                lemma_pow2_within_64((position + 1) as nat);
            }
            entries.push(2 * unit);
            entries.push(3 * unit);
            unit = 2 * unit;
            position += 1;
        }
        proof {
            lemma_pow2_pos((width - 1) as nat);
            lemma_pow2_unfold(width as nat);
            lemma_pow2_within_64(width as nat);
        }
        entries.push(unit - 1 + unit);
        BoundTable { width, entries }
    }

    /// The word width that the table was made for. A table holds exactly the candidates
    /// of its width.
    #[verifier::when_used_as_spec(spec_width)]
    pub fn width(&self) -> (width: u32)
        ensures
            width == self.spec_width(),
            1 <= width <= 64,
            self@ == candidates(width as nat),
    {
        proof {
            use_type_invariant(self);
        }
        self.width
    }

    /// The number of entries: one more than twice the width.
    pub fn len(&self) -> (len: usize)
        ensures
            len == self@.len(),
            len == table_len(self.width() as nat),
    {
        proof {
            use_type_invariant(self);
        }
        self.entries.len()
    }

    /// The entry at `index`, or `None` where the table has no such index.
    pub fn get(&self, index: usize) -> (entry: Option<u64>)
        ensures
            match entry {
                Some(value) => index < self@.len() && value as nat == self@[index as int]
                    && value as nat == candidate(self.width() as nat, index as nat),
                None => index >= self@.len(),
            },
    {
        proof {
            use_type_invariant(self);
        }
        if index < self.entries.len() {
            Some(self.entries[index])
        } else {
            None
        }
    }

    /// The last entry: the largest value of the word, which no desired value of the
    /// word exceeds.
    pub fn max(&self) -> (max: u64)
        ensures
            max as nat == max_value(self.width() as nat),
            max as nat == self@[self@.len() - 1],
    {
        proof {
            use_type_invariant(self);
        }
        self.entries[self.entries.len() - 1]
    }

    /// All entries, in ascending order.
    pub fn entries(&self) -> (entries: &[u64])
        ensures
            entries@.len() == self@.len(),
            forall|index: int|
                0 <= index < entries@.len() ==> #[trigger] entries@[index] as nat == self@[index],
    {
        self.entries.as_slice()
    }

    /// The bound that `select` returns for `desired`, as a word.
    pub open spec fn spec_select(&self, desired: u64) -> u64 {
        selected_bound(self.width() as nat, desired as nat) as u64
    }

    /// Selects the bound for `desired`: scans the table in ascending order and returns
    /// the first entry that is at least `desired`, which is the smallest such entry.
    /// For a positive `desired` it is below twice `desired`.
    ///
    /// `desired` has to fit the word of the table, that is, be at most `max()`.
    #[verifier::when_used_as_spec(spec_select)]
    pub fn select(&self, desired: u64) -> (bound: u64)
        requires
            desired <= max_value(self.width() as nat),
        ensures
            bound as nat == selected_bound(self.width() as nat, desired as nat),
            bound == self.spec_select(desired),
            desired <= bound <= max_value(self.width() as nat),
            desired > 0 ==> bound < 2 * desired,
    {
        proof {
            use_type_invariant(self);
        }
        let mut index: usize = 0;
        while index < self.entries.len()
            invariant
                index <= self.entries@.len(),
                self.well_formed(),
                desired <= max_value(self.width as nat),
                forall|before: int| 0 <= before < index ==> #[trigger] self.entries@[before] < desired,
            decreases self.entries@.len() - index,
        {
            let entry: u64 = self.entries[index];
            if entry >= desired {
                proof {
                    let width = self.width as nat;
                    assert forall|before: nat| before < index implies #[trigger] candidate(
                        width,
                        before,
                    ) < desired by {
                        assert(self.entries@[before as int] < desired);
                    }
                    assert(is_first_match(width, desired as nat, index as nat));
                    lemma_first_match_is_selected(width, desired as nat, index as nat);
                    lemma_candidate_fits(width, index as nat);
                    if desired > 0 {
                        lemma_selection_is_tight(width, desired as nat);
                    }
                }
                return entry;
            }
            index += 1;
        }
        let bound: u64 = unreachable(self, desired);
        proof {
            lemma_selection_is_total(self.width as nat, desired as nat);
            if desired > 0 {
                lemma_selection_is_tight(self.width as nat, desired as nat);
            }
        }
        bound
    }

    /// Realizes the one branch of a family that belongs to the bound selected for
    /// `desired`, and returns its value. `branch` is the family: called with a bound, it
    /// realizes the branch of that bound. Only the selected branch has to be realizable,
    /// and no other branch is called.
    ///
    /// `desired` has to fit the word of the table, that is, be at most `max()`.
    pub fn dispatch<O, F: FnOnce(u64) -> O>(&self, desired: u64, branch: F) -> (out: O)
        requires
            desired <= max_value(self.width() as nat),
            call_requires(branch, (self.select(desired),)),
        ensures
            call_ensures(branch, (self.select(desired),), out),
    {
        let actual: u64 = self.select(desired);
        branch(actual)
    }
}

/// The place behind a scan that met no entry at or above `desired`. A table ends in the
/// largest value of its word, so for a `desired` that fits the word no scan gets here:
/// the two conditions below contradict each other, and nothing can call this function.
pub fn unreachable(table: &BoundTable, desired: u64) -> (bound: u64)
    requires
        desired <= max_value(table.width() as nat),
        forall|index: int| 0 <= index < table@.len() ==> #[trigger] table@[index] < desired,
    ensures
        bound as nat == selected_bound(table.width() as nat, desired as nat),
{
    proof {
        use_type_invariant(table);
        let last = (table_len(table.width as nat) - 1) as nat;
        lemma_candidate_fits(table.width as nat, last);
        assert(table@[last as int] == max_value(table.width as nat));
    }
    desired
}

} // verus!
