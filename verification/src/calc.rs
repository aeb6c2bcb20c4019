//! Counting the rolls that leave the player without a move.

use crate::dice::{
    count_below, dice_values, is_outcome, lemma_count_outcomes, outcomes_where, OUTCOME_COUNT,
};
use crate::dice::pair_sums;
use crate::rules::{lemma_columns_finite, CalcParams, Constraint, MAX_CHOSEN};
use vstd::prelude::*;
use vstd::set_lib::lemma_len_subset;

verus! {

impl Constraint {
    /// The rolls that leave no move under any of their three splits.
    pub open spec fn failing_outcomes(self) -> Set<Seq<u8>> {
        Set::new(|d: Seq<u8>| is_outcome(d) && !self.has_choice(d))
    }

    /// How many rolls leave no move.
    pub open spec fn fail_count(self) -> nat {
        self.failing_outcomes().len()
    }

    /// The test that a roll leaves no move.
    pub open spec fn no_choice(self) -> spec_fn(Seq<u8>) -> bool {
        |d: Seq<u8>| !self.has_choice(d)
    }

    /// The failing rolls are finite in number, at most [`OUTCOME_COUNT`],
    /// and as many as the indices below [`OUTCOME_COUNT`] whose roll leaves
    /// no move.
    pub proof fn lemma_fail_count(self)
        ensures
            self.failing_outcomes().finite(),
            self.fail_count() == count_below(self.no_choice(), OUTCOME_COUNT as int),
            self.fail_count() <= OUTCOME_COUNT,
    {
        lemma_count_outcomes(self.no_choice());
        assert(self.failing_outcomes() =~= outcomes_where(self.no_choice()));
    }

    /// A roll that leaves a move with more columns blocked leaves one with
    /// fewer: of two states with the same chosen columns, the one that
    /// blocks more has every failing roll of the other.
    pub proof fn lemma_blocked_subset(self, more: Constraint)
        requires
            self.chosen == more.chosen,
            self.blocked.subset_of(more.blocked),
        ensures
            self.failing_outcomes().subset_of(more.failing_outcomes()),
            self.fail_count() <= more.fail_count(),
    {
        assert forall|d: Seq<u8>| more.has_choice(d) implies self.has_choice(d) by {
            let k = choose|k: int|
                0 <= k < 3 && more.partition_has_move(
                    (#[trigger] pair_sums(d)[k]).0,
                    pair_sums(d)[k].1,
                );
            assert(self.partition_has_move(pair_sums(d)[k].0, pair_sums(d)[k].1));
        }
        more.lemma_fail_count();
        lemma_len_subset(self.failing_outcomes(), more.failing_outcomes());
    }

    /// Blocking one more column never lowers the number of failing rolls.
    pub proof fn lemma_block_column(self, column: u8)
        ensures
            self.fail_count() <= (Constraint {
                blocked: self.blocked.insert(column),
                chosen: self.chosen,
            }).fail_count(),
    {
        self.lemma_blocked_subset(
            Constraint { blocked: self.blocked.insert(column), chosen: self.chosen },
        );
    }

    /// Once the chosen columns have reached the limit, a roll fails if none
    /// of its six pair sums is among them, whatever is blocked.
    pub proof fn lemma_no_room(self, d: Seq<u8>)
        requires
            self.chosen.len() >= MAX_CHOSEN,
            is_outcome(d),
            forall|k: int|
                0 <= k < 3 ==> !self.chosen.contains((#[trigger] pair_sums(d)[k]).0)
                    && !self.chosen.contains(pair_sums(d)[k].1),
        ensures
            !self.has_choice(d),
            self.failing_outcomes().contains(d),
    {
        lemma_columns_finite(self.chosen);
        assert forall|k: int| 0 <= k < 3 implies !self.partition_has_move(
            (#[trigger] pair_sums(d)[k]).0,
            pair_sums(d)[k].1,
        ) by {
            let (sum_1, sum_2) = pair_sums(d)[k];
            self.lemma_partition_has_move(sum_1, sum_2);
            self.lemma_allows_one(sum_1);
            self.lemma_allows_one(sum_2);
        }
    }
}

/// Counts the rolls of four dice that leave no legal move under `params`.
pub fn path_calc(params: CalcParams) -> (fail_count: u32)
    ensures
        fail_count == params@.fail_count(),
        fail_count <= OUTCOME_COUNT,
{
    let mut fail_chance: u32 = 0;  // number of rolls that lose the round
    // process all possible dice results
    for n in 0..OUTCOME_COUNT
        invariant
            fail_chance == count_below(params@.no_choice(), n as int),
            fail_chance <= n,
    {
        let d = dice_values(n);
        if !params.has_choice(d) {
            // no choice in any of the partitions
            fail_chance += 1;
        }
    }
    proof {
        params@.lemma_fail_count();
    }
    fail_chance
}

} // verus!
