//! The movement rule: which columns a player may advance on.

use crate::dice::{dice_sums, pair_sums, sums_fit};
use std::collections::HashSet;
use vstd::prelude::*;
use vstd::set_lib::{lemma_len_subset, lemma_set_subset_finite, FiniteFull, FiniteRange};
use vstd::std_specs::hash::group_hash_axioms;

verus! {

/// Lowest column of the board.
pub const MIN_COLUMN: u8 = 2;

/// Highest column of the board.
pub const MAX_COLUMN: u8 = 12;

/// Most columns a player may advance on within one turn.
pub const MAX_CHOSEN: usize = 3;

/// The state of the board that decides which moves are legal.
#[derive(Debug, PartialEq, Eq)]
pub struct CalcParams {
    /// Columns that no player may advance on.
    pub blocked: HashSet<u8>,
    /// Columns the player has already advanced on this turn.
    pub chosen: HashSet<u8>,
}

/// What a [`CalcParams`] holds, as two sets of columns.
pub struct Constraint {
    pub blocked: Set<u8>,
    pub chosen: Set<u8>,
}

impl View for CalcParams {
    type V = Constraint;

    open spec fn view(&self) -> Constraint {
        Constraint { blocked: self.blocked@, chosen: self.chosen@ }
    }
}

/// Whether every member of `columns` is a column of the board.
pub open spec fn on_board(columns: Set<u8>) -> bool {
    forall|c: u8| columns.contains(c) ==> MIN_COLUMN <= c <= MAX_COLUMN
}

impl Constraint {
    /// A state that a game can reach: only columns of the board, and no
    /// more chosen than a turn allows.
    pub open spec fn valid(self) -> bool {
        &&& on_board(self.blocked)
        &&& on_board(self.chosen)
        &&& self.chosen.len() <= MAX_CHOSEN
    }

    /// Whether the player may advance on all of `advance` at once: none of
    /// them is blocked, and together with the columns already chosen they
    /// are no more than a turn allows.
    pub open spec fn allows(self, advance: Set<u8>) -> bool {
        &&& advance.disjoint(self.blocked)
        &&& self.chosen.union(advance).len() <= MAX_CHOSEN
    }

    /// Whether the split with pair sums `sum_1` and `sum_2` offers a move:
    /// on both columns, or on either alone.
    pub open spec fn partition_has_move(self, sum_1: u8, sum_2: u8) -> bool {
        ||| self.allows(set![sum_1, sum_2])
        ||| self.allows(set![sum_1])
        ||| self.allows(set![sum_2])
    }

    /// Whether the roll `d` leaves a move under at least one of its three
    /// splits.
    pub open spec fn has_choice(self, d: Seq<u8>) -> bool {
        exists|k: int|
            0 <= k < 3 && self.partition_has_move(
                (#[trigger] pair_sums(d)[k]).0,
                pair_sums(d)[k].1,
            )
    }
}

/// A set of columns is finite and has at most 256 members.
pub proof fn lemma_columns_finite(columns: Set<u8>)
    ensures
        columns.finite(),
        columns.len() <= 256,
{
    u8::full_properties();
    let all = Set::<u8>::full();
    lemma_set_subset_finite(all, columns);
    lemma_len_subset(columns, all);
    u8::range_properties(0, 255);
    assert(all =~= Set::<u8>::range_inclusive(0, 255));
}

impl Constraint {
    /// Advancing on one column is allowed exactly when it is not blocked
    /// and, once added to the chosen columns, leaves them within the limit.
    pub proof fn lemma_allows_one(self, column: u8)
        ensures
            self.allows(set![column]) == (!self.blocked.contains(column) && self.chosen.insert(
                column,
            ).len() <= MAX_CHOSEN),
    {
        assert(self.chosen.union(set![column]) =~= self.chosen.insert(column));
        assert(set![column].contains(column));
    }

    /// Advancing on two columns at once is allowed exactly when neither is
    /// blocked and, once both are added to the chosen columns, these stay
    /// within the limit.
    pub proof fn lemma_allows_two(self, sum_1: u8, sum_2: u8)
        ensures
            self.allows(set![sum_1, sum_2]) == (!self.blocked.contains(sum_1)
                && !self.blocked.contains(sum_2) && self.chosen.insert(sum_1).insert(sum_2).len()
                <= MAX_CHOSEN),
    {
        assert(self.chosen.union(set![sum_1, sum_2]) =~= self.chosen.insert(sum_1).insert(sum_2));
        assert(set![sum_1, sum_2].contains(sum_1));
        assert(set![sum_1, sum_2].contains(sum_2));
    }

    /// Where two columns are allowed at once, each is allowed alone: a
    /// split offers a move exactly when one of its columns does.
    pub proof fn lemma_partition_has_move(self, sum_1: u8, sum_2: u8)
        ensures
            self.partition_has_move(sum_1, sum_2) == (self.allows(set![sum_1]) || self.allows(
                set![sum_2],
            )),
    {
        self.lemma_allows_one(sum_1);
        self.lemma_allows_one(sum_2);
        self.lemma_allows_two(sum_1, sum_2);
        let both = self.chosen.insert(sum_1).insert(sum_2);
        lemma_columns_finite(both);
        lemma_len_subset(self.chosen.insert(sum_1), both);
        lemma_len_subset(self.chosen.insert(sum_2), both);
    }
}

/// How many columns are in play once `column` joins `chosen`.
fn count_with(chosen: &HashSet<u8>, column: u8) -> (n: usize)
    ensures
        n == chosen@.insert(column).len(),
{
    broadcast use group_hash_axioms;

    proof {
        lemma_columns_finite(chosen@);
    }
    if chosen.contains(&column) {
        assert(chosen@.insert(column) =~= chosen@);
        chosen.len()
    } else {
        chosen.len() + 1
    }
}

/// How many columns are in play once `first` and `second` join `chosen`.
fn count_with_both(chosen: &HashSet<u8>, first: u8, second: u8) -> (n: usize)
    ensures
        n == chosen@.insert(first).insert(second).len(),
{
    broadcast use group_hash_axioms;

    proof {
        lemma_columns_finite(chosen@.insert(first));
    }
    let with_first = count_with(chosen, first);
    if second == first || chosen.contains(&second) {
        assert(chosen@.insert(first).insert(second) =~= chosen@.insert(first));
        with_first
    } else {
        with_first + 1
    }
}

impl CalcParams {
    /// Whether the split with pair sums `sum_1` and `sum_2` offers a move.
    pub fn partition_has_move(&self, sum_1: u8, sum_2: u8) -> (has_move: bool)
        ensures
            has_move == self@.partition_has_move(sum_1, sum_2),
    {
        broadcast use group_hash_axioms;

        let sum_1_blocked = self.blocked.contains(&sum_1);
        let sum_2_blocked = self.blocked.contains(&sum_2);
        let both_can_go = count_with_both(&self.chosen, sum_1, sum_2) <= MAX_CHOSEN;
        let sum_1_can_go = count_with(&self.chosen, sum_1) <= MAX_CHOSEN;
        let sum_2_can_go = count_with(&self.chosen, sum_2) <= MAX_CHOSEN;
        proof {
            self@.lemma_allows_two(sum_1, sum_2);
            self@.lemma_allows_one(sum_1);
            self@.lemma_allows_one(sum_2);
        }
        // can progress on both sums
        if !sum_1_blocked && !sum_2_blocked && both_can_go {
            return true;
        }
        // can progress on the first sum only, or on the second sum only
        (!sum_1_blocked && sum_1_can_go) || (!sum_2_blocked && sum_2_can_go)
    }

    /// Whether the roll `d` leaves a move under at least one of its three
    /// splits.
    pub fn has_choice(&self, d: [u8; 4]) -> (has_choice: bool)
        requires
            sums_fit(d@),
        ensures
            has_choice == self@.has_choice(d@),
    {
        let sums = dice_sums(d);
        let mut has_choice = false;
        for k in 0..3
            invariant
                sums@ == pair_sums(d@),
                has_choice == exists|j: int|
                    0 <= j < k && self@.partition_has_move(
                        (#[trigger] pair_sums(d@)[j]).0,
                        pair_sums(d@)[j].1,
                    ),
        {
            let (sum_1, sum_2) = sums[k];
            if self.partition_has_move(sum_1, sum_2) {
                has_choice = true;
            }
        }
        has_choice
    }
}

} // verus!
