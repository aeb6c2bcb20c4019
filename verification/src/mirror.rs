//! Reflection about seven: turning each face `x` into `7 - x` turns each
//! column `v` into `14 - v` and keeps the number of failing rolls.

use crate::dice::{is_outcome, pair_sums};
use crate::rules::{lemma_columns_finite, on_board, Constraint};
use vstd::prelude::*;
use vstd::relations::injective_on;
use vstd::set_lib::lemma_map_size;

verus! {

/// The column opposite to `column`: two pair sums that add up to fourteen.
pub open spec fn mirror_column(column: u8) -> u8 {
    (14 - column) as u8
}

/// The columns opposite to those of `columns`.
pub open spec fn mirror_columns(columns: Set<u8>) -> Set<u8> {
    columns.map(|c: u8| mirror_column(c))
}

/// The roll that shows `7 - x` wherever `d` shows `x`.
pub open spec fn mirror_outcome(d: Seq<u8>) -> Seq<u8> {
    seq![(7 - d[0]) as u8, (7 - d[1]) as u8, (7 - d[2]) as u8, (7 - d[3]) as u8]
}

impl Constraint {
    /// The same state with every column replaced by the opposite one.
    pub open spec fn mirrored(self) -> Constraint {
        Constraint {
            blocked: mirror_columns(self.blocked),
            chosen: mirror_columns(self.chosen),
        }
    }
}

/// Over columns of the board, the mirrored set holds exactly the opposites:
/// it stays on the board, has as many members, and holds a column of the
/// board exactly when the set holds its opposite.
pub proof fn lemma_mirror_columns(columns: Set<u8>)
    requires
        on_board(columns),
    ensures
        on_board(mirror_columns(columns)),
        mirror_columns(columns).len() == columns.len(),
        forall|c: u8|
            c <= 14 ==> (mirror_columns(columns).contains(mirror_column(c)) <==> columns.contains(
                c,
            )),
{
    let f = |c: u8| mirror_column(c);
    lemma_columns_finite(columns);
    assert(injective_on(f, columns));
    lemma_map_size(columns, mirror_columns(columns), f);
    assert forall|c: u8| c <= 14 && columns.contains(c) implies mirror_columns(columns).contains(
        mirror_column(c),
    ) by {
        assert(mirror_column(c) == f(c));
    }
}

/// Mirroring a set of columns of the board with one more of them added
/// adds the opposite column to the mirrored set.
proof fn lemma_mirror_insert(columns: Set<u8>, column: u8)
    requires
        on_board(columns),
        2 <= column <= 12,
    ensures
        mirror_columns(columns.insert(column)) == mirror_columns(columns).insert(
            mirror_column(column),
        ),
{
    let f = |c: u8| mirror_column(c);
    let grown = columns.insert(column);
    assert forall|m: u8| mirror_columns(grown).contains(m) implies mirror_columns(columns).insert(
        mirror_column(column),
    ).contains(m) by {
        let c = choose|c: u8| grown.contains(c) && m == f(c);
        if c != column {
            assert(columns.contains(c) && m == f(c));
        }
    }
    assert forall|m: u8|
        mirror_columns(columns).insert(mirror_column(column)).contains(
            m,
        ) implies mirror_columns(grown).contains(m) by {
        if m == mirror_column(column) {
            assert(grown.contains(column) && m == f(column));
        } else {
            let c = choose|c: u8| columns.contains(c) && m == f(c);
            assert(grown.contains(c) && m == f(c));
        }
    }
    assert(mirror_columns(grown) =~= mirror_columns(columns).insert(mirror_column(column)));
}

impl Constraint {
    /// Advancing on one column of the board is allowed exactly when
    /// advancing on the opposite column is allowed in the mirrored state.
    pub proof fn lemma_mirror_allows_one(self, column: u8)
        requires
            on_board(self.blocked),
            on_board(self.chosen),
            2 <= column <= 12,
        ensures
            self.mirrored().allows(set![mirror_column(column)]) == self.allows(set![column]),
    {
        self.lemma_allows_one(column);
        self.mirrored().lemma_allows_one(mirror_column(column));
        lemma_mirror_columns(self.blocked);
        lemma_mirror_insert(self.chosen, column);
        lemma_mirror_columns(self.chosen.insert(column));
    }

    /// A roll leaves a move exactly when the mirrored roll leaves one in
    /// the mirrored state.
    pub proof fn lemma_mirror_has_choice(self, d: Seq<u8>)
        requires
            on_board(self.blocked),
            on_board(self.chosen),
            is_outcome(d),
        ensures
            is_outcome(mirror_outcome(d)),
            mirror_outcome(mirror_outcome(d)) == d,
            self.mirrored().has_choice(mirror_outcome(d)) == self.has_choice(d),
    {
        let m = mirror_outcome(d);
        assert(mirror_outcome(m) =~= d);
        assert forall|k: int| 0 <= k < 3 implies self.mirrored().partition_has_move(
            (#[trigger] pair_sums(m)[k]).0,
            pair_sums(m)[k].1,
        ) == self.partition_has_move(pair_sums(d)[k].0, pair_sums(d)[k].1) by {
            let (sum_1, sum_2) = pair_sums(d)[k];
            assert(pair_sums(m)[k] == (mirror_column(sum_1), mirror_column(sum_2)));
            self.lemma_partition_has_move(sum_1, sum_2);
            self.mirrored().lemma_partition_has_move(mirror_column(sum_1), mirror_column(sum_2));
            self.lemma_mirror_allows_one(sum_1);
            self.lemma_mirror_allows_one(sum_2);
        }
        if self.has_choice(d) {
            let k = choose|k: int|
                0 <= k < 3 && self.partition_has_move(
                    (#[trigger] pair_sums(d)[k]).0,
                    pair_sums(d)[k].1,
                );
            assert(self.mirrored().partition_has_move(pair_sums(m)[k].0, pair_sums(m)[k].1));
        }
        if self.mirrored().has_choice(m) {
            let k = choose|k: int|
                0 <= k < 3 && self.mirrored().partition_has_move(
                    (#[trigger] pair_sums(m)[k]).0,
                    pair_sums(m)[k].1,
                );
            assert(self.partition_has_move(pair_sums(d)[k].0, pair_sums(d)[k].1));
        }
    }

    /// Reflection about seven keeps the number of failing rolls: the
    /// mirrored state fails on exactly the mirrored rolls.
    pub proof fn lemma_mirror_fail_count(self)
        requires
            on_board(self.blocked),
            on_board(self.chosen),
        ensures
            self.mirrored().failing_outcomes() == self.failing_outcomes().map(
                |d: Seq<u8>| mirror_outcome(d),
            ),
            self.mirrored().fail_count() == self.fail_count(),
    {
        let f = |d: Seq<u8>| mirror_outcome(d);
        let here = self.failing_outcomes();
        let there = self.mirrored().failing_outcomes();
        assert forall|x: Seq<u8>| there.contains(x) implies here.map(f).contains(x) by {
            lemma_mirror_columns(self.blocked);
            lemma_mirror_columns(self.chosen);
            self.mirrored().lemma_mirror_has_choice(x);
            let d = mirror_outcome(x);
            self.lemma_mirror_has_choice(d);
            assert(here.contains(d) && x == f(d));
        }
        assert forall|x: Seq<u8>| here.map(f).contains(x) implies there.contains(x) by {
            let d = choose|d: Seq<u8>| here.contains(d) && x == f(d);
            self.lemma_mirror_has_choice(d);
        }
        assert(there =~= here.map(f));
        assert forall|a: Seq<u8>, b: Seq<u8>|
            here.contains(a) && here.contains(b) && #[trigger] f(a) == #[trigger] f(
                b,
            ) implies a == b by {
            self.lemma_mirror_has_choice(a);
            self.lemma_mirror_has_choice(b);
        }
        assert(injective_on(f, here));
        self.lemma_fail_count();
        lemma_map_size(here, there, f);
    }
}

} // verus!
