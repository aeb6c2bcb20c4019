//! The four dice: every roll by its index, and the three ways to pair them.

use vstd::prelude::*;

verus! {

/// Number of distinct ordered rolls of four six-sided dice.
pub const OUTCOME_COUNT: u32 = 1296;

/// A roll: four faces, each between one and six.
pub open spec fn is_outcome(d: Seq<u8>) -> bool {
    &&& d.len() == 4
    &&& 1 <= d[0] <= 6
    &&& 1 <= d[1] <= 6
    &&& 1 <= d[2] <= 6
    &&& 1 <= d[3] <= 6
}

/// The roll with index `n`: die `i` shows digit `i` of `n` in base six,
/// plus one.
pub open spec fn outcome_at(n: int) -> Seq<u8> {
    seq![
        (n % 6 + 1) as u8,
        (n / 6 % 6 + 1) as u8,
        (n / 36 % 6 + 1) as u8,
        (n / 216 % 6 + 1) as u8,
    ]
}

/// The index below [`OUTCOME_COUNT`] at which [`outcome_at`] gives `d`.
pub open spec fn index_of(d: Seq<u8>) -> int {
    (d[0] - 1) + 6 * (d[1] - 1) + 36 * (d[2] - 1) + 216 * (d[3] - 1)
}

/// The roll with index `n`, one face per die.
///
/// Indices from [`OUTCOME_COUNT`] on repeat the rolls from the start.
pub fn dice_values(n: u32) -> (ret: [u8; 4])
    ensures
        ret@ == outcome_at(n as int),
        is_outcome(ret@),
{
    let mut rest: u32 = n;
    let mut ret: [u8; 4] = [0; 4];
    for i in 0..4
        invariant
            i == 0 ==> rest == n,
            i == 1 ==> rest == n / 6,
            i == 2 ==> rest == n / 36,
            i == 3 ==> rest == n / 216,
            i > 0 ==> ret[0] == n % 6 + 1,
            i > 1 ==> ret[1] == n / 6 % 6 + 1,
            i > 2 ==> ret[2] == n / 36 % 6 + 1,
            i > 3 ==> ret[3] == n / 216 % 6 + 1,
    {
        ret[i] = ((rest % 6) + 1) as u8;
        rest = rest / 6;
    }
    assert(ret@ =~= outcome_at(n as int));
    ret
}

/// Whether all six sums of two of the four values fit in a `u8`.
pub open spec fn sums_fit(d: Seq<u8>) -> bool {
    &&& d.len() == 4
    &&& d[0] + d[1] <= u8::MAX
    &&& d[0] + d[2] <= u8::MAX
    &&& d[0] + d[3] <= u8::MAX
    &&& d[1] + d[2] <= u8::MAX
    &&& d[1] + d[3] <= u8::MAX
    &&& d[2] + d[3] <= u8::MAX
}

/// The three ways to split four dice into two pairs, each given by its two
/// pair sums: first with second, first with third, first with fourth.
pub open spec fn pair_sums(d: Seq<u8>) -> Seq<(u8, u8)> {
    seq![
        ((d[0] + d[1]) as u8, (d[2] + d[3]) as u8),
        ((d[0] + d[2]) as u8, (d[1] + d[3]) as u8),
        ((d[0] + d[3]) as u8, (d[1] + d[2]) as u8),
    ]
}

/// Sum of all four dice.
pub open spec fn total(d: Seq<u8>) -> int {
    d[0] + d[1] + d[2] + d[3]
}

/// The pair sums of the three splits of `d` into two pairs.
///
/// Whichever split is taken, its two sums add up to the total of the four
/// dice.
pub fn dice_sums(d: [u8; 4]) -> (ret: [(u8, u8); 3])
    requires
        sums_fit(d@),
    ensures
        ret@ == pair_sums(d@),
        forall|k: int| 0 <= k < 3 ==> (#[trigger] ret[k]).0 + ret[k].1 == total(d@),
{
    let ret = [
        (d[0] + d[1], d[2] + d[3]),
        (d[0] + d[2], d[1] + d[3]),
        (d[0] + d[3], d[1] + d[2]),
    ];
    assert(ret@ =~= pair_sums(d@));
    ret
}

/// Every index gives a roll: four faces between one and six.
pub proof fn lemma_outcome_at_is_outcome(n: int)
    ensures
        is_outcome(outcome_at(n)),
{
}

/// An index below [`OUTCOME_COUNT`] is found again from its roll.
pub proof fn lemma_index_of_outcome_at(n: int)
    requires
        0 <= n < OUTCOME_COUNT,
    ensures
        index_of(outcome_at(n)) == n,
{
}

/// The base-six digits of `a + 6 b + 36 c + 216 e` are `a`, `b`, `c`, `e`.
proof fn lemma_base_six_digits(a: int, b: int, c: int, e: int)
    requires
        0 <= a < 6,
        0 <= b < 6,
        0 <= c < 6,
        0 <= e < 6,
    ensures
        (a + 6 * b + 36 * c + 216 * e) % 6 == a,
        (a + 6 * b + 36 * c + 216 * e) / 6 % 6 == b,
        (a + 6 * b + 36 * c + 216 * e) / 36 % 6 == c,
        (a + 6 * b + 36 * c + 216 * e) / 216 % 6 == e,
{
    let n = a + 6 * b + 36 * c + 216 * e;
    assert(n / 6 == b + 6 * c + 36 * e);
    assert(n / 36 == c + 6 * e);
    assert(n / 216 == e);
}

/// Every roll has an index below [`OUTCOME_COUNT`], and that index gives
/// the roll back.
pub proof fn lemma_outcome_at_index_of(d: Seq<u8>)
    requires
        is_outcome(d),
    ensures
        0 <= index_of(d) < OUTCOME_COUNT,
        outcome_at(index_of(d)) == d,
{
    lemma_base_six_digits(d[0] - 1, d[1] - 1, d[2] - 1, d[3] - 1);
    assert(outcome_at(index_of(d)) =~= d);
}

/// No roll comes twice: two indices below [`OUTCOME_COUNT`] with the same
/// roll are the same index.
pub proof fn lemma_outcomes_distinct(m: int, n: int)
    requires
        0 <= m < OUTCOME_COUNT,
        0 <= n < OUTCOME_COUNT,
        outcome_at(m) == outcome_at(n),
    ensures
        m == n,
{
    lemma_index_of_outcome_at(m);
    lemma_index_of_outcome_at(n);
}

/// No roll is left out: each is the roll of some index below
/// [`OUTCOME_COUNT`].
pub proof fn lemma_outcomes_complete(d: Seq<u8>)
    requires
        is_outcome(d),
    ensures
        exists|n: int| 0 <= n < OUTCOME_COUNT && outcome_at(n) == d,
{
    lemma_outcome_at_index_of(d);
}

/// The rolls that satisfy `p`.
pub open spec fn outcomes_where(p: spec_fn(Seq<u8>) -> bool) -> Set<Seq<u8>> {
    Set::new(|d: Seq<u8>| is_outcome(d) && p(d))
}

/// All rolls of four dice.
pub open spec fn all_outcomes() -> Set<Seq<u8>> {
    outcomes_where(|d: Seq<u8>| true)
}

/// The rolls with an index below `k` that satisfy `p`.
pub open spec fn outcomes_below(p: spec_fn(Seq<u8>) -> bool, k: int) -> Set<Seq<u8>> {
    Set::new(|d: Seq<u8>| is_outcome(d) && index_of(d) < k && p(d))
}

/// How many indices below `k` have a roll that satisfies `p`.
pub open spec fn count_below(p: spec_fn(Seq<u8>) -> bool, k: int) -> nat
    decreases k,
{
    if k <= 0 {
        0
    } else if p(outcome_at(k - 1)) {
        count_below(p, k - 1) + 1
    } else {
        count_below(p, k - 1)
    }
}

/// Counting indices counts rolls: the rolls below index `k` that satisfy
/// `p` are as many as the indices below `k` whose roll satisfies `p`.
pub proof fn lemma_count_below(p: spec_fn(Seq<u8>) -> bool, k: int)
    requires
        0 <= k <= OUTCOME_COUNT,
    ensures
        outcomes_below(p, k).finite(),
        outcomes_below(p, k).len() == count_below(p, k),
        count_below(p, k) <= k,
    decreases k,
{
    if k == 0 {
        assert(outcomes_below(p, k) =~= Set::empty());
    } else {
        lemma_count_below(p, k - 1);
        let last = outcome_at(k - 1);
        lemma_index_of_outcome_at(k - 1);
        let before = outcomes_below(p, k - 1);
        let grown = if p(last) {
            before.insert(last)
        } else {
            before
        };
        assert forall|d: Seq<u8>| outcomes_below(p, k).contains(d) <==> grown.contains(d) by {
            if is_outcome(d) {
                lemma_outcome_at_index_of(d);
            }
        }
        assert(outcomes_below(p, k) =~= grown);
    }
}

/// The rolls that satisfy `p` are finite in number, and as many as the
/// indices below [`OUTCOME_COUNT`] whose roll satisfies `p`.
pub proof fn lemma_count_outcomes(p: spec_fn(Seq<u8>) -> bool)
    ensures
        outcomes_where(p).finite(),
        outcomes_where(p).len() == count_below(p, OUTCOME_COUNT as int),
        outcomes_where(p).len() <= OUTCOME_COUNT,
{
    lemma_count_below(p, OUTCOME_COUNT as int);
    assert forall|d: Seq<u8>|
        outcomes_where(p).contains(d) <==> outcomes_below(p, OUTCOME_COUNT as int).contains(
            d,
        ) by {
        if is_outcome(d) {
            lemma_outcome_at_index_of(d);
        }
    }
    assert(outcomes_where(p) =~= outcomes_below(p, OUTCOME_COUNT as int));
}

/// Each index below `k` counts when every roll satisfies `p`.
proof fn lemma_count_below_all(p: spec_fn(Seq<u8>) -> bool, k: int)
    requires
        0 <= k,
        forall|d: Seq<u8>| is_outcome(d) ==> p(d),
    ensures
        count_below(p, k) == k,
    decreases k,
{
    if k > 0 {
        lemma_count_below_all(p, k - 1);
        lemma_outcome_at_is_outcome(k - 1);
    }
}

/// There are exactly [`OUTCOME_COUNT`] rolls.
pub proof fn lemma_all_outcomes_count()
    ensures
        all_outcomes().finite(),
        all_outcomes().len() == OUTCOME_COUNT,
{
    let p = |d: Seq<u8>| true;
    lemma_count_outcomes(p);
    lemma_count_below_all(p, OUTCOME_COUNT as int);
}

} // verus!
