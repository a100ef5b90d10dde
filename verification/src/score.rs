//! The rule engine: reduce the measures of a tournament's rounds to a
//! single totally ordered score under nine rules, highest precedence first:
//! repeated predator-prey pairings, pairs opposed three or more times, the
//! spread of opponents' available victory points, pairs opposed exactly
//! twice, repeated fifth seats, seat-number imbalance, identical seats in
//! consecutive rounds, the spread of starting transfers, and table-size
//! imbalance.
//!
//! Each raw rule value is multiplied by its weight, `10^9` down to `10^1`,
//! and the two spread rules carry an extra factor of `100` over the rule
//! below them. The score is ordered lexicographically by the weighted
//! tuple; as the weights are positive this is the same order as the raw
//! tuple's, so no combination of lower rules can overturn a higher one.
//!
//! Two choices the rules leave open are made here explicitly: a "spread"
//! is the integer population-variance numerator `N * sum(x^2) - (sum x)^2`
//! (order-equivalent to the standard deviation for a fixed player count,
//! and zero exactly when all values agree), and a player's "opponents'
//! available victory points" is the sum of the victory points of the
//! distinct players they have opposed.

use crate::measure::ocell;
use crate::measure::opp_idx;
use crate::measure::opp_sum_at;
use crate::measure::pcell;
use crate::measure::pos_idx;
use crate::measure::pos_sum_at;
use crate::measure::Measure;
use crate::round::RoundError;
use vstd::prelude::*;

verus! {

/// Most rounds a score can be computed over.
pub const ROUND_LIMIT: usize = 64;

/// Most players a score can be computed over.
pub const SCORE_PLAYER_LIMIT: usize = 256;

/// Largest per-round cell value that the rule arithmetic accepts.
pub const SCORE_CELL_LIMIT: i64 = 10_000;

/// The weight of rule `k` (0-based): `10^(9-k)`, with the spread rules
/// (indices 2 and 7) amplified by `100` so that they dominate the rule
/// below them.
pub open spec fn weight_of(k: int) -> int {
    if k == 0 {
        1000000000
    } else if k == 1 {
        100000000
    } else if k == 2 {
        1000000000
    } else if k == 3 {
        1000000
    } else if k == 4 {
        100000
    } else if k == 5 {
        10000
    } else if k == 6 {
        1000
    } else if k == 7 {
        10000
    } else {
        10
    }
}

/// Combined (summed over rounds) position cell.
pub open spec fn tpos(ms: Seq<Measure>, p: int, k: int) -> int {
    pos_sum_at(ms, pos_idx(p, k))
}

/// Combined (summed over rounds) opponent cell.
pub open spec fn topp(ms: Seq<Measure>, n: int, p: int, q: int, k: int) -> int {
    opp_sum_at(ms, opp_idx(n, p, q, k))
}

/// Count, among `q < j`, of repeated prey relations led by `p`.
pub open spec fn r1_row(ms: Seq<Measure>, n: int, p: int, j: int) -> int
    decreases j,
{
    if j <= 0 {
        0
    } else {
        r1_row(ms, n, p, j - 1) + if p != j - 1 && topp(ms, n, p, j - 1, 1) >= 2 {
            1int
        } else {
            0int
        }
    }
}

/// Rule 1 over the players `p < i`.
pub open spec fn r1_sum(ms: Seq<Measure>, n: int, i: int) -> int
    decreases i,
{
    if i <= 0 {
        0
    } else {
        r1_sum(ms, n, i - 1) + r1_row(ms, n, i - 1, n)
    }
}

/// Count, among `q < j`, of pairs `{p, q}` with `p < q` opposed at least
/// `lo` and at most `hi` times.
pub open spec fn pair_row(ms: Seq<Measure>, n: int, p: int, j: int, lo: int, hi: int) -> int
    decreases j,
{
    if j <= 0 {
        0
    } else {
        pair_row(ms, n, p, j - 1, lo, hi) + if p < j - 1 && lo <= topp(ms, n, p, j - 1, 0)
            && topp(ms, n, p, j - 1, 0) <= hi {
            1int
        } else {
            0int
        }
    }
}

/// Pair counts over the players `p < i`.
pub open spec fn pair_sum(ms: Seq<Measure>, n: int, i: int, lo: int, hi: int) -> int
    decreases i,
{
    if i <= 0 {
        0
    } else {
        pair_sum(ms, n, i - 1, lo, hi) + pair_row(ms, n, i - 1, n, lo, hi)
    }
}

/// A player's opponents' total available victory points over `q < j`: the
/// victory points of each distinct player they have opposed.
pub open spec fn avail_row(ms: Seq<Measure>, n: int, p: int, j: int) -> int
    decreases j,
{
    if j <= 0 {
        0
    } else {
        avail_row(ms, n, p, j - 1) + if p != j - 1 && topp(ms, n, p, j - 1, 0) >= 1 {
            tpos(ms, j - 1, 1)
        } else {
            0int
        }
    }
}

/// A player's opponents' total available victory points.
pub open spec fn avail_vps(ms: Seq<Measure>, n: int, p: int) -> int {
    avail_row(ms, n, p, n)
}

/// Sum of `avail_vps` over the players `p < i`.
pub open spec fn avail_sum(ms: Seq<Measure>, n: int, i: int) -> int
    decreases i,
{
    if i <= 0 {
        0
    } else {
        avail_sum(ms, n, i - 1) + avail_vps(ms, n, i - 1)
    }
}

/// Sum of squared `avail_vps` over the players `p < i`.
pub open spec fn avail_sq_sum(ms: Seq<Measure>, n: int, i: int) -> int
    decreases i,
{
    if i <= 0 {
        0
    } else {
        avail_sq_sum(ms, n, i - 1) + avail_vps(ms, n, i - 1) * avail_vps(ms, n, i - 1)
    }
}

/// Count of players `p < i` seated in the fifth seat more than once.
pub open spec fn fifth_sum(ms: Seq<Measure>, i: int) -> int
    decreases i,
{
    if i <= 0 {
        0
    } else {
        fifth_sum(ms, i - 1) + if tpos(ms, i - 1, 7) >= 2 {
            1int
        } else {
            0int
        }
    }
}

/// One player's seat-count spread over the five seat columns.
pub open spec fn seat_spread(ms: Seq<Measure>, p: int) -> int {
    let a = tpos(ms, p, 3);
    let b = tpos(ms, p, 4);
    let c = tpos(ms, p, 5);
    let d = tpos(ms, p, 6);
    let e = tpos(ms, p, 7);
    5 * (a * a + b * b + c * c + d * d + e * e) - (a + b + c + d + e) * (a + b + c + d + e)
}

/// Sum of seat spreads over the players `p < i`.
pub open spec fn seat_spread_sum(ms: Seq<Measure>, i: int) -> int
    decreases i,
{
    if i <= 0 {
        0
    } else {
        seat_spread_sum(ms, i - 1) + seat_spread(ms, i - 1)
    }
}

/// The seat number a player held in one round's measure, or 0 if
/// unseated.
pub open spec fn seat_of(m: Measure, p: int) -> int {
    if pcell(m.pos@, p, 3) == 1 {
        1
    } else if pcell(m.pos@, p, 4) == 1 {
        2
    } else if pcell(m.pos@, p, 5) == 1 {
        3
    } else if pcell(m.pos@, p, 6) == 1 {
        4
    } else if pcell(m.pos@, p, 7) == 1 {
        5
    } else {
        0
    }
}

/// Count of players `p < j` holding the identical seat in rounds `r` and
/// `r + 1`.
pub open spec fn same_seat_row(ms: Seq<Measure>, r: int, j: int) -> int
    decreases j,
{
    if j <= 0 {
        0
    } else {
        same_seat_row(ms, r, j - 1) + if seat_of(ms[r], j - 1) != 0 && seat_of(ms[r], j - 1)
            == seat_of(ms[r + 1], j - 1) {
            1int
        } else {
            0int
        }
    }
}

/// Same-seat counts over the round boundaries `r < i`.
pub open spec fn same_seat_sum(ms: Seq<Measure>, n: int, i: int) -> int
    decreases i,
{
    if i <= 0 {
        0
    } else {
        same_seat_sum(ms, n, i - 1) + same_seat_row(ms, i - 1, n)
    }
}

/// Sum of starting transfers over the players `p < i`.
pub open spec fn transfer_sum(ms: Seq<Measure>, i: int) -> int
    decreases i,
{
    if i <= 0 {
        0
    } else {
        transfer_sum(ms, i - 1) + tpos(ms, i - 1, 2)
    }
}

/// Sum of squared starting transfers over the players `p < i`.
pub open spec fn transfer_sq_sum(ms: Seq<Measure>, i: int) -> int
    decreases i,
{
    if i <= 0 {
        0
    } else {
        transfer_sq_sum(ms, i - 1) + tpos(ms, i - 1, 2) * tpos(ms, i - 1, 2)
    }
}

/// How many of the opponents `q < j` a player had in one round's measure.
pub open spec fn opp_row(m: Measure, n: int, p: int, j: int) -> int
    decreases j,
{
    if j <= 0 {
        0
    } else {
        opp_row(m, n, p, j - 1) + ocell(m.opp@, n, p, j - 1, 0)
    }
}

/// How many of the rounds `r < i` sat the player at a five-seat table
/// (four opponents).
pub open spec fn fives_count(ms: Seq<Measure>, n: int, p: int, i: int) -> int
    decreases i,
{
    if i <= 0 {
        0
    } else {
        fives_count(ms, n, p, i - 1) + if opp_row(ms[i - 1], n, p, n) == 4 {
            1int
        } else {
            0int
        }
    }
}

/// Sum of five-seat exposures over the players `p < i`.
pub open spec fn fives_sum(ms: Seq<Measure>, n: int, i: int) -> int
    decreases i,
{
    if i <= 0 {
        0
    } else {
        fives_sum(ms, n, i - 1) + fives_count(ms, n, i - 1, ms.len() as int)
    }
}

/// Sum of squared five-seat exposures over the players `p < i`.
pub open spec fn fives_sq_sum(ms: Seq<Measure>, n: int, i: int) -> int
    decreases i,
{
    if i <= 0 {
        0
    } else {
        fives_sq_sum(ms, n, i - 1) + fives_count(ms, n, i - 1, ms.len() as int) * fives_count(
            ms,
            n,
            i - 1,
            ms.len() as int,
        )
    }
}

/// The raw value of rule `k` (0-based precedence order).
pub open spec fn rule_raw(ms: Seq<Measure>, n: int, k: int) -> int {
    if k == 0 {
        r1_sum(ms, n, n)
    } else if k == 1 {
        pair_sum(ms, n, n, 3, 0x7fff_ffff_ffff_ffff)
    } else if k == 2 {
        n * avail_sq_sum(ms, n, n) - avail_sum(ms, n, n) * avail_sum(ms, n, n)
    } else if k == 3 {
        pair_sum(ms, n, n, 2, 2)
    } else if k == 4 {
        fifth_sum(ms, n)
    } else if k == 5 {
        seat_spread_sum(ms, n)
    } else if k == 6 {
        same_seat_sum(ms, n, if ms.len() == 0 {
            0int
        } else {
            ms.len() - 1
        })
    } else if k == 7 {
        n * transfer_sq_sum(ms, n) - transfer_sum(ms, n) * transfer_sum(ms, n)
    } else {
        n * fives_sq_sum(ms, n, n) - fives_sum(ms, n, n) * fives_sum(ms, n, n)
    }
}

/// A score: the nine raw rule values and the same values weighted, in
/// precedence order. Lower is better.
pub struct Score {
    /// Raw rule values, rule 1 first.
    pub raw: Vec<i128>,
    /// Weighted rule values for reporting: `raw[k] * weight_of(k)`.
    pub weighted: Vec<i128>,
}

impl Score {
    /// Nine entries each, weighted consistently.
    pub open spec fn wf(&self) -> bool {
        &&& self.raw@.len() == 9
        &&& self.weighted@.len() == 9
        &&& forall|k: int| 0 <= k < 9 ==> #[trigger] self.weighted@[k] as int == self.raw@[k]
            * weight_of(k)
    }

    /// The score of the per-round measures `ms` for `n` players.
    pub open spec fn is_score_of(&self, ms: Seq<Measure>, n: int) -> bool {
        &&& self.wf()
        &&& forall|k: int| 0 <= k < 9 ==> #[trigger] self.raw@[k] as int == rule_raw(ms, n, k)
    }
}

/// Strict lexicographic order on score tuples from position `k` on.
pub open spec fn lex_less_from(a: Seq<i128>, b: Seq<i128>, k: int) -> bool
    decreases 9 - k,
{
    if k < 0 || k >= 9 || a.len() != 9 || b.len() != 9 {
        false
    } else if a[k] < b[k] {
        true
    } else if a[k] > b[k] {
        false
    } else {
        lex_less_from(a, b, k + 1)
    }
}

/// `a` is strictly better (lower) than `b`.
pub open spec fn score_lt_spec(a: Score, b: Score) -> bool {
    lex_less_from(a.raw@, b.raw@, 0)
}

/// Compare two scores; `true` when `a` is strictly better than `b`.
pub fn score_lt(a: &Score, b: &Score) -> (r: bool)
    requires
        a.wf(),
        b.wf(),
    ensures
        r == score_lt_spec(*a, *b),
{
    let mut k: usize = 0;
    while k < 9
        invariant
            a.wf(),
            b.wf(),
            k <= 9,
            score_lt_spec(*a, *b) == lex_less_from(a.raw@, b.raw@, k as int),
        decreases 9 - k,
    {
        if a.raw[k] < b.raw[k] {
            return true;
        }
        if a.raw[k] > b.raw[k] {
            return false;
        }
        k = k + 1;
    }
    false
}

/// Weight separation: worsening one rule's raw value strictly worsens the
/// score as long as every higher-precedence rule is unchanged, whatever
/// happens to the lower-precedence rules. In particular no combination of
/// changes to the rules below rule 1 can overturn a rule 1 difference.
pub proof fn lemma_score_monotonic(a: Score, b: Score, j: int)
    requires
        a.wf(),
        b.wf(),
        0 <= j < 9,
        forall|k: int| 0 <= k < j ==> #[trigger] a.raw@[k] == b.raw@[k],
        (a.raw@[j] as int) < (b.raw@[j] as int),
    ensures
        score_lt_spec(a, b),
{
    lemma_lex_prefix(a.raw@, b.raw@, 0, j);
}

proof fn lemma_lex_prefix(a: Seq<i128>, b: Seq<i128>, k: int, j: int)
    requires
        a.len() == 9,
        b.len() == 9,
        0 <= k <= j < 9,
        forall|k2: int| 0 <= k2 < j ==> #[trigger] a[k2] == b[k2],
        (a[j] as int) < (b[j] as int),
    ensures
        lex_less_from(a, b, k),
    decreases j - k,
{
    if k < j {
        lemma_lex_prefix(a, b, k + 1, j);
    }
}

/// The weighted tuple orders exactly as the raw tuple: weights are
/// positive, so each component comparison is unchanged.
pub proof fn lemma_weighted_order_matches(a: Score, b: Score, k: int)
    requires
        a.wf(),
        b.wf(),
        0 <= k < 9,
    ensures
        (a.weighted@[k] as int) < (b.weighted@[k] as int) <==> (a.raw@[k] as int) < (
        b.raw@[k] as int),
{
    let w = weight_of(k);
    assert(w > 0);
    if (a.raw@[k] as int) < (b.raw@[k] as int) {
        vstd::arithmetic::mul::lemma_mul_strict_inequality(a.raw@[k] as int, b.raw@[k] as int, w);
    }
    if (a.weighted@[k] as int) < (b.weighted@[k] as int) {
        vstd::arithmetic::mul::lemma_mul_strict_inequality_converse(
            a.raw@[k] as int,
            b.raw@[k] as int,
            w,
        );
    }
}

/// Strict score improvement is transitive, also through an equal score.
pub proof fn lemma_score_lt_trans(a: Score, b: Score, c: Score)
    requires
        a.wf(),
        b.wf(),
        c.wf(),
        score_lt_spec(a, b),
        score_lt_spec(b, c) || b.raw@ == c.raw@,
    ensures
        score_lt_spec(a, c),
{
    if score_lt_spec(b, c) {
        lemma_lex_trans(a.raw@, b.raw@, c.raw@, 0);
    }
}

proof fn lemma_lex_trans(a: Seq<i128>, b: Seq<i128>, c: Seq<i128>, k: int)
    requires
        lex_less_from(a, b, k),
        lex_less_from(b, c, k),
    ensures
        lex_less_from(a, c, k),
    decreases 9 - k,
{
    if 0 <= k < 9 && a[k] == b[k] && b[k] == c[k] {
        lemma_lex_trans(a, b, c, k + 1);
    }
}

/// Every cell of `m` lies in `[0, SCORE_CELL_LIMIT]`.
pub open spec fn small_cells(m: Measure) -> bool {
    &&& forall|j: int| 0 <= j < m.pos@.len() ==> 0 <= #[trigger] m.pos@[j] <= SCORE_CELL_LIMIT
    &&& forall|j: int| 0 <= j < m.opp@.len() ==> 0 <= #[trigger] m.opp@[j] <= SCORE_CELL_LIMIT
}

/// Check that every cell of `m` lies in `[0, SCORE_CELL_LIMIT]`.
fn cells_small(m: &Measure) -> (r: bool)
    ensures
        r == small_cells(*m),
{
    let mut j: usize = 0;
    while j < m.pos.len()
        invariant
            j <= m.pos@.len(),
            forall|j2: int| 0 <= j2 < j ==> 0 <= #[trigger] m.pos@[j2] <= SCORE_CELL_LIMIT,
        decreases m.pos@.len() - j,
    {
        if m.pos[j] < 0 || m.pos[j] > SCORE_CELL_LIMIT {
            return false;
        }
        j = j + 1;
    }
    let mut j2: usize = 0;
    while j2 < m.opp.len()
        invariant
            j2 <= m.opp@.len(),
            forall|j3: int| 0 <= j3 < m.pos@.len() ==> 0 <= #[trigger] m.pos@[j3]
                <= SCORE_CELL_LIMIT,
            forall|j3: int| 0 <= j3 < j2 ==> 0 <= #[trigger] m.opp@[j3] <= SCORE_CELL_LIMIT,
        decreases m.opp@.len() - j2,
    {
        if m.opp[j2] < 0 || m.opp[j2] > SCORE_CELL_LIMIT {
            return false;
        }
        j2 = j2 + 1;
    }
    true
}

/// Sums of small position cells stay small.
proof fn lemma_small_pos_sum(ms: Seq<Measure>, n: int, j: int)
    requires
        forall|i: int| 0 <= i < ms.len() ==> small_cells(#[trigger] ms[i]) && ms[i].wf()
            && ms[i].n == n,
        ms.len() <= 64,
        0 <= j < n * 8,
    ensures
        0 <= pos_sum_at(ms, j) <= ms.len() * (SCORE_CELL_LIMIT as int),
    decreases ms.len(),
{
    if ms.len() > 0 {
        assert(forall|i: int| 0 <= i < ms.drop_last().len() ==> small_cells(
            #[trigger] ms.drop_last()[i],
        ) && ms.drop_last()[i].wf() && ms.drop_last()[i].n == n);
        lemma_small_pos_sum(ms.drop_last(), n, j);
        assert(0 <= ms.last().pos@[j] <= SCORE_CELL_LIMIT);
    }
}

/// Sums of small opponent cells stay small.
proof fn lemma_small_opp_sum(ms: Seq<Measure>, n: int, j: int)
    requires
        forall|i: int| 0 <= i < ms.len() ==> small_cells(#[trigger] ms[i]) && ms[i].wf()
            && ms[i].n == n,
        ms.len() <= 64,
        0 <= j < n * n * 8,
    ensures
        0 <= opp_sum_at(ms, j) <= ms.len() * (SCORE_CELL_LIMIT as int),
    decreases ms.len(),
{
    if ms.len() > 0 {
        assert(forall|i: int| 0 <= i < ms.drop_last().len() ==> small_cells(
            #[trigger] ms.drop_last()[i],
        ) && ms.drop_last()[i].wf() && ms.drop_last()[i].n == n);
        lemma_small_opp_sum(ms.drop_last(), n, j);
        assert(0 <= ms.last().opp@[j] <= SCORE_CELL_LIMIT);
    }
}


/// `c` holds the elementwise sums of `ms`, and the sums are small.
pub open spec fn combined_of(c: Measure, ms: Seq<Measure>, n: int) -> bool {
    &&& c.wf()
    &&& c.n == n
    &&& forall|j: int| 0 <= j < c.pos@.len() ==> #[trigger] c.pos@[j] as int == pos_sum_at(ms, j)
        && 0 <= c.pos@[j] <= 640000
    &&& forall|j: int| 0 <= j < c.opp@.len() ==> #[trigger] c.opp@[j] as int == opp_sum_at(ms, j)
        && 0 <= c.opp@[j] <= 640000
}

/// Read a combined position cell.
fn read_tp(c: &Measure, Ghost(ms): Ghost<Seq<Measure>>, p: usize, k: usize) -> (v: i64)
    requires
        combined_of(*c, ms, c.n as int),
        p < c.n,
        k < 8,
    ensures
        v as int == tpos(ms, p as int, k as int),
        0 <= v <= 640000,
{
    proof {
        assert(0 <= pos_idx(p as int, k as int) < c.n * 8);
    }
    c.pos[p * 8 + k]
}

/// Read a combined opponent cell.
fn read_to(c: &Measure, Ghost(ms): Ghost<Seq<Measure>>, p: usize, q: usize, k: usize) -> (v: i64)
    requires
        combined_of(*c, ms, c.n as int),
        p < c.n,
        q < c.n,
        k < 8,
        c.n <= SCORE_PLAYER_LIMIT,
    ensures
        v as int == topp(ms, c.n as int, p as int, q as int, k as int),
        0 <= v <= 640000,
{
    proof {
        crate::measure::lemma_opp_idx(c.n as int, p as int, q as int, k as int);
        assert(c.n * c.n <= 65536) by (nonlinear_arith)
            requires
                0 <= c.n <= 256,
        ;
    }
    c.opp[(p * c.n + q) * 8 + k]
}

/// The seat number a player held in one round's measure, or 0.
fn seat_x(m: &Measure, p: usize) -> (r: i64)
    requires
        m.wf(),
        p < m.n,
    ensures
        r as int == seat_of(*m, p as int),
{
    if m.pos[p * 8 + 3] == 1 {
        1
    } else if m.pos[p * 8 + 4] == 1 {
        2
    } else if m.pos[p * 8 + 5] == 1 {
        3
    } else if m.pos[p * 8 + 6] == 1 {
        4
    } else if m.pos[p * 8 + 7] == 1 {
        5
    } else {
        0
    }
}

/// How many opponents a player had in one round's measure.
fn opp_row_x(m: &Measure, p: usize) -> (r: i64)
    requires
        m.wf(),
        m.n <= SCORE_PLAYER_LIMIT,
        small_cells(*m),
        p < m.n,
    ensures
        r as int == opp_row(*m, m.n as int, p as int, m.n as int),
{
    let n = m.n;
    let mut acc: i64 = 0;
    let mut q: usize = 0;
    while q < n
        invariant
            m.wf(),
            m.n == n,
            n <= SCORE_PLAYER_LIMIT,
            small_cells(*m),
            p < n,
            q <= n,
            acc as int == opp_row(*m, n as int, p as int, q as int),
            0 <= acc <= q * 10000,
        decreases n - q,
    {
        proof {
            crate::measure::lemma_opp_idx(n as int, p as int, q as int, 0);
            assert(n * n <= 65536) by (nonlinear_arith)
                requires
                    0 <= n <= 256,
            ;
            assert(0 <= m.opp@[opp_idx(n as int, p as int, q as int, 0)] <= SCORE_CELL_LIMIT);
        }
        let v = m.opp[(p * n + q) * 8];
        acc = acc + v;
        proof {
            assert(opp_row(*m, n as int, p as int, q + 1) == opp_row(
                *m,
                n as int,
                p as int,
                q as int,
            ) + ocell(m.opp@, n as int, p as int, q as int, 0));
        }
        q = q + 1;
    }
    acc
}

/// Evaluate the nine rules over the per-round measures of a tournament.
/// Fails when a cell is outside the supported range, and only then.
pub fn score(measures: &Vec<Measure>, n: usize) -> (r: Result<Score, RoundError>)
    requires
        n <= SCORE_PLAYER_LIMIT,
        measures@.len() <= ROUND_LIMIT,
        forall|i: int| 0 <= i < measures@.len() ==> (#[trigger] measures@[i]).wf()
            && measures@[i].n == n,
    ensures
        match r {
            Ok(s) => s.is_score_of(measures@, n as int) && (forall|i: int|
                0 <= i < measures@.len() ==> small_cells(#[trigger] measures@[i])),
            Err(RoundError::IndexError()) => exists|i: int|
                0 <= i < measures@.len() && !small_cells(#[trigger] measures@[i]),
            Err(_) => false,
        },
{
    let ghost ms = measures@;
    let rounds = measures.len();
    let mut i: usize = 0;
    while i < rounds
        invariant
            rounds == measures@.len(),
            i <= rounds,
            forall|i2: int| 0 <= i2 < i ==> small_cells(#[trigger] measures@[i2]),
        decreases rounds - i,
    {
        if !cells_small(&measures[i]) {
            return Err(RoundError::IndexError());
        }
        i = i + 1;
    }
    let c = crate::measure::combine(measures, n);
    proof {
        assert forall|j: int| 0 <= j < c.pos@.len() implies #[trigger] c.pos@[j] as int
            == pos_sum_at(ms, j) && 0 <= c.pos@[j] <= 640000 by {
            lemma_small_pos_sum(ms, n as int, j);
        }
        assert forall|j: int| 0 <= j < c.opp@.len() implies #[trigger] c.opp@[j] as int
            == opp_sum_at(ms, j) && 0 <= c.opp@[j] <= 640000 by {
            lemma_small_opp_sum(ms, n as int, j);
        }
    }

    // Rule 1: repeated prey relations, and rules 2 and 4: pair counts.
    let mut raw1: i128 = 0;
    let mut raw2: i128 = 0;
    let mut raw4: i128 = 0;
    let mut p: usize = 0;
    while p < n
        invariant
            combined_of(c, ms, n as int),
            c.n == n,
            n <= SCORE_PLAYER_LIMIT,
            p <= n,
            raw1 as int == r1_sum(ms, n as int, p as int),
            raw2 as int == pair_sum(ms, n as int, p as int, 3, 0x7fff_ffff_ffff_ffff),
            raw4 as int == pair_sum(ms, n as int, p as int, 2, 2),
            0 <= raw1 <= p * 256,
            0 <= raw2 <= p * 256,
            0 <= raw4 <= p * 256,
        decreases n - p,
    {
        let mut row1: i128 = 0;
        let mut row2: i128 = 0;
        let mut row4: i128 = 0;
        let mut q: usize = 0;
        while q < n
            invariant
                combined_of(c, ms, n as int),
                c.n == n,
                n <= SCORE_PLAYER_LIMIT,
                p < n,
                q <= n,
                row1 as int == r1_row(ms, n as int, p as int, q as int),
                row2 as int == pair_row(ms, n as int, p as int, q as int, 3, 0x7fff_ffff_ffff_ffff),
                row4 as int == pair_row(ms, n as int, p as int, q as int, 2, 2),
                0 <= row1 <= q,
                0 <= row2 <= q,
                0 <= row4 <= q,
            decreases n - q,
        {
            let prey = read_to(&c, Ghost(ms), p, q, 1);
            let opps = read_to(&c, Ghost(ms), p, q, 0);
            if p != q && prey >= 2 {
                row1 = row1 + 1;
            }
            if p < q && opps >= 3 {
                row2 = row2 + 1;
            }
            if p < q && opps == 2 {
                row4 = row4 + 1;
            }
            proof {
                assert(r1_row(ms, n as int, p as int, q + 1) == r1_row(
                    ms,
                    n as int,
                    p as int,
                    q as int,
                ) + if p as int != q as int && topp(ms, n as int, p as int, q as int, 1) >= 2 {
                    1int
                } else {
                    0int
                });
                assert(pair_row(ms, n as int, p as int, q + 1, 3, 0x7fff_ffff_ffff_ffff)
                    == pair_row(ms, n as int, p as int, q as int, 3, 0x7fff_ffff_ffff_ffff) + if (
                p as int) < q as int && 3 <= topp(ms, n as int, p as int, q as int, 0) && topp(
                    ms,
                    n as int,
                    p as int,
                    q as int,
                    0,
                ) <= 0x7fff_ffff_ffff_ffff {
                    1int
                } else {
                    0int
                });
                assert(pair_row(ms, n as int, p as int, q + 1, 2, 2) == pair_row(
                    ms,
                    n as int,
                    p as int,
                    q as int,
                    2,
                    2,
                ) + if (p as int) < q as int && 2 <= topp(ms, n as int, p as int, q as int, 0)
                    && topp(ms, n as int, p as int, q as int, 0) <= 2 {
                    1int
                } else {
                    0int
                });
            }
            q = q + 1;
        }
        raw1 = raw1 + row1;
        raw2 = raw2 + row2;
        raw4 = raw4 + row4;
        proof {
            assert(r1_sum(ms, n as int, p + 1) == r1_sum(ms, n as int, p as int) + r1_row(
                ms,
                n as int,
                p as int,
                n as int,
            ));
            assert(pair_sum(ms, n as int, p + 1, 3, 0x7fff_ffff_ffff_ffff) == pair_sum(
                ms,
                n as int,
                p as int,
                3,
                0x7fff_ffff_ffff_ffff,
            ) + pair_row(ms, n as int, p as int, n as int, 3, 0x7fff_ffff_ffff_ffff));
            assert(pair_sum(ms, n as int, p + 1, 2, 2) == pair_sum(ms, n as int, p as int, 2, 2)
                + pair_row(ms, n as int, p as int, n as int, 2, 2));
        }
        p = p + 1;
    }

    // Rule 3: spread of opponents' available victory points.
    let mut s1: i128 = 0;
    let mut s2: i128 = 0;
    let mut p3: usize = 0;
    while p3 < n
        invariant
            combined_of(c, ms, n as int),
            c.n == n,
            n <= SCORE_PLAYER_LIMIT,
            p3 <= n,
            s1 as int == avail_sum(ms, n as int, p3 as int),
            s2 as int == avail_sq_sum(ms, n as int, p3 as int),
            0 <= s1 <= p3 * 163840000,
            0 <= s2 <= p3 * 0x6000_0000_0000_0000,
        decreases n - p3,
    {
        let mut x: i128 = 0;
        let mut q: usize = 0;
        while q < n
            invariant
                combined_of(c, ms, n as int),
                c.n == n,
                n <= SCORE_PLAYER_LIMIT,
                p3 < n,
                q <= n,
                x as int == avail_row(ms, n as int, p3 as int, q as int),
                0 <= x <= q * 640000,
            decreases n - q,
        {
            let opps = read_to(&c, Ghost(ms), p3, q, 0);
            if p3 != q && opps >= 1 {
                let v = read_tp(&c, Ghost(ms), q, 1);
                x = x + v as i128;
            }
            proof {
                assert(avail_row(ms, n as int, p3 as int, q + 1) == avail_row(
                    ms,
                    n as int,
                    p3 as int,
                    q as int,
                ) + if p3 as int != q as int && topp(ms, n as int, p3 as int, q as int, 0) >= 1 {
                    tpos(ms, q as int, 1)
                } else {
                    0int
                });
            }
            q = q + 1;
        }
        proof {
            assert(0 <= x <= 163840000);
            assert(x as int * x as int <= 0x6000_0000_0000_0000) by (nonlinear_arith)
                requires
                    0 <= x as int <= 163840000,
            ;
        }
        let xsq = x * x;
        s1 = s1 + x;
        s2 = s2 + xsq;
        proof {
            assert(avail_sum(ms, n as int, p3 + 1) == avail_sum(ms, n as int, p3 as int)
                + avail_vps(ms, n as int, p3 as int));
            assert(avail_sq_sum(ms, n as int, p3 + 1) == avail_sq_sum(ms, n as int, p3 as int)
                + avail_vps(ms, n as int, p3 as int) * avail_vps(ms, n as int, p3 as int));
        }
        p3 = p3 + 1;
    }
    proof {
        assert(0 <= s1 <= 0x1_0000_0000_0000);
        assert(s1 as int * s1 as int <= 0x1_0000_0000_0000_0000_0000_0000) by (nonlinear_arith)
            requires
                0 <= s1 as int <= 0x1_0000_0000_0000,
        ;
        assert(n as int * s2 as int <= 0x1_0000_0000_0000_0000_0000_0000) by (nonlinear_arith)
            requires
                0 <= s2 as int <= 256 * 0x6000_0000_0000_0000,
                0 <= n as int <= 256,
        ;
        assert(0 <= n as int * s2 as int) by (nonlinear_arith)
            requires
                0 <= s2 as int,
                0 <= n as int,
        ;
    }
    let raw3: i128 = (n as i128) * s2 - s1 * s1;

    // Rule 5: repeated fifth seats, and rule 6: seat-number imbalance.
    let mut raw5: i128 = 0;
    let mut raw6: i128 = 0;
    let mut p5: usize = 0;
    while p5 < n
        invariant
            combined_of(c, ms, n as int),
            c.n == n,
            n <= SCORE_PLAYER_LIMIT,
            p5 <= n,
            raw5 as int == fifth_sum(ms, p5 as int),
            raw6 as int == seat_spread_sum(ms, p5 as int),
            0 <= raw5 <= p5,
            -(p5 * 0x4000_0000_0000) <= raw6 <= p5 * 0x4000_0000_0000,
        decreases n - p5,
    {
        let e5 = read_tp(&c, Ghost(ms), p5, 7);
        if e5 >= 2 {
            raw5 = raw5 + 1;
        }
        let a = read_tp(&c, Ghost(ms), p5, 3) as i128;
        let b = read_tp(&c, Ghost(ms), p5, 4) as i128;
        let cc = read_tp(&c, Ghost(ms), p5, 5) as i128;
        let d = read_tp(&c, Ghost(ms), p5, 6) as i128;
        let e = e5 as i128;
        proof {
            assert(a * a + b * b + cc * cc + d * d + e * e <= 0x300_0000_0000) by (nonlinear_arith)
                requires
                    0 <= a as int <= 640000,
                    0 <= b as int <= 640000,
                    0 <= cc as int <= 640000,
                    0 <= d as int <= 640000,
                    0 <= e as int <= 640000,
            ;
            assert(0 <= a * a + b * b + cc * cc + d * d + e * e) by (nonlinear_arith);
            assert((a + b + cc + d + e) * (a + b + cc + d + e) <= 0x1000_0000_0000)
                by (nonlinear_arith)
                requires
                    0 <= a as int <= 640000,
                    0 <= b as int <= 640000,
                    0 <= cc as int <= 640000,
                    0 <= d as int <= 640000,
                    0 <= e as int <= 640000,
            ;
            assert(0 <= (a + b + cc + d + e) * (a + b + cc + d + e)) by (nonlinear_arith);
        }
        let sq = a * a + b * b + cc * cc + d * d + e * e;
        let sm = a + b + cc + d + e;
        let v6 = 5 * sq - sm * sm;
        raw6 = raw6 + v6;
        proof {
            assert(fifth_sum(ms, p5 + 1) == fifth_sum(ms, p5 as int) + if tpos(ms, p5 as int, 7)
                >= 2 {
                1int
            } else {
                0int
            });
            assert(seat_spread_sum(ms, p5 + 1) == seat_spread_sum(ms, p5 as int) + seat_spread(
                ms,
                p5 as int,
            ));
        }
        p5 = p5 + 1;
    }

    // Rule 7: identical seats in consecutive rounds.
    let mut raw7: i128 = 0;
    if rounds > 0 {
        let mut rr: usize = 0;
        while rr < rounds - 1
            invariant
                rounds == measures@.len(),
                rounds >= 1,
                n <= SCORE_PLAYER_LIMIT,
                forall|i2: int| 0 <= i2 < measures@.len() ==> (#[trigger] measures@[i2]).wf()
                    && measures@[i2].n == n,
                ms == measures@,
                rr <= rounds - 1,
                raw7 as int == same_seat_sum(ms, n as int, rr as int),
                0 <= raw7 <= rr * 256,
            decreases rounds - 1 - rr,
        {
            let mut row: i128 = 0;
            let mut pp: usize = 0;
            while pp < n
                invariant
                    rounds == measures@.len(),
                    rr < rounds - 1,
                    n <= SCORE_PLAYER_LIMIT,
                    forall|i2: int| 0 <= i2 < measures@.len() ==> (#[trigger] measures@[i2]).wf()
                        && measures@[i2].n == n,
                    ms == measures@,
                    pp <= n,
                    row as int == same_seat_row(ms, rr as int, pp as int),
                    0 <= row <= pp,
                decreases n - pp,
            {
                let sa = seat_x(&measures[rr], pp);
                let sb = seat_x(&measures[rr + 1], pp);
                if sa != 0 && sa == sb {
                    row = row + 1;
                }
                proof {
                    assert(same_seat_row(ms, rr as int, pp + 1) == same_seat_row(
                        ms,
                        rr as int,
                        pp as int,
                    ) + if seat_of(ms[rr as int], pp as int) != 0 && seat_of(
                        ms[rr as int],
                        pp as int,
                    ) == seat_of(ms[rr + 1], pp as int) {
                        1int
                    } else {
                        0int
                    });
                }
                pp = pp + 1;
            }
            raw7 = raw7 + row;
            proof {
                assert(same_seat_sum(ms, n as int, rr + 1) == same_seat_sum(ms, n as int, rr as int)
                    + same_seat_row(ms, rr as int, n as int));
            }
            rr = rr + 1;
        }
    }

    // Rule 8: spread of starting transfers.
    let mut t1: i128 = 0;
    let mut t2: i128 = 0;
    let mut p8: usize = 0;
    while p8 < n
        invariant
            combined_of(c, ms, n as int),
            c.n == n,
            n <= SCORE_PLAYER_LIMIT,
            p8 <= n,
            t1 as int == transfer_sum(ms, p8 as int),
            t2 as int == transfer_sq_sum(ms, p8 as int),
            0 <= t1 <= p8 * 640000,
            0 <= t2 <= p8 * 0x6000_0000_0000,
        decreases n - p8,
    {
        let st = read_tp(&c, Ghost(ms), p8, 2) as i128;
        proof {
            assert(st * st <= 0x6000_0000_0000) by (nonlinear_arith)
                requires
                    0 <= st as int <= 640000,
            ;
            assert(0 <= st * st) by (nonlinear_arith);
        }
        t1 = t1 + st;
        t2 = t2 + st * st;
        proof {
            assert(transfer_sum(ms, p8 + 1) == transfer_sum(ms, p8 as int) + tpos(
                ms,
                p8 as int,
                2,
            ));
            assert(transfer_sq_sum(ms, p8 + 1) == transfer_sq_sum(ms, p8 as int) + tpos(
                ms,
                p8 as int,
                2,
            ) * tpos(ms, p8 as int, 2));
        }
        p8 = p8 + 1;
    }
    proof {
        assert(t1 as int * t1 as int <= 0x1_0000_0000_0000_0000) by (nonlinear_arith)
            requires
                0 <= t1 as int <= 256 * 640000,
        ;
        assert(0 <= n as int * t2 as int <= 0x1_0000_0000_0000_0000) by (nonlinear_arith)
            requires
                0 <= t2 as int <= 256 * 0x6000_0000_0000,
                0 <= n as int <= 256,
        ;
    }
    let raw8: i128 = (n as i128) * t2 - t1 * t1;

    // Rule 9: spread of five-seat-table exposure.
    let mut f1: i128 = 0;
    let mut f2: i128 = 0;
    let mut p9: usize = 0;
    while p9 < n
        invariant
            rounds == measures@.len(),
            rounds <= ROUND_LIMIT,
            n <= SCORE_PLAYER_LIMIT,
            forall|i2: int| 0 <= i2 < measures@.len() ==> (#[trigger] measures@[i2]).wf()
                && measures@[i2].n == n,
            forall|i2: int| 0 <= i2 < measures@.len() ==> small_cells(#[trigger] measures@[i2]),
            ms == measures@,
            p9 <= n,
            f1 as int == fives_sum(ms, n as int, p9 as int),
            f2 as int == fives_sq_sum(ms, n as int, p9 as int),
            0 <= f1 <= p9 * 64,
            0 <= f2 <= p9 * 4096,
        decreases n - p9,
    {
        let mut fv: i128 = 0;
        let mut rr: usize = 0;
        while rr < rounds
            invariant
                rounds == measures@.len(),
                rounds <= ROUND_LIMIT,
                n <= SCORE_PLAYER_LIMIT,
                forall|i2: int| 0 <= i2 < measures@.len() ==> (#[trigger] measures@[i2]).wf()
                    && measures@[i2].n == n,
                forall|i2: int| 0 <= i2 < measures@.len() ==> small_cells(
                    #[trigger] measures@[i2],
                ),
                ms == measures@,
                p9 < n,
                rr <= rounds,
                fv as int == fives_count(ms, n as int, p9 as int, rr as int),
                0 <= fv <= rr,
            decreases rounds - rr,
        {
            let row = opp_row_x(&measures[rr], p9);
            if row == 4 {
                fv = fv + 1;
            }
            proof {
                assert(fives_count(ms, n as int, p9 as int, rr + 1) == fives_count(
                    ms,
                    n as int,
                    p9 as int,
                    rr as int,
                ) + if opp_row(ms[rr as int], n as int, p9 as int, n as int) == 4 {
                    1int
                } else {
                    0int
                });
            }
            rr = rr + 1;
        }
        proof {
            assert(fv * fv <= 4096) by (nonlinear_arith)
                requires
                    0 <= fv as int <= 64,
            ;
            assert(0 <= fv * fv) by (nonlinear_arith);
        }
        f1 = f1 + fv;
        f2 = f2 + fv * fv;
        proof {
            assert(fives_sum(ms, n as int, p9 + 1) == fives_sum(ms, n as int, p9 as int)
                + fives_count(ms, n as int, p9 as int, ms.len() as int));
            assert(fives_sq_sum(ms, n as int, p9 + 1) == fives_sq_sum(ms, n as int, p9 as int)
                + fives_count(ms, n as int, p9 as int, ms.len() as int) * fives_count(
                ms,
                n as int,
                p9 as int,
                ms.len() as int,
            ));
        }
        p9 = p9 + 1;
    }
    proof {
        assert(f1 as int * f1 as int <= 0x1000_0000_0000) by (nonlinear_arith)
            requires
                0 <= f1 as int <= 256 * 64,
        ;
        assert(0 <= n as int * f2 as int <= 0x1000_0000_0000) by (nonlinear_arith)
            requires
                0 <= f2 as int <= 256 * 4096,
                0 <= n as int <= 256,
        ;
    }
    let raw9: i128 = (n as i128) * f2 - f1 * f1;

    let mut raw: Vec<i128> = Vec::new();
    raw.push(raw1);
    raw.push(raw2);
    raw.push(raw3);
    raw.push(raw4);
    raw.push(raw5);
    raw.push(raw6);
    raw.push(raw7);
    raw.push(raw8);
    raw.push(raw9);
    let mut weighted: Vec<i128> = Vec::new();
    let mut k: usize = 0;
    while k < 9
        invariant
            raw@.len() == 9,
            forall|k2: int| 0 <= k2 < 9 ==> -0x1_0000_0000_0000_0000_0000_0000
                <= #[trigger] raw@[k2] <= 0x1_0000_0000_0000_0000_0000_0000,
            k <= 9,
            weighted@.len() == k,
            forall|k2: int| 0 <= k2 < k ==> #[trigger] weighted@[k2] as int == raw@[k2]
                * weight_of(k2),
        decreases 9 - k,
    {
        let w: i128 = if k == 0 {
            1000000000
        } else if k == 1 {
            100000000
        } else if k == 2 {
            1000000000
        } else if k == 3 {
            1000000
        } else if k == 4 {
            100000
        } else if k == 5 {
            10000
        } else if k == 6 {
            1000
        } else if k == 7 {
            10000
        } else {
            10
        };
        proof {
            assert(-0x7000_0000_0000_0000_0000_0000_0000_0000 <= raw@[k as int] * (w as int)
                <= 0x7000_0000_0000_0000_0000_0000_0000_0000) by (nonlinear_arith)
                requires
                    -0x1_0000_0000_0000_0000_0000_0000 <= raw@[k as int]
                        <= 0x1_0000_0000_0000_0000_0000_0000,
                    0 < w as int <= 1000000000,
            ;
        }
        let wv = raw[k] * w;
        weighted.push(wv);
        k = k + 1;
    }
    let s = Score { raw, weighted };
    proof {
        assert forall|k2: int| 0 <= k2 < 9 implies #[trigger] s.raw@[k2] as int == rule_raw(
            ms,
            n as int,
            k2,
        ) by {
            if ms.len() == 0 {
                assert(same_seat_sum(ms, n as int, 0) == 0);
            }
        }
    }
    Ok(s)
}


/// Two measure runs whose matrices agree cell for cell.
pub open spec fn views_eq(a: Seq<Measure>, b: Seq<Measure>) -> bool {
    &&& a.len() == b.len()
    &&& forall|i: int| 0 <= i < a.len() ==> (#[trigger] a[i]).pos@ == b[i].pos@ && a[i].opp@
        == b[i].opp@ && a[i].n == b[i].n
}

/// Elementwise sums only read the matrices.
proof fn lemma_sums_eq(a: Seq<Measure>, b: Seq<Measure>, j: int)
    requires
        views_eq(a, b),
    ensures
        pos_sum_at(a, j) == pos_sum_at(b, j),
        opp_sum_at(a, j) == opp_sum_at(b, j),
    decreases a.len(),
{
    if a.len() > 0 {
        assert(views_eq(a.drop_last(), b.drop_last()));
        lemma_sums_eq(a.drop_last(), b.drop_last(), j);
        assert(a[a.len() - 1].pos@ == b[a.len() - 1].pos@);
        assert(a[a.len() - 1].opp@ == b[a.len() - 1].opp@);
    }
}

/// One round's opponent row only reads the matrices.
proof fn lemma_opp_row_eq(x: Measure, y: Measure, n: int, p: int, j: int)
    requires
        x.opp@ == y.opp@,
    ensures
        opp_row(x, n, p, j) == opp_row(y, n, p, j),
    decreases j,
{
    if j > 0 {
        lemma_opp_row_eq(x, y, n, p, j - 1);
    }
}

/// The per-player rows only read the matrices.
proof fn lemma_rows_eq(a: Seq<Measure>, b: Seq<Measure>, n: int, p: int, j: int, lo: int, hi: int)
    requires
        views_eq(a, b),
    ensures
        r1_row(a, n, p, j) == r1_row(b, n, p, j),
        pair_row(a, n, p, j, lo, hi) == pair_row(b, n, p, j, lo, hi),
        avail_row(a, n, p, j) == avail_row(b, n, p, j),
    decreases j,
{
    if j > 0 {
        lemma_rows_eq(a, b, n, p, j - 1, lo, hi);
        lemma_sums_eq(a, b, opp_idx(n, p, j - 1, 1));
        lemma_sums_eq(a, b, opp_idx(n, p, j - 1, 0));
        lemma_sums_eq(a, b, pos_idx(j - 1, 1));
    }
}

/// The five-seat exposure only reads the matrices.
proof fn lemma_fives_eq(a: Seq<Measure>, b: Seq<Measure>, n: int, p: int, i: int)
    requires
        views_eq(a, b),
        0 <= i <= a.len(),
    ensures
        fives_count(a, n, p, i) == fives_count(b, n, p, i),
    decreases i,
{
    if i > 0 {
        lemma_fives_eq(a, b, n, p, i - 1);
        lemma_opp_row_eq(a[i - 1], b[i - 1], n, p, n);
    }
}

/// The same-seat rows only read the matrices.
proof fn lemma_same_seat_eq(a: Seq<Measure>, b: Seq<Measure>, r: int, j: int)
    requires
        views_eq(a, b),
        0 <= r,
        r + 1 < a.len(),
    ensures
        same_seat_row(a, r, j) == same_seat_row(b, r, j),
    decreases j,
{
    if j > 0 {
        lemma_same_seat_eq(a, b, r, j - 1);
        assert(a[r].pos@ == b[r].pos@);
        assert(a[r + 1].pos@ == b[r + 1].pos@);
        assert(seat_of(a[r], j - 1) == seat_of(b[r], j - 1));
        assert(seat_of(a[r + 1], j - 1) == seat_of(b[r + 1], j - 1));
    }
}

/// The per-player totals only read the matrices.
proof fn lemma_totals_eq(a: Seq<Measure>, b: Seq<Measure>, n: int, i: int)
    requires
        views_eq(a, b),
    ensures
        r1_sum(a, n, i) == r1_sum(b, n, i),
        pair_sum(a, n, i, 3, 0x7fff_ffff_ffff_ffff) == pair_sum(b, n, i, 3, 0x7fff_ffff_ffff_ffff),
        pair_sum(a, n, i, 2, 2) == pair_sum(b, n, i, 2, 2),
        avail_sum(a, n, i) == avail_sum(b, n, i),
        avail_sq_sum(a, n, i) == avail_sq_sum(b, n, i),
        fifth_sum(a, i) == fifth_sum(b, i),
        seat_spread_sum(a, i) == seat_spread_sum(b, i),
        transfer_sum(a, i) == transfer_sum(b, i),
        transfer_sq_sum(a, i) == transfer_sq_sum(b, i),
        fives_sum(a, n, i) == fives_sum(b, n, i),
        fives_sq_sum(a, n, i) == fives_sq_sum(b, n, i),
    decreases i,
{
    if i > 0 {
        lemma_totals_eq(a, b, n, i - 1);
        lemma_rows_eq(a, b, n, i - 1, n, 3, 0x7fff_ffff_ffff_ffff);
        lemma_rows_eq(a, b, n, i - 1, n, 2, 2);
        lemma_sums_eq(a, b, pos_idx(i - 1, 7));
        lemma_sums_eq(a, b, pos_idx(i - 1, 3));
        lemma_sums_eq(a, b, pos_idx(i - 1, 4));
        lemma_sums_eq(a, b, pos_idx(i - 1, 5));
        lemma_sums_eq(a, b, pos_idx(i - 1, 6));
        lemma_sums_eq(a, b, pos_idx(i - 1, 2));
        lemma_fives_eq(a, b, n, i - 1, a.len() as int);
        assert(seat_spread(a, i - 1) == seat_spread(b, i - 1));
    }
}

/// The same-seat totals only read the matrices.
proof fn lemma_same_seat_sum_eq(a: Seq<Measure>, b: Seq<Measure>, n: int, i: int)
    requires
        views_eq(a, b),
        i < a.len(),
    ensures
        same_seat_sum(a, n, i) == same_seat_sum(b, n, i),
    decreases i,
{
    if i > 0 {
        lemma_same_seat_sum_eq(a, b, n, i - 1);
        lemma_same_seat_eq(a, b, i - 1, n);
    }
}

/// The rules only read the matrices: measure runs that agree cell for cell
/// score identically, so any two scores of the same cells have the same
/// raw tuple.
pub proof fn lemma_score_unique_views(s1: Score, s2: Score, a: Seq<Measure>, b: Seq<Measure>, n: int)
    requires
        views_eq(a, b),
        s1.is_score_of(a, n),
        s2.is_score_of(b, n),
    ensures
        s1.raw@ == s2.raw@,
{
    lemma_totals_eq(a, b, n, n);
    if a.len() > 0 {
        lemma_same_seat_sum_eq(a, b, n, a.len() - 1);
    }
    assert forall|k: int| 0 <= k < 9 implies s1.raw@[k] == s2.raw@[k] by {
        assert(s1.raw@[k] as int == rule_raw(a, n, k));
        assert(s2.raw@[k] as int == rule_raw(b, n, k));
    }
    assert(s1.raw@ =~= s2.raw@);
}

} // verus!
