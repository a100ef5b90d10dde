//! The measure of one or more rounds: the additive statistics that the
//! seating rules are evaluated on.
//!
//! A measure holds two matrices keyed by dense player index. `pos` (N x 8)
//! counts, for each player: games played, victory points, starting
//! transfers, and one column per seat number occupied. `opp` (N x N x 8)
//! counts, for each ordered pair: opponent (same table), prey, grand-prey,
//! grand-predator, predator, cross-table (seated the same round with no
//! direct or indirect relation), neighbour and non-neighbour.
//!
//! Measures add: the measure of a tournament is the elementwise sum of its
//! rounds' measures, which is what makes incremental recomputation sound.

use crate::relationship::neighbours_spec;
use crate::relationship::relationship_spec;
use crate::relationship::Relationship;
use vstd::prelude::*;

verus! {

/// Largest victory-point or transfer input per player and round, so that
/// matrix cells stay far from `i64` overflow.
pub const VPS_LIMIT: i64 = 10_000;

/// Largest supported player count (and table count per round): keeps matrix
/// sizes and rule arithmetic within machine bounds.
pub const PLAYER_LIMIT: usize = 1000;

/// Cell magnitude up to which a measure can be safely updated in place.
pub const CELL_SLACK: i64 = 1_000_000_000_000_000;

/// Flat position of the `pos` entry for player `p`, column `k`.
pub open spec fn pos_idx(p: int, k: int) -> int {
    p * 8 + k
}

/// Flat position of the `opp` entry for the ordered pair `(p, q)`, column
/// `k`, with `n` players.
pub open spec fn opp_idx(n: int, p: int, q: int, k: int) -> int {
    (p * n + q) * 8 + k
}

/// The position cell of a flat matrix.
pub open spec fn pcell(ps: Seq<i64>, p: int, k: int) -> int {
    ps[pos_idx(p, k)] as int
}

/// The opponent cell of a flat matrix.
pub open spec fn ocell(os: Seq<i64>, n: int, p: int, q: int, k: int) -> int {
    os[opp_idx(n, p, q, k)] as int
}

/// A table as dense indices.
pub open spec fn to_ir(tb: Seq<usize>) -> Seq<int> {
    Seq::new(tb.len(), |s: int| tb[s] as int)
}

/// Value that seat `s` of a table adds to position column `k` of its
/// occupant: played, victory points, transfers, then the seat flags.
pub open spec fn pos_val(vps: Seq<i64>, transfers: Seq<i64>, p: int, k: int, s: int) -> int {
    if k == 0 {
        1
    } else if k == 1 {
        vps[p] as int
    } else if k == 2 {
        transfers[p] as int
    } else if k == s + 3 {
        1
    } else {
        0
    }
}

/// Contribution of seat `s` of table `tb` to position cell `(p, k)`.
pub open spec fn pos_term(
    tb: Seq<int>,
    vps: Seq<i64>,
    transfers: Seq<i64>,
    p: int,
    k: int,
    s: int,
) -> int {
    if tb[s] == p {
        pos_val(vps, transfers, p, k, s)
    } else {
        0
    }
}

/// Contribution of the first `s` seats of `tb` to position cell `(p, k)`.
pub open spec fn pos_contrib_upto(
    tb: Seq<int>,
    vps: Seq<i64>,
    transfers: Seq<i64>,
    p: int,
    k: int,
    s: int,
) -> int
    decreases s,
{
    if s <= 0 {
        0
    } else {
        pos_contrib_upto(tb, vps, transfers, p, k, s - 1) + pos_term(
            tb,
            vps,
            transfers,
            p,
            k,
            s - 1,
        )
    }
}

/// Contribution of a whole table to position cell `(p, k)`.
pub open spec fn pos_contrib(
    tb: Seq<int>,
    vps: Seq<i64>,
    transfers: Seq<i64>,
    p: int,
    k: int,
) -> int {
    pos_contrib_upto(tb, vps, transfers, p, k, tb.len() as int)
}

/// Value of opponent column `k` for the ordered seat pair `(s1, s2)` at a
/// table of `size` seats. Column 5 here is only the same-table cross-table
/// case (the 4-seat distance-2 pair); the different-table case is added at
/// round level.
pub open spec fn flag_val(size: int, s1: int, s2: int, k: int) -> int {
    if k == 0 {
        1
    } else if k == 1 {
        if relationship_spec(size, s1, s2) == Relationship::Prey {
            1
        } else {
            0
        }
    } else if k == 2 {
        if relationship_spec(size, s1, s2) == Relationship::GrandPrey {
            1
        } else {
            0
        }
    } else if k == 3 {
        if relationship_spec(size, s1, s2) == Relationship::GrandPredator {
            1
        } else {
            0
        }
    } else if k == 4 {
        if relationship_spec(size, s1, s2) == Relationship::Predator {
            1
        } else {
            0
        }
    } else if k == 5 {
        if relationship_spec(size, s1, s2) == Relationship::CrossTable {
            1
        } else {
            0
        }
    } else if k == 6 {
        if neighbours_spec(size, s1, s2) {
            1
        } else {
            0
        }
    } else {
        if neighbours_spec(size, s1, s2) {
            0
        } else {
            1
        }
    }
}

/// Contribution of the ordered seat pair `(s1, s2)` of `tb` to opponent
/// cell `(p, q, k)`.
pub open spec fn opp_term(tb: Seq<int>, p: int, q: int, k: int, s1: int, s2: int) -> int {
    if s1 != s2 && tb[s1] == p && tb[s2] == q {
        flag_val(tb.len() as int, s1, s2, k)
    } else {
        0
    }
}

/// Contribution of pairs `(s1, s2)` with `s2 < s2max`.
pub open spec fn opp_inner_upto(
    tb: Seq<int>,
    p: int,
    q: int,
    k: int,
    s1: int,
    s2max: int,
) -> int
    decreases s2max,
{
    if s2max <= 0 {
        0
    } else {
        opp_inner_upto(tb, p, q, k, s1, s2max - 1) + opp_term(tb, p, q, k, s1, s2max - 1)
    }
}

/// Contribution of all pairs led by seat `s1`.
pub open spec fn opp_inner(tb: Seq<int>, p: int, q: int, k: int, s1: int) -> int {
    opp_inner_upto(tb, p, q, k, s1, tb.len() as int)
}

/// Contribution of pairs led by the first `s1max` seats.
pub open spec fn opp_contrib_upto(tb: Seq<int>, p: int, q: int, k: int, s1max: int) -> int
    decreases s1max,
{
    if s1max <= 0 {
        0
    } else {
        opp_contrib_upto(tb, p, q, k, s1max - 1) + opp_inner(tb, p, q, k, s1max - 1)
    }
}

/// Contribution of a whole table to opponent cell `(p, q, k)`.
pub open spec fn opp_contrib(tb: Seq<int>, p: int, q: int, k: int) -> int {
    opp_contrib_upto(tb, p, q, k, tb.len() as int)
}

/// Position cell `(p, k)` accumulated over the first `t` tables of a round.
pub open spec fn pos_cell_upto(
    ir: Seq<Seq<int>>,
    vps: Seq<i64>,
    transfers: Seq<i64>,
    p: int,
    k: int,
    t: int,
) -> int
    decreases t,
{
    if t <= 0 {
        0
    } else {
        pos_cell_upto(ir, vps, transfers, p, k, t - 1) + pos_contrib(
            ir[t - 1],
            vps,
            transfers,
            p,
            k,
        )
    }
}

/// Position cell `(p, k)` of the measure of round `ir`.
pub open spec fn pos_cell(
    ir: Seq<Seq<int>>,
    vps: Seq<i64>,
    transfers: Seq<i64>,
    p: int,
    k: int,
) -> int {
    pos_cell_upto(ir, vps, transfers, p, k, ir.len() as int)
}

/// Same-table part of opponent cell `(p, q, k)` over the first `t` tables.
pub open spec fn opp_tab_upto(ir: Seq<Seq<int>>, p: int, q: int, k: int, t: int) -> int
    decreases t,
{
    if t <= 0 {
        0
    } else {
        opp_tab_upto(ir, p, q, k, t - 1) + opp_contrib(ir[t - 1], p, q, k)
    }
}

/// Same-table part of opponent cell `(p, q, k)` of a round.
pub open spec fn opp_tab(ir: Seq<Seq<int>>, p: int, q: int, k: int) -> int {
    opp_tab_upto(ir, p, q, k, ir.len() as int)
}

/// Opponent cell `(p, q, k)` of the measure of round `ir`: the same-table
/// flags, plus, in the cross-table column, one for each ordered pair of
/// players seated this round at different tables.
pub open spec fn opp_cell(
    ir: Seq<Seq<int>>,
    vps: Seq<i64>,
    transfers: Seq<i64>,
    p: int,
    q: int,
    k: int,
) -> int {
    opp_tab(ir, p, q, k) + if k == 5 && p != q {
        pos_cell(ir, vps, transfers, p, 0) * pos_cell(ir, vps, transfers, q, 0) - opp_tab(
            ir,
            p,
            q,
            0,
        )
    } else {
        0
    }
}

/// A measure: flat position and opponent matrices for `n` players.
pub struct Measure {
    /// Number of players indexed.
    pub n: usize,
    /// `n * 8` position cells.
    pub pos: Vec<i64>,
    /// `n * n * 8` opponent cells.
    pub opp: Vec<i64>,
}

impl Measure {
    /// The matrices have the right shape for `n` players.
    pub open spec fn wf(&self) -> bool {
        &&& self.n <= PLAYER_LIMIT
        &&& self.pos@.len() == self.n * 8
        &&& self.opp@.len() == self.n * self.n * 8
    }
}


/// `m` is exactly the measure of the single round `ir` with the given
/// per-player victory points and starting transfers.
pub open spec fn is_measure_of(
    m: Measure,
    ir: Seq<Seq<int>>,
    vps: Seq<i64>,
    transfers: Seq<i64>,
) -> bool {
    &&& m.wf()
    &&& vps.len() == m.n
    &&& transfers.len() == m.n
    &&& forall|p: int, k: int| 0 <= p < m.n && 0 <= k < 8 ==> #[trigger] pcell(m.pos@, p, k)
        == pos_cell(ir, vps, transfers, p, k)
    &&& forall|p: int, q: int, k: int| 0 <= p < m.n && 0 <= q < m.n && 0 <= k < 8
        ==> #[trigger] ocell(m.opp@, m.n as int, p, q, k) == opp_cell(ir, vps, transfers, p, q, k)
}

/// Every cell of `m` is at most `b` in magnitude.
pub open spec fn cells_bounded(m: Measure, b: int) -> bool {
    &&& forall|p: int, k: int| 0 <= p < m.n && 0 <= k < 8 ==> -b <= #[trigger] pcell(m.pos@, p, k)
        <= b
    &&& forall|p: int, q: int, k: int| 0 <= p < m.n && 0 <= q < m.n && 0 <= k < 8 ==> -b
        <= #[trigger] ocell(m.opp@, m.n as int, p, q, k) <= b
}

/// Flat opponent positions are in range and distinct for distinct cells.
pub proof fn lemma_opp_idx(n: int, p: int, q: int, k: int)
    requires
        0 <= p < n,
        0 <= q < n,
        0 <= k < 8,
    ensures
        0 <= opp_idx(n, p, q, k) < n * n * 8,
        opp_idx(n, p, q, k) / 8 == p * n + q,
        opp_idx(n, p, q, k) % 8 == k,
        (p * n + q) / n == p,
        (p * n + q) % n == q,
{
    assert(0 <= p * n + q < n * n) by (nonlinear_arith)
        requires
            0 <= p < n,
            0 <= q < n,
    ;
    assert(0 <= (p * n + q) * 8 + k < n * n * 8) by (nonlinear_arith)
        requires
            0 <= p * n + q < n * n,
            0 <= k < 8,
    ;
    vstd::arithmetic::div_mod::lemma_fundamental_div_mod_converse(
        (p * n + q) * 8 + k,
        8,
        p * n + q,
        k,
    );
    vstd::arithmetic::div_mod::lemma_fundamental_div_mod_converse(p * n + q, n, p, q);
}

/// Multiplying by a sign distributes and only flips magnitude.
proof fn lemma_sgn(sgn: int, a: int, b: int)
    requires
        sgn == 1 || sgn == -1,
    ensures
        sgn * (a + b) == sgn * a + sgn * b,
        sgn * a == if sgn == 1 {
            a
        } else {
            -a
        },
        sgn * b == if sgn == 1 {
            b
        } else {
            -b
        },
{
    assert(sgn * (a + b) == sgn * a + sgn * b) by (nonlinear_arith);
    if sgn == 1 {
        assert(sgn * a == a && sgn * b == b) by (nonlinear_arith)
            requires
                sgn == 1,
        ;
    } else {
        assert(sgn * a == -a && sgn * b == -b) by (nonlinear_arith)
            requires
                sgn == -1,
        ;
    }
}

/// Add `delta` to (or subtract it from) one cell of a flat matrix.
fn bump(v: &mut Vec<i64>, i: usize, delta: i64, add: bool)
    requires
        i < old(v)@.len(),
        i64::MIN <= old(v)@[i as int] + delta,
        old(v)@[i as int] + delta <= i64::MAX,
        i64::MIN <= old(v)@[i as int] - delta,
        old(v)@[i as int] - delta <= i64::MAX,
    ensures
        final(v)@.len() == old(v)@.len(),
        final(v)@[i as int] == old(v)@[i as int] + (if add {
            delta as int
        } else {
            -(delta as int)
        }),
        forall|j: int| 0 <= j < old(v)@.len() && j != i ==> final(v)@[j] == old(v)@[j],
        final(v)@ == old(v)@.update(i as int, final(v)@[i as int]),
{
    let cur = v[i];
    let nv = if add {
        cur + delta
    } else {
        cur - delta
    };
    let ghost pre = v@;
    v[i] = nv;
    proof {
        assert(v@ =~= pre.update(i as int, nv));
    }
}

/// Add to (or remove from) `m` the contribution of one table's seats and
/// same-table pairs.
fn apply_table(m: &mut Measure, tb: &Vec<usize>, vps: &Vec<i64>, transfers: &Vec<i64>, add: bool)
    requires
        old(m).wf(),
        tb@.len() == 4 || tb@.len() == 5,
        forall|s: int| 0 <= s < tb@.len() ==> #[trigger] tb@[s] < old(m).n,
        vps@.len() == old(m).n,
        transfers@.len() == old(m).n,
        forall|p: int| 0 <= p < vps@.len() ==> 0 <= #[trigger] vps@[p] <= VPS_LIMIT,
        forall|p: int| 0 <= p < transfers@.len() ==> 0 <= #[trigger] transfers@[p] <= VPS_LIMIT,
        cells_bounded(*old(m), CELL_SLACK as int),
    ensures
        final(m).wf(),
        final(m).n == old(m).n,
        forall|p: int, k: int| 0 <= p < old(m).n && 0 <= k < 8 ==> #[trigger] pcell(
            final(m).pos@,
            p,
            k,
        ) == pcell(old(m).pos@, p, k) + (if add {
            1int
        } else {
            -1int
        }) * pos_contrib(to_ir(tb@), vps@, transfers@, p, k),
        forall|p: int, q: int, k: int| 0 <= p < old(m).n && 0 <= q < old(m).n && 0 <= k < 8
            ==> #[trigger] ocell(final(m).opp@, old(m).n as int, p, q, k) == ocell(
            old(m).opp@,
            old(m).n as int,
            p,
            q,
            k,
        ) + (if add {
            1int
        } else {
            -1int
        }) * opp_contrib(to_ir(tb@), p, q, k),
{
    let ghost tbv = to_ir(tb@);
    let ghost n = old(m).n as int;
    let ghost sgn: int = if add {
        1
    } else {
        -1
    };
    let size = tb.len();
    let mut s1: usize = 0;
    while s1 < size
        invariant
            m.wf(),
            old(m).wf(),
            m.n == old(m).n,
            size == tb@.len(),
            tb@.len() == 4 || tb@.len() == 5,
            s1 <= size,
            tbv == to_ir(tb@),
            n == old(m).n as int,
            sgn == if add {
                1int
            } else {
                -1int
            },
            forall|s: int| 0 <= s < tb@.len() ==> #[trigger] tb@[s] < old(m).n,
            vps@.len() == old(m).n,
            transfers@.len() == old(m).n,
            forall|p: int| 0 <= p < vps@.len() ==> 0 <= #[trigger] vps@[p] <= VPS_LIMIT,
            forall|p: int| 0 <= p < transfers@.len() ==> 0 <= #[trigger] transfers@[p]
                <= VPS_LIMIT,
            cells_bounded(*old(m), CELL_SLACK as int),
            forall|p: int, k: int| 0 <= p < n && 0 <= k < 8 ==> #[trigger] pcell(m.pos@, p, k)
                == pcell(old(m).pos@, p, k) + sgn * pos_contrib_upto(
                tbv,
                vps@,
                transfers@,
                p,
                k,
                s1 as int,
            ),
            forall|p: int, q: int, k: int| 0 <= p < n && 0 <= q < n && 0 <= k < 8
                ==> #[trigger] ocell(m.opp@, n, p, q, k) == ocell(old(m).opp@, n, p, q, k) + sgn
                * opp_contrib_upto(tbv, p, q, k, s1 as int),
        decreases size - s1,
    {
        let p = tb[s1];
        proof {
            lemma_pos_upto_range(tbv, vps@, transfers@, s1 as int);
            assert(pos_idx(p as int, 0) < n * 8) by (nonlinear_arith)
                requires
                    0 <= (p as int) < n,
            ;
            assert(0 <= s1 as int * (VPS_LIMIT as int) <= 50000) by (nonlinear_arith)
                requires
                    0 <= s1 as int <= 5,
            ;
            assert(m.pos@[p as int * 8] as int == pcell(m.pos@, p as int, 0));
            assert(m.pos@[p as int * 8 + 1] as int == pcell(m.pos@, p as int, 1));
            assert(m.pos@[p as int * 8 + 2] as int == pcell(m.pos@, p as int, 2));
            assert(m.pos@[p as int * 8 + 3 + s1 as int] as int == pcell(
                m.pos@,
                p as int,
                3 + s1 as int,
            ));
            assert forall|k: int| 0 <= k < 8 implies -(CELL_SLACK as int) - 50000 <= #[trigger] pcell(
                m.pos@,
                p as int,
                k,
            ) <= CELL_SLACK as int + 50000 by {
                let a = pos_contrib_upto(tbv, vps@, transfers@, p as int, k, s1 as int);
                assert(0 <= a <= 50000);
                lemma_sgn(sgn, a, 0);
            }
        }
        let ghost pos_head = m.pos@;
        bump(&mut m.pos, p * 8, 1, add);
        bump(&mut m.pos, p * 8 + 1, vps[p], add);
        bump(&mut m.pos, p * 8 + 2, transfers[p], add);
        bump(&mut m.pos, p * 8 + 3 + s1, 1, add);
        proof {
            assert forall|p2: int, k2: int| 0 <= p2 < n && 0 <= k2 < 8 implies #[trigger] pcell(
                m.pos@,
                p2,
                k2,
            ) == pcell(old(m).pos@, p2, k2) + sgn * pos_contrib_upto(
                tbv,
                vps@,
                transfers@,
                p2,
                k2,
                s1 + 1,
            ) by {
                let a = pos_contrib_upto(tbv, vps@, transfers@, p2, k2, s1 as int);
                let tm = pos_term(tbv, vps@, transfers@, p2, k2, s1 as int);
                assert(pos_contrib_upto(tbv, vps@, transfers@, p2, k2, s1 + 1) == a + tm);
                lemma_sgn(sgn, a, tm);
                assert(pcell(pos_head, p2, k2) == pcell(old(m).pos@, p2, k2) + sgn * a);
                assert(tbv[s1 as int] == p as int);
                if p2 == p as int {
                    assert(pos_val(vps@, transfers@, p2, 1, s1 as int) == vps@[p2] as int);
                    assert(pos_val(vps@, transfers@, p2, 2, s1 as int) == transfers@[p2] as int);
                } else {
                    assert(tm == 0);
                    assert(pos_idx(p2, k2) != pos_idx(p as int, 0));
                    assert(pos_idx(p2, k2) != pos_idx(p as int, 1));
                    assert(pos_idx(p2, k2) != pos_idx(p as int, 2));
                    assert(pos_idx(p2, k2) != pos_idx(p as int, 3 + s1 as int));
                }
            }
        }
        let mut s2: usize = 0;
        while s2 < size
            invariant
                m.wf(),
                old(m).wf(),
                m.n == old(m).n,
                size == tb@.len(),
                tb@.len() == 4 || tb@.len() == 5,
                s1 < size,
                s2 <= size,
                p == tb@[s1 as int],
                p < old(m).n,
                tbv == to_ir(tb@),
                n == old(m).n as int,
                sgn == if add {
                    1int
                } else {
                    -1int
                },
                forall|s: int| 0 <= s < tb@.len() ==> #[trigger] tb@[s] < old(m).n,
                vps@.len() == old(m).n,
                transfers@.len() == old(m).n,
                cells_bounded(*old(m), CELL_SLACK as int),
                forall|p2: int, k2: int| 0 <= p2 < n && 0 <= k2 < 8 ==> #[trigger] pcell(
                    m.pos@,
                    p2,
                    k2,
                ) == pcell(old(m).pos@, p2, k2) + sgn * pos_contrib_upto(
                    tbv,
                    vps@,
                    transfers@,
                    p2,
                    k2,
                    s1 + 1,
                ),
                forall|p2: int, q2: int, k2: int| 0 <= p2 < n && 0 <= q2 < n && 0 <= k2 < 8
                    ==> #[trigger] ocell(m.opp@, n, p2, q2, k2) == ocell(
                    old(m).opp@,
                    n,
                    p2,
                    q2,
                    k2,
                ) + sgn * (opp_contrib_upto(tbv, p2, q2, k2, s1 as int) + opp_inner_upto(
                    tbv,
                    p2,
                    q2,
                    k2,
                    s1 as int,
                    s2 as int,
                )),
            decreases size - s2,
        {
            if s2 != s1 {
                let q = tb[s2];
                proof {
                    lemma_opp_idx(n, p as int, q as int, 0);
                    lemma_opp_inner_range(tbv, s1 as int, s2 as int);
                    lemma_opp_contrib_range(tbv, s1 as int);
                    assert(n * n <= 1000000) by (nonlinear_arith)
                        requires
                            0 <= n <= 1000,
                    ;
                    assert(0 <= s1 as int * tbv.len() <= 25) by (nonlinear_arith)
                        requires
                            0 <= s1 as int <= 5,
                            0 <= tbv.len() <= 5,
                    ;
                }
                let obase = (p * m.n + q) * 8;
                let rel = crate::relationship::relationship(size, s1, s2);
                let nb = crate::relationship::neighbours(size, s1, s2);
                let relcol: usize = match rel {
                    Relationship::Prey => 1,
                    Relationship::GrandPrey => 2,
                    Relationship::GrandPredator => 3,
                    Relationship::Predator => 4,
                    Relationship::CrossTable => 5,
                };
                let nbcol: usize = if nb {
                    6
                } else {
                    7
                };
                let ghost mid = m.opp@;
                proof {
                    assert(obase as int == opp_idx(n, p as int, q as int, 0));
                    assert(obase + relcol == opp_idx(n, p as int, q as int, relcol as int));
                    assert(obase + nbcol == opp_idx(n, p as int, q as int, nbcol as int));
                    lemma_opp_idx(n, p as int, q as int, relcol as int);
                    lemma_opp_idx(n, p as int, q as int, nbcol as int);
                    assert(mid[obase as int] as int == ocell(mid, n, p as int, q as int, 0));
                    assert forall|k: int| 0 <= k < 8 implies -(CELL_SLACK as int) - 30
                        <= #[trigger] ocell(mid, n, p as int, q as int, k) <= CELL_SLACK as int
                        + 30 by {
                        let a = opp_contrib_upto(tbv, p as int, q as int, k, s1 as int);
                        let b = opp_inner_upto(tbv, p as int, q as int, k, s1 as int, s2 as int);
                        assert(0 <= a <= 25);
                        assert(0 <= b <= 5);
                        lemma_sgn(sgn, a, b);
                    }
                    assert(-(CELL_SLACK as int) - 30 <= ocell(mid, n, p as int, q as int, 0)
                        <= CELL_SLACK as int + 30);
                    assert(-(CELL_SLACK as int) - 30 <= ocell(
                        mid,
                        n,
                        p as int,
                        q as int,
                        relcol as int,
                    ) <= CELL_SLACK as int + 30);
                    assert(-(CELL_SLACK as int) - 30 <= ocell(
                        mid,
                        n,
                        p as int,
                        q as int,
                        nbcol as int,
                    ) <= CELL_SLACK as int + 30);
                }
                bump(&mut m.opp, obase, 1, add);
                bump(&mut m.opp, obase + relcol, 1, add);
                bump(&mut m.opp, obase + nbcol, 1, add);
                proof {
                    lemma_apply_pair(
                        old(m).opp@,
                        mid,
                        m.opp@,
                        tbv,
                        n,
                        p as int,
                        q as int,
                        relcol as int,
                        nbcol as int,
                        sgn,
                        s1 as int,
                        s2 as int,
                    );
                }
            } else {
                proof {
                    assert forall|p2: int, q2: int, k2: int| 0 <= p2 < n && 0 <= q2 < n && 0 <= k2
                        < 8 implies opp_inner_upto(tbv, p2, q2, k2, s1 as int, s2 + 1)
                        == opp_inner_upto(tbv, p2, q2, k2, s1 as int, s2 as int) by {
                        assert(opp_term(tbv, p2, q2, k2, s1 as int, s2 as int) == 0);
                    }
                }
            }
            s2 = s2 + 1;
        }
        proof {
            assert forall|p2: int, q2: int, k2: int| 0 <= p2 < n && 0 <= q2 < n && 0 <= k2
                < 8 implies opp_contrib_upto(tbv, p2, q2, k2, s1 + 1) == opp_contrib_upto(
                tbv,
                p2,
                q2,
                k2,
                s1 as int,
            ) + opp_inner_upto(tbv, p2, q2, k2, s1 as int, size as int) by {
                assert(opp_contrib_upto(tbv, p2, q2, k2, s1 + 1) == opp_contrib_upto(
                    tbv,
                    p2,
                    q2,
                    k2,
                    s1 as int,
                ) + opp_inner(tbv, p2, q2, k2, s1 as int));
            }
        }
        s1 = s1 + 1;
    }
}

/// Bounds of the partial position sums: each seat adds at most `VPS_LIMIT`.
proof fn lemma_pos_upto_range(tb: Seq<int>, vps: Seq<i64>, transfers: Seq<i64>, s: int)
    requires
        0 <= s <= tb.len(),
        forall|p: int| 0 <= p < vps.len() ==> 0 <= #[trigger] vps[p] <= VPS_LIMIT,
        forall|p: int| 0 <= p < transfers.len() ==> 0 <= #[trigger] transfers[p] <= VPS_LIMIT,
    ensures
        forall|p: int, k: int| 0 <= p < vps.len() && vps.len() == transfers.len() ==> 0
            <= #[trigger] pos_contrib_upto(tb, vps, transfers, p, k, s) <= s * (VPS_LIMIT as int),
    decreases s,
{
    if s > 0 {
        lemma_pos_upto_range(tb, vps, transfers, s - 1);
        assert forall|p: int, k: int| 0 <= p < vps.len() && vps.len() == transfers.len() implies 0
            <= #[trigger] pos_contrib_upto(tb, vps, transfers, p, k, s) <= s * (
        VPS_LIMIT as int) by {
            assert(0 <= pos_contrib_upto(tb, vps, transfers, p, k, s - 1) <= (s - 1) * (
            VPS_LIMIT as int));
            assert(0 <= pos_term(tb, vps, transfers, p, k, s - 1) <= VPS_LIMIT as int);
            assert((s - 1) * (VPS_LIMIT as int) + VPS_LIMIT as int == s * (VPS_LIMIT as int))
                by (nonlinear_arith);
        }
    } else {
        assert forall|p: int, k: int| 0 <= p < vps.len() && vps.len() == transfers.len() implies 0
            <= #[trigger] pos_contrib_upto(tb, vps, transfers, p, k, s) <= s * (
        VPS_LIMIT as int) by {
            assert(s * (VPS_LIMIT as int) >= 0) by (nonlinear_arith)
                requires
                    s == 0,
            ;
        }
    }
}

/// Bounds of the partial opponent sums: each pair adds at most one.
proof fn lemma_opp_inner_range(tb: Seq<int>, s1: int, s2: int)
    requires
        0 <= s2,
    ensures
        forall|p: int, q: int, k: int| 0 <= #[trigger] opp_inner_upto(tb, p, q, k, s1, s2) <= s2,
    decreases s2,
{
    if s2 > 0 {
        lemma_opp_inner_range(tb, s1, s2 - 1);
        assert forall|p: int, q: int, k: int| 0 <= #[trigger] opp_inner_upto(
            tb,
            p,
            q,
            k,
            s1,
            s2,
        ) <= s2 by {
            assert(0 <= opp_inner_upto(tb, p, q, k, s1, s2 - 1) <= s2 - 1);
            assert(0 <= opp_term(tb, p, q, k, s1, s2 - 1) <= 1);
        }
    }
}

/// Bounds of the per-seat opponent sums: seat `s1` leads at most one pair
/// per other seat.
proof fn lemma_opp_contrib_range(tb: Seq<int>, s1: int)
    requires
        0 <= s1,
    ensures
        forall|p: int, q: int, k: int| 0 <= #[trigger] opp_contrib_upto(tb, p, q, k, s1) <= s1
            * tb.len(),
    decreases s1,
{
    if s1 > 0 {
        lemma_opp_contrib_range(tb, s1 - 1);
        lemma_opp_inner_range(tb, s1 - 1, tb.len() as int);
        assert forall|p: int, q: int, k: int| 0 <= #[trigger] opp_contrib_upto(
            tb,
            p,
            q,
            k,
            s1,
        ) <= s1 * tb.len() by {
            assert(0 <= opp_contrib_upto(tb, p, q, k, s1 - 1) <= (s1 - 1) * tb.len());
            assert(0 <= opp_inner(tb, p, q, k, s1 - 1) <= tb.len());
            assert((s1 - 1) * tb.len() + tb.len() == s1 * tb.len()) by (nonlinear_arith);
        }
    } else {
        assert forall|p: int, q: int, k: int| 0 <= #[trigger] opp_contrib_upto(
            tb,
            p,
            q,
            k,
            s1,
        ) <= s1 * tb.len() by {
            assert(s1 * tb.len() == 0) by (nonlinear_arith)
                requires
                    s1 == 0,
            ;
        }
    }
}

/// After the three cell updates for the seat pair `(s1, s2)`, every
/// opponent cell carries exactly one more pair term.
proof fn lemma_apply_pair(
    base: Seq<i64>,
    mid: Seq<i64>,
    cur: Seq<i64>,
    tbv: Seq<int>,
    n: int,
    p: int,
    q: int,
    relcol: int,
    nbcol: int,
    sgn: int,
    s1: int,
    s2: int,
)
    requires
        0 <= p < n,
        0 <= q < n,
        1 <= relcol <= 5,
        nbcol == 6 || nbcol == 7,
        s1 != s2,
        0 <= s1 < tbv.len(),
        0 <= s2 < tbv.len(),
        tbv[s1] == p,
        tbv[s2] == q,
        sgn == 1 || sgn == -1,
        cur.len() == mid.len(),
        mid.len() == base.len(),
        base.len() == n * n * 8,
        relcol == rel_col_of(tbv.len() as int, s1, s2),
        nbcol == nb_col_of(tbv.len() as int, s1, s2),
        forall|p2: int, q2: int, k2: int| 0 <= p2 < n && 0 <= q2 < n && 0 <= k2 < 8
            ==> #[trigger] ocell(mid, n, p2, q2, k2) == ocell(base, n, p2, q2, k2) + sgn * (
        opp_contrib_upto(tbv, p2, q2, k2, s1) + opp_inner_upto(tbv, p2, q2, k2, s1, s2)),
        forall|j: int|
            0 <= j < mid.len() && j != opp_idx(n, p, q, 0) && j != opp_idx(n, p, q, relcol) && j
                != opp_idx(n, p, q, nbcol) ==> #[trigger] cur[j] == mid[j],
        cur[opp_idx(n, p, q, 0)] as int == mid[opp_idx(n, p, q, 0)] + sgn,
        cur[opp_idx(n, p, q, relcol)] as int == mid[opp_idx(n, p, q, relcol)] + sgn,
        cur[opp_idx(n, p, q, nbcol)] as int == mid[opp_idx(n, p, q, nbcol)] + sgn,
    ensures
        forall|p2: int, q2: int, k2: int| 0 <= p2 < n && 0 <= q2 < n && 0 <= k2 < 8
            ==> #[trigger] ocell(cur, n, p2, q2, k2) == ocell(base, n, p2, q2, k2) + sgn * (
        opp_contrib_upto(tbv, p2, q2, k2, s1) + opp_inner_upto(tbv, p2, q2, k2, s1, s2 + 1)),
{
    lemma_opp_idx(n, p, q, 0);
    lemma_opp_idx(n, p, q, relcol);
    lemma_opp_idx(n, p, q, nbcol);
    assert forall|p2: int, q2: int, k2: int| 0 <= p2 < n && 0 <= q2 < n && 0 <= k2
        < 8 implies #[trigger] ocell(cur, n, p2, q2, k2) == ocell(base, n, p2, q2, k2) + sgn * (
    opp_contrib_upto(tbv, p2, q2, k2, s1) + opp_inner_upto(tbv, p2, q2, k2, s1, s2 + 1)) by {
        lemma_opp_idx(n, p2, q2, k2);
        let a = opp_contrib_upto(tbv, p2, q2, k2, s1);
        let b = opp_inner_upto(tbv, p2, q2, k2, s1, s2);
        let tm = opp_term(tbv, p2, q2, k2, s1, s2);
        assert(opp_inner_upto(tbv, p2, q2, k2, s1, s2 + 1) == b + tm);
        lemma_sgn(sgn, a, b);
        lemma_sgn(sgn, a + b, tm);
        assert(ocell(mid, n, p2, q2, k2) == ocell(base, n, p2, q2, k2) + sgn * (a + b));
        if p2 == p && q2 == q && (k2 == 0 || k2 == relcol || k2 == nbcol) {
            assert(tm == 1);
            assert(ocell(cur, n, p2, q2, k2) == ocell(mid, n, p2, q2, k2) + sgn);
            assert(sgn * (a + b + 1) == sgn * (a + b) + sgn) by (nonlinear_arith);
        } else {
            assert(tm == 0);
            assert(opp_idx(n, p2, q2, k2) != opp_idx(n, p, q, 0));
            assert(opp_idx(n, p2, q2, k2) != opp_idx(n, p, q, relcol));
            assert(opp_idx(n, p2, q2, k2) != opp_idx(n, p, q, nbcol));
            assert(ocell(cur, n, p2, q2, k2) == ocell(mid, n, p2, q2, k2));
        }
    }
}

/// The relation column that the pair `(s1, s2)` marks.
pub open spec fn rel_col_of(size: int, s1: int, s2: int) -> int {
    if relationship_spec(size, s1, s2) == Relationship::Prey {
        1
    } else if relationship_spec(size, s1, s2) == Relationship::GrandPrey {
        2
    } else if relationship_spec(size, s1, s2) == Relationship::GrandPredator {
        3
    } else if relationship_spec(size, s1, s2) == Relationship::Predator {
        4
    } else {
        5
    }
}

/// The neighbour column that the pair `(s1, s2)` marks.
pub open spec fn nb_col_of(size: int, s1: int, s2: int) -> int {
    if neighbours_spec(size, s1, s2) {
        6
    } else {
        7
    }
}

/// Add to (or remove from) the cross-table column one mark for each ordered
/// pair of players seated this round, minus their same-table mark: reading
/// the played flags and the opponent column of `m` itself.
fn apply_roundcross(m: &mut Measure, add: bool)
    requires
        old(m).wf(),
        forall|p: int| 0 <= p < old(m).n ==> -100000 <= #[trigger] pcell(old(m).pos@, p, 0)
            <= 100000,
        cells_bounded(*old(m), CELL_SLACK as int),
    ensures
        final(m).wf(),
        final(m).n == old(m).n,
        final(m).pos@ == old(m).pos@,
        forall|p: int, q: int, k: int|
            0 <= p < old(m).n && 0 <= q < old(m).n && 0 <= k < 8 && !(k == 5 && p != q)
                ==> #[trigger] ocell(final(m).opp@, old(m).n as int, p, q, k) == ocell(
                old(m).opp@,
                old(m).n as int,
                p,
                q,
                k,
            ),
        forall|p: int, q: int| 0 <= p < old(m).n && 0 <= q < old(m).n && p != q
            ==> #[trigger] ocell(final(m).opp@, old(m).n as int, p, q, 5) == ocell(
            old(m).opp@,
            old(m).n as int,
            p,
            q,
            5,
        ) + (if add {
            1int
        } else {
            -1int
        }) * (pcell(old(m).pos@, p, 0) * pcell(old(m).pos@, q, 0) - ocell(
            old(m).opp@,
            old(m).n as int,
            p,
            q,
            0,
        )),
{
    let ghost n = old(m).n as int;
    let ghost sgn: int = if add {
        1
    } else {
        -1
    };
    let nn = m.n;
    let mut p: usize = 0;
    while p < nn
        invariant
            m.wf(),
            old(m).wf(),
            m.n == old(m).n,
            nn == m.n,
            n == old(m).n as int,
            sgn == if add {
                1int
            } else {
                -1int
            },
            p <= nn,
            m.pos@ == old(m).pos@,
            forall|p2: int| 0 <= p2 < n ==> -100000 <= #[trigger] pcell(old(m).pos@, p2, 0)
                <= 100000,
            cells_bounded(*old(m), CELL_SLACK as int),
            forall|p2: int, q2: int, k2: int|
                0 <= p2 < n && 0 <= q2 < n && 0 <= k2 < 8 && !(k2 == 5 && p2 != q2 && p2 < p)
                    ==> #[trigger] ocell(m.opp@, n, p2, q2, k2) == ocell(
                    old(m).opp@,
                    n,
                    p2,
                    q2,
                    k2,
                ),
            forall|p2: int, q2: int| 0 <= p2 < n && 0 <= q2 < n && p2 != q2 && p2 < p
                ==> #[trigger] ocell(m.opp@, n, p2, q2, 5) == ocell(old(m).opp@, n, p2, q2, 5)
                + sgn * (pcell(old(m).pos@, p2, 0) * pcell(old(m).pos@, q2, 0) - ocell(
                old(m).opp@,
                n,
                p2,
                q2,
                0,
            )),
        decreases nn - p,
    {
        let mut q: usize = 0;
        while q < nn
            invariant
                m.wf(),
                old(m).wf(),
                m.n == old(m).n,
                nn == m.n,
                n == old(m).n as int,
                sgn == if add {
                    1int
                } else {
                    -1int
                },
                p < nn,
                q <= nn,
                m.pos@ == old(m).pos@,
                forall|p2: int| 0 <= p2 < n ==> -100000 <= #[trigger] pcell(old(m).pos@, p2, 0)
                    <= 100000,
                cells_bounded(*old(m), CELL_SLACK as int),
                forall|p2: int, q2: int, k2: int|
                    0 <= p2 < n && 0 <= q2 < n && 0 <= k2 < 8 && !(k2 == 5 && p2 != q2 && (p2 < p
                        || (p2 == p && q2 < q))) ==> #[trigger] ocell(m.opp@, n, p2, q2, k2)
                        == ocell(old(m).opp@, n, p2, q2, k2),
                forall|p2: int, q2: int|
                    0 <= p2 < n && 0 <= q2 < n && p2 != q2 && (p2 < p || (p2 == p && q2 < q))
                        ==> #[trigger] ocell(m.opp@, n, p2, q2, 5) == ocell(
                        old(m).opp@,
                        n,
                        p2,
                        q2,
                        5,
                    ) + sgn * (pcell(old(m).pos@, p2, 0) * pcell(old(m).pos@, q2, 0) - ocell(
                        old(m).opp@,
                        n,
                        p2,
                        q2,
                        0,
                    )),
            decreases nn - q,
        {
            if q != p {
                proof {
                    lemma_opp_idx(n, p as int, q as int, 0);
                    lemma_opp_idx(n, p as int, q as int, 5);
                    assert(n * n <= 1000000) by (nonlinear_arith)
                        requires
                            0 <= n <= 1000,
                    ;
                    assert(m.pos@[p as int * 8] as int == pcell(old(m).pos@, p as int, 0));
                    assert(m.pos@[q as int * 8] as int == pcell(old(m).pos@, q as int, 0));
                }
                let a = m.pos[p * 8];
                let b = m.pos[q * 8];
                let obase = (p * nn + q) * 8;
                proof {
                    assert(obase as int == opp_idx(n, p as int, q as int, 0));
                    assert(m.opp@[obase as int] as int == ocell(m.opp@, n, p as int, q as int, 0));
                    assert(ocell(m.opp@, n, p as int, q as int, 0) == ocell(
                        old(m).opp@,
                        n,
                        p as int,
                        q as int,
                        0,
                    ));
                    assert(ocell(m.opp@, n, p as int, q as int, 5) == ocell(
                        old(m).opp@,
                        n,
                        p as int,
                        q as int,
                        5,
                    ));
                    assert(-10000000000 <= a as int * b as int <= 10000000000) by (nonlinear_arith)
                        requires
                            -100000 <= a as int <= 100000,
                            -100000 <= b as int <= 100000,
                    ;
                }
                let c = m.opp[obase];
                let delta = a * b - c;
                let ghost mid = m.opp@;
                bump(&mut m.opp, obase + 5, delta, add);
                proof {
                    let dd = pcell(old(m).pos@, p as int, 0) * pcell(old(m).pos@, q as int, 0)
                        - ocell(old(m).opp@, n, p as int, q as int, 0);
                    assert(delta as int == dd);
                    lemma_sgn(sgn, dd, 0);
                    assert forall|p2: int, q2: int, k2: int|
                        0 <= p2 < n && 0 <= q2 < n && 0 <= k2 < 8 && !(p2 == p as int && q2
                            == q as int && k2 == 5) implies #[trigger] ocell(m.opp@, n, p2, q2, k2)
                        == ocell(mid, n, p2, q2, k2) by {
                        lemma_opp_idx(n, p2, q2, k2);
                    }
                }
            }
            q = q + 1;
        }
        p = p + 1;
    }
}

/// A vector of `len` zero cells.
fn zero_cells(len: usize) -> (r: Vec<i64>)
    ensures
        r@.len() == len,
        forall|j: int| 0 <= j < len ==> #[trigger] r@[j] == 0,
{
    let mut r: Vec<i64> = Vec::new();
    let mut i: usize = 0;
    while i < len
        invariant
            i <= len,
            r@.len() == i,
            forall|j: int| 0 <= j < i ==> #[trigger] r@[j] == 0,
        decreases len - i,
    {
        r.push(0);
        i = i + 1;
    }
    r
}

/// A copy of a cell vector.
fn copy_cells(v: &Vec<i64>) -> (r: Vec<i64>)
    ensures
        r@ == v@,
{
    let mut r: Vec<i64> = Vec::new();
    let mut i: usize = 0;
    while i < v.len()
        invariant
            i <= v@.len(),
            r@ == v@.take(i as int),
        decreases v@.len() - i,
    {
        r.push(v[i]);
        assert(v@.take(i + 1 as int) == v@.take(i as int).push(v@[i as int]));
        i = i + 1;
    }
    assert(r@ =~= v@);
    r
}

impl Measure {
    /// The all-zero measure for `n` players.
    pub fn new(n: usize) -> (m: Measure)
        requires
            n <= PLAYER_LIMIT,
        ensures
            m.wf(),
            m.n == n,
            forall|p: int, k: int| 0 <= p < n && 0 <= k < 8 ==> #[trigger] pcell(m.pos@, p, k)
                == 0,
            forall|p: int, q: int, k: int| 0 <= p < n && 0 <= q < n && 0 <= k < 8
                ==> #[trigger] ocell(m.opp@, n as int, p, q, k) == 0,
            forall|j: int| 0 <= j < m.pos@.len() ==> #[trigger] m.pos@[j] == 0,
            forall|j: int| 0 <= j < m.opp@.len() ==> #[trigger] m.opp@[j] == 0,
    {
        proof {
            assert(n * n <= 1000000) by (nonlinear_arith)
                requires
                    0 <= n <= 1000,
            ;
        }
        let pos = zero_cells(n * 8);
        let opp = zero_cells(n * n * 8);
        let m = Measure { n, pos, opp };
        proof {
            assert forall|p: int, k: int| 0 <= p < n && 0 <= k < 8 implies #[trigger] pcell(
                m.pos@,
                p,
                k,
            ) == 0 by {
                assert(0 <= pos_idx(p, k) < n * 8) by (nonlinear_arith)
                    requires
                        0 <= p < n,
                        0 <= k < 8,
                ;
            }
            assert forall|p: int, q: int, k: int| 0 <= p < n && 0 <= q < n && 0 <= k
                < 8 implies #[trigger] ocell(m.opp@, n as int, p, q, k) == 0 by {
                lemma_opp_idx(n as int, p, q, k);
            }
        }
        m
    }

    /// An identical copy.
    pub fn duplicate(&self) -> (r: Measure)
        ensures
            r.n == self.n,
            r.pos@ == self.pos@,
            r.opp@ == self.opp@,
    {
        Measure { n: self.n, pos: copy_cells(&self.pos), opp: copy_cells(&self.opp) }
    }
}



/// The tables of a round, each as its player sequence.
pub open spec fn tables_view(ts: Seq<Vec<i32>>) -> Seq<Seq<i32>> {
    Seq::new(ts.len(), |i: int| ts[i]@)
}

/// A round's tables as dense player indices under `pm`.
pub open spec fn ir_of(tabs: Seq<Seq<i32>>, pm: crate::player_index::PlayerIndex) -> Seq<
    Seq<int>,
> {
    Seq::new(
        tabs.len(),
        |t: int| Seq::new(tabs[t].len(), |s: int| pm.index_spec(tabs[t][s])),
    )
}

/// Bounds of whole-round cell sums: at most `50000` per table and position
/// cell, `5` per table for the played column, `25` per table and opponent
/// cell.
pub proof fn lemma_round_ranges(ir: Seq<Seq<int>>, vps: Seq<i64>, transfers: Seq<i64>, t: int)
    requires
        0 <= t <= ir.len(),
        forall|t2: int| 0 <= t2 < ir.len() ==> #[trigger] ir[t2].len() <= 5,
        vps.len() == transfers.len(),
        forall|p: int| 0 <= p < vps.len() ==> 0 <= #[trigger] vps[p] <= VPS_LIMIT,
        forall|p: int| 0 <= p < transfers.len() ==> 0 <= #[trigger] transfers[p] <= VPS_LIMIT,
    ensures
        forall|p: int, k: int| 0 <= p < vps.len() ==> 0 <= #[trigger] pos_cell_upto(
            ir,
            vps,
            transfers,
            p,
            k,
            t,
        ) <= t * 50000,
        forall|p: int| 0 <= p < vps.len() ==> #[trigger] pos_cell_upto(ir, vps, transfers, p, 0, t)
            <= t * 5,
        forall|p: int, q: int, k: int| 0 <= #[trigger] opp_tab_upto(ir, p, q, k, t) <= t * 25,
    decreases t,
{
    if t > 0 {
        lemma_round_ranges(ir, vps, transfers, t - 1);
        let tb = ir[t - 1];
        lemma_pos_upto_range(tb, vps, transfers, tb.len() as int);
        lemma_pos0_upto_range(tb, vps, transfers, tb.len() as int);
        lemma_opp_contrib_range(tb, tb.len() as int);
        assert(tb.len() * tb.len() <= 25) by (nonlinear_arith)
            requires
                0 <= tb.len() <= 5,
        ;
        assert(tb.len() as int * (VPS_LIMIT as int) <= 50000) by (nonlinear_arith)
            requires
                0 <= tb.len() <= 5,
        ;
        assert forall|p: int, k: int| 0 <= p < vps.len() implies 0 <= #[trigger] pos_cell_upto(
            ir,
            vps,
            transfers,
            p,
            k,
            t,
        ) <= t * 50000 by {
            assert(0 <= pos_contrib(tb, vps, transfers, p, k) <= 50000);
            assert(0 <= pos_cell_upto(ir, vps, transfers, p, k, t - 1) <= (t - 1) * 50000);
        }
        assert forall|p: int| 0 <= p < vps.len() implies #[trigger] pos_cell_upto(
            ir,
            vps,
            transfers,
            p,
            0,
            t,
        ) <= t * 5 by {
            assert(0 <= pos_contrib(tb, vps, transfers, p, 0) <= 5);
            assert(pos_cell_upto(ir, vps, transfers, p, 0, t - 1) <= (t - 1) * 5);
        }
        assert forall|p: int, q: int, k: int| 0 <= #[trigger] opp_tab_upto(ir, p, q, k, t) <= t
            * 25 by {
            assert(0 <= opp_contrib(tb, p, q, k) <= 25);
            assert(0 <= opp_tab_upto(ir, p, q, k, t - 1) <= (t - 1) * 25);
        }
    }
}

/// The played column gains at most one per seat.
proof fn lemma_pos0_upto_range(tb: Seq<int>, vps: Seq<i64>, transfers: Seq<i64>, s: int)
    requires
        0 <= s,
    ensures
        forall|p: int| 0 <= #[trigger] pos_contrib_upto(tb, vps, transfers, p, 0, s) <= s,
    decreases s,
{
    if s > 0 {
        lemma_pos0_upto_range(tb, vps, transfers, s - 1);
        assert forall|p: int| 0 <= #[trigger] pos_contrib_upto(tb, vps, transfers, p, 0, s)
            <= s by {
            assert(0 <= pos_contrib_upto(tb, vps, transfers, p, 0, s - 1) <= s - 1);
            assert(0 <= pos_term(tb, vps, transfers, p, 0, s - 1) <= 1);
        }
    }
}

/// A table of players as their dense indices; fails on the first player
/// that was never registered.
fn index_table(tb: &Vec<i32>, pm: &crate::player_index::PlayerIndex) -> (r: Result<
    Vec<usize>,
    crate::round::RoundError,
>)
    requires
        pm.wf(),
    ensures
        match r {
            Ok(iv) => iv@.len() == tb@.len() && (forall|s: int| 0 <= s < tb@.len()
                ==> pm@.contains(#[trigger] tb@[s])) && (forall|s: int| 0 <= s < tb@.len()
                ==> #[trigger] iv@[s] < pm@.len() && iv@[s] as int == pm.index_spec(tb@[s])),
            Err(crate::round::RoundError::UnknownPlayer(x)) => !pm@.contains(x) && tb@.contains(x),
            Err(_) => false,
        },
{
    let mut iv: Vec<usize> = Vec::new();
    let mut s: usize = 0;
    while s < tb.len()
        invariant
            pm.wf(),
            s <= tb@.len(),
            iv@.len() == s,
            forall|j: int| 0 <= j < s ==> pm@.contains(#[trigger] tb@[j]),
            forall|j: int| 0 <= j < s ==> #[trigger] iv@[j] < pm@.len() && iv@[j] as int
                == pm.index_spec(tb@[j]),
        decreases tb@.len() - s,
    {
        match pm.index_of(tb[s]) {
            Ok(i) => {
                proof {
                    assert(pm@[i as int] == tb@[s as int]);
                    assert(pm@.contains(tb@[s as int]));
                }
                iv.push(i);
            },
            Err(e) => {
                proof {
                    assert(tb@[s as int] == tb@[s as int]);
                    assert(tb@.contains(tb@[s as int]));
                }
                match e {
                    crate::round::RoundError::UnknownPlayer(x) => {
                        return Err(crate::round::RoundError::UnknownPlayer(x));
                    },
                    _ => {
                        proof {
                            assert(false);
                        }
                    },
                }
            },
        }
        s = s + 1;
    }
    Ok(iv)
}

/// Measure one round: every seat's position statistics and every ordered
/// pair's relationship flags, with the supplied per-player victory points
/// and starting transfers counted for each seated player.
pub fn measure_round(
    round: &crate::round::Round,
    pm: &crate::player_index::PlayerIndex,
    vps: &Vec<i64>,
    transfers: &Vec<i64>,
) -> (r: Result<Measure, crate::round::RoundError>)
    requires
        pm.wf(),
        pm@.len() <= PLAYER_LIMIT,
        vps@.len() == pm@.len(),
        transfers@.len() == pm@.len(),
        forall|p: int| 0 <= p < vps@.len() ==> 0 <= #[trigger] vps@[p] <= VPS_LIMIT,
        forall|p: int| 0 <= p < transfers@.len() ==> 0 <= #[trigger] transfers@[p] <= VPS_LIMIT,
        round@.len() <= PLAYER_LIMIT,
        forall|t: int| 0 <= t < round@.len() ==> (#[trigger] round@[t].len() == 4
            || round@[t].len() == 5),
    ensures
        match r {
            Ok(m) => m.n == pm@.len() && is_measure_of(m, ir_of(round@, *pm), vps@, transfers@)
                && cells_bounded(m, 1000000000) && (forall|t: int, s: int|
                0 <= t < round@.len() && 0 <= s < round@[t].len() ==> pm@.contains(
                    #[trigger] round@[t][s],
                )),
            Err(crate::round::RoundError::UnknownPlayer(x)) => !pm@.contains(x) && (exists|t: int|
                0 <= t < round@.len() && #[trigger] round@[t].contains(x)),
            Err(_) => false,
        },
{
    let n = pm.len();
    let mut m = Measure::new(n);
    let ghost ir = ir_of(round@, *pm);
    let mut t: usize = 0;
    while t < round.0.len()
        invariant
            pm.wf(),
            pm@.len() <= PLAYER_LIMIT,
            n == pm@.len(),
            vps@.len() == n,
            transfers@.len() == n,
            forall|p: int| 0 <= p < vps@.len() ==> 0 <= #[trigger] vps@[p] <= VPS_LIMIT,
            forall|p: int| 0 <= p < transfers@.len() ==> 0 <= #[trigger] transfers@[p]
                <= VPS_LIMIT,
            round@.len() <= PLAYER_LIMIT,
            forall|t2: int| 0 <= t2 < round@.len() ==> (#[trigger] round@[t2].len() == 4
                || round@[t2].len() == 5),
            t <= round@.len(),
            ir == ir_of(round@, *pm),
            forall|t2: int, s: int| 0 <= t2 < t && 0 <= s < round@[t2].len() ==> pm@.contains(
                #[trigger] round@[t2][s],
            ),
            m.wf(),
            m.n == n,
            forall|p: int, k: int| 0 <= p < n && 0 <= k < 8 ==> #[trigger] pcell(m.pos@, p, k)
                == pos_cell_upto(ir, vps@, transfers@, p, k, t as int),
            forall|p: int, q: int, k: int| 0 <= p < n && 0 <= q < n && 0 <= k < 8
                ==> #[trigger] ocell(m.opp@, n as int, p, q, k) == opp_tab_upto(
                ir,
                p,
                q,
                k,
                t as int,
            ),
        decreases round@.len() - t,
    {
        let iv = match index_table(&round.0[t], pm) {
            Ok(iv) => iv,
            Err(e) => {
                proof {
                    if let crate::round::RoundError::UnknownPlayer(x) = e {
                        assert(round@[t as int].contains(x));
                    }
                }
                return Err(e);
            },
        };
        proof {
            assert(forall|t2: int| 0 <= t2 < ir.len() ==> #[trigger] ir[t2].len() <= 5);
            lemma_round_ranges(ir, vps@, transfers@, t as int);
            assert(cells_bounded(m, CELL_SLACK as int)) by {
                assert forall|p: int, k: int| 0 <= p < m.n && 0 <= k < 8 implies -(
                CELL_SLACK as int) <= #[trigger] pcell(m.pos@, p, k) <= CELL_SLACK as int by {
                    assert(pcell(m.pos@, p, k) == pos_cell_upto(ir, vps@, transfers@, p, k, t as int));
                }
                assert forall|p: int, q: int, k: int| 0 <= p < m.n && 0 <= q < m.n && 0 <= k
                    < 8 implies -(CELL_SLACK as int) <= #[trigger] ocell(
                    m.opp@,
                    m.n as int,
                    p,
                    q,
                    k,
                ) <= CELL_SLACK as int by {
                    assert(ocell(m.opp@, n as int, p, q, k) == opp_tab_upto(ir, p, q, k, t as int));
                }
            }
            assert(to_ir(iv@) =~= ir[t as int]);
        }
        apply_table(&mut m, &iv, vps, transfers, true);
        proof {
            assert forall|p: int, k: int| 0 <= p < n && 0 <= k < 8 implies #[trigger] pcell(
                m.pos@,
                p,
                k,
            ) == pos_cell_upto(ir, vps@, transfers@, p, k, t + 1) by {
                assert(pos_cell_upto(ir, vps@, transfers@, p, k, t + 1) == pos_cell_upto(
                    ir,
                    vps@,
                    transfers@,
                    p,
                    k,
                    t as int,
                ) + pos_contrib(ir[t as int], vps@, transfers@, p, k));
            }
            assert forall|p: int, q: int, k: int| 0 <= p < n && 0 <= q < n && 0 <= k
                < 8 implies #[trigger] ocell(m.opp@, n as int, p, q, k) == opp_tab_upto(
                ir,
                p,
                q,
                k,
                t + 1,
            ) by {
                assert(opp_tab_upto(ir, p, q, k, t + 1) == opp_tab_upto(ir, p, q, k, t as int)
                    + opp_contrib(ir[t as int], p, q, k));
            }
        }
        t = t + 1;
    }
    proof {
        assert(ir.len() == round@.len());
        assert(forall|t2: int| 0 <= t2 < ir.len() ==> #[trigger] ir[t2].len() <= 5);
        lemma_round_ranges(ir, vps@, transfers@, ir.len() as int);
    }
    apply_roundcross(&mut m, true);
    proof {
        assert forall|p: int, q: int, k: int| 0 <= p < n && 0 <= q < n && 0 <= k
            < 8 implies #[trigger] ocell(m.opp@, n as int, p, q, k) == opp_cell(
            ir,
            vps@,
            transfers@,
            p,
            q,
            k,
        ) by {
            if k == 5 && p != q {
                assert(-25000000 <= pos_cell(ir, vps@, transfers@, p, 0) * pos_cell(
                    ir,
                    vps@,
                    transfers@,
                    q,
                    0,
                ) <= 25000000) by (nonlinear_arith)
                    requires
                        0 <= pos_cell(ir, vps@, transfers@, p, 0) <= 5000,
                        0 <= pos_cell(ir, vps@, transfers@, q, 0) <= 5000,
                ;
            }
        }
        assert forall|p: int, q: int, k: int| 0 <= p < n && 0 <= q < n && 0 <= k
            < 8 implies -1000000000 <= #[trigger] ocell(m.opp@, n as int, p, q, k)
            <= 1000000000 by {
            if k == 5 && p != q {
                assert(-25000000 <= pos_cell(ir, vps@, transfers@, p, 0) * pos_cell(
                    ir,
                    vps@,
                    transfers@,
                    q,
                    0,
                ) <= 25000000) by (nonlinear_arith)
                    requires
                        0 <= pos_cell(ir, vps@, transfers@, p, 0) <= 5000,
                        0 <= pos_cell(ir, vps@, transfers@, q, 0) <= 5000,
                ;
            }
        }
    }
    Ok(m)
}

/// Elementwise sum of the position matrices of `ms` at flat index `j`.
pub open spec fn pos_sum_at(ms: Seq<Measure>, j: int) -> int
    decreases ms.len(),
{
    if ms.len() == 0 {
        0
    } else {
        pos_sum_at(ms.drop_last(), j) + ms.last().pos@[j] as int
    }
}

/// Elementwise sum of the opponent matrices of `ms` at flat index `j`.
pub open spec fn opp_sum_at(ms: Seq<Measure>, j: int) -> int
    decreases ms.len(),
{
    if ms.len() == 0 {
        0
    } else {
        opp_sum_at(ms.drop_last(), j) + ms.last().opp@[j] as int
    }
}

/// Measure additivity: the elementwise sum over two runs of rounds equals
/// the sum of each run's elementwise sums, so the measure of a tournament
/// is the sum of its rounds' measures however they are grouped.
pub proof fn lemma_measure_additive(ms1: Seq<Measure>, ms2: Seq<Measure>, j: int)
    ensures
        pos_sum_at(ms1 + ms2, j) == pos_sum_at(ms1, j) + pos_sum_at(ms2, j),
        opp_sum_at(ms1 + ms2, j) == opp_sum_at(ms1, j) + opp_sum_at(ms2, j),
    decreases ms2.len(),
{
    if ms2.len() == 0 {
        assert(ms1 + ms2 =~= ms1);
    } else {
        lemma_measure_additive(ms1, ms2.drop_last(), j);
        assert((ms1 + ms2).drop_last() =~= ms1 + ms2.drop_last());
        assert((ms1 + ms2).last() == ms2.last());
    }
}

/// Add every cell of `other` into `m`.
fn add_measure(m: &mut Measure, other: &Measure)
    requires
        old(m).wf(),
        other.wf(),
        other.n == old(m).n,
        forall|j: int| 0 <= j < old(m).pos@.len() ==> -(CELL_SLACK as int)
            <= #[trigger] old(m).pos@[j] + other.pos@[j] <= CELL_SLACK as int && -(
        CELL_SLACK as int) <= old(m).pos@[j] <= CELL_SLACK as int,
        forall|j: int| 0 <= j < old(m).opp@.len() ==> -(CELL_SLACK as int)
            <= #[trigger] old(m).opp@[j] + other.opp@[j] <= CELL_SLACK as int && -(
        CELL_SLACK as int) <= old(m).opp@[j] <= CELL_SLACK as int,
    ensures
        final(m).wf(),
        final(m).n == old(m).n,
        forall|j: int| 0 <= j < old(m).pos@.len() ==> #[trigger] final(m).pos@[j] == old(
            m,
        ).pos@[j] + other.pos@[j],
        forall|j: int| 0 <= j < old(m).opp@.len() ==> #[trigger] final(m).opp@[j] == old(
            m,
        ).opp@[j] + other.opp@[j],
{
    let plen = m.pos.len();
    let mut j: usize = 0;
    while j < plen
        invariant
            m.wf(),
            old(m).wf(),
            other.wf(),
            m.n == old(m).n,
            other.n == old(m).n,
            plen == m.pos@.len(),
            j <= plen,
            forall|j2: int| 0 <= j2 < old(m).pos@.len() ==> -(CELL_SLACK as int)
                <= #[trigger] old(m).pos@[j2] + other.pos@[j2] <= CELL_SLACK as int && -(
            CELL_SLACK as int) <= old(m).pos@[j2] <= CELL_SLACK as int,
            m.opp@ == old(m).opp@,
            forall|j2: int| 0 <= j2 < j ==> #[trigger] m.pos@[j2] == old(m).pos@[j2]
                + other.pos@[j2],
            forall|j2: int| j <= j2 < plen ==> #[trigger] m.pos@[j2] == old(m).pos@[j2],
        decreases plen - j,
    {
        let v = m.pos[j] + other.pos[j];
        m.pos[j] = v;
        j = j + 1;
    }
    let olen = m.opp.len();
    let mut j2: usize = 0;
    while j2 < olen
        invariant
            m.wf(),
            old(m).wf(),
            other.wf(),
            m.n == old(m).n,
            other.n == old(m).n,
            olen == m.opp@.len(),
            j2 <= olen,
            forall|j3: int| 0 <= j3 < old(m).opp@.len() ==> -(CELL_SLACK as int)
                <= #[trigger] old(m).opp@[j3] + other.opp@[j3] <= CELL_SLACK as int && -(
            CELL_SLACK as int) <= old(m).opp@[j3] <= CELL_SLACK as int,
            forall|j3: int| 0 <= j3 < old(m).pos@.len() ==> #[trigger] m.pos@[j3] == old(
                m,
            ).pos@[j3] + other.pos@[j3],
            m.pos@.len() == old(m).pos@.len(),
            forall|j3: int| 0 <= j3 < j2 ==> #[trigger] m.opp@[j3] == old(m).opp@[j3]
                + other.opp@[j3],
            forall|j3: int| j2 <= j3 < olen ==> #[trigger] m.opp@[j3] == old(m).opp@[j3],
        decreases olen - j2,
    {
        let v = m.opp[j2] + other.opp[j2];
        m.opp[j2] = v;
        j2 = j2 + 1;
    }
}

/// Combine per-round measures into a tournament measure: the elementwise
/// sum. With per-round measures in hand, replacing one round's measure only
/// needs a subtraction and an addition.
pub fn combine(measures: &Vec<Measure>, n: usize) -> (r: Measure)
    requires
        n <= PLAYER_LIMIT,
        measures@.len() <= 1000,
        forall|i: int| 0 <= i < measures@.len() ==> (#[trigger] measures@[i]).wf()
            && measures@[i].n == n,
        forall|i: int, j: int| 0 <= i < measures@.len() && 0 <= j < measures@[i].pos@.len()
            ==> -1000000000 <= #[trigger] measures@[i].pos@[j] <= 1000000000,
        forall|i: int, j: int| 0 <= i < measures@.len() && 0 <= j < measures@[i].opp@.len()
            ==> -1000000000 <= #[trigger] measures@[i].opp@[j] <= 1000000000,
    ensures
        r.wf(),
        r.n == n,
        forall|j: int| 0 <= j < r.pos@.len() ==> #[trigger] r.pos@[j] == pos_sum_at(measures@, j),
        forall|j: int| 0 <= j < r.opp@.len() ==> #[trigger] r.opp@[j] == opp_sum_at(measures@, j),
{
    let mut m = Measure::new(n);
    proof {
        lemma_sum_prefix_zero(measures@, 0);
        assert(measures@.take(0) =~= Seq::<Measure>::empty());
    }
    let mut i: usize = 0;
    while i < measures.len()
        invariant
            n <= PLAYER_LIMIT,
            i <= measures@.len(),
            measures@.len() <= 1000,
            forall|i2: int| 0 <= i2 < measures@.len() ==> (#[trigger] measures@[i2]).wf()
                && measures@[i2].n == n,
            forall|i2: int, j: int| 0 <= i2 < measures@.len() && 0 <= j
                < measures@[i2].pos@.len() ==> -1000000000 <= #[trigger] measures@[i2].pos@[j]
                <= 1000000000,
            forall|i2: int, j: int| 0 <= i2 < measures@.len() && 0 <= j
                < measures@[i2].opp@.len() ==> -1000000000 <= #[trigger] measures@[i2].opp@[j]
                <= 1000000000,
            m.wf(),
            m.n == n,
            forall|j: int| 0 <= j < m.pos@.len() ==> #[trigger] m.pos@[j] == pos_sum_at(
                measures@.take(i as int),
                j,
            ) && -(1000000000 * i as int) <= m.pos@[j] <= 1000000000 * i as int,
            forall|j: int| 0 <= j < m.opp@.len() ==> #[trigger] m.opp@[j] == opp_sum_at(
                measures@.take(i as int),
                j,
            ) && -(1000000000 * i as int) <= m.opp@[j] <= 1000000000 * i as int,
        decreases measures@.len() - i,
    {
        add_measure(&mut m, &measures[i]);
        proof {
            assert(measures@.take(i + 1).drop_last() =~= measures@.take(i as int));
            assert(measures@.take(i + 1).last() == measures@[i as int]);
        }
        i = i + 1;
    }
    proof {
        assert(measures@.take(measures@.len() as int) =~= measures@);
    }
    m
}

/// The empty prefix sums to zero.
proof fn lemma_sum_prefix_zero(ms: Seq<Measure>, j: int)
    ensures
        pos_sum_at(ms.take(0), j) == 0,
        opp_sum_at(ms.take(0), j) == 0,
{
    assert(ms.take(0) =~= Seq::<Measure>::empty());
}


/// The round `tabs` with the tables at `changed[j..]` put back to their
/// prior contents.
pub open spec fn restore_from(
    tabs: Seq<Seq<i32>>,
    changed: Seq<usize>,
    prior: Seq<Seq<i32>>,
    j: int,
) -> Seq<Seq<i32>>
    decreases changed.len() - j,
{
    if j < 0 || j >= changed.len() {
        tabs
    } else {
        restore_from(tabs, changed, prior, j + 1).update(changed[j] as int, prior[j])
    }
}

/// Restoring later tables does not touch the others.
pub proof fn lemma_restore_from(tabs: Seq<Seq<i32>>, changed: Seq<usize>, prior: Seq<Seq<i32>>, j: int)
    requires
        0 <= j <= changed.len(),
        forall|i: int| 0 <= i < changed.len() ==> #[trigger] changed[i] < tabs.len(),
    ensures
        restore_from(tabs, changed, prior, j).len() == tabs.len(),
        forall|t: int|
            0 <= t < tabs.len() && (forall|i: int| j <= i < changed.len()
                ==> #[trigger] changed[i] as int != t) ==> #[trigger] restore_from(
                tabs,
                changed,
                prior,
                j,
            )[t] == tabs[t],
    decreases changed.len() - j,
{
    if j < changed.len() {
        lemma_restore_from(tabs, changed, prior, j + 1);
    }
}

/// Replacing table `j` of a round changes each position cell by the new
/// table's contribution minus the old one's.
proof fn lemma_pos_upto_update(
    ir: Seq<Seq<int>>,
    j: int,
    tb: Seq<int>,
    vps: Seq<i64>,
    transfers: Seq<i64>,
    p: int,
    k: int,
    t: int,
)
    requires
        0 <= j < ir.len(),
        0 <= t <= ir.len(),
    ensures
        pos_cell_upto(ir.update(j, tb), vps, transfers, p, k, t) == pos_cell_upto(
            ir,
            vps,
            transfers,
            p,
            k,
            t,
        ) + if j < t {
            pos_contrib(tb, vps, transfers, p, k) - pos_contrib(ir[j], vps, transfers, p, k)
        } else {
            0
        },
    decreases t,
{
    if t > 0 {
        lemma_pos_upto_update(ir, j, tb, vps, transfers, p, k, t - 1);
        if t - 1 == j {
            assert(ir.update(j, tb)[t - 1] == tb);
        } else {
            assert(ir.update(j, tb)[t - 1] == ir[t - 1]);
        }
    }
}

/// Replacing table `j` of a round changes each same-table opponent cell by
/// the new table's contribution minus the old one's.
proof fn lemma_opp_upto_update(ir: Seq<Seq<int>>, j: int, tb: Seq<int>, p: int, q: int, k: int, t: int)
    requires
        0 <= j < ir.len(),
        0 <= t <= ir.len(),
    ensures
        opp_tab_upto(ir.update(j, tb), p, q, k, t) == opp_tab_upto(ir, p, q, k, t) + if j < t {
            opp_contrib(tb, p, q, k) - opp_contrib(ir[j], p, q, k)
        } else {
            0
        },
    decreases t,
{
    if t > 0 {
        lemma_opp_upto_update(ir, j, tb, p, q, k, t - 1);
        if t - 1 == j {
            assert(ir.update(j, tb)[t - 1] == tb);
        } else {
            assert(ir.update(j, tb)[t - 1] == ir[t - 1]);
        }
    }
}

/// Recompute the measure of a round after some of its tables changed:
/// subtract the prior contents' contribution, add the new contents', and
/// rebuild the cross-table marks. The result is exactly the measure of the
/// updated round, cell for cell, as if computed afresh.
pub fn recompute_incremental(
    previous: &Measure,
    round: &crate::round::Round,
    changed: &Vec<usize>,
    prior: &Vec<Vec<i32>>,
    pm: &crate::player_index::PlayerIndex,
    vps: &Vec<i64>,
    transfers: &Vec<i64>,
) -> (r: Result<Measure, crate::round::RoundError>)
    requires
        pm.wf(),
        pm@.len() <= PLAYER_LIMIT,
        vps@.len() == pm@.len(),
        transfers@.len() == pm@.len(),
        forall|p: int| 0 <= p < vps@.len() ==> 0 <= #[trigger] vps@[p] <= VPS_LIMIT,
        forall|p: int| 0 <= p < transfers@.len() ==> 0 <= #[trigger] transfers@[p] <= VPS_LIMIT,
        round@.len() <= PLAYER_LIMIT,
        forall|t: int| 0 <= t < round@.len() ==> (#[trigger] round@[t].len() == 4
            || round@[t].len() == 5),
        changed@.len() == prior@.len(),
        forall|i: int| 0 <= i < changed@.len() ==> #[trigger] changed@[i] < round@.len(),
        forall|i: int, i2: int| 0 <= i < i2 < changed@.len() ==> changed@[i] != changed@[i2],
        forall|i: int| 0 <= i < prior@.len() ==> (#[trigger] prior@[i]@.len() == 4
            || prior@[i]@.len() == 5),
        forall|i: int, s: int| 0 <= i < prior@.len() && 0 <= s < prior@[i]@.len()
            ==> pm@.contains(#[trigger] prior@[i]@[s]),
        previous.n == pm@.len(),
        is_measure_of(
            *previous,
            ir_of(restore_from(round@, changed@, tables_view(prior@), 0), *pm),
            vps@,
            transfers@,
        ),
    ensures
        match r {
            Ok(m) => m.n == pm@.len() && is_measure_of(m, ir_of(round@, *pm), vps@, transfers@)
                && cells_bounded(m, 1000000000),
            Err(crate::round::RoundError::UnknownPlayer(x)) => !pm@.contains(x) && (exists|t: int|
                0 <= t < round@.len() && #[trigger] round@[t].contains(x)),
            Err(_) => false,
        },
{
    let n = pm.len();
    let mut m = previous.duplicate();
    let ghost pview = tables_view(prior@);
    let ghost oldt = restore_from(round@, changed@, pview, 0);
    let ghost old_ir = ir_of(oldt, *pm);
    proof {
        lemma_restore_from(round@, changed@, pview, 0);
        assert forall|t: int| 0 <= t < old_ir.len() implies #[trigger] old_ir[t].len() <= 5 by {
            lemma_restored_size_one(round@, changed@, pview, 0, t);
            assert(old_ir[t].len() == oldt[t].len());
        }
        lemma_round_ranges(old_ir, vps@, transfers@, old_ir.len() as int);
        assert(cells_bounded(m, CELL_SLACK as int) && (forall|p: int| 0 <= p < m.n ==> -100000
            <= #[trigger] pcell(m.pos@, p, 0) <= 100000)) by {
            lemma_bounds_from_measure(*previous, old_ir, vps@, transfers@);
        }
    }
    apply_roundcross(&mut m, false);
    proof {
        assert forall|p: int, q: int, k: int| 0 <= p < n && 0 <= q < n && 0 <= k
            < 8 implies #[trigger] ocell(m.opp@, n as int, p, q, k) == opp_tab_upto(
            old_ir,
            p,
            q,
            k,
            old_ir.len() as int,
        ) by {
            if k == 5 && p != q {
                assert(ocell(previous.opp@, n as int, p, q, 5) == opp_tab(old_ir, p, q, 5)
                    + pos_cell(old_ir, vps@, transfers@, p, 0) * pos_cell(
                    old_ir,
                    vps@,
                    transfers@,
                    q,
                    0,
                ) - opp_tab(old_ir, p, q, 0));
            }
        }
    }
    let mut j: usize = 0;
    while j < changed.len()
        invariant
            pm.wf(),
            pm@.len() <= PLAYER_LIMIT,
            n == pm@.len(),
            vps@.len() == n,
            transfers@.len() == n,
            forall|p: int| 0 <= p < vps@.len() ==> 0 <= #[trigger] vps@[p] <= VPS_LIMIT,
            forall|p: int| 0 <= p < transfers@.len() ==> 0 <= #[trigger] transfers@[p]
                <= VPS_LIMIT,
            round@.len() <= PLAYER_LIMIT,
            forall|t: int| 0 <= t < round@.len() ==> (#[trigger] round@[t].len() == 4
                || round@[t].len() == 5),
            changed@.len() == prior@.len(),
            forall|i: int| 0 <= i < changed@.len() ==> #[trigger] changed@[i] < round@.len(),
            forall|i: int, i2: int| 0 <= i < i2 < changed@.len() ==> changed@[i] != changed@[i2],
            forall|i: int| 0 <= i < prior@.len() ==> (#[trigger] prior@[i]@.len() == 4
                || prior@[i]@.len() == 5),
            forall|i: int, s: int| 0 <= i < prior@.len() && 0 <= s < prior@[i]@.len()
                ==> pm@.contains(#[trigger] prior@[i]@[s]),
            pview == tables_view(prior@),
            j <= changed@.len(),
            m.wf(),
            m.n == n,
            forall|p: int, k: int| 0 <= p < n && 0 <= k < 8 ==> #[trigger] pcell(m.pos@, p, k)
                == pos_cell(ir_of(restore_from(round@, changed@, pview, j as int), *pm), vps@, transfers@, p, k),
            forall|p: int, q: int, k: int| 0 <= p < n && 0 <= q < n && 0 <= k < 8
                ==> #[trigger] ocell(m.opp@, n as int, p, q, k) == opp_tab(
                ir_of(restore_from(round@, changed@, pview, j as int), *pm),
                p,
                q,
                k,
            ),
        decreases changed@.len() - j,
    {
        let ti = changed[j];
        let ghost hj = restore_from(round@, changed@, pview, j as int);
        let ghost hj1 = restore_from(round@, changed@, pview, j + 1);
        let ghost irj = ir_of(hj, *pm);
        let ghost irj1 = ir_of(hj1, *pm);
        let pv = match index_table(&prior[j], pm) {
            Ok(pv) => pv,
            Err(_) => {
                proof {
                    assert(false);
                }
                return Err(crate::round::RoundError::IndexError());
            },
        };
        let nv = match index_table(&round.0[ti], pm) {
            Ok(nv) => nv,
            Err(e) => {
                proof {
                    if let crate::round::RoundError::UnknownPlayer(x) = e {
                        assert(round@[ti as int].contains(x));
                    }
                }
                return Err(e);
            },
        };
        proof {
            lemma_restore_from(round@, changed@, pview, j as int);
            lemma_restore_from(round@, changed@, pview, j + 1);
            assert(hj == hj1.update(ti as int, pview[j as int]));
            assert forall|i: int| j + 1 <= i < changed@.len() implies #[trigger] changed@[i] as int
                != ti as int by {}
            assert(hj1[ti as int] == round@[ti as int]);
            assert forall|t: int| 0 <= t < irj.len() implies #[trigger] irj[t].len() <= 5 by {
                lemma_restored_size_one(round@, changed@, pview, j as int, t);
                assert(irj[t].len() == hj[t].len());
            }
            assert forall|t: int| 0 <= t < irj1.len() implies #[trigger] irj1[t].len() <= 5 by {
                lemma_restored_size_one(round@, changed@, pview, j + 1, t);
                assert(irj1[t].len() == hj1[t].len());
            }
            lemma_round_ranges(irj, vps@, transfers@, irj.len() as int);
            assert(to_ir(pv@) =~= irj[ti as int]);
            assert(to_ir(nv@) =~= irj1[ti as int]);
            assert(irj.update(ti as int, irj1[ti as int]) =~= irj1);
            assert(cells_bounded(m, CELL_SLACK as int)) by {
                assert forall|p: int, k: int| 0 <= p < m.n && 0 <= k < 8 implies -(
                CELL_SLACK as int) <= #[trigger] pcell(m.pos@, p, k) <= CELL_SLACK as int by {
                    assert(pcell(m.pos@, p, k) == pos_cell(irj, vps@, transfers@, p, k));
                }
                assert forall|p: int, q: int, k: int| 0 <= p < m.n && 0 <= q < m.n && 0 <= k
                    < 8 implies -(CELL_SLACK as int) <= #[trigger] ocell(
                    m.opp@,
                    m.n as int,
                    p,
                    q,
                    k,
                ) <= CELL_SLACK as int by {
                    assert(ocell(m.opp@, n as int, p, q, k) == opp_tab(irj, p, q, k));
                }
            }
        }
        let ghost m_before = m;
        apply_table(&mut m, &pv, vps, transfers, false);
        proof {
            lemma_pos_upto_range(irj[ti as int], vps@, transfers@, irj[ti as int].len() as int);
            lemma_opp_contrib_range(irj[ti as int], irj[ti as int].len() as int);
            assert(irj[ti as int].len() * irj[ti as int].len() <= 25) by (nonlinear_arith)
                requires
                    0 <= irj[ti as int].len() <= 5,
            ;
            assert(irj[ti as int].len() as int * (VPS_LIMIT as int) <= 50000) by (nonlinear_arith)
                requires
                    0 <= irj[ti as int].len() <= 5,
            ;
            assert(cells_bounded(m, CELL_SLACK as int)) by {
                assert forall|p: int, k: int| 0 <= p < m.n && 0 <= k < 8 implies -(
                CELL_SLACK as int) <= #[trigger] pcell(m.pos@, p, k) <= CELL_SLACK as int by {
                    assert(pcell(m.pos@, p, k) == pcell(m_before.pos@, p, k) + (-1int)
                        * pos_contrib(to_ir(pv@), vps@, transfers@, p, k));
                    lemma_sgn(-1, pos_contrib(to_ir(pv@), vps@, transfers@, p, k), 0);
                }
                assert forall|p: int, q: int, k: int| 0 <= p < m.n && 0 <= q < m.n && 0 <= k
                    < 8 implies -(CELL_SLACK as int) <= #[trigger] ocell(
                    m.opp@,
                    m.n as int,
                    p,
                    q,
                    k,
                ) <= CELL_SLACK as int by {
                    assert(ocell(m.opp@, n as int, p, q, k) == ocell(
                        m_before.opp@,
                        n as int,
                        p,
                        q,
                        k,
                    ) + (-1int) * opp_contrib(to_ir(pv@), p, q, k));
                    lemma_sgn(-1, opp_contrib(to_ir(pv@), p, q, k), 0);
                }
            }
        }
        apply_table(&mut m, &nv, vps, transfers, true);
        proof {
            assert forall|p: int, k: int| 0 <= p < n && 0 <= k < 8 implies #[trigger] pcell(
                m.pos@,
                p,
                k,
            ) == pos_cell(irj1, vps@, transfers@, p, k) by {
                lemma_pos_upto_update(
                    irj,
                    ti as int,
                    irj1[ti as int],
                    vps@,
                    transfers@,
                    p,
                    k,
                    irj.len() as int,
                );
                lemma_sgn(-1, pos_contrib(to_ir(pv@), vps@, transfers@, p, k), 0);
                assert(pos_cell_upto(irj.update(ti as int, irj1[ti as int]), vps@, transfers@, p, k, irj.len() as int)
                    == pos_cell(irj1, vps@, transfers@, p, k));
            }
            assert forall|p: int, q: int, k: int| 0 <= p < n && 0 <= q < n && 0 <= k
                < 8 implies #[trigger] ocell(m.opp@, n as int, p, q, k) == opp_tab(
                irj1,
                p,
                q,
                k,
            ) by {
                lemma_opp_upto_update(irj, ti as int, irj1[ti as int], p, q, k, irj.len() as int);
                lemma_sgn(-1, opp_contrib(to_ir(pv@), p, q, k), 0);
                assert(opp_tab_upto(irj.update(ti as int, irj1[ti as int]), p, q, k, irj.len() as int)
                    == opp_tab(irj1, p, q, k));
            }
        }
        j = j + 1;
    }
    let ghost new_ir = ir_of(round@, *pm);
    proof {
        assert(restore_from(round@, changed@, pview, changed@.len() as int) == round@);
        assert(forall|t: int| 0 <= t < new_ir.len() ==> #[trigger] new_ir[t].len() <= 5);
        lemma_round_ranges(new_ir, vps@, transfers@, new_ir.len() as int);
        assert(forall|p: int| 0 <= p < m.n ==> -100000 <= #[trigger] pcell(m.pos@, p, 0)
            <= 100000);
        assert(cells_bounded(m, CELL_SLACK as int)) by {
            assert forall|p: int, k: int| 0 <= p < m.n && 0 <= k < 8 implies -(CELL_SLACK as int)
                <= #[trigger] pcell(m.pos@, p, k) <= CELL_SLACK as int by {
                assert(pcell(m.pos@, p, k) == pos_cell(new_ir, vps@, transfers@, p, k));
            }
            assert forall|p: int, q: int, k: int| 0 <= p < m.n && 0 <= q < m.n && 0 <= k
                < 8 implies -(CELL_SLACK as int) <= #[trigger] ocell(m.opp@, m.n as int, p, q, k)
                <= CELL_SLACK as int by {
                assert(ocell(m.opp@, n as int, p, q, k) == opp_tab(new_ir, p, q, k));
            }
        }
    }
    apply_roundcross(&mut m, true);
    proof {
        assert forall|p: int, q: int, k: int| 0 <= p < n && 0 <= q < n && 0 <= k
            < 8 implies #[trigger] ocell(m.opp@, n as int, p, q, k) == opp_cell(
            new_ir,
            vps@,
            transfers@,
            p,
            q,
            k,
        ) by {}
        lemma_bounds_from_measure(m, new_ir, vps@, transfers@);
    }
    Ok(m)
}

proof fn lemma_restored_size_one(
    tabs: Seq<Seq<i32>>,
    changed: Seq<usize>,
    prior: Seq<Seq<i32>>,
    j: int,
    t: int,
)
    requires
        forall|t2: int| 0 <= t2 < tabs.len() ==> (#[trigger] tabs[t2].len() == 4
            || tabs[t2].len() == 5),
        forall|i: int| 0 <= i < prior.len() ==> (#[trigger] prior[i].len() == 4 || prior[i].len()
            == 5),
        changed.len() == prior.len(),
        forall|i: int| 0 <= i < changed.len() ==> #[trigger] changed[i] < tabs.len(),
        0 <= j <= changed.len(),
        0 <= t < tabs.len(),
    ensures
        restore_from(tabs, changed, prior, j)[t].len() == 4 || restore_from(
            tabs,
            changed,
            prior,
            j,
        )[t].len() == 5,
    decreases changed.len() - j,
{
    if j < changed.len() {
        lemma_restored_size_one(tabs, changed, prior, j + 1, t);
        lemma_restore_from(tabs, changed, prior, j + 1);
    }
}

/// The cells of the measure of a well-sized round are small, and the played
/// column is tiny.
pub proof fn lemma_bounds_from_measure(m: Measure, ir: Seq<Seq<int>>, vps: Seq<i64>, transfers: Seq<i64>)
    requires
        is_measure_of(m, ir, vps, transfers),
        ir.len() <= PLAYER_LIMIT,
        forall|t: int| 0 <= t < ir.len() ==> #[trigger] ir[t].len() <= 5,
        forall|p: int| 0 <= p < vps.len() ==> 0 <= #[trigger] vps[p] <= VPS_LIMIT,
        forall|p: int| 0 <= p < transfers.len() ==> 0 <= #[trigger] transfers[p] <= VPS_LIMIT,
    ensures
        cells_bounded(m, 1000000000),
        cells_bounded(m, CELL_SLACK as int),
        forall|p: int| 0 <= p < m.n ==> -100000 <= #[trigger] pcell(m.pos@, p, 0) <= 100000,
{
    lemma_round_ranges(ir, vps, transfers, ir.len() as int);
    assert forall|p: int, q: int, k: int| 0 <= p < m.n && 0 <= q < m.n && 0 <= k
        < 8 implies -1000000000 <= #[trigger] ocell(m.opp@, m.n as int, p, q, k)
        <= 1000000000 by {
        if k == 5 && p != q {
            assert(-25000000 <= pos_cell(ir, vps, transfers, p, 0) * pos_cell(
                ir,
                vps,
                transfers,
                q,
                0,
            ) <= 25000000) by (nonlinear_arith)
                requires
                    0 <= pos_cell(ir, vps, transfers, p, 0) <= 5000,
                    0 <= pos_cell(ir, vps, transfers, q, 0) <= 5000,
            ;
        }
    }
}


/// Measure one round under the given player index: the full computation.
/// For re-measuring a round after a few tables changed, see
/// `recompute_incremental`.
pub fn measure(
    pm: &crate::player_index::PlayerIndex,
    round: &crate::round::Round,
    vps: &Vec<i64>,
    transfers: &Vec<i64>,
) -> (r: Result<Measure, crate::round::RoundError>)
    requires
        pm.wf(),
        pm@.len() <= PLAYER_LIMIT,
        vps@.len() == pm@.len(),
        transfers@.len() == pm@.len(),
        forall|p: int| 0 <= p < vps@.len() ==> 0 <= #[trigger] vps@[p] <= VPS_LIMIT,
        forall|p: int| 0 <= p < transfers@.len() ==> 0 <= #[trigger] transfers@[p] <= VPS_LIMIT,
        round@.len() <= PLAYER_LIMIT,
        forall|t: int| 0 <= t < round@.len() ==> (#[trigger] round@[t].len() == 4
            || round@[t].len() == 5),
    ensures
        match r {
            Ok(m) => m.n == pm@.len() && is_measure_of(m, ir_of(round@, *pm), vps@, transfers@)
                && cells_bounded(m, 1000000000),
            Err(crate::round::RoundError::UnknownPlayer(x)) => !pm@.contains(x) && (exists|t: int|
                0 <= t < round@.len() && #[trigger] round@[t].contains(x)),
            Err(_) => false,
        },
{
    measure_round(round, pm, vps, transfers)
}


/// A round's measure is unique: any two measures of the same indexed round
/// with the same inputs agree cell for cell. In particular the result of
/// `recompute_incremental` is bit for bit the measure that `measure_round`
/// computes afresh on the updated round.
pub proof fn lemma_measure_unique(
    m1: Measure,
    m2: Measure,
    ir: Seq<Seq<int>>,
    vps: Seq<i64>,
    transfers: Seq<i64>,
)
    requires
        is_measure_of(m1, ir, vps, transfers),
        is_measure_of(m2, ir, vps, transfers),
    ensures
        m1.n == m2.n,
        m1.pos@ == m2.pos@,
        m1.opp@ == m2.opp@,
{
    let n = m1.n as int;
    assert forall|j: int| 0 <= j < m1.pos@.len() implies m1.pos@[j] == m2.pos@[j] by {
        vstd::arithmetic::div_mod::lemma_fundamental_div_mod(j, 8);
        vstd::arithmetic::div_mod::lemma_mod_division_less_than_divisor(j, 8);
        let p = j / 8;
        let k = j % 8;
        assert(p < n);
        assert(j == pos_idx(p, k));
        assert(pcell(m1.pos@, p, k) == pcell(m2.pos@, p, k));
    }
    assert(m1.pos@ =~= m2.pos@);
    assert forall|j: int| 0 <= j < m1.opp@.len() implies m1.opp@[j] == m2.opp@[j] by {
        vstd::arithmetic::div_mod::lemma_fundamental_div_mod(j, 8);
        vstd::arithmetic::div_mod::lemma_mod_division_less_than_divisor(j, 8);
        let r = j / 8;
        let k = j % 8;
        assert(n * n * 8 > 0);
        assert(n > 0) by (nonlinear_arith)
            requires
                n * n * 8 > 0,
                n >= 0,
        ;
        vstd::arithmetic::div_mod::lemma_fundamental_div_mod(r, n);
        vstd::arithmetic::div_mod::lemma_mod_division_less_than_divisor(r, n);
        let p = r / n;
        let q = r % n;
        assert(r < n * n);
        assert(p < n) by (nonlinear_arith)
            requires
                r == n * p + q,
                0 <= q < n,
                r < n * n,
                n > 0,
        ;
        assert(j == opp_idx(n, p, q, k));
        assert(ocell(m1.opp@, n, p, q, k) == ocell(m2.opp@, n, p, q, k));
    }
    assert(m1.opp@ =~= m2.opp@);
}

} // verus!
