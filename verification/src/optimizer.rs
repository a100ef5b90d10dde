//! The seating optimizer: a local search over one round's seating. Moves
//! swap two players between two tables, which keeps every table's size and
//! the round's player multiset. A move is accepted only when it strictly
//! improves the score, evaluated through incremental re-measurement of the
//! two affected tables, so accepted scores only ever go down. The search
//! ends `Converged` when a full pass evaluates every cross-table swap and
//! accepts none — no single swap scores better than the result — or
//! `TimedOut` when part of a pass went unevaluated, because the move
//! budget ran out or a candidate fell outside the rule engine's cell
//! range; both are valid outcomes, not failures.

use crate::measure::ir_of;
use crate::measure::is_measure_of;
use crate::measure::measure_round;
use crate::measure::recompute_incremental;
use crate::measure::restore_from;
use crate::measure::tables_view;
use crate::measure::Measure;
use crate::measure::PLAYER_LIMIT;
use crate::measure::VPS_LIMIT;
use crate::player_index::PlayerIndex;
use crate::round::all_players;
use crate::round::seats_before;
use crate::round::Round;
use crate::round::RoundError;
use crate::score::score;
use crate::score::score_lt;
use crate::score::score_lt_spec;
use crate::score::Score;
use crate::score::ROUND_LIMIT;
use crate::score::SCORE_PLAYER_LIMIT;
use vstd::prelude::*;

verus! {

/// How a search run ended: a full pass evaluated every cross-table swap
/// and accepted none, or part of a pass went unevaluated first.
#[derive(Debug, Clone, Copy, PartialEq, Eq, Structural)]
pub enum SearchStatus {
    Converged,
    TimedOut,
}

/// The result of a search run: the best seating found, the per-round
/// measures it was scored with (the prior rounds' measures followed by the
/// best round's own), its score, the starting seating's score, and how the
/// run ended.
pub struct Outcome {
    pub round: Round,
    pub measures: Vec<Measure>,
    pub score: Score,
    pub initial_score: Score,
    pub status: SearchStatus,
}

/// The round `tabs` with the players in seat `s1` of table `t1` and seat
/// `s2` of table `t2` exchanged.
pub open spec fn swapped_round(tabs: Seq<Seq<i32>>, t1: int, s1: int, t2: int, s2: int) -> Seq<
    Seq<i32>,
> {
    tabs.update(t1, tabs[t1].update(s1, tabs[t2][s2])).update(
        t2,
        tabs[t2].update(s2, tabs[t1][s1]),
    )
}

/// Swapping the named seats of `tabs` gives a round whose measure, scored
/// after the context measures `base`, is no better than `sc`: every
/// measure of the swapped round and every score of it behind `base` fails
/// to beat `sc`.
pub open spec fn swap_not_better(
    tabs: Seq<Seq<i32>>,
    t1: int,
    s1: int,
    t2: int,
    s2: int,
    base: Seq<Measure>,
    n: int,
    sc: Score,
    pm: PlayerIndex,
    vps: Seq<i64>,
    transfers: Seq<i64>,
) -> bool {
    forall|m2: Measure, c2: Score|
        (#[trigger] is_measure_of(m2, ir_of(swapped_round(tabs, t1, s1, t2, s2), pm), vps, transfers))
            && (#[trigger] c2.is_score_of(base.push(m2), n)) ==> !score_lt_spec(c2, sc)
}

/// No single swap of two players between two different tables of `tabs`
/// yields a round that scores strictly better than `sc`.
pub open spec fn no_better_swap(
    tabs: Seq<Seq<i32>>,
    base: Seq<Measure>,
    n: int,
    sc: Score,
    pm: PlayerIndex,
    vps: Seq<i64>,
    transfers: Seq<i64>,
) -> bool {
    forall|t1: int, s1: int, t2: int, s2: int|
        0 <= t1 < tabs.len() && 0 <= s1 < tabs[t1].len() && 0 <= t2 < tabs.len() && 0 <= s2
            < tabs[t2].len() && t1 != t2 ==> #[trigger] swap_not_better(
            tabs,
            t1,
            s1,
            t2,
            s2,
            base,
            n,
            sc,
            pm,
            vps,
            transfers,
        )
}

/// The pair of round-wide seat numbers of the two seats lies before the
/// scan frontier `(i, j)`.
pub open spec fn scanned(
    tabs: Seq<Seq<i32>>,
    t1: int,
    s1: int,
    t2: int,
    s2: int,
    i: int,
    j: int,
) -> bool {
    let g1 = seats_before(tabs, t1) + s1;
    let g2 = seats_before(tabs, t2) + s2;
    (g1 < g2 && (g1 < i || (g1 == i && g2 < j))) || (g2 < g1 && (g2 < i || (g2 == i && g1 < j)))
}

/// Every cross-table seat pair before the frontier `(i, j)` has been found
/// not to beat `sc`.
pub open spec fn pairs_done(
    tabs: Seq<Seq<i32>>,
    base: Seq<Measure>,
    n: int,
    sc: Score,
    pm: PlayerIndex,
    vps: Seq<i64>,
    transfers: Seq<i64>,
    i: int,
    j: int,
) -> bool {
    forall|t1: int, s1: int, t2: int, s2: int|
        0 <= t1 < tabs.len() && 0 <= s1 < tabs[t1].len() && 0 <= t2 < tabs.len() && 0 <= s2
            < tabs[t2].len() && t1 != t2 && scanned(tabs, t1, s1, t2, s2, i, j)
            ==> #[trigger] swap_not_better(tabs, t1, s1, t2, s2, base, n, sc, pm, vps, transfers)
}

/// Copy a vector of i128 values.
fn copy_vals(v: &Vec<i128>) -> (r: Vec<i128>)
    ensures
        r@ == v@,
{
    let mut r: Vec<i128> = Vec::new();
    let mut i: usize = 0;
    while i < v.len()
        invariant
            i <= v@.len(),
            r@ == v@.take(i as int),
        decreases v@.len() - i,
    {
        r.push(v[i]);
        assert(v@.take(i + 1 as int) == v@.take(i as int).push(v@[i as int]));
        i = i + 1;
    }
    assert(r@ =~= v@);
    r
}

/// Copy a score.
fn dup_score(s: &Score) -> (r: Score)
    ensures
        r.raw@ == s.raw@,
        r.weighted@ == s.weighted@,
{
    Score { raw: copy_vals(&s.raw), weighted: copy_vals(&s.weighted) }
}

/// Score the context measures in `base` together with `m`: push, score,
/// pop, so that `base` keeps the same context values throughout a search.
fn eval_with(base: &mut Vec<Measure>, m: Measure, n: usize) -> (r: (
    Result<Score, RoundError>,
    Measure,
))
    requires
        n <= SCORE_PLAYER_LIMIT,
        old(base)@.len() + 1 <= ROUND_LIMIT,
        forall|i: int| 0 <= i < old(base)@.len() ==> (#[trigger] old(base)@[i]).wf()
            && old(base)@[i].n == n,
        m.wf(),
        m.n == n,
    ensures
        final(base)@ == old(base)@,
        r.1 == m,
        match r.0 {
            Ok(s) => s.is_score_of(old(base)@.push(m), n as int),
            Err(RoundError::IndexError()) => (exists|i: int|
                0 <= i < old(base)@.len() && !crate::score::small_cells(
                    #[trigger] old(base)@[i],
                )) || !crate::score::small_cells(m),
            Err(_) => false,
        },
{
    base.push(m);
    let sr = score(base, n);
    let popped = base.pop();
    match popped {
        Some(m2) => {
            proof {
                assert(base@ =~= old(base)@);
                if let Err(e) = &sr {
                    if let RoundError::IndexError() = e {
                        let bad = choose|i2: int|
                            0 <= i2 < old(base)@.push(m).len() && !crate::score::small_cells(
                                #[trigger] old(base)@.push(m)[i2],
                            );
                        if bad < old(base)@.len() {
                            assert(!crate::score::small_cells(old(base)@[bad]));
                        } else {
                            assert(old(base)@.push(m)[bad] == m);
                        }
                    } else {
                        assert(false);
                    }
                }
            }
            (sr, m2)
        },
        None => {
            proof {
                assert(false);
            }
            (Err(RoundError::IndexError()), Measure::new(0))
        },
    }
}

/// Every player seated in `tabs` is seated somewhere in particular.
proof fn lemma_contains_to_seat(tabs: Seq<Seq<i32>>, p: i32)
    requires
        all_players(tabs).contains(p),
    ensures
        exists|t: int, s: int|
            0 <= t < tabs.len() && 0 <= s < tabs[t].len() && #[trigger] tabs[t][s] == p,
    decreases tabs.len(),
{
    let fl = all_players(tabs);
    let k = choose|k: int| 0 <= k < fl.len() && fl[k] == p;
    assert(tabs.len() > 0);
    assert(fl == tabs[0] + all_players(tabs.drop_first()));
    if k < tabs[0].len() {
        assert(tabs[0][k] == p);
    } else {
        let rest = all_players(tabs.drop_first());
        assert(rest[k - tabs[0].len()] == p);
        assert(rest.contains(p));
        lemma_contains_to_seat(tabs.drop_first(), p);
        let (t2, s2): (int, int) = choose|t2: int, s2: int|
            0 <= t2 < tabs.drop_first().len() && 0 <= s2 < tabs.drop_first()[t2].len()
                && #[trigger] tabs.drop_first()[t2][s2] == p;
        assert(tabs[t2 + 1][s2] == p);
    }
}

/// If two rounds seat the same players and every player of the first is
/// registered, so is every player of the second.
proof fn lemma_players_registered(cur: Seq<Seq<i32>>, orig: Seq<Seq<i32>>, reg: Seq<i32>)
    requires
        all_players(cur).to_multiset() == all_players(orig).to_multiset(),
        forall|t: int, s: int| 0 <= t < orig.len() && 0 <= s < orig[t].len() ==> reg.contains(
            #[trigger] orig[t][s],
        ),
    ensures
        forall|t: int, s: int| 0 <= t < cur.len() && 0 <= s < cur[t].len() ==> reg.contains(
            #[trigger] cur[t][s],
        ),
{
    broadcast use vstd::seq_lib::group_to_multiset_ensures;

    assert forall|t: int, s: int| 0 <= t < cur.len() && 0 <= s < cur[t].len() implies reg.contains(
        #[trigger] cur[t][s],
    ) by {
        let p = cur[t][s];
        crate::round::lemma_flat_seat(cur, t, s);
        assert(all_players(cur).contains(p));
        assert(all_players(cur).to_multiset().count(p) > 0);
        assert(all_players(orig).to_multiset().count(p) > 0);
        assert(all_players(orig).contains(p));
        lemma_contains_to_seat(orig, p);
        let (t2, s2): (int, int) = choose|t2: int, s2: int|
            0 <= t2 < orig.len() && 0 <= s2 < orig[t2].len() && #[trigger] orig[t2][s2] == p;
        assert(reg.contains(orig[t2][s2]));
    }
}

/// Moving the scan frontier over one evaluated (or same-table) pair keeps
/// every scanned cross-table pair accounted for.
proof fn lemma_pairs_step(
    tabs: Seq<Seq<i32>>,
    base: Seq<Measure>,
    n: int,
    sc: Score,
    pm: PlayerIndex,
    vps: Seq<i64>,
    transfers: Seq<i64>,
    i: int,
    j: int,
    ti: int,
    si: int,
    tj: int,
    sj: int,
)
    requires
        pairs_done(tabs, base, n, sc, pm, vps, transfers, i, j),
        0 <= ti < tabs.len(),
        0 <= si < tabs[ti].len(),
        seats_before(tabs, ti) + si == i,
        0 <= tj < tabs.len(),
        0 <= sj < tabs[tj].len(),
        seats_before(tabs, tj) + sj == j,
        i < j,
        ti != tj ==> swap_not_better(tabs, ti, si, tj, sj, base, n, sc, pm, vps, transfers)
            && swap_not_better(tabs, tj, sj, ti, si, base, n, sc, pm, vps, transfers),
    ensures
        pairs_done(tabs, base, n, sc, pm, vps, transfers, i, j + 1),
{
    assert forall|t1: int, s1: int, t2: int, s2: int|
        0 <= t1 < tabs.len() && 0 <= s1 < tabs[t1].len() && 0 <= t2 < tabs.len() && 0 <= s2
            < tabs[t2].len() && t1 != t2 && scanned(tabs, t1, s1, t2, s2, i, j + 1) implies
    #[trigger] swap_not_better(tabs, t1, s1, t2, s2, base, n, sc, pm, vps, transfers) by {
        if !scanned(tabs, t1, s1, t2, s2, i, j) {
            let g1 = seats_before(tabs, t1) + s1;
            let g2 = seats_before(tabs, t2) + s2;
            if g1 < g2 {
                assert(g1 == i && g2 == j);
                crate::round::lemma_seat_number_unique(tabs, t1, s1, ti, si);
                crate::round::lemma_seat_number_unique(tabs, t2, s2, tj, sj);
            } else {
                assert(g2 < g1);
                assert(g2 == i && g1 == j);
                crate::round::lemma_seat_number_unique(tabs, t2, s2, ti, si);
                crate::round::lemma_seat_number_unique(tabs, t1, s1, tj, sj);
            }
        }
    }
}

/// Moving the scan frontier from the end of row `i` to the start of row
/// `i + 1` adds no pairs.
proof fn lemma_pairs_advance(
    tabs: Seq<Seq<i32>>,
    base: Seq<Measure>,
    n: int,
    sc: Score,
    pm: PlayerIndex,
    vps: Seq<i64>,
    transfers: Seq<i64>,
    i: int,
    total: int,
)
    requires
        pairs_done(tabs, base, n, sc, pm, vps, transfers, i, total),
        total == all_players(tabs).len(),
    ensures
        pairs_done(tabs, base, n, sc, pm, vps, transfers, i + 1, i + 2),
{
    assert forall|t1: int, s1: int, t2: int, s2: int|
        0 <= t1 < tabs.len() && 0 <= s1 < tabs[t1].len() && 0 <= t2 < tabs.len() && 0 <= s2
            < tabs[t2].len() && t1 != t2 && scanned(tabs, t1, s1, t2, s2, i + 1, i + 2) implies
    #[trigger] swap_not_better(tabs, t1, s1, t2, s2, base, n, sc, pm, vps, transfers) by {
        crate::round::lemma_flat_seat(tabs, t1, s1);
        crate::round::lemma_flat_seat(tabs, t2, s2);
        assert(scanned(tabs, t1, s1, t2, s2, i, total));
    }
}

/// At an empty frontier no pair has been scanned.
proof fn lemma_pairs_empty(
    tabs: Seq<Seq<i32>>,
    base: Seq<Measure>,
    n: int,
    sc: Score,
    pm: PlayerIndex,
    vps: Seq<i64>,
    transfers: Seq<i64>,
)
    ensures
        pairs_done(tabs, base, n, sc, pm, vps, transfers, 0, 1),
{
    assert forall|t1: int, s1: int, t2: int, s2: int|
        0 <= t1 < tabs.len() && 0 <= s1 < tabs[t1].len() && 0 <= t2 < tabs.len() && 0 <= s2
            < tabs[t2].len() && t1 != t2 && scanned(tabs, t1, s1, t2, s2, 0, 1) implies
    #[trigger] swap_not_better(tabs, t1, s1, t2, s2, base, n, sc, pm, vps, transfers) by {
        crate::round::lemma_seats_before_mono(tabs, 0, t1);
        crate::round::lemma_seats_before_mono(tabs, 0, t2);
        assert(false);
    }
}

/// A frontier past the last seat covers every cross-table pair.
proof fn lemma_pairs_complete(
    tabs: Seq<Seq<i32>>,
    base: Seq<Measure>,
    n: int,
    sc: Score,
    pm: PlayerIndex,
    vps: Seq<i64>,
    transfers: Seq<i64>,
    total: int,
)
    requires
        pairs_done(tabs, base, n, sc, pm, vps, transfers, total, total + 1),
        total == all_players(tabs).len(),
    ensures
        no_better_swap(tabs, base, n, sc, pm, vps, transfers),
{
    assert forall|t1: int, s1: int, t2: int, s2: int|
        0 <= t1 < tabs.len() && 0 <= s1 < tabs[t1].len() && 0 <= t2 < tabs.len() && 0 <= s2
            < tabs[t2].len() && t1 != t2 implies #[trigger] swap_not_better(
        tabs,
        t1,
        s1,
        t2,
        s2,
        base,
        n,
        sc,
        pm,
        vps,
        transfers,
    ) by {
        crate::round::lemma_flat_seat(tabs, t1, s1);
        crate::round::lemma_flat_seat(tabs, t2, s2);
        let g1 = seats_before(tabs, t1) + s1;
        let g2 = seats_before(tabs, t2) + s2;
        if g1 == g2 {
            crate::round::lemma_seat_number_unique(tabs, t1, s1, t2, s2);
        }
        assert(scanned(tabs, t1, s1, t2, s2, total, total + 1));
    }
}

/// Search for a better seating of `round` by repeated two-player swaps,
/// scored against the prior rounds' measures in `context`. Accepted moves
/// strictly improve the score, so the returned seating never scores worse
/// than the starting one (whose score is returned as `initial_score`); its
/// tables keep their sizes and its players are exactly the starting
/// players. A `Converged` outcome means a full pass evaluated every
/// cross-table swap of the returned seating and none scored better.
pub fn optimize(
    round: Round,
    context: &Vec<Measure>,
    pm: &PlayerIndex,
    vps: &Vec<i64>,
    transfers: &Vec<i64>,
    budget: usize,
) -> (r: Result<Outcome, RoundError>)
    requires
        pm.wf(),
        pm@.len() <= PLAYER_LIMIT,
        pm@.len() <= SCORE_PLAYER_LIMIT,
        vps@.len() == pm@.len(),
        transfers@.len() == pm@.len(),
        forall|p: int| 0 <= p < vps@.len() ==> 0 <= #[trigger] vps@[p] <= VPS_LIMIT,
        forall|p: int| 0 <= p < transfers@.len() ==> 0 <= #[trigger] transfers@[p] <= VPS_LIMIT,
        round@.len() <= PLAYER_LIMIT,
        forall|t: int| 0 <= t < round@.len() ==> (#[trigger] round@[t].len() == 4
            || round@[t].len() == 5),
        context@.len() + 1 <= ROUND_LIMIT,
        forall|i: int| 0 <= i < context@.len() ==> (#[trigger] context@[i]).wf()
            && context@[i].n == pm@.len(),
    ensures
        match r {
            Ok(o) => o.round@.len() == round@.len() && (forall|k: int|
                0 <= k < round@.len() ==> #[trigger] o.round@[k].len() == round@[k].len())
                && all_players(o.round@).to_multiset() == all_players(round@).to_multiset()
                && o.measures@.len() == context@.len() + 1 && (forall|i: int|
                0 <= i < context@.len() ==> (#[trigger] o.measures@[i]).pos@ == context@[i].pos@
                    && o.measures@[i].opp@ == context@[i].opp@ && o.measures@[i].n
                    == context@[i].n) && is_measure_of(
                o.measures@.last(),
                ir_of(o.round@, *pm),
                vps@,
                transfers@,
            ) && o.score.is_score_of(o.measures@, pm@.len() as int) && (exists|m0: Measure|
                (#[trigger] is_measure_of(m0, ir_of(round@, *pm), vps@, transfers@))
                    && o.initial_score.is_score_of(
                    o.measures@.drop_last().push(m0),
                    pm@.len() as int,
                )) && (score_lt_spec(o.score, o.initial_score) || o.score.raw@
                == o.initial_score.raw@) && (o.status == SearchStatus::Converged
                ==> no_better_swap(
                o.round@,
                o.measures@.drop_last(),
                pm@.len() as int,
                o.score,
                *pm,
                vps@,
                transfers@,
            )),
            Err(RoundError::UnknownPlayer(x)) => !pm@.contains(x) && (exists|t: int|
                0 <= t < round@.len() && #[trigger] round@[t].contains(x)),
            Err(RoundError::IndexError()) => (exists|i: int|
                0 <= i < context@.len() && !crate::score::small_cells(
                    #[trigger] context@[i],
                )) || (exists|m0: Measure|
                is_measure_of(m0, ir_of(round@, *pm), vps@, transfers@)
                    && !crate::score::small_cells(m0)),
            Err(_) => false,
        },
{
    broadcast use vstd::seq_lib::group_to_multiset_ensures;

    let n = pm.len();
    let mut cur = round;
    let ghost orig = cur@;
    let m_first = match measure_round(&cur, pm, vps, transfers) {
        Ok(m) => m,
        Err(e) => {
            match e {
                RoundError::UnknownPlayer(x) => {
                    return Err(RoundError::UnknownPlayer(x));
                },
                _ => {
                    proof {
                        assert(false);
                    }
                    return Err(RoundError::IndexError());
                },
            }
        },
    };
    let mut base: Vec<Measure> = Vec::new();
    let mut bi: usize = 0;
    while bi < context.len()
        invariant
            bi <= context@.len(),
            n == pm@.len(),
            forall|i2: int| 0 <= i2 < context@.len() ==> (#[trigger] context@[i2]).wf()
                && context@[i2].n == n,
            base@.len() == bi,
            forall|i2: int| 0 <= i2 < bi ==> (#[trigger] base@[i2]).pos@ == context@[i2].pos@
                && base@[i2].opp@ == context@[i2].opp@ && base@[i2].n == context@[i2].n
                && base@[i2].wf(),
        decreases context@.len() - bi,
    {
        base.push(context[bi].duplicate());
        bi = bi + 1;
    }
    let (r0, mut curm) = eval_with(&mut base, m_first, n);
    let s0 = match r0 {
        Ok(s) => s,
        Err(_) => {
            proof {
                if !(exists|i: int|
                    0 <= i < context@.len() && !crate::score::small_cells(
                        #[trigger] context@[i],
                    )) {
                    assert forall|i2: int| 0 <= i2 < base@.len() implies crate::score::small_cells(
                        #[trigger] base@[i2],
                    ) by {
                        assert(base@[i2].pos@ == context@[i2].pos@);
                        assert(base@[i2].opp@ == context@[i2].opp@);
                        assert(crate::score::small_cells(context@[i2]));
                    }
                    assert(is_measure_of(curm, ir_of(round@, *pm), vps@, transfers@)
                        && !crate::score::small_cells(curm));
                }
            }
            return Err(RoundError::IndexError());
        },
    };
    let ghost m_init = curm;
    let initial = dup_score(&s0);
    proof {
        assert(initial.is_score_of(base@.push(m_init), n as int));
    }
    let mut cur_score = s0;
    let total = cur.iter_players().len();
    let mut moves: usize = 0;
    let mut status = SearchStatus::TimedOut;
    let mut passes_left = if budget < 1000000000 {
        budget + 1
    } else {
        1000000000
    };
    let mut done = false;
    while !done
        invariant
            pm.wf(),
            pm@.len() <= PLAYER_LIMIT,
            pm@.len() <= SCORE_PLAYER_LIMIT,
            n == pm@.len(),
            vps@.len() == n,
            transfers@.len() == n,
            forall|p: int| 0 <= p < vps@.len() ==> 0 <= #[trigger] vps@[p] <= VPS_LIMIT,
            forall|p: int| 0 <= p < transfers@.len() ==> 0 <= #[trigger] transfers@[p]
                <= VPS_LIMIT,
            orig.len() <= PLAYER_LIMIT,
            forall|t: int| 0 <= t < orig.len() ==> (#[trigger] orig[t].len() == 4 || orig[t].len()
                == 5),
            forall|t: int, s: int| 0 <= t < orig.len() && 0 <= s < orig[t].len() ==> pm@.contains(
                #[trigger] orig[t][s],
            ),
            context@.len() + 1 <= ROUND_LIMIT,
            forall|i2: int| 0 <= i2 < context@.len() ==> (#[trigger] context@[i2]).wf()
                && context@[i2].n == n,
            base@.len() == context@.len(),
            forall|i2: int| 0 <= i2 < base@.len() ==> (#[trigger] base@[i2]).pos@
                == context@[i2].pos@ && base@[i2].opp@ == context@[i2].opp@ && base@[i2].n
                == context@[i2].n && base@[i2].wf(),
            cur@.len() == orig.len(),
            forall|k: int| 0 <= k < orig.len() ==> #[trigger] cur@[k].len() == orig[k].len(),
            all_players(cur@).to_multiset() == all_players(orig).to_multiset(),
            total == all_players(cur@).len(),
            curm.n == n,
            is_measure_of(curm, ir_of(cur@, *pm), vps@, transfers@),
            is_measure_of(m_init, ir_of(orig, *pm), vps@, transfers@),
            initial.is_score_of(base@.push(m_init), n as int),
            cur_score.is_score_of(base@.push(curm), n as int),
            score_lt_spec(cur_score, initial) || cur_score.raw@ == initial.raw@,
            done && status == SearchStatus::Converged ==> no_better_swap(
                cur@,
                base@,
                n as int,
                cur_score,
                *pm,
                vps@,
                transfers@,
            ),
        decreases passes_left as int + (if done {
            0int
        } else {
            1int
        }),
    {
        if passes_left == 0 {
            status = SearchStatus::TimedOut;
            done = true;
        } else {
            passes_left = passes_left - 1;
            let mut improved = false;
            let mut skipped = false;
            proof {
                lemma_pairs_empty(cur@, base@, n as int, cur_score, *pm, vps@, transfers@);
            }
            let mut i: usize = 0;
            while i < total
                invariant
                    pm.wf(),
                    pm@.len() <= PLAYER_LIMIT,
                    pm@.len() <= SCORE_PLAYER_LIMIT,
                    n == pm@.len(),
                    vps@.len() == n,
                    transfers@.len() == n,
                    forall|p: int| 0 <= p < vps@.len() ==> 0 <= #[trigger] vps@[p] <= VPS_LIMIT,
                    forall|p: int| 0 <= p < transfers@.len() ==> 0 <= #[trigger] transfers@[p]
                        <= VPS_LIMIT,
                    orig.len() <= PLAYER_LIMIT,
                    forall|t: int| 0 <= t < orig.len() ==> (#[trigger] orig[t].len() == 4
                        || orig[t].len() == 5),
                    forall|t: int, s: int| 0 <= t < orig.len() && 0 <= s < orig[t].len()
                        ==> pm@.contains(#[trigger] orig[t][s]),
                    context@.len() + 1 <= ROUND_LIMIT,
                    forall|i2: int| 0 <= i2 < context@.len() ==> (#[trigger] context@[i2]).wf()
                        && context@[i2].n == n,
                    base@.len() == context@.len(),
                    forall|i2: int| 0 <= i2 < base@.len() ==> (#[trigger] base@[i2]).pos@
                        == context@[i2].pos@ && base@[i2].opp@ == context@[i2].opp@
                        && base@[i2].n == context@[i2].n && base@[i2].wf(),
                    cur@.len() == orig.len(),
                    forall|k: int| 0 <= k < orig.len() ==> #[trigger] cur@[k].len()
                        == orig[k].len(),
                    all_players(cur@).to_multiset() == all_players(orig).to_multiset(),
                    total == all_players(cur@).len(),
                    i <= total,
                    curm.n == n,
                    is_measure_of(curm, ir_of(cur@, *pm), vps@, transfers@),
                    is_measure_of(m_init, ir_of(orig, *pm), vps@, transfers@),
                    initial.is_score_of(base@.push(m_init), n as int),
                    cur_score.is_score_of(base@.push(curm), n as int),
                    score_lt_spec(cur_score, initial) || cur_score.raw@ == initial.raw@,
                    !improved && !skipped ==> pairs_done(
                        cur@,
                        base@,
                        n as int,
                        cur_score,
                        *pm,
                        vps@,
                        transfers@,
                        i as int,
                        i as int + 1,
                    ),
                decreases total - i,
            {
                let mut j: usize = i + 1;
                while j < total
                    invariant
                        pm.wf(),
                        pm@.len() <= PLAYER_LIMIT,
                        pm@.len() <= SCORE_PLAYER_LIMIT,
                        n == pm@.len(),
                        vps@.len() == n,
                        transfers@.len() == n,
                        forall|p: int| 0 <= p < vps@.len() ==> 0 <= #[trigger] vps@[p]
                            <= VPS_LIMIT,
                        forall|p: int| 0 <= p < transfers@.len() ==> 0 <= #[trigger] transfers@[p]
                            <= VPS_LIMIT,
                        orig.len() <= PLAYER_LIMIT,
                        forall|t: int| 0 <= t < orig.len() ==> (#[trigger] orig[t].len() == 4
                            || orig[t].len() == 5),
                        forall|t: int, s: int| 0 <= t < orig.len() && 0 <= s < orig[t].len()
                            ==> pm@.contains(#[trigger] orig[t][s]),
                        context@.len() + 1 <= ROUND_LIMIT,
                        forall|i2: int| 0 <= i2 < context@.len() ==> (
                        #[trigger] context@[i2]).wf() && context@[i2].n == n,
                        base@.len() == context@.len(),
                        forall|i2: int| 0 <= i2 < base@.len() ==> (#[trigger] base@[i2]).pos@
                            == context@[i2].pos@ && base@[i2].opp@ == context@[i2].opp@
                            && base@[i2].n == context@[i2].n && base@[i2].wf(),
                        cur@.len() == orig.len(),
                        forall|k: int| 0 <= k < orig.len() ==> #[trigger] cur@[k].len()
                            == orig[k].len(),
                        all_players(cur@).to_multiset() == all_players(orig).to_multiset(),
                        total == all_players(cur@).len(),
                        i < total,
                        i < j,
                        curm.n == n,
                        is_measure_of(curm, ir_of(cur@, *pm), vps@, transfers@),
                        is_measure_of(m_init, ir_of(orig, *pm), vps@, transfers@),
                        initial.is_score_of(base@.push(m_init), n as int),
                        cur_score.is_score_of(base@.push(curm), n as int),
                        score_lt_spec(cur_score, initial) || cur_score.raw@ == initial.raw@,
                        !improved && !skipped ==> pairs_done(
                            cur@,
                            base@,
                            n as int,
                            cur_score,
                            *pm,
                            vps@,
                            transfers@,
                            i as int,
                            j as int,
                        ),
                    decreases total - j,
                {
                    let loc_i = match cur.__global_index_to_tuple(i) {
                        Ok(pair) => pair,
                        Err(_) => {
                            proof {
                                assert(false);
                            }
                            (0, 0)
                        },
                    };
                    let loc_j = match cur.__global_index_to_tuple(j) {
                        Ok(pair) => pair,
                        Err(_) => {
                            proof {
                                assert(false);
                            }
                            (0, 0)
                        },
                    };
                    if loc_i.0 != loc_j.0 {
                        if moves < budget {
                            moves = moves + 1;
                            let prior_i = cur.get_table(loc_i.0);
                            let prior_j = cur.get_table(loc_j.0);
                            let mut cand = cur.duplicate();
                            cand.swap_seats(loc_i.0, loc_i.1, loc_j.0, loc_j.1);
                            let mut changed: Vec<usize> = Vec::new();
                            changed.push(loc_i.0);
                            changed.push(loc_j.0);
                            let mut prior: Vec<Vec<i32>> = Vec::new();
                            prior.push(prior_i);
                            prior.push(prior_j);
                            proof {
                                let a = loc_i.0 as int;
                                let b = loc_j.0 as int;
                                let pv = tables_view(prior@);
                                assert(pv[0] == cur@[a]);
                                assert(pv[1] == cur@[b]);
                                assert(restore_from(cand@, changed@, pv, 2) == cand@);
                                assert(restore_from(cand@, changed@, pv, 1) == cand@.update(
                                    b,
                                    cur@[b],
                                ));
                                assert(restore_from(cand@, changed@, pv, 0) == cand@.update(
                                    b,
                                    cur@[b],
                                ).update(a, cur@[a]));
                                assert(restore_from(cand@, changed@, pv, 0) =~= cur@);
                                assert(ir_of(restore_from(cand@, changed@, pv, 0), *pm) == ir_of(
                                    cur@,
                                    *pm,
                                ));
                                lemma_players_registered(cur@, orig, pm@);
                                assert forall|i3: int, s: int|
                                    0 <= i3 < prior@.len() && 0 <= s
                                        < prior@[i3]@.len() implies pm@.contains(
                                    #[trigger] prior@[i3]@[s],
                                ) by {
                                    if i3 == 0 {
                                        assert(prior@[0]@ == cur@[a]);
                                    } else {
                                        assert(prior@[1]@ == cur@[b]);
                                    }
                                }
                            }
                            let candm = match recompute_incremental(
                                &curm,
                                &cand,
                                &changed,
                                &prior,
                                pm,
                                vps,
                                transfers,
                            ) {
                                Ok(m) => m,
                                Err(e) => {
                                    proof {
                                        if let RoundError::UnknownPlayer(x) = e {
                                            let t = choose|t: int|
                                                0 <= t < cand@.len() && #[trigger] cand@[t].contains(
                                                    x,
                                                );
                                            let s = choose|s: int|
                                                0 <= s < cand@[t].len() && cand@[t][s] == x;
                                            lemma_players_registered(cand@, orig, pm@);
                                            assert(pm@.contains(cand@[t][s]));
                                            assert(false);
                                        } else {
                                            assert(false);
                                        }
                                    }
                                    return Err(RoundError::IndexError());
                                },
                            };
                            let (rc, candm2) = eval_with(&mut base, candm, n);
                            match rc {
                                Ok(cand_score) => {
                                    if score_lt(&cand_score, &cur_score) {
                                        proof {
                                            broadcast use vstd::seq_lib::group_to_multiset_ensures;

                                            crate::score::lemma_score_lt_trans(
                                                cand_score,
                                                cur_score,
                                                initial,
                                            );
                                            assert(all_players(cand@).to_multiset().len()
                                                == all_players(cand@).len());
                                            assert(all_players(cur@).to_multiset().len()
                                                == all_players(cur@).len());
                                        }
                                        cur = cand;
                                        curm = candm2;
                                        cur_score = cand_score;
                                        improved = true;
                                    } else {
                                        proof {
                                            let ti = loc_i.0 as int;
                                            let si = loc_i.1 as int;
                                            let tj = loc_j.0 as int;
                                            let sj = loc_j.1 as int;
                                            assert(cand@ == swapped_round(cur@, ti, si, tj, sj));
                                            assert(is_measure_of(
                                                candm2,
                                                ir_of(swapped_round(cur@, ti, si, tj, sj), *pm),
                                                vps@,
                                                transfers@,
                                            ));
                                            assert(cand_score.is_score_of(
                                                base@.push(candm2),
                                                n as int,
                                            ));
                                            assert(!score_lt_spec(cand_score, cur_score));
                                            assert forall|m2: Measure, c2: Score|
                                                (is_measure_of(
                                                    m2,
                                                    ir_of(
                                                        swapped_round(cur@, ti, si, tj, sj),
                                                        *pm,
                                                    ),
                                                    vps@,
                                                    transfers@,
                                                )) && c2.is_score_of(
                                                    base@.push(m2),
                                                    n as int,
                                                ) implies !score_lt_spec(c2, cur_score) by {
                                                crate::measure::lemma_measure_unique(
                                                    m2,
                                                    candm2,
                                                    ir_of(
                                                        swapped_round(cur@, ti, si, tj, sj),
                                                        *pm,
                                                    ),
                                                    vps@,
                                                    transfers@,
                                                );
                                                assert(crate::score::views_eq(
                                                    base@.push(m2),
                                                    base@.push(candm2),
                                                )) by {
                                                    assert forall|i2: int|
                                                        0 <= i2 < base@.push(m2).len() implies (
                                                    #[trigger] base@.push(m2)[i2]).pos@
                                                        == base@.push(candm2)[i2].pos@
                                                        && base@.push(m2)[i2].opp@ == base@.push(
                                                        candm2,
                                                    )[i2].opp@ && base@.push(m2)[i2].n
                                                        == base@.push(candm2)[i2].n by {
                                                        if i2 < base@.len() {
                                                            assert(base@.push(m2)[i2]
                                                                == base@[i2]);
                                                            assert(base@.push(candm2)[i2]
                                                                == base@[i2]);
                                                        }
                                                    }
                                                }
                                                crate::score::lemma_score_unique_views(
                                                    c2,
                                                    cand_score,
                                                    base@.push(m2),
                                                    base@.push(candm2),
                                                    n as int,
                                                );
                                                assert(c2.raw@ == cand_score.raw@);
                                            }
                                            assert(swap_not_better(
                                                cur@,
                                                ti,
                                                si,
                                                tj,
                                                sj,
                                                base@,
                                                n as int,
                                                cur_score,
                                                *pm,
                                                vps@,
                                                transfers@,
                                            ));
                                            assert(swapped_round(cur@, tj, sj, ti, si)
                                                =~= swapped_round(cur@, ti, si, tj, sj));
                                            assert(swap_not_better(
                                                cur@,
                                                tj,
                                                sj,
                                                ti,
                                                si,
                                                base@,
                                                n as int,
                                                cur_score,
                                                *pm,
                                                vps@,
                                                transfers@,
                                            ));
                                            if !improved && !skipped {
                                                lemma_pairs_step(
                                                    cur@,
                                                    base@,
                                                    n as int,
                                                    cur_score,
                                                    *pm,
                                                    vps@,
                                                    transfers@,
                                                    i as int,
                                                    j as int,
                                                    ti,
                                                    si,
                                                    tj,
                                                    sj,
                                                );
                                            }
                                        }
                                    }
                                },
                                Err(_) => {
                                    skipped = true;
                                },
                            }
                        } else {
                            skipped = true;
                        }
                    } else {
                        proof {
                            if !improved && !skipped {
                                lemma_pairs_step(
                                    cur@,
                                    base@,
                                    n as int,
                                    cur_score,
                                    *pm,
                                    vps@,
                                    transfers@,
                                    i as int,
                                    j as int,
                                    loc_i.0 as int,
                                    loc_i.1 as int,
                                    loc_j.0 as int,
                                    loc_j.1 as int,
                                );
                            }
                        }
                    }
                    j = j + 1;
                }
                proof {
                    if !improved && !skipped {
                        lemma_pairs_advance(
                            cur@,
                            base@,
                            n as int,
                            cur_score,
                            *pm,
                            vps@,
                            transfers@,
                            i as int,
                            total as int,
                        );
                    }
                }
                i = i + 1;
            }
            if !improved {
                if !skipped {
                    proof {
                        lemma_pairs_complete(
                            cur@,
                            base@,
                            n as int,
                            cur_score,
                            *pm,
                            vps@,
                            transfers@,
                            total as int,
                        );
                    }
                    status = SearchStatus::Converged;
                } else {
                    status = SearchStatus::TimedOut;
                }
                done = true;
            } else if moves >= budget {
                status = SearchStatus::TimedOut;
                done = true;
            }
        }
    }
    let ghost base_snapshot = base@;
    let mut measures = base;
    measures.push(curm);
    proof {
        assert(measures@.drop_last() =~= base_snapshot);
        assert(measures@.last() == curm);
    }
    Ok(
        Outcome {
            round: cur,
            measures,
            score: cur_score,
            initial_score: initial,
            status,
        },
    )
}

} // verus!
