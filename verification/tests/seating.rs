use seating::measure::{combine, measure, measure_round, recompute_incremental};
use seating::optimizer::{optimize, SearchStatus};
use seating::player_index::{player_mapping, PlayerIndex};
use seating::relationship::{relationship, Relationship};
use seating::round::{Round, RoundError};
use seating::score::{score, score_lt};

fn nine_player_setup() -> (Round, PlayerIndex, Vec<i64>, Vec<i64>) {
    let players: Vec<i32> = (1..=9).collect();
    let round = Round::from_players(&players).unwrap();
    let pm = player_mapping(&vec![round.duplicate()]);
    let vps = vec![0i64; 9];
    let transfers = vec![0i64; 9];
    (round, pm, vps, transfers)
}

#[test]
fn test_round_from_19() {
    let manually_constructed_round = Ok(Round(vec![
        vec![1, 2, 3, 4, 5],
        vec![6, 7, 8, 9, 10],
        vec![11, 12, 13, 14, 15],
        vec![16, 17, 18, 19],
    ]));
    let players: Vec<i32> = (1..=19).collect();
    assert_eq!(manually_constructed_round, Round::from_players(&players));
}

#[test]
fn test_err_on_staggered() {
    let six_players: Vec<_> = (1..=6).collect();
    let seven_players: Vec<_> = (1..=7).collect();
    let eleven_players: Vec<_> = (1..=11).collect();
    assert_eq!(
        Err(RoundError::NeedsStaggered(6usize)),
        Round::from_players(&six_players)
    );
    assert_eq!(
        Err(RoundError::NeedsStaggered(7usize)),
        Round::from_players(&seven_players)
    );
    assert_eq!(
        Err(RoundError::NeedsStaggered(11usize)),
        Round::from_players(&eleven_players)
    );
}

#[test]
fn test_iter_players() {
    let players: Vec<_> = (1..=9).collect();
    let expected = players.iter();
    let round = Round::from_players(&players).unwrap();
    for (i, j) in expected.zip(round.iter_players().iter()) {
        assert_eq!(i, j);
    }
}

#[test]
fn test_round_from_12() {
    let players: Vec<i32> = (1..=12).collect();
    let round = Round::from_players(&players).unwrap();
    assert_eq!(
        Round(vec![vec![1, 2, 3, 4], vec![5, 6, 7, 8], vec![9, 10, 11, 12]]),
        round
    );
}

#[test]
fn test_too_few_players() {
    let none: Vec<i32> = vec![];
    let five: Vec<i32> = (1..=5).collect();
    assert_eq!(Err(RoundError::NotEnoughPlayers()), Round::from_players(&none));
    assert_eq!(Err(RoundError::NotEnoughPlayers()), Round::from_players(&five));
}

#[test]
fn test_partition_sizes_various() {
    for l in [8usize, 9, 10, 13, 16, 21, 33] {
        let players: Vec<i32> = (1..=l as i32).collect();
        let round = Round::from_players(&players).unwrap();
        let mut total = 0;
        let mut fours = 0;
        let mut seen_four = false;
        for table in round.iter_tables() {
            assert!(table.len() == 4 || table.len() == 5);
            if table.len() == 4 {
                fours += 1;
                seen_four = true;
            } else {
                assert!(!seen_four, "a five-seat table after a four-seat table");
            }
            total += table.len();
        }
        assert_eq!(total, l);
        let expected_fours = (5 - l % 5) % 5;
        assert_eq!(fours, expected_fours);
    }
}

#[test]
fn test_round_addressing() {
    let players: Vec<i32> = (1..=9).collect();
    let round = Round::from_players(&players).unwrap();
    assert_eq!(Ok((0, 0)), round.__global_index_to_tuple(0));
    assert_eq!(Ok((0, 4)), round.__global_index_to_tuple(4));
    assert_eq!(Ok((1, 0)), round.__global_index_to_tuple(5));
    assert_eq!(Ok((1, 3)), round.__global_index_to_tuple(8));
    assert_eq!(Err(RoundError::IndexError()), round.__global_index_to_tuple(9));
    assert_eq!(1, round.get_player(0));
    assert_eq!(6, round.get_player(5));
    assert_eq!(vec![6, 7, 8, 9], round.get_table(1));
    let mut round2 = Round::from_players(&players).unwrap();
    round2.set_player(0, 42);
    assert_eq!(42, round2.get_player(0));
    round2.set_table(1, vec![60, 70, 80, 90]);
    assert_eq!(vec![60, 70, 80, 90], round2.get_table(1));
}

#[test]
fn test_counts_and_tuples() {
    let players: Vec<i32> = (1..=9).collect();
    let round = Round::from_players(&players).unwrap();
    assert_eq!(2, round.duplicate().tables_count());
    assert_eq!(9, round.duplicate().players_count());
    let tuples = round.duplicate().iter_table_players();
    assert_eq!(9, tuples.len());
    assert_eq!((0, 0, 5, 1), tuples[0]);
    assert_eq!((0, 4, 5, 5), tuples[4]);
    assert_eq!((1, 0, 4, 6), tuples[5]);
    assert_eq!((1, 3, 4, 9), tuples[8]);
    let map = round.duplicate()._global_indexes();
    assert_eq!(2, map.len());
    assert_eq!(vec![1, 2, 3, 4, 5], map[&0]);
    assert_eq!(vec![6, 7, 8, 9], map[&1]);
}

#[test]
fn test_shuffle_keeps_players() {
    let players: Vec<i32> = (1..=13).collect();
    let mut round = Round::from_players(&players).unwrap();
    let sizes: Vec<usize> = round.duplicate().iter_tables().iter().map(|t| t.len()).collect();
    round.shuffle();
    let mut after = round.iter_players();
    after.sort();
    assert_eq!(players, after);
    let sizes_after: Vec<usize> =
        round.duplicate().iter_tables().iter().map(|t| t.len()).collect();
    assert_eq!(sizes, sizes_after);
}

#[test]
fn test_player_mapping_first_encounter() {
    let round = Round(vec![vec![30, 10, 20, 40, 50], vec![10, 30, 60, 70]]);
    let pm = player_mapping(&vec![round]);
    assert_eq!(7, pm.len());
    assert_eq!(Ok(0), pm.index_of(30));
    assert_eq!(Ok(1), pm.index_of(10));
    assert_eq!(Ok(2), pm.index_of(20));
    assert_eq!(Ok(6), pm.index_of(70));
    assert_eq!(Ok(30), pm.player_at(0));
    assert_eq!(Ok(70), pm.player_at(6));
    assert_eq!(Err(RoundError::UnknownPlayer(99)), pm.index_of(99));
    assert_eq!(Err(RoundError::IndexError()), pm.player_at(7));
}

#[test]
fn test_relationship_geometry() {
    assert_eq!(Relationship::Prey, relationship(5, 0, 1));
    assert_eq!(Relationship::GrandPrey, relationship(5, 0, 2));
    assert_eq!(Relationship::GrandPredator, relationship(5, 0, 3));
    assert_eq!(Relationship::Predator, relationship(5, 0, 4));
    assert_eq!(Relationship::Prey, relationship(5, 4, 0));
    assert_eq!(Relationship::Prey, relationship(4, 0, 1));
    assert_eq!(Relationship::CrossTable, relationship(4, 0, 2));
    assert_eq!(Relationship::Predator, relationship(4, 0, 3));
}

#[test]
fn test_measure_round_cells() {
    let (round, pm, mut vps, transfers) = nine_player_setup();
    vps[0] = 3;
    let m = measure_round(&round, &pm, &vps, &transfers).unwrap();
    let n = 9usize;
    // player 0 (id 1): played once, 3 victory points, seat 1.
    assert_eq!(1, m.pos[0]);
    assert_eq!(3, m.pos[1]);
    assert_eq!(0, m.pos[2]);
    assert_eq!(1, m.pos[3]);
    // player 0's prey is player 1; they are neighbours and opponents.
    assert_eq!(1, m.opp[(0 * n + 1) * 8]);
    assert_eq!(1, m.opp[(0 * n + 1) * 8 + 1]);
    assert_eq!(1, m.opp[(0 * n + 1) * 8 + 6]);
    // player 1's predator is player 0.
    assert_eq!(1, m.opp[(1 * n + 0) * 8 + 4]);
    // distance two at the 5-seat table: grand-prey.
    assert_eq!(1, m.opp[(0 * n + 2) * 8 + 2]);
    // players 0 and 5 sit at different tables: cross-table, not opponents.
    assert_eq!(0, m.opp[(0 * n + 5) * 8]);
    assert_eq!(1, m.opp[(0 * n + 5) * 8 + 5]);
    // the 4-seat table's distance-two pair: opponents, cross-table flag set.
    assert_eq!(1, m.opp[(5 * n + 7) * 8]);
    assert_eq!(1, m.opp[(5 * n + 7) * 8 + 5]);
    assert_eq!(1, m.opp[(5 * n + 7) * 8 + 7]);
    // the unknown-player error.
    let stranger = Round(vec![vec![100, 101, 102, 103]]);
    match measure(&pm, &stranger, &vps, &transfers) {
        Err(RoundError::UnknownPlayer(x)) => assert_eq!(100, x),
        other => panic!("expected an unknown player, got {:?}", other.is_ok()),
    }
}

#[test]
fn test_measure_additivity() {
    let (round, pm, vps, transfers) = nine_player_setup();
    let m1 = measure_round(&round, &pm, &vps, &transfers).unwrap();
    let shuffled = Round(vec![vec![9, 8, 7, 6, 5], vec![4, 3, 2, 1]]);
    let m2 = measure_round(&shuffled, &pm, &vps, &transfers).unwrap();
    let both = vec![m1.duplicate(), m2.duplicate()];
    let total = combine(&both, 9);
    for j in 0..total.pos.len() {
        assert_eq!(total.pos[j], m1.pos[j] + m2.pos[j]);
    }
    for j in 0..total.opp.len() {
        assert_eq!(total.opp[j], m1.opp[j] + m2.opp[j]);
    }
}

#[test]
fn test_incremental_matches_full() {
    let (round, pm, vps, transfers) = nine_player_setup();
    let m1 = measure_round(&round, &pm, &vps, &transfers).unwrap();
    let prior = vec![round.get_table(0), round.get_table(1)];
    let mut changed_round = round.duplicate();
    changed_round.swap_seats(0, 1, 1, 2);
    let changed = vec![0usize, 1usize];
    let inc =
        recompute_incremental(&m1, &changed_round, &changed, &prior, &pm, &vps, &transfers)
            .unwrap();
    let fresh = measure_round(&changed_round, &pm, &vps, &transfers).unwrap();
    assert_eq!(fresh.pos, inc.pos);
    assert_eq!(fresh.opp, inc.opp);
}

#[test]
fn test_score_single_round() {
    let (round, pm, vps, transfers) = nine_player_setup();
    let m = measure_round(&round, &pm, &vps, &transfers).unwrap();
    let s = score(&vec![m], 9).unwrap();
    // One round of nine players: no repeats anywhere; the only nonzero
    // rules are the seat spread (each player has one seat out of five:
    // 5*1 - 1 = 4, nine players) and the five-seat exposure spread
    // (9 * 5 - 5 * 5).
    assert_eq!(vec![0i128, 0, 0, 0, 0, 36, 0, 0, 20], s.raw);
    assert_eq!(36 * 10_000, s.weighted[5]);
    assert_eq!(20 * 10, s.weighted[8]);
}

#[test]
fn test_score_orders_repeats_higher() {
    let (round, pm, vps, transfers) = nine_player_setup();
    let m1 = measure_round(&round, &pm, &vps, &transfers).unwrap();
    let m1b = measure_round(&round, &pm, &vps, &transfers).unwrap();
    let single = score(&vec![m1.duplicate()], 9).unwrap();
    let repeated = score(&vec![m1, m1b], 9).unwrap();
    // Playing the identical seating twice repeats every prey relation:
    // nine ordered pairs under rule 1.
    assert_eq!(9, repeated.raw[0]);
    assert!(score_lt(&single, &repeated));
    assert!(!score_lt(&repeated, &single));
}

#[test]
fn test_optimizer_never_worsens() {
    let players: Vec<i32> = (1..=13).collect();
    let round = Round::from_players(&players).unwrap();
    let pm = player_mapping(&vec![round.duplicate()]);
    let vps = vec![0i64; 13];
    let transfers = vec![0i64; 13];
    // Context: the same seating already played once, so the search has
    // repeats to repair.
    let ctx_measure = measure_round(&round, &pm, &vps, &transfers).unwrap();
    let context = vec![ctx_measure];
    let outcome = optimize(round.duplicate(), &context, &pm, &vps, &transfers, 200).unwrap();
    assert!(
        outcome.status == SearchStatus::Converged || outcome.status == SearchStatus::TimedOut
    );
    // Lexicographic non-regression of the raw rule tuple.
    let mut not_worse = true;
    for k in 0..9 {
        if outcome.score.raw[k] < outcome.initial_score.raw[k] {
            break;
        }
        if outcome.score.raw[k] > outcome.initial_score.raw[k] {
            not_worse = false;
            break;
        }
    }
    assert!(not_worse);
    // The players and table sizes are untouched.
    let mut seated = outcome.round.iter_players();
    seated.sort();
    assert_eq!(players, seated);
}

#[test]
fn test_optimizer_zero_budget_times_out() {
    let players: Vec<i32> = (1..=9).collect();
    let round = Round::from_players(&players).unwrap();
    let pm = player_mapping(&vec![round.duplicate()]);
    let vps = vec![0i64; 9];
    let transfers = vec![0i64; 9];
    let outcome = optimize(round, &vec![], &pm, &vps, &transfers, 0).unwrap();
    // No move was ever examined: the search must not claim convergence,
    // and the result is the starting seating with its own score.
    assert_eq!(SearchStatus::TimedOut, outcome.status);
    assert_eq!(outcome.initial_score.raw, outcome.score.raw);
}

#[test]
fn test_register_is_idempotent() {
    let mut pm = PlayerIndex::new();
    pm.register(5);
    pm.register(5);
    pm.register(8);
    assert_eq!(2, pm.len());
    assert_eq!(Ok(0), pm.index_of(5));
    assert_eq!(Ok(1), pm.index_of(8));
}
