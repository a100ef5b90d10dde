//! A round of play: an ordered sequence of tables, each an ordered sequence
//! of seated players. Seat order is significant: it encodes the positional
//! relationships between players at the same table.

use std::collections::HashMap;
use vstd::prelude::*;

verus! {

broadcast use vstd::std_specs::hash::group_hash_axioms;

/// A round: tables in order, each table an ordered list of player identifiers.
#[derive(Debug, PartialEq)]
pub struct Round(pub Vec<Vec<i32>>);

impl View for Round {
    type V = Seq<Seq<i32>>;

    open spec fn view(&self) -> Seq<Seq<i32>> {
        Seq::new(self.0@.len(), |i: int| self.0@[i]@)
    }
}

/// Failures of round construction and addressing.
#[derive(Debug, Clone, PartialEq)]
pub enum RoundError {
    /// The player count can only be seated with staggered (partial) rounds,
    /// which this library does not support.
    NeedsStaggered(usize),
    /// Fewer than six players were supplied.
    NotEnoughPlayers(),
    /// A table or seat address lies past the end of the round.
    IndexError(),
    /// A player was looked up that was never registered.
    UnknownPlayer(i32),
}

/// Player counts that would need staggered (partial) seating: they cannot be
/// split into tables of 4 and 5 only.
pub open spec fn staggered_count(l: int) -> bool {
    l == 6 || l == 7 || l == 11
}

/// Player counts that a round can seat: more than five players, and not one
/// of the staggered counts.
pub open spec fn seatable_count(l: int) -> bool {
    l > 5 && !staggered_count(l)
}

/// Number of 4-seat tables for `l` players: the least count that leaves a
/// multiple of five for the 5-seat tables.
pub open spec fn fours_of(l: int) -> int {
    if l % 5 == 0 {
        0
    } else {
        5 - l % 5
    }
}

/// Number of 5-seat tables for `l` players.
pub open spec fn fives_of(l: int) -> int {
    (l - 4 * fours_of(l)) / 5
}

/// Table `i` of the default partition of `players`: the first `fives_of`
/// tables take five players each in input order, the rest take four.
pub open spec fn partition_table(players: Seq<i32>, i: int) -> Seq<i32> {
    let fives = fives_of(players.len() as int);
    if i < fives {
        players.subrange(5 * i, 5 * i + 5)
    } else {
        players.subrange(5 * fives + 4 * (i - fives), 5 * fives + 4 * (i - fives) + 4)
    }
}

/// The default partition of `players` into tables of five, then tables of
/// four, preserving input order.
pub open spec fn partition_spec(players: Seq<i32>) -> Seq<Seq<i32>> {
    let l = players.len() as int;
    Seq::new((fives_of(l) + fours_of(l)) as nat, |i: int| partition_table(players, i))
}

/// Copy `s[start..end]` into a fresh vector.
fn sub_vec(s: &[i32], start: usize, end: usize) -> (r: Vec<i32>)
    requires
        start <= end <= s@.len(),
    ensures
        r@ == s@.subrange(start as int, end as int),
{
    let mut r: Vec<i32> = Vec::new();
    let mut i: usize = start;
    while i < end
        invariant
            start <= i <= end <= s@.len(),
            r@ == s@.subrange(start as int, i as int),
        decreases end - i,
    {
        r.push(s[i]);
        assert(s@.subrange(start as int, i + 1 as int)
            == s@.subrange(start as int, i as int).push(s@[i as int]));
        i = i + 1;
    }
    r
}

/// For a seatable count, the table counts are non-negative and consistent:
/// `4 * fours + 5 * fives == l`.
pub proof fn lemma_table_counts(l: int)
    requires
        seatable_count(l),
    ensures
        0 <= fours_of(l) <= 4,
        0 <= fives_of(l),
        4 * fours_of(l) + 5 * fives_of(l) == l,
        l % 5 != 0 ==> fives_of(l) >= 1 || l == 4 * fours_of(l),
{
    let f = fours_of(l);
    assert(0 <= l % 5 < 5) by {
        assert(l > 5);
    }
    assert(l - 4 * f >= 0);
    assert((l - 4 * f) % 5 == 0) by {
        if l % 5 != 0 {
            assert(l - 4 * f == l - 20 + 4 * (l % 5));
            assert((l - 4 * f) % 5 == (l + 4 * (l % 5)) % 5) by {
                assert(l - 20 + 4 * (l % 5) == (l + 4 * (l % 5)) + 5 * (-4));
                vstd::arithmetic::div_mod::lemma_mod_multiples_vanish(
                    -4,
                    l + 4 * (l % 5),
                    5,
                );
            }
            assert((l + 4 * (l % 5)) % 5 == 0) by {
                vstd::arithmetic::div_mod::lemma_fundamental_div_mod(l, 5);
                assert(l + 4 * (l % 5) == 5 * (l / 5) + 5 * (l % 5));
                assert(5 * (l / 5) + 5 * (l % 5) == 5 * (l / 5 + l % 5));
                vstd::arithmetic::div_mod::lemma_mod_multiples_basic(l / 5 + l % 5, 5);
            }
        }
    }
    assert(5 * fives_of(l) == l - 4 * f) by {
        vstd::arithmetic::div_mod::lemma_fundamental_div_mod(l - 4 * f, 5);
    }
}

/// Total number of seats in the tables before table `t`.
pub open spec fn seats_before(tabs: Seq<Seq<i32>>, t: int) -> int
    decreases t,
{
    if t <= 0 {
        0
    } else {
        seats_before(tabs, t - 1) + tabs[t - 1].len()
    }
}

/// The seats of a round in order: table 0's players first, then table 1's,
/// and so on.
pub open spec fn all_players(tabs: Seq<Seq<i32>>) -> Seq<i32> {
    tabs.flatten()
}

/// `seats_before` is the length of the flattened prefix.
pub proof fn lemma_seats_before_is_flatten_len(tabs: Seq<Seq<i32>>, t: int)
    requires
        0 <= t <= tabs.len(),
    ensures
        all_players(tabs.take(t)).len() == seats_before(tabs, t),
        seats_before(tabs, t) >= 0,
    decreases t,
{
    if t > 0 {
        lemma_seats_before_is_flatten_len(tabs, t - 1);
        assert(tabs.take(t) =~= tabs.take(t - 1).push(tabs[t - 1]));
        tabs.take(t - 1).lemma_flatten_push(tabs[t - 1]);
    }
}

/// Earlier tables hold earlier seats.
pub proof fn lemma_seats_before_mono(tabs: Seq<Seq<i32>>, a: int, b: int)
    requires
        0 <= a <= b,
    ensures
        seats_before(tabs, a) <= seats_before(tabs, b),
    decreases b - a,
{
    if a < b {
        lemma_seats_before_mono(tabs, a, b - 1);
        if 0 <= b - 1 < tabs.len() {
        }
    }
}

/// A round-wide seat number names one table and seat only.
pub proof fn lemma_seat_number_unique(tabs: Seq<Seq<i32>>, t1: int, s1: int, t2: int, s2: int)
    requires
        0 <= t1 < tabs.len(),
        0 <= s1 < tabs[t1].len(),
        0 <= t2 < tabs.len(),
        0 <= s2 < tabs[t2].len(),
        seats_before(tabs, t1) + s1 == seats_before(tabs, t2) + s2,
    ensures
        t1 == t2,
        s1 == s2,
{
    if t1 < t2 {
        assert(seats_before(tabs, t1 + 1) == seats_before(tabs, t1) + tabs[t1].len());
        lemma_seats_before_mono(tabs, t1 + 1, t2);
    }
    if t2 < t1 {
        assert(seats_before(tabs, t2 + 1) == seats_before(tabs, t2) + tabs[t2].len());
        lemma_seats_before_mono(tabs, t2 + 1, t1);
    }
}

/// Splitting a round at table `t` splits its player sequence at
/// `seats_before(tabs, t)`.
pub proof fn lemma_flatten_split(tabs: Seq<Seq<i32>>, t: int)
    requires
        0 <= t <= tabs.len(),
    ensures
        all_players(tabs) == all_players(tabs.take(t)) + all_players(tabs.skip(t)),
        all_players(tabs.take(t)).len() == seats_before(tabs, t),
{
    assert(tabs =~= tabs.take(t) + tabs.skip(t));
    vstd::seq_lib::lemma_flatten_concat(tabs.take(t), tabs.skip(t));
    lemma_seats_before_is_flatten_len(tabs, t);
}

/// Seat `s` of table `t` is seat `seats_before(tabs, t) + s` of the round.
pub proof fn lemma_flat_seat(tabs: Seq<Seq<i32>>, t: int, s: int)
    requires
        0 <= t < tabs.len(),
        0 <= s < tabs[t].len(),
    ensures
        0 <= seats_before(tabs, t) + s < all_players(tabs).len(),
        all_players(tabs)[seats_before(tabs, t) + s] == tabs[t][s],
{
    lemma_flatten_split(tabs, t);
    let rest = tabs.skip(t);
    assert(rest.first() == tabs[t]);
    assert(all_players(rest) == tabs[t] + all_players(rest.drop_first()));
    assert(all_players(rest)[s] == tabs[t][s]);
}

/// Replacing one seat's player rewrites exactly one position of the round's
/// player sequence.
pub proof fn lemma_flatten_update(tabs: Seq<Seq<i32>>, t: int, s: int, v: i32)
    requires
        0 <= t < tabs.len(),
        0 <= s < tabs[t].len(),
    ensures
        all_players(tabs.update(t, tabs[t].update(s, v)))
            == all_players(tabs).update(seats_before(tabs, t) + s, v),
{
    let tabs2 = tabs.update(t, tabs[t].update(s, v));
    lemma_flatten_split(tabs, t);
    lemma_flatten_split(tabs2, t);
    assert(tabs2.take(t) =~= tabs.take(t));
    assert(seats_before(tabs2, t) == seats_before(tabs, t)) by {
        lemma_seats_before_is_flatten_len(tabs, t);
        lemma_seats_before_is_flatten_len(tabs2, t);
    }
    let restold = tabs.skip(t);
    let restnew = tabs2.skip(t);
    assert(restnew.drop_first() =~= restold.drop_first());
    assert(all_players(restold) == tabs[t] + all_players(restold.drop_first()));
    assert(all_players(restnew) == tabs[t].update(s, v) + all_players(restold.drop_first()));
    lemma_flat_seat(tabs, t, s);
    assert(all_players(tabs2) =~= all_players(tabs).update(seats_before(tabs, t) + s, v));
}

/// Copy a table.
fn copy_table(t: &Vec<i32>) -> (r: Vec<i32>)
    ensures
        r@ == t@,
{
    let mut r: Vec<i32> = Vec::new();
    let mut i: usize = 0;
    while i < t.len()
        invariant
            i <= t@.len(),
            r@ == t@.take(i as int),
        decreases t@.len() - i,
    {
        r.push(t[i]);
        assert(t@.take(i + 1 as int) == t@.take(i as int).push(t@[i as int]));
        i = i + 1;
    }
    assert(r@ =~= t@);
    r
}

/// Relies on rand's `SliceRandom::shuffle`: an in-place Fisher-Yates pass of
/// swaps, so a permutation of the slice. Driven by the deterministic
/// `StepRng` so that search runs are reproducible.
#[verifier::external_body]
fn shuffle_players(v: &mut Vec<i32>)
    ensures
        final(v)@.len() == old(v)@.len(),
        final(v)@.to_multiset() == old(v)@.to_multiset(),
{
    let mut rng = rand::rngs::mock::StepRng::new(2, 13);
    rand::seq::SliceRandom::shuffle(v.as_mut_slice(), &mut rng);
}

impl Round {
    /// Split an ordered list of players into one round's tables: all the
    /// 5-seat tables first, then the 4-seat tables, preserving input order.
    ///
    /// Fails with `NotEnoughPlayers` for five or fewer players and with
    /// `NeedsStaggered` for 6, 7 or 11, the counts that cannot be split into
    /// tables of 4 and 5 alone.
    pub fn from_players(players: &[i32]) -> (r: Result<Round, RoundError>)
        ensures
            match r {
                Ok(round) => seatable_count(players@.len() as int)
                    && round@ == partition_spec(players@),
                Err(RoundError::NotEnoughPlayers()) => players@.len() <= 5,
                Err(RoundError::NeedsStaggered(l)) => l == players@.len()
                    && staggered_count(l as int),
                Err(_) => false,
            },
    {
        let l = players.len();
        if l <= 5 {
            return Err(RoundError::NotEnoughPlayers());
        }
        if l == 6 || l == 7 || l == 11 {
            return Err(RoundError::NeedsStaggered(l));
        }
        proof {
            lemma_table_counts(l as int);
        }
        let fours: usize = if l % 5 == 0 { 0 } else { 5 - l % 5 };
        let fives: usize = (l - 4 * fours) / 5;
        assert(fours == fours_of(l as int));
        assert(fives == fives_of(l as int));
        let mut tables: Vec<Vec<i32>> = Vec::new();
        let mut i: usize = 0;
        while i < fives
            invariant
                i <= fives,
                fours == fours_of(l as int),
                fives == fives_of(l as int),
                l == players@.len(),
                seatable_count(l as int),
                4 * fours + 5 * fives == l,
                tables@.len() == i,
                forall|k: int| 0 <= k < i ==> #[trigger] tables@[k]@
                    == partition_table(players@, k),
            decreases fives - i,
        {
            let t = sub_vec(players, 5 * i, 5 * i + 5);
            tables.push(t);
            i = i + 1;
        }
        let mut j: usize = 0;
        while j < fours
            invariant
                j <= fours,
                fours == fours_of(l as int),
                fives == fives_of(l as int),
                l == players@.len(),
                seatable_count(l as int),
                4 * fours + 5 * fives == l,
                tables@.len() == fives + j,
                forall|k: int| 0 <= k < fives + j ==> #[trigger] tables@[k]@
                    == partition_table(players@, k),
            decreases fours - j,
        {
            let t = sub_vec(players, 5 * fives + 4 * j, 5 * fives + 4 * j + 4);
            tables.push(t);
            j = j + 1;
        }
        let round = Round(tables);
        proof {
            assert(round@ =~= partition_spec(players@));
        }
        Ok(round)
    }

    /// Deep copy of a round.
    pub fn copy(round: Round) -> (r: Round)
        ensures
            r@ == round@,
    {
        let mut tables: Vec<Vec<i32>> = Vec::new();
        let mut i: usize = 0;
        while i < round.0.len()
            invariant
                i <= round.0@.len(),
                tables@.len() == i,
                forall|k: int| 0 <= k < i ==> #[trigger] tables@[k]@ == round@[k],
            decreases round.0@.len() - i,
        {
            tables.push(copy_table(&round.0[i]));
            i = i + 1;
        }
        let r = Round(tables);
        proof {
            assert(r@ =~= round@);
        }
        r
    }

    /// A copy of this round, leaving the original in place.
    pub fn duplicate(&self) -> (r: Round)
        ensures
            r@ == self@,
    {
        let mut tables: Vec<Vec<i32>> = Vec::new();
        let mut i: usize = 0;
        while i < self.0.len()
            invariant
                i <= self.0@.len(),
                tables@.len() == i,
                forall|k: int| 0 <= k < i ==> #[trigger] tables@[k]@ == self@[k],
            decreases self.0@.len() - i,
        {
            tables.push(copy_table(&self.0[i]));
            i = i + 1;
        }
        let r = Round(tables);
        proof {
            assert(r@ =~= self@);
        }
        r
    }

    /// The tables of the round, in order.
    pub fn iter_tables(self) -> (r: Vec<Vec<i32>>)
        ensures
            r@.len() == self@.len(),
            forall|k: int| 0 <= k < r@.len() ==> #[trigger] r@[k]@ == self@[k],
    {
        self.0
    }

    /// The players of the round in seating order: table 0's seats first.
    pub fn iter_players(&self) -> (r: Vec<i32>)
        ensures
            r@ == all_players(self@),
    {
        let mut r: Vec<i32> = Vec::new();
        let mut t: usize = 0;
        while t < self.0.len()
            invariant
                t <= self.0@.len(),
                r@ == all_players(self@.take(t as int)),
            decreases self.0@.len() - t,
        {
            let mut s: usize = 0;
            while s < self.0[t].len()
                invariant
                    t < self.0@.len(),
                    s <= self@[t as int].len(),
                    r@ == all_players(self@.take(t as int)) + self@[t as int].take(s as int),
                decreases self@[t as int].len() - s,
            {
                r.push(self.0[t][s]);
                assert(self@[t as int].take(s + 1 as int)
                    == self@[t as int].take(s as int).push(self@[t as int][s as int]));
                s = s + 1;
            }
            proof {
                self@.take(t as int).lemma_flatten_push(self@[t as int]);
                assert(self@.take(t + 1 as int) =~= self@.take(t as int).push(self@[t as int]));
                assert(self@[t as int].take(self@[t as int].len() as int) =~= self@[t as int]);
            }
            t = t + 1;
        }
        proof {
            assert(self@.take(self.0@.len() as int) =~= self@);
        }
        r
    }

    /// One tuple per seat, in seating order:
    /// (table number, seat position, table size, player).
    pub fn iter_table_players(self) -> (r: Vec<(usize, usize, usize, i32)>)
        ensures
            r@ == seat_tuples(self@),
    {
        let mut r: Vec<(usize, usize, usize, i32)> = Vec::new();
        let mut t: usize = 0;
        while t < self.0.len()
            invariant
                t <= self.0@.len(),
                r@ == seat_rows(self@).take(t as int).flatten(),
            decreases self.0@.len() - t,
        {
            let size = self.0[t].len();
            let mut s: usize = 0;
            while s < size
                invariant
                    t < self.0@.len(),
                    size == self@[t as int].len(),
                    s <= size,
                    r@ == seat_rows(self@).take(t as int).flatten()
                        + seat_row(self@, t as int).take(s as int),
                decreases size - s,
            {
                r.push((t, s, size, self.0[t][s]));
                assert(seat_row(self@, t as int).take(s + 1 as int)
                    == seat_row(self@, t as int).take(s as int).push(
                    seat_row(self@, t as int)[s as int]));
                s = s + 1;
            }
            proof {
                seat_rows(self@).take(t as int).lemma_flatten_push(seat_row(self@, t as int));
                assert(seat_rows(self@).take(t + 1 as int)
                    =~= seat_rows(self@).take(t as int).push(seat_row(self@, t as int)));
                assert(seat_row(self@, t as int).take(size as int) =~= seat_row(self@, t as int));
            }
            t = t + 1;
        }
        proof {
            assert(seat_rows(self@).take(self.0@.len() as int) =~= seat_rows(self@));
        }
        r
    }

    /// Number of tables.
    pub fn tables_count(self) -> (n: usize)
        ensures
            n == self@.len(),
    {
        self.0.len()
    }

    /// Number of seated players.
    pub fn players_count(self) -> (n: usize)
        ensures
            n == all_players(self@).len(),
    {
        self.iter_players().len()
    }

    /// Tables keyed by their index.
    pub fn _global_indexes(self) -> (r: HashMap<usize, Vec<i32>>)
        ensures
            forall|i: usize| i < self@.len() ==> #[trigger] r@.contains_key(i),
            forall|i: usize| i < self@.len() ==> #[trigger] r@[i]@ == self@[i as int],
            forall|i: usize| #[trigger] r@.contains_key(i) ==> i < self@.len(),
    {
        let mut r: HashMap<usize, Vec<i32>> = HashMap::new();
        let mut t: usize = 0;
        while t < self.0.len()
            invariant
                t <= self.0@.len(),
                forall|i: usize| i < t ==> #[trigger] r@.contains_key(i),
                forall|i: usize| i < t ==> #[trigger] r@[i]@ == self@[i as int],
                forall|i: usize| #[trigger] r@.contains_key(i) ==> i < t,
            decreases self.0@.len() - t,
        {
            let row = copy_table(&self.0[t]);
            let ghost rowv = row@;
            let ghost before = r@;
            r.insert(t, row);
            proof {
                assert(vstd::std_specs::hash::obeys_key_model::<usize>());
                assert(vstd::std_specs::hash::builds_valid_hashers::<
                    std::collections::hash_map::RandomState,
                >());
                assert(r@.contains_key(t));
                assert(r@[t]@ == rowv);
                assert(forall|i: usize| i < t ==> before.contains_key(i)
                    ==> #[trigger] r@.contains_key(i) && r@[i] == before[i]);
            }
            t = t + 1;
        }
        r
    }

    /// Turn a round-wide seat number into a (table, seat) pair; fails past
    /// the end of the round.
    pub fn __global_index_to_tuple(&self, index: usize) -> (r: Result<
        (usize, usize),
        RoundError,
    >)
        ensures
            match r {
                Ok(pair) => pair.0 < self@.len() && pair.1 < self@[pair.0 as int].len()
                    && seats_before(self@, pair.0 as int) + pair.1 == index
                    && index < all_players(self@).len()
                    && all_players(self@)[index as int] == self@[pair.0 as int][pair.1 as int],
                Err(RoundError::IndexError()) => index >= all_players(self@).len(),
                Err(_) => false,
            },
    {
        let mut rem = index;
        let mut t: usize = 0;
        while t < self.0.len()
            invariant
                t <= self.0@.len(),
                rem <= index,
                seats_before(self@, t as int) == index - rem,
            decreases self.0@.len() - t,
        {
            let tl = self.0[t].len();
            if rem >= tl {
                rem = rem - tl;
                assert(seats_before(self@, t + 1 as int)
                    == seats_before(self@, t as int) + self@[t as int].len());
                t = t + 1;
            } else {
                proof {
                    lemma_flat_seat(self@, t as int, rem as int);
                }
                return Ok((t, rem));
            }
        }
        proof {
            lemma_seats_before_is_flatten_len(self@, self.0@.len() as int);
            assert(self@.take(self.0@.len() as int) =~= self@);
        }
        Err(RoundError::IndexError())
    }

    /// The table at `index`, copied out.
    pub fn get_table(&self, index: usize) -> (r: Vec<i32>)
        requires
            index < self@.len(),
        ensures
            r@ == self@[index as int],
    {
        copy_table(&self.0[index])
    }

    /// Replace the table at `index`.
    pub fn set_table(&mut self, index: usize, value: Vec<i32>)
        requires
            index < old(self)@.len(),
        ensures
            final(self)@ == old(self)@.update(index as int, value@),
    {
        let ghost prev = self@;
        let ghost v = value@;
        self.0[index] = value;
        proof {
            assert(self@ =~= prev.update(index as int, v));
        }
    }

    /// The player at round-wide seat `index`.
    pub fn get_player(&self, index: usize) -> (r: i32)
        requires
            index < all_players(self@).len(),
        ensures
            r == all_players(self@)[index as int],
    {
        match self.__global_index_to_tuple(index) {
            Ok(pair) => self.0[pair.0][pair.1],
            Err(_) => {
                proof {
                    assert(false);
                }
                0
            },
        }
    }

    /// Seat `value` at round-wide seat `index`, keeping every table's size.
    pub fn set_player(&mut self, index: usize, value: i32)
        requires
            index < all_players(old(self)@).len(),
        ensures
            final(self)@.len() == old(self)@.len(),
            forall|k: int| 0 <= k < old(self)@.len() ==> #[trigger] final(self)@[k].len()
                == old(self)@[k].len(),
            all_players(final(self)@) == all_players(old(self)@).update(index as int, value),
    {
        let ghost prev = self@;
        match self.__global_index_to_tuple(index) {
            Ok(pair) => {
                let t = pair.0;
                let s = pair.1;
                let mut row = copy_table(&self.0[t]);
                row[s] = value;
                self.0[t] = row;
                proof {
                    assert(self@ =~= prev.update(t as int, prev[t as int].update(s as int, value)));
                    lemma_flatten_update(prev, t as int, s as int, value);
                }
            },
            Err(_) => {
                proof {
                    assert(false);
                }
            },
        }
    }

    /// Reseat the round's players in a pseudorandom order, keeping the table
    /// sizes: the new seating is a permutation of the old one.
    pub fn shuffle(&mut self)
        ensures
            final(self)@.len() == old(self)@.len(),
            forall|k: int| 0 <= k < old(self)@.len() ==> #[trigger] final(self)@[k].len()
                == old(self)@[k].len(),
            all_players(final(self)@).to_multiset() == all_players(old(self)@).to_multiset(),
    {
        let mut flat = self.iter_players();
        shuffle_players(&mut flat);
        let total = flat.len();
        let ghost orig = self@;
        let ghost fl = flat@;
        let mut cursor: usize = 0;
        let mut t: usize = 0;
        while t < self.0.len()
            invariant
                t <= orig.len(),
                self@.len() == orig.len(),
                flat@ == fl,
                total == fl.len(),
                fl.len() == all_players(orig).len(),
                forall|k: int| 0 <= k < orig.len() ==> #[trigger] self@[k].len() == orig[k].len(),
                forall|k: int| t <= k < orig.len() ==> #[trigger] self@[k] == orig[k],
                cursor == seats_before(orig, t as int),
                cursor <= fl.len(),
                all_players(self@.take(t as int)) == fl.take(cursor as int),
            decreases orig.len() - t,
        {
            proof {
                lemma_seats_before_is_flatten_len(orig, t as int);
                lemma_flatten_split(orig, t as int);
                assert(seats_before(orig, t + 1 as int)
                    == seats_before(orig, t as int) + orig[t as int].len());
                lemma_seats_before_is_flatten_len(orig, t + 1 as int);
                lemma_flatten_split(orig, t + 1 as int);
                assert(all_players(orig.take(t + 1 as int)).len() <= all_players(orig).len());
            }
            let size = self.0[t].len();
            proof {
                assert(self@[t as int] == orig[t as int]);
                assert(size == orig[t as int].len());
                assert(cursor + size == seats_before(orig, t + 1 as int));
                assert(cursor + size <= fl.len());
                assert(cursor + size <= total);
            }
            let mut row: Vec<i32> = Vec::new();
            let mut s: usize = 0;
            while s < size
                invariant
                    cursor + size <= total,
                    total == fl.len(),
                    s <= size,
                    flat@ == fl,
                    flat@.len() == fl.len(),
                    row@ == fl.subrange(cursor as int, cursor + s),
                decreases size - s,
            {
                row.push(flat[cursor + s]);
                assert(fl.subrange(cursor as int, cursor + s + 1)
                    == fl.subrange(cursor as int, cursor + s).push(fl[cursor + s]));
                s = s + 1;
            }
            let ghost prev = self@;
            self.0[t] = row;
            proof {
                assert(self@ =~= prev.update(t as int, fl.subrange(
                    cursor as int,
                    cursor + size,
                )));
                assert(self@.take(t + 1 as int) =~= self@.take(t as int).push(self@[t as int]));
                assert(self@.take(t as int) =~= prev.take(t as int));
                self@.take(t as int).lemma_flatten_push(self@[t as int]);
                assert(all_players(self@.take(t + 1 as int)) =~= fl.take(cursor + size));
            }
            cursor = cursor + size;
            t = t + 1;
        }
        proof {
            assert(self@.take(self@.len() as int) =~= self@);
            lemma_seats_before_is_flatten_len(orig, orig.len() as int);
            assert(orig.take(orig.len() as int) =~= orig);
            assert(fl.take(cursor as int) =~= fl);
        }
    }
}

/// Number of seats in the first `k` tables of the default partition of `l`
/// players.
pub open spec fn partition_seats(l: int, k: int) -> int {
    if k <= fives_of(l) {
        5 * k
    } else {
        5 * fives_of(l) + 4 * (k - fives_of(l))
    }
}

proof fn lemma_partition_flatten_prefix(players: Seq<i32>, k: int)
    requires
        seatable_count(players.len() as int),
        0 <= k <= fives_of(players.len() as int) + fours_of(players.len() as int),
    ensures
        all_players(partition_spec(players).take(k)) == players.take(
            partition_seats(players.len() as int, k),
        ),
    decreases k,
{
    let l = players.len() as int;
    let part = partition_spec(players);
    lemma_table_counts(l);
    if k == 0 {
        assert(part.take(0) =~= Seq::<Seq<i32>>::empty());
        assert(all_players(part.take(0)) =~= players.take(0));
    } else {
        lemma_partition_flatten_prefix(players, k - 1);
        assert(part.take(k) =~= part.take(k - 1).push(part[k - 1]));
        part.take(k - 1).lemma_flatten_push(part[k - 1]);
        let a = partition_seats(l, k - 1);
        let c: int = if k - 1 < fives_of(l) {
            5
        } else {
            4
        };
        assert(a + c == partition_seats(l, k));
        assert(partition_seats(l, k) <= l);
        assert(part[k - 1] == players.subrange(a, a + c));
        assert(players.take(a) + players.subrange(a, a + c) =~= players.take(a + c));
    }
}

/// Partition validity: for a seatable player count the default partition's
/// tables each hold 4 or 5 players, the 5-seat tables come first, and reading
/// the tables in order gives the input players back, so the table sizes sum
/// to the player count.
pub proof fn lemma_partition_valid(players: Seq<i32>)
    requires
        seatable_count(players.len() as int),
    ensures
        partition_spec(players).len() == fives_of(players.len() as int) + fours_of(
            players.len() as int,
        ),
        forall|t: int| 0 <= t < fives_of(players.len() as int)
            ==> #[trigger] partition_spec(players)[t].len() == 5,
        forall|t: int| fives_of(players.len() as int) <= t < partition_spec(players).len()
            ==> #[trigger] partition_spec(players)[t].len() == 4,
        all_players(partition_spec(players)) == players,
{
    let l = players.len() as int;
    let total = fives_of(l) + fours_of(l);
    lemma_table_counts(l);
    lemma_partition_flatten_prefix(players, total);
    assert(partition_spec(players).take(total) =~= partition_spec(players));
    assert(partition_seats(l, total) == l);
    assert(players.take(l) =~= players);
    assert forall|t: int| 0 <= t < total implies (#[trigger] partition_spec(players)[t].len()
        == if t < fives_of(l) {
        5int
    } else {
        4int
    }) by {
        assert(partition_seats(l, t) >= 0);
        assert(partition_seats(l, t + 1) <= l);
    }
}

/// The default partition uses the fewest possible 4-seat tables: any split of
/// `l` players into `a` tables of 4 and `b` tables of 5 has `a` at least
/// `fours_of(l)`.
pub proof fn lemma_fours_minimal(l: int, a: int, b: int)
    requires
        a >= 0,
        b >= 0,
        4 * a + 5 * b == l,
    ensures
        a >= fours_of(l),
{
    let r = a % 5;
    vstd::arithmetic::div_mod::lemma_mod_division_less_than_divisor(a, 5);
    vstd::arithmetic::div_mod::lemma_fundamental_div_mod(a, 5);
    let q = a / 5;
    assert(q >= 0) by {
        vstd::arithmetic::div_mod::lemma_div_basics_4(a, 5);
    }
    assert(a >= r);
    assert(l == 5 * (4 * q + b) + 4 * r);
    assert(l % 5 == (4 * r) % 5) by {
        vstd::arithmetic::div_mod::lemma_mod_multiples_vanish(4 * q + b, 4 * r, 5);
    }
    if r == 0 {
        assert(l % 5 == 0);
    } else if r == 1 {
        assert(l % 5 == 4);
    } else if r == 2 {
        assert(l % 5 == 3);
    } else if r == 3 {
        assert(l % 5 == 2);
    } else {
        assert(l % 5 == 1);
    }
}

/// Exchanging two tables' players for players of the other table keeps the
/// round's player multiset when the two tables trade equally.
proof fn lemma_two_table_multiset(tabs: Seq<Seq<i32>>, lo: int, hi: int, lt: Seq<i32>, ht: Seq<i32>)
    requires
        0 <= lo < hi < tabs.len(),
        lt.to_multiset().add(ht.to_multiset()) == tabs[lo].to_multiset().add(
            tabs[hi].to_multiset(),
        ),
    ensures
        all_players(tabs.update(lo, lt).update(hi, ht)).to_multiset() == all_players(
            tabs,
        ).to_multiset(),
{
    broadcast use vstd::multiset::group_multiset_axioms;

    let tabs2 = tabs.update(lo, lt).update(hi, ht);
    lemma_five_way(tabs, lo, hi);
    lemma_five_way(tabs2, lo, hi);
    assert(tabs2.take(lo) =~= tabs.take(lo));
    assert(tabs2.subrange(lo + 1, hi) =~= tabs.subrange(lo + 1, hi));
    assert(tabs2.skip(hi + 1) =~= tabs.skip(hi + 1));
    let a = all_players(tabs.take(lo)).to_multiset();
    let c = all_players(tabs.subrange(lo + 1, hi)).to_multiset();
    let e = all_players(tabs.skip(hi + 1)).to_multiset();
    assert(all_players(tabs).to_multiset() == a.add(tabs[lo].to_multiset()).add(c).add(
        tabs[hi].to_multiset(),
    ).add(e));
    assert(all_players(tabs2).to_multiset() == a.add(lt.to_multiset()).add(c).add(
        ht.to_multiset(),
    ).add(e));
    assert forall|x: i32|
        a.add(lt.to_multiset()).add(c).add(ht.to_multiset()).add(e).count(x) == a.add(
            tabs[lo].to_multiset(),
        ).add(c).add(tabs[hi].to_multiset()).add(e).count(x) by {
        assert(lt.to_multiset().add(ht.to_multiset()).count(x) == tabs[lo].to_multiset().add(
            tabs[hi].to_multiset(),
        ).count(x));
        assert(lt.to_multiset().add(ht.to_multiset()).count(x) == lt.to_multiset().count(x)
            + ht.to_multiset().count(x));
        assert(tabs[lo].to_multiset().add(tabs[hi].to_multiset()).count(x)
            == tabs[lo].to_multiset().count(x) + tabs[hi].to_multiset().count(x));
        assert(a.add(lt.to_multiset()).add(c).add(ht.to_multiset()).add(e).count(x) == a.count(x)
            + lt.to_multiset().count(x) + c.count(x) + ht.to_multiset().count(x) + e.count(x));
        assert(a.add(tabs[lo].to_multiset()).add(c).add(tabs[hi].to_multiset()).add(e).count(x)
            == a.count(x) + tabs[lo].to_multiset().count(x) + c.count(x)
            + tabs[hi].to_multiset().count(x) + e.count(x));
    }
    assert(a.add(lt.to_multiset()).add(c).add(ht.to_multiset()).add(e) =~= a.add(
        tabs[lo].to_multiset(),
    ).add(c).add(tabs[hi].to_multiset()).add(e));
}

/// A round's players split as five blocks around two chosen tables, and so
/// does their multiset.
proof fn lemma_five_way(tabs: Seq<Seq<i32>>, lo: int, hi: int)
    requires
        0 <= lo < hi < tabs.len(),
    ensures
        all_players(tabs).to_multiset() == all_players(tabs.take(lo)).to_multiset().add(
            tabs[lo].to_multiset(),
        ).add(all_players(tabs.subrange(lo + 1, hi)).to_multiset()).add(
            tabs[hi].to_multiset(),
        ).add(all_players(tabs.skip(hi + 1)).to_multiset()),
{
    broadcast use vstd::seq_lib::lemma_seq_union_to_multiset_commutative;
    broadcast use vstd::multiset::group_multiset_axioms;

    let b1 = tabs.take(lo);
    let b2 = seq![tabs[lo]];
    let b3 = tabs.subrange(lo + 1, hi);
    let b4 = seq![tabs[hi]];
    let b5 = tabs.skip(hi + 1);
    assert(tabs =~= b1 + b2 + b3 + b4 + b5);
    vstd::seq_lib::lemma_flatten_concat(b1 + b2 + b3 + b4, b5);
    vstd::seq_lib::lemma_flatten_concat(b1 + b2 + b3, b4);
    vstd::seq_lib::lemma_flatten_concat(b1 + b2, b3);
    vstd::seq_lib::lemma_flatten_concat(b1, b2);
    b2.lemma_flatten_one_element();
    b4.lemma_flatten_one_element();
    assert(b2.flatten() == tabs[lo]);
    assert(b4.flatten() == tabs[hi]);
    assert(all_players(tabs) == b1.flatten() + b2.flatten() + b3.flatten() + b4.flatten()
        + b5.flatten());
    vstd::seq_lib::lemma_multiset_commutative(b1.flatten(), b2.flatten());
    vstd::seq_lib::lemma_multiset_commutative(b1.flatten() + b2.flatten(), b3.flatten());
    vstd::seq_lib::lemma_multiset_commutative(
        b1.flatten() + b2.flatten() + b3.flatten(),
        b4.flatten(),
    );
    vstd::seq_lib::lemma_multiset_commutative(
        b1.flatten() + b2.flatten() + b3.flatten() + b4.flatten(),
        b5.flatten(),
    );
}

impl Round {
    /// Swap the players in seat `sa` of table `a` and seat `sb` of table
    /// `b`: the move the seating search is built from. Table sizes and the
    /// round's player multiset are unchanged.
    pub fn swap_seats(&mut self, a: usize, sa: usize, b: usize, sb: usize)
        requires
            a < old(self)@.len(),
            b < old(self)@.len(),
            a != b,
            sa < old(self)@[a as int].len(),
            sb < old(self)@[b as int].len(),
        ensures
            final(self)@ == old(self)@.update(
                a as int,
                old(self)@[a as int].update(sa as int, old(self)@[b as int][sb as int]),
            ).update(b as int, old(self)@[b as int].update(sb as int, old(self)@[a as int][sa as int])),
            final(self)@.len() == old(self)@.len(),
            forall|k: int| 0 <= k < old(self)@.len() ==> #[trigger] final(self)@[k].len()
                == old(self)@[k].len(),
            all_players(final(self)@).to_multiset() == all_players(old(self)@).to_multiset(),
    {
        let ghost prev = self@;
        let pa = self.0[a][sa];
        let pb = self.0[b][sb];
        let mut ta = copy_table(&self.0[a]);
        let mut tb = copy_table(&self.0[b]);
        ta[sa] = pb;
        tb[sb] = pa;
        let ghost tav = ta@;
        let ghost tbv = tb@;
        self.0[a] = ta;
        self.0[b] = tb;
        proof {
            broadcast use vstd::seq_lib::group_seq_lib_default;
            broadcast use vstd::seq_lib::group_to_multiset_ensures;
            broadcast use vstd::multiset::group_multiset_axioms;

            assert(self@ =~= prev.update(a as int, tav).update(b as int, tbv));
            assert(tav == prev[a as int].update(sa as int, pb));
            assert(tbv == prev[b as int].update(sb as int, pa));
            let ma = prev[a as int].to_multiset();
            let mb = prev[b as int].to_multiset();
            assert(prev[a as int].contains(pa));
            assert(prev[b as int].contains(pb));
            assert(ma.count(pa) >= 1);
            assert(mb.count(pb) >= 1);
            assert(tav.to_multiset() == ma.insert(pb).remove(pa));
            assert(tbv.to_multiset() == mb.insert(pa).remove(pb));
            assert(tav.to_multiset().add(tbv.to_multiset()) =~= ma.add(mb));
            if a < b {
                lemma_two_table_multiset(prev, a as int, b as int, tav, tbv);
            } else {
                assert(prev.update(a as int, tav).update(b as int, tbv) =~= prev.update(
                    b as int,
                    tbv,
                ).update(a as int, tav));
                assert(tbv.to_multiset().add(tav.to_multiset()) =~= prev[b as int].to_multiset().add(
                    prev[a as int].to_multiset(),
                ));
                lemma_two_table_multiset(prev, b as int, a as int, tbv, tav);
            }
        }
    }
}

/// The seat tuple for table `t`, seat `s` of a round.
pub open spec fn seat_row(tabs: Seq<Seq<i32>>, t: int) -> Seq<(usize, usize, usize, i32)> {
    Seq::new(
        tabs[t].len(),
        |s: int| (t as usize, s as usize, tabs[t].len() as usize, tabs[t][s]),
    )
}

/// One row of seat tuples per table.
pub open spec fn seat_rows(tabs: Seq<Seq<i32>>) -> Seq<Seq<(usize, usize, usize, i32)>> {
    Seq::new(tabs.len(), |t: int| seat_row(tabs, t))
}

/// All seat tuples of a round, in seating order.
pub open spec fn seat_tuples(tabs: Seq<Seq<i32>>) -> Seq<(usize, usize, usize, i32)> {
    seat_rows(tabs).flatten()
}

} // verus!

