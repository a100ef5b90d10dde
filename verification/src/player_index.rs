//! A bijection from player identifiers to dense indices `0..N`, assigned in
//! first-encounter order. Measures are matrices keyed by these indices.

use crate::round::all_players;
use crate::round::Round;
use crate::round::RoundError;
use vstd::prelude::*;

verus! {

/// Players in first-encounter order; a player's index is its position.
pub struct PlayerIndex {
    players: Vec<i32>,
}

impl View for PlayerIndex {
    type V = Seq<i32>;

    closed spec fn view(&self) -> Seq<i32> {
        self.players@
    }
}

/// The players of `rs`, round by round, in seating order.
pub open spec fn flat_all(rs: Seq<Round>) -> Seq<i32>
    decreases rs.len(),
{
    if rs.len() == 0 {
        Seq::empty()
    } else {
        flat_all(rs.drop_last()) + all_players(rs.last()@)
    }
}

/// `s` with every later repetition of a player removed: each player keeps
/// only its first position.
pub open spec fn first_encounters(s: Seq<i32>) -> Seq<i32>
    decreases s.len(),
{
    if s.len() == 0 {
        Seq::empty()
    } else {
        let d = first_encounters(s.drop_last());
        if d.contains(s.last()) {
            d
        } else {
            d.push(s.last())
        }
    }
}

/// `first_encounters` keeps exactly the players of its input.
pub proof fn lemma_first_encounters_contains(s: Seq<i32>)
    ensures
        forall|p: i32| first_encounters(s).contains(p) <==> s.contains(p),
    decreases s.len(),
{
    if s.len() > 0 {
        lemma_first_encounters_contains(s.drop_last());
        let d = first_encounters(s.drop_last());
        assert forall|p: i32| first_encounters(s).contains(p) implies s.contains(p) by {
            let e = first_encounters(s);
            let i = choose|i: int| 0 <= i < e.len() && e[i] == p;
            if i < d.len() {
                assert(d[i] == p);
                assert(d.contains(p)) by {
                    assert(0 <= i < d.len() && d[i] == p);
                }
                assert(s.drop_last().contains(p));
                let j = choose|j: int| 0 <= j < s.drop_last().len() && s.drop_last()[j] == p;
                assert(s[j] == p);
            } else {
                assert(p == s.last());
                assert(s[s.len() - 1] == p);
            }
        }
        assert forall|p: i32| s.contains(p) implies first_encounters(s).contains(p) by {
            let i = choose|i: int| 0 <= i < s.len() && s[i] == p;
            if i < s.len() - 1 {
                assert(s.drop_last()[i] == p);
                assert(s.drop_last().contains(p)) by {
                    assert(0 <= i < s.drop_last().len() && s.drop_last()[i] == p);
                }
                assert(d.contains(p));
                if !d.contains(s.last()) {
                    assert(d.push(s.last())[choose|j: int|
                        0 <= j < d.len() && d[j] == p] == p);
                }
            } else {
                assert(p == s.last());
                if !d.contains(p) {
                    assert(d.push(p).last() == p);
                } else {
                }
            }
        }
    }
}

impl PlayerIndex {
    /// No player appears twice: positions are a bijection onto `0..N`.
    pub open spec fn wf(&self) -> bool {
        forall|i: int, j: int| 0 <= i < j < self@.len() ==> self@[i] != self@[j]
    }

    /// The index of player `p` (meaningful when `p` is registered and the
    /// index is well formed).
    pub open spec fn index_spec(&self, p: i32) -> int {
        self@.index_of(p)
    }

    /// An empty index.
    pub fn new() -> (r: PlayerIndex)
        ensures
            r@ == Seq::<i32>::empty(),
            r.wf(),
    {
        PlayerIndex { players: Vec::new() }
    }

    /// Number of registered players.
    pub fn len(&self) -> (n: usize)
        ensures
            n == self@.len(),
    {
        self.players.len()
    }

    /// The dense index of `p`; fails for a player never registered.
    pub fn index_of(&self, p: i32) -> (r: Result<usize, RoundError>)
        ensures
            match r {
                Ok(i) => i < self@.len() && self@[i as int] == p && (forall|j: int|
                    0 <= j < i ==> self@[j] != p) && (self.wf() ==> i == self.index_spec(p)),
                Err(RoundError::UnknownPlayer(q)) => q == p && !self@.contains(p),
                Err(_) => false,
            },
    {
        let mut i: usize = 0;
        while i < self.players.len()
            invariant
                i <= self@.len(),
                forall|j: int| 0 <= j < i ==> self@[j] != p,
            decreases self@.len() - i,
        {
            if self.players[i] == p {
                proof {
                    if self.wf() {
                        assert(self@.contains(p));
                        let j = self@.index_of(p);
                        assert(0 <= j < self@.len() && self@[j] == p);
                        assert(j == i);
                    }
                }
                return Ok(i);
            }
            i = i + 1;
        }
        proof {
            if self@.contains(p) {
                let j = choose|j: int| 0 <= j < self@.len() && self@[j] == p;
                assert(false);
            }
        }
        Err(RoundError::UnknownPlayer(p))
    }

    /// The player at dense index `index`; fails past the end.
    pub fn player_at(&self, index: usize) -> (r: Result<i32, RoundError>)
        ensures
            match r {
                Ok(p) => index < self@.len() && p == self@[index as int],
                Err(RoundError::IndexError()) => index >= self@.len(),
                Err(_) => false,
            },
    {
        if index < self.players.len() {
            Ok(self.players[index])
        } else {
            Err(RoundError::IndexError())
        }
    }

    /// Register `p` if it is new; a registered player keeps its index.
    pub fn register(&mut self, p: i32)
        requires
            old(self).wf(),
        ensures
            final(self).wf(),
            final(self)@ == if old(self)@.contains(p) {
                old(self)@
            } else {
                old(self)@.push(p)
            },
    {
        match self.index_of(p) {
            Ok(_) => {
                proof {
                    assert(old(self)@.contains(p));
                }
            },
            Err(_) => {
                proof {
                    assert(!old(self)@.contains(p));
                }
                self.players.push(p);
                proof {
                    assert forall|i: int, j: int| 0 <= i < j < self@.len() implies self@[i]
                        != self@[j] by {
                        if j == self@.len() - 1 {
                            assert(old(self)@[i] == self@[i]);
                            if self@[i] == p {
                                assert(old(self)@.contains(p));
                            }
                        }
                    }
                }
            },
        }
    }
}

/// Build the player index for a set of rounds: every player that appears in
/// any round is registered, in first-encounter order (rounds in order, each
/// round in seating order).
pub fn player_mapping(rounds: &Vec<Round>) -> (r: PlayerIndex)
    ensures
        r.wf(),
        r@ == first_encounters(flat_all(rounds@)),
        forall|p: i32| r@.contains(p) <==> flat_all(rounds@).contains(p),
{
    let mut r = PlayerIndex::new();
    let mut k: usize = 0;
    proof {
        assert(r@ =~= first_encounters(flat_all(rounds@.take(0))));
        assert(flat_all(rounds@.take(0)) =~= Seq::<i32>::empty());
    }
    while k < rounds.len()
        invariant
            k <= rounds@.len(),
            r.wf(),
            r@ == first_encounters(flat_all(rounds@.take(k as int))),
        decreases rounds@.len() - k,
    {
        let fp = rounds[k].iter_players();
        let ghost before = flat_all(rounds@.take(k as int));
        let mut s: usize = 0;
        while s < fp.len()
            invariant
                s <= fp@.len(),
                r.wf(),
                fp@ == all_players(rounds@[k as int]@),
                k < rounds@.len(),
                before == flat_all(rounds@.take(k as int)),
                r@ == first_encounters(before + fp@.take(s as int)),
            decreases fp@.len() - s,
        {
            let ghost pre = before + fp@.take(s as int);
            r.register(fp[s]);
            proof {
                assert(before + fp@.take(s + 1 as int) =~= pre.push(fp@[s as int]));
                assert((pre.push(fp@[s as int])).drop_last() =~= pre);
                assert(first_encounters(pre.push(fp@[s as int])) == if first_encounters(
                    pre,
                ).contains(fp@[s as int]) {
                    first_encounters(pre)
                } else {
                    first_encounters(pre).push(fp@[s as int])
                });
            }
            s = s + 1;
        }
        proof {
            assert(rounds@.take(k + 1 as int).drop_last() =~= rounds@.take(k as int));
            assert(rounds@.take(k + 1 as int).last() == rounds@[k as int]);
            assert(flat_all(rounds@.take(k + 1 as int)) == before + all_players(
                rounds@[k as int]@,
            ));
            assert(fp@.take(fp@.len() as int) =~= fp@);
        }
        k = k + 1;
    }
    proof {
        assert(rounds@.take(rounds@.len() as int) =~= rounds@);
        lemma_first_encounters_contains(flat_all(rounds@));
    }
    r
}

} // verus!
