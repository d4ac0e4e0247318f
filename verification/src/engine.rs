//! The state of the platform and what is always true of it.
//!
//! Every operation of the engine takes the identity of the caller, and the
//! current time in milliseconds where it needs one. An operation that is
//! refused returns the reason and leaves the engine exactly as it was.

use vstd::prelude::*;
use crate::escrow::{CommissionPool, EscrowLedger};
use crate::prizes::{BASIS_POINTS, MIN_COMMISSION_RATE, MIN_QUORUM};
use crate::types::{
    game_types_view, lemma_stake_sum_monotone, stake_sum, strings_view, tournaments_view, GameType, GameTypeView, PlayerView,
    Tournament, TournamentState, TournamentView,
};

verus! {

/// The whole state of the platform.
#[derive(Debug)]
pub struct Wordchain {
    pub paused: bool,
    pub owner: String,
    pub pending_owner: String,
    pub min_tournament_players: u8,
    pub stake_payouts: CommissionPool,
    pub percentage_stake_commission: u64,
    pub game_types: Vec<GameType>,
    pub tournaments: Vec<Tournament>,
    pub supported_countries: Vec<String>,
    pub stakes: EscrowLedger,
}

/// The view of the platform: each part by its own view.
pub struct WordchainView {
    pub paused: bool,
    pub owner: Seq<char>,
    pub pending_owner: Seq<char>,
    pub min_tournament_players: u8,
    pub stake_payouts: Map<Seq<char>, u128>,
    pub percentage_stake_commission: u64,
    pub game_types: Seq<GameTypeView>,
    pub tournaments: Seq<TournamentView>,
    pub supported_countries: Seq<Seq<char>>,
    pub stakes: Map<(Seq<char>, Seq<char>), u128>,
}

impl WordchainView {
    /// The commission rate and the quorum are within their bounds; the
    /// tournaments can be counted by the machine; the id of a tournament is
    /// its place in the registry, counted from one; no two tournaments share
    /// a name or a key; each tournament is well formed; and the game type of
    /// each tournament is registered and bounds the scores of its players.
    pub open spec fn wf(self) -> bool {
        &&& 1000 <= self.percentage_stake_commission <= 10000
        &&& self.tournaments.len() <= usize::MAX
        &&& self.min_tournament_players >= 4
        &&& forall|i: int|
            0 <= i < self.tournaments.len() ==> {
                &&& (#[trigger] self.tournaments[i]).id == i + 1
                &&& self.tournaments[i].wf()
            }
        &&& forall|i: int, j: int|
            0 <= i < j < self.tournaments.len() ==> {
                &&& (#[trigger] self.tournaments[i]).name != (#[trigger] self.tournaments[j]).name
                &&& self.tournaments[i].tournament_key != self.tournaments[j].tournament_key
            }
        &&& forall|i: int|
            0 <= i < self.tournaments.len() ==> scores_within_bounds(
                self.game_types,
                #[trigger] self.tournaments[i],
            )
    }

    /// Whether `id` is the id of a tournament in the registry.
    pub open spec fn has_tournament(self, id: u128) -> bool {
        1 <= id <= self.tournaments.len()
    }

    /// The tournament with the id `id`.
    pub open spec fn tournament(self, id: u128) -> TournamentView
        recommends
            self.has_tournament(id),
    {
        self.tournaments[id - 1]
    }

    /// What `depositor` holds in escrow of `token`, if a deposit was ever made.
    pub open spec fn escrow(self, depositor: Seq<char>, token: Seq<char>) -> Option<u128> {
        if self.stakes.contains_key((depositor, token)) {
            Some(self.stakes[(depositor, token)])
        } else {
            None
        }
    }
}

impl View for Wordchain {
    type V = WordchainView;

    open spec fn view(&self) -> WordchainView {
        WordchainView {
            paused: self.paused,
            owner: self.owner@,
            pending_owner: self.pending_owner@,
            min_tournament_players: self.min_tournament_players,
            stake_payouts: self.stake_payouts@,
            percentage_stake_commission: self.percentage_stake_commission,
            game_types: game_types_view(self.game_types@),
            tournaments: tournaments_view(self.tournaments@),
            supported_countries: strings_view(self.supported_countries@),
            stakes: self.stakes@,
        }
    }
}

/// Whether a tournament in the state `from` may be in the state `to` later:
/// it may stay as it is, become active or closed while it waits for players,
/// and become closed while it is active. Nothing leads out of closed, and
/// nothing leads back.
pub open spec fn moves_forward(from: TournamentState, to: TournamentState) -> bool {
    ||| from == to
    ||| from == TournamentState::PENDING_VOLUME && to == TournamentState::ACTIVE
    ||| from == TournamentState::PENDING_VOLUME && to == TournamentState::CLOSED
    ||| from == TournamentState::ACTIVE && to == TournamentState::CLOSED
}

/// A player as it may be later: the same player, with no lower a score and
/// no fewer games.
pub open spec fn player_evolves(from: PlayerView, to: PlayerView) -> bool {
    &&& to.id == from.id
    &&& to.account_id == from.account_id
    &&& to.stake_amount == from.stake_amount
    &&& to.join_date == from.join_date
    &&& to.score >= from.score
    &&& to.number_of_games_played >= from.number_of_games_played
}

/// A tournament as it may be later: its state has not moved backward, a
/// closed tournament is as it was, and the players that it had are still
/// there, in their places.
pub open spec fn tournament_evolves(from: TournamentView, to: TournamentView) -> bool {
    &&& moves_forward(from.status, to.status)
    &&& from.status == TournamentState::CLOSED ==> to == from
    &&& to.id == from.id
    &&& to.name == from.name
    &&& to.tournament_key == from.tournament_key
    &&& to.owner == from.owner
    &&& from.players.len() <= to.players.len()
    &&& forall|k: int|
        0 <= k < from.players.len() ==> player_evolves(#[trigger] from.players[k], to.players[k])
}

/// The platform as it may be later: every tournament that it had is still
/// there, in its place, and has evolved.
pub open spec fn evolves(from: WordchainView, to: WordchainView) -> bool {
    &&& from.tournaments.len() <= to.tournaments.len()
    &&& forall|i: int|
        0 <= i < from.tournaments.len() ==> tournament_evolves(
            #[trigger] from.tournaments[i],
            to.tournaments[i],
        )
}

/// The key that a caller gave, the empty string where none was given.
pub open spec fn key_or_empty(key: Option<Seq<char>>) -> Seq<char> {
    match key {
        Some(k) => k,
        None => Seq::<char>::empty(),
    }
}

/// The views of an optional string.
pub open spec fn option_view(s: Option<String>) -> Option<Seq<char>> {
    match s {
        Some(k) => Some(k@),
        None => None,
    }
}

/// Whether `i` is the place of the first game type with the identifier `id`.
pub open spec fn is_first_game_type(gs: Seq<GameTypeView>, id: Seq<char>, i: int) -> bool {
    &&& 0 <= i < gs.len()
    &&& gs[i].identifier == id
    &&& forall|j: int| 0 <= j < i ==> (#[trigger] gs[j]).identifier != id
}

/// Whether a game type with the identifier `id` is registered.
pub open spec fn has_game_type(gs: Seq<GameTypeView>, id: Seq<char>) -> bool {
    exists|i: int| 0 <= i < gs.len() && (#[trigger] gs[i]).identifier == id
}

/// The highest score of one game of the game type `id`: that of the first
/// game type registered under the identifier.
pub open spec fn max_score_of(gs: Seq<GameTypeView>, id: Seq<char>) -> u64
    recommends
        has_game_type(gs, id),
{
    gs[choose|i: int| is_first_game_type(gs, id, i)].max_score
}

/// The game type of the tournament is registered, and no player has scored
/// more than the highest score of one game for each game played.
pub open spec fn scores_within_bounds(gs: Seq<GameTypeView>, t: TournamentView) -> bool {
    &&& has_game_type(gs, t.game_type_id)
    &&& forall|k: int|
        0 <= k < t.players.len() ==> (#[trigger] t.players[k]).score <= max_score_of(
            gs,
            t.game_type_id,
        ) * t.players[k].number_of_games_played
}

/// Where a game type has the identifier `id`, one is the first that has it.
pub proof fn lemma_first_game_type_exists(gs: Seq<GameTypeView>, id: Seq<char>, w: int)
    requires
        0 <= w < gs.len(),
        gs[w].identifier == id,
    ensures
        exists|f: int| is_first_game_type(gs, id, f),
    decreases w,
{
    if exists|j: int| 0 <= j < w && (#[trigger] gs[j]).identifier == id {
        let j = choose|j: int| 0 <= j < w && (#[trigger] gs[j]).identifier == id;
        lemma_first_game_type_exists(gs, id, j);
    } else {
        assert(is_first_game_type(gs, id, w));
    }
}

/// A game type registered later changes nothing for the identifiers that
/// were registered before.
pub proof fn lemma_first_game_type_stays(gs: Seq<GameTypeView>, g: GameTypeView, id: Seq<char>)
    requires
        has_game_type(gs, id),
    ensures
        has_game_type(gs.push(g), id),
        max_score_of(gs.push(g), id) == max_score_of(gs, id),
{
    let w = choose|i: int| 0 <= i < gs.len() && (#[trigger] gs[i]).identifier == id;
    lemma_first_game_type_exists(gs, id, w);
    let f = choose|i: int| is_first_game_type(gs, id, i);
    assert(gs.push(g)[w] == gs[w]);
    assert forall|j: int| 0 <= j < f implies (#[trigger] gs.push(g)[j]).identifier != id by {
        assert(gs.push(g)[j] == gs[j]);
    }
    assert(gs.push(g)[f] == gs[f]);
    assert(is_first_game_type(gs.push(g), id, f));
    let b = choose|i: int| is_first_game_type(gs.push(g), id, i);
    assert(b == f);
}

impl Wordchain {
    /// The view is well formed, and so are the ledger and the pool.
    pub open spec fn wf(&self) -> bool {
        &&& self@.wf()
        &&& self.stakes.wf()
        &&& self.stake_payouts.wf()
    }

    /// The place in the registry of the tournament with the id `id`.
    pub(crate) fn resolve(&self, tournament_id: u128) -> (r: Option<usize>)
        ensures
            match r {
                Some(i) => self@.has_tournament(tournament_id) && i == tournament_id - 1,
                None => !self@.has_tournament(tournament_id),
            },
    {
        let n: usize = self.tournaments.len();
        if tournament_id >= 1 && tournament_id <= n as u128 {
            Some((tournament_id - 1) as usize)
        } else {
            None
        }
    }

    pub(crate) fn find_game_type(&self, identifier: &String) -> (r: Option<usize>)
        ensures
            match r {
                Some(i) => is_first_game_type(self@.game_types, identifier@, i as int),
                None => !has_game_type(self@.game_types, identifier@),
            },
    {
        let mut i: usize = 0;
        while i < self.game_types.len()
            invariant
                i <= self.game_types@.len(),
                forall|j: int|
                    0 <= j < i ==> (#[trigger] self@.game_types[j]).identifier != identifier@,
            decreases self.game_types@.len() - i,
        {
            if self.game_types[i].identifier == *identifier {
                assert(self@.game_types[i as int] == self.game_types[i as int]@);
                return Some(i);
            }
            assert(self@.game_types[i as int] == self.game_types[i as int]@);
            i = i + 1;
        }
        None
    }

    /// Decides whether the tournament at `i` has its place as its id, is
    /// well formed and keeps its scores within the bounds of its game type.
    fn check_tournament(&self, i: usize) -> (r: bool)
        requires
            i < self.tournaments@.len(),
        ensures
            r == ({
                &&& self@.tournaments[i as int].id == i + 1
                &&& self@.tournaments[i as int].wf()
                &&& scores_within_bounds(self@.game_types, self@.tournaments[i as int])
            }),
    {
        let t = &self.tournaments[i];
        let ghost tv = self@.tournaments[i as int];
        assert(tv == t@);
        assert(t.players.len() == t.players@.len());
        if t.id != i as u128 + 1 {
            return false;
        }
        let n: usize = t.players.len();
        match t.status {
            TournamentState::ACTIVE => {
                if n < 4 {
                    return false;
                }
            },
            _ => {},
        }
        let g: usize = match self.find_game_type(&t.game_type_id) {
            Some(g) => g,
            None => { return false; },
        };
        assert(self@.game_types[g as int] == self.game_types[g as int]@);
        assert(self.game_types[g as int].max_score == max_score_of(
            self@.game_types,
            tv.game_type_id,
        )) by {
            let c = choose|k: int| is_first_game_type(self@.game_types, tv.game_type_id, k);
            assert(is_first_game_type(self@.game_types, tv.game_type_id, g as int));
            assert(c == g);
        }
        let max: u128 = self.game_types[g].max_score as u128;
        let mut staked: u128 = 0;
        let mut k: usize = 0;
        while k < n
            invariant
                k <= n,
                staked == stake_sum(tv.players.take(k as int)),
                staked <= t.total_stake,
                n == t.players@.len(),
                tv == t@,
                i < self.tournaments@.len(),
                tv == self@.tournaments[i as int],
                has_game_type(self@.game_types, tv.game_type_id),
                max == max_score_of(self@.game_types, tv.game_type_id),
                forall|a: int| 0 <= a < k ==> (#[trigger] tv.players[a]).id == a + 1,
                forall|a: int|
                    0 <= a < k ==> (#[trigger] tv.players[a]).score <= max
                        * tv.players[a].number_of_games_played,
            decreases n - k,
        {
            let p = &t.players[k];
            proof {
                assert(tv.players[k as int] == p@);
                assert(tv.players.take(k + 1).drop_last() =~= tv.players.take(k as int));
                lemma_stake_sum_monotone(tv.players, k + 1);
            }
            if p.id != k as u128 + 1 {
                return false;
            }
            if p.stake_amount > t.total_stake - staked {
                return false;
            }
            staked = staked + p.stake_amount;
            let games: u128 = p.number_of_games_played as u128;
            assert(max * games <= 0xffff_ffff_ffff_ffff * 0xffff_ffff_ffff_ffff) by (nonlinear_arith)
                requires
                    0 <= max <= 0xffff_ffff_ffff_ffff,
                    0 <= games <= 0xffff_ffff_ffff_ffff,
            ;
            if p.score as u128 > max * games {
                return false;
            }
            k = k + 1;
        }
        assert(tv.players.take(n as int) =~= tv.players);
        true
    }

    /// Decides `wf`: whether a value that was put together outside the
    /// engine may be handed to its operations.
    pub fn check_wf(&self) -> (r: bool)
        ensures
            r == self.wf(),
    {
        if self.percentage_stake_commission < MIN_COMMISSION_RATE
            || self.percentage_stake_commission > BASIS_POINTS {
            return false;
        }
        if self.min_tournament_players < MIN_QUORUM {
            return false;
        }
        if !self.stakes.check_wf() || !self.stake_payouts.check_wf() {
            return false;
        }
        let n: usize = self.tournaments.len();
        let ghost ts = self@.tournaments;
        let mut j: usize = 0;
        while j < n
            invariant
                j <= n,
                n == self.tournaments@.len(),
                ts == self@.tournaments,
                forall|a: int|
                    0 <= a < j ==> {
                        &&& (#[trigger] ts[a]).id == a + 1
                        &&& ts[a].wf()
                        &&& scores_within_bounds(self@.game_types, ts[a])
                    },
                forall|a: int, b: int|
                    0 <= a < b < j ==> {
                        &&& (#[trigger] ts[a]).name != (#[trigger] ts[b]).name
                        &&& ts[a].tournament_key != ts[b].tournament_key
                    },
            decreases n - j,
        {
            if !self.check_tournament(j) {
                return false;
            }
            let mut i: usize = 0;
            while i < j
                invariant
                    i <= j < n,
                    n == self.tournaments@.len(),
                    ts == self@.tournaments,
                    forall|a: int|
                        0 <= a < i ==> {
                            &&& (#[trigger] ts[a]).name != ts[j as int].name
                            &&& ts[a].tournament_key != ts[j as int].tournament_key
                        },
                decreases j - i,
            {
                assert(ts[i as int] == self.tournaments[i as int]@);
                assert(ts[j as int] == self.tournaments[j as int]@);
                if self.tournaments[i].name == self.tournaments[j].name
                    || self.tournaments[i].tournament_key == self.tournaments[j].tournament_key {
                    return false;
                }
                i = i + 1;
            }
            j = j + 1;
        }
        true
    }
}

} // verus!
