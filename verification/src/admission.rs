//! Admission: who may join a tournament, and what joining does.

use vstd::prelude::*;
use crate::engine::{evolves, key_or_empty, option_view, Wordchain, WordchainView};
use crate::types::{
    lemma_stake_sum_push, Error, PlayerView, TournamentPlayer, TournamentState, TournamentType, TournamentView,
};

verus! {

/// Why `caller` may not join the tournament `id` at time `now`, if there is a
/// reason; the first that applies, in this order.
pub open spec fn join_refusal(
    pre: WordchainView,
    caller: Seq<char>,
    now: u64,
    id: u128,
    country: Seq<char>,
    key: Option<Seq<char>>,
) -> Option<Error> {
    if !pre.has_tournament(id) {
        Some(Error::NotFound)
    } else {
        let t = pre.tournament(id);
        let held = pre.escrow(caller, t.ft_address);
        if t.owner == caller {
            Some(Error::Forbidden)
        } else if now >= t.tournament_deadline {
            Some(Error::DeadlinePassed)
        } else if t.status == TournamentState::CLOSED {
            Some(Error::AlreadyClosed)
        } else if t.tournament_type == TournamentType::PRIVATE && key_or_empty(key)
            != t.tournament_key {
            Some(Error::Unauthorized)
        } else if t.tournament_type == TournamentType::COUNTRY_BASED && country != t.country {
            Some(Error::InvalidCountry)
        } else if held is None || held->0 < t.minimum_stake {
            Some(Error::InsufficientStake)
        } else if t.total_stake + held->0 > u128::MAX {
            Some(Error::Overflow)
        } else {
            None
        }
    }
}

/// The tournament `t` after `caller` has joined it at time `now` with a stake
/// of `swept`, where the quorum is `quorum`.
pub open spec fn joined(t: TournamentView, caller: Seq<char>, now: u64, swept: u128, quorum: u8)
    -> TournamentView {
    TournamentView {
        players: t.players.push(
            PlayerView {
                id: (t.players.len() + 1) as u128,
                account_id: caller,
                stake_amount: swept,
                score: 0,
                number_of_games_played: 0,
                join_date: now,
            },
        ),
        total_stake: (t.total_stake + swept) as u128,
        status: if t.status == TournamentState::PENDING_VOLUME && t.players.len() + 1 >= quorum {
            TournamentState::ACTIVE
        } else {
            t.status
        },
        ..t
    }
}

/// The engine after `caller` has joined the tournament `id` at time `now`:
/// the whole escrow of the caller in the tournament's token is swept into
/// the tournament.
pub open spec fn after_join(pre: WordchainView, caller: Seq<char>, now: u64, id: u128)
    -> WordchainView {
    let t = pre.tournament(id);
    let swept = pre.stakes[(caller, t.ft_address)];
    WordchainView {
        tournaments: pre.tournaments.update(
            id - 1,
            joined(t, caller, now, swept, pre.min_tournament_players),
        ),
        stakes: pre.stakes.insert((caller, t.ft_address), 0),
        ..pre
    }
}

impl Wordchain {
    /// `caller` joins the tournament `tournament_id` at time `now`. Where
    /// nothing stands against it, the caller's whole escrow in the
    /// tournament's token is swept and recorded as the stake, the caller is
    /// appended as the next player, and a tournament that waits for players
    /// becomes active once the quorum is reached.
    pub fn join_tournament(
        &mut self,
        caller: String,
        now: u64,
        tournament_id: u128,
        country: String,
        tournament_key: Option<String>,
    ) -> (r: Result<(), Error>)
        requires
            old(self).wf(),
        ensures
            final(self).wf(),
            evolves(old(self)@, final(self)@),
            match join_refusal(
                old(self)@,
                caller@,
                now,
                tournament_id,
                country@,
                option_view(tournament_key),
            ) {
                Some(e) => r == Err::<(), Error>(e) && *final(self) == *old(self),
                None => r is Ok && final(self)@ == after_join(
                    old(self)@,
                    caller@,
                    now,
                    tournament_id,
                ),
            },
    {
        let idx: usize = match self.resolve(tournament_id) {
            Some(i) => i,
            None => { return Err(Error::NotFound); },
        };
        let ghost t0 = self@.tournament(tournament_id);
        assert(self.tournaments[idx as int]@ == t0);
        if self.tournaments[idx].owner == caller {
            return Err(Error::Forbidden);
        }
        if now >= self.tournaments[idx].tournament_deadline {
            return Err(Error::DeadlinePassed);
        }
        match self.tournaments[idx].status {
            TournamentState::CLOSED => { return Err(Error::AlreadyClosed); },
            _ => {},
        }
        match self.tournaments[idx].tournament_type {
            TournamentType::PRIVATE => {
                let given: String = match tournament_key {
                    Some(k) => k,
                    None => String::new(),
                };
                if !(self.tournaments[idx].tournament_key == given) {
                    return Err(Error::Unauthorized);
                }
            },
            TournamentType::COUNTRY_BASED => {
                if !(self.tournaments[idx].country == country) {
                    return Err(Error::InvalidCountry);
                }
            },
            TournamentType::PUBLIC => {},
        }
        let token: String = self.tournaments[idx].ft_address.clone();
        let minimum: u128 = self.tournaments[idx].minimum_stake;
        let held: u128 = match self.stakes.balance(&caller, &token) {
            Some(b) => b,
            None => { return Err(Error::InsufficientStake); },
        };
        if held < minimum {
            return Err(Error::InsufficientStake);
        }
        if held > u128::MAX - self.tournaments[idx].total_stake {
            return Err(Error::Overflow);
        }
        let swept: u128 = match self.stakes.consume(&caller, &token, minimum) {
            Ok(s) => s,
            Err(e) => { return Err(e); },
        };
        let count: usize = self.tournaments[idx].players.len();
        let ghost before = self.tournaments@;
        let player = TournamentPlayer {
            id: count as u128 + 1,
            account_id: caller,
            stake_amount: swept,
            score: 0,
            number_of_games_played: 0,
            join_date: now,
        };
        let quorum: u8 = self.min_tournament_players;
        let total: u128 = self.tournaments[idx].total_stake;
        self.tournaments[idx].players.push(player);
        self.tournaments[idx].total_stake = total + swept;
        match self.tournaments[idx].status {
            TournamentState::PENDING_VOLUME => {
                if count as u128 + 1 >= quorum as u128 {
                    self.tournaments[idx].status = TournamentState::ACTIVE;
                }
            },
            _ => {},
        }
        proof {
            let post = after_join(old(self)@, caller@, now, tournament_id);
            let t1 = joined(t0, caller@, now, swept, quorum);
            assert(self.tournaments@.len() == before.len());
            assert(forall|j: int|
                0 <= j < before.len() && j != idx ==> self.tournaments@[j] == before[j]);
            assert(self.tournaments@[idx as int]@.players =~= t1.players);
            assert(self.tournaments@[idx as int]@ == t1);
            assert(self@.tournaments =~= post.tournaments);
            assert(self@.stakes =~= post.stakes);
            assert(self@ == post);
            assert(self.tournaments@[idx as int].players.len()
                == self.tournaments@[idx as int].players@.len());
            assert(t0.wf());
            lemma_stake_sum_push(t0.players, t1.players.last());
            assert(t1.players =~= t0.players.push(t1.players.last()));
            assert(t1.wf());
        }
        Ok(())
    }
}

} // verus!
