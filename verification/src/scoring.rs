//! Scoring: publishing the score of a game in an active tournament.

use vstd::prelude::*;
use crate::engine::{
    evolves, has_game_type, is_first_game_type, max_score_of, scores_within_bounds, Wordchain,
    WordchainView,
};
use crate::types::{
    lemma_stake_sum_of_same_stakes, Error, PlayerView, TournamentPlayer, TournamentState,
    TournamentView,
};

verus! {

/// The player after a game with the score `score`, where the player is
/// `caller`; any other player as before.
pub open spec fn scored(p: PlayerView, caller: Seq<char>, score: u8) -> PlayerView {
    if p.account_id == caller {
        PlayerView {
            score: (p.score + score) as u64,
            number_of_games_played: (p.number_of_games_played + 1) as u64,
            ..p
        }
    } else {
        p
    }
}

/// Whether the score or the number of games of an entry of `caller` would
/// not fit after a game with the score `score`.
pub open spec fn score_overflows(players: Seq<PlayerView>, caller: Seq<char>, score: u8) -> bool {
    exists|i: int|
        0 <= i < players.len() && (#[trigger] players[i]).account_id == caller && (players[i].score
            + score > u64::MAX || players[i].number_of_games_played + 1 > u64::MAX)
}

/// Why `caller` may not publish the score at time `now`, if there is a
/// reason; the first that applies, in this order.
pub open spec fn score_refusal(pre: WordchainView, caller: Seq<char>, now: u64, id: u128, score: u8)
    -> Option<Error> {
    if !pre.has_tournament(id) {
        Some(Error::NotFound)
    } else {
        let t = pre.tournament(id);
        if now >= t.tournament_deadline {
            Some(Error::DeadlinePassed)
        } else if t.status != TournamentState::ACTIVE {
            Some(Error::NotActive)
        } else if !has_game_type(pre.game_types, t.game_type_id) {
            Some(Error::NotFound)
        } else if score > max_score_of(pre.game_types, t.game_type_id) {
            Some(Error::ScoreOutOfRange)
        } else if score_overflows(t.players, caller, score) {
            Some(Error::Overflow)
        } else {
            None
        }
    }
}

/// The engine after `caller` has published the score `score` in the
/// tournament `id`: each entry of the caller among the players has the score
/// added and one more game played. Where the caller is no player, nothing
/// differs.
pub open spec fn after_score(pre: WordchainView, caller: Seq<char>, id: u128, score: u8)
    -> WordchainView {
    let t = pre.tournament(id);
    WordchainView {
        tournaments: pre.tournaments.update(
            id - 1,
            TournamentView {
                players: Seq::new(t.players.len(), |i: int| scored(t.players[i], caller, score)),
                ..t
            },
        ),
        ..pre
    }
}

impl Wordchain {
    /// `caller` publishes the score of one game in the tournament
    /// `tournament_id` at time `now`. Where nothing stands against it, the
    /// score is added to the caller's total and the caller has played one
    /// more game; a caller who is no player of the tournament changes
    /// nothing, and is not refused.
    pub fn publish_score(&mut self, caller: String, now: u64, tournament_id: u128, score: u8) -> (r:
        Result<(), Error>)
        requires
            old(self).wf(),
        ensures
            final(self).wf(),
            evolves(old(self)@, final(self)@),
            match score_refusal(old(self)@, caller@, now, tournament_id, score) {
                Some(e) => r == Err::<(), Error>(e) && *final(self) == *old(self),
                None => r is Ok && final(self)@ == after_score(
                    old(self)@,
                    caller@,
                    tournament_id,
                    score,
                ),
            },
    {
        let idx: usize = match self.resolve(tournament_id) {
            Some(i) => i,
            None => { return Err(Error::NotFound); },
        };
        let ghost pre = self@;
        let ghost t0 = pre.tournament(tournament_id);
        assert(self.tournaments[idx as int]@ == t0);
        if now >= self.tournaments[idx].tournament_deadline {
            return Err(Error::DeadlinePassed);
        }
        match self.tournaments[idx].status {
            TournamentState::ACTIVE => {},
            _ => { return Err(Error::NotActive); },
        }
        let g: usize = match self.find_game_type(&self.tournaments[idx].game_type_id) {
            Some(g) => g,
            None => { return Err(Error::NotFound); },
        };
        assert(self@.game_types[g as int] == self.game_types[g as int]@);
        assert(self.game_types[g as int].max_score == max_score_of(pre.game_types, t0.game_type_id))
            by {
            let c = choose|i: int| is_first_game_type(pre.game_types, t0.game_type_id, i);
            assert(is_first_game_type(pre.game_types, t0.game_type_id, g as int));
            assert(c == g);
        }
        if score as u64 > self.game_types[g].max_score {
            return Err(Error::ScoreOutOfRange);
        }
        let n: usize = self.tournaments[idx].players.len();
        let mut updated: Vec<TournamentPlayer> = Vec::new();
        let mut j: usize = 0;
        while j < n
            invariant
                j <= n,
                *self == *old(self),
                self.wf(),
                pre == self@,
                t0 == pre.tournament(tournament_id),
                idx < self.tournaments.len(),
                n == self.tournaments[idx as int].players.len(),
                self.tournaments[idx as int]@ == t0,
                score_refusal(pre, caller@, now, tournament_id, score) is None
                    || score_refusal(pre, caller@, now, tournament_id, score) == Some(
                    Error::Overflow,
                ),
                updated.len() == j,
                score <= max_score_of(pre.game_types, t0.game_type_id),
                forall|k: int|
                    0 <= k < j ==> (#[trigger] updated[k])@ == scored(t0.players[k], caller@, score),
                forall|k: int|
                    0 <= k < j ==> (#[trigger] updated[k])@.score <= max_score_of(
                        pre.game_types,
                        t0.game_type_id,
                    ) * updated[k]@.number_of_games_played,
                forall|k: int|
                    0 <= k < j && (#[trigger] t0.players[k]).account_id == caller@
                        ==> t0.players[k].score + score <= u64::MAX
                        && t0.players[k].number_of_games_played + 1 <= u64::MAX,
            decreases n - j,
        {
            let p = &self.tournaments[idx].players[j];
            proof {
                assert(t0.players[j as int] == p@);
                assert(scores_within_bounds(pre.game_types, pre.tournaments[idx as int]));
                let max = max_score_of(pre.game_types, t0.game_type_id) as int;
                let (had, games) = (p.score as int, p.number_of_games_played as int);
                assert(had + score <= max * (games + 1)) by (nonlinear_arith)
                    requires
                        had <= max * games,
                        score <= max,
                ;
            }
            if p.account_id == caller {
                if p.score > u64::MAX - score as u64 || p.number_of_games_played == u64::MAX {
                    assert(score_overflows(t0.players, caller@, score));
                    return Err(Error::Overflow);
                }
                updated.push(
                    TournamentPlayer {
                        id: p.id,
                        account_id: p.account_id.clone(),
                        stake_amount: p.stake_amount,
                        score: p.score + score as u64,
                        number_of_games_played: p.number_of_games_played + 1,
                        join_date: p.join_date,
                    },
                );
            } else {
                updated.push(p.duplicate());
            }
            j = j + 1;
        }
        assert(!score_overflows(t0.players, caller@, score));
        let ghost before = self.tournaments@;
        self.tournaments[idx].players = updated;
        assert(forall|k: int|
            0 <= k < before.len() && k != idx ==> self.tournaments@[k] == before[k]);
        proof {
            let post = after_score(pre, caller@, tournament_id, score);
            assert(self.tournaments[idx as int]@.players =~= post.tournaments[idx as int].players);
            assert(self@.tournaments =~= post.tournaments);
            assert(self@ == post);
            assert(t0.wf());
            lemma_stake_sum_of_same_stakes(post.tournaments[idx as int].players, t0.players);
            assert(post.tournaments[idx as int].wf());
        }
        Ok(())
    }
}

} // verus!
