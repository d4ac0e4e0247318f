//! What holds of the engine whatever its state: how the players of a
//! tournament grow, that the state of a tournament only moves forward, that a
//! closed tournament stays as it is, that scores only grow, within the bound
//! of the game type, and that settlement gives out no more than a tournament
//! holds.

use vstd::prelude::*;
use crate::admission::{after_join, join_refusal};
use crate::engine::{evolves, moves_forward, player_evolves, tournament_evolves, WordchainView};
use crate::scoring::{after_score, score_refusal, scored};
use crate::prizes::{commission_of, lemma_shares_within_payable, payable_of, prize_share};
use crate::settlement::{
    after_settle, owner_stake, refunds, settle_refusal, settlement_accrual, settlement_transfers,
};
use crate::types::{stake_sum, transfers_total, PlayerView, TournamentState, TransferView};

verus! {

/// A join that is not refused appends exactly one player to the tournament,
/// whose id is the new number of players; the players before it stay as they
/// were, so every player's id is its place in the order of joining. No other
/// tournament changes.
pub proof fn law_join_appends_one_player(
    pre: WordchainView,
    caller: Seq<char>,
    now: u64,
    id: u128,
    country: Seq<char>,
    key: Option<Seq<char>>,
)
    requires
        pre.wf(),
        join_refusal(pre, caller, now, id, country, key) is None,
    ensures
        ({
            let before = pre.tournament(id).players;
            let after = after_join(pre, caller, now, id).tournament(id).players;
            &&& after.len() == before.len() + 1
            &&& after.last().id == after.len()
            &&& after.last().account_id == caller
            &&& after.drop_last() == before
            &&& forall|i: int| 0 <= i < after.len() ==> (#[trigger] after[i]).id == i + 1
        }),
        after_join(pre, caller, now, id).tournaments.len() == pre.tournaments.len(),
        forall|other: int|
            0 <= other < pre.tournaments.len() && other != id - 1 ==> after_join(
                pre,
                caller,
                now,
                id,
            ).tournaments[other] == pre.tournaments[other],
{
    let before = pre.tournament(id).players;
    let after = after_join(pre, caller, now, id).tournament(id).players;
    assert(after.drop_last() =~= before);
    assert(pre.tournaments[id - 1].wf());
}

/// A join never moves the state of a tournament backward: it leaves the
/// state as it is, or makes a tournament that waits for players active.
pub proof fn law_join_moves_forward(
    pre: WordchainView,
    caller: Seq<char>,
    now: u64,
    id: u128,
    country: Seq<char>,
    key: Option<Seq<char>>,
)
    requires
        pre.wf(),
        join_refusal(pre, caller, now, id, country, key) is None,
    ensures
        moves_forward(
            pre.tournament(id).status,
            after_join(pre, caller, now, id).tournament(id).status,
        ),
        pre.tournament(id).status == TournamentState::ACTIVE ==> after_join(
            pre,
            caller,
            now,
            id,
        ).tournament(id).status == TournamentState::ACTIVE,
{
}

/// A published score leaves the state of every tournament as it is.
pub proof fn law_score_keeps_state(
    pre: WordchainView,
    caller: Seq<char>,
    now: u64,
    id: u128,
    score: u8,
    other: int,
)
    requires
        pre.wf(),
        score_refusal(pre, caller, now, id, score) is None,
        0 <= other < pre.tournaments.len(),
    ensures
        after_score(pre, caller, id, score).tournaments.len() == pre.tournaments.len(),
        after_score(pre, caller, id, score).tournaments[other].status
            == pre.tournaments[other].status,
{
}

/// Settlement never moves the state of a tournament backward: the settled
/// tournament is closed, or deleted as before, and no other changes.
pub proof fn law_settle_moves_forward(
    pre: WordchainView,
    caller: Seq<char>,
    now: u64,
    id: u128,
    other: int,
)
    requires
        pre.wf(),
        settle_refusal(pre, caller, now, id) is None,
        0 <= other < pre.tournaments.len(),
    ensures
        after_settle(pre, id).tournaments.len() == pre.tournaments.len(),
        moves_forward(
            pre.tournaments[other].status,
            after_settle(pre, id).tournaments[other].status,
        ),
        other != id - 1 ==> after_settle(pre, id).tournaments[other] == pre.tournaments[other],
        pre.tournament(id).status != TournamentState::DELETED ==> after_settle(
            pre,
            id,
        ).tournament(id).status == TournamentState::CLOSED,
{
}

/// Closed is terminal: joining a closed tournament, publishing a score in
/// it and settling it are each refused, whoever asks and whenever.
pub proof fn law_closed_is_terminal(
    pre: WordchainView,
    caller: Seq<char>,
    now: u64,
    id: u128,
    country: Seq<char>,
    key: Option<Seq<char>>,
    score: u8,
)
    requires
        pre.wf(),
        pre.has_tournament(id),
        pre.tournament(id).status == TournamentState::CLOSED,
    ensures
        join_refusal(pre, caller, now, id, country, key) is Some,
        score_refusal(pre, caller, now, id, score) is Some,
        settle_refusal(pre, caller, now, id) is Some,
{
}

/// A game never lowers a score, and a player whose score was within
/// `max_score` for each game played is so after one more game with a score
/// of at most `max_score`.
pub proof fn law_score_grows_within_bound(
    p: PlayerView,
    caller: Seq<char>,
    score: u8,
    max_score: u64,
)
    requires
        score <= max_score,
        p.score + score <= u64::MAX,
        p.number_of_games_played + 1 <= u64::MAX,
        p.score <= max_score * p.number_of_games_played,
    ensures
        scored(p, caller, score).score >= p.score,
        scored(p, caller, score).number_of_games_played >= p.number_of_games_played,
        scored(p, caller, score).score <= max_score * scored(
            p,
            caller,
            score,
        ).number_of_games_played,
{
    assert(max_score * (p.number_of_games_played + 1) == max_score * p.number_of_games_played
        + max_score) by (nonlinear_arith);
}

/// The refunds of a tournament and the stake of its owner are together
/// exactly the stakes of its players: nothing is lost and nothing is made.
pub proof fn law_refunds_return_the_stakes(
    token: Seq<char>,
    owner: Seq<char>,
    players: Seq<PlayerView>,
)
    ensures
        transfers_total(refunds(token, owner, players)) + owner_stake(owner, players) == stake_sum(
            players,
        ),
    decreases players.len(),
{
    if players.len() > 0 {
        law_refunds_return_the_stakes(token, owner, players.drop_last());
        let rest = refunds(token, owner, players.drop_last());
        let p = players.last();
        if p.account_id != owner {
            let t = TransferView { token: token, to: p.account_id, amount: p.stake_amount };
            assert(rest.push(t).drop_last() =~= rest);
        }
    }
}

/// At most two transfers sum to the first amount and the second.
proof fn lemma_total_of_two(transfers: Seq<TransferView>)
    requires
        transfers.len() <= 2,
    ensures
        transfers_total(transfers) == (if transfers.len() >= 1 {
            transfers[0].amount as nat
        } else {
            0
        }) + (if transfers.len() >= 2 {
            transfers[1].amount as nat
        } else {
            0
        }),
{
    reveal_with_fuel(transfers_total, 3);
    if transfers.len() == 2 {
        assert(transfers.drop_last().last() == transfers[0]);
        assert(transfers.drop_last().drop_last().len() == 0);
    }
}

/// Settlement never gives out more than the tournament holds: what it asks
/// to be transferred and what it adds to the commission pool are together no
/// more than the pool of the tournament.
pub proof fn law_settlement_within_pool(pre: WordchainView, id: u128)
    requires
        pre.wf(),
        pre.has_tournament(id),
        pre.tournament(id).status == TournamentState::PENDING_VOLUME || pre.tournament(id).status
            == TournamentState::ACTIVE,
    ensures
        transfers_total(settlement_transfers(pre, id)) + settlement_accrual(pre, id)
            <= pre.tournament(id).total_stake,
{
    let t = pre.tournament(id);
    assert(t.wf());
    if t.status == TournamentState::PENDING_VOLUME {
        law_refunds_return_the_stakes(t.ft_address, t.owner, t.players);
    } else {
        let rate = pre.percentage_stake_commission;
        lemma_shares_within_payable(rate, t.total_stake);
        let paid = settlement_transfers(pre, id);
        lemma_total_of_two(paid);
        assert(paid.len() <= 2);
        assert(paid.len() >= 1 ==> paid[0].amount == prize_share(rate, t.total_stake, 1));
        assert(paid.len() >= 2 ==> paid[1].amount == prize_share(rate, t.total_stake, 2));
        assert(payable_of(rate, t.total_stake) == t.total_stake - commission_of(
            rate,
            t.total_stake,
        ));
    }
}

/// Between a state and a later one no tournament goes back: an active
/// tournament does not wait for players again, and a closed tournament is
/// exactly as it was. Every operation of the engine leads to a later state.
pub proof fn law_no_way_back(pre: WordchainView, post: WordchainView, i: int)
    requires
        evolves(pre, post),
        0 <= i < pre.tournaments.len(),
    ensures
        i < post.tournaments.len(),
        pre.tournaments[i].status == TournamentState::ACTIVE ==> post.tournaments[i].status
            != TournamentState::PENDING_VOLUME,
        pre.tournaments[i].status == TournamentState::CLOSED ==> post.tournaments[i]
            == pre.tournaments[i],
        pre.tournaments[i].players.len() <= post.tournaments[i].players.len(),
{
    assert(tournament_evolves(pre.tournaments[i], post.tournaments[i]));
}

/// What holds from one state to a later one holds over any number of
/// operations: `evolves` is reflexive and transitive.
pub proof fn law_evolves_composes(a: WordchainView, b: WordchainView, c: WordchainView)
    requires
        evolves(a, b),
        evolves(b, c),
    ensures
        evolves(a, a),
        evolves(a, c),
{
    assert forall|i: int| 0 <= i < a.tournaments.len() implies tournament_evolves(
        #[trigger] a.tournaments[i],
        c.tournaments[i],
    ) by {
        assert(tournament_evolves(a.tournaments[i], b.tournaments[i]));
        assert(tournament_evolves(b.tournaments[i], c.tournaments[i]));
        let (x, y, z) = (a.tournaments[i], b.tournaments[i], c.tournaments[i]);
        assert forall|k: int| 0 <= k < x.players.len() implies player_evolves(
            #[trigger] x.players[k],
            z.players[k],
        ) by {
            assert(player_evolves(x.players[k], y.players[k]));
            assert(player_evolves(y.players[k], z.players[k]));
        }
    }
}

} // verus!
