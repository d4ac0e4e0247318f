//! Settlement: closing a tournament whose deadline is reached, with the
//! refunds or prizes that are due. Settlement only states the transfers; the
//! tournament is closed whatever becomes of them.

use vstd::prelude::*;
use crate::engine::{evolves, Wordchain, WordchainView};
use crate::escrow::accrued_in;
use crate::prizes::{commission, commission_of, prize_share, share, FIRST_PAID_SLOT, PRIZE_SLOTS};
use crate::ranking::{rank_players, ranking_of};
use crate::types::{
    players_view, transfers_view, Error, PlayerView, TournamentState, TournamentView,
    TransferIntent, TransferView,
};

verus! {

/// The refunds of a tournament that never reached its quorum: to each player
/// but the tournament's owner the whole stake, in the order of joining.
pub open spec fn refunds(token: Seq<char>, owner: Seq<char>, players: Seq<PlayerView>) -> Seq<
    TransferView,
>
    decreases players.len(),
{
    if players.len() == 0 {
        Seq::<TransferView>::empty()
    } else {
        let rest = refunds(token, owner, players.drop_last());
        let p = players.last();
        if p.account_id != owner {
            rest.push(TransferView { token: token, to: p.account_id, amount: p.stake_amount })
        } else {
            rest
        }
    }
}

/// The sum of the stakes that the tournament's owner holds as a player.
pub open spec fn owner_stake(owner: Seq<char>, players: Seq<PlayerView>) -> nat
    decreases players.len(),
{
    if players.len() == 0 {
        0
    } else {
        let p = players.last();
        owner_stake(owner, players.drop_last()) + if p.account_id == owner {
            p.stake_amount as nat
        } else {
            0
        }
    }
}

/// The owner's stake among the first players is no more than among all.
pub proof fn lemma_owner_stake_monotone(owner: Seq<char>, players: Seq<PlayerView>, i: int)
    requires
        0 <= i <= players.len(),
    ensures
        owner_stake(owner, players.take(i)) <= owner_stake(owner, players),
    decreases players.len() - i,
{
    if i == players.len() {
        assert(players.take(i) =~= players);
    } else {
        lemma_owner_stake_monotone(owner, players, i + 1);
        assert(players.take(i + 1).drop_last() =~= players.take(i));
    }
}

/// The number of slots that are paid where `ranked` players stand in the
/// ranking.
pub open spec fn paid_slots(ranked: nat) -> nat {
    if ranked >= PRIZE_SLOTS {
        (PRIZE_SLOTS - FIRST_PAID_SLOT) as nat
    } else if ranked > FIRST_PAID_SLOT {
        (ranked - FIRST_PAID_SLOT) as nat
    } else {
        0
    }
}

/// The prizes of a tournament whose players stand in the ranking `order`:
/// from the first paid slot on, the player ranked at a slot is paid the
/// share of that slot, as far as there are players.
pub open spec fn payouts(
    token: Seq<char>,
    players: Seq<PlayerView>,
    order: Seq<usize>,
    rate: u64,
    total_stake: u128,
) -> Seq<TransferView> {
    Seq::new(
        paid_slots(order.len()),
        |k: int|
            TransferView {
                token: token,
                to: players[order[FIRST_PAID_SLOT + k] as int].account_id,
                amount: prize_share(rate, total_stake, FIRST_PAID_SLOT + k) as u128,
            },
    )
}

/// What settlement adds to the commission pool: of a tournament that waits
/// for players the owner's own stake, of any other the commission.
pub open spec fn settlement_accrual(pre: WordchainView, id: u128) -> int {
    let t = pre.tournament(id);
    if t.status == TournamentState::PENDING_VOLUME {
        owner_stake(t.owner, t.players) as int
    } else {
        commission_of(pre.percentage_stake_commission, t.total_stake)
    }
}

/// Why `caller` may not settle the tournament `id` at time `now`, if there
/// is a reason; the first that applies, in this order.
pub open spec fn settle_refusal(pre: WordchainView, caller: Seq<char>, now: u64, id: u128)
    -> Option<Error> {
    if !pre.has_tournament(id) {
        Some(Error::NotFound)
    } else {
        let t = pre.tournament(id);
        if caller != pre.owner {
            Some(Error::Unauthorized)
        } else if now < t.tournament_deadline {
            Some(Error::DeadlineNotReached)
        } else if t.status == TournamentState::CLOSED {
            Some(Error::AlreadyClosed)
        } else if t.status != TournamentState::DELETED && accrued_in(
            pre.stake_payouts,
            t.ft_address,
        ) + settlement_accrual(pre, id) > u128::MAX {
            Some(Error::Overflow)
        } else {
            None
        }
    }
}

/// The engine after the tournament `id` is settled: the tournament is
/// closed and the pool of its token has grown by the accrual. A deleted
/// tournament is left as it is, and so is the pool.
pub open spec fn after_settle(pre: WordchainView, id: u128) -> WordchainView {
    let t = pre.tournament(id);
    if t.status == TournamentState::DELETED {
        pre
    } else {
        WordchainView {
            tournaments: pre.tournaments.update(
                id - 1,
                TournamentView { status: TournamentState::CLOSED, ..t },
            ),
            stake_payouts: pre.stake_payouts.insert(
                t.ft_address,
                (accrued_in(pre.stake_payouts, t.ft_address) + settlement_accrual(pre, id)) as u128,
            ),
            ..pre
        }
    }
}

/// The transfers that settling the tournament `id` asks for: the refunds of
/// a tournament that waits for players, none of a deleted one, the prizes of
/// any other.
pub open spec fn settlement_transfers(pre: WordchainView, id: u128) -> Seq<TransferView> {
    let t = pre.tournament(id);
    if t.status == TournamentState::PENDING_VOLUME {
        refunds(t.ft_address, t.owner, t.players)
    } else if t.status == TournamentState::DELETED {
        Seq::<TransferView>::empty()
    } else {
        payouts(
            t.ft_address,
            t.players,
            ranking_of(t.players),
            pre.percentage_stake_commission,
            t.total_stake,
        )
    }
}

impl Wordchain {
    /// The owner of the platform settles the tournament `tournament_id` at
    /// time `now`, once its deadline is reached. A tournament that still
    /// waits for players is refunded: each player but the tournament's owner
    /// gets the stake back, and the owner's own stake goes to the commission
    /// pool. Of an active tournament the commission goes to the pool and the
    /// ranked players are paid their prizes. Either is closed by it. The
    /// transfers are returned for the token service to make; the engine does
    /// not wait for them, and learns nothing of their outcome.
    pub fn distribute_rewards(&mut self, caller: String, now: u64, tournament_id: u128) -> (r:
        Result<Vec<TransferIntent>, Error>)
        requires
            old(self).wf(),
        ensures
            final(self).wf(),
            evolves(old(self)@, final(self)@),
            match settle_refusal(old(self)@, caller@, now, tournament_id) {
                Some(e) => r == Err::<Vec<TransferIntent>, Error>(e) && *final(self) == *old(self),
                None => {
                    &&& r is Ok
                    &&& final(self)@ == after_settle(old(self)@, tournament_id)
                    &&& transfers_view(r->Ok_0@) == settlement_transfers(
                        old(self)@,
                        tournament_id,
                    )
                },
            },
    {
        let idx: usize = match self.resolve(tournament_id) {
            Some(i) => i,
            None => { return Err(Error::NotFound); },
        };
        let ghost pre = self@;
        let ghost t0 = pre.tournament(tournament_id);
        assert(self.tournaments[idx as int]@ == t0);
        if !(caller == self.owner) {
            return Err(Error::Unauthorized);
        }
        if now < self.tournaments[idx].tournament_deadline {
            return Err(Error::DeadlineNotReached);
        }
        let token: String = self.tournaments[idx].ft_address.clone();
        let accrued: u128 = self.stake_payouts.accrued(&token);
        let n: usize = self.tournaments[idx].players.len();
        let mut out: Vec<TransferIntent> = Vec::new();
        let accrual: u128;
        match self.tournaments[idx].status {
            TournamentState::CLOSED => { return Err(Error::AlreadyClosed); },
            TournamentState::DELETED => {
                assert(transfers_view(out@) =~= Seq::<TransferView>::empty());
                return Ok(out);
            },
            TournamentState::PENDING_VOLUME => {
                let mut own: u128 = 0;
                let mut j: usize = 0;
                while j < n
                    invariant
                        j <= n,
                        *self == *old(self),
                        self.wf(),
                        pre == self@,
                        t0 == pre.tournament(tournament_id),
                        idx < self.tournaments.len(),
                        n == self.tournaments[idx as int].players.len(),
                        self.tournaments[idx as int]@ == t0,
                        token@ == t0.ft_address,
                        accrued == accrued_in(pre.stake_payouts, t0.ft_address),
                        t0.status == TournamentState::PENDING_VOLUME,
                        settle_refusal(pre, caller@, now, tournament_id) is None || settle_refusal(
                            pre,
                            caller@,
                            now,
                            tournament_id,
                        ) == Some(Error::Overflow),
                        own == owner_stake(t0.owner, t0.players.take(j as int)),
                        accrued + own <= u128::MAX,
                        transfers_view(out@) =~= refunds(
                            t0.ft_address,
                            t0.owner,
                            t0.players.take(j as int),
                        ),
                    decreases n - j,
                {
                    let p = &self.tournaments[idx].players[j];
                    proof {
                        assert(t0.players[j as int] == p@);
                        assert(t0.players.take(j + 1).drop_last() =~= t0.players.take(j as int));
                        assert(t0.players.take(j + 1).last() == p@);
                    }
                    if p.account_id == self.tournaments[idx].owner {
                        if p.stake_amount > u128::MAX - accrued - own {
                            proof {
                                lemma_owner_stake_monotone(t0.owner, t0.players, j + 1);
                            }
                            return Err(Error::Overflow);
                        }
                        own = own + p.stake_amount;
                    } else {
                        out.push(
                            TransferIntent {
                                token: token.clone(),
                                to: p.account_id.clone(),
                                amount: p.stake_amount,
                            },
                        );
                    }
                    j = j + 1;
                }
                assert(t0.players.take(n as int) =~= t0.players);
                accrual = own;
            },
            TournamentState::ACTIVE => {
                let rate: u64 = self.percentage_stake_commission;
                let total: u128 = self.tournaments[idx].total_stake;
                let c: u128 = commission(rate, total);
                if c > u128::MAX - accrued {
                    return Err(Error::Overflow);
                }
                let order = rank_players(&self.tournaments[idx].players);
                assert(players_view(self.tournaments[idx as int].players@) == t0.players);
                let mut slot: usize = FIRST_PAID_SLOT;
                while slot < PRIZE_SLOTS && slot < n
                    invariant
                        FIRST_PAID_SLOT <= slot <= PRIZE_SLOTS,
                        slot <= n || slot == FIRST_PAID_SLOT,
                        *self == *old(self),
                        self.wf(),
                        pre == self@,
                        idx < self.tournaments.len(),
                        n == self.tournaments[idx as int].players.len(),
                        self.tournaments[idx as int]@ == t0,
                        token@ == t0.ft_address,
                        rate == pre.percentage_stake_commission,
                        rate <= 10000,
                        total == t0.total_stake,
                        order@ == ranking_of(t0.players),
                        order.len() == n,
                        forall|k: int| 0 <= k < n ==> 0 <= #[trigger] order[k] < n,
                        out.len() == slot - FIRST_PAID_SLOT,
                        forall|k: int|
                            0 <= k < out.len() ==> (#[trigger] out[k])@ == (TransferView {
                                token: t0.ft_address,
                                to: t0.players[order[FIRST_PAID_SLOT + k] as int].account_id,
                                amount: prize_share(rate, total, FIRST_PAID_SLOT + k) as u128,
                            }),
                    decreases PRIZE_SLOTS - slot,
                {
                    let place: usize = order[slot];
                    let p = &self.tournaments[idx].players[place];
                    assert(t0.players[place as int] == p@);
                    out.push(
                        TransferIntent {
                            token: token.clone(),
                            to: p.account_id.clone(),
                            amount: share(rate, total, slot),
                        },
                    );
                    slot = slot + 1;
                }
                assert(transfers_view(out@) =~= payouts(
                    t0.ft_address,
                    t0.players,
                    order@,
                    rate,
                    total,
                ));
                accrual = c;
            },
        }
        assert(accrual == settlement_accrual(pre, tournament_id));
        match self.stake_payouts.accrue(&token, accrual) {
            Ok(_) => {},
            Err(e) => { return Err(e); },
        }
        let ghost before = self.tournaments@;
        self.tournaments[idx].status = TournamentState::CLOSED;
        proof {
            let post = after_settle(pre, tournament_id);
            assert(forall|k: int|
                0 <= k < before.len() && k != idx ==> self.tournaments@[k] == before[k]);
            assert(self.tournaments@[idx as int]@ == post.tournaments[idx as int]);
            assert(self@.tournaments =~= post.tournaments);
            assert(self@ == post);
            assert(post.tournaments[idx as int].wf());
        }
        Ok(out)
    }
}

} // verus!
