//! Setting the platform up and running it: ownership, the pause, the
//! configuration, game types, countries, deposits and the commission pool.

use vstd::prelude::*;
use crate::countries::{check_names_a_country, names_a_country, split_at_bars, split_countries};
use crate::engine::{
    evolves, lemma_first_game_type_stays, scores_within_bounds, Wordchain, WordchainView,
};
use crate::escrow::{accrued_in, CommissionPool, EscrowLedger};
use crate::prizes::{position_prizes, prize_weights, BASIS_POINTS, MIN_COMMISSION_RATE};
use crate::types::{
    game_types_view, strings_view, Error, GameType, GameTypeView, TournamentView, TransferIntent,
    TransferView,
};

verus! {

/// Whether a platform can be set up with these values: a quorum above
/// three, a commission rate above ten percent and no more than the whole,
/// and a list of countries that names one.
pub open spec fn setup_accepted(rate: u64, countries: Seq<char>, quorum: u8) -> bool {
    &&& quorum > 3
    &&& 1000 < rate <= 10000
    &&& names_a_country(countries)
}

/// The test that a game type has the identifier `id`.
pub open spec fn has_identifier(id: Seq<char>) -> spec_fn(GameTypeView) -> bool {
    |g: GameTypeView| g.identifier == id
}

impl Wordchain {
    /// Sets up a platform owned by `owner`, with no tournament, no game type
    /// and nothing in escrow. `current_account` is the platform's own
    /// account, which stands in for a successor while none is proposed.
    /// `countries` lists the supported country codes with a bar between them.
    pub fn new(
        owner: String,
        current_account: String,
        percentage_stake_commission: u64,
        countries: String,
        min_tournament_players: u8,
    ) -> (r: Result<Wordchain, Error>)
        ensures
            match r {
                Ok(w) => {
                    &&& setup_accepted(
                        percentage_stake_commission,
                        countries@,
                        min_tournament_players,
                    )
                    &&& w.wf()
                    &&& w@ == (WordchainView {
                        paused: false,
                        owner: owner@,
                        pending_owner: current_account@,
                        min_tournament_players: min_tournament_players,
                        stake_payouts: Map::<Seq<char>, u128>::empty(),
                        percentage_stake_commission: percentage_stake_commission,
                        game_types: Seq::<GameTypeView>::empty(),
                        tournaments: Seq::<TournamentView>::empty(),
                        supported_countries: split_at_bars(countries@),
                        stakes: Map::<(Seq<char>, Seq<char>), u128>::empty(),
                    })
                },
                Err(e) => e == Error::InvalidParameter && !setup_accepted(
                    percentage_stake_commission,
                    countries@,
                    min_tournament_players,
                ),
            },
    {
        if min_tournament_players <= 3 {
            return Err(Error::InvalidParameter);
        }
        if percentage_stake_commission <= MIN_COMMISSION_RATE || percentage_stake_commission
            > BASIS_POINTS {
            return Err(Error::InvalidParameter);
        }
        if !check_names_a_country(countries.as_str()) {
            return Err(Error::InvalidParameter);
        }
        let w = Wordchain {
            paused: false,
            owner,
            pending_owner: current_account,
            min_tournament_players,
            stake_payouts: CommissionPool::new(),
            percentage_stake_commission,
            game_types: Vec::new(),
            tournaments: Vec::new(),
            supported_countries: split_countries(countries.as_str()),
            stakes: EscrowLedger::new(),
        };
        assert(w@.game_types =~= Seq::<GameTypeView>::empty());
        assert(w@.tournaments =~= Seq::<TournamentView>::empty());
        Ok(w)
    }

    /// The token service `token` reports that `sender_id` has transferred
    /// `amount` to the platform: the amount is credited to the sender's
    /// escrow of that token. Returned is the part of the amount that the
    /// platform refuses, which is always nothing. The message is not read.
    pub fn ft_on_transfer(&mut self, sender_id: String, token: String, amount: u128, msg: String)
        -> (r: Result<u128, Error>)
        requires
            old(self).wf(),
        ensures
            final(self).wf(),
            evolves(old(self)@, final(self)@),
            ({
                let held = match old(self)@.escrow(sender_id@, token@) {
                    Some(b) => b,
                    None => 0,
                };
                if held + amount > u128::MAX {
                    r == Err::<u128, Error>(Error::Overflow) && *final(self) == *old(self)
                } else {
                    r == Ok::<u128, Error>(0) && final(self)@ == (WordchainView {
                        stakes: old(self)@.stakes.insert(
                            (sender_id@, token@),
                            (held + amount) as u128,
                        ),
                        ..old(self)@
                    })
                }
            }),
    {
        match self.stakes.deposit(&sender_id, &token, amount) {
            Ok(_) => Ok(0),
            Err(e) => Err(e),
        }
    }

    /// The owner proposes `new_owner` as the successor.
    pub fn transfer_ownership(&mut self, caller: String, new_owner: String) -> (r: Result<
        (),
        Error,
    >)
        requires
            old(self).wf(),
        ensures
            final(self).wf(),
            evolves(old(self)@, final(self)@),
            if caller@ != old(self)@.owner {
                r == Err::<(), Error>(Error::Unauthorized) && *final(self) == *old(self)
            } else {
                r is Ok && final(self)@ == (WordchainView {
                    pending_owner: new_owner@,
                    ..old(self)@
                })
            },
    {
        if !(caller == self.owner) {
            return Err(Error::Unauthorized);
        }
        self.pending_owner = new_owner;
        Ok(())
    }

    /// The proposed successor takes the ownership. After it the platform's
    /// own account, `current_account`, stands in for a successor again.
    pub fn accept_ownership(&mut self, caller: String, current_account: String) -> (r: Result<
        (),
        Error,
    >)
        requires
            old(self).wf(),
        ensures
            final(self).wf(),
            evolves(old(self)@, final(self)@),
            if caller@ != old(self)@.pending_owner {
                r == Err::<(), Error>(Error::Unauthorized) && *final(self) == *old(self)
            } else {
                r is Ok && final(self)@ == (WordchainView {
                    owner: caller@,
                    pending_owner: current_account@,
                    ..old(self)@
                })
            },
    {
        if !(caller == self.pending_owner) {
            return Err(Error::Unauthorized);
        }
        self.owner = caller;
        self.pending_owner = current_account;
        Ok(())
    }

    /// The owner pauses the platform, which must not be paused.
    pub fn pause_contract(&mut self, caller: String) -> (r: Result<(), Error>)
        requires
            old(self).wf(),
        ensures
            final(self).wf(),
            evolves(old(self)@, final(self)@),
            if caller@ != old(self)@.owner {
                r == Err::<(), Error>(Error::Unauthorized) && *final(self) == *old(self)
            } else if old(self)@.paused {
                r == Err::<(), Error>(Error::AlreadyPaused) && *final(self) == *old(self)
            } else {
                r is Ok && final(self)@ == (WordchainView { paused: true, ..old(self)@ })
            },
    {
        if !(caller == self.owner) {
            return Err(Error::Unauthorized);
        }
        if self.paused {
            return Err(Error::AlreadyPaused);
        }
        self.paused = true;
        Ok(())
    }

    /// The owner lifts the pause of the platform, which must be paused.
    pub fn unpause_contract(&mut self, caller: String) -> (r: Result<(), Error>)
        requires
            old(self).wf(),
        ensures
            final(self).wf(),
            evolves(old(self)@, final(self)@),
            if caller@ != old(self)@.owner {
                r == Err::<(), Error>(Error::Unauthorized) && *final(self) == *old(self)
            } else if !old(self)@.paused {
                r == Err::<(), Error>(Error::NotPaused) && *final(self) == *old(self)
            } else {
                r is Ok && final(self)@ == (WordchainView { paused: false, ..old(self)@ })
            },
    {
        if !(caller == self.owner) {
            return Err(Error::Unauthorized);
        }
        if !self.paused {
            return Err(Error::NotPaused);
        }
        self.paused = false;
        Ok(())
    }

    /// The owner sets the quorum, which must be above three.
    pub fn set_min_players(&mut self, caller: String, num: u8) -> (r: Result<(), Error>)
        requires
            old(self).wf(),
        ensures
            final(self).wf(),
            evolves(old(self)@, final(self)@),
            if caller@ != old(self)@.owner {
                r == Err::<(), Error>(Error::Unauthorized) && *final(self) == *old(self)
            } else if num <= 3 {
                r == Err::<(), Error>(Error::InvalidParameter) && *final(self) == *old(self)
            } else {
                r is Ok && final(self)@ == (WordchainView {
                    min_tournament_players: num,
                    ..old(self)@
                })
            },
    {
        if !(caller == self.owner) {
            return Err(Error::Unauthorized);
        }
        if num <= 3 {
            return Err(Error::InvalidParameter);
        }
        self.min_tournament_players = num;
        Ok(())
    }

    /// The owner sets the commission rate, in basis points: at least ten
    /// percent and no more than the whole.
    pub fn set_percentage_stake_commission(&mut self, caller: String, new_value: u64) -> (r:
        Result<(), Error>)
        requires
            old(self).wf(),
        ensures
            final(self).wf(),
            evolves(old(self)@, final(self)@),
            if caller@ != old(self)@.owner {
                r == Err::<(), Error>(Error::Unauthorized) && *final(self) == *old(self)
            } else if new_value < 1000 || new_value > 10000 {
                r == Err::<(), Error>(Error::InvalidParameter) && *final(self) == *old(self)
            } else {
                r is Ok && final(self)@ == (WordchainView {
                    percentage_stake_commission: new_value,
                    ..old(self)@
                })
            },
    {
        if !(caller == self.owner) {
            return Err(Error::Unauthorized);
        }
        if new_value < MIN_COMMISSION_RATE || new_value > BASIS_POINTS {
            return Err(Error::InvalidParameter);
        }
        self.percentage_stake_commission = new_value;
        Ok(())
    }

    /// The owner registers a game type at the end of the list of game types.
    /// Where an identifier is registered twice, the first entry is the one
    /// that counts, so a registered game type never changes.
    pub fn register_game_type(&mut self, caller: String, identifier: String, max_score: u64) -> (r:
        Result<(), Error>)
        requires
            old(self).wf(),
        ensures
            final(self).wf(),
            evolves(old(self)@, final(self)@),
            if caller@ != old(self)@.owner {
                r == Err::<(), Error>(Error::Unauthorized) && *final(self) == *old(self)
            } else {
                r is Ok && final(self)@ == (WordchainView {
                    game_types: old(self)@.game_types.push(
                        GameTypeView { identifier: identifier@, max_score: max_score },
                    ),
                    ..old(self)@
                })
            },
    {
        if !(caller == self.owner) {
            return Err(Error::Unauthorized);
        }
        let ghost before = self@.game_types;
        let ghost added = GameTypeView { identifier: identifier@, max_score: max_score };
        self.game_types.push(GameType { identifier, max_score });
        proof {
            assert(self@.game_types =~= before.push(added));
            assert forall|i: int| 0 <= i < self@.tournaments.len() implies scores_within_bounds(
                self@.game_types,
                #[trigger] self@.tournaments[i],
            ) by {
                assert(scores_within_bounds(before, old(self)@.tournaments[i]));
                lemma_first_game_type_stays(before, added, self@.tournaments[i].game_type_id);
            }
        }
        Ok(())
    }

    /// The game types with the identifier `identifier`, or all game types
    /// where none is given, in the order of registration.
    pub fn get_gametypes(&self, identifier: Option<String>) -> (r: Vec<GameType>)
        ensures
            game_types_view(r@) == match identifier {
                Some(id) => self@.game_types.filter(has_identifier(id@)),
                None => self@.game_types,
            },
    {
        let ghost all = self@.game_types;
        let mut out: Vec<GameType> = Vec::new();
        let mut i: usize = 0;
        assert(all.take(0) =~= Seq::<GameTypeView>::empty());
        match identifier {
            Some(id) => {
                proof {
                    Seq::<GameTypeView>::empty().lemma_filter_len(has_identifier(id@));
                }
                while i < self.game_types.len()
                    invariant
                        i <= self.game_types@.len(),
                        all == self@.game_types,
                        game_types_view(out@) =~= all.take(i as int).filter(has_identifier(id@)),
                    decreases self.game_types@.len() - i,
                {
                    let ghost before = game_types_view(out@);
                    proof {
                        assert(all.take(i + 1) =~= all.take(i as int).push(all[i as int]));
                        all.take(i as int).lemma_filter_push(all[i as int], has_identifier(id@));
                        assert(all[i as int] == self.game_types[i as int]@);
                    }
                    if self.game_types[i].identifier == id {
                        out.push(self.game_types[i].duplicate());
                        assert(game_types_view(out@) =~= before.push(all[i as int]));
                    }
                    i = i + 1;
                }
                assert(all.take(i as int) =~= all);
            },
            None => {
                while i < self.game_types.len()
                    invariant
                        i <= self.game_types@.len(),
                        all == self@.game_types,
                        game_types_view(out@) =~= all.take(i as int),
                    decreases self.game_types@.len() - i,
                {
                    let ghost before = game_types_view(out@);
                    assert(all[i as int] == self.game_types[i as int]@);
                    out.push(self.game_types[i].duplicate());
                    assert(game_types_view(out@) =~= before.push(all[i as int]));
                    i = i + 1;
                }
                assert(all.take(i as int) =~= all);
            },
        }
        out
    }

    /// The owner adds the country codes in `countries`, written with a bar
    /// between them, to the end of the list of supported countries.
    pub fn add_supported_country(&mut self, caller: String, countries: String) -> (r: Result<
        (),
        Error,
    >)
        requires
            old(self).wf(),
        ensures
            final(self).wf(),
            evolves(old(self)@, final(self)@),
            if caller@ != old(self)@.owner {
                r == Err::<(), Error>(Error::Unauthorized) && *final(self) == *old(self)
            } else {
                r is Ok && final(self)@ == (WordchainView {
                    supported_countries: old(self)@.supported_countries + split_at_bars(
                        countries@,
                    ),
                    ..old(self)@
                })
            },
    {
        if !(caller == self.owner) {
            return Err(Error::Unauthorized);
        }
        let ghost before = self@.supported_countries;
        let mut codes: Vec<String> = split_countries(countries.as_str());
        let ghost added = strings_view(codes@);
        self.supported_countries.append(&mut codes);
        assert(self@.supported_countries =~= before + added);
        Ok(())
    }

    pub(crate) fn supports(&self, country_code: &String) -> (r: bool)
        ensures
            r == self@.supported_countries.contains(country_code@),
    {
        let mut i: usize = 0;
        while i < self.supported_countries.len()
            invariant
                i <= self.supported_countries@.len(),
                forall|j: int| 0 <= j < i ==> self@.supported_countries[j] != country_code@,
            decreases self.supported_countries@.len() - i,
        {
            if self.supported_countries[i] == *country_code {
                assert(self@.supported_countries[i as int] == country_code@);
                return true;
            }
            i = i + 1;
        }
        false
    }

    /// Whether the country code is on the list of supported countries.
    pub fn check_supported_country(&self, country_code: String) -> (r: bool)
        ensures
            r == self@.supported_countries.contains(country_code@),
    {
        self.supports(&country_code)
    }

    /// The three prize weights at the commission rate of the platform.
    pub fn get_position_prizes(&self) -> (r: Vec<u64>)
        requires
            self.wf(),
        ensures
            r@ == prize_weights(self@.percentage_stake_commission),
    {
        position_prizes(self.percentage_stake_commission)
    }

    /// The owner asks for a transfer of accrued commission of the token
    /// `ft_address` to `to`: of `amount`, which must not be more than what
    /// is accrued, or of all that is accrued where no amount is given.
    /// Returned are what would be left of the accrued amount and the
    /// transfer to make. The pool itself is left as it is.
    pub fn withdraw_value(
        &self,
        caller: String,
        to: String,
        ft_address: String,
        amount: Option<u128>,
    ) -> (r: Result<(u128, TransferIntent), Error>)
        requires
            self.wf(),
        ensures
            ({
                let accrued = accrued_in(self@.stake_payouts, ft_address@);
                let asked = match amount {
                    Some(a) => a,
                    None => accrued,
                };
                if caller@ != self@.owner {
                    r == Err::<(u128, TransferIntent), Error>(Error::Unauthorized)
                } else if asked > accrued {
                    r == Err::<(u128, TransferIntent), Error>(Error::InvalidParameter)
                } else {
                    &&& r is Ok
                    &&& r->Ok_0.0 == accrued - asked
                    &&& r->Ok_0.1@ == (TransferView {
                        token: ft_address@,
                        to: to@,
                        amount: asked,
                    })
                }
            }),
    {
        if !(caller == self.owner) {
            return Err(Error::Unauthorized);
        }
        let accrued: u128 = self.stake_payouts.accrued(&ft_address);
        let asked: u128 = match amount {
            Some(a) => a,
            None => accrued,
        };
        if asked > accrued {
            return Err(Error::InvalidParameter);
        }
        Ok((accrued - asked, TransferIntent { token: ft_address, to, amount: asked }))
    }
}

} // verus!
