//! The registry of tournaments: creating a tournament and looking
//! tournaments up.

use vstd::prelude::*;
use crate::engine::{evolves, has_game_type, key_or_empty, option_view, Wordchain, WordchainView};
use crate::types::{
    lemma_stake_sum_push, tournaments_view, Error, PlayerView, Tournament, TournamentPlayer, TournamentState,
    TournamentType, TournamentView, DAY_TO_MS,
};

verus! {

/// Whether the tournament has the key `key` or the name `name`.
pub open spec fn matches_key_or_name(t: TournamentView, key: Seq<char>, name: Seq<char>) -> bool {
    t.tournament_key == key || t.name == name
}

/// Whether some tournament has the key `key` or the name `name`.
pub open spec fn key_or_name_taken(ts: Seq<TournamentView>, key: Seq<char>, name: Seq<char>)
    -> bool {
    exists|i: int| 0 <= i < ts.len() && matches_key_or_name(#[trigger] ts[i], key, name)
}

/// Whether `i` is the place of the last tournament with the key `key` or the
/// name `name`.
pub open spec fn is_last_match(ts: Seq<TournamentView>, key: Seq<char>, name: Seq<char>, i: int)
    -> bool {
    &&& 0 <= i < ts.len()
    &&& matches_key_or_name(ts[i], key, name)
    &&& forall|j: int| i < j < ts.len() ==> !matches_key_or_name(#[trigger] ts[j], key, name)
}

/// The test that a tournament is owned by `owner`.
pub open spec fn owned_by(owner: Seq<char>) -> spec_fn(TournamentView) -> bool {
    |t: TournamentView| t.owner == owner
}

/// Why `caller` may not create the tournament at time `now`, if there is a
/// reason; the first that applies, in this order.
pub open spec fn create_refusal(
    pre: WordchainView,
    caller: Seq<char>,
    now: u64,
    name: Seq<char>,
    key: Seq<char>,
    game_type_id: Seq<char>,
    form: TournamentType,
    interval: u64,
    minimum_stake: u128,
    token: Seq<char>,
    country: Option<Seq<char>>,
) -> Option<Error> {
    let held = pre.escrow(caller, token);
    if form == TournamentType::COUNTRY_BASED && (country is None
        || !pre.supported_countries.contains(country->0)) {
        Some(Error::InvalidCountry)
    } else if key_or_name_taken(pre.tournaments, key, name) {
        Some(Error::AlreadyExists)
    } else if !has_game_type(pre.game_types, game_type_id) {
        Some(Error::NotFound)
    } else if held is None || held->0 < minimum_stake {
        Some(Error::InsufficientStake)
    } else if now + interval * DAY_TO_MS > u64::MAX {
        Some(Error::Overflow)
    } else {
        None
    }
}

/// The tournament that `caller` creates at time `now` with a stake of
/// `swept`. Whoever is not the owner of the platform is enrolled as the
/// first player, with the whole swept amount as the stake. A country is
/// recorded for a country-based tournament only.
pub open spec fn created(
    pre: WordchainView,
    caller: Seq<char>,
    now: u64,
    name: Seq<char>,
    key: Seq<char>,
    game_type_id: Seq<char>,
    form: TournamentType,
    interval: u64,
    minimum_stake: u128,
    token: Seq<char>,
    country: Option<Seq<char>>,
    swept: u128,
) -> TournamentView {
    TournamentView {
        id: (pre.tournaments.len() + 1) as u128,
        name: name,
        tournament_key: key,
        game_type_id: game_type_id,
        owner: caller,
        minimum_stake: minimum_stake,
        created_at: now,
        total_stake: swept,
        country: if form == TournamentType::COUNTRY_BASED {
            key_or_empty(country)
        } else {
            Seq::<char>::empty()
        },
        ft_address: token,
        tournament_deadline: (now + interval * DAY_TO_MS) as u64,
        tournament_type: form,
        status: TournamentState::PENDING_VOLUME,
        players: if caller == pre.owner {
            Seq::<PlayerView>::empty()
        } else {
            seq![
                PlayerView {
                    id: 1,
                    account_id: caller,
                    stake_amount: swept,
                    score: 0,
                    number_of_games_played: 0,
                    join_date: now,
                },
            ]
        },
    }
}

impl Wordchain {
    fn find_by_key_or_name(&self, tournament_key: &String, tournament_name: &String) -> (r:
        Option<usize>)
        ensures
            match r {
                Some(i) => is_last_match(
                    self@.tournaments,
                    tournament_key@,
                    tournament_name@,
                    i as int,
                ),
                None => !key_or_name_taken(self@.tournaments, tournament_key@, tournament_name@),
            },
    {
        let mut i: usize = self.tournaments.len();
        while i > 0
            invariant
                i <= self.tournaments@.len(),
                forall|j: int|
                    i <= j < self.tournaments@.len() ==> !matches_key_or_name(
                        #[trigger] self@.tournaments[j],
                        tournament_key@,
                        tournament_name@,
                    ),
            decreases i,
        {
            i = i - 1;
            if self.tournaments[i].tournament_key == *tournament_key || self.tournaments[i].name
                == *tournament_name {
                assert(self@.tournaments[i as int] == self.tournaments[i as int]@);
                return Some(i);
            }
            assert(self@.tournaments[i as int] == self.tournaments[i as int]@);
        }
        None
    }

    /// The tournament with the key `tournament_key` or the name
    /// `tournament_name`; where several have one of them, the last in the
    /// registry.
    pub fn get_tournament_by_key_or_name(&self, tournament_key: String, tournament_name: String)
        -> (r: Option<Tournament>)
        ensures
            match r {
                Some(t) => exists|i: int|
                    is_last_match(self@.tournaments, tournament_key@, tournament_name@, i) && t@
                        == self@.tournaments[i],
                None => !key_or_name_taken(self@.tournaments, tournament_key@, tournament_name@),
            },
    {
        match self.find_by_key_or_name(&tournament_key, &tournament_name) {
            Some(i) => {
                let t = self.tournaments[i].duplicate();
                assert(is_last_match(
                    self@.tournaments,
                    tournament_key@,
                    tournament_name@,
                    i as int,
                ) && t@ == self@.tournaments[i as int]);
                Some(t)
            },
            None => None,
        }
    }

    /// The tournaments that `owner` owns, or all tournaments where no owner
    /// is given, in the order of the registry.
    pub fn get_all_tournaments(&self, owner: Option<String>) -> (r: Vec<Tournament>)
        ensures
            tournaments_view(r@) == match owner {
                Some(o) => self@.tournaments.filter(owned_by(o@)),
                None => self@.tournaments,
            },
    {
        let ghost all = self@.tournaments;
        let mut out: Vec<Tournament> = Vec::new();
        let mut i: usize = 0;
        assert(all.take(0) =~= Seq::<TournamentView>::empty());
        match owner {
            Some(o) => {
                proof {
                    Seq::<TournamentView>::empty().lemma_filter_len(owned_by(o@));
                }
                while i < self.tournaments.len()
                    invariant
                        i <= self.tournaments@.len(),
                        all == self@.tournaments,
                        tournaments_view(out@) =~= all.take(i as int).filter(owned_by(o@)),
                    decreases self.tournaments@.len() - i,
                {
                    let ghost before = tournaments_view(out@);
                    proof {
                        assert(all.take(i + 1) =~= all.take(i as int).push(all[i as int]));
                        all.take(i as int).lemma_filter_push(all[i as int], owned_by(o@));
                        assert(all[i as int] == self.tournaments[i as int]@);
                    }
                    if self.tournaments[i].owner == o {
                        out.push(self.tournaments[i].duplicate());
                        assert(tournaments_view(out@) =~= before.push(all[i as int]));
                    }
                    i = i + 1;
                }
                assert(all.take(i as int) =~= all);
            },
            None => {
                while i < self.tournaments.len()
                    invariant
                        i <= self.tournaments@.len(),
                        all == self@.tournaments,
                        tournaments_view(out@) =~= all.take(i as int),
                    decreases self.tournaments@.len() - i,
                {
                    let ghost before = tournaments_view(out@);
                    assert(all[i as int] == self.tournaments[i as int]@);
                    out.push(self.tournaments[i].duplicate());
                    assert(tournaments_view(out@) =~= before.push(all[i as int]));
                    i = i + 1;
                }
                assert(all.take(i as int) =~= all);
            },
        }
        out
    }

    /// `caller` creates a tournament at time `now`. Where nothing stands
    /// against it, the caller's whole escrow in `ft_address` is swept into
    /// the new tournament, which gets the next id, waits for players and
    /// ends `interval` days after `now`. A copy of it is returned.
    pub fn create_tournament(
        &mut self,
        caller: String,
        now: u64,
        name: String,
        tournament_key: String,
        game_type_id: String,
        form: TournamentType,
        interval: u64,
        minimum_stake: u128,
        ft_address: String,
        country: Option<String>,
    ) -> (r: Result<Tournament, Error>)
        requires
            old(self).wf(),
        ensures
            final(self).wf(),
            evolves(old(self)@, final(self)@),
            match create_refusal(
                old(self)@,
                caller@,
                now,
                name@,
                tournament_key@,
                game_type_id@,
                form,
                interval,
                minimum_stake,
                ft_address@,
                option_view(country),
            ) {
                Some(e) => r == Err::<Tournament, Error>(e) && *final(self) == *old(self),
                None => {
                    &&& r is Ok
                    &&& r->Ok_0@ == created(
                        old(self)@,
                        caller@,
                        now,
                        name@,
                        tournament_key@,
                        game_type_id@,
                        form,
                        interval,
                        minimum_stake,
                        ft_address@,
                        option_view(country),
                        old(self)@.stakes[(caller@, ft_address@)],
                    )
                    &&& final(self)@ == (WordchainView {
                        tournaments: old(self)@.tournaments.push(r->Ok_0@),
                        stakes: old(self)@.stakes.insert((caller@, ft_address@), 0),
                        ..old(self)@
                    })
                },
            },
    {
        let ghost pre = self@;
        let recorded_country: String = match form {
            TournamentType::COUNTRY_BASED => {
                match country {
                    Some(c) => {
                        if !self.supports(&c) {
                            return Err(Error::InvalidCountry);
                        }
                        c
                    },
                    None => { return Err(Error::InvalidCountry); },
                }
            },
            _ => String::new(),
        };
        if self.find_by_key_or_name(&tournament_key, &name).is_some() {
            return Err(Error::AlreadyExists);
        }
        if self.find_game_type(&game_type_id).is_none() {
            return Err(Error::NotFound);
        }
        let held: u128 = match self.stakes.balance(&caller, &ft_address) {
            Some(b) => b,
            None => { return Err(Error::InsufficientStake); },
        };
        if held < minimum_stake {
            return Err(Error::InsufficientStake);
        }
        let span: u64 = match interval.checked_mul(DAY_TO_MS) {
            Some(v) => v,
            None => { return Err(Error::Overflow); },
        };
        let deadline: u64 = match now.checked_add(span) {
            Some(v) => v,
            None => { return Err(Error::Overflow); },
        };
        let swept: u128 = match self.stakes.consume(&caller, &ft_address, minimum_stake) {
            Ok(s) => s,
            Err(e) => { return Err(e); },
        };
        let mut players: Vec<TournamentPlayer> = Vec::new();
        if !(caller == self.owner) {
            players.push(
                TournamentPlayer {
                    id: 1,
                    account_id: caller.clone(),
                    stake_amount: swept,
                    score: 0,
                    number_of_games_played: 0,
                    join_date: now,
                },
            );
        }
        let tournament = Tournament {
            id: self.tournaments.len() as u128 + 1,
            name,
            tournament_key,
            game_type_id,
            owner: caller,
            minimum_stake,
            created_at: now,
            total_stake: swept,
            country: recorded_country,
            ft_address,
            tournament_deadline: deadline,
            tournament_type: form,
            status: TournamentState::PENDING_VOLUME,
            players,
        };
        let copy = tournament.duplicate();
        proof {
            let t = created(
                pre,
                caller@,
                now,
                name@,
                tournament_key@,
                game_type_id@,
                form,
                interval,
                minimum_stake,
                ft_address@,
                option_view(country),
                swept,
            );
            assert(tournament@.players =~= t.players);
            assert(tournament@.country =~= t.country);
            assert(tournament@ == t);
            if t.players.len() > 0 {
                lemma_stake_sum_push(Seq::<PlayerView>::empty(), t.players[0]);
                assert(t.players =~= Seq::<PlayerView>::empty().push(t.players[0]));
            }
            assert(t.wf());
        }
        self.tournaments.push(tournament);
        proof {
            let post = WordchainView {
                tournaments: pre.tournaments.push(copy@),
                stakes: pre.stakes.insert((caller@, ft_address@), 0),
                ..pre
            };
            assert(self@.tournaments =~= post.tournaments);
            assert(self@ == post);
            assert(self.tournaments.len() == self.tournaments@.len());
            assert forall|i: int, j: int| 0 <= i < j < self@.tournaments.len() implies {
                &&& (#[trigger] self@.tournaments[i]).name != (#[trigger] self@.tournaments[j]).name
                &&& self@.tournaments[i].tournament_key != self@.tournaments[j].tournament_key
            } by {
                if j == pre.tournaments.len() {
                    assert(!matches_key_or_name(pre.tournaments[i], tournament_key@, name@));
                }
            }
        }
        Ok(copy)
    }
}

} // verus!
