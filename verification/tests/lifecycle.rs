use wordchain::{Error, Tournament, TournamentState, TournamentType, Wordchain, DAY_TO_MS};

fn s(text: &str) -> String {
    text.to_string()
}

/// A platform owned by "house" with quorum 4, commission 10% and one game type.
fn platform() -> Wordchain {
    let mut w = Wordchain::new(s("house"), s("platform"), 1001, s("NG|GH|KE"), 4).unwrap();
    w.set_percentage_stake_commission(s("house"), 1000).unwrap();
    w.register_game_type(s("house"), s("classic"), 50).unwrap();
    w
}

fn fund(w: &mut Wordchain, who: &str, amount: u128) {
    assert_eq!(w.ft_on_transfer(s(who), s("usdc"), amount, s("")), Ok(0));
}

fn open_public(w: &mut Wordchain, creator: &str, minimum: u128) -> Tournament {
    w.create_tournament(
        s(creator),
        1_000,
        s("cup"),
        s("cup-key"),
        s("classic"),
        TournamentType::PUBLIC,
        2,
        minimum,
        s("usdc"),
        None,
    )
    .unwrap()
}

fn join_public(w: &mut Wordchain, who: &str) -> Result<(), Error> {
    w.join_tournament(s(who), 2_000, 1, s(""), None)
}

#[test]
fn create_records_the_tournament() {
    let mut w = platform();
    fund(&mut w, "alice", 150);
    let t = open_public(&mut w, "alice", 100);
    assert_eq!(t.id, 1);
    assert_eq!(t.name, "cup");
    assert_eq!(t.tournament_key, "cup-key");
    assert_eq!(t.owner, "alice");
    assert_eq!(t.minimum_stake, 100);
    assert_eq!(t.created_at, 1_000);
    assert_eq!(t.tournament_deadline, 1_000 + 2 * DAY_TO_MS);
    assert_eq!(t.status, TournamentState::PENDING_VOLUME);
    assert_eq!(t.country, "");
    assert_eq!(t.players.len(), 1);
    assert_eq!(t.players[0].id, 1);
    assert_eq!(t.players[0].account_id, "alice");
    // The whole escrow is swept, and all of it is the stake.
    assert_eq!(t.players[0].stake_amount, 150);
    assert_eq!(t.total_stake, 150);
    assert_eq!(w.stakes.balance(&s("alice"), &s("usdc")), Some(0));
    assert_eq!(w.tournaments.len(), 1);
}

#[test]
fn platform_owner_creates_without_playing() {
    let mut w = platform();
    fund(&mut w, "house", 70);
    let t = open_public(&mut w, "house", 50);
    assert_eq!(t.players.len(), 0);
    assert_eq!(t.total_stake, 70);
}

#[test]
fn quorum_activates_once() {
    let mut w = platform();
    fund(&mut w, "alice", 100);
    open_public(&mut w, "alice", 100);
    for (n, who) in ["bob", "carol"].iter().enumerate() {
        fund(&mut w, who, 100);
        assert_eq!(join_public(&mut w, who), Ok(()));
        assert_eq!(w.tournaments[0].players.len(), n + 2);
        assert_eq!(w.tournaments[0].status, TournamentState::PENDING_VOLUME);
    }
    fund(&mut w, "dave", 100);
    assert_eq!(join_public(&mut w, "dave"), Ok(()));
    assert_eq!(w.tournaments[0].players.len(), 4);
    assert_eq!(w.tournaments[0].status, TournamentState::ACTIVE);
    fund(&mut w, "erin", 100);
    assert_eq!(join_public(&mut w, "erin"), Ok(()));
    assert_eq!(w.tournaments[0].players.len(), 5);
    assert_eq!(w.tournaments[0].status, TournamentState::ACTIVE);
}

#[test]
fn player_ids_follow_join_order() {
    let mut w = platform();
    fund(&mut w, "alice", 100);
    open_public(&mut w, "alice", 100);
    for who in ["bob", "carol", "dave", "erin", "frank"] {
        fund(&mut w, who, 100);
        let before = w.tournaments[0].players.len();
        assert_eq!(join_public(&mut w, who), Ok(()));
        assert_eq!(w.tournaments[0].players.len(), before + 1);
    }
    let names = ["alice", "bob", "carol", "dave", "erin", "frank"];
    for (i, p) in w.tournaments[0].players.iter().enumerate() {
        assert_eq!(p.id, i as u128 + 1);
        assert_eq!(p.account_id, names[i]);
    }
}

#[test]
fn join_sweeps_the_whole_escrow() {
    let mut w = platform();
    fund(&mut w, "alice", 100);
    open_public(&mut w, "alice", 100);
    fund(&mut w, "bob", 130);
    fund(&mut w, "bob", 20);
    assert_eq!(join_public(&mut w, "bob"), Ok(()));
    assert_eq!(w.tournaments[0].players[1].stake_amount, 150);
    assert_eq!(w.tournaments[0].players[1].join_date, 2_000);
    assert_eq!(w.tournaments[0].total_stake, 250);
    assert_eq!(w.stakes.balance(&s("bob"), &s("usdc")), Some(0));
}

#[test]
fn refused_join_changes_nothing() {
    let mut w = platform();
    fund(&mut w, "alice", 100);
    open_public(&mut w, "alice", 100);
    // Unknown tournament.
    assert_eq!(w.join_tournament(s("bob"), 2_000, 2, s(""), None), Err(Error::NotFound));
    assert_eq!(w.join_tournament(s("bob"), 2_000, 0, s(""), None), Err(Error::NotFound));
    // The owner of the tournament.
    fund(&mut w, "alice", 100);
    assert_eq!(join_public(&mut w, "alice"), Err(Error::Forbidden));
    // No deposit, then too small a deposit.
    assert_eq!(join_public(&mut w, "bob"), Err(Error::InsufficientStake));
    fund(&mut w, "bob", 99);
    assert_eq!(join_public(&mut w, "bob"), Err(Error::InsufficientStake));
    assert_eq!(w.stakes.balance(&s("bob"), &s("usdc")), Some(99));
    // At the deadline.
    fund(&mut w, "bob", 1);
    let deadline = w.tournaments[0].tournament_deadline;
    assert_eq!(w.join_tournament(s("bob"), deadline, 1, s(""), None), Err(Error::DeadlinePassed));
    assert_eq!(w.tournaments[0].players.len(), 1);
    assert_eq!(w.stakes.balance(&s("bob"), &s("usdc")), Some(100));
    assert_eq!(w.join_tournament(s("bob"), deadline - 1, 1, s(""), None), Ok(()));
}

#[test]
fn private_tournament_asks_for_its_key() {
    let mut w = platform();
    fund(&mut w, "alice", 10);
    w.create_tournament(
        s("alice"),
        0,
        s("secret cup"),
        s("abc"),
        s("classic"),
        TournamentType::PRIVATE,
        1,
        10,
        s("usdc"),
        None,
    )
    .unwrap();
    fund(&mut w, "bob", 10);
    assert_eq!(w.join_tournament(s("bob"), 5, 1, s(""), Some(s("xyz"))), Err(Error::Unauthorized));
    assert_eq!(w.join_tournament(s("bob"), 5, 1, s(""), None), Err(Error::Unauthorized));
    assert_eq!(w.tournaments[0].players.len(), 1);
    assert_eq!(w.join_tournament(s("bob"), 5, 1, s(""), Some(s("abc"))), Ok(()));
    assert_eq!(w.tournaments[0].players.len(), 2);
}

#[test]
fn country_tournament_asks_for_its_country() {
    let mut w = platform();
    fund(&mut w, "alice", 10);
    let make = |w: &mut Wordchain, country: Option<String>| {
        w.create_tournament(
            s("alice"),
            0,
            s("home cup"),
            s("home"),
            s("classic"),
            TournamentType::COUNTRY_BASED,
            1,
            10,
            s("usdc"),
            country,
        )
    };
    assert_eq!(make(&mut w, None).err(), Some(Error::InvalidCountry));
    assert_eq!(make(&mut w, Some(s("US"))).err(), Some(Error::InvalidCountry));
    let t = make(&mut w, Some(s("GH"))).unwrap();
    assert_eq!(t.country, "GH");
    fund(&mut w, "bob", 10);
    assert_eq!(w.join_tournament(s("bob"), 5, 1, s("NG"), None), Err(Error::InvalidCountry));
    assert_eq!(w.join_tournament(s("bob"), 5, 1, s("GH"), None), Ok(()));
}

#[test]
fn create_refusals() {
    let mut w = platform();
    fund(&mut w, "alice", 100);
    open_public(&mut w, "alice", 100);
    fund(&mut w, "bob", 100);
    let make = |w: &mut Wordchain, name: &str, key: &str, game: &str, minimum: u128, days: u64| {
        w.create_tournament(
            s("bob"),
            1_000,
            s(name),
            s(key),
            s(game),
            TournamentType::PUBLIC,
            days,
            minimum,
            s("usdc"),
            None,
        )
        .err()
    };
    assert_eq!(make(&mut w, "cup", "other", "classic", 100, 1), Some(Error::AlreadyExists));
    assert_eq!(make(&mut w, "other", "cup-key", "classic", 100, 1), Some(Error::AlreadyExists));
    assert_eq!(make(&mut w, "other", "other", "blitz", 100, 1), Some(Error::NotFound));
    assert_eq!(make(&mut w, "other", "other", "classic", 101, 1), Some(Error::InsufficientStake));
    assert_eq!(make(&mut w, "other", "other", "classic", 100, u64::MAX), Some(Error::Overflow));
    assert_eq!(w.tournaments.len(), 1);
    assert_eq!(w.stakes.balance(&s("bob"), &s("usdc")), Some(100));
    assert_eq!(make(&mut w, "other", "other", "classic", 100, 1), None);
    assert_eq!(w.tournaments.len(), 2);
    assert_eq!(w.tournaments[1].id, 2);
}

#[test]
fn create_without_deposit_is_refused() {
    let mut w = platform();
    let r = w.create_tournament(
        s("alice"),
        0,
        s("cup"),
        s("k"),
        s("classic"),
        TournamentType::PUBLIC,
        1,
        0,
        s("usdc"),
        None,
    );
    assert_eq!(r.err(), Some(Error::InsufficientStake));
}

fn active_cup() -> Wordchain {
    let mut w = platform();
    fund(&mut w, "alice", 100);
    open_public(&mut w, "alice", 100);
    for who in ["bob", "carol", "dave"] {
        fund(&mut w, who, 100);
        join_public(&mut w, who).unwrap();
    }
    w
}

#[test]
fn score_accumulates() {
    let mut w = active_cup();
    assert_eq!(w.publish_score(s("bob"), 3_000, 1, 40), Ok(()));
    assert_eq!(w.publish_score(s("bob"), 3_000, 1, 50), Ok(()));
    assert_eq!(w.publish_score(s("carol"), 3_000, 1, 0), Ok(()));
    let p = &w.tournaments[0].players;
    assert_eq!((p[1].score, p[1].number_of_games_played), (90, 2));
    assert_eq!((p[2].score, p[2].number_of_games_played), (0, 1));
    assert_eq!((p[0].score, p[0].number_of_games_played), (0, 0));
    assert_eq!(p[1].account_id, "bob");
    assert_eq!(p[1].stake_amount, 100);
}

#[test]
fn score_above_maximum_is_refused() {
    let mut w = active_cup();
    w.publish_score(s("bob"), 3_000, 1, 10).unwrap();
    assert_eq!(w.publish_score(s("bob"), 3_000, 1, 51), Err(Error::ScoreOutOfRange));
    assert_eq!(w.tournaments[0].players[1].score, 10);
    assert_eq!(w.tournaments[0].players[1].number_of_games_played, 1);
}

#[test]
fn score_of_a_stranger_changes_nothing() {
    let mut w = active_cup();
    assert_eq!(w.publish_score(s("zed"), 3_000, 1, 10), Ok(()));
    for p in w.tournaments[0].players.iter() {
        assert_eq!((p.score, p.number_of_games_played), (0, 0));
    }
}

#[test]
fn score_refusals() {
    let mut w = platform();
    fund(&mut w, "alice", 100);
    open_public(&mut w, "alice", 100);
    assert_eq!(w.publish_score(s("alice"), 3_000, 7, 1), Err(Error::NotFound));
    assert_eq!(w.publish_score(s("alice"), 3_000, 1, 1), Err(Error::NotActive));
    let deadline = w.tournaments[0].tournament_deadline;
    assert_eq!(w.publish_score(s("alice"), deadline, 1, 1), Err(Error::DeadlinePassed));
}

#[test]
fn score_that_does_not_fit_is_refused() {
    let mut w = active_cup();
    // One game of a type without a bound worth speaking of.
    w.game_types[0].max_score = u64::MAX;
    w.tournaments[0].players[1].score = u64::MAX - 5;
    w.tournaments[0].players[1].number_of_games_played = 1;
    assert!(w.check_wf());
    assert_eq!(w.publish_score(s("bob"), 3_000, 1, 6), Err(Error::Overflow));
    assert_eq!(w.tournaments[0].players[1].score, u64::MAX - 5);
    assert_eq!(w.publish_score(s("bob"), 3_000, 1, 5), Ok(()));
    assert_eq!(w.tournaments[0].players[1].score, u64::MAX);
}

#[test]
fn lookup_returns_the_last_match() {
    let mut w = platform();
    fund(&mut w, "alice", 10);
    open_public(&mut w, "alice", 10);
    fund(&mut w, "bob", 10);
    w.create_tournament(
        s("bob"),
        0,
        s("league"),
        s("league-key"),
        s("classic"),
        TournamentType::PUBLIC,
        1,
        10,
        s("usdc"),
        None,
    )
    .unwrap();
    assert!(w.get_tournament_by_key_or_name(s("none"), s("none")).is_none());
    assert_eq!(w.get_tournament_by_key_or_name(s("cup-key"), s("none")).unwrap().id, 1);
    assert_eq!(w.get_tournament_by_key_or_name(s("none"), s("league")).unwrap().id, 2);
    // The key of the first and the name of the second: the second is later.
    assert_eq!(w.get_tournament_by_key_or_name(s("cup-key"), s("league")).unwrap().id, 2);
    let all = w.get_all_tournaments(None);
    assert_eq!(all.len(), 2);
    assert_eq!((all[0].id, all[1].id), (1, 2));
    let of_bob = w.get_all_tournaments(Some(s("bob")));
    assert_eq!(of_bob.len(), 1);
    assert_eq!(of_bob[0].name, "league");
    assert_eq!(of_bob[0].players.len(), 1);
    assert_eq!(of_bob[0].players[0].account_id, "bob");
    assert_eq!(w.get_all_tournaments(Some(s("zed"))).len(), 0);
}

#[test]
fn well_formedness_is_decided() {
    let w = active_cup();
    assert!(w.check_wf());
    let spoil = |change: fn(&mut Wordchain)| {
        let mut w = active_cup();
        w.publish_score(s("bob"), 3_000, 1, 50).unwrap();
        assert!(w.check_wf());
        change(&mut w);
        w.check_wf()
    };
    assert!(!spoil(|w| w.percentage_stake_commission = 999));
    assert!(!spoil(|w| w.percentage_stake_commission = 10_001));
    assert!(!spoil(|w| w.min_tournament_players = 3));
    assert!(!spoil(|w| w.tournaments[0].id = 2));
    assert!(!spoil(|w| w.tournaments[0].players[2].id = 2));
    assert!(!spoil(|w| {
        w.tournaments[0].players.pop();
    }));
    assert!(!spoil(|w| w.tournaments[0].players[1].score = 51));
    assert!(!spoil(|w| w.tournaments[0].game_type_id = s("blitz")));
    assert!(!spoil(|w| w.tournaments[0].total_stake = 399));
    assert!(!spoil(|w| w.tournaments[0].players[3].stake_amount = 101));
    assert!(!spoil(|w| w.tournaments[0].players[3].stake_amount = u128::MAX));
    assert!(!spoil(|w| {
        let copy = w.tournaments[0].duplicate();
        w.tournaments.push(copy);
    }));
    assert!(!spoil(|w| {
        w.stakes.entries[0].depositor = s("bob");
    }));
    assert!(spoil(|w| w.tournaments[0].players[1].score = 49));
}

#[test]
fn scores_stay_within_the_bound_of_the_game_type() {
    let mut w = active_cup();
    for round in 1..=5u64 {
        w.publish_score(s("bob"), 3_000, 1, 50).unwrap();
        w.publish_score(s("carol"), 3_000, 1, 7).unwrap();
        for p in w.tournaments[0].players.iter() {
            assert!(p.score <= 50 * p.number_of_games_played);
        }
        assert_eq!(w.tournaments[0].players[1].score, 50 * round);
    }
    // A game type registered later under the same identifier changes nothing.
    w.register_game_type(s("house"), s("classic"), 5).unwrap();
    assert_eq!(w.publish_score(s("bob"), 3_000, 1, 50), Ok(()));
    assert!(w.check_wf());
}
