use wordchain::countries::{check_names_a_country, split_countries};
use wordchain::{CommissionPool, Error, EscrowLedger, Wordchain};

fn n(text: &str) -> String {
    text.to_string()
}

fn fresh() -> Wordchain {
    Wordchain::new(n("house"), n("platform"), 1500, n("NG|GH"), 5).unwrap()
}

#[test]
fn consume_sweeps_the_whole_balance() {
    let mut l = EscrowLedger::new();
    assert_eq!(l.balance(&n("bob"), &n("usdc")), None);
    assert_eq!(l.deposit(&n("bob"), &n("usdc"), 70), Ok(()));
    assert_eq!(l.deposit(&n("bob"), &n("usdc"), 30), Ok(()));
    assert_eq!(l.deposit(&n("bob"), &n("dai"), 5), Ok(()));
    assert_eq!(l.deposit(&n("eve"), &n("usdc"), 9), Ok(()));
    assert_eq!(l.balance(&n("bob"), &n("usdc")), Some(100));
    assert_eq!(l.consume(&n("bob"), &n("usdc"), 60), Ok(100));
    assert_eq!(l.balance(&n("bob"), &n("usdc")), Some(0));
    assert_eq!(l.balance(&n("bob"), &n("dai")), Some(5));
    assert_eq!(l.balance(&n("eve"), &n("usdc")), Some(9));
    // A swept balance is there, and is nothing.
    assert_eq!(l.consume(&n("bob"), &n("usdc"), 0), Ok(0));
    assert_eq!(l.consume(&n("bob"), &n("usdc"), 1), Err(Error::InsufficientStake));
}

#[test]
fn consume_below_the_minimum_leaves_the_balance() {
    let mut l = EscrowLedger::new();
    l.deposit(&n("bob"), &n("usdc"), 59).unwrap();
    assert_eq!(l.consume(&n("bob"), &n("usdc"), 60), Err(Error::InsufficientStake));
    assert_eq!(l.balance(&n("bob"), &n("usdc")), Some(59));
    assert_eq!(l.consume(&n("bob"), &n("usdc"), 59), Ok(59));
    // Nobody deposited: refused even for a minimum of nothing.
    assert_eq!(l.consume(&n("zed"), &n("usdc"), 0), Err(Error::InsufficientStake));
    assert_eq!(l.balance(&n("zed"), &n("usdc")), None);
}

#[test]
fn deposit_that_does_not_fit_is_refused() {
    let mut l = EscrowLedger::new();
    l.deposit(&n("bob"), &n("usdc"), u128::MAX - 1).unwrap();
    assert_eq!(l.deposit(&n("bob"), &n("usdc"), 2), Err(Error::Overflow));
    assert_eq!(l.balance(&n("bob"), &n("usdc")), Some(u128::MAX - 1));
    assert_eq!(l.deposit(&n("bob"), &n("usdc"), 1), Ok(()));
    assert_eq!(l.balance(&n("bob"), &n("usdc")), Some(u128::MAX));
}

#[test]
fn pool_accrues_per_token() {
    let mut p = CommissionPool::new();
    assert_eq!(p.accrued(&n("usdc")), 0);
    assert_eq!(p.accrue(&n("usdc"), 7), Ok(()));
    assert_eq!(p.accrue(&n("dai"), 1), Ok(()));
    assert_eq!(p.accrue(&n("usdc"), 8), Ok(()));
    assert_eq!(p.accrued(&n("usdc")), 15);
    assert_eq!(p.accrued(&n("dai")), 1);
    assert_eq!(p.accrue(&n("dai"), u128::MAX), Err(Error::Overflow));
    assert_eq!(p.accrued(&n("dai")), 1);
}

#[test]
fn transfer_notice_credits_the_escrow() {
    let mut w = fresh();
    assert_eq!(w.ft_on_transfer(n("bob"), n("usdc"), 40, n("tournament 1")), Ok(0));
    assert_eq!(w.ft_on_transfer(n("bob"), n("usdc"), 2, n("")), Ok(0));
    assert_eq!(w.stakes.balance(&n("bob"), &n("usdc")), Some(42));
    assert_eq!(w.ft_on_transfer(n("bob"), n("usdc"), u128::MAX, n("")), Err(Error::Overflow));
    assert_eq!(w.stakes.balance(&n("bob"), &n("usdc")), Some(42));
}

#[test]
fn countries_are_parted_at_bars() {
    assert_eq!(split_countries("NG|GH|KE"), vec!["NG", "GH", "KE"]);
    assert_eq!(split_countries("NG"), vec!["NG"]);
    assert_eq!(split_countries(""), vec![""]);
    assert_eq!(split_countries("NG|"), vec!["NG", ""]);
    assert_eq!(split_countries("|a||b"), vec!["", "a", "", "b"]);
    assert_eq!(split_countries("x\u{e9}|\u{e9}y"), vec!["x\u{e9}", "\u{e9}y"]);
}

#[test]
fn a_list_of_countries_needs_three_bytes_besides_bars() {
    assert!(check_names_a_country("NGA"));
    assert!(check_names_a_country("N|G|A"));
    assert!(!check_names_a_country("NG"));
    assert!(!check_names_a_country("N|G||"));
    assert!(!check_names_a_country(""));
    // Two letters, one of two bytes.
    assert!(check_names_a_country("a\u{e9}"));
}

#[test]
fn setup_checks_its_values() {
    let w = fresh();
    assert!(!w.paused);
    assert_eq!(w.owner, "house");
    assert_eq!(w.pending_owner, "platform");
    assert_eq!(w.min_tournament_players, 5);
    assert_eq!(w.percentage_stake_commission, 1500);
    assert_eq!(w.supported_countries, vec!["NG", "GH"]);
    assert_eq!(w.tournaments.len(), 0);
    assert_eq!(w.game_types.len(), 0);
    let bad = |rate: u64, countries: &str, quorum: u8| {
        Wordchain::new(n("house"), n("platform"), rate, n(countries), quorum).err()
    };
    assert_eq!(bad(1500, "NG|GH", 3), Some(Error::InvalidParameter));
    assert_eq!(bad(1000, "NG|GH", 4), Some(Error::InvalidParameter));
    assert_eq!(bad(10_001, "NG|GH", 4), Some(Error::InvalidParameter));
    assert_eq!(bad(1500, "N|G", 4), Some(Error::InvalidParameter));
    assert_eq!(bad(1001, "NGA", 4), None);
    assert_eq!(bad(10_000, "NGA", 255), None);
}

#[test]
fn ownership_is_handed_over_in_two_steps() {
    let mut w = fresh();
    assert_eq!(w.transfer_ownership(n("bob"), n("bob")), Err(Error::Unauthorized));
    assert_eq!(w.transfer_ownership(n("house"), n("heir")), Ok(()));
    assert_eq!(w.owner, "house");
    assert_eq!(w.pending_owner, "heir");
    assert_eq!(w.accept_ownership(n("bob"), n("platform")), Err(Error::Unauthorized));
    assert_eq!(w.accept_ownership(n("house"), n("platform")), Err(Error::Unauthorized));
    assert_eq!(w.accept_ownership(n("heir"), n("platform")), Ok(()));
    assert_eq!(w.owner, "heir");
    assert_eq!(w.pending_owner, "platform");
    assert_eq!(w.pause_contract(n("house")), Err(Error::Unauthorized));
    assert_eq!(w.pause_contract(n("heir")), Ok(()));
}

#[test]
fn pause_and_unpause_guard_against_repetition() {
    let mut w = fresh();
    assert_eq!(w.unpause_contract(n("house")), Err(Error::NotPaused));
    assert_eq!(w.unpause_contract(n("bob")), Err(Error::Unauthorized));
    assert_eq!(w.pause_contract(n("bob")), Err(Error::Unauthorized));
    assert_eq!(w.pause_contract(n("house")), Ok(()));
    assert!(w.paused);
    assert_eq!(w.pause_contract(n("house")), Err(Error::AlreadyPaused));
    assert_eq!(w.unpause_contract(n("house")), Ok(()));
    assert!(!w.paused);
}

#[test]
fn setters_check_owner_and_bounds() {
    let mut w = fresh();
    assert_eq!(w.set_min_players(n("bob"), 9), Err(Error::Unauthorized));
    assert_eq!(w.set_min_players(n("house"), 3), Err(Error::InvalidParameter));
    assert_eq!(w.set_min_players(n("house"), 4), Ok(()));
    assert_eq!(w.min_tournament_players, 4);
    assert_eq!(w.set_percentage_stake_commission(n("bob"), 2000), Err(Error::Unauthorized));
    assert_eq!(w.set_percentage_stake_commission(n("house"), 999), Err(Error::InvalidParameter));
    assert_eq!(
        w.set_percentage_stake_commission(n("house"), 10_001),
        Err(Error::InvalidParameter)
    );
    assert_eq!(w.percentage_stake_commission, 1500);
    assert_eq!(w.set_percentage_stake_commission(n("house"), 1000), Ok(()));
    assert_eq!(w.percentage_stake_commission, 1000);
    assert_eq!(w.get_position_prizes(), vec![4500, 3060, 1440]);
}

#[test]
fn countries_are_appended() {
    let mut w = fresh();
    assert!(w.check_supported_country(n("GH")));
    assert!(!w.check_supported_country(n("KE")));
    assert!(!w.check_supported_country(n("")));
    assert_eq!(w.add_supported_country(n("bob"), n("KE")), Err(Error::Unauthorized));
    assert!(!w.check_supported_country(n("KE")));
    assert_eq!(w.add_supported_country(n("house"), n("KE|UG")), Ok(()));
    assert_eq!(w.supported_countries, vec!["NG", "GH", "KE", "UG"]);
    assert!(w.check_supported_country(n("KE")));
}

#[test]
fn game_types_are_listed_by_identifier() {
    let mut w = fresh();
    assert_eq!(w.register_game_type(n("bob"), n("classic"), 10), Err(Error::Unauthorized));
    assert_eq!(w.register_game_type(n("house"), n("classic"), 10), Ok(()));
    assert_eq!(w.register_game_type(n("house"), n("blitz"), 20), Ok(()));
    let all = w.get_gametypes(None);
    assert_eq!(all.len(), 2);
    assert_eq!((all[0].identifier.as_str(), all[0].max_score), ("classic", 10));
    assert_eq!((all[1].identifier.as_str(), all[1].max_score), ("blitz", 20));
    let blitz = w.get_gametypes(Some(n("blitz")));
    assert_eq!(blitz.len(), 1);
    assert_eq!((blitz[0].identifier.as_str(), blitz[0].max_score), ("blitz", 20));
    assert_eq!(w.get_gametypes(Some(n("chess"))).len(), 0);
}

#[test]
fn withdrawal_is_bounded_by_the_pool() {
    let mut w = fresh();
    w.stake_payouts.accrue(&n("usdc"), 90).unwrap();
    assert_eq!(
        w.withdraw_value(n("bob"), n("bob"), n("usdc"), None).err(),
        Some(Error::Unauthorized)
    );
    assert_eq!(
        w.withdraw_value(n("house"), n("vault"), n("usdc"), Some(91)).err(),
        Some(Error::InvalidParameter)
    );
    let (left, intent) = w.withdraw_value(n("house"), n("vault"), n("usdc"), Some(30)).unwrap();
    assert_eq!(left, 60);
    assert_eq!((intent.token.as_str(), intent.to.as_str(), intent.amount), ("usdc", "vault", 30));
    let (left, intent) = w.withdraw_value(n("house"), n("vault"), n("usdc"), None).unwrap();
    assert_eq!(left, 0);
    assert_eq!(intent.amount, 90);
    let (left, intent) = w.withdraw_value(n("house"), n("vault"), n("dai"), None).unwrap();
    assert_eq!((left, intent.amount), (0, 0));
}
