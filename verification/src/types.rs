//! The data that the engine keeps, and the mathematical view of each type.

use vstd::prelude::*;

verus! {

/// Milliseconds in one day.
pub const DAY_TO_MS: u64 = 86400000;

/// The admission rule of a tournament.
#[allow(non_camel_case_types)]
#[derive(Clone, Copy, Debug, PartialEq, Eq, Structural)]
pub enum TournamentType {
    PUBLIC,
    PRIVATE,
    COUNTRY_BASED,
}

/// The lifecycle state of a tournament. `DELETED` is defined, but no operation
/// of the engine sets it.
#[allow(non_camel_case_types)]
#[derive(Clone, Copy, Debug, PartialEq, Eq, Structural)]
pub enum TournamentState {
    PENDING_VOLUME,
    ACTIVE,
    DELETED,
    CLOSED,
}

/// Why an operation was refused. A refused operation changes nothing.
#[derive(Clone, Copy, Debug, PartialEq, Eq, Structural)]
pub enum Error {
    /// No tournament has the given id, or no game type the given identifier.
    NotFound,
    /// The caller lacks the privilege, or gave the wrong key of a private tournament.
    Unauthorized,
    /// The owner of a tournament tried to join it.
    Forbidden,
    /// The country is missing, not supported, or not the tournament's.
    InvalidCountry,
    /// Nothing is in escrow for the token, or less than the required minimum.
    InsufficientStake,
    /// The deadline of the tournament has been reached.
    DeadlinePassed,
    /// The deadline of the tournament has not been reached yet.
    DeadlineNotReached,
    /// The score is above the maximum of the game type.
    ScoreOutOfRange,
    /// The tournament is not active.
    NotActive,
    /// The tournament is closed.
    AlreadyClosed,
    /// A tournament with this key or name exists.
    AlreadyExists,
    /// A configuration value is outside its bounds.
    InvalidParameter,
    /// The engine is paused already.
    AlreadyPaused,
    /// The engine is not paused.
    NotPaused,
    /// An amount, a score or a time would not fit its integer type.
    Overflow,
}

/// A kind of game, with the highest score that one game can give.
#[derive(Debug)]
pub struct GameType {
    pub identifier: String,
    pub max_score: u64,
}

/// The view of a game type: its identifier as a sequence of characters.
pub struct GameTypeView {
    pub identifier: Seq<char>,
    pub max_score: u64,
}

impl View for GameType {
    type V = GameTypeView;

    open spec fn view(&self) -> GameTypeView {
        GameTypeView { identifier: self.identifier@, max_score: self.max_score }
    }
}

impl GameType {
    /// A copy with the same view.
    pub fn duplicate(&self) -> (r: GameType)
        ensures
            r@ == self@,
    {
        GameType { identifier: self.identifier.clone(), max_score: self.max_score }
    }
}

/// One participant of a tournament. Players compare by their fields in the
/// order in which they are declared; the ranking at settlement does not use
/// that order.
#[derive(Debug, Eq, Ord, PartialEq, PartialOrd)]
pub struct TournamentPlayer {
    pub id: u128,
    pub account_id: String,
    pub stake_amount: u128,
    pub score: u64,
    pub number_of_games_played: u64,
    pub join_date: u64,
}

/// The view of a player: the account as a sequence of characters.
pub struct PlayerView {
    pub id: u128,
    pub account_id: Seq<char>,
    pub stake_amount: u128,
    pub score: u64,
    pub number_of_games_played: u64,
    pub join_date: u64,
}

impl View for TournamentPlayer {
    type V = PlayerView;

    open spec fn view(&self) -> PlayerView {
        PlayerView {
            id: self.id,
            account_id: self.account_id@,
            stake_amount: self.stake_amount,
            score: self.score,
            number_of_games_played: self.number_of_games_played,
            join_date: self.join_date,
        }
    }
}

impl TournamentPlayer {
    /// A copy with the same view.
    pub fn duplicate(&self) -> (r: TournamentPlayer)
        ensures
            r@ == self@,
    {
        TournamentPlayer {
            id: self.id,
            account_id: self.account_id.clone(),
            stake_amount: self.stake_amount,
            score: self.score,
            number_of_games_played: self.number_of_games_played,
            join_date: self.join_date,
        }
    }
}

/// The sum of the stakes of the players.
pub open spec fn stake_sum(players: Seq<PlayerView>) -> nat
    decreases players.len(),
{
    if players.len() == 0 {
        0
    } else {
        stake_sum(players.drop_last()) + players.last().stake_amount as nat
    }
}

/// One more player adds the player's stake to the sum.
pub proof fn lemma_stake_sum_push(players: Seq<PlayerView>, p: PlayerView)
    ensures
        stake_sum(players.push(p)) == stake_sum(players) + p.stake_amount,
{
    assert(players.push(p).drop_last() =~= players);
}

/// The sum depends on the stakes alone.
pub proof fn lemma_stake_sum_of_same_stakes(a: Seq<PlayerView>, b: Seq<PlayerView>)
    requires
        a.len() == b.len(),
        forall|i: int| 0 <= i < a.len() ==> (#[trigger] a[i]).stake_amount == b[i].stake_amount,
    ensures
        stake_sum(a) == stake_sum(b),
    decreases a.len(),
{
    if a.len() > 0 {
        assert(a.last().stake_amount == b[a.len() - 1].stake_amount);
        assert forall|i: int| 0 <= i < a.drop_last().len() implies (
        #[trigger] a.drop_last()[i]).stake_amount == b.drop_last()[i].stake_amount by {
            assert(a[i].stake_amount == b[i].stake_amount);
        }
        lemma_stake_sum_of_same_stakes(a.drop_last(), b.drop_last());
    }
}

/// The stakes of the first players sum to no more than those of all.
pub proof fn lemma_stake_sum_monotone(players: Seq<PlayerView>, i: int)
    requires
        0 <= i <= players.len(),
    ensures
        stake_sum(players.take(i)) <= stake_sum(players),
    decreases players.len() - i,
{
    if i == players.len() {
        assert(players.take(i) =~= players);
    } else {
        lemma_stake_sum_monotone(players, i + 1);
        assert(players.take(i + 1).drop_last() =~= players.take(i));
    }
}

/// The views of a sequence of players, in the same order.
pub open spec fn players_view(players: Seq<TournamentPlayer>) -> Seq<PlayerView> {
    Seq::new(players.len(), |i: int| players[i]@)
}

/// A tournament with its players in the order in which they joined.
#[derive(Debug)]
pub struct Tournament {
    pub id: u128,
    pub name: String,
    pub tournament_key: String,
    pub game_type_id: String,
    pub owner: String,
    pub minimum_stake: u128,
    pub created_at: u64,
    pub total_stake: u128,
    pub country: String,
    pub ft_address: String,
    pub tournament_deadline: u64,
    pub tournament_type: TournamentType,
    pub status: TournamentState,
    pub players: Vec<TournamentPlayer>,
}

/// The view of a tournament: its strings as sequences of characters, its
/// players as the sequence of their views.
pub struct TournamentView {
    pub id: u128,
    pub name: Seq<char>,
    pub tournament_key: Seq<char>,
    pub game_type_id: Seq<char>,
    pub owner: Seq<char>,
    pub minimum_stake: u128,
    pub created_at: u64,
    pub total_stake: u128,
    pub country: Seq<char>,
    pub ft_address: Seq<char>,
    pub tournament_deadline: u64,
    pub tournament_type: TournamentType,
    pub status: TournamentState,
    pub players: Seq<PlayerView>,
}

impl TournamentView {
    /// Each player's id is its place in the order of joining, counted from one,
    /// an active tournament has reached the least quorum there can be, the
    /// players can be counted by the machine, and the pool of the tournament
    /// holds at least the stakes of its players.
    pub open spec fn wf(self) -> bool {
        &&& self.players.len() <= usize::MAX
        &&& stake_sum(self.players) <= self.total_stake
        &&& forall|i: int| 0 <= i < self.players.len() ==> (#[trigger] self.players[i]).id == i + 1
        &&& self.status == TournamentState::ACTIVE ==> self.players.len() >= 4
    }
}

impl View for Tournament {
    type V = TournamentView;

    open spec fn view(&self) -> TournamentView {
        TournamentView {
            id: self.id,
            name: self.name@,
            tournament_key: self.tournament_key@,
            game_type_id: self.game_type_id@,
            owner: self.owner@,
            minimum_stake: self.minimum_stake,
            created_at: self.created_at,
            total_stake: self.total_stake,
            country: self.country@,
            ft_address: self.ft_address@,
            tournament_deadline: self.tournament_deadline,
            tournament_type: self.tournament_type,
            status: self.status,
            players: players_view(self.players@),
        }
    }
}

impl Tournament {
    /// A copy with the same view.
    pub fn duplicate(&self) -> (r: Tournament)
        ensures
            r@ == self@,
    {
        let mut players: Vec<TournamentPlayer> = Vec::new();
        let mut i: usize = 0;
        while i < self.players.len()
            invariant
                i <= self.players.len(),
                players.len() == i,
                forall|j: int| 0 <= j < i ==> (#[trigger] players[j])@ == self.players[j]@,
            decreases self.players.len() - i,
        {
            players.push(self.players[i].duplicate());
            i = i + 1;
        }
        assert(players_view(players@) =~= players_view(self.players@));
        Tournament {
            id: self.id,
            name: self.name.clone(),
            tournament_key: self.tournament_key.clone(),
            game_type_id: self.game_type_id.clone(),
            owner: self.owner.clone(),
            minimum_stake: self.minimum_stake,
            created_at: self.created_at,
            total_stake: self.total_stake,
            country: self.country.clone(),
            ft_address: self.ft_address.clone(),
            tournament_deadline: self.tournament_deadline,
            tournament_type: self.tournament_type,
            status: self.status,
            players,
        }
    }
}

/// The views of a sequence of tournaments, in the same order.
pub open spec fn tournaments_view(ts: Seq<Tournament>) -> Seq<TournamentView> {
    Seq::new(ts.len(), |i: int| ts[i]@)
}

/// The views of a sequence of game types, in the same order.
pub open spec fn game_types_view(gs: Seq<GameType>) -> Seq<GameTypeView> {
    Seq::new(gs.len(), |i: int| gs[i]@)
}

/// The views of a sequence of strings, in the same order.
pub open spec fn strings_view(ss: Seq<String>) -> Seq<Seq<char>> {
    Seq::new(ss.len(), |i: int| ss[i]@)
}

/// A transfer that the token service is asked to make: `amount` of `token`
/// to `to`. The engine only states the intent; it never learns the outcome.
#[derive(Debug)]
pub struct TransferIntent {
    pub token: String,
    pub to: String,
    pub amount: u128,
}

/// The view of a transfer intent.
pub struct TransferView {
    pub token: Seq<char>,
    pub to: Seq<char>,
    pub amount: u128,
}

impl View for TransferIntent {
    type V = TransferView;

    open spec fn view(&self) -> TransferView {
        TransferView { token: self.token@, to: self.to@, amount: self.amount }
    }
}

/// The sum of the amounts of the transfers.
pub open spec fn transfers_total(transfers: Seq<TransferView>) -> nat
    decreases transfers.len(),
{
    if transfers.len() == 0 {
        0
    } else {
        transfers_total(transfers.drop_last()) + transfers.last().amount as nat
    }
}

/// The views of a sequence of transfer intents, in the same order.
pub open spec fn transfers_view(ts: Seq<TransferIntent>) -> Seq<TransferView> {
    Seq::new(ts.len(), |i: int| ts[i]@)
}

} // verus!
