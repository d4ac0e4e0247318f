//! Staked, score-based tournaments: an escrow ledger that gates entry, a
//! tournament registry with its lifecycle, and a settlement step that turns a
//! finished tournament into transfer intents.
//!
//! The engine never reads a clock and never learns who calls it by itself:
//! every operation takes the caller's identity and the current time as plain
//! values, and settlement hands back the transfers that are to be made rather
//! than making them.

pub mod types;
pub mod escrow;
pub mod prizes;
pub mod ranking;
pub mod countries;
pub mod engine;
pub mod registry;
pub mod admission;
pub mod scoring;
pub mod settlement;
pub mod administration;
pub mod laws;

pub use crate::engine::Wordchain;
pub use crate::escrow::{CommissionPool, EscrowLedger};
pub use crate::types::{
    Error, GameType, Tournament, TournamentPlayer, TournamentState, TournamentType,
    TransferIntent, DAY_TO_MS,
};
