//! A pari-mutuel wagering protocol core.
//!
//! Backers place stakes on participants of a challenge, stakeholders vote to
//! pick the winning participants, and a settlement engine redistributes the
//! total pool to backers of the winning side, scaled by finishing rank. The
//! surrounding platform (durable storage, token transfers, account identity)
//! is kept outside: this crate works on plain values and owns all of the
//! protocol's rules.

pub mod arena;
pub mod ledger;
pub mod settle;
pub mod state;
pub mod votes;

use vstd::prelude::*;

verus! {

/// Failures surfaced by the protocol. Every operation is atomic: it either
/// completes fully or returns one of these with no state change.
#[derive(Clone, Copy, Debug, PartialEq, Eq, Structural)]
pub enum ArenaError {
    /// The challenge id is unknown.
    ChallengeNotFound,
    /// The operation is illegal in the challenge's current lifecycle state.
    InvalidState,
    /// The voter has no stake in the challenge.
    NotEligible,
    /// The voter has already cast a ballot for the challenge.
    AlreadyVoted,
    /// Settlement was attempted before any vote was recorded.
    WinnersNotFound,
    /// The challenge's total pool is zero at settlement.
    InvalidPool,
    /// A deposit arrived from an unrecognized token source.
    UnsupportedAsset,
    /// An inbound message could not be understood.
    MalformedRequest,
}

} // verus!
