//! Challenge lifecycle: states, the forward-only transition rule, and the
//! guard predicates that gate every operation.

use vstd::prelude::*;

verus! {

/// Lifecycle state of a challenge.
///
/// `Claimed` and `Cancelled` are distinct variants here, although the numeric
/// code of `state_code` maps both to the same value: the code alone cannot
/// tell the two terminal states apart. Use the enum wherever the distinction
/// matters.
#[derive(Clone, Copy, Debug, PartialEq, Eq, Structural)]
pub enum ChallengeState {
    Pending,
    Ongoing,
    Voting,
    VotingFinished,
    Claimed,
    Cancelled,
}

/// Position of a state along the forward chain
/// `Pending -> Ongoing -> Voting -> VotingFinished -> Claimed`, with
/// `Cancelled` beyond all of them.
pub open spec fn state_order(s: ChallengeState) -> int {
    match s {
        ChallengeState::Pending => 0,
        ChallengeState::Ongoing => 1,
        ChallengeState::Voting => 2,
        ChallengeState::VotingFinished => 3,
        ChallengeState::Claimed => 4,
        ChallengeState::Cancelled => 5,
    }
}

/// A terminal state admits no further transition.
pub open spec fn is_terminal(s: ChallengeState) -> bool {
    s == ChallengeState::Claimed || s == ChallengeState::Cancelled
}

/// Forward-only transition: move to `tgt` only when that is a strict step
/// forward from a non-terminal state; otherwise stay put.
pub open spec fn spec_advance(cur: ChallengeState, tgt: ChallengeState) -> ChallengeState {
    if !is_terminal(cur) && state_order(cur) < state_order(tgt) {
        tgt
    } else {
        cur
    }
}

/// Placing a stake is illegal while the challenge is in voting or in a
/// terminal state.
pub open spec fn stake_allowed(s: ChallengeState) -> bool {
    s != ChallengeState::Voting && s != ChallengeState::Claimed && s != ChallengeState::Cancelled
}

/// The settlement preview is illegal only while voting is in progress.
pub open spec fn settlement_read_allowed(s: ChallengeState) -> bool {
    s != ChallengeState::Voting
}

/// Claiming the payout is illegal once the challenge is terminal.
pub open spec fn claim_allowed(s: ChallengeState) -> bool {
    s != ChallengeState::Claimed && s != ChallengeState::Cancelled
}

/// Numeric code of a state.
///
/// `Claimed` and `Cancelled` share code 5: a serialized status cannot
/// distinguish the two. This collision is deliberate and documented; callers
/// that need the distinction must keep the enum.
pub fn state_code(s: ChallengeState) -> (code: u8)
    ensures
        code == spec_state_code(s),
{
    match s {
        ChallengeState::Pending => 1,
        ChallengeState::Ongoing => 2,
        ChallengeState::Voting => 3,
        ChallengeState::VotingFinished => 4,
        ChallengeState::Claimed => 5,
        ChallengeState::Cancelled => 5,
    }
}

/// Specification mirror of `state_code`, collision included.
pub open spec fn spec_state_code(s: ChallengeState) -> u8 {
    match s {
        ChallengeState::Pending => 1,
        ChallengeState::Ongoing => 2,
        ChallengeState::Voting => 3,
        ChallengeState::VotingFinished => 4,
        ChallengeState::Claimed => 5,
        ChallengeState::Cancelled => 5,
    }
}

/// Executable forward-only transition.
pub fn advance(cur: ChallengeState, tgt: ChallengeState) -> (next: ChallengeState)
    ensures
        next == spec_advance(cur, tgt),
{
    let terminal = match cur {
        ChallengeState::Claimed => true,
        ChallengeState::Cancelled => true,
        _ => false,
    };
    if !terminal && order_index(cur) < order_index(tgt) {
        tgt
    } else {
        cur
    }
}

/// Executable mirror of `state_order`.
fn order_index(s: ChallengeState) -> (idx: u8)
    ensures
        idx == state_order(s),
{
    match s {
        ChallengeState::Pending => 0,
        ChallengeState::Ongoing => 1,
        ChallengeState::Voting => 2,
        ChallengeState::VotingFinished => 3,
        ChallengeState::Claimed => 4,
        ChallengeState::Cancelled => 5,
    }
}

/// Transitions only ever move forward: `spec_advance` never lowers a state's
/// position along the chain, it lands on either the current or the target
/// state, and a terminal state never changes.
pub proof fn lemma_forward_only(cur: ChallengeState, tgt: ChallengeState)
    ensures
        state_order(spec_advance(cur, tgt)) >= state_order(cur),
        spec_advance(cur, tgt) == cur || spec_advance(cur, tgt) == tgt,
        is_terminal(cur) ==> spec_advance(cur, tgt) == cur,
{
}

/// Claiming is final: from any state where a claim is allowed, the claim
/// commits the challenge to `Claimed`, and no further claim is allowed from
/// there — a repeated claim fails with the invalid-state error.
pub proof fn lemma_claim_is_final(s: ChallengeState)
    requires
        claim_allowed(s),
    ensures
        spec_advance(s, ChallengeState::Claimed) == ChallengeState::Claimed,
        !claim_allowed(spec_advance(s, ChallengeState::Claimed)),
{
}

/// The guard table separates `Voting` from the terminal states: claiming is
/// allowed while voting but never once the challenge is claimed or cancelled,
/// and the settlement preview is allowed in the terminal states but never
/// while voting. Placing a stake is allowed in neither.
pub proof fn lemma_guard_exclusion()
    ensures
        claim_allowed(ChallengeState::Voting),
        !claim_allowed(ChallengeState::Claimed),
        !claim_allowed(ChallengeState::Cancelled),
        settlement_read_allowed(ChallengeState::Claimed),
        settlement_read_allowed(ChallengeState::Cancelled),
        !settlement_read_allowed(ChallengeState::Voting),
        !stake_allowed(ChallengeState::Voting),
        !stake_allowed(ChallengeState::Claimed),
        !stake_allowed(ChallengeState::Cancelled),
{
}

} // verus!
