use arena_protocol::ArenaError;
use arena_protocol::arena::ArenaProtocolContract;
use arena_protocol::state::ChallengeState;

const TOKEN: u64 = 9000;
const ADMIN: u64 = 9001;
const A: u64 = 1;
const B: u64 = 2;
const X: u64 = 10;
const Y: u64 = 11;
const Z: u64 = 12;

fn fresh() -> ArenaProtocolContract {
    ArenaProtocolContract::init(ADMIN, TOKEN)
}

/// Challenge with A staking 100 on X and B staking 50 on Y; both vote for X.
fn two_backers() -> (ArenaProtocolContract, u32) {
    let mut c = fresh();
    let id = c.add_challenge("link".to_string());
    c.place_bet(A, id, X, 100).unwrap();
    c.place_bet(B, id, Y, 50).unwrap();
    c.update_winner_by_challenge(A, id, vec![X]).unwrap();
    c.update_winner_by_challenge(B, id, vec![X]).unwrap();
    (c, id)
}

#[test]
fn rank_one_scenario() {
    let (mut c, id) = two_backers();
    c.check_bet_and_vote_count(id);
    let tally = c.get_winners_and_positions_by_challenge(id).unwrap();
    assert_eq!(tally, vec![(X, 2)]);
    assert_eq!(c.winners_for(id, 1), Some(vec![X]));
    // total_pool = 150, total_on_winners = 100:
    // A earns floor(150 * 100 / 100) = 150, B earns 0.
    let rows = c.calculate_winnings(id, 1).unwrap();
    assert_eq!(rows, vec![(A, 150), (B, 0)]);
}

#[test]
fn rank_two_truncates_instead_of_handling_ties() {
    let mut c = fresh();
    let id = c.add_challenge("link".to_string());
    c.place_bet(A, id, X, 100).unwrap();
    c.place_bet(B, id, Y, 50).unwrap();
    // A's ballot names X, Y and Z; B's names X: tally X=2, Y=1, Z=1.
    c.update_winner_by_challenge(A, id, vec![X, Y, Z]).unwrap();
    c.update_winner_by_challenge(B, id, vec![X]).unwrap();
    c.check_bet_and_vote_count(id);
    // Rank 2 takes the first two sorted rows: the Y/Z tie at the cutoff is
    // split by encounter order, not included in full.
    assert_eq!(c.winners_for(id, 2), Some(vec![X, Y]));
    // The truncated scale factor zeroes every payout beyond rank 1.
    let rows = c.calculate_winnings(id, 2).unwrap();
    assert_eq!(rows, vec![(A, 0), (B, 0)]);
}

#[test]
fn rank_one_includes_every_tied_participant() {
    let mut c = fresh();
    let id = c.add_challenge("link".to_string());
    c.place_bet(A, id, X, 100).unwrap();
    c.place_bet(B, id, Y, 50).unwrap();
    c.update_winner_by_challenge(A, id, vec![X, Y]).unwrap();
    c.update_winner_by_challenge(B, id, vec![X, Y]).unwrap();
    c.check_bet_and_vote_count(id);
    // X and Y tie at the maximum: both win.
    assert_eq!(c.winners_for(id, 1), Some(vec![X, Y]));
    // pool = 150, denom = 150: A earns floor(150*100/150) = 100,
    // B earns floor(150*50/150) = 50; the pool is never overpaid.
    let rows = c.calculate_winnings(id, 1).unwrap();
    assert_eq!(rows, vec![(A, 100), (B, 50)]);
}

#[test]
fn payouts_count_each_winning_stake_of_a_backer() {
    let mut c = fresh();
    let id = c.add_challenge("link".to_string());
    c.place_bet(A, id, X, 60).unwrap();
    c.place_bet(A, id, Y, 30).unwrap();
    c.place_bet(B, id, Z, 10).unwrap();
    c.update_winner_by_challenge(A, id, vec![X, Y]).unwrap();
    c.update_winner_by_challenge(B, id, vec![X, Y]).unwrap();
    c.check_bet_and_vote_count(id);
    assert_eq!(c.winners_for(id, 1), Some(vec![X, Y]));
    // pool = 100, denom = 90: A's two winning stakes pay
    // floor(100*60/90) + floor(100*30/90) = 66 + 33 = 99.
    let rows = c.calculate_winnings(id, 1).unwrap();
    assert_eq!(rows, vec![(A, 99), (B, 0)]);
}

#[test]
fn preview_is_idempotent_and_claim_is_final() {
    let (mut c, id) = two_backers();
    c.check_bet_and_vote_count(id);
    let first = c.calculate_winnings(id, 1).unwrap();
    let second = c.calculate_winnings(id, 1).unwrap();
    assert_eq!(first, second);
    let claimed = c.claim_winnings(id, 1).unwrap();
    assert_eq!(claimed, first);
    assert_eq!(c.get_challenge(id), Some(ChallengeState::Claimed));
    // A second claim fails and changes nothing.
    assert_eq!(c.claim_winnings(id, 1), Err(ArenaError::InvalidState));
    assert_eq!(c.get_challenge(id), Some(ChallengeState::Claimed));
}

#[test]
fn preview_forbidden_while_voting_but_claim_allowed() {
    let (mut c, id) = two_backers();
    // Only A and B exist and both voted, so the challenge is in Voting until
    // the completion check runs.
    assert_eq!(c.get_challenge(id), Some(ChallengeState::Voting));
    assert_eq!(c.calculate_winnings(id, 1), Err(ArenaError::InvalidState));
    // The guard table allows the claim itself while voting.
    let rows = c.claim_winnings(id, 1).unwrap();
    assert_eq!(rows, vec![(A, 150), (B, 0)]);
    // Once claimed, the preview is allowed again but the claim is not.
    let preview = c.calculate_winnings(id, 1).unwrap();
    assert_eq!(preview, rows);
    assert_eq!(c.claim_winnings(id, 1), Err(ArenaError::InvalidState));
}

#[test]
fn settlement_errors() {
    let mut c = fresh();
    assert_eq!(c.calculate_winnings(9, 1), Err(ArenaError::ChallengeNotFound));
    assert_eq!(c.claim_winnings(9, 1), Err(ArenaError::ChallengeNotFound));
    let id = c.add_challenge("link".to_string());
    // No vote recorded yet.
    assert_eq!(c.calculate_winnings(id, 1), Err(ArenaError::WinnersNotFound));
    assert_eq!(c.claim_winnings(id, 1), Err(ArenaError::WinnersNotFound));
    // A zero-amount stake makes a voter eligible while the pool stays empty.
    c.place_bet(A, id, X, 0).unwrap();
    c.update_winner_by_challenge(A, id, vec![X]).unwrap();
    c.check_bet_and_vote_count(id);
    assert_eq!(c.calculate_winnings(id, 1), Err(ArenaError::InvalidPool));
    assert_eq!(c.claim_winnings(id, 1), Err(ArenaError::InvalidPool));
    // The failed claim left the challenge unclaimed.
    assert_eq!(c.get_challenge(id), Some(ChallengeState::VotingFinished));
}

#[test]
fn settlement_fits_flags_overflowing_pools() {
    let (c, id) = two_backers();
    assert!(c.settlement_fits(id, 1));
    assert!(c.settlement_fits(id, 2));

    let mut big = fresh();
    let bid = big.add_challenge("big".to_string());
    big.place_bet(A, bid, X, u128::MAX).unwrap();
    big.place_bet(B, bid, X, 3).unwrap();
    big.update_winner_by_challenge(A, bid, vec![X]).unwrap();
    // pool saturates at u128::MAX and pool * stake no longer fits.
    assert!(!big.settlement_fits(bid, 1));
    // The truncated scale factor spares every other rank the arithmetic.
    assert!(big.settlement_fits(bid, 2));
}

#[test]
fn rank_zero_selects_nobody_and_pays_nothing() {
    let (mut c, id) = two_backers();
    c.check_bet_and_vote_count(id);
    assert_eq!(c.winners_for(id, 0), Some(vec![]));
    let rows = c.calculate_winnings(id, 0).unwrap();
    assert_eq!(rows, vec![(A, 0), (B, 0)]);
}

#[test]
fn rank_beyond_field_takes_every_participant() {
    let mut c = fresh();
    let id = c.add_challenge("link".to_string());
    c.place_bet(A, id, X, 100).unwrap();
    c.place_bet(B, id, Y, 50).unwrap();
    c.update_winner_by_challenge(A, id, vec![X, Y]).unwrap();
    c.update_winner_by_challenge(B, id, vec![X]).unwrap();
    c.check_bet_and_vote_count(id);
    // Only two rows exist; a large rank truncates to all of them.
    assert_eq!(c.winners_for(id, 200), Some(vec![X, Y]));
}

#[test]
fn winners_for_unvoted_challenge() {
    let mut c = fresh();
    let id = c.add_challenge("link".to_string());
    assert_eq!(c.winners_for(id, 1), None);
    c.place_bet(A, id, X, 5).unwrap();
    assert_eq!(c.winners_for(id, 1), None);
}
