use arena_protocol::ArenaError;
use arena_protocol::arena::ArenaProtocolContract;
use arena_protocol::arena::FtMessage;
use arena_protocol::arena::TokenReceiverMessage;
use arena_protocol::state::ChallengeState;
use arena_protocol::state::state_code;

const TOKEN: u64 = 9000;
const ADMIN: u64 = 9001;
const A: u64 = 1;
const B: u64 = 2;
const X: u64 = 10;
const Y: u64 = 11;

fn fresh() -> ArenaProtocolContract {
    ArenaProtocolContract::init(ADMIN, TOKEN)
}

#[test]
fn init_and_getters() {
    let mut c = fresh();
    assert_eq!(c.get_protocol_account(), ADMIN);
    assert_eq!(c.get_challenge_counter(), 1);
    c.change_protocol_account(77);
    assert_eq!(c.get_protocol_account(), 77);
    let id = c.add_challenge("ipfs://challenge-one".to_string());
    assert_eq!(id, 1);
    assert_eq!(c.get_challenge_counter(), 2);
    assert_eq!(c.get_challenge(id), Some(ChallengeState::Pending));
    assert_eq!(
        c.get_challenge_metadata(id),
        Some("ipfs://challenge-one".to_string())
    );
    assert_eq!(c.get_challenge(42), None);
    assert_eq!(c.get_challenge_metadata(42), None);
}

#[test]
fn challenge_ids_are_unique_and_monotonic() {
    let mut c = fresh();
    let first = c.add_challenge("a".to_string());
    let second = c.add_challenge("b".to_string());
    let third = c.add_challenge("c".to_string());
    assert_eq!((first, second, third), (1, 2, 3));
    assert_eq!(c.get_challenge(1), Some(ChallengeState::Pending));
    assert_eq!(c.get_challenge(2), Some(ChallengeState::Pending));
    assert_eq!(c.get_challenge(3), Some(ChallengeState::Pending));
}

#[test]
fn place_stake_accumulates() {
    let mut c = fresh();
    let id = c.add_challenge("link".to_string());
    assert_eq!(c.place_bet(A, id, X, 100), Ok(100));
    assert_eq!(c.place_bet(A, id, X, 50), Ok(150));
    assert_eq!(c.place_bet(A, id, X, 7), Ok(157));
    assert_eq!(c.get_bet_amount(id, A, X), Some(157));
    assert_eq!(c.get_bet_amount(id, A, Y), None);
    assert_eq!(c.get_bet_amount(id, B, X), None);
}

#[test]
fn place_stake_saturates_instead_of_wrapping() {
    let mut c = fresh();
    let id = c.add_challenge("link".to_string());
    assert_eq!(c.place_bet(A, id, X, u128::MAX), Ok(u128::MAX));
    assert_eq!(c.place_bet(A, id, X, 1), Ok(u128::MAX));
    assert_eq!(c.place_bet(A, id, X, u128::MAX), Ok(u128::MAX));
    assert_eq!(c.get_bet_amount(id, A, X), Some(u128::MAX));
}

#[test]
fn place_bet_errors() {
    let mut c = fresh();
    assert_eq!(c.place_bet(A, 1, X, 5), Err(ArenaError::ChallengeNotFound));
    let id = c.add_challenge("link".to_string());
    assert_eq!(c.place_bet(A, id, X, 100), Ok(100));
    assert_eq!(c.update_winner_by_challenge(A, id, vec![X]), Ok(()));
    // Voting state refuses stakes.
    assert_eq!(c.get_challenge(id), Some(ChallengeState::Voting));
    assert_eq!(c.place_bet(B, id, X, 5), Err(ArenaError::InvalidState));
}

#[test]
fn vote_requires_stake_and_is_single() {
    let mut c = fresh();
    let id = c.add_challenge("link".to_string());
    // No stakes at all: every vote attempt is refused.
    assert_eq!(
        c.update_winner_by_challenge(A, id, vec![X]),
        Err(ArenaError::NotEligible)
    );
    c.place_bet(A, id, X, 100).unwrap();
    // B has no stake.
    assert_eq!(
        c.update_winner_by_challenge(B, id, vec![X]),
        Err(ArenaError::NotEligible)
    );
    // A votes exactly once.
    assert_eq!(c.update_winner_by_challenge(A, id, vec![X]), Ok(()));
    assert_eq!(
        c.update_winner_by_challenge(A, id, vec![X]),
        Err(ArenaError::AlreadyVoted)
    );
    assert_eq!(
        c.update_winner_by_challenge(A, id, vec![Y]),
        Err(ArenaError::AlreadyVoted)
    );
}

#[test]
fn vote_on_unknown_challenge() {
    let mut c = fresh();
    assert_eq!(
        c.update_winner_by_challenge(A, 3, vec![X]),
        Err(ArenaError::ChallengeNotFound)
    );
}

#[test]
fn ballot_grants_one_point_per_listed_name() {
    let mut c = fresh();
    let id = c.add_challenge("link".to_string());
    c.place_bet(A, id, X, 10).unwrap();
    c.place_bet(B, id, Y, 10).unwrap();
    // A ballot names both participants; a repeated name counts twice.
    c.update_winner_by_challenge(A, id, vec![X, Y, X]).unwrap();
    c.update_winner_by_challenge(B, id, vec![X]).unwrap();
    let tally = c.get_winners_and_positions_by_challenge(id).unwrap();
    assert_eq!(tally, vec![(X, 3), (Y, 1)]);
    assert_eq!(c.get_winners_and_positions_by_challenge(99), None);
}

#[test]
fn state_machine_moves_forward_only() {
    let mut c = fresh();
    let id = c.add_challenge("link".to_string());
    assert_eq!(c.get_challenge(id), Some(ChallengeState::Pending));
    c.place_bet(A, id, X, 100).unwrap();
    assert_eq!(c.get_challenge(id), Some(ChallengeState::Ongoing));
    c.place_bet(B, id, Y, 50).unwrap();
    assert_eq!(c.get_challenge(id), Some(ChallengeState::Ongoing));
    c.update_winner_by_challenge(A, id, vec![X]).unwrap();
    assert_eq!(c.get_challenge(id), Some(ChallengeState::Voting));
    // One of two backers voted: completion not reached.
    c.check_bet_and_vote_count(id);
    assert_eq!(c.get_challenge(id), Some(ChallengeState::Voting));
    c.update_winner_by_challenge(B, id, vec![X]).unwrap();
    c.check_bet_and_vote_count(id);
    assert_eq!(c.get_challenge(id), Some(ChallengeState::VotingFinished));
    // Stakes are legal again after voting finished, but the state does not
    // move backwards.
    c.place_bet(A, id, X, 1).unwrap();
    assert_eq!(c.get_challenge(id), Some(ChallengeState::VotingFinished));
    c.claim_winnings(id, 1).unwrap();
    assert_eq!(c.get_challenge(id), Some(ChallengeState::Claimed));
    assert_eq!(c.cancel_challenge(id), Err(ArenaError::InvalidState));
}

#[test]
fn completion_check_on_empty_challenge() {
    let mut c = fresh();
    let id = c.add_challenge("link".to_string());
    // Zero backers and zero voters compare equal: the check fires.
    c.check_bet_and_vote_count(id);
    assert_eq!(c.get_challenge(id), Some(ChallengeState::VotingFinished));
    // An unknown id changes nothing and does not fail.
    c.check_bet_and_vote_count(55);
    assert_eq!(c.get_challenge(55), None);
}

#[test]
fn cancellation_short_circuits() {
    let mut c = fresh();
    let id = c.add_challenge("link".to_string());
    c.place_bet(A, id, X, 100).unwrap();
    assert_eq!(c.cancel_challenge(id), Ok(()));
    assert_eq!(c.get_challenge(id), Some(ChallengeState::Cancelled));
    assert_eq!(c.place_bet(A, id, X, 1), Err(ArenaError::InvalidState));
    assert_eq!(c.claim_winnings(id, 1), Err(ArenaError::InvalidState));
    assert_eq!(c.cancel_challenge(id), Err(ArenaError::InvalidState));
    assert_eq!(c.cancel_challenge(77), Err(ArenaError::ChallengeNotFound));
}

#[test]
fn terminal_states_share_one_code() {
    assert_eq!(state_code(ChallengeState::Pending), 1);
    assert_eq!(state_code(ChallengeState::Ongoing), 2);
    assert_eq!(state_code(ChallengeState::Voting), 3);
    assert_eq!(state_code(ChallengeState::VotingFinished), 4);
    // The numeric encoding cannot tell the two terminal states apart.
    assert_eq!(state_code(ChallengeState::Claimed), 5);
    assert_eq!(state_code(ChallengeState::Cancelled), 5);
}

#[test]
fn all_betting_amounts_aggregate_per_backer() {
    let mut c = fresh();
    let id = c.add_challenge("link".to_string());
    c.place_bet(A, id, X, 100).unwrap();
    c.place_bet(A, id, Y, 25).unwrap();
    c.place_bet(B, id, Y, 50).unwrap();
    let other = c.add_challenge("other".to_string());
    c.place_bet(A, other, X, 999).unwrap();
    let totals = c.get_all_betting_amounts_by_challenge(id);
    assert_eq!(totals, vec![(A, 125), (B, 50)]);
    assert_eq!(c.get_all_betting_amounts_by_challenge(3), vec![]);
}

#[test]
fn deposit_rejects_unknown_token() {
    let mut c = fresh();
    let r = c.ft_on_transfer(A, 555, 100, FtMessage::Empty);
    assert_eq!(r, Err(ArenaError::UnsupportedAsset));
}

#[test]
fn deposit_with_empty_message_is_kept() {
    let mut c = fresh();
    assert_eq!(c.ft_on_transfer(A, TOKEN, 100, FtMessage::Empty), Ok(0));
    assert_eq!(c.get_challenge_counter(), 1);
}

#[test]
fn deposit_with_undecodable_message_fails_whole_call() {
    let mut c = fresh();
    assert_eq!(
        c.ft_on_transfer(A, TOKEN, 100, FtMessage::Unparsed),
        Err(ArenaError::MalformedRequest)
    );
    assert_eq!(c.get_challenge_counter(), 1);
}

#[test]
fn deposit_opens_challenge_and_stakes() {
    let mut c = fresh();
    let msg = FtMessage::Message(TokenReceiverMessage {
        action: "AddChallengeAndPlaceBet".to_string(),
        participant: Some(X),
        challenge_link: Some("ipfs://new".to_string()),
        challenge_id: None,
    });
    assert_eq!(c.ft_on_transfer(A, TOKEN, 100, msg), Ok(0));
    assert_eq!(c.get_challenge_counter(), 2);
    assert_eq!(c.get_challenge(1), Some(ChallengeState::Ongoing));
    assert_eq!(c.get_challenge_metadata(1), Some("ipfs://new".to_string()));
    assert_eq!(c.get_bet_amount(1, A, X), Some(100));
}

#[test]
fn deposit_stakes_on_existing_challenge() {
    let mut c = fresh();
    let id = c.add_challenge("link".to_string());
    let msg = FtMessage::Message(TokenReceiverMessage {
        action: "PlaceBetOnly".to_string(),
        participant: Some(Y),
        challenge_link: None,
        challenge_id: Some(id),
    });
    assert_eq!(c.ft_on_transfer(B, TOKEN, 40, msg), Ok(0));
    assert_eq!(c.get_bet_amount(id, B, Y), Some(40));
    let missing = FtMessage::Message(TokenReceiverMessage {
        action: "PlaceBetOnly".to_string(),
        participant: Some(Y),
        challenge_link: None,
        challenge_id: Some(99),
    });
    assert_eq!(
        c.ft_on_transfer(B, TOKEN, 40, missing),
        Err(ArenaError::ChallengeNotFound)
    );
}

#[test]
fn deposit_refuses_malformed_requests() {
    let mut c = fresh();
    let unknown_action = FtMessage::Message(TokenReceiverMessage {
        action: "Withdraw".to_string(),
        participant: Some(X),
        challenge_link: Some("l".to_string()),
        challenge_id: Some(1),
    });
    assert_eq!(
        c.ft_on_transfer(A, TOKEN, 5, unknown_action),
        Err(ArenaError::MalformedRequest)
    );
    let no_participant = FtMessage::Message(TokenReceiverMessage {
        action: "AddChallengeAndPlaceBet".to_string(),
        participant: None,
        challenge_link: Some("l".to_string()),
        challenge_id: None,
    });
    assert_eq!(
        c.ft_on_transfer(A, TOKEN, 5, no_participant),
        Err(ArenaError::MalformedRequest)
    );
    let no_link = FtMessage::Message(TokenReceiverMessage {
        action: "AddChallengeAndPlaceBet".to_string(),
        participant: Some(X),
        challenge_link: None,
        challenge_id: None,
    });
    assert_eq!(
        c.ft_on_transfer(A, TOKEN, 5, no_link),
        Err(ArenaError::MalformedRequest)
    );
    let no_id = FtMessage::Message(TokenReceiverMessage {
        action: "PlaceBetOnly".to_string(),
        participant: Some(X),
        challenge_link: None,
        challenge_id: None,
    });
    assert_eq!(
        c.ft_on_transfer(A, TOKEN, 5, no_id),
        Err(ArenaError::MalformedRequest)
    );
    // Nothing was created along the way.
    assert_eq!(c.get_challenge_counter(), 1);
}
