//! The protocol contract: per-challenge lifecycle state, the stake ledger,
//! the vote registry, and the settlement operations, all over flat tables of
//! plain values. Durable storage, token transfers and account identity are
//! the host's business; callers hand in account ids as integers and move
//! value outside.

use crate::ArenaError;
use crate::ledger::StakeEntry;
use crate::ledger::backer_has_stake;
use crate::ledger::backer_total;
use crate::ledger::backers_of;
use crate::ledger::collect_backers;
use crate::ledger::compute_backer_total;
use crate::ledger::compute_pool;
use crate::ledger::contains_u64;
use crate::ledger::find_stake;
use crate::ledger::has_backer;
use crate::ledger::has_stake_entry;
use crate::ledger::lemma_stake_push;
use crate::ledger::lemma_stake_update;
use crate::ledger::pool_of;
use crate::ledger::stake_amount_of;
use crate::ledger::stake_key_match;
use crate::settle::compute_on_winners;
use crate::settle::compute_payout_rows;
use crate::settle::on_winners_of;
use crate::settle::payout_seq_spec;
use crate::settle::payouts_computable;
use crate::settle::sort_tallies_desc;
use crate::settle::stable_sort_desc;
use crate::settle::winners_from_sorted;
use crate::settle::winners_spec;
use crate::state::ChallengeState;
use crate::state::advance;
use crate::state::claim_allowed;
use crate::state::is_terminal;
use crate::state::settlement_read_allowed;
use crate::state::spec_advance;
use crate::state::stake_allowed;
use crate::votes::TallyEntry;
use crate::votes::VoterEntry;
use crate::votes::challenge_tallies;
use crate::votes::check_has_voted;
use crate::votes::collect_tallies;
use crate::votes::count_voters;
use crate::votes::find_tally;
use crate::votes::has_tally;
use crate::votes::has_voted;
use crate::votes::lemma_occurrences_nonneg;
use crate::votes::lemma_occurrences_prefix;
use crate::votes::lemma_single_ballot;
use crate::votes::lemma_tally_push;
use crate::votes::lemma_tally_update;
use crate::votes::occurrences;
use crate::votes::tally_count_of;
use crate::votes::tally_key_match;
use crate::votes::voters_count_of;
use vstd::prelude::*;

verus! {

/// One challenge: its unique id, lifecycle state, and the opaque metadata
/// link given at creation (immutable thereafter).
pub struct ChallengeRec {
    pub id: u32,
    pub state: ChallengeState,
    pub metadata: String,
}

/// The lifecycle state recorded for challenge `id`, if the id is known.
pub open spec fn challenge_state_of(cs: Seq<ChallengeRec>, id: u32) -> Option<ChallengeState>
    decreases cs.len(),
{
    if cs.len() == 0 {
        None
    } else if cs[0].id == id {
        Some(cs[0].state)
    } else {
        challenge_state_of(cs.drop_first(), id)
    }
}

/// The metadata recorded for challenge `id`, if the id is known.
pub open spec fn challenge_metadata_of(cs: Seq<ChallengeRec>, id: u32) -> Option<Seq<char>>
    decreases cs.len(),
{
    if cs.len() == 0 {
        None
    } else if cs[0].id == id {
        Some(cs[0].metadata@)
    } else {
        challenge_metadata_of(cs.drop_first(), id)
    }
}

/// Is the challenge id known?
pub open spec fn has_challenge(cs: Seq<ChallengeRec>, id: u32) -> bool {
    exists|i: int| 0 <= i < cs.len() && cs[i].id == id
}

/// First matching record wins: when record `i` carries `id` and no earlier
/// record does, the recorded state and metadata are that record's.
pub proof fn lemma_challenge_lookup(cs: Seq<ChallengeRec>, id: u32, i: int)
    requires
        0 <= i < cs.len(),
        cs[i].id == id,
        forall|k: int| 0 <= k < i ==> cs[k].id != id,
    ensures
        challenge_state_of(cs, id) == Some(cs[i].state),
        challenge_metadata_of(cs, id) == Some(cs[i].metadata@),
    decreases i,
{
    if i > 0 {
        lemma_challenge_lookup(cs.drop_first(), id, i - 1);
    }
}

/// A scan that found no record shows the id is unknown.
pub proof fn lemma_challenge_absent(cs: Seq<ChallengeRec>, id: u32)
    requires
        forall|k: int| 0 <= k < cs.len() ==> cs[k].id != id,
    ensures
        challenge_state_of(cs, id) is None,
        challenge_metadata_of(cs, id) is None,
        !has_challenge(cs, id),
    decreases cs.len(),
{
    if cs.len() > 0 {
        assert(forall|k: int| 0 <= k < cs.drop_first().len() ==> cs.drop_first()[k].id != id);
        lemma_challenge_absent(cs.drop_first(), id);
    }
}

/// Replacing the first record of an id by one with the same id and metadata
/// changes that id's state alone.
pub proof fn lemma_challenge_set_state(cs: Seq<ChallengeRec>, i: int, e: ChallengeRec)
    requires
        0 <= i < cs.len(),
        e.id == cs[i].id,
        e.metadata == cs[i].metadata,
        forall|k: int| 0 <= k < i ==> cs[k].id != cs[i].id,
    ensures
        challenge_state_of(cs.update(i, e), e.id) == Some(e.state),
        forall|id: u32|
            id != e.id ==> challenge_state_of(cs.update(i, e), id) == challenge_state_of(cs, id),
        forall|id: u32|
            challenge_metadata_of(cs.update(i, e), id) == challenge_metadata_of(cs, id),
        forall|id: u32| has_challenge(cs.update(i, e), id) == has_challenge(cs, id),
    decreases cs.len(),
{
    let t = cs.update(i, e);
    assert forall|id: u32| has_challenge(t, id) == has_challenge(cs, id) by {
        if has_challenge(t, id) {
            let j = choose|j: int| 0 <= j < t.len() && t[j].id == id;
            if j == i {
                assert(cs[i].id == id);
            } else {
                assert(cs[j].id == id);
            }
        }
        if has_challenge(cs, id) {
            let j = choose|j: int| 0 <= j < cs.len() && cs[j].id == id;
            if j == i {
                assert(t[i].id == id);
            } else {
                assert(t[j].id == id);
            }
        }
    }
    if i == 0 {
        assert(t.drop_first() =~= cs.drop_first());
        assert(t[0] == e);
        assert(challenge_state_of(t, e.id) == Some(e.state));
        assert forall|id: u32|
            id != e.id implies challenge_state_of(t, id) == challenge_state_of(cs, id) by {
            assert(t[0].id != id && cs[0].id != id);
            assert(challenge_state_of(t, id) == challenge_state_of(t.drop_first(), id));
            assert(challenge_state_of(cs, id) == challenge_state_of(cs.drop_first(), id));
        }
        assert forall|id: u32|
            challenge_metadata_of(t, id) == challenge_metadata_of(cs, id) by {
            if id == e.id {
                assert(challenge_metadata_of(t, id) == Some(e.metadata@));
                assert(challenge_metadata_of(cs, id) == Some(cs[0].metadata@));
            } else {
                assert(challenge_metadata_of(t, id) == challenge_metadata_of(t.drop_first(), id));
                assert(challenge_metadata_of(cs, id) == challenge_metadata_of(
                    cs.drop_first(),
                    id,
                ));
            }
        }
    } else {
        assert(t.drop_first() =~= cs.drop_first().update(i - 1, e));
        lemma_challenge_set_state(cs.drop_first(), i - 1, e);
        assert(t[0] == cs[0]);
        assert(cs[0].id != e.id);
        assert(challenge_state_of(t, e.id) == challenge_state_of(t.drop_first(), e.id));
        assert forall|id: u32|
            id != e.id implies challenge_state_of(t, id) == challenge_state_of(cs, id) by {
            if cs[0].id != id {
                assert(challenge_state_of(t, id) == challenge_state_of(t.drop_first(), id));
                assert(challenge_state_of(cs, id) == challenge_state_of(cs.drop_first(), id));
            }
        }
        assert forall|id: u32|
            challenge_metadata_of(t, id) == challenge_metadata_of(cs, id) by {
            if cs[0].id != id {
                assert(challenge_metadata_of(t, id) == challenge_metadata_of(
                    t.drop_first(),
                    id,
                ));
                assert(challenge_metadata_of(cs, id) == challenge_metadata_of(
                    cs.drop_first(),
                    id,
                ));
            }
        }
    }
}

/// Appending a record for a fresh id leaves every existing lookup unchanged
/// and records the new state and metadata under its id.
pub proof fn lemma_challenge_push(cs: Seq<ChallengeRec>, e: ChallengeRec)
    ensures
        forall|id: u32|
            has_challenge(cs, id) || id != e.id ==> challenge_state_of(cs.push(e), id)
                == challenge_state_of(cs, id) && challenge_metadata_of(cs.push(e), id)
                == challenge_metadata_of(cs, id),
        !has_challenge(cs, e.id) ==> challenge_state_of(cs.push(e), e.id) == Some(e.state)
            && challenge_metadata_of(cs.push(e), e.id) == Some(e.metadata@),
        forall|id: u32| has_challenge(cs.push(e), id) == (has_challenge(cs, id) || id == e.id),
    decreases cs.len(),
{
    let t = cs.push(e);
    assert forall|id: u32| has_challenge(t, id) == (has_challenge(cs, id) || id == e.id) by {
        if has_challenge(t, id) {
            let j = choose|j: int| 0 <= j < t.len() && t[j].id == id;
            if j < cs.len() {
                assert(cs[j].id == id);
            }
        }
        if has_challenge(cs, id) {
            let j = choose|j: int| 0 <= j < cs.len() && cs[j].id == id;
            assert(t[j].id == id);
        }
        if id == e.id {
            assert(t[cs.len() as int].id == id);
        }
    }
    if cs.len() == 0 {
        assert(t[0] == e);
        assert forall|id: u32|
            has_challenge(cs, id) || id != e.id implies challenge_state_of(t, id)
            == challenge_state_of(cs, id) && challenge_metadata_of(t, id) == challenge_metadata_of(
            cs,
            id,
        ) by {
            assert(!has_challenge(cs, id));
            assert(id != e.id);
            assert(t.drop_first() =~= Seq::<ChallengeRec>::empty());
            assert(challenge_state_of(t, id) == challenge_state_of(t.drop_first(), id));
            assert(challenge_state_of(t.drop_first(), id) is None);
            assert(challenge_metadata_of(t, id) == challenge_metadata_of(t.drop_first(), id));
            assert(challenge_metadata_of(t.drop_first(), id) is None);
        }
    } else {
        assert(t.drop_first() =~= cs.drop_first().push(e));
        lemma_challenge_push(cs.drop_first(), e);
        assert(t[0] == cs[0]);
        assert forall|id: u32|
            has_challenge(cs, id) || id != e.id implies challenge_state_of(t, id)
            == challenge_state_of(cs, id) && challenge_metadata_of(t, id) == challenge_metadata_of(
            cs,
            id,
        ) by {
            if cs[0].id == id {
                assert(challenge_state_of(t, id) == Some(t[0].state));
                assert(challenge_state_of(cs, id) == Some(cs[0].state));
                assert(challenge_metadata_of(t, id) == Some(t[0].metadata@));
                assert(challenge_metadata_of(cs, id) == Some(cs[0].metadata@));
            } else {
                if has_challenge(cs, id) {
                    let j = choose|j: int| 0 <= j < cs.len() && cs[j].id == id;
                    assert(j > 0);
                    assert(cs.drop_first()[j - 1].id == id);
                    assert(has_challenge(cs.drop_first(), id));
                }
                assert(challenge_state_of(cs.drop_first().push(e), id) == challenge_state_of(
                    cs.drop_first(),
                    id,
                ));
                assert(challenge_metadata_of(cs.drop_first().push(e), id)
                    == challenge_metadata_of(cs.drop_first(), id));
                assert(challenge_state_of(t, id) == challenge_state_of(t.drop_first(), id));
                assert(challenge_state_of(cs, id) == challenge_state_of(cs.drop_first(), id));
                assert(challenge_metadata_of(t, id) == challenge_metadata_of(
                    t.drop_first(),
                    id,
                ));
                assert(challenge_metadata_of(cs, id) == challenge_metadata_of(
                    cs.drop_first(),
                    id,
                ));
            }
        }
        if !has_challenge(cs, e.id) {
            assert(cs[0].id != e.id);
            assert(!has_challenge(cs.drop_first(), e.id)) by {
                if has_challenge(cs.drop_first(), e.id) {
                    let j = choose|j: int| 0 <= j < cs.drop_first().len() && cs.drop_first()[j].id
                        == e.id;
                    assert(cs[j + 1].id == e.id);
                }
            }
        }
    }
}

/// The protocol contract's whole state.
pub struct ArenaProtocolContract {
    /// Account that administers the protocol.
    pub protocol_account: u64,
    /// The one token source recognized for inbound deposits.
    pub ft_contract: u64,
    /// Next challenge id to assign; ids grow monotonically and are never
    /// reused.
    pub challenge_counter: u32,
    /// One record per challenge ever opened.
    pub challenges: Vec<ChallengeRec>,
    /// The stake ledger, one row per `(challenge, backer, participant)`.
    pub stakes: Vec<StakeEntry>,
    /// The vote tally, one row per `(challenge, participant)` ever named.
    pub tallies: Vec<TallyEntry>,
    /// One record per ballot cast.
    pub voters: Vec<VoterEntry>,
}

impl ArenaProtocolContract {
    /// Structural invariant: challenge ids are unique and below the counter,
    /// and each keyed table holds at most one row per key.
    pub open spec fn wf(self) -> bool {
        &&& forall|i: int|
            0 <= i < self.challenges@.len() ==> (#[trigger] self.challenges@[i]).id
                < self.challenge_counter
        &&& forall|i: int, j: int|
            0 <= i < j < self.challenges@.len() ==> (#[trigger] self.challenges@[i]).id != (
            #[trigger] self.challenges@[j]).id
        &&& forall|i: int, j: int|
            0 <= i < j < self.stakes@.len() ==> !((#[trigger] self.stakes@[i]).challenge_id == (
            #[trigger] self.stakes@[j]).challenge_id && self.stakes@[i].backer
                == self.stakes@[j].backer && self.stakes@[i].participant
                == self.stakes@[j].participant)
        &&& forall|i: int, j: int|
            0 <= i < j < self.tallies@.len() ==> !((#[trigger] self.tallies@[i]).challenge_id == (
            #[trigger] self.tallies@[j]).challenge_id && self.tallies@[i].participant
                == self.tallies@[j].participant)
        &&& forall|i: int, j: int|
            0 <= i < j < self.voters@.len() ==> !((#[trigger] self.voters@[i]).challenge_id == (
            #[trigger] self.voters@[j]).challenge_id && self.voters@[i].voter
                == self.voters@[j].voter)
    }

    /// Fresh contract state with the given administrative and token accounts.
    pub fn init(new_protocol_account: u64, new_ft_contract: u64) -> (s: Self)
        ensures
            s.wf(),
            s.protocol_account == new_protocol_account,
            s.ft_contract == new_ft_contract,
            s.challenge_counter == 1,
            s.challenges@.len() == 0,
            s.stakes@.len() == 0,
            s.tallies@.len() == 0,
            s.voters@.len() == 0,
    {
        ArenaProtocolContract {
            protocol_account: new_protocol_account,
            ft_contract: new_ft_contract,
            challenge_counter: 1,
            challenges: Vec::new(),
            stakes: Vec::new(),
            tallies: Vec::new(),
            voters: Vec::new(),
        }
    }

    /// The next challenge id to be assigned.
    pub fn get_challenge_counter(&self) -> (r: u32)
        ensures
            r == self.challenge_counter,
    {
        self.challenge_counter
    }

    /// The administrative account.
    pub fn get_protocol_account(&self) -> (r: u64)
        ensures
            r == self.protocol_account,
    {
        self.protocol_account
    }

    /// Replaces the administrative account; everything else is untouched.
    pub fn change_protocol_account(&mut self, new_protocol_account: u64)
        ensures
            *final(self) == (ArenaProtocolContract {
                protocol_account: new_protocol_account,
                ..*old(self)
            }),
    {
        self.protocol_account = new_protocol_account;
    }

    /// Finds the index of the record for `challenge_id`, if the id is known.
    fn find_challenge(&self, challenge_id: u32) -> (r: Option<usize>)
        ensures
            match r {
                Some(i) => i < self.challenges@.len() && self.challenges@[i as int].id
                    == challenge_id && (forall|k: int|
                    0 <= k < i ==> self.challenges@[k].id != challenge_id) && challenge_state_of(
                    self.challenges@,
                    challenge_id,
                ) == Some(self.challenges@[i as int].state) && challenge_metadata_of(
                    self.challenges@,
                    challenge_id,
                ) == Some(self.challenges@[i as int].metadata@) && has_challenge(
                    self.challenges@,
                    challenge_id,
                ),
                None => challenge_state_of(self.challenges@, challenge_id) is None
                    && challenge_metadata_of(self.challenges@, challenge_id) is None
                    && !has_challenge(self.challenges@, challenge_id),
            },
    {
        let n = self.challenges.len();
        let mut i: usize = 0;
        while i < n
            invariant
                n == self.challenges@.len(),
                i <= n,
                forall|k: int| 0 <= k < i ==> self.challenges@[k].id != challenge_id,
            decreases n - i,
        {
            if self.challenges[i].id == challenge_id {
                proof {
                    lemma_challenge_lookup(self.challenges@, challenge_id, i as int);
                }
                return Some(i);
            }
            i += 1;
        }
        proof {
            lemma_challenge_absent(self.challenges@, challenge_id);
        }
        None
    }

    /// Rewrites the state of the record at `i`, keeping id and metadata.
    fn set_challenge_state(&mut self, i: usize, ns: ChallengeState)
        requires
            i < old(self).challenges@.len(),
            forall|k: int|
                0 <= k < i ==> old(self).challenges@[k].id != old(self).challenges@[
                    i as int
                ].id,
        ensures
            final(self).challenges@ == old(self).challenges@.update(
                i as int,
                (ChallengeRec {
                    id: old(self).challenges@[i as int].id,
                    state: ns,
                    metadata: old(self).challenges@[i as int].metadata,
                }),
            ),
            challenge_state_of(final(self).challenges@, old(self).challenges@[i as int].id)
                == Some(ns),
            forall|id: u32|
                id != old(self).challenges@[i as int].id ==> challenge_state_of(
                    final(self).challenges@,
                    id,
                ) == challenge_state_of(old(self).challenges@, id),
            forall|id: u32|
                challenge_metadata_of(final(self).challenges@, id) == challenge_metadata_of(
                    old(self).challenges@,
                    id,
                ),
            forall|id: u32|
                has_challenge(final(self).challenges@, id) == has_challenge(
                    old(self).challenges@,
                    id,
                ),
            final(self).protocol_account == old(self).protocol_account,
            final(self).ft_contract == old(self).ft_contract,
            final(self).challenge_counter == old(self).challenge_counter,
            final(self).stakes@ == old(self).stakes@,
            final(self).tallies@ == old(self).tallies@,
            final(self).voters@ == old(self).voters@,
    {
        let rec = self.challenges.remove(i);
        let e = ChallengeRec { id: rec.id, state: ns, metadata: rec.metadata };
        proof {
            lemma_challenge_set_state(old(self).challenges@, i as int, e);
        }
        self.challenges.insert(i, e);
        proof {
            assert(self.challenges@ =~= old(self).challenges@.update(i as int, e));
        }
    }

    /// Opens a new challenge with the given metadata link: assigns the next
    /// id, records the challenge as `Pending`, and bumps the counter.
    pub fn add_challenge(&mut self, link: String) -> (id: u32)
        requires
            old(self).wf(),
            old(self).challenge_counter < u32::MAX,
        ensures
            final(self).wf(),
            id == old(self).challenge_counter,
            final(self).challenge_counter == old(self).challenge_counter + 1,
            challenge_state_of(final(self).challenges@, id) == Some(ChallengeState::Pending),
            challenge_metadata_of(final(self).challenges@, id) == Some(link@),
            forall|id2: u32|
                id2 != id ==> challenge_state_of(final(self).challenges@, id2)
                    == challenge_state_of(old(self).challenges@, id2) && challenge_metadata_of(
                    final(self).challenges@,
                    id2,
                ) == challenge_metadata_of(old(self).challenges@, id2),
            forall|id2: u32|
                has_challenge(final(self).challenges@, id2) == (has_challenge(
                    old(self).challenges@,
                    id2,
                ) || id2 == id),
            final(self).protocol_account == old(self).protocol_account,
            final(self).ft_contract == old(self).ft_contract,
            final(self).stakes@ == old(self).stakes@,
            final(self).tallies@ == old(self).tallies@,
            final(self).voters@ == old(self).voters@,
    {
        let id = self.challenge_counter;
        let rec = ChallengeRec { id, state: ChallengeState::Pending, metadata: link };
        proof {
            assert(!has_challenge(self.challenges@, id)) by {
                if has_challenge(self.challenges@, id) {
                    let j = choose|j: int|
                        0 <= j < self.challenges@.len() && self.challenges@[j].id == id;
                    assert(self.challenges@[j].id < self.challenge_counter);
                }
            }
            lemma_challenge_push(self.challenges@, rec);
        }
        self.challenges.push(rec);
        self.challenge_counter += 1;
        id
    }

    /// The lifecycle state of a challenge, or `None` for an unknown id.
    pub fn get_challenge(&self, challenge_id: u32) -> (r: Option<ChallengeState>)
        ensures
            r == challenge_state_of(self.challenges@, challenge_id),
    {
        match self.find_challenge(challenge_id) {
            Some(i) => Some(self.challenges[i].state),
            None => None,
        }
    }

    /// The metadata link of a challenge, or `None` for an unknown id.
    pub fn get_challenge_metadata(&self, challenge_id: u32) -> (r: Option<String>)
        ensures
            match r {
                Some(m) => challenge_metadata_of(self.challenges@, challenge_id) == Some(m@),
                None => challenge_metadata_of(self.challenges@, challenge_id) is None,
            },
    {
        match self.find_challenge(challenge_id) {
            Some(i) => Some(self.challenges[i].metadata.clone()),
            None => None,
        }
    }

    /// Administrative cancellation: moves a known, non-terminal challenge to
    /// `Cancelled`, which short-circuits every further stake, vote or
    /// settlement operation.
    pub fn cancel_challenge(&mut self, challenge_id: u32) -> (r: Result<(), ArenaError>)
        requires
            old(self).wf(),
        ensures
            final(self).wf(),
            match r {
                Ok(()) => ({
                    &&& challenge_state_of(old(self).challenges@, challenge_id) matches Some(s0)
                        && !is_terminal(s0)
                    &&& challenge_state_of(final(self).challenges@, challenge_id) == Some(
                        ChallengeState::Cancelled,
                    )
                    &&& forall|id2: u32|
                        id2 != challenge_id ==> challenge_state_of(final(self).challenges@, id2)
                            == challenge_state_of(old(self).challenges@, id2)
                    &&& final(self).protocol_account == old(self).protocol_account
                    &&& final(self).ft_contract == old(self).ft_contract
                    &&& final(self).challenge_counter == old(self).challenge_counter
                    &&& final(self).stakes@ == old(self).stakes@
                    &&& final(self).tallies@ == old(self).tallies@
                    &&& final(self).voters@ == old(self).voters@
                    &&& forall|id2: u32|
                        challenge_metadata_of(final(self).challenges@, id2)
                            == challenge_metadata_of(old(self).challenges@, id2)
                }),
                Err(ArenaError::ChallengeNotFound) => challenge_state_of(
                    old(self).challenges@,
                    challenge_id,
                ) is None && *final(self) == *old(self),
                Err(ArenaError::InvalidState) => (challenge_state_of(
                    old(self).challenges@,
                    challenge_id,
                ) matches Some(s0) && is_terminal(s0)) && *final(self) == *old(self),
                Err(_) => false,
            },
    {
        let i = match self.find_challenge(challenge_id) {
            None => {
                return Err(ArenaError::ChallengeNotFound);
            },
            Some(i) => i,
        };
        let st = self.challenges[i].state;
        match st {
            ChallengeState::Claimed => {
                return Err(ArenaError::InvalidState);
            },
            ChallengeState::Cancelled => {
                return Err(ArenaError::InvalidState);
            },
            _ => {},
        }
        self.set_challenge_state(i, ChallengeState::Cancelled);
        Ok(())
    }

    /// Places a stake: adds `amount` to the existing stake of
    /// `(account, participant)` in the challenge with saturating addition,
    /// creating the row lazily, and advances a `Pending` challenge to
    /// `Ongoing`. Returns the new accumulated amount. Fails with
    /// `ChallengeNotFound` for an unknown id and with `InvalidState` while
    /// the challenge is in voting or terminal; a failed call changes nothing.
    pub fn place_bet(
        &mut self,
        account: u64,
        challenge_id: u32,
        participant: u64,
        amount: u128,
    ) -> (r: Result<u128, ArenaError>)
        requires
            old(self).wf(),
        ensures
            final(self).wf(),
            final(self).protocol_account == old(self).protocol_account,
            final(self).ft_contract == old(self).ft_contract,
            final(self).challenge_counter == old(self).challenge_counter,
            final(self).tallies@ == old(self).tallies@,
            final(self).voters@ == old(self).voters@,
            match r {
                Err(ArenaError::ChallengeNotFound) => challenge_state_of(
                    old(self).challenges@,
                    challenge_id,
                ) is None && *final(self) == *old(self),
                Err(ArenaError::InvalidState) => (challenge_state_of(
                    old(self).challenges@,
                    challenge_id,
                ) matches Some(s0) && !stake_allowed(s0)) && *final(self) == *old(self),
                Err(_) => false,
                Ok(total) => ({
                    &&& challenge_state_of(old(self).challenges@, challenge_id) matches Some(s0)
                        && stake_allowed(s0) && challenge_state_of(
                        final(self).challenges@,
                        challenge_id,
                    ) == Some(spec_advance(s0, ChallengeState::Ongoing))
                    &&& total == stake_amount_of(
                        old(self).stakes@,
                        challenge_id,
                        account,
                        participant,
                    ).saturating_add(amount)
                    &&& stake_amount_of(final(self).stakes@, challenge_id, account, participant)
                        == total
                    &&& has_stake_entry(final(self).stakes@, challenge_id, account, participant)
                    &&& forall|c2: u32, b2: u64, p2: u64|
                        !(c2 == challenge_id && b2 == account && p2 == participant)
                            ==> stake_amount_of(final(self).stakes@, c2, b2, p2)
                            == stake_amount_of(old(self).stakes@, c2, b2, p2)
                            && has_stake_entry(final(self).stakes@, c2, b2, p2)
                            == has_stake_entry(old(self).stakes@, c2, b2, p2)
                    &&& forall|c2: u32, b2: u64|
                        has_backer(final(self).stakes@, c2, b2) == (has_backer(
                            old(self).stakes@,
                            c2,
                            b2,
                        ) || (c2 == challenge_id && b2 == account))
                    &&& forall|id2: u32|
                        id2 != challenge_id ==> challenge_state_of(final(self).challenges@, id2)
                            == challenge_state_of(old(self).challenges@, id2)
                    &&& forall|id2: u32|
                        challenge_metadata_of(final(self).challenges@, id2)
                            == challenge_metadata_of(old(self).challenges@, id2)
                    &&& forall|id2: u32|
                        has_challenge(final(self).challenges@, id2) == has_challenge(
                            old(self).challenges@,
                            id2,
                        )
                }),
            },
    {
        let ci = match self.find_challenge(challenge_id) {
            None => {
                return Err(ArenaError::ChallengeNotFound);
            },
            Some(i) => i,
        };
        let st = self.challenges[ci].state;
        match st {
            ChallengeState::Voting => {
                return Err(ArenaError::InvalidState);
            },
            ChallengeState::Claimed => {
                return Err(ArenaError::InvalidState);
            },
            ChallengeState::Cancelled => {
                return Err(ArenaError::InvalidState);
            },
            _ => {},
        }
        let total: u128 = match find_stake(&self.stakes, challenge_id, account, participant) {
            Some(si) => {
                let current = self.stakes[si].amount;
                let new_amount = current.saturating_add(amount);
                let e = StakeEntry {
                    challenge_id,
                    backer: account,
                    participant,
                    amount: new_amount,
                };
                proof {
                    lemma_stake_update(self.stakes@, si as int, e);
                }
                self.stakes[si] = e;
                new_amount
            },
            None => {
                let e = StakeEntry { challenge_id, backer: account, participant, amount };
                proof {
                    lemma_stake_push(self.stakes@, e);
                }
                self.stakes.push(e);
                amount
            },
        };
        let ns = advance(st, ChallengeState::Ongoing);
        self.set_challenge_state(ci, ns);
        proof {
            let fs = final(self).stakes@;
            let os = old(self).stakes@;
            assert forall|i: int, j: int| 0 <= i < j < fs.len() implies !((#[trigger] fs[i])
                .challenge_id == (#[trigger] fs[j]).challenge_id && fs[i].backer == fs[j].backer
                && fs[i].participant == fs[j].participant) by {
                if j < os.len() {
                    assert(os[i] == fs[i] || stake_key_match(
                        fs[i],
                        challenge_id,
                        account,
                        participant,
                    ));
                    assert(os[j] == fs[j] || stake_key_match(
                        fs[j],
                        challenge_id,
                        account,
                        participant,
                    ));
                    if !(os[i] == fs[i] && os[j] == fs[j]) {
                        assert(stake_key_match(os[i], challenge_id, account, participant)
                            || stake_key_match(os[j], challenge_id, account, participant));
                    }
                } else {
                    assert(!has_stake_entry(os, challenge_id, account, participant));
                    assert(fs[i] == os[i]);
                    assert(!stake_key_match(os[i], challenge_id, account, participant));
                }
            }
        }
        Ok(total)
    }

    /// The accumulated stake of `(account, participant)` in a challenge, or
    /// `None` when no such stake was ever placed.
    pub fn get_bet_amount(&self, challenge_id: u32, account: u64, participant: u64) -> (r: Option<
        u128,
    >)
        ensures
            r == (if has_stake_entry(self.stakes@, challenge_id, account, participant) {
                Some(stake_amount_of(self.stakes@, challenge_id, account, participant))
            } else {
                Option::<u128>::None
            }),
    {
        match find_stake(&self.stakes, challenge_id, account, participant) {
            Some(i) => Some(self.stakes[i].amount),
            None => None,
        }
    }

    /// Every backer of a challenge with the saturating total it staked across
    /// all participants, in order of first appearance.
    pub fn get_all_betting_amounts_by_challenge(&self, challenge_id: u32) -> (r: Vec<(u64, u128)>)
        ensures
            r@.len() == backers_of(self.stakes@, challenge_id).len(),
            forall|k: int|
                0 <= k < r@.len() ==> r@[k] == (backers_of(self.stakes@, challenge_id)[k],
                backer_total(
                    self.stakes@,
                    challenge_id,
                    backers_of(self.stakes@, challenge_id)[k],
                )),
    {
        let backers = collect_backers(&self.stakes, challenge_id);
        let nb = backers.len();
        let mut r: Vec<(u64, u128)> = Vec::new();
        let mut i: usize = 0;
        while i < nb
            invariant
                nb == backers@.len(),
                backers@ == backers_of(self.stakes@, challenge_id),
                i <= nb,
                r@.len() == i,
                forall|k: int|
                    0 <= k < i ==> r@[k] == (backers@[k], backer_total(
                        self.stakes@,
                        challenge_id,
                        backers@[k],
                    )),
            decreases nb - i,
        {
            let b = backers[i];
            let total = compute_backer_total(&self.stakes, challenge_id, b);
            r.push((b, total));
            i += 1;
        }
        r
    }

    /// Casts `voter`'s one ballot in a challenge: grants one point to every
    /// participant named in `participants` (one point per listed name) and
    /// records the ballot, advancing an `Ongoing` challenge to `Voting`.
    /// Fails with `ChallengeNotFound` for an unknown id, with `NotEligible`
    /// when the voter holds no stake in the challenge, and with
    /// `AlreadyVoted` on a repeated ballot; a failed call changes nothing.
    /// The caller keeps every tally below its ceiling: a vote count never
    /// wraps.
    pub fn update_winner_by_challenge(
        &mut self,
        voter: u64,
        challenge_id: u32,
        participants: Vec<u64>,
    ) -> (r: Result<(), ArenaError>)
        requires
            old(self).wf(),
            forall|p: u64|
                tally_count_of(old(self).tallies@, challenge_id, p) + #[trigger] occurrences(
                    participants@,
                    p,
                ) <= u8::MAX,
        ensures
            final(self).wf(),
            final(self).protocol_account == old(self).protocol_account,
            final(self).ft_contract == old(self).ft_contract,
            final(self).challenge_counter == old(self).challenge_counter,
            final(self).stakes@ == old(self).stakes@,
            match r {
                Err(ArenaError::ChallengeNotFound) => challenge_state_of(
                    old(self).challenges@,
                    challenge_id,
                ) is None && *final(self) == *old(self),
                Err(ArenaError::NotEligible) => has_challenge(old(self).challenges@, challenge_id)
                    && !has_backer(old(self).stakes@, challenge_id, voter) && *final(self) == *old(
                    self,
                ),
                Err(ArenaError::AlreadyVoted) => has_challenge(old(self).challenges@, challenge_id)
                    && has_backer(old(self).stakes@, challenge_id, voter) && has_voted(
                    old(self).voters@,
                    challenge_id,
                    voter,
                ) && *final(self) == *old(self),
                Err(_) => false,
                Ok(()) => ({
                    &&& has_backer(old(self).stakes@, challenge_id, voter)
                    &&& !has_voted(old(self).voters@, challenge_id, voter)
                    &&& final(self).voters@ == old(self).voters@.push(
                        (VoterEntry { challenge_id, voter }),
                    )
                    &&& forall|p: u64|
                        tally_count_of(final(self).tallies@, challenge_id, p) == tally_count_of(
                            old(self).tallies@,
                            challenge_id,
                            p,
                        ) + occurrences(participants@, p)
                    &&& forall|c2: u32, p: u64|
                        c2 != challenge_id ==> tally_count_of(final(self).tallies@, c2, p)
                            == tally_count_of(old(self).tallies@, c2, p)
                    &&& forall|c2: u32|
                        c2 != challenge_id ==> challenge_tallies(final(self).tallies@, c2)
                            == challenge_tallies(old(self).tallies@, c2)
                    &&& challenge_state_of(old(self).challenges@, challenge_id) matches Some(s0)
                        && challenge_state_of(final(self).challenges@, challenge_id) == Some(
                        spec_advance(s0, ChallengeState::Voting),
                    )
                    &&& forall|id2: u32|
                        id2 != challenge_id ==> challenge_state_of(final(self).challenges@, id2)
                            == challenge_state_of(old(self).challenges@, id2)
                    &&& forall|id2: u32|
                        challenge_metadata_of(final(self).challenges@, id2)
                            == challenge_metadata_of(old(self).challenges@, id2)
                    &&& forall|id2: u32|
                        has_challenge(final(self).challenges@, id2) == has_challenge(
                            old(self).challenges@,
                            id2,
                        )
                }),
            },
    {
        let ci = match self.find_challenge(challenge_id) {
            None => {
                return Err(ArenaError::ChallengeNotFound);
            },
            Some(i) => i,
        };
        if !backer_has_stake(&self.stakes, challenge_id, voter) {
            return Err(ArenaError::NotEligible);
        }
        if check_has_voted(&self.voters, challenge_id, voter) {
            return Err(ArenaError::AlreadyVoted);
        }
        let ballot = VoterEntry { challenge_id, voter };
        proof {
            lemma_single_ballot(self.voters@, ballot, challenge_id, voter);
            let vs = self.voters@;
            let t = vs.push(ballot);
            assert forall|i: int, j: int| 0 <= i < j < t.len() implies !((#[trigger] t[i])
                .challenge_id == (#[trigger] t[j]).challenge_id && t[i].voter == t[j].voter) by {
                if j < vs.len() {
                    assert(t[i] == vs[i] && t[j] == vs[j]);
                } else {
                    assert(t[i] == vs[i] && t[j] == ballot);
                    assert(!has_voted(vs, challenge_id, voter));
                }
            }
        }
        self.voters.push(ballot);
        let ghost orig = self.tallies@;
        let n = participants.len();
        let mut i: usize = 0;
        while i < n
            invariant
                n == participants@.len(),
                i <= n,
                self.challenges@ == old(self).challenges@,
                self.stakes@ == old(self).stakes@,
                self.voters@ == old(self).voters@.push(ballot),
                self.protocol_account == old(self).protocol_account,
                self.ft_contract == old(self).ft_contract,
                self.challenge_counter == old(self).challenge_counter,
                ci < self.challenges@.len(),
                self.challenges@[ci as int].id == challenge_id,
                forall|k: int| 0 <= k < ci ==> self.challenges@[k].id != challenge_id,
                forall|p: u64|
                    tally_count_of(self.tallies@, challenge_id, p) == tally_count_of(
                        orig,
                        challenge_id,
                        p,
                    ) + occurrences(participants@.take(i as int), p),
                forall|c2: u32, p: u64|
                    c2 != challenge_id ==> tally_count_of(self.tallies@, c2, p) == tally_count_of(
                        orig,
                        c2,
                        p,
                    ),
                forall|c2: u32|
                    c2 != challenge_id ==> challenge_tallies(self.tallies@, c2)
                        == challenge_tallies(orig, c2),
                forall|k: int, l: int|
                    0 <= k < l < self.tallies@.len() ==> !((#[trigger] self.tallies@[k])
                        .challenge_id == (#[trigger] self.tallies@[l]).challenge_id
                        && self.tallies@[k].participant == self.tallies@[l].participant),
                forall|p: u64|
                    tally_count_of(orig, challenge_id, p) + #[trigger] occurrences(
                        participants@,
                        p,
                    ) <= u8::MAX,
            decreases n - i,
        {
            let p = participants[i];
            let ghost pre = self.tallies@;
            proof {
                assert(participants@.take(i as int + 1).drop_last() =~= participants@.take(
                    i as int,
                ));
                assert(participants@.take(i as int + 1).last() == participants@[i as int]);
                lemma_occurrences_prefix(participants@, i as int + 1, p);
                lemma_occurrences_nonneg(participants@.take(i as int), p);
            }
            match find_tally(&self.tallies, challenge_id, p) {
                Some(ti) => {
                    let current = self.tallies[ti].count;
                    let e = TallyEntry { challenge_id, participant: p, count: current + 1 };
                    proof {
                        lemma_tally_update(self.tallies@, ti as int, e);
                        let t = pre.update(ti as int, e);
                        assert forall|k: int, l: int| 0 <= k < l < t.len() implies !((
                        #[trigger] t[k]).challenge_id == (#[trigger] t[l]).challenge_id
                            && t[k].participant == t[l].participant) by {
                            assert(t[k].challenge_id == pre[k].challenge_id && t[k].participant
                                == pre[k].participant);
                            assert(t[l].challenge_id == pre[l].challenge_id && t[l].participant
                                == pre[l].participant);
                        }
                    }
                    self.tallies[ti] = e;
                    proof {
                        assert(self.tallies@ == pre.update(ti as int, e));
                        assert forall|q: u64|
                            tally_count_of(self.tallies@, challenge_id, q) == tally_count_of(
                                orig,
                                challenge_id,
                                q,
                            ) + occurrences(participants@.take(i as int + 1), q) by {
                            if q == p {
                                assert(tally_count_of(self.tallies@, challenge_id, p) == e.count);
                            } else {
                                assert(!tally_key_match(e, challenge_id, q));
                                assert(tally_count_of(self.tallies@, challenge_id, q)
                                    == tally_count_of(pre, challenge_id, q));
                            }
                        }
                    }
                },
                None => {
                    let e = TallyEntry { challenge_id, participant: p, count: 1 };
                    proof {
                        lemma_tally_push(self.tallies@, e);
                        let t = pre.push(e);
                        assert forall|k: int, l: int| 0 <= k < l < t.len() implies !((
                        #[trigger] t[k]).challenge_id == (#[trigger] t[l]).challenge_id
                            && t[k].participant == t[l].participant) by {
                            if l < pre.len() {
                                assert(t[k] == pre[k] && t[l] == pre[l]);
                            } else {
                                assert(t[k] == pre[k] && t[l] == e);
                                assert(!has_tally(pre, challenge_id, p));
                            }
                        }
                    }
                    self.tallies.push(e);
                    proof {
                        assert(self.tallies@ == pre.push(e));
                        assert forall|q: u64|
                            tally_count_of(self.tallies@, challenge_id, q) == tally_count_of(
                                orig,
                                challenge_id,
                                q,
                            ) + occurrences(participants@.take(i as int + 1), q) by {
                            if q == p {
                                assert(tally_count_of(self.tallies@, challenge_id, p) == e.count);
                                assert(tally_count_of(pre, challenge_id, p) == 0);
                                assert(tally_count_of(orig, challenge_id, p) >= 0);
                                assert(occurrences(participants@.take(i as int), p) >= 0);
                            } else {
                                assert(!tally_key_match(e, challenge_id, q));
                                assert(tally_count_of(self.tallies@, challenge_id, q)
                                    == tally_count_of(pre, challenge_id, q));
                            }
                        }
                    }
                },
            }
            i += 1;
        }
        proof {
            assert(participants@.take(n as int) =~= participants@);
        }
        let st = self.challenges[ci].state;
        let ns = advance(st, ChallengeState::Voting);
        self.set_challenge_state(ci, ns);
        Ok(())
    }

    /// The vote tally of a challenge: every participant ever named in a
    /// ballot with its vote count, in order of first appearance, or `None`
    /// when no vote was recorded yet.
    pub fn get_winners_and_positions_by_challenge(&self, challenge_id: u32) -> (r: Option<
        Vec<(u64, u8)>,
    >)
        ensures
            match r {
                None => challenge_tallies(self.tallies@, challenge_id).len() == 0,
                Some(v) => ({
                    let ct = challenge_tallies(self.tallies@, challenge_id);
                    ct.len() > 0 && v@.len() == ct.len() && forall|k: int|
                        0 <= k < v@.len() ==> v@[k] == (ct[k].participant, ct[k].count)
                }),
            },
    {
        let ct = collect_tallies(&self.tallies, challenge_id);
        if ct.len() == 0 {
            return None;
        }
        let n = ct.len();
        let mut v: Vec<(u64, u8)> = Vec::new();
        let mut i: usize = 0;
        while i < n
            invariant
                n == ct@.len(),
                ct@ == challenge_tallies(self.tallies@, challenge_id),
                i <= n,
                v@.len() == i,
                forall|k: int| 0 <= k < i ==> v@[k] == (ct@[k].participant, ct@[k].count),
            decreases n - i,
        {
            let e = &ct[i];
            v.push((e.participant, e.count));
            i += 1;
        }
        Some(v)
    }

    /// The level-triggered completion check: when the number of ballots cast
    /// equals the number of distinct backers, a known challenge advances to
    /// `VotingFinished`; otherwise nothing changes.
    pub fn check_bet_and_vote_count(&mut self, challenge_id: u32)
        requires
            old(self).wf(),
        ensures
            final(self).wf(),
            final(self).protocol_account == old(self).protocol_account,
            final(self).ft_contract == old(self).ft_contract,
            final(self).challenge_counter == old(self).challenge_counter,
            final(self).stakes@ == old(self).stakes@,
            final(self).tallies@ == old(self).tallies@,
            final(self).voters@ == old(self).voters@,
            ({
                let nb = backers_of(old(self).stakes@, challenge_id).len();
                let nv = voters_count_of(old(self).voters@, challenge_id);
                match challenge_state_of(old(self).challenges@, challenge_id) {
                    Some(s0) => if nb == nv {
                        challenge_state_of(final(self).challenges@, challenge_id) == Some(
                            spec_advance(s0, ChallengeState::VotingFinished),
                        ) && (forall|id2: u32|
                            id2 != challenge_id ==> challenge_state_of(
                                final(self).challenges@,
                                id2,
                            ) == challenge_state_of(old(self).challenges@, id2)) && (forall|
                            id2: u32,
                        |
                            challenge_metadata_of(final(self).challenges@, id2)
                                == challenge_metadata_of(old(self).challenges@, id2)) && (forall|
                            id2: u32,
                        |
                            has_challenge(final(self).challenges@, id2) == has_challenge(
                                old(self).challenges@,
                                id2,
                            ))
                    } else {
                        *final(self) == *old(self)
                    },
                    None => *final(self) == *old(self),
                }
            }),
    {
        let nv = count_voters(&self.voters, challenge_id);
        let backers = collect_backers(&self.stakes, challenge_id);
        let nb = backers.len();
        if nb == nv {
            match self.find_challenge(challenge_id) {
                Some(ci) => {
                    let st = self.challenges[ci].state;
                    let ns = advance(st, ChallengeState::VotingFinished);
                    self.set_challenge_state(ci, ns);
                },
                None => {},
            }
        }
    }

    /// The winner set of a challenge at the given rank, derived from the vote
    /// tally, or `None` when no vote was recorded yet.
    pub fn winners_for(&self, challenge_id: u32, rank: u8) -> (r: Option<Vec<u64>>)
        ensures
            match r {
                None => challenge_tallies(self.tallies@, challenge_id).len() == 0,
                Some(w) => challenge_tallies(self.tallies@, challenge_id).len() > 0 && w@
                    == winners_spec(challenge_tallies(self.tallies@, challenge_id), rank),
            },
    {
        let ct = collect_tallies(&self.tallies, challenge_id);
        if ct.len() == 0 {
            return None;
        }
        let sorted = sort_tallies_desc(&ct);
        let w = winners_from_sorted(&sorted, rank);
        Some(w)
    }

    /// Tests that the settlement arithmetic of this challenge at this rank
    /// stays within machine bounds, exactly as the settlement functions
    /// require. Unverified callers test this before asking for a settlement.
    pub fn settlement_fits(&self, challenge_id: u32, rank: u8) -> (r: bool)
        ensures
            r == payouts_computable(
                self.stakes@,
                challenge_id,
                winners_spec(challenge_tallies(self.tallies@, challenge_id), rank),
                rank,
            ),
    {
        if rank != 1 {
            return true;
        }
        let ghost winners_g = winners_spec(challenge_tallies(self.tallies@, challenge_id), rank);
        let winners: Vec<u64> = match self.winners_for(challenge_id, rank) {
            Some(w) => w,
            None => {
                proof {
                    assert(challenge_tallies(self.tallies@, challenge_id)
                        =~= Seq::<TallyEntry>::empty());
                    assert(stable_sort_desc(Seq::<TallyEntry>::empty())
                        =~= Seq::<TallyEntry>::empty());
                    assert(winners_g =~= Seq::<u64>::empty());
                    assert forall|i: int|
                        0 <= i < self.stakes@.len() && self.stakes@[i].challenge_id == challenge_id
                            && winners_g.contains(
                            #[trigger] self.stakes@[i].participant,
                        ) implies false by {}
                }
                return true;
            },
        };
        let pool = compute_pool(&self.stakes, challenge_id);
        let denom = compute_on_winners(&self.stakes, challenge_id, &winners);
        let n = self.stakes.len();
        let mut j: usize = 0;
        while j < n
            invariant
                n == self.stakes@.len(),
                j <= n,
                rank == 1,
                winners@ == winners_spec(challenge_tallies(self.tallies@, challenge_id), rank),
                pool == pool_of(self.stakes@, challenge_id),
                denom == on_winners_of(self.stakes@, challenge_id, winners@),
                forall|k: int|
                    0 <= k < j && self.stakes@[k].challenge_id == challenge_id
                        && winners@.contains(#[trigger] self.stakes@[k].participant) ==> pool_of(
                        self.stakes@,
                        challenge_id,
                    ) * self.stakes@[k].amount <= u128::MAX && on_winners_of(
                        self.stakes@,
                        challenge_id,
                        winners@,
                    ) > 0,
            decreases n - j,
        {
            let e = &self.stakes[j];
            if e.challenge_id == challenge_id && contains_u64(&winners, e.participant) {
                if denom == 0 {
                    proof {
                        assert(self.stakes@[j as int].challenge_id == challenge_id && winners@
                            .contains(self.stakes@[j as int].participant));
                        assert(!(on_winners_of(self.stakes@, challenge_id, winners@) > 0));
                        assert(winners@ == winners_spec(
                            challenge_tallies(self.tallies@, challenge_id),
                            rank,
                        ));
                        assert(!payouts_computable(self.stakes@, challenge_id, winners@, rank));
                    }
                    return false;
                }
                match pool.checked_mul(e.amount) {
                    Some(_) => {},
                    None => {
                        proof {
                            assert(self.stakes@[j as int].challenge_id == challenge_id && winners@
                                .contains(self.stakes@[j as int].participant));
                            assert(!(pool_of(self.stakes@, challenge_id) * self.stakes@[
                                j as int
                            ].amount <= u128::MAX));
                            assert(!payouts_computable(
                                self.stakes@,
                                challenge_id,
                                winners@,
                                rank,
                            ));
                        }
                        return false;
                    },
                }
            }
            j += 1;
        }
        true
    }

    /// The settlement engine: derives the winner set at the given rank and
    /// computes every backer's payout from the stake ledger. Fails with
    /// `WinnersNotFound` before any vote is recorded and with `InvalidPool`
    /// when the challenge's total pool is zero. Read-only: the non-mutating
    /// preview and the claim both run exactly this computation.
    pub fn compute_payouts(&self, challenge_id: u32, rank: u8) -> (r: Result<
        Vec<(u64, u128)>,
        ArenaError,
    >)
        requires
            payouts_computable(
                self.stakes@,
                challenge_id,
                winners_spec(challenge_tallies(self.tallies@, challenge_id), rank),
                rank,
            ),
        ensures
            match r {
                Err(ArenaError::WinnersNotFound) => challenge_tallies(
                    self.tallies@,
                    challenge_id,
                ).len() == 0,
                Err(ArenaError::InvalidPool) => challenge_tallies(
                    self.tallies@,
                    challenge_id,
                ).len() > 0 && pool_of(self.stakes@, challenge_id) == 0,
                Err(_) => false,
                Ok(v) => ({
                    let ct = challenge_tallies(self.tallies@, challenge_id);
                    let winners = winners_spec(ct, rank);
                    let pool = pool_of(self.stakes@, challenge_id);
                    &&& ct.len() > 0
                    &&& pool > 0
                    &&& v@ == payout_seq_spec(
                        self.stakes@,
                        challenge_id,
                        winners,
                        pool,
                        on_winners_of(self.stakes@, challenge_id, winners),
                        rank,
                    )
                }),
            },
    {
        let winners: Vec<u64> = match self.winners_for(challenge_id, rank) {
            Some(w) => w,
            None => {
                return Err(ArenaError::WinnersNotFound);
            },
        };
        let pool = compute_pool(&self.stakes, challenge_id);
        if pool == 0 {
            return Err(ArenaError::InvalidPool);
        }
        let denom = compute_on_winners(&self.stakes, challenge_id, &winners);
        let rows = compute_payout_rows(&self.stakes, challenge_id, &winners, pool, denom, rank);
        Ok(rows)
    }

    /// The non-mutating settlement preview. Fails with `ChallengeNotFound`
    /// for an unknown id and with `InvalidState` while voting is in progress;
    /// otherwise it returns exactly what `compute_payouts` returns.
    pub fn calculate_winnings(&self, challenge_id: u32, rank: u8) -> (r: Result<
        Vec<(u64, u128)>,
        ArenaError,
    >)
        requires
            payouts_computable(
                self.stakes@,
                challenge_id,
                winners_spec(challenge_tallies(self.tallies@, challenge_id), rank),
                rank,
            ),
        ensures
            match r {
                Err(ArenaError::ChallengeNotFound) => challenge_state_of(
                    self.challenges@,
                    challenge_id,
                ) is None,
                Err(ArenaError::InvalidState) => challenge_state_of(self.challenges@, challenge_id)
                    matches Some(s0) && !settlement_read_allowed(s0),
                Err(ArenaError::WinnersNotFound) => (challenge_state_of(
                    self.challenges@,
                    challenge_id,
                ) matches Some(s0) && settlement_read_allowed(s0)) && challenge_tallies(
                    self.tallies@,
                    challenge_id,
                ).len() == 0,
                Err(ArenaError::InvalidPool) => (challenge_state_of(
                    self.challenges@,
                    challenge_id,
                ) matches Some(s0) && settlement_read_allowed(s0)) && challenge_tallies(
                    self.tallies@,
                    challenge_id,
                ).len() > 0 && pool_of(self.stakes@, challenge_id) == 0,
                Err(_) => false,
                Ok(v) => ({
                    let ct = challenge_tallies(self.tallies@, challenge_id);
                    let winners = winners_spec(ct, rank);
                    let pool = pool_of(self.stakes@, challenge_id);
                    &&& challenge_state_of(self.challenges@, challenge_id) matches Some(s0)
                        && settlement_read_allowed(s0)
                    &&& ct.len() > 0
                    &&& pool > 0
                    &&& v@ == payout_seq_spec(
                        self.stakes@,
                        challenge_id,
                        winners,
                        pool,
                        on_winners_of(self.stakes@, challenge_id, winners),
                        rank,
                    )
                }),
            },
    {
        let ci = match self.find_challenge(challenge_id) {
            None => {
                return Err(ArenaError::ChallengeNotFound);
            },
            Some(i) => i,
        };
        let st = self.challenges[ci].state;
        match st {
            ChallengeState::Voting => {
                return Err(ArenaError::InvalidState);
            },
            _ => {},
        }
        self.compute_payouts(challenge_id, rank)
    }

    /// The claim: runs the same settlement computation as the preview, then
    /// commits the challenge to `Claimed`. The caller moves the returned
    /// amounts outside; a later transfer failure does not roll the claim
    /// back. Fails with `ChallengeNotFound` for an unknown id and with
    /// `InvalidState` once the challenge is terminal; a failed call changes
    /// nothing.
    pub fn claim_winnings(&mut self, challenge_id: u32, rank: u8) -> (r: Result<
        Vec<(u64, u128)>,
        ArenaError,
    >)
        requires
            old(self).wf(),
            payouts_computable(
                old(self).stakes@,
                challenge_id,
                winners_spec(challenge_tallies(old(self).tallies@, challenge_id), rank),
                rank,
            ),
        ensures
            final(self).wf(),
            final(self).protocol_account == old(self).protocol_account,
            final(self).ft_contract == old(self).ft_contract,
            final(self).challenge_counter == old(self).challenge_counter,
            final(self).stakes@ == old(self).stakes@,
            final(self).tallies@ == old(self).tallies@,
            final(self).voters@ == old(self).voters@,
            match r {
                Err(ArenaError::ChallengeNotFound) => challenge_state_of(
                    old(self).challenges@,
                    challenge_id,
                ) is None && *final(self) == *old(self),
                Err(ArenaError::InvalidState) => (challenge_state_of(
                    old(self).challenges@,
                    challenge_id,
                ) matches Some(s0) && !claim_allowed(s0)) && *final(self) == *old(self),
                Err(ArenaError::WinnersNotFound) => (challenge_state_of(
                    old(self).challenges@,
                    challenge_id,
                ) matches Some(s0) && claim_allowed(s0)) && challenge_tallies(
                    old(self).tallies@,
                    challenge_id,
                ).len() == 0 && *final(self) == *old(self),
                Err(ArenaError::InvalidPool) => (challenge_state_of(
                    old(self).challenges@,
                    challenge_id,
                ) matches Some(s0) && claim_allowed(s0)) && challenge_tallies(
                    old(self).tallies@,
                    challenge_id,
                ).len() > 0 && pool_of(old(self).stakes@, challenge_id) == 0 && *final(self)
                    == *old(self),
                Err(_) => false,
                Ok(v) => ({
                    let ct = challenge_tallies(old(self).tallies@, challenge_id);
                    let winners = winners_spec(ct, rank);
                    let pool = pool_of(old(self).stakes@, challenge_id);
                    &&& challenge_state_of(old(self).challenges@, challenge_id) matches Some(s0)
                        && claim_allowed(s0) && challenge_state_of(
                        final(self).challenges@,
                        challenge_id,
                    ) == Some(spec_advance(s0, ChallengeState::Claimed))
                    &&& ct.len() > 0
                    &&& pool > 0
                    &&& v@ == payout_seq_spec(
                        old(self).stakes@,
                        challenge_id,
                        winners,
                        pool,
                        on_winners_of(old(self).stakes@, challenge_id, winners),
                        rank,
                    )
                    &&& forall|id2: u32|
                        id2 != challenge_id ==> challenge_state_of(final(self).challenges@, id2)
                            == challenge_state_of(old(self).challenges@, id2)
                    &&& forall|id2: u32|
                        challenge_metadata_of(final(self).challenges@, id2)
                            == challenge_metadata_of(old(self).challenges@, id2)
                    &&& forall|id2: u32|
                        has_challenge(final(self).challenges@, id2) == has_challenge(
                            old(self).challenges@,
                            id2,
                        )
                }),
            },
    {
        let ci = match self.find_challenge(challenge_id) {
            None => {
                return Err(ArenaError::ChallengeNotFound);
            },
            Some(i) => i,
        };
        let st = self.challenges[ci].state;
        match st {
            ChallengeState::Claimed => {
                return Err(ArenaError::InvalidState);
            },
            ChallengeState::Cancelled => {
                return Err(ArenaError::InvalidState);
            },
            _ => {},
        }
        let rows = match self.compute_payouts(challenge_id, rank) {
            Err(e) => {
                return Err(e);
            },
            Ok(v) => v,
        };
        let ns = advance(st, ChallengeState::Claimed);
        self.set_challenge_state(ci, ns);
        Ok(rows)
    }

    /// Handles an inbound deposit notification. Deposits from any token
    /// source other than the recognized one are refused with
    /// `UnsupportedAsset`. An empty message keeps the deposit and does
    /// nothing. A request to open a challenge and stake the deposit performs
    /// both; a request to stake on an existing challenge places the stake.
    /// Anything else — an undecodable message, an unknown action, a missing
    /// field — fails with `MalformedRequest`. The whole call is atomic: any
    /// failure leaves the state untouched.
    pub fn ft_on_transfer(
        &mut self,
        sender_id: u64,
        token_in: u64,
        amount: u128,
        msg: FtMessage,
    ) -> (r: Result<u128, ArenaError>)
        requires
            old(self).wf(),
            (msg matches FtMessage::Message(m) && m.action@ == "AddChallengeAndPlaceBet"@)
                ==> old(self).challenge_counter < u32::MAX,
        ensures
            final(self).wf(),
            final(self).protocol_account == old(self).protocol_account,
            final(self).ft_contract == old(self).ft_contract,
            final(self).tallies@ == old(self).tallies@,
            final(self).voters@ == old(self).voters@,
            r is Err ==> *final(self) == *old(self),
            r matches Ok(v) ==> v == 0,
            token_in != old(self).ft_contract <==> r == Err::<u128, ArenaError>(
                ArenaError::UnsupportedAsset,
            ),
            token_in == old(self).ft_contract ==> match msg {
                FtMessage::Empty => r is Ok && *final(self) == *old(self),
                FtMessage::Unparsed => r == Err::<u128, ArenaError>(ArenaError::MalformedRequest),
                FtMessage::Message(m) => {
                    if m.action@ == "AddChallengeAndPlaceBet"@ {
                        if m.participant is None || m.challenge_link is None {
                            r == Err::<u128, ArenaError>(ArenaError::MalformedRequest)
                        } else {
                            ({
                                let id = old(self).challenge_counter;
                                &&& r is Ok
                                &&& m.participant matches Some(p) && stake_amount_of(
                                    final(self).stakes@,
                                    id,
                                    sender_id,
                                    p,
                                ) == stake_amount_of(
                                    old(self).stakes@,
                                    id,
                                    sender_id,
                                    p,
                                ).saturating_add(amount)
                                &&& final(self).challenge_counter == old(self).challenge_counter
                                    + 1
                                &&& challenge_state_of(final(self).challenges@, id) == Some(
                                    ChallengeState::Ongoing,
                                )
                                &&& m.challenge_link matches Some(link) && challenge_metadata_of(
                                    final(self).challenges@,
                                    id,
                                ) == Some(link@)
                                &&& forall|id2: u32|
                                    id2 != id ==> challenge_state_of(final(self).challenges@, id2)
                                        == challenge_state_of(old(self).challenges@, id2)
                                &&& forall|c2: u32, b2: u64, p2: u64|
                                    !(c2 == id && b2 == sender_id && m.participant == Some(p2))
                                        ==> stake_amount_of(final(self).stakes@, c2, b2, p2)
                                        == stake_amount_of(old(self).stakes@, c2, b2, p2)
                            })
                        }
                    } else if m.action@ == "PlaceBetOnly"@ {
                        if m.participant is None || m.challenge_id is None {
                            r == Err::<u128, ArenaError>(ArenaError::MalformedRequest)
                        } else {
                            ({
                                let st = challenge_state_of(
                                    old(self).challenges@,
                                    m.challenge_id.unwrap(),
                                );
                                if st is None {
                                    r == Err::<u128, ArenaError>(ArenaError::ChallengeNotFound)
                                } else if !stake_allowed(st.unwrap()) {
                                    r == Err::<u128, ArenaError>(ArenaError::InvalidState)
                                } else {
                                    ({
                                        let cid = m.challenge_id.unwrap();
                                        let p = m.participant.unwrap();
                                        &&& r is Ok
                                        &&& stake_amount_of(final(self).stakes@, cid, sender_id, p)
                                            == stake_amount_of(
                                            old(self).stakes@,
                                            cid,
                                            sender_id,
                                            p,
                                        ).saturating_add(amount)
                                        &&& final(self).challenge_counter == old(
                                            self,
                                        ).challenge_counter
                                        &&& challenge_state_of(final(self).challenges@, cid)
                                            == Some(
                                            spec_advance(st.unwrap(), ChallengeState::Ongoing),
                                        )
                                        &&& forall|id2: u32|
                                            id2 != cid ==> challenge_state_of(
                                                final(self).challenges@,
                                                id2,
                                            ) == challenge_state_of(old(self).challenges@, id2)
                                        &&& forall|c2: u32, b2: u64, p2: u64|
                                            !(c2 == cid && b2 == sender_id && p2 == p)
                                                ==> stake_amount_of(final(self).stakes@, c2, b2, p2)
                                                == stake_amount_of(old(self).stakes@, c2, b2, p2)
                                    })
                                }
                            })
                        }
                    } else {
                        r == Err::<u128, ArenaError>(ArenaError::MalformedRequest)
                    }
                },
            },
    {
        if token_in != self.ft_contract {
            return Err(ArenaError::UnsupportedAsset);
        }
        let message = match msg {
            FtMessage::Empty => {
                return Ok(0);
            },
            FtMessage::Unparsed => {
                return Err(ArenaError::MalformedRequest);
            },
            FtMessage::Message(m) => m,
        };
        let add_action: String = "AddChallengeAndPlaceBet".to_owned();
        let bet_action: String = "PlaceBetOnly".to_owned();
        if message.action == add_action {
            let participant = match message.participant {
                Some(p) => p,
                None => {
                    return Err(ArenaError::MalformedRequest);
                },
            };
            let link = match message.challenge_link {
                Some(l) => l,
                None => {
                    return Err(ArenaError::MalformedRequest);
                },
            };
            let challenge_id = self.add_challenge(link);
            match self.place_bet(sender_id, challenge_id, participant, amount) {
                Ok(_) => Ok(0),
                Err(e) => {
                    proof {
                        assert(false);
                    }
                    Err(e)
                },
            }
        } else if message.action == bet_action {
            let participant = match message.participant {
                Some(p) => p,
                None => {
                    return Err(ArenaError::MalformedRequest);
                },
            };
            let challenge_id = match message.challenge_id {
                Some(c) => c,
                None => {
                    return Err(ArenaError::MalformedRequest);
                },
            };
            match self.place_bet(sender_id, challenge_id, participant, amount) {
                Ok(_) => Ok(0),
                Err(e) => Err(e),
            }
        } else {
            Err(ArenaError::MalformedRequest)
        }
    }
}

/// An inbound deposit message, as handed over after transport decoding: the
/// raw text was either empty, undecodable, or a structured request.
pub enum FtMessage {
    Empty,
    Unparsed,
    Message(TokenReceiverMessage),
}

/// A structured deposit request: the action to perform with the deposited
/// amount, and the action's arguments.
pub struct TokenReceiverMessage {
    /// `"AddChallengeAndPlaceBet"` or `"PlaceBetOnly"`; anything else is
    /// refused.
    pub action: String,
    /// The participant to stake the deposit on.
    pub participant: Option<u64>,
    /// The metadata link of the challenge to open (first action only).
    pub challenge_link: Option<String>,
    /// The existing challenge to stake on (second action only).
    pub challenge_id: Option<u32>,
}

} // verus!
