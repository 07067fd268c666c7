//! The vote registry: which accounts have cast their ballot in a challenge,
//! and a tally of votes per participant. A ballot grants one point to every
//! participant named in it (one point per listed name; a name listed twice
//! receives two points), and an account can vote at most once per challenge.

use vstd::prelude::*;

verus! {

/// One row of the vote tally: the points participant `participant` has
/// collected in challenge `challenge_id`.
#[derive(Clone, Copy, Debug, PartialEq, Eq, Structural)]
pub struct TallyEntry {
    pub challenge_id: u32,
    pub participant: u64,
    pub count: u8,
}

/// A record that `voter` has cast a ballot in `challenge_id`.
#[derive(Clone, Copy, Debug, PartialEq, Eq, Structural)]
pub struct VoterEntry {
    pub challenge_id: u32,
    pub voter: u64,
}

/// Does row `e` carry the key `(c, p)`?
pub open spec fn tally_key_match(e: TallyEntry, c: u32, p: u64) -> bool {
    e.challenge_id == c && e.participant == p
}

/// Is there a tally row for `(c, p)`?
pub open spec fn has_tally(ts: Seq<TallyEntry>, c: u32, p: u64) -> bool {
    exists|i: int| 0 <= i < ts.len() && tally_key_match(ts[i], c, p)
}

/// The vote count recorded for `(c, p)`: the first matching row's count, or 0
/// when no row matches.
pub open spec fn tally_count_of(ts: Seq<TallyEntry>, c: u32, p: u64) -> u8
    decreases ts.len(),
{
    if ts.len() == 0 {
        0
    } else if tally_key_match(ts[0], c, p) {
        ts[0].count
    } else {
        tally_count_of(ts.drop_first(), c, p)
    }
}

/// The tally rows of challenge `c`, in table order.
pub open spec fn challenge_tallies(ts: Seq<TallyEntry>, c: u32) -> Seq<TallyEntry>
    decreases ts.len(),
{
    if ts.len() == 0 {
        Seq::empty()
    } else {
        let pre = challenge_tallies(ts.drop_last(), c);
        if ts.last().challenge_id == c {
            pre.push(ts.last())
        } else {
            pre
        }
    }
}

/// Has `v` already cast a ballot in challenge `c`?
pub open spec fn has_voted(vs: Seq<VoterEntry>, c: u32, v: u64) -> bool {
    exists|i: int| 0 <= i < vs.len() && vs[i].challenge_id == c && vs[i].voter == v
}

/// Number of ballot records for challenge `c`.
pub open spec fn voters_count_of(vs: Seq<VoterEntry>, c: u32) -> int
    decreases vs.len(),
{
    if vs.len() == 0 {
        0
    } else {
        voters_count_of(vs.drop_last(), c) + if vs.last().challenge_id == c {
            1int
        } else {
            0int
        }
    }
}

/// Number of times `p` is named in a ballot's participant list.
pub open spec fn occurrences(ps: Seq<u64>, p: u64) -> int
    decreases ps.len(),
{
    if ps.len() == 0 {
        0
    } else {
        occurrences(ps.drop_last(), p) + if ps.last() == p {
            1int
        } else {
            0int
        }
    }
}

pub proof fn lemma_occurrences_nonneg(ps: Seq<u64>, p: u64)
    ensures
        occurrences(ps, p) >= 0,
    decreases ps.len(),
{
    if ps.len() > 0 {
        lemma_occurrences_nonneg(ps.drop_last(), p);
    }
}

/// A prefix never names a participant more often than the whole list.
pub proof fn lemma_occurrences_prefix(ps: Seq<u64>, i: int, p: u64)
    requires
        0 <= i <= ps.len(),
    ensures
        occurrences(ps.take(i), p) <= occurrences(ps, p),
    decreases ps.len() - i,
{
    if i == ps.len() {
        assert(ps.take(i) =~= ps);
    } else {
        assert(ps.take(i + 1).drop_last() =~= ps.take(i));
        assert(ps.take(i + 1).last() == ps[i]);
        lemma_occurrences_prefix(ps, i + 1, p);
    }
}

/// First matching row wins: when row `i` matches `(c, p)` and no earlier row
/// does, the recorded count is that row's count.
pub proof fn lemma_tally_lookup(ts: Seq<TallyEntry>, c: u32, p: u64, i: int)
    requires
        0 <= i < ts.len(),
        tally_key_match(ts[i], c, p),
        forall|k: int| 0 <= k < i ==> !tally_key_match(ts[k], c, p),
    ensures
        tally_count_of(ts, c, p) == ts[i].count,
    decreases i,
{
    if i > 0 {
        lemma_tally_lookup(ts.drop_first(), c, p, i - 1);
    }
}

/// A scan that found no match shows the recorded count is 0.
pub proof fn lemma_tally_absent(ts: Seq<TallyEntry>, c: u32, p: u64)
    requires
        forall|k: int| 0 <= k < ts.len() ==> !tally_key_match(ts[k], c, p),
    ensures
        tally_count_of(ts, c, p) == 0,
        !has_tally(ts, c, p),
    decreases ts.len(),
{
    if ts.len() > 0 {
        assert(forall|k: int|
            0 <= k < ts.drop_first().len() ==> !tally_key_match(ts.drop_first()[k], c, p));
        lemma_tally_absent(ts.drop_first(), c, p);
    }
}

/// Replacing the first row of a key by a row with the same key changes the
/// count of that key alone and no other challenge's tally rows.
pub proof fn lemma_tally_update(ts: Seq<TallyEntry>, i: int, e: TallyEntry)
    requires
        0 <= i < ts.len(),
        e.challenge_id == ts[i].challenge_id,
        e.participant == ts[i].participant,
        forall|k: int| 0 <= k < i ==> !tally_key_match(ts[k], e.challenge_id, e.participant),
    ensures
        tally_count_of(ts.update(i, e), e.challenge_id, e.participant) == e.count,
        forall|c: u32, p: u64|
            !tally_key_match(e, c, p) ==> tally_count_of(ts.update(i, e), c, p)
                == tally_count_of(ts, c, p),
        forall|c: u32, p: u64| has_tally(ts.update(i, e), c, p) == has_tally(ts, c, p),
        forall|c: u32|
            c != e.challenge_id ==> challenge_tallies(ts.update(i, e), c) == challenge_tallies(
                ts,
                c,
            ),
    decreases ts.len(),
{
    let t = ts.update(i, e);
    assert forall|c: u32, p: u64| has_tally(t, c, p) == has_tally(ts, c, p) by {
        if has_tally(t, c, p) {
            let j = choose|j: int| 0 <= j < t.len() && tally_key_match(t[j], c, p);
            if j == i {
                assert(tally_key_match(ts[i], c, p));
            } else {
                assert(tally_key_match(ts[j], c, p));
            }
        }
        if has_tally(ts, c, p) {
            let j = choose|j: int| 0 <= j < ts.len() && tally_key_match(ts[j], c, p);
            if j == i {
                assert(tally_key_match(t[i], c, p));
            } else {
                assert(tally_key_match(t[j], c, p));
            }
        }
    }
    assert forall|c: u32|
        c != e.challenge_id implies challenge_tallies(t, c) == challenge_tallies(ts, c) by {
        lemma_tallies_filter_update(ts, i, e, c);
    }
    if i == 0 {
        assert(t.drop_first() =~= ts.drop_first());
        assert forall|c: u32, p: u64|
            !tally_key_match(e, c, p) implies tally_count_of(t, c, p) == tally_count_of(
            ts,
            c,
            p,
        ) by {
            if tally_key_match(ts[0], c, p) {
                assert(tally_key_match(e, c, p));
            }
        }
    } else {
        assert(t.drop_first() =~= ts.drop_first().update(i - 1, e));
        lemma_tally_update(ts.drop_first(), i - 1, e);
        assert(t[0] == ts[0]);
    }
}

/// Updating a row in place leaves the filtered rows of every other challenge
/// unchanged.
proof fn lemma_tallies_filter_update(ts: Seq<TallyEntry>, i: int, e: TallyEntry, c: u32)
    requires
        0 <= i < ts.len(),
        e.challenge_id == ts[i].challenge_id,
        c != e.challenge_id,
    ensures
        challenge_tallies(ts.update(i, e), c) == challenge_tallies(ts, c),
    decreases ts.len(),
{
    let t = ts.update(i, e);
    if ts.len() > 0 {
        if i == ts.len() - 1 {
            assert(t.drop_last() =~= ts.drop_last());
            assert(t.last() == e);
            assert(ts.last().challenge_id != c);
        } else {
            assert(t.drop_last() =~= ts.drop_last().update(i, e));
            lemma_tallies_filter_update(ts.drop_last(), i, e, c);
            assert(t.last() == ts.last());
        }
    }
}

/// Appending a tally row for a fresh key leaves every existing count
/// unchanged, records the new row's count under its key, and extends only its
/// own challenge's filtered rows.
pub proof fn lemma_tally_push(ts: Seq<TallyEntry>, e: TallyEntry)
    ensures
        forall|c: u32, p: u64|
            has_tally(ts, c, p) || !tally_key_match(e, c, p) ==> tally_count_of(ts.push(e), c, p)
                == tally_count_of(ts, c, p),
        !has_tally(ts, e.challenge_id, e.participant) ==> tally_count_of(
            ts.push(e),
            e.challenge_id,
            e.participant,
        ) == e.count,
        forall|c: u32, p: u64|
            has_tally(ts.push(e), c, p) == (has_tally(ts, c, p) || tally_key_match(e, c, p)),
        forall|c: u32|
            c != e.challenge_id ==> challenge_tallies(ts.push(e), c) == challenge_tallies(ts, c),
        challenge_tallies(ts.push(e), e.challenge_id) == challenge_tallies(
            ts,
            e.challenge_id,
        ).push(e),
    decreases ts.len(),
{
    let t = ts.push(e);
    assert(t.drop_last() =~= ts);
    assert(t.last() == e);
    assert forall|c: u32, p: u64|
        has_tally(t, c, p) == (has_tally(ts, c, p) || tally_key_match(e, c, p)) by {
        if has_tally(t, c, p) {
            let j = choose|j: int| 0 <= j < t.len() && tally_key_match(t[j], c, p);
            if j < ts.len() {
                assert(tally_key_match(ts[j], c, p));
            }
        }
        if has_tally(ts, c, p) {
            let j = choose|j: int| 0 <= j < ts.len() && tally_key_match(ts[j], c, p);
            assert(tally_key_match(t[j], c, p));
        }
        if tally_key_match(e, c, p) {
            assert(tally_key_match(t[ts.len() as int], c, p));
        }
    }
    if ts.len() == 0 {
        assert forall|c: u32, p: u64|
            has_tally(ts, c, p) || !tally_key_match(e, c, p) implies tally_count_of(t, c, p)
            == tally_count_of(ts, c, p) by {
            assert(!has_tally(ts, c, p));
            assert(t[0] == e);
            assert(!tally_key_match(e, c, p));
            assert(t.drop_first() =~= Seq::<TallyEntry>::empty());
            assert(tally_count_of(t, c, p) == tally_count_of(t.drop_first(), c, p));
        }
    } else {
        assert(t.drop_first() =~= ts.drop_first().push(e));
        lemma_tally_push(ts.drop_first(), e);
        assert forall|c: u32, p: u64|
            has_tally(ts, c, p) || !tally_key_match(e, c, p) implies tally_count_of(t, c, p)
            == tally_count_of(ts, c, p) by {
            assert(t[0] == ts[0]);
            if tally_key_match(ts[0], c, p) {
                assert(tally_count_of(t, c, p) == t[0].count);
            } else {
                assert(tally_count_of(t, c, p) == tally_count_of(t.drop_first(), c, p));
                assert(tally_count_of(ts, c, p) == tally_count_of(ts.drop_first(), c, p));
                if has_tally(ts, c, p) {
                    let j = choose|j: int| 0 <= j < ts.len() && tally_key_match(ts[j], c, p);
                    assert(j > 0);
                    assert(tally_key_match(ts.drop_first()[j - 1], c, p));
                    assert(has_tally(ts.drop_first(), c, p));
                }
            }
        }
        if !has_tally(ts, e.challenge_id, e.participant) {
            assert(!tally_key_match(ts[0], e.challenge_id, e.participant));
            assert(!has_tally(ts.drop_first(), e.challenge_id, e.participant)) by {
                if has_tally(ts.drop_first(), e.challenge_id, e.participant) {
                    let j = choose|j: int|
                        0 <= j < ts.drop_first().len() && tally_key_match(
                            ts.drop_first()[j],
                            e.challenge_id,
                            e.participant,
                        );
                    assert(tally_key_match(ts[j + 1], e.challenge_id, e.participant));
                }
            }
            assert(tally_count_of(t, e.challenge_id, e.participant) == tally_count_of(
                t.drop_first(),
                e.challenge_id,
                e.participant,
            ));
        }
    }
}

/// One ballot per account: once a ballot record for `(c, v)` is appended, the
/// account counts as having voted in `c`, and it keeps counting as having
/// voted however the record table grows. With the contract of `cast_vote` —
/// which refuses exactly the voters already recorded — a backer's ballot is
/// accepted at most once.
pub proof fn lemma_single_ballot(vs: Seq<VoterEntry>, e: VoterEntry, c: u32, v: u64)
    ensures
        has_voted(vs.push(e), e.challenge_id, e.voter),
        has_voted(vs, c, v) ==> has_voted(vs.push(e), c, v),
        voters_count_of(vs.push(e), c) == voters_count_of(vs, c) + if e.challenge_id == c {
            1int
        } else {
            0int
        },
{
    let t = vs.push(e);
    assert(t[vs.len() as int] == e);
    if has_voted(vs, c, v) {
        let j = choose|j: int| 0 <= j < vs.len() && vs[j].challenge_id == c && vs[j].voter == v;
        assert(t[j].challenge_id == c && t[j].voter == v);
    }
    assert(t.drop_last() =~= vs);
}

/// Finds the first tally row for `(c, p)`, if any.
pub fn find_tally(ts: &Vec<TallyEntry>, c: u32, p: u64) -> (r: Option<usize>)
    ensures
        match r {
            Some(i) => i < ts@.len() && tally_key_match(ts@[i as int], c, p) && (forall|k: int|
                0 <= k < i ==> !tally_key_match(ts@[k], c, p)) && has_tally(ts@, c, p)
                && tally_count_of(ts@, c, p) == ts@[i as int].count,
            None => !has_tally(ts@, c, p) && tally_count_of(ts@, c, p) == 0,
        },
{
    let n = ts.len();
    let mut i: usize = 0;
    while i < n
        invariant
            n == ts@.len(),
            i <= n,
            forall|k: int| 0 <= k < i ==> !tally_key_match(ts@[k], c, p),
        decreases n - i,
    {
        let e = &ts[i];
        if e.challenge_id == c && e.participant == p {
            proof {
                lemma_tally_lookup(ts@, c, p, i as int);
            }
            return Some(i);
        }
        i += 1;
    }
    proof {
        lemma_tally_absent(ts@, c, p);
    }
    None
}

/// Has `v` a ballot record in challenge `c`?
pub fn check_has_voted(vs: &Vec<VoterEntry>, c: u32, v: u64) -> (r: bool)
    ensures
        r == has_voted(vs@, c, v),
{
    let n = vs.len();
    let mut i: usize = 0;
    while i < n
        invariant
            n == vs@.len(),
            i <= n,
            forall|k: int| 0 <= k < i ==> !(vs@[k].challenge_id == c && vs@[k].voter == v),
        decreases n - i,
    {
        let e = &vs[i];
        if e.challenge_id == c && e.voter == v {
            return true;
        }
        i += 1;
    }
    false
}

/// Number of ballot records for challenge `c`.
pub fn count_voters(vs: &Vec<VoterEntry>, c: u32) -> (r: usize)
    ensures
        r == voters_count_of(vs@, c),
{
    let n = vs.len();
    let mut acc: usize = 0;
    let mut i: usize = 0;
    while i < n
        invariant
            n == vs@.len(),
            i <= n,
            acc == voters_count_of(vs@.take(i as int), c),
            acc <= i,
        decreases n - i,
    {
        let e = &vs[i];
        proof {
            assert(vs@.take(i as int + 1).drop_last() =~= vs@.take(i as int));
            assert(vs@.take(i as int + 1).last() == vs@[i as int]);
        }
        if e.challenge_id == c {
            acc += 1;
        }
        i += 1;
    }
    proof {
        assert(vs@.take(n as int) =~= vs@);
    }
    acc
}

/// The tally rows of challenge `c`, in table order.
pub fn collect_tallies(ts: &Vec<TallyEntry>, c: u32) -> (r: Vec<TallyEntry>)
    ensures
        r@ == challenge_tallies(ts@, c),
{
    let n = ts.len();
    let mut r: Vec<TallyEntry> = Vec::new();
    let mut i: usize = 0;
    while i < n
        invariant
            n == ts@.len(),
            i <= n,
            r@ == challenge_tallies(ts@.take(i as int), c),
        decreases n - i,
    {
        let e = ts[i];
        proof {
            assert(ts@.take(i as int + 1).drop_last() =~= ts@.take(i as int));
            assert(ts@.take(i as int + 1).last() == ts@[i as int]);
        }
        if e.challenge_id == c {
            r.push(e);
        }
        i += 1;
    }
    proof {
        assert(ts@.take(n as int) =~= ts@);
    }
    r
}

} // verus!
