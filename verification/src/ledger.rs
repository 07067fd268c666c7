//! The stake ledger: a flat table of rows keyed by
//! `(challenge_id, backer, participant)`, each holding the accumulated amount
//! that backer has staked on that participant. Repeated stakes on one key
//! accumulate with saturating addition, so adversarially large amounts can
//! never wrap the ledger.

use vstd::prelude::*;

verus! {

/// One row of the stake ledger.
#[derive(Clone, Copy, Debug, PartialEq, Eq, Structural)]
pub struct StakeEntry {
    pub challenge_id: u32,
    pub backer: u64,
    pub participant: u64,
    pub amount: u128,
}

/// Does row `e` carry the key `(c, b, p)`?
pub open spec fn stake_key_match(e: StakeEntry, c: u32, b: u64, p: u64) -> bool {
    e.challenge_id == c && e.backer == b && e.participant == p
}

/// Is there a row for the key `(c, b, p)`?
pub open spec fn has_stake_entry(s: Seq<StakeEntry>, c: u32, b: u64, p: u64) -> bool {
    exists|i: int| 0 <= i < s.len() && stake_key_match(s[i], c, b, p)
}

/// The amount recorded for `(c, b, p)`: the first matching row's amount, or 0
/// when no row matches.
pub open spec fn stake_amount_of(s: Seq<StakeEntry>, c: u32, b: u64, p: u64) -> u128
    decreases s.len(),
{
    if s.len() == 0 {
        0
    } else if stake_key_match(s[0], c, b, p) {
        s[0].amount
    } else {
        stake_amount_of(s.drop_first(), c, b, p)
    }
}

/// Has backer `b` at least one row (on any participant) in challenge `c`?
pub open spec fn has_backer(s: Seq<StakeEntry>, c: u32, b: u64) -> bool {
    exists|i: int| 0 <= i < s.len() && s[i].challenge_id == c && s[i].backer == b
}

/// The distinct backers of challenge `c`, in order of first appearance.
pub open spec fn backers_of(s: Seq<StakeEntry>, c: u32) -> Seq<u64>
    decreases s.len(),
{
    if s.len() == 0 {
        Seq::empty()
    } else {
        let pre = backers_of(s.drop_last(), c);
        if s.last().challenge_id == c && !pre.contains(s.last().backer) {
            pre.push(s.last().backer)
        } else {
            pre
        }
    }
}

/// Total pool of challenge `c`: the saturating sum over every row of the
/// challenge.
pub open spec fn pool_of(s: Seq<StakeEntry>, c: u32) -> u128
    decreases s.len(),
{
    if s.len() == 0 {
        0
    } else {
        let rest = pool_of(s.drop_last(), c);
        if s.last().challenge_id == c {
            rest.saturating_add(s.last().amount)
        } else {
            rest
        }
    }
}

/// Mathematically exact pool of challenge `c`, used to state when the
/// saturating sum has not clipped.
pub open spec fn pool_exact(s: Seq<StakeEntry>, c: u32) -> int
    decreases s.len(),
{
    if s.len() == 0 {
        0
    } else {
        pool_exact(s.drop_last(), c) + if s.last().challenge_id == c {
            s.last().amount as int
        } else {
            0
        }
    }
}

/// Saturating total that backer `b` has staked across all participants of
/// challenge `c`.
pub open spec fn backer_total(s: Seq<StakeEntry>, c: u32, b: u64) -> u128
    decreases s.len(),
{
    if s.len() == 0 {
        0
    } else {
        let rest = backer_total(s.drop_last(), c, b);
        if s.last().challenge_id == c && s.last().backer == b {
            rest.saturating_add(s.last().amount)
        } else {
            rest
        }
    }
}

pub proof fn lemma_pool_exact_nonneg(s: Seq<StakeEntry>, c: u32)
    ensures
        pool_exact(s, c) >= 0,
    decreases s.len(),
{
    if s.len() > 0 {
        lemma_pool_exact_nonneg(s.drop_last(), c);
    }
}

/// When the challenge's true total fits in a `u128`, the saturating pool has
/// not clipped: it equals the exact sum.
pub proof fn lemma_pool_no_saturation(s: Seq<StakeEntry>, c: u32)
    requires
        pool_exact(s, c) <= u128::MAX,
    ensures
        pool_of(s, c) as int == pool_exact(s, c),
    decreases s.len(),
{
    if s.len() > 0 {
        lemma_pool_exact_nonneg(s.drop_last(), c);
        lemma_pool_no_saturation(s.drop_last(), c);
    }
}

/// The backer list of a challenge holds no duplicates.
pub proof fn lemma_backers_distinct(s: Seq<StakeEntry>, c: u32)
    ensures
        forall|i: int, j: int|
            0 <= i < j < backers_of(s, c).len() ==> backers_of(s, c)[i] != backers_of(s, c)[j],
    decreases s.len(),
{
    if s.len() > 0 {
        lemma_backers_distinct(s.drop_last(), c);
        let pre = backers_of(s.drop_last(), c);
        let bs = backers_of(s, c);
        if s.last().challenge_id == c && !pre.contains(s.last().backer) {
            assert forall|i: int, j: int| 0 <= i < j < bs.len() implies bs[i] != bs[j] by {
                if j == bs.len() - 1 {
                    assert(bs[i] == pre[i]);
                    assert(pre.contains(pre[i]));
                    assert(bs[j] == s.last().backer);
                } else {
                    assert(bs[i] == pre[i] && bs[j] == pre[j]);
                }
            }
        }
    }
}

/// A backer stands in the backer list exactly when it has a ledger row.
pub proof fn lemma_backers_contains(s: Seq<StakeEntry>, c: u32, b: u64)
    ensures
        backers_of(s, c).contains(b) == has_backer(s, c, b),
    decreases s.len(),
{
    if s.len() == 0 {
        assert(!has_backer(s, c, b));
        assert(!backers_of(s, c).contains(b));
    } else {
        let s0 = s.drop_last();
        lemma_backers_contains(s0, c, b);
        let pre = backers_of(s0, c);
        let bs = backers_of(s, c);
        assert(has_backer(s, c, b) == (has_backer(s0, c, b) || (s.last().challenge_id == c
            && s.last().backer == b))) by {
            if has_backer(s, c, b) {
                let j = choose|j: int| 0 <= j < s.len() && s[j].challenge_id == c && s[j].backer
                    == b;
                if j < s0.len() {
                    assert(s0[j].challenge_id == c && s0[j].backer == b);
                }
            }
            if has_backer(s0, c, b) {
                let j = choose|j: int| 0 <= j < s0.len() && s0[j].challenge_id == c && s0[j].backer
                    == b;
                assert(s[j].challenge_id == c && s[j].backer == b);
            }
            if s.last().challenge_id == c && s.last().backer == b {
                assert(s[s.len() - 1].challenge_id == c && s[s.len() - 1].backer == b);
            }
        }
        if s.last().challenge_id == c && !pre.contains(s.last().backer) {
            assert(bs == pre.push(s.last().backer));
            assert(bs.contains(b) == (pre.contains(b) || b == s.last().backer)) by {
                if bs.contains(b) {
                    let j = choose|j: int| 0 <= j < bs.len() && bs[j] == b;
                    if j < pre.len() {
                        assert(pre[j] == b);
                    }
                }
                if pre.contains(b) {
                    let j = choose|j: int| 0 <= j < pre.len() && pre[j] == b;
                    assert(bs[j] == b);
                }
                if b == s.last().backer {
                    assert(bs[pre.len() as int] == b);
                }
            }
        } else {
            assert(bs == pre);
        }
    }
}

/// Saturating sum of a sequence of amounts, accumulated left to right.
pub open spec fn sat_sum(amounts: Seq<u128>) -> u128
    decreases amounts.len(),
{
    if amounts.len() == 0 {
        0
    } else {
        sat_sum(amounts.drop_last()).saturating_add(amounts.last())
    }
}

/// Mathematically exact sum of a sequence of amounts.
pub open spec fn exact_sum(amounts: Seq<u128>) -> int
    decreases amounts.len(),
{
    if amounts.len() == 0 {
        0
    } else {
        exact_sum(amounts.drop_last()) + amounts.last()
    }
}

pub proof fn lemma_exact_sum_nonneg(amounts: Seq<u128>)
    ensures
        exact_sum(amounts) >= 0,
    decreases amounts.len(),
{
    if amounts.len() > 0 {
        lemma_exact_sum_nonneg(amounts.drop_last());
    }
}

/// Law of stake accumulation: a sequence of saturating additions, applied in
/// any order of arrival, lands on the exact sum clamped to `u128::MAX`. With
/// the contract of `place_bet` — each accepted call replaces the recorded
/// amount by its saturating sum with the new stake — the amount recorded after
/// any sequence of calls on one `(challenge, backer, participant)` key is the
/// saturating sum of all the individual amounts.
pub proof fn lemma_sat_sum_closed_form(amounts: Seq<u128>)
    ensures
        sat_sum(amounts) as int == if exact_sum(amounts) > u128::MAX {
            u128::MAX as int
        } else {
            exact_sum(amounts)
        },
    decreases amounts.len(),
{
    if amounts.len() > 0 {
        lemma_sat_sum_closed_form(amounts.drop_last());
        lemma_exact_sum_nonneg(amounts.drop_last());
    }
}

/// First matching row wins: when row `i` matches `(c, b, p)` and no earlier
/// row does, the recorded amount is that row's amount.
pub proof fn lemma_stake_lookup(s: Seq<StakeEntry>, c: u32, b: u64, p: u64, i: int)
    requires
        0 <= i < s.len(),
        stake_key_match(s[i], c, b, p),
        forall|k: int| 0 <= k < i ==> !stake_key_match(s[k], c, b, p),
    ensures
        stake_amount_of(s, c, b, p) == s[i].amount,
    decreases i,
{
    if i > 0 {
        lemma_stake_lookup(s.drop_first(), c, b, p, i - 1);
    }
}

/// A scan that found no match shows the recorded amount is 0.
pub proof fn lemma_stake_absent(s: Seq<StakeEntry>, c: u32, b: u64, p: u64)
    requires
        forall|k: int| 0 <= k < s.len() ==> !stake_key_match(s[k], c, b, p),
    ensures
        stake_amount_of(s, c, b, p) == 0,
        !has_stake_entry(s, c, b, p),
    decreases s.len(),
{
    if s.len() > 0 {
        assert(forall|k: int|
            0 <= k < s.drop_first().len() ==> !stake_key_match(s.drop_first()[k], c, b, p));
        lemma_stake_absent(s.drop_first(), c, b, p);
    }
}

/// Replacing the first row of a key by a row with the same key changes the
/// recorded amount for that key alone; every lookup of another key, the
/// presence of rows, the backers, and the aggregation keys are untouched.
pub proof fn lemma_stake_update(s: Seq<StakeEntry>, i: int, e: StakeEntry)
    requires
        0 <= i < s.len(),
        e.challenge_id == s[i].challenge_id,
        e.backer == s[i].backer,
        e.participant == s[i].participant,
        forall|k: int|
            0 <= k < i ==> !stake_key_match(
                s[k],
                e.challenge_id,
                e.backer,
                e.participant,
            ),
    ensures
        stake_amount_of(s.update(i, e), e.challenge_id, e.backer, e.participant) == e.amount,
        forall|c: u32, b: u64, p: u64|
            !stake_key_match(e, c, b, p) ==> stake_amount_of(s.update(i, e), c, b, p)
                == stake_amount_of(s, c, b, p),
        forall|c: u32, b: u64, p: u64|
            has_stake_entry(s.update(i, e), c, b, p) == has_stake_entry(s, c, b, p),
        forall|c: u32, b: u64|
            has_backer(s.update(i, e), c, b) == has_backer(s, c, b),
    decreases i,
{
    let t = s.update(i, e);
    assert forall|c: u32, b: u64, p: u64|
        has_stake_entry(t, c, b, p) == has_stake_entry(s, c, b, p) by {
        if has_stake_entry(t, c, b, p) {
            let j = choose|j: int| 0 <= j < t.len() && stake_key_match(t[j], c, b, p);
            if j == i {
                assert(stake_key_match(s[i], c, b, p));
            } else {
                assert(stake_key_match(s[j], c, b, p));
            }
            assert(has_stake_entry(s, c, b, p));
        }
        if has_stake_entry(s, c, b, p) {
            let j = choose|j: int| 0 <= j < s.len() && stake_key_match(s[j], c, b, p);
            if j == i {
                assert(stake_key_match(t[i], c, b, p));
            } else {
                assert(stake_key_match(t[j], c, b, p));
            }
            assert(has_stake_entry(t, c, b, p));
        }
    }
    assert forall|c: u32, b: u64| has_backer(t, c, b) == has_backer(s, c, b) by {
        if has_backer(t, c, b) {
            let j = choose|j: int| 0 <= j < t.len() && t[j].challenge_id == c && t[j].backer == b;
            if j == i {
                assert(s[i].challenge_id == c && s[i].backer == b);
            } else {
                assert(s[j].challenge_id == c && s[j].backer == b);
            }
            assert(has_backer(s, c, b));
        }
        if has_backer(s, c, b) {
            let j = choose|j: int| 0 <= j < s.len() && s[j].challenge_id == c && s[j].backer == b;
            if j == i {
                assert(t[i].challenge_id == c && t[i].backer == b);
            } else {
                assert(t[j].challenge_id == c && t[j].backer == b);
            }
            assert(has_backer(t, c, b));
        }
    }
    if i == 0 {
        assert(t.drop_first() =~= s.drop_first());
        assert forall|c: u32, b: u64, p: u64|
            !stake_key_match(e, c, b, p) implies stake_amount_of(t, c, b, p)
            == stake_amount_of(s, c, b, p) by {
            assert(!stake_key_match(s[0], c, b, p) ==> !stake_key_match(t[0], c, b, p)
                || stake_key_match(e, c, b, p));
        }
    } else {
        assert(t.drop_first() =~= s.drop_first().update(i - 1, e));
        lemma_stake_update(s.drop_first(), i - 1, e);
        assert(t[0] == s[0]);
    }
}

/// Appending a row for a fresh key leaves every existing lookup unchanged and
/// records the new row's amount under its key.
pub proof fn lemma_stake_push(s: Seq<StakeEntry>, e: StakeEntry)
    ensures
        forall|c: u32, b: u64, p: u64|
            has_stake_entry(s, c, b, p) || !stake_key_match(e, c, b, p)
                ==> stake_amount_of(s.push(e), c, b, p) == stake_amount_of(s, c, b, p),
        !has_stake_entry(s, e.challenge_id, e.backer, e.participant)
            ==> stake_amount_of(s.push(e), e.challenge_id, e.backer, e.participant) == e.amount,
        forall|c: u32, b: u64, p: u64|
            has_stake_entry(s.push(e), c, b, p) == (has_stake_entry(s, c, b, p)
                || stake_key_match(e, c, b, p)),
        forall|c: u32, b: u64|
            has_backer(s.push(e), c, b) == (has_backer(s, c, b) || (e.challenge_id == c
                && e.backer == b)),
    decreases s.len(),
{
    let t = s.push(e);
    assert forall|c: u32, b: u64, p: u64|
        has_stake_entry(t, c, b, p) == (has_stake_entry(s, c, b, p) || stake_key_match(
            e,
            c,
            b,
            p,
        )) by {
        if has_stake_entry(t, c, b, p) {
            let j = choose|j: int| 0 <= j < t.len() && stake_key_match(t[j], c, b, p);
            if j < s.len() {
                assert(stake_key_match(s[j], c, b, p));
            }
        }
        if has_stake_entry(s, c, b, p) {
            let j = choose|j: int| 0 <= j < s.len() && stake_key_match(s[j], c, b, p);
            assert(stake_key_match(t[j], c, b, p));
        }
        if stake_key_match(e, c, b, p) {
            assert(stake_key_match(t[s.len() as int], c, b, p));
        }
    }
    assert forall|c: u32, b: u64|
        has_backer(t, c, b) == (has_backer(s, c, b) || (e.challenge_id == c && e.backer
            == b)) by {
        if has_backer(t, c, b) {
            let j = choose|j: int| 0 <= j < t.len() && t[j].challenge_id == c && t[j].backer == b;
            if j < s.len() {
                assert(s[j].challenge_id == c && s[j].backer == b);
            }
        }
        if has_backer(s, c, b) {
            let j = choose|j: int| 0 <= j < s.len() && s[j].challenge_id == c && s[j].backer == b;
            assert(t[j].challenge_id == c && t[j].backer == b);
        }
        if e.challenge_id == c && e.backer == b {
            assert(t[s.len() as int].challenge_id == c && t[s.len() as int].backer == b);
        }
    }
    if s.len() == 0 {
        assert forall|c: u32, b: u64, p: u64|
            has_stake_entry(s, c, b, p) || !stake_key_match(e, c, b, p)
                implies stake_amount_of(t, c, b, p) == stake_amount_of(s, c, b, p) by {
            assert(!has_stake_entry(s, c, b, p));
            assert(t[0] == e);
            assert(t.drop_first() =~= Seq::<StakeEntry>::empty());
            assert(stake_amount_of(Seq::<StakeEntry>::empty(), c, b, p) == 0);
            assert(!stake_key_match(e, c, b, p));
            assert(stake_amount_of(t, c, b, p) == stake_amount_of(t.drop_first(), c, b, p));
            assert(stake_amount_of(s, c, b, p) == 0);
        }
    } else {
        assert(t.drop_first() =~= s.drop_first().push(e));
        lemma_stake_push(s.drop_first(), e);
        assert forall|c: u32, b: u64, p: u64|
            has_stake_entry(s, c, b, p) || !stake_key_match(e, c, b, p)
                implies stake_amount_of(t, c, b, p) == stake_amount_of(s, c, b, p) by {
            assert(t[0] == s[0]);
            if stake_key_match(s[0], c, b, p) {
                assert(stake_amount_of(t, c, b, p) == t[0].amount);
                assert(stake_amount_of(s, c, b, p) == s[0].amount);
            } else {
                assert(stake_amount_of(t, c, b, p) == stake_amount_of(t.drop_first(), c, b, p));
                assert(stake_amount_of(s, c, b, p) == stake_amount_of(s.drop_first(), c, b, p));
                if has_stake_entry(s, c, b, p) {
                    let j = choose|j: int| 0 <= j < s.len() && stake_key_match(s[j], c, b, p);
                    assert(j > 0);
                    assert(stake_key_match(s.drop_first()[j - 1], c, b, p));
                    assert(has_stake_entry(s.drop_first(), c, b, p));
                }
                assert(stake_amount_of(t.drop_first(), c, b, p) == stake_amount_of(
                    s.drop_first(),
                    c,
                    b,
                    p,
                ));
            }
        }
        if !has_stake_entry(s, e.challenge_id, e.backer, e.participant) {
            assert(!stake_key_match(s[0], e.challenge_id, e.backer, e.participant));
            assert(!has_stake_entry(s.drop_first(), e.challenge_id, e.backer, e.participant))
                by {
                if has_stake_entry(s.drop_first(), e.challenge_id, e.backer, e.participant) {
                    let j = choose|j: int|
                        0 <= j < s.drop_first().len() && stake_key_match(
                            s.drop_first()[j],
                            e.challenge_id,
                            e.backer,
                            e.participant,
                        );
                    assert(stake_key_match(s[j + 1], e.challenge_id, e.backer, e.participant));
                }
            }
        }
    }
}

/// Finds the first row for `(c, b, p)`, if any.
pub fn find_stake(s: &Vec<StakeEntry>, c: u32, b: u64, p: u64) -> (r: Option<usize>)
    ensures
        match r {
            Some(i) => i < s@.len() && stake_key_match(s@[i as int], c, b, p) && (forall|k: int|
                0 <= k < i ==> !stake_key_match(s@[k], c, b, p)) && has_stake_entry(s@, c, b, p)
                && stake_amount_of(s@, c, b, p) == s@[i as int].amount,
            None => !has_stake_entry(s@, c, b, p) && stake_amount_of(s@, c, b, p) == 0,
        },
{
    let n = s.len();
    let mut i: usize = 0;
    while i < n
        invariant
            n == s@.len(),
            i <= n,
            forall|k: int| 0 <= k < i ==> !stake_key_match(s@[k], c, b, p),
        decreases n - i,
    {
        let e = &s[i];
        if e.challenge_id == c && e.backer == b && e.participant == p {
            proof {
                lemma_stake_lookup(s@, c, b, p, i as int);
            }
            return Some(i);
        }
        i += 1;
    }
    proof {
        lemma_stake_absent(s@, c, b, p);
    }
    None
}

/// Does backer `b` hold any stake in challenge `c`?
pub fn backer_has_stake(s: &Vec<StakeEntry>, c: u32, b: u64) -> (r: bool)
    ensures
        r == has_backer(s@, c, b),
{
    let n = s.len();
    let mut i: usize = 0;
    while i < n
        invariant
            n == s@.len(),
            i <= n,
            forall|k: int| 0 <= k < i ==> !(s@[k].challenge_id == c && s@[k].backer == b),
        decreases n - i,
    {
        let e = &s[i];
        if e.challenge_id == c && e.backer == b {
            return true;
        }
        i += 1;
    }
    false
}

/// Does `v` contain `x`?
pub fn contains_u64(v: &Vec<u64>, x: u64) -> (r: bool)
    ensures
        r == v@.contains(x),
{
    let n = v.len();
    let mut i: usize = 0;
    while i < n
        invariant
            n == v@.len(),
            i <= n,
            forall|k: int| 0 <= k < i ==> v@[k] != x,
        decreases n - i,
    {
        if v[i] == x {
            assert(v@[i as int] == x);
            return true;
        }
        i += 1;
    }
    assert(!v@.contains(x));
    false
}

/// Collects the distinct backers of challenge `c` in order of first
/// appearance.
pub fn collect_backers(s: &Vec<StakeEntry>, c: u32) -> (r: Vec<u64>)
    ensures
        r@ == backers_of(s@, c),
{
    let n = s.len();
    let mut r: Vec<u64> = Vec::new();
    let mut i: usize = 0;
    while i < n
        invariant
            n == s@.len(),
            i <= n,
            r@ == backers_of(s@.take(i as int), c),
        decreases n - i,
    {
        let e = &s[i];
        proof {
            assert(s@.take(i as int + 1).drop_last() =~= s@.take(i as int));
            assert(s@.take(i as int + 1).last() == s@[i as int]);
        }
        if e.challenge_id == c {
            if !contains_u64(&r, e.backer) {
                r.push(e.backer);
            }
        }
        i += 1;
    }
    proof {
        assert(s@.take(n as int) =~= s@);
    }
    r
}

/// Total pool of challenge `c`.
pub fn compute_pool(s: &Vec<StakeEntry>, c: u32) -> (r: u128)
    ensures
        r == pool_of(s@, c),
{
    let n = s.len();
    let mut acc: u128 = 0;
    let mut i: usize = 0;
    while i < n
        invariant
            n == s@.len(),
            i <= n,
            acc == pool_of(s@.take(i as int), c),
        decreases n - i,
    {
        let e = &s[i];
        proof {
            assert(s@.take(i as int + 1).drop_last() =~= s@.take(i as int));
            assert(s@.take(i as int + 1).last() == s@[i as int]);
        }
        if e.challenge_id == c {
            acc = acc.saturating_add(e.amount);
        }
        i += 1;
    }
    proof {
        assert(s@.take(n as int) =~= s@);
    }
    acc
}

/// Saturating total staked by backer `b` in challenge `c`.
pub fn compute_backer_total(s: &Vec<StakeEntry>, c: u32, b: u64) -> (r: u128)
    ensures
        r == backer_total(s@, c, b),
{
    let n = s.len();
    let mut acc: u128 = 0;
    let mut i: usize = 0;
    while i < n
        invariant
            n == s@.len(),
            i <= n,
            acc == backer_total(s@.take(i as int), c, b),
        decreases n - i,
    {
        let e = &s[i];
        proof {
            assert(s@.take(i as int + 1).drop_last() =~= s@.take(i as int));
            assert(s@.take(i as int + 1).last() == s@[i as int]);
        }
        if e.challenge_id == c && e.backer == b {
            acc = acc.saturating_add(e.amount);
        }
        i += 1;
    }
    proof {
        assert(s@.take(n as int) =~= s@);
    }
    acc
}

} // verus!
