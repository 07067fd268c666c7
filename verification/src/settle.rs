//! The settlement engine. It ranks participants by vote count with a stable
//! descending sort, derives the winner set for a requested rank, and computes
//! the pari-mutuel payout of every backer:
//! `floor(total_pool * stake / total_on_winners)`, scaled by a rank factor.
//!
//! The rank factor is applied as a factor truncated to whole units before the
//! multiplication: rank 1 keeps 100% of the share, while the fractional
//! factors of every later rank truncate to zero, so payouts at rank 2 and
//! beyond collapse to zero. This all-or-nothing behaviour is deliberate and
//! documented rather than smoothed over.

use crate::ledger::StakeEntry;
use crate::ledger::backers_of;
use crate::ledger::collect_backers;
use crate::ledger::contains_u64;
use crate::ledger::has_backer;
use crate::ledger::lemma_backers_contains;
use crate::ledger::lemma_backers_distinct;
use crate::ledger::lemma_pool_exact_nonneg;
use crate::ledger::lemma_pool_no_saturation;
use crate::ledger::pool_exact;
use crate::ledger::pool_of;
use crate::votes::TallyEntry;
use vstd::arithmetic::div_mod::lemma_div_is_ordered;
use vstd::arithmetic::div_mod::lemma_div_multiples_vanish;
use vstd::arithmetic::div_mod::lemma_div_pos_is_pos;
use vstd::arithmetic::div_mod::lemma_fundamental_div_mod;
use vstd::arithmetic::div_mod::lemma_mod_bound;
use vstd::arithmetic::mul::lemma_mul_is_distributive_add;
use vstd::arithmetic::mul::lemma_mul_inequality;
use vstd::arithmetic::mul::lemma_mul_nonnegative;
use vstd::prelude::*;

verus! {

/// Vote counts never increase along the sequence.
pub open spec fn sorted_desc(s: Seq<TallyEntry>) -> bool {
    forall|i: int, j: int| 0 <= i < j < s.len() ==> s[i].count >= s[j].count
}

/// Stable insertion for a descending order: `e` lands after every row whose
/// count is at least its own, so rows with equal counts keep their encounter
/// order.
pub open spec fn insert_desc(s: Seq<TallyEntry>, e: TallyEntry) -> Seq<TallyEntry>
    decreases s.len(),
{
    if s.len() == 0 {
        seq![e]
    } else if s.last().count >= e.count {
        s.push(e)
    } else {
        insert_desc(s.drop_last(), e).push(s.last())
    }
}

/// Stable descending sort by vote count.
pub open spec fn stable_sort_desc(s: Seq<TallyEntry>) -> Seq<TallyEntry>
    decreases s.len(),
{
    if s.len() == 0 {
        Seq::empty()
    } else {
        insert_desc(stable_sort_desc(s.drop_last()), s.last())
    }
}

/// The participants of the rows whose count equals `m`, in row order.
pub open spec fn filter_max(s: Seq<TallyEntry>, m: u8) -> Seq<u64>
    decreases s.len(),
{
    if s.len() == 0 {
        Seq::empty()
    } else {
        let pre = filter_max(s.drop_last(), m);
        if s.last().count == m {
            pre.push(s.last().participant)
        } else {
            pre
        }
    }
}

/// The participants of the first `n` rows (all of them when fewer).
pub open spec fn prefix_participants(s: Seq<TallyEntry>, n: int) -> Seq<u64> {
    Seq::new(
        if 0 <= n <= s.len() {
            n as nat
        } else if n > s.len() {
            s.len()
        } else {
            0
        },
        |i: int| s[i].participant,
    )
}

/// The winner set of a challenge's tally rows at the given rank.
///
/// At rank 1 every participant tied for the maximum vote count wins (full tie
/// inclusion). At any other rank the first `rank` rows of the stable
/// descending sort win — a plain truncation, so a tie straddling the cutoff
/// is split by encounter order rather than included in full. Meaningful only
/// for a non-empty tally.
pub open spec fn winners_spec(tallies_c: Seq<TallyEntry>, rank: u8) -> Seq<u64> {
    let sorted = stable_sort_desc(tallies_c);
    if rank == 1 {
        filter_max(sorted, sorted[0].count)
    } else {
        prefix_participants(sorted, rank as int)
    }
}

/// Saturating sum of the stakes placed on any winning participant of
/// challenge `c`. A backer who staked on two winning participants contributes
/// both rows.
pub open spec fn on_winners_of(s: Seq<StakeEntry>, c: u32, winners: Seq<u64>) -> u128
    decreases s.len(),
{
    if s.len() == 0 {
        0
    } else {
        let rest = on_winners_of(s.drop_last(), c, winners);
        if s.last().challenge_id == c && winners.contains(s.last().participant) {
            rest.saturating_add(s.last().amount)
        } else {
            rest
        }
    }
}

/// Mathematically exact sum of the stakes on winning participants.
pub open spec fn on_winners_exact(s: Seq<StakeEntry>, c: u32, winners: Seq<u64>) -> int
    decreases s.len(),
{
    if s.len() == 0 {
        0
    } else {
        on_winners_exact(s.drop_last(), c, winners) + if s.last().challenge_id == c
            && winners.contains(s.last().participant) {
            s.last().amount as int
        } else {
            0
        }
    }
}

/// Whole units kept of a payout share at the given rank: the scale factor
/// truncated to an integer. Rank 1 keeps the full share; the fractional
/// factors of every other rank truncate to zero.
pub open spec fn scale_units(rank: u8) -> int {
    if rank == 1 {
        1
    } else {
        0
    }
}

/// The payout a single winning ledger row earns:
/// `floor(pool * amount / denom) * scale`.
pub open spec fn entry_payout(pool: u128, amount: u128, denom: u128, rank: u8) -> int {
    if denom == 0 {
        0
    } else {
        ((pool * amount) / (denom as int)) * scale_units(rank)
    }
}

/// Clamp a mathematical value into a `u128`.
pub open spec fn clip(x: int) -> u128 {
    if x > u128::MAX {
        u128::MAX
    } else if x < 0 {
        0
    } else {
        x as u128
    }
}

/// Saturating total payout of backer `b` in challenge `c`: the sum of the
/// payouts of the backer's rows on winning participants.
pub open spec fn backer_payout(
    s: Seq<StakeEntry>,
    c: u32,
    b: u64,
    winners: Seq<u64>,
    pool: u128,
    denom: u128,
    rank: u8,
) -> u128
    decreases s.len(),
{
    if s.len() == 0 {
        0
    } else {
        let rest = backer_payout(s.drop_last(), c, b, winners, pool, denom, rank);
        let e = s.last();
        if e.challenge_id == c && e.backer == b && winners.contains(e.participant) {
            rest.saturating_add(clip(entry_payout(pool, e.amount, denom, rank)))
        } else {
            rest
        }
    }
}

/// The settlement output: one `(backer, payout)` row for every backer that
/// appears anywhere in the challenge's ledger, in order of first appearance,
/// with payout 0 for backers with no winning stake.
pub open spec fn payout_seq_spec(
    s: Seq<StakeEntry>,
    c: u32,
    winners: Seq<u64>,
    pool: u128,
    denom: u128,
    rank: u8,
) -> Seq<(u64, u128)> {
    let bs = backers_of(s, c);
    Seq::new(bs.len(), |i: int| (bs[i], backer_payout(s, c, bs[i], winners, pool, denom, rank)))
}

/// The payout arithmetic stays within machine bounds: at rank 1 every winning
/// row's product `pool * amount` fits in a `u128` and the winning side is not
/// empty-handed. At other ranks the truncated scale factor shortcuts the
/// arithmetic, so nothing is required.
pub open spec fn payouts_computable(
    s: Seq<StakeEntry>,
    c: u32,
    winners: Seq<u64>,
    rank: u8,
) -> bool {
    rank == 1 ==> forall|i: int|
        0 <= i < s.len() && s[i].challenge_id == c && winners.contains(#[trigger] s[i].participant)
            ==> pool_of(s, c) * s[i].amount <= u128::MAX && on_winners_of(s, c, winners) > 0
}

/// A stable insertion keeps the order sorted, adds exactly the new row, and
/// keeps every row of the input.
pub proof fn lemma_insert_desc_sorted(s: Seq<TallyEntry>, e: TallyEntry)
    requires
        sorted_desc(s),
    ensures
        sorted_desc(insert_desc(s, e)),
        insert_desc(s, e).len() == s.len() + 1,
        forall|x: TallyEntry| #![trigger insert_desc(s, e).contains(x)]
            insert_desc(s, e).contains(x) == (s.contains(x) || x == e),
    decreases s.len(),
{
    let t = insert_desc(s, e);
    if s.len() == 0 {
        assert forall|x: TallyEntry| t.contains(x) == (s.contains(x) || x == e) by {
            if t.contains(x) {
                let j = choose|j: int| 0 <= j < t.len() && t[j] == x;
                assert(x == e);
            }
            if x == e {
                assert(t[0] == e);
            }
        }
    } else if s.last().count >= e.count {
        assert(t == s.push(e));
        assert forall|i: int, j: int| 0 <= i < j < t.len() implies t[i].count >= t[j].count by {
            if j == t.len() - 1 {
                assert(t[j] == e);
                assert(t[i] == s[i]);
                if i < s.len() - 1 {
                    assert(s[i].count >= s[s.len() - 1].count);
                }
            }
        }
        assert forall|x: TallyEntry| t.contains(x) == (s.contains(x) || x == e) by {
            if t.contains(x) {
                let j = choose|j: int| 0 <= j < t.len() && t[j] == x;
                if j < s.len() {
                    assert(s[j] == x);
                }
            }
            if s.contains(x) {
                let j = choose|j: int| 0 <= j < s.len() && s[j] == x;
                assert(t[j] == x);
            }
            if x == e {
                assert(t[s.len() as int] == e);
            }
        }
    } else {
        let pre = s.drop_last();
        assert(sorted_desc(pre));
        lemma_insert_desc_sorted(pre, e);
        let u = insert_desc(pre, e);
        assert(t == u.push(s.last()));
        assert forall|i: int, j: int| 0 <= i < j < t.len() implies t[i].count >= t[j].count by {
            if j == t.len() - 1 {
                assert(t[j] == s.last());
                assert(t[i] == u[i]);
                assert(u.contains(u[i]));
                if pre.contains(u[i]) {
                    let k = choose|k: int| 0 <= k < pre.len() && pre[k] == u[i];
                    assert(s[k] == u[i]);
                    assert(s[k].count >= s[s.len() - 1].count);
                } else {
                    assert(u[i] == e);
                    assert(e.count > s.last().count);
                }
            } else {
                assert(t[i] == u[i] && t[j] == u[j]);
            }
        }
        assert forall|x: TallyEntry| t.contains(x) == (s.contains(x) || x == e) by {
            if t.contains(x) {
                let j = choose|j: int| 0 <= j < t.len() && t[j] == x;
                if j == t.len() - 1 {
                    assert(x == s.last());
                    assert(s[s.len() - 1] == x);
                } else {
                    assert(u.contains(x));
                    if pre.contains(x) {
                        let k = choose|k: int| 0 <= k < pre.len() && pre[k] == x;
                        assert(s[k] == x);
                    }
                }
            }
            if s.contains(x) {
                let j = choose|j: int| 0 <= j < s.len() && s[j] == x;
                if j == s.len() - 1 {
                    assert(t[t.len() - 1] == x);
                } else {
                    assert(pre[j] == x);
                    assert(pre.contains(x));
                    assert(u.contains(x));
                    let k = choose|k: int| 0 <= k < u.len() && u[k] == x;
                    assert(t[k] == x);
                }
            }
            if x == e {
                assert(insert_desc(pre, e).contains(e));
                let k = choose|k: int| 0 <= k < u.len() && u[k] == e;
                assert(t[k] == e);
            }
        }
    }
}

/// The stable sort is sorted, keeps the length, and keeps exactly the rows of
/// the input.
pub proof fn lemma_stable_sort(s: Seq<TallyEntry>)
    ensures
        sorted_desc(stable_sort_desc(s)),
        stable_sort_desc(s).len() == s.len(),
        forall|x: TallyEntry| #![trigger stable_sort_desc(s).contains(x)]
            stable_sort_desc(s).contains(x) == s.contains(x),
    decreases s.len(),
{
    if s.len() > 0 {
        let pre = s.drop_last();
        lemma_stable_sort(pre);
        lemma_insert_desc_sorted(stable_sort_desc(pre), s.last());
        assert forall|x: TallyEntry| stable_sort_desc(s).contains(x) == s.contains(x) by {
            if s.contains(x) {
                let j = choose|j: int| 0 <= j < s.len() && s[j] == x;
                if j < s.len() - 1 {
                    assert(pre[j] == x);
                    assert(pre.contains(x));
                }
            }
            if pre.contains(x) {
                let j = choose|j: int| 0 <= j < pre.len() && pre[j] == x;
                assert(s[j] == x);
            }
            if x == s.last() {
                assert(s[s.len() - 1] == x);
            }
        }
    }
}

/// Inserting at the scanned position realizes the stable insertion: every row
/// from the position on has a smaller count, and the row before it (if any)
/// has at least the new row's count.
proof fn lemma_insert_desc_at(s: Seq<TallyEntry>, e: TallyEntry, j: int)
    requires
        0 <= j <= s.len(),
        forall|k: int| j <= k < s.len() ==> s[k].count < e.count,
        j > 0 ==> s[j - 1].count >= e.count,
    ensures
        insert_desc(s, e) == s.insert(j, e),
    decreases s.len(),
{
    if j == s.len() {
        if s.len() == 0 {
            assert(insert_desc(s, e) =~= s.insert(j, e));
        } else {
            assert(s.last().count >= e.count);
            assert(insert_desc(s, e) == s.push(e));
            assert(s.insert(j, e) =~= s.push(e));
        }
    } else {
        assert(s[s.len() - 1].count < e.count);
        assert(insert_desc(s, e) == insert_desc(s.drop_last(), e).push(s.last()));
        lemma_insert_desc_at(s.drop_last(), e, j);
        assert(s.drop_last().insert(j, e).push(s.last()) =~= s.insert(j, e));
    }
}

/// Sorts a challenge's tally rows by vote count, descending and stable.
pub fn sort_tallies_desc(input: &Vec<TallyEntry>) -> (r: Vec<TallyEntry>)
    ensures
        r@ == stable_sort_desc(input@),
        sorted_desc(r@),
        r@.len() == input@.len(),
{
    let n = input.len();
    let mut out: Vec<TallyEntry> = Vec::new();
    let mut i: usize = 0;
    while i < n
        invariant
            n == input@.len(),
            i <= n,
            out@ == stable_sort_desc(input@.take(i as int)),
            out@.len() == i,
            sorted_desc(out@),
        decreases n - i,
    {
        let e = input[i];
        let mut j: usize = out.len();
        while j > 0 && out[j - 1].count < e.count
            invariant
                j <= out@.len(),
                forall|k: int| j <= k < out@.len() ==> out@[k].count < e.count,
                sorted_desc(out@),
            decreases j,
        {
            j -= 1;
        }
        proof {
            assert(input@.take(i as int + 1).drop_last() =~= input@.take(i as int));
            assert(input@.take(i as int + 1).last() == input@[i as int]);
            lemma_insert_desc_at(out@, e, j as int);
            lemma_insert_desc_sorted(out@, e);
        }
        out.insert(j, e);
        i += 1;
    }
    proof {
        assert(input@.take(n as int) =~= input@);
    }
    out
}

/// Derives the winner set from the sorted tally rows at the given rank.
pub fn winners_from_sorted(sorted: &Vec<TallyEntry>, rank: u8) -> (w: Vec<u64>)
    requires
        sorted@.len() > 0,
    ensures
        w@ == (if rank == 1 {
            filter_max(sorted@, sorted@[0].count)
        } else {
            prefix_participants(sorted@, rank as int)
        }),
{
    let n = sorted.len();
    let mut w: Vec<u64> = Vec::new();
    if rank == 1 {
        let m = sorted[0].count;
        let mut i: usize = 0;
        while i < n
            invariant
                n == sorted@.len(),
                i <= n,
                w@ == filter_max(sorted@.take(i as int), m),
            decreases n - i,
        {
            let e = &sorted[i];
            proof {
                assert(sorted@.take(i as int + 1).drop_last() =~= sorted@.take(i as int));
                assert(sorted@.take(i as int + 1).last() == sorted@[i as int]);
            }
            if e.count == m {
                w.push(e.participant);
            }
            i += 1;
        }
        proof {
            assert(sorted@.take(n as int) =~= sorted@);
        }
    } else {
        let stop: usize = if (rank as usize) < n {
            rank as usize
        } else {
            n
        };
        let mut i: usize = 0;
        while i < stop
            invariant
                n == sorted@.len(),
                stop <= n,
                stop == (if rank as int <= n as int {
                    rank as int
                } else {
                    n as int
                }),
                i <= stop,
                w@ == prefix_participants(sorted@, i as int),
            decreases stop - i,
        {
            w.push(sorted[i].participant);
            proof {
                assert(w@ =~= prefix_participants(sorted@, i as int + 1));
            }
            i += 1;
        }
        proof {
            assert(w@ =~= prefix_participants(sorted@, rank as int));
        }
    }
    w
}

/// Saturating total staked on winning participants of challenge `c`.
pub fn compute_on_winners(s: &Vec<StakeEntry>, c: u32, winners: &Vec<u64>) -> (r: u128)
    ensures
        r == on_winners_of(s@, c, winners@),
{
    let n = s.len();
    let mut acc: u128 = 0;
    let mut i: usize = 0;
    while i < n
        invariant
            n == s@.len(),
            i <= n,
            acc == on_winners_of(s@.take(i as int), c, winners@),
        decreases n - i,
    {
        let e = &s[i];
        proof {
            assert(s@.take(i as int + 1).drop_last() =~= s@.take(i as int));
            assert(s@.take(i as int + 1).last() == s@[i as int]);
        }
        if e.challenge_id == c && contains_u64(winners, e.participant) {
            acc = acc.saturating_add(e.amount);
        }
        i += 1;
    }
    proof {
        assert(s@.take(n as int) =~= s@);
    }
    acc
}

/// Computes the settlement output rows: one `(backer, payout)` row per backer
/// of the challenge, in order of first appearance.
pub fn compute_payout_rows(
    stakes: &Vec<StakeEntry>,
    c: u32,
    winners: &Vec<u64>,
    pool: u128,
    denom: u128,
    rank: u8,
) -> (r: Vec<(u64, u128)>)
    requires
        pool == pool_of(stakes@, c),
        denom == on_winners_of(stakes@, c, winners@),
        payouts_computable(stakes@, c, winners@, rank),
    ensures
        r@ == payout_seq_spec(stakes@, c, winners@, pool, denom, rank),
{
    let backers = collect_backers(stakes, c);
    let nb = backers.len();
    let n = stakes.len();
    let mut r: Vec<(u64, u128)> = Vec::new();
    let mut bi: usize = 0;
    while bi < nb
        invariant
            nb == backers@.len(),
            n == stakes@.len(),
            backers@ == backers_of(stakes@, c),
            pool == pool_of(stakes@, c),
            denom == on_winners_of(stakes@, c, winners@),
            payouts_computable(stakes@, c, winners@, rank),
            bi <= nb,
            r@.len() == bi,
            forall|k: int|
                0 <= k < bi ==> r@[k] == (backers@[k], backer_payout(
                    stakes@,
                    c,
                    backers@[k],
                    winners@,
                    pool,
                    denom,
                    rank,
                )),
        decreases nb - bi,
    {
        let b = backers[bi];
        let mut acc: u128 = 0;
        let mut j: usize = 0;
        while j < n
            invariant
                n == stakes@.len(),
                pool == pool_of(stakes@, c),
                denom == on_winners_of(stakes@, c, winners@),
                payouts_computable(stakes@, c, winners@, rank),
                j <= n,
                acc == backer_payout(stakes@.take(j as int), c, b, winners@, pool, denom, rank),
            decreases n - j,
        {
            let e = &stakes[j];
            proof {
                assert(stakes@.take(j as int + 1).drop_last() =~= stakes@.take(j as int));
                assert(stakes@.take(j as int + 1).last() == stakes@[j as int]);
            }
            if e.challenge_id == c && e.backer == b && contains_u64(winners, e.participant) {
                let pay: u128 = if rank == 1 {
                    proof {
                        assert(pool * e.amount <= u128::MAX && denom > 0);
                        vstd::arithmetic::div_mod::lemma_div_pos_is_pos(
                            (pool * e.amount) as int,
                            denom as int,
                        );
                        vstd::arithmetic::div_mod::lemma_div_is_ordered_by_denominator(
                            (pool * e.amount) as int,
                            1,
                            denom as int,
                        );
                    }
                    (pool * e.amount) / denom
                } else {
                    0
                };
                proof {
                    assert(pay as int == clip(entry_payout(pool, e.amount, denom, rank)) as int);
                }
                acc = acc.saturating_add(pay);
            }
            j += 1;
        }
        proof {
            assert(stakes@.take(n as int) =~= stakes@);
        }
        r.push((b, acc));
        bi += 1;
    }
    proof {
        assert(r@ =~= payout_seq_spec(stakes@, c, winners@, pool, denom, rank));
    }
    r
}

/// Mathematical (unclamped) total payout of backer `b` in challenge `c`.
pub open spec fn backer_payout_exact(
    s: Seq<StakeEntry>,
    c: u32,
    b: u64,
    winners: Seq<u64>,
    pool: u128,
    denom: u128,
    rank: u8,
) -> int
    decreases s.len(),
{
    if s.len() == 0 {
        0
    } else {
        let rest = backer_payout_exact(s.drop_last(), c, b, winners, pool, denom, rank);
        let e = s.last();
        if e.challenge_id == c && e.backer == b && winners.contains(e.participant) {
            rest + entry_payout(pool, e.amount, denom, rank)
        } else {
            rest
        }
    }
}

/// Mathematical sum of the payouts of every winning ledger row.
pub open spec fn entry_payout_sum(
    s: Seq<StakeEntry>,
    c: u32,
    winners: Seq<u64>,
    pool: u128,
    denom: u128,
    rank: u8,
) -> int
    decreases s.len(),
{
    if s.len() == 0 {
        0
    } else {
        let rest = entry_payout_sum(s.drop_last(), c, winners, pool, denom, rank);
        let e = s.last();
        if e.challenge_id == c && winners.contains(e.participant) {
            rest + entry_payout(pool, e.amount, denom, rank)
        } else {
            rest
        }
    }
}

/// Sum of the exact payouts over a list of backers.
pub open spec fn backer_sum_exact(
    s: Seq<StakeEntry>,
    c: u32,
    bs: Seq<u64>,
    winners: Seq<u64>,
    pool: u128,
    denom: u128,
    rank: u8,
) -> int
    decreases bs.len(),
{
    if bs.len() == 0 {
        0
    } else {
        backer_sum_exact(s, c, bs.drop_last(), winners, pool, denom, rank) + backer_payout_exact(
            s,
            c,
            bs.last(),
            winners,
            pool,
            denom,
            rank,
        )
    }
}

/// Mathematical sum of the amounts of a sequence of settlement rows.
pub open spec fn rows_total(rows: Seq<(u64, u128)>) -> int
    decreases rows.len(),
{
    if rows.len() == 0 {
        0
    } else {
        rows_total(rows.drop_last()) + rows.last().1
    }
}

/// A single row's payout is never negative.
proof fn lemma_entry_payout_nonneg(pool: u128, amount: u128, denom: u128, rank: u8)
    ensures
        entry_payout(pool, amount, denom, rank) >= 0,
{
    if denom > 0 {
        lemma_mul_nonnegative(pool as int, amount as int);
        lemma_div_pos_is_pos((pool * amount) as int, denom as int);
        lemma_mul_nonnegative((pool * amount) / (denom as int), scale_units(rank));
    }
}

/// The clamped, saturating payout of a backer never exceeds its mathematical
/// value, which is never negative.
proof fn lemma_backer_payout_le_exact(
    s: Seq<StakeEntry>,
    c: u32,
    b: u64,
    winners: Seq<u64>,
    pool: u128,
    denom: u128,
    rank: u8,
)
    ensures
        backer_payout(s, c, b, winners, pool, denom, rank) as int <= backer_payout_exact(
            s,
            c,
            b,
            winners,
            pool,
            denom,
            rank,
        ),
        backer_payout_exact(s, c, b, winners, pool, denom, rank) >= 0,
    decreases s.len(),
{
    if s.len() > 0 {
        lemma_backer_payout_le_exact(s.drop_last(), c, b, winners, pool, denom, rank);
        let e = s.last();
        if e.challenge_id == c && e.backer == b && winners.contains(e.participant) {
            lemma_entry_payout_nonneg(pool, e.amount, denom, rank);
        }
    }
}

/// A backer with no ledger row in the challenge earns nothing.
proof fn lemma_backer_exact_absent(
    s: Seq<StakeEntry>,
    c: u32,
    b: u64,
    winners: Seq<u64>,
    pool: u128,
    denom: u128,
    rank: u8,
)
    requires
        !has_backer(s, c, b),
    ensures
        backer_payout_exact(s, c, b, winners, pool, denom, rank) == 0,
    decreases s.len(),
{
    if s.len() > 0 {
        assert(!(s.last().challenge_id == c && s.last().backer == b)) by {
            if s.last().challenge_id == c && s.last().backer == b {
                assert(s[s.len() - 1].challenge_id == c && s[s.len() - 1].backer == b);
            }
        }
        assert(!has_backer(s.drop_last(), c, b)) by {
            if has_backer(s.drop_last(), c, b) {
                let j = choose|j: int|
                    0 <= j < s.drop_last().len() && s.drop_last()[j].challenge_id == c
                        && s.drop_last()[j].backer == b;
                assert(s[j].challenge_id == c && s[j].backer == b);
            }
        }
        lemma_backer_exact_absent(s.drop_last(), c, b, winners, pool, denom, rank);
    }
}

/// Appending one ledger row moves the backer-list sum by exactly that row's
/// payout when the row is a winning row of the challenge and its backer is
/// listed, and by nothing otherwise.
proof fn lemma_backer_sum_push_entry(
    s: Seq<StakeEntry>,
    e: StakeEntry,
    c: u32,
    bs: Seq<u64>,
    winners: Seq<u64>,
    pool: u128,
    denom: u128,
    rank: u8,
)
    requires
        forall|i: int, j: int| 0 <= i < j < bs.len() ==> bs[i] != bs[j],
    ensures
        backer_sum_exact(s.push(e), c, bs, winners, pool, denom, rank) == backer_sum_exact(
            s,
            c,
            bs,
            winners,
            pool,
            denom,
            rank,
        ) + if e.challenge_id == c && winners.contains(e.participant) && bs.contains(e.backer) {
            entry_payout(pool, e.amount, denom, rank)
        } else {
            0
        },
    decreases bs.len(),
{
    if bs.len() > 0 {
        let pre = bs.drop_last();
        lemma_backer_sum_push_entry(s, e, c, pre, winners, pool, denom, rank);
        assert(s.push(e).drop_last() =~= s);
        assert(s.push(e).last() == e);
        let b = bs.last();
        assert(bs.contains(b)) by {
            assert(bs[bs.len() - 1] == b);
        }
        assert(bs.contains(b) == (pre.contains(b) || b == bs.last())) by {}
        assert forall|x: u64| pre.contains(x) implies bs.contains(x) by {
            let j = choose|j: int| 0 <= j < pre.len() && pre[j] == x;
            assert(bs[j] == x);
        }
        if b == e.backer {
            assert(!pre.contains(e.backer)) by {
                if pre.contains(e.backer) {
                    let j = choose|j: int| 0 <= j < pre.len() && pre[j] == e.backer;
                    assert(bs[j] == bs[bs.len() - 1]);
                }
            }
        } else {
            assert(backer_payout_exact(s.push(e), c, b, winners, pool, denom, rank)
                == backer_payout_exact(s, c, b, winners, pool, denom, rank));
            assert(bs.contains(e.backer) == pre.contains(e.backer)) by {
                if bs.contains(e.backer) {
                    let j = choose|j: int| 0 <= j < bs.len() && bs[j] == e.backer;
                    assert(j < pre.len());
                    assert(pre[j] == e.backer);
                }
            }
        }
    }
}

/// The sum over the challenge's backer list equals the sum over the winning
/// ledger rows: every winning row's payout is counted exactly once.
proof fn lemma_payout_partition(
    s: Seq<StakeEntry>,
    c: u32,
    winners: Seq<u64>,
    pool: u128,
    denom: u128,
    rank: u8,
)
    ensures
        backer_sum_exact(s, c, backers_of(s, c), winners, pool, denom, rank) == entry_payout_sum(
            s,
            c,
            winners,
            pool,
            denom,
            rank,
        ),
    decreases s.len(),
{
    if s.len() > 0 {
        let s0 = s.drop_last();
        let e = s.last();
        lemma_payout_partition(s0, c, winners, pool, denom, rank);
        lemma_backers_distinct(s0, c);
        lemma_backers_contains(s0, c, e.backer);
        assert(s0.push(e) =~= s);
        let pre = backers_of(s0, c);
        let bs = backers_of(s, c);
        lemma_backer_sum_push_entry(s0, e, c, pre, winners, pool, denom, rank);
        if e.challenge_id == c && !pre.contains(e.backer) {
            assert(bs == pre.push(e.backer));
            assert(backer_sum_exact(s, c, bs, winners, pool, denom, rank) == backer_sum_exact(
                s,
                c,
                pre,
                winners,
                pool,
                denom,
                rank,
            ) + backer_payout_exact(s, c, e.backer, winners, pool, denom, rank)) by {
                assert(bs.drop_last() =~= pre);
                assert(bs.last() == e.backer);
            }
            assert(!has_backer(s0, c, e.backer));
            lemma_backer_exact_absent(s0, c, e.backer, winners, pool, denom, rank);
        } else {
            assert(bs == pre);
        }
    }
}

/// Floor division distributes sub-additively over a sum of numerators.
proof fn lemma_div_superadd(x: int, y: int, d: int)
    requires
        d > 0,
        x >= 0,
        y >= 0,
    ensures
        x / d + y / d <= (x + y) / d,
{
    lemma_fundamental_div_mod(x, d);
    lemma_fundamental_div_mod(y, d);
    lemma_mod_bound(x, d);
    lemma_mod_bound(y, d);
    let q = x / d + y / d;
    assert(d * q == d * (x / d) + d * (y / d)) by {
        lemma_mul_is_distributive_add(d, x / d, y / d);
    }
    assert(d * q <= x + y);
    lemma_div_is_ordered(d * q, x + y, d);
    lemma_div_multiples_vanish(q, d);
}

/// The exact sum of winning-row payouts is bounded by the pool's share of
/// the winning stake: at most `pool * (sum of winning stakes) / denom`, and 0
/// when the winning side is empty-handed.
proof fn lemma_entry_sum_bound(
    s: Seq<StakeEntry>,
    c: u32,
    winners: Seq<u64>,
    pool: u128,
    denom: u128,
    rank: u8,
)
    ensures
        entry_payout_sum(s, c, winners, pool, denom, rank) >= 0,
        denom == 0 ==> entry_payout_sum(s, c, winners, pool, denom, rank) == 0,
        denom > 0 ==> entry_payout_sum(s, c, winners, pool, denom, rank) <= (pool
            * on_winners_exact(s, c, winners)) / (denom as int),
    decreases s.len(),
{
    if s.len() == 0 {
        if denom > 0 {
            assert(pool * on_winners_exact(s, c, winners) == 0) by {
                assert(on_winners_exact(s, c, winners) == 0);
                assert(pool * 0 == 0) by (nonlinear_arith);
            }
        }
    } else {
        let s0 = s.drop_last();
        let e = s.last();
        lemma_entry_sum_bound(s0, c, winners, pool, denom, rank);
        lemma_on_winners_exact_nonneg(s0, c, winners);
        if denom > 0 {
            if e.challenge_id == c && winners.contains(e.participant) {
                lemma_entry_payout_nonneg(pool, e.amount, denom, rank);
                let w0 = on_winners_exact(s0, c, winners);
                let a = e.amount as int;
                let d = denom as int;
                lemma_mul_nonnegative(pool as int, w0);
                lemma_mul_nonnegative(pool as int, a);
                // the row's payout is at most pool * amount / denom
                assert(entry_payout(pool, e.amount, denom, rank) <= (pool * e.amount) / d) by {
                    lemma_div_pos_is_pos((pool * e.amount) as int, d);
                }
                lemma_div_superadd(pool * w0, (pool * e.amount) as int, d);
                assert(pool * (w0 + a) == pool * w0 + pool * a) by {
                    lemma_mul_is_distributive_add(pool as int, w0, a);
                }
                assert(on_winners_exact(s, c, winners) == w0 + a);
            }
        }
    }
}

proof fn lemma_on_winners_exact_nonneg(s: Seq<StakeEntry>, c: u32, winners: Seq<u64>)
    ensures
        on_winners_exact(s, c, winners) >= 0,
    decreases s.len(),
{
    if s.len() > 0 {
        lemma_on_winners_exact_nonneg(s.drop_last(), c, winners);
    }
}

/// The winning-side stake never exceeds the whole pool.
proof fn lemma_on_winners_le_pool(s: Seq<StakeEntry>, c: u32, winners: Seq<u64>)
    ensures
        on_winners_exact(s, c, winners) <= pool_exact(s, c),
    decreases s.len(),
{
    if s.len() > 0 {
        lemma_on_winners_le_pool(s.drop_last(), c, winners);
    }
}

/// When the true pool fits in a `u128`, the saturating winning-side sum has
/// not clipped either.
proof fn lemma_on_winners_no_saturation(s: Seq<StakeEntry>, c: u32, winners: Seq<u64>)
    requires
        pool_exact(s, c) <= u128::MAX,
    ensures
        on_winners_of(s, c, winners) as int == on_winners_exact(s, c, winners),
    decreases s.len(),
{
    if s.len() > 0 {
        lemma_pool_exact_nonneg(s.drop_last(), c);
        lemma_on_winners_exact_nonneg(s.drop_last(), c, winners);
        lemma_on_winners_le_pool(s.drop_last(), c, winners);
        lemma_on_winners_le_pool(s, c, winners);
        lemma_on_winners_no_saturation(s.drop_last(), c, winners);
    }
}

/// The settlement rows' total is bounded by the backer-list sum.
proof fn lemma_rows_total_le(
    s: Seq<StakeEntry>,
    c: u32,
    bs: Seq<u64>,
    winners: Seq<u64>,
    pool: u128,
    denom: u128,
    rank: u8,
)
    ensures
        rows_total(
            Seq::new(
                bs.len(),
                |i: int| (bs[i], backer_payout(s, c, bs[i], winners, pool, denom, rank)),
            ),
        ) <= backer_sum_exact(s, c, bs, winners, pool, denom, rank),
    decreases bs.len(),
{
    let rows = Seq::new(
        bs.len(),
        |i: int| (bs[i], backer_payout(s, c, bs[i], winners, pool, denom, rank)),
    );
    if bs.len() > 0 {
        lemma_rows_total_le(s, c, bs.drop_last(), winners, pool, denom, rank);
        lemma_backer_payout_le_exact(s, c, bs.last(), winners, pool, denom, rank);
        assert(rows.drop_last() =~= Seq::new(
            bs.drop_last().len(),
            |i: int| (bs.drop_last()[i], backer_payout(
                s,
                c,
                bs.drop_last()[i],
                winners,
                pool,
                denom,
                rank,
            )),
        ));
        assert(rows.last().1 == backer_payout(s, c, bs.last(), winners, pool, denom, rank));
    }
}

/// The pool is never overpaid: whatever the rank, when the challenge's true
/// total stake fits in a `u128` (the saturating sums have not clipped), the
/// mathematical sum of all settlement row amounts is at most the total pool —
/// subject to the rank scale rule, whose truncated factor zeroes every payout
/// beyond rank 1.
pub proof fn lemma_payout_sum_bounded(s: Seq<StakeEntry>, c: u32, winners: Seq<u64>, rank: u8)
    requires
        pool_exact(s, c) <= u128::MAX,
    ensures
        rows_total(
            payout_seq_spec(s, c, winners, pool_of(s, c), on_winners_of(s, c, winners), rank),
        ) <= pool_of(s, c),
{
    let pool = pool_of(s, c);
    let denom = on_winners_of(s, c, winners);
    lemma_pool_no_saturation(s, c);
    lemma_pool_exact_nonneg(s, c);
    lemma_on_winners_no_saturation(s, c, winners);
    lemma_on_winners_le_pool(s, c, winners);
    lemma_on_winners_exact_nonneg(s, c, winners);
    let bs = backers_of(s, c);
    assert(payout_seq_spec(s, c, winners, pool, denom, rank) =~= Seq::new(
        bs.len(),
        |i: int| (bs[i], backer_payout(s, c, bs[i], winners, pool, denom, rank)),
    ));
    lemma_rows_total_le(s, c, bs, winners, pool, denom, rank);
    lemma_payout_partition(s, c, winners, pool, denom, rank);
    lemma_entry_sum_bound(s, c, winners, pool, denom, rank);
    if denom > 0 {
        let w = on_winners_exact(s, c, winners);
        assert(pool * w <= pool * (denom as int)) by {
            lemma_mul_inequality(w, denom as int, pool as int);
            vstd::arithmetic::mul::lemma_mul_is_commutative(pool as int, w);
            vstd::arithmetic::mul::lemma_mul_is_commutative(pool as int, denom as int);
        }
        lemma_mul_nonnegative(pool as int, w);
        lemma_div_is_ordered(pool * w, pool * (denom as int), denom as int);
        assert((pool * (denom as int)) / (denom as int) == pool as int) by {
            vstd::arithmetic::mul::lemma_mul_is_commutative(pool as int, denom as int);
            lemma_div_multiples_vanish(pool as int, denom as int);
        }
    }
}

/// The settlement computation is deterministic: its output is pinned to
/// `payout_seq_spec` of the ledger and vote state alone, so two runs over
/// identical state yield identical rows.
pub proof fn lemma_preview_idempotent(
    r1: Seq<(u64, u128)>,
    r2: Seq<(u64, u128)>,
    s: Seq<StakeEntry>,
    c: u32,
    winners: Seq<u64>,
    pool: u128,
    denom: u128,
    rank: u8,
)
    requires
        r1 == payout_seq_spec(s, c, winners, pool, denom, rank),
        r2 == payout_seq_spec(s, c, winners, pool, denom, rank),
    ensures
        r1 == r2,
{
}

/// A row whose count equals `m` always places its participant in the
/// max-count filter.
proof fn lemma_filter_max_contains(s: Seq<TallyEntry>, i: int, m: u8)
    requires
        0 <= i < s.len(),
        s[i].count == m,
    ensures
        filter_max(s, m).contains(s[i].participant),
    decreases s.len(),
{
    let f = filter_max(s, m);
    if i == s.len() - 1 {
        let pre = filter_max(s.drop_last(), m);
        assert(f == pre.push(s.last().participant));
        assert(f[pre.len() as int] == s[i].participant);
    } else {
        lemma_filter_max_contains(s.drop_last(), i, m);
        let pre = filter_max(s.drop_last(), m);
        let j = choose|j: int| 0 <= j < pre.len() && pre[j] == s.drop_last()[i].participant;
        if s.last().count == m {
            assert(f[j] == s[i].participant);
        } else {
            assert(f[j] == s[i].participant);
        }
    }
}

/// Stability of the insertion: for any count value, the max-count filter of
/// the rows after a stable insertion lists the same participants in the same
/// order, with the new row's participant appended when its count matches.
proof fn lemma_insert_desc_filter(t: Seq<TallyEntry>, e: TallyEntry, m: u8)
    ensures
        filter_max(insert_desc(t, e), m) == if e.count == m {
            filter_max(t, m).push(e.participant)
        } else {
            filter_max(t, m)
        },
    decreases t.len(),
{
    if t.len() == 0 {
        assert(insert_desc(t, e) == seq![e]);
        assert(seq![e].drop_last() =~= Seq::<TallyEntry>::empty());
        assert(seq![e].last() == e);
        assert(filter_max(Seq::<TallyEntry>::empty(), m) =~= Seq::<u64>::empty());
        assert(filter_max(t, m) =~= Seq::<u64>::empty());
        if e.count == m {
            assert(filter_max(seq![e], m) == filter_max(
                Seq::<TallyEntry>::empty(),
                m,
            ).push(e.participant));
            assert(filter_max(seq![e], m) =~= filter_max(t, m).push(e.participant));
        } else {
            assert(filter_max(seq![e], m) == filter_max(Seq::<TallyEntry>::empty(), m));
            assert(filter_max(seq![e], m) =~= filter_max(t, m));
        }
    } else if t.last().count >= e.count {
        assert(insert_desc(t, e) == t.push(e));
        assert(t.push(e).drop_last() =~= t);
        assert(t.push(e).last() == e);
    } else {
        let u = insert_desc(t.drop_last(), e);
        assert(insert_desc(t, e) == u.push(t.last()));
        assert(u.push(t.last()).drop_last() =~= u);
        assert(u.push(t.last()).last() == t.last());
        lemma_insert_desc_filter(t.drop_last(), e, m);
        // the new row's count is strictly above the last row's, so at most
        // one of the two can match m and the appended order is unambiguous
        assert(!(e.count == m && t.last().count == m));
    }
}

/// Stability of the sort: for any count value, the max-count filter commutes
/// with the stable sort — rows with equal counts keep their encounter order.
proof fn lemma_stable_sort_filter(s: Seq<TallyEntry>, m: u8)
    ensures
        filter_max(stable_sort_desc(s), m) == filter_max(s, m),
    decreases s.len(),
{
    if s.len() > 0 {
        lemma_stable_sort_filter(s.drop_last(), m);
        lemma_insert_desc_filter(stable_sort_desc(s.drop_last()), s.last(), m);
    }
}

/// The rank-1 winner listing made explicit: given any row `j` whose count is
/// maximal, the winner set is exactly the participants whose count equals
/// that maximum, in their original encounter order.
pub proof fn lemma_rank_one_winners_in_encounter_order(tallies_c: Seq<TallyEntry>, j: int)
    requires
        0 <= j < tallies_c.len(),
        forall|k: int|
            0 <= k < tallies_c.len() ==> tallies_c[j].count >= (#[trigger] tallies_c[k]).count,
    ensures
        winners_spec(tallies_c, 1) == filter_max(tallies_c, tallies_c[j].count),
{
    let sorted = stable_sort_desc(tallies_c);
    lemma_stable_sort(tallies_c);
    assert(tallies_c.contains(tallies_c[j]));
    assert(sorted.contains(tallies_c[j]));
    let mi = choose|mi: int| 0 <= mi < sorted.len() && sorted[mi] == tallies_c[j];
    assert(sorted.contains(sorted[0])) by {
        assert(sorted[0] == sorted[0]);
    }
    assert(tallies_c.contains(sorted[0]));
    let k0 = choose|k: int| 0 <= k < tallies_c.len() && tallies_c[k] == sorted[0];
    assert(sorted[0].count <= tallies_c[j].count);
    assert(sorted[0].count >= sorted[mi].count);
    assert(sorted[0].count == tallies_c[j].count);
    lemma_stable_sort_filter(tallies_c, tallies_c[j].count);
}

/// Full tie inclusion at rank 1: a participant whose vote count ties the
/// maximum is never omitted from the winner set.
pub proof fn lemma_rank_one_includes_ties(tallies_c: Seq<TallyEntry>, j: int)
    requires
        0 <= j < tallies_c.len(),
        forall|k: int|
            0 <= k < tallies_c.len() ==> tallies_c[j].count >= (#[trigger] tallies_c[k]).count,
    ensures
        winners_spec(tallies_c, 1).contains(tallies_c[j].participant),
{
    let sorted = stable_sort_desc(tallies_c);
    lemma_stable_sort(tallies_c);
    assert(tallies_c.contains(tallies_c[j]));
    assert(sorted.contains(tallies_c[j]));
    let m = choose|m: int| 0 <= m < sorted.len() && sorted[m] == tallies_c[j];
    assert(sorted.contains(sorted[0])) by {
        assert(sorted[0] == sorted[0]);
    }
    assert(tallies_c.contains(sorted[0]));
    let k0 = choose|k: int| 0 <= k < tallies_c.len() && tallies_c[k] == sorted[0];
    assert(sorted[0].count <= tallies_c[j].count);
    assert(sorted[0].count >= sorted[m].count);
    assert(sorted[0].count == tallies_c[j].count);
    lemma_filter_max_contains(sorted, m, sorted[0].count);
}

} // verus!
