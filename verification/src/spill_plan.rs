//! The spill plan keeps memory within its limit: after the partitions that
//! the plan spills have left, no more build rows stay in memory than the
//! limit allows.

use vstd::prelude::*;
use crate::hash_join::{key_slots, partition_counts, pass_tags, resident_after, spills};
use crate::selection::{count_below, lemma_count_below_total, lemma_positions, lemma_positions_push, positions};

verus! {

/// The build rows in the partitions below `p`.
pub open spec fn prefix_rows(counts: Seq<usize>, p: nat) -> nat
    decreases p,
{
    if p == 0 {
        0
    } else {
        prefix_rows(counts, (p - 1) as nat) + counts[p - 1] as nat
    }
}

/// The build rows in the partitions below `p` that stay in memory.
pub open spec fn kept_rows(rows: nat, counts: Seq<usize>, limit: usize, p: nat) -> nat
    decreases p,
{
    if p == 0 {
        0
    } else {
        kept_rows(rows, counts, limit, (p - 1) as nat) + if spills(rows, counts, limit, (p - 1) as nat) {
            0
        } else {
            counts[p - 1] as nat
        }
    }
}

proof fn lemma_prefix_rows_monotonic(counts: Seq<usize>, p: nat, q: nat)
    requires
        p <= q,
    ensures
        prefix_rows(counts, p) <= prefix_rows(counts, q),
    decreases q - p,
{
    if p < q {
        lemma_prefix_rows_monotonic(counts, p, (q - 1) as nat);
    }
}

/// What is resident once the partitions below `p` are decided: all rows
/// but those of the spilled partitions below `p`.
proof fn lemma_resident_is_rest(rows: nat, counts: Seq<usize>, limit: usize, p: nat)
    requires
        p <= counts.len(),
        rows == prefix_rows(counts, counts.len()),
    ensures
        resident_after(rows, counts, limit, p) + prefix_rows(counts, p) == rows + kept_rows(rows, counts, limit, p),
        kept_rows(rows, counts, limit, p) <= prefix_rows(counts, p),
    decreases p,
{
    if p > 0 {
        lemma_resident_is_rest(rows, counts, limit, (p - 1) as nat);
        lemma_prefix_rows_monotonic(counts, p, counts.len());
    }
}

proof fn lemma_resident_never_grows(rows: nat, counts: Seq<usize>, limit: usize, p: nat, q: nat)
    requires
        p <= q,
    ensures
        resident_after(rows, counts, limit, q) <= resident_after(rows, counts, limit, p),
    decreases q - p,
{
    if p < q {
        lemma_resident_never_grows(rows, counts, limit, p, (q - 1) as nat);
    }
}

proof fn lemma_nothing_kept_over_limit(rows: nat, counts: Seq<usize>, limit: usize, p: nat)
    requires
        p <= counts.len(),
        resident_after(rows, counts, limit, counts.len()) > limit,
    ensures
        kept_rows(rows, counts, limit, p) == 0,
    decreases p,
{
    if p > 0 {
        lemma_nothing_kept_over_limit(rows, counts, limit, (p - 1) as nat);
        lemma_resident_never_grows(rows, counts, limit, (p - 1) as nat, counts.len());
    }
}

/// The partitions that the plan keeps hold no more rows than the limit.
pub proof fn lemma_plan_fits(rows: nat, counts: Seq<usize>, limit: usize)
    requires
        rows == prefix_rows(counts, counts.len()),
    ensures
        kept_rows(rows, counts, limit, counts.len()) <= limit,
{
    lemma_resident_is_rest(rows, counts, limit, counts.len());
    if resident_after(rows, counts, limit, counts.len()) > limit {
        lemma_nothing_kept_over_limit(rows, counts, limit, counts.len());
    }
}

/// Two tag sequences that agree on where a tag stands select the same
/// positions for it.
proof fn lemma_same_positions(a: Seq<usize>, x: usize, b: Seq<usize>, y: usize)
    requires
        a.len() == b.len(),
        forall|i: int| 0 <= i < a.len() ==> (a[i] == x) == (b[i] == y),
    ensures
        positions(a, x) == positions(b, y),
    decreases a.len(),
{
    if a.len() > 0 {
        lemma_same_positions(a.drop_last(), x, b.drop_last(), y);
    }
}

/// The rows in the partitions below `p` whose partition stays.
spec fn kept_by(counts: Seq<usize>, stays: Seq<bool>, p: nat) -> nat
    decreases p,
{
    if p == 0 {
        0
    } else {
        kept_by(counts, stays, (p - 1) as nat) + if stays[p - 1] {
            counts[p - 1] as nat
        } else {
            0
        }
    }
}

/// Per row, 0 where the row's partition stays and 1 where it leaves.
spec fn stay_tags(slots: Seq<usize>, stays: Seq<bool>) -> Seq<usize> {
    Seq::new(slots.len(), |i: int| if stays[slots[i] as int] {
        0usize
    } else {
        1usize
    })
}

/// The number of rows in every partition.
spec fn slot_counts(slots: Seq<usize>, partitions: usize) -> Seq<usize> {
    Seq::new(partitions as nat, |p: int| positions(slots, p as usize).len() as usize)
}

proof fn lemma_kept_by_one_more(slots: Seq<usize>, s: usize, stays: Seq<bool>, partitions: usize, p: nat)
    requires
        slots.len() < usize::MAX,
        p <= partitions,
        stays.len() == partitions,
    ensures
        kept_by(slot_counts(slots.push(s), partitions), stays, p) == kept_by(slot_counts(slots, partitions), stays, p) + if s < p
            && stays[s as int] {
            1nat
        } else {
            0nat
        },
    decreases p,
{
    if p > 0 {
        lemma_kept_by_one_more(slots, s, stays, partitions, (p - 1) as nat);
        lemma_positions_push(slots, s, (p - 1) as usize);
        lemma_positions(slots, (p - 1) as usize);
    }
}

/// The rows whose partition stays are as many as the staying partitions
/// hold.
proof fn lemma_stayers_counted(slots: Seq<usize>, stays: Seq<bool>, partitions: usize)
    requires
        slots.len() <= usize::MAX,
        stays.len() == partitions,
        forall|i: int| 0 <= i < slots.len() ==> slots[i] < partitions,
    ensures
        positions(stay_tags(slots, stays), 0).len() == kept_by(slot_counts(slots, partitions), stays, partitions as nat),
    decreases slots.len(),
{
    if slots.len() == 0 {
        assert(slots =~= Seq::<usize>::empty());
        lemma_kept_by_nothing(stays, partitions, partitions as nat);
        assert(stay_tags(slots, stays) =~= Seq::<usize>::empty());
    } else {
        let front = slots.drop_last();
        let s = slots.last();
        assert(front.push(s) =~= slots);
        assert(s == slots[slots.len() - 1]);
        assert(s < partitions);
        assert forall|i: int| 0 <= i < front.len() implies front[i] < partitions by {
            assert(front[i] == slots[i]);
        }
        lemma_stayers_counted(front, stays, partitions);
        lemma_kept_by_one_more(front, s, stays, partitions, partitions as nat);
        let t: usize = if stays[s as int] {
            0
        } else {
            1
        };
        assert(stay_tags(slots, stays) =~= stay_tags(front, stays).push(t));
        lemma_positions_push(stay_tags(front, stays), t, 0);
    }
}

proof fn lemma_kept_by_nothing(stays: Seq<bool>, partitions: usize, p: nat)
    requires
        p <= partitions,
        stays.len() == partitions,
    ensures
        kept_by(slot_counts(Seq::<usize>::empty(), partitions), stays, p) == 0,
    decreases p,
{
    if p > 0 {
        lemma_kept_by_nothing(stays, partitions, (p - 1) as nat);
    }
}

proof fn lemma_kept_rows_by_flags(rows: nat, counts: Seq<usize>, limit: usize, stays: Seq<bool>, p: nat)
    requires
        p <= counts.len(),
        stays.len() == counts.len(),
        forall|q: int| 0 <= q < counts.len() ==> stays[q] == !spills(rows, counts, limit, q as nat),
    ensures
        kept_rows(rows, counts, limit, p) == kept_by(counts, stays, p),
    decreases p,
{
    if p > 0 {
        lemma_kept_rows_by_flags(rows, counts, limit, stays, (p - 1) as nat);
    }
}

proof fn lemma_prefix_rows_counted(slots: Seq<usize>, partitions: usize, p: nat)
    requires
        slots.len() <= usize::MAX,
        p <= partitions,
    ensures
        prefix_rows(slot_counts(slots, partitions), p) == count_below(slots, p as usize),
    decreases p,
{
    if p > 0 {
        lemma_prefix_rows_counted(slots, partitions, (p - 1) as nat);
        lemma_positions(slots, (p - 1) as usize);
    }
}

/// With the partitions spilled that the plan names, the rows that stay in
/// memory are no more than the limit.
pub proof fn lemma_resident_rows_fit(keys: Seq<u64>, seed: u64, partitions: usize, limit: usize, pass_of: Seq<usize>)
    requires
        keys.len() <= usize::MAX,
        partitions > 0,
        pass_of.len() == partitions,
        forall|p: int| 0 <= p < partitions ==> (pass_of[p] > 0) == spills(keys.len(), partition_counts(keys, seed, partitions), limit, p as nat),
    ensures
        positions(pass_tags(keys, seed, partitions, pass_of), 0).len() <= limit,
{
    let slots = key_slots(keys, seed, partitions);
    let counts = partition_counts(keys, seed, partitions);
    let rows = keys.len();
    let stays = Seq::new(partitions as nat, |p: int| !spills(rows, counts, limit, p as nat));
    assert(counts =~= slot_counts(slots, partitions));
    assert forall|i: int| 0 <= i < slots.len() implies slots[i] < partitions by {
        assert(0 <= (crate::hashing::row_hash(seed, seq![crate::datavalues::Scalar::UInt(keys[i])]) % (partitions as u64)) < partitions);
    }
    lemma_prefix_rows_counted(slots, partitions, partitions as nat);
    lemma_count_below_total(slots, partitions);
    lemma_plan_fits(rows, counts, limit);
    lemma_kept_rows_by_flags(rows, counts, limit, stays, partitions as nat);
    lemma_stayers_counted(slots, stays, partitions);
    let tags = pass_tags(keys, seed, partitions, pass_of);
    assert forall|i: int| 0 <= i < tags.len() implies (tags[i] == 0) == (stay_tags(slots, stays)[i] == 0) by {
        let p = slots[i] as int;
        assert((pass_of[p] > 0) == spills(rows, counts, limit, p as nat));
    }
    lemma_same_positions(tags, 0, stay_tags(slots, stays), 0);
}

} // verus!
