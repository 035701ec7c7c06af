//! The hash table of the join's build side: rows chained in buckets by the
//! hash of their key.

use vstd::prelude::*;
use crate::datavalues::{DataValue, Scalar};
use crate::hashing::{hash_scalars, hash_value};
use crate::scatter::partition_of;
use crate::selection::{lemma_positions, lemma_positions_push, positions};

verus! {

/// A row of the build side: its number in the build input and its key.
#[derive(Clone, Copy, Debug, PartialEq, Eq, Structural)]
pub struct BuildRow {
    pub id: usize,
    pub key: u64,
}

/// The slot of a key among `slots` slots under `seed`: the row hash of the
/// key taken as a one-column row, modulo `slots`.
pub open spec fn slot_of(seed: u64, key: u64, slots: usize) -> usize {
    partition_of(seed, seq![Scalar::UInt(key)], slots)
}

/// The keys of a list of rows.
pub open spec fn keys_of(rows: Seq<BuildRow>) -> Seq<u64> {
    Seq::new(rows.len(), |i: int| rows[i].key)
}

/// The slot of every row.
pub open spec fn slots_of(rows: Seq<BuildRow>, seed: u64, slots: usize) -> Seq<usize> {
    Seq::new(rows.len(), |i: int| slot_of(seed, rows[i].key, slots))
}

/// The positions of `sel` whose row has key `key`.
pub open spec fn with_key(rows: Seq<BuildRow>, sel: Seq<usize>, key: u64) -> Seq<usize>
    decreases sel.len(),
{
    if sel.len() == 0 {
        Seq::empty()
    } else {
        let rest = with_key(rows, sel.drop_last(), key);
        if rows[sel.last() as int].key == key {
            rest.push(sel.last())
        } else {
            rest
        }
    }
}

/// The slot of `key` among `slots` slots.
pub fn key_slot(seed: u64, key: u64, slots: usize) -> (s: usize)
    requires
        slots > 0,
    ensures
        s == slot_of(seed, key, slots),
        s < slots,
{
    let v = DataValue::UInt(key);
    let h = hash_value(seed, &v);
    proof {
        let one = seq![Scalar::UInt(key)];
        assert(one.drop_last() =~= Seq::<Scalar>::empty());
        reveal_with_fuel(hash_scalars, 2);
        assert(hash_scalars(seed, one) == h);
    }
    let hashed = h ^ (h >> 32);
    (hashed % (slots as u64)) as usize
}

/// Rows appended behind every selected position do not change which of
/// the selected rows have the key.
proof fn lemma_with_key_push(rows: Seq<BuildRow>, r: BuildRow, sel: Seq<usize>, key: u64)
    requires
        forall|k: int| 0 <= k < sel.len() ==> (#[trigger] sel[k]) < rows.len(),
    ensures
        with_key(rows.push(r), sel, key) == with_key(rows, sel, key),
    decreases sel.len(),
{
    if sel.len() > 0 {
        lemma_with_key_push(rows, r, sel.drop_last(), key);
    }
}

/// The rows of a key's bucket that have the key are all rows that have
/// the key.
pub proof fn lemma_bucket_holds_matches(rows: Seq<BuildRow>, seed: u64, slots: usize, key: u64)
    requires
        rows.len() <= usize::MAX,
    ensures
        with_key(rows, positions(slots_of(rows, seed, slots), slot_of(seed, key, slots)), key) == positions(keys_of(rows), key),
    decreases rows.len(),
{
    let h = slot_of(seed, key, slots);
    if rows.len() == 0 {
    } else {
        let front = rows.drop_last();
        let r = rows.last();
        lemma_bucket_holds_matches(front, seed, slots, key);
        assert(front.push(r) =~= rows);
        assert(slots_of(rows, seed, slots) =~= slots_of(front, seed, slots).push(slot_of(seed, r.key, slots)));
        assert(keys_of(rows) =~= keys_of(front).push(r.key));
        lemma_positions_push(slots_of(front, seed, slots), slot_of(seed, r.key, slots), h);
        lemma_positions_push(keys_of(front), r.key, key);
        lemma_positions(slots_of(front, seed, slots), h);
        let sel = positions(slots_of(front, seed, slots), h);
        lemma_with_key_push(front, r, sel, key);
        if slot_of(seed, r.key, slots) == h {
            assert(sel.push(front.len() as usize).drop_last() =~= sel);
        }
    }
}

/// A hash table over a list of build rows.
#[derive(Debug)]
pub struct JoinHashTable {
    pub seed: u64,
    pub rows: Vec<BuildRow>,
    pub buckets: Vec<Vec<usize>>,
}

impl JoinHashTable {
    /// Every bucket holds, in order, the positions of the rows whose key
    /// falls into it.
    pub open spec fn well_formed(&self) -> bool {
        &&& self.buckets@.len() > 0
        &&& forall|h: int| 0 <= h < self.buckets@.len() ==> (#[trigger] self.buckets@[h])@ == positions(
            slots_of(self.rows@, self.seed, self.buckets@.len() as usize),
            h as usize,
        )
    }

    /// A table over `rows` with `slots` buckets; one bucket where `slots`
    /// is 0.
    pub fn build(rows: Vec<BuildRow>, seed: u64, slots: usize) -> (t: JoinHashTable)
        ensures
            t.well_formed(),
            t.rows == rows,
            t.seed == seed,
    {
        let n = if slots == 0 {
            1
        } else {
            slots
        };
        let mut buckets: Vec<Vec<usize>> = Vec::with_capacity(n);
        let mut h: usize = 0;
        while h < n
            invariant
                h <= n,
                buckets@.len() == h,
                forall|g: int| 0 <= g < h ==> (#[trigger] buckets@[g])@.len() == 0,
            decreases n - h,
        {
            buckets.push(Vec::new());
            h += 1;
        }
        let mut i: usize = 0;
        assert(rows@.subrange(0, 0) =~= Seq::<BuildRow>::empty());
        assert forall|g: int| 0 <= g < n implies (#[trigger] buckets@[g])@ == positions(slots_of(rows@.subrange(0, 0), seed, n), g as usize) by {
            assert(buckets@[g]@ =~= Seq::<usize>::empty());
        }
        while i < rows.len()
            invariant
                i <= rows@.len(),
                n > 0,
                buckets@.len() == n,
                forall|g: int| 0 <= g < n ==> (#[trigger] buckets@[g])@ == positions(slots_of(rows@.subrange(0, i as int), seed, n), g as usize),
            decreases rows@.len() - i,
        {
            let s = key_slot(seed, rows[i].key, n);
            let ghost before = slots_of(rows@.subrange(0, i as int), seed, n);
            let ghost after = slots_of(rows@.subrange(0, i + 1), seed, n);
            let ghost earlier = buckets@;
            buckets[s].push(i);
            proof {
                assert(after =~= before.push(s));
                assert forall|g: int| 0 <= g < n implies (#[trigger] buckets@[g])@ == positions(after, g as usize) by {
                    lemma_positions_push(before, s, g as usize);
                    assert(earlier[g]@ == positions(before, g as usize));
                }
            }
            i += 1;
        }
        assert(rows@.subrange(0, rows@.len() as int) =~= rows@);
        JoinHashTable { seed, rows, buckets }
    }

    /// The positions of the rows with key `key`, in the order of the rows.
    pub fn lookup(&self, key: u64) -> (found: Vec<usize>)
        requires
            self.well_formed(),
        ensures
            found@ == positions(keys_of(self.rows@), key),
            forall|k: int| 0 <= k < found@.len() ==> (#[trigger] found@[k]) < self.rows@.len() && self.rows@[found@[k] as int].key == key,
    {
        let slots = self.buckets.len();
        let s = key_slot(self.seed, key, slots);
        let bucket = &self.buckets[s];
        let row_count = self.rows.len();
        proof {
            assert(self.rows@.len() == row_count);
            lemma_positions(slots_of(self.rows@, self.seed, slots), s);
            lemma_bucket_holds_matches(self.rows@, self.seed, slots, key);
            lemma_positions(keys_of(self.rows@), key);
        }
        let mut found: Vec<usize> = Vec::new();
        let mut k: usize = 0;
        assert(bucket@.subrange(0, 0) =~= Seq::<usize>::empty());
        while k < bucket.len()
            invariant
                k <= bucket@.len(),
                forall|q: int| 0 <= q < bucket@.len() ==> (#[trigger] bucket@[q]) < self.rows@.len(),
                found@ == with_key(self.rows@, bucket@.subrange(0, k as int), key),
            decreases bucket@.len() - k,
        {
            assert(bucket@.subrange(0, k + 1).drop_last() =~= bucket@.subrange(0, k as int));
            let p = bucket[k];
            if self.rows[p].key == key {
                found.push(p);
            }
            k += 1;
        }
        assert(bucket@.subrange(0, bucket@.len() as int) =~= bucket@);
        found
    }
}

} // verus!
