//! The hash join: parallel build workers fill a shared row store and meet
//! at a barrier; the last to arrive decides what to spill and builds the
//! hash table; probe workers then stream rows against it, buffering the
//! rows whose partition is spilled; once they have met at their own
//! barrier, the spilled partitions are restored and probed one by one.

use vstd::prelude::*;
use vstd::multiset::Multiset;
use vstd::seq_lib::lemma_multiset_commutative;
use crate::barrier::{Barrier, BarrierWait};
use crate::error::ErrorCode;
use crate::join_spec::{
    build_emit_with, build_outputs, build_run, ids_at, join_result,
    lemma_build_run_multiset, lemma_pass_holds_matches, lemma_probe_run_multiset, matched_pairs,
    probe_emit, probe_emit_with, probe_outputs, probe_run, rows_at, JoinedPair,
};
use crate::join_table::{key_slot, keys_of, slot_of, BuildRow, JoinHashTable};
use crate::plan::JoinKind;
use crate::spill_codec::{decodable, decode_rows, decoded_rows, encode_rows, encoded_rows, lemma_rows_round_trip};
use crate::spill_plan::lemma_resident_rows_fit;
use crate::selection::{
    lemma_msum_at_push, lemma_msum_below_total, lemma_positions, lemma_positions_push, msum_at, msum_below, positions,
};

verus! {

/// A row of the probe side: its number in the probe input and its key.
#[derive(Clone, Copy, Debug, PartialEq, Eq, Structural)]
pub struct ProbeRow {
    pub id: usize,
    pub key: u64,
}

/// The probe rows at the positions `sel` of the probe input.
pub open spec fn probe_rows_at(probe: Seq<u64>, sel: Seq<usize>) -> Seq<ProbeRow> {
    Seq::new(sel.len(), |x: int| ProbeRow { id: sel[x], key: probe[sel[x] as int] })
}

/// The output of the build rows `rows`, one after another, where
/// `hits[x]` tells whether a probe row had the key of `rows[x]`.
pub open spec fn build_side_run(kind: JoinKind, rows: Seq<BuildRow>, hits: Seq<bool>) -> Seq<JoinedPair>
    decreases rows.len(),
{
    if rows.len() == 0 {
        Seq::empty()
    } else {
        build_side_run(kind, rows.drop_last(), hits.drop_last()) + build_emit_with(kind, rows.last().id, hits.last())
    }
}

/// Appends probe row `j` joined with each of the build rows at the
/// positions `found` of `rows`.
fn push_matched_pairs(rows: &Vec<BuildRow>, found: &Vec<usize>, j: usize, out: &mut Vec<JoinedPair>)
    requires
        forall|k: int| 0 <= k < found@.len() ==> (#[trigger] found@[k]) < rows@.len(),
    ensures
        final(out)@ == old(out)@ + matched_pairs(j, ids_at(rows@, found@)),
{
    let mut k: usize = 0;
    assert(out@ =~= old(out)@ + matched_pairs(j, ids_at(rows@, found@)).subrange(0, 0));
    while k < found.len()
        invariant
            k <= found@.len(),
            forall|q: int| 0 <= q < found@.len() ==> (#[trigger] found@[q]) < rows@.len(),
            out@ == old(out)@ + matched_pairs(j, ids_at(rows@, found@)).subrange(0, k as int),
        decreases found@.len() - k,
    {
        out.push(JoinedPair { probe: Some(j), build: Some(rows[found[k]].id) });
        k += 1;
        assert(out@ =~= old(out)@ + matched_pairs(j, ids_at(rows@, found@)).subrange(0, k as int));
    }
    assert(matched_pairs(j, ids_at(rows@, found@)).subrange(0, found@.len() as int) =~= matched_pairs(j, ids_at(rows@, found@)));
}

/// Probes the table with one probe row: appends what the row gives rise
/// to, and marks every build row that has its key.
pub fn probe_table(kind: JoinKind, table: &JoinHashTable, matched: &mut Vec<bool>, j: usize, key: u64, out: &mut Vec<JoinedPair>)
    requires
        table.well_formed(),
        old(matched)@.len() == table.rows@.len(),
    ensures
        final(out)@ == old(out)@ + probe_emit_with(kind, j, ids_at(table.rows@, positions(keys_of(table.rows@), key))),
        final(matched)@.len() == old(matched)@.len(),
        forall|x: int| 0 <= x < final(matched)@.len() ==> (#[trigger] final(matched)@[x]) == (old(matched)@[x] || table.rows@[x].key == key),
{
    let found = table.lookup(key);
    let row_count = table.rows.len();
    proof {
        assert(table.rows@.len() == row_count);
        lemma_positions(keys_of(table.rows@), key);
    }
    let mut k: usize = 0;
    while k < found.len()
        invariant
            k <= found@.len(),
            matched@.len() == table.rows@.len(),
            forall|q: int| 0 <= q < found@.len() ==> (#[trigger] found@[q]) < table.rows@.len(),
            forall|x: int| 0 <= x < matched@.len() ==> (#[trigger] matched@[x]) == (old(matched)@[x] || (exists|q: int| 0 <= q < k && found@[q] == x)),
        decreases found@.len() - k,
    {
        let ghost before = matched@;
        matched.set(found[k], true);
        proof {
            assert forall|x: int| 0 <= x < matched@.len() implies (#[trigger] matched@[x]) == (old(matched)@[x] || (exists|q: int| 0 <= q < k + 1 && found@[q] == x)) by {
                if x == found@[k as int] {
                } else {
                    assert(matched@[x] == before[x]);
                    if exists|q: int| 0 <= q < k + 1 && found@[q] == x {
                        let q = choose|q: int| 0 <= q < k + 1 && found@[q] == x;
                        assert(q < k);
                    }
                }
            }
        }
        k += 1;
    }
    proof {
        assert forall|x: int| 0 <= x < matched@.len() implies (#[trigger] matched@[x]) == (old(matched)@[x] || table.rows@[x].key == key) by {
            if table.rows@[x].key == key {
                assert(keys_of(table.rows@)[x] == key);
                assert(found@.contains(x as usize));
                let q = choose|q: int| 0 <= q < found@.len() && found@[q] == x as usize;
                assert(found@[q] == x);
            } else if exists|q: int| 0 <= q < found@.len() && found@[q] == x {
                let q = choose|q: int| 0 <= q < found@.len() && found@[q] == x;
                assert(table.rows@[found@[q] as int].key == key);
            }
        }
    }
    let ghost ids = ids_at(table.rows@, found@);
    assert(ids.len() == found@.len());
    match kind {
        JoinKind::Inner | JoinKind::Right => {
            push_matched_pairs(&table.rows, &found, j, out);
        },
        JoinKind::Left | JoinKind::Full => {
            if found.len() == 0 {
                out.push(JoinedPair { probe: Some(j), build: None });
                assert(out@ =~= old(out)@ + seq![JoinedPair { probe: Some(j), build: None }]);
            } else {
                push_matched_pairs(&table.rows, &found, j, out);
            }
        },
        JoinKind::LeftSemi => {
            if found.len() > 0 {
                out.push(JoinedPair { probe: Some(j), build: None });
                assert(out@ =~= old(out)@ + seq![JoinedPair { probe: Some(j), build: None }]);
            } else {
                assert(out@ =~= old(out)@ + Seq::<JoinedPair>::empty());
            }
        },
        JoinKind::LeftAnti => {
            if found.len() == 0 {
                out.push(JoinedPair { probe: Some(j), build: None });
                assert(out@ =~= old(out)@ + seq![JoinedPair { probe: Some(j), build: None }]);
            } else {
                assert(out@ =~= old(out)@ + Seq::<JoinedPair>::empty());
            }
        },
        JoinKind::RightSemi | JoinKind::RightAnti => {
            assert(out@ =~= old(out)@ + Seq::<JoinedPair>::empty());
        },
    }
}

/// Appends what the build rows of the table give rise to, given which of
/// them were matched.
pub fn emit_build_side(kind: JoinKind, rows: &Vec<BuildRow>, matched: &Vec<bool>, out: &mut Vec<JoinedPair>)
    requires
        matched@.len() == rows@.len(),
    ensures
        final(out)@ == old(out)@ + build_side_run(kind, rows@, matched@),
{
    let mut x: usize = 0;
    assert(out@ =~= old(out)@ + build_side_run(kind, rows@.subrange(0, 0), matched@.subrange(0, 0)));
    while x < rows.len()
        invariant
            x <= rows@.len(),
            matched@.len() == rows@.len(),
            out@ == old(out)@ + build_side_run(kind, rows@.subrange(0, x as int), matched@.subrange(0, x as int)),
        decreases rows@.len() - x,
    {
        let ghost before = out@;
        proof {
            assert(rows@.subrange(0, x + 1).drop_last() =~= rows@.subrange(0, x as int));
            assert(matched@.subrange(0, x + 1).drop_last() =~= matched@.subrange(0, x as int));
        }
        let hit = matched[x];
        let alone = JoinedPair { probe: None, build: Some(rows[x].id) };
        match kind {
            JoinKind::Right | JoinKind::Full | JoinKind::RightAnti => {
                if !hit {
                    out.push(alone);
                }
            },
            JoinKind::RightSemi => {
                if hit {
                    out.push(alone);
                }
            },
            _ => {},
        }
        assert(out@ =~= before + build_emit_with(kind, rows@[x as int].id, matched@[x as int]));
        x += 1;
        assert(out@ =~= old(out)@ + build_side_run(kind, rows@.subrange(0, x as int), matched@.subrange(0, x as int)));
    }
    assert(rows@.subrange(0, rows@.len() as int) =~= rows@);
    assert(matched@.subrange(0, matched@.len() as int) =~= matched@);
}

/// With the hit flags that say which build keys occur among the probe
/// keys, the output of a pass's rows is the output of those build rows.
pub proof fn lemma_build_side_run(kind: JoinKind, build: Seq<u64>, probe: Seq<u64>, sel: Seq<usize>, hits: Seq<bool>)
    requires
        hits.len() == sel.len(),
        forall|x: int| 0 <= x < sel.len() ==> (#[trigger] sel[x]) < build.len(),
        forall|x: int| 0 <= x < sel.len() ==> (#[trigger] hits[x]) == probe.contains(build[sel[x] as int]),
    ensures
        build_side_run(kind, rows_at(build, sel), hits) == build_run(kind, build, probe, sel),
    decreases sel.len(),
{
    if sel.len() > 0 {
        let rows = rows_at(build, sel);
        assert(rows.drop_last() =~= rows_at(build, sel.drop_last()));
        lemma_build_side_run(kind, build, probe, sel.drop_last(), hits.drop_last());
    }
}

/// How a join is set up.
#[derive(Clone, Copy, Debug, PartialEq, Eq, Structural)]
pub struct HashJoinConfig {
    pub kind: JoinKind,
    /// The number of build workers: the participants of the build barrier.
    pub build_workers: usize,
    /// The number of probe workers: the participants of the probe barrier.
    pub probe_workers: usize,
    /// The number of spill partitions.
    pub partitions: usize,
    pub seed: u64,
    /// The number of build rows that memory may hold; `None` for no limit.
    pub memory_limit: Option<usize>,
    /// Whether partitions may be spilled when the limit is crossed.
    pub spilling: bool,
}

impl HashJoinConfig {
    /// At least one worker on each side, and at least one partition.
    pub open spec fn valid(self) -> bool {
        &&& self.build_workers > 0
        &&& self.probe_workers > 0
        &&& self.partitions > 0
        &&& self.partitions < usize::MAX
    }

    /// Whether `rows` build rows cross the memory limit.
    pub open spec fn over_limit(self, rows: nat) -> bool {
        self.memory_limit matches Some(limit) && rows > limit
    }
}

/// Where a join stands.
#[derive(Clone, Copy, Debug, PartialEq, Eq, Structural)]
pub enum JoinPhase {
    /// Nothing has arrived.
    Empty,
    /// Build workers are adding rows or waiting at the build barrier.
    Building,
    /// The build barrier was released and the hash table stands.
    Built,
    /// Probe rows have arrived, or spilled partitions are being restored.
    Probing,
    /// Every partition was probed.
    Done,
}

/// Where a partition's build rows are.
#[derive(Clone, Copy, Debug, PartialEq, Eq, Structural)]
pub enum PartitionState {
    InMemory,
    Spilled,
    Restoring,
}

/// The pass in which every key is handled: pass 0 for the partitions that
/// stay in memory, pass `t` for the `t`-th spilled partition.
pub open spec fn pass_tags(keys: Seq<u64>, seed: u64, partitions: usize, pass_of: Seq<usize>) -> Seq<usize> {
    Seq::new(keys.len(), |i: int| pass_of[slot_of(seed, keys[i], partitions) as int])
}

/// The partition of every key.
pub open spec fn key_slots(keys: Seq<u64>, seed: u64, partitions: usize) -> Seq<usize> {
    Seq::new(keys.len(), |i: int| slot_of(seed, keys[i], partitions))
}

/// The build rows left in memory once the partitions below `p` are
/// decided: a partition is spilled when it holds rows and memory still
/// holds more rows than the limit.
pub open spec fn resident_after(rows: nat, counts: Seq<usize>, limit: usize, p: nat) -> nat
    decreases p,
{
    if p == 0 {
        rows
    } else {
        let r = resident_after(rows, counts, limit, (p - 1) as nat);
        if r > limit && counts[p - 1] > 0 {
            if r >= counts[p - 1] {
                (r - counts[p - 1]) as nat
            } else {
                0
            }
        } else {
            r
        }
    }
}

/// Whether partition `p` is spilled.
pub open spec fn spills(rows: nat, counts: Seq<usize>, limit: usize, p: nat) -> bool {
    resident_after(rows, counts, limit, p) > limit && counts[p as int] > 0
}

/// The number of keys in every partition.
pub fn count_partitions(keys: &Vec<u64>, seed: u64, partitions: usize) -> (counts: Vec<usize>)
    requires
        partitions > 0,
    ensures
        counts@.len() == partitions,
        forall|p: int| 0 <= p < partitions ==> (#[trigger] counts@[p]) == positions(key_slots(keys@, seed, partitions), p as usize).len(),
{
    let mut counts: Vec<usize> = Vec::with_capacity(partitions);
    let mut p: usize = 0;
    assert(key_slots(keys@.subrange(0, 0), seed, partitions) =~= Seq::<usize>::empty());
    while p < partitions
        invariant
            p <= partitions,
            counts@.len() == p,
            forall|q: int| 0 <= q < p ==> (#[trigger] counts@[q]) == 0,
        decreases partitions - p,
    {
        counts.push(0);
        p += 1;
    }
    let mut i: usize = 0;
    while i < keys.len()
        invariant
            i <= keys@.len(),
            partitions > 0,
            counts@.len() == partitions,
            forall|q: int| 0 <= q < partitions ==> (#[trigger] counts@[q]) == positions(key_slots(keys@.subrange(0, i as int), seed, partitions), q as usize).len(),
        decreases keys@.len() - i,
    {
        let s = key_slot(seed, keys[i], partitions);
        let ghost before = key_slots(keys@.subrange(0, i as int), seed, partitions);
        let ghost after = key_slots(keys@.subrange(0, i + 1), seed, partitions);
        let ghost earlier = counts@;
        proof {
            assert(after =~= before.push(s));
            lemma_positions(before, s);
        }
        counts.set(s, counts[s] + 1);
        proof {
            assert forall|q: int| 0 <= q < partitions implies (#[trigger] counts@[q]) == positions(after, q as usize).len() by {
                lemma_positions_push(before, s, q as usize);
                assert(earlier[q] == positions(before, q as usize).len());
            }
        }
        i += 1;
    }
    assert(keys@.subrange(0, keys@.len() as int) =~= keys@);
    counts
}

/// Decides which partitions to spill so that memory holds no more than
/// `limit` rows, going through the partitions in order. Returns, per
/// partition, the pass that handles it (0 for those that stay in memory)
/// and, per spilled pass, its partition.
pub fn plan_spill(counts: &Vec<usize>, rows: usize, limit: usize) -> (plan: (Vec<usize>, Vec<usize>))
    requires
        counts@.len() < usize::MAX,
    ensures
        plan.0@.len() == counts@.len(),
        plan.1@.len() <= counts@.len(),
        forall|p: int| 0 <= p < counts@.len() ==> ((#[trigger] plan.0@[p]) > 0) == spills(rows as nat, counts@, limit, p as nat),
        forall|p: int| 0 <= p < counts@.len() ==> (#[trigger] plan.0@[p]) <= plan.1@.len(),
        forall|q: int| 0 <= q < plan.1@.len() ==> (#[trigger] plan.1@[q]) < counts@.len() && plan.0@[plan.1@[q] as int] == q + 1,
{
    let mut pass_of: Vec<usize> = Vec::with_capacity(counts.len());
    let mut partition_of_pass: Vec<usize> = Vec::new();
    let mut resident: usize = rows;
    let mut p: usize = 0;
    while p < counts.len()
        invariant
            p <= counts@.len(),
            counts@.len() < usize::MAX,
            pass_of@.len() == p,
            partition_of_pass@.len() <= p,
            resident == resident_after(rows as nat, counts@, limit, p as nat),
            forall|q: int| 0 <= q < p ==> ((#[trigger] pass_of@[q]) > 0) == spills(rows as nat, counts@, limit, q as nat),
            forall|q: int| 0 <= q < p ==> (#[trigger] pass_of@[q]) <= partition_of_pass@.len(),
            forall|q: int| 0 <= q < partition_of_pass@.len() ==> (#[trigger] partition_of_pass@[q]) < p && pass_of@[partition_of_pass@[q] as int] == q + 1,
        decreases counts@.len() - p,
    {
        if resident > limit && counts[p] > 0 {
            partition_of_pass.push(p);
            pass_of.push(partition_of_pass.len());
            resident = if resident >= counts[p] {
                resident - counts[p]
            } else {
                0
            };
        } else {
            pass_of.push(0);
        }
        p += 1;
    }
    (pass_of, partition_of_pass)
}

/// Splits the build rows by pass: the rows of pass 0 stay in memory, the
/// rows of pass `t` go to slot `t - 1` of the spill area. Every row keeps
/// its number.
pub fn partition_rows(keys: &Vec<u64>, seed: u64, partitions: usize, pass_of: &Vec<usize>, passes: usize) -> (split: (Vec<BuildRow>, Vec<Vec<BuildRow>>))
    requires
        partitions > 0,
        pass_of@.len() == partitions,
        passes < usize::MAX,
        forall|p: int| 0 <= p < partitions ==> (#[trigger] pass_of@[p]) <= passes,
    ensures
        split.0@ == rows_at(keys@, positions(pass_tags(keys@, seed, partitions, pass_of@), 0)),
        split.1@.len() == passes,
        forall|q: int| 0 <= q < passes ==> (#[trigger] split.1@[q])@ == rows_at(keys@, positions(pass_tags(keys@, seed, partitions, pass_of@), (q + 1) as usize)),
{
    let mut resident: Vec<BuildRow> = Vec::new();
    let mut spilled: Vec<Vec<BuildRow>> = Vec::with_capacity(passes);
    let mut q: usize = 0;
    while q < passes
        invariant
            q <= passes,
            spilled@.len() == q,
            forall|u: int| 0 <= u < q ==> (#[trigger] spilled@[u])@.len() == 0,
        decreases passes - q,
    {
        spilled.push(Vec::new());
        q += 1;
    }
    let ghost tags = pass_tags(keys@, seed, partitions, pass_of@);
    let mut i: usize = 0;
    proof {
        assert(tags.subrange(0, 0) =~= Seq::<usize>::empty());
        assert(resident@ =~= rows_at(keys@, positions(tags.subrange(0, 0), 0)));
        assert forall|u: int| 0 <= u < passes implies (#[trigger] spilled@[u])@ == rows_at(keys@, positions(tags.subrange(0, 0), (u + 1) as usize)) by {
            assert(spilled@[u]@ =~= rows_at(keys@, positions(tags.subrange(0, 0), (u + 1) as usize)));
        }
    }
    while i < keys.len()
        invariant
            i <= keys@.len(),
            partitions > 0,
            pass_of@.len() == partitions,
            passes < usize::MAX,
            forall|p: int| 0 <= p < partitions ==> (#[trigger] pass_of@[p]) <= passes,
            tags == pass_tags(keys@, seed, partitions, pass_of@),
            spilled@.len() == passes,
            resident@ == rows_at(keys@, positions(tags.subrange(0, i as int), 0)),
            forall|u: int| 0 <= u < passes ==> (#[trigger] spilled@[u])@ == rows_at(keys@, positions(tags.subrange(0, i as int), (u + 1) as usize)),
        decreases keys@.len() - i,
    {
        let key = keys[i];
        let s = key_slot(seed, key, partitions);
        let t = pass_of[s];
        let ghost before = tags.subrange(0, i as int);
        let ghost after = tags.subrange(0, i + 1);
        let ghost earlier = spilled@;
        proof {
            assert(after =~= before.push(t));
            lemma_positions_push(before, t, 0);
        }
        let row = BuildRow { id: i, key };
        if t == 0 {
            resident.push(row);
            assert(resident@ =~= rows_at(keys@, positions(after, 0)));
        } else {
            spilled[t - 1].push(row);
        }
        proof {
            assert forall|u: int| 0 <= u < passes implies (#[trigger] spilled@[u])@ == rows_at(keys@, positions(after, (u + 1) as usize)) by {
                lemma_positions_push(before, t, (u + 1) as usize);
                assert(earlier[u]@ == rows_at(keys@, positions(before, (u + 1) as usize)));
                if t == u + 1 {
                    assert(spilled@[u]@ =~= rows_at(keys@, positions(after, (u + 1) as usize)));
                }
            }
        }
        i += 1;
    }
    assert(tags.subrange(0, keys@.len() as int) =~= tags);
    (resident, spilled)
}

/// The number of build rows in every partition.
pub open spec fn partition_counts(keys: Seq<u64>, seed: u64, partitions: usize) -> Seq<usize> {
    Seq::new(partitions as nat, |p: int| positions(key_slots(keys, seed, partitions), p as usize).len() as usize)
}

/// Whether partition `p` is spilled when the build barrier is released:
/// only where spilling is allowed and a memory limit is set, and then by
/// the rule of `spills`.
pub open spec fn spill_decision(config: HashJoinConfig, build: Seq<u64>, p: nat) -> bool {
    &&& config.spilling
    &&& config.memory_limit matches Some(limit)
    &&& spills(build.len(), partition_counts(build, config.seed, config.partitions), limit, p)
}

/// The byte form of every spilled partition.
fn encode_partitions(partitions: &Vec<Vec<BuildRow>>) -> (out: Vec<Vec<u8>>)
    ensures
        out@.len() == partitions@.len(),
        forall|q: int| 0 <= q < partitions@.len() ==> (#[trigger] out@[q])@ == encoded_rows(partitions@[q]@),
{
    let mut out: Vec<Vec<u8>> = Vec::with_capacity(partitions.len());
    let mut q: usize = 0;
    while q < partitions.len()
        invariant
            q <= partitions@.len(),
            out@.len() == q,
            forall|u: int| 0 <= u < q ==> (#[trigger] out@[u])@ == encoded_rows(partitions@[u]@),
        decreases partitions@.len() - q,
    {
        out.push(encode_rows(&partitions[q]));
        q += 1;
    }
    out
}

/// The length of every spilled partition's bytes.
fn lengths_of(partitions: &Vec<Vec<u8>>) -> (out: Vec<usize>)
    ensures
        out@.len() == partitions@.len(),
        forall|q: int| 0 <= q < partitions@.len() ==> (#[trigger] out@[q]) == partitions@[q]@.len(),
{
    let mut out: Vec<usize> = Vec::with_capacity(partitions.len());
    let mut q: usize = 0;
    while q < partitions.len()
        invariant
            q <= partitions@.len(),
            out@.len() == q,
            forall|u: int| 0 <= u < q ==> (#[trigger] out@[u]) == partitions@[u]@.len(),
        decreases partitions@.len() - q,
    {
        out.push(partitions[q].len());
        q += 1;
    }
    out
}

/// Whether every row's key belongs to the pass `t`.
pub open spec fn rows_of_pass(rows: Seq<BuildRow>, seed: u64, partitions: usize, pass_of: Seq<usize>, t: int) -> bool {
    forall|x: int| 0 <= x < rows.len() ==> pass_of[slot_of(seed, (#[trigger] rows[x]).key, partitions) as int] == t
}

/// Whether every row's key belongs to the pass `t`.
fn check_rows_of_pass(rows: &Vec<BuildRow>, seed: u64, partitions: usize, pass_of: &Vec<usize>, t: usize) -> (b: bool)
    requires
        partitions > 0,
        pass_of@.len() == partitions,
    ensures
        b == rows_of_pass(rows@, seed, partitions, pass_of@, t as int),
{
    let mut x: usize = 0;
    while x < rows.len()
        invariant
            x <= rows@.len(),
            partitions > 0,
            pass_of@.len() == partitions,
            forall|y: int| 0 <= y < x ==> pass_of@[slot_of(seed, (#[trigger] rows@[y]).key, partitions) as int] == t,
        decreases rows@.len() - x,
    {
        let s = key_slot(seed, rows[x].key, partitions);
        if pass_of[s] != t {
            return false;
        }
        x += 1;
    }
    true
}

/// A list of `n` empty probe buffers.
fn empty_buffers(n: usize) -> (buffers: Vec<Vec<ProbeRow>>)
    ensures
        buffers@.len() == n,
        forall|q: int| 0 <= q < n ==> (#[trigger] buffers@[q])@.len() == 0,
{
    let mut buffers: Vec<Vec<ProbeRow>> = Vec::with_capacity(n);
    let mut q: usize = 0;
    while q < n
        invariant
            q <= n,
            buffers@.len() == q,
            forall|u: int| 0 <= u < q ==> (#[trigger] buffers@[u])@.len() == 0,
        decreases n - q,
    {
        buffers.push(Vec::new());
        q += 1;
    }
    buffers
}

/// `n` flags, none set.
fn cleared_flags(n: usize) -> (flags: Vec<bool>)
    ensures
        flags@.len() == n,
        forall|x: int| 0 <= x < n ==> !(#[trigger] flags@[x]),
{
    let mut flags: Vec<bool> = Vec::with_capacity(n);
    let mut x: usize = 0;
    while x < n
        invariant
            x <= n,
            flags@.len() == x,
            forall|y: int| 0 <= y < x ==> !(#[trigger] flags@[y]),
        decreases n - x,
    {
        flags.push(false);
        x += 1;
    }
    flags
}

/// A plan that spills nothing.
fn plan_nothing(partitions: usize) -> (pass_of: Vec<usize>)
    ensures
        pass_of@.len() == partitions,
        forall|p: int| 0 <= p < partitions ==> (#[trigger] pass_of@[p]) == 0,
{
    let mut pass_of: Vec<usize> = Vec::with_capacity(partitions);
    let mut p: usize = 0;
    while p < partitions
        invariant
            p <= partitions,
            pass_of@.len() == p,
            forall|q: int| 0 <= q < p ==> (#[trigger] pass_of@[q]) == 0,
        decreases partitions - p,
    {
        pass_of.push(0);
        p += 1;
    }
    pass_of
}

/// The state of every partition once pass `done` is finished: a partition
/// of a later pass is spilled, every other is in memory.
fn states_of(pass_of: &Vec<usize>, done: usize) -> (states: Vec<PartitionState>)
    ensures
        states@.len() == pass_of@.len(),
        forall|p: int| 0 <= p < pass_of@.len() ==> (#[trigger] states@[p]) == (if pass_of@[p] > done {
            PartitionState::Spilled
        } else {
            PartitionState::InMemory
        }),
{
    let mut states: Vec<PartitionState> = Vec::with_capacity(pass_of.len());
    let mut p: usize = 0;
    while p < pass_of.len()
        invariant
            p <= pass_of@.len(),
            states@.len() == p,
            forall|q: int| 0 <= q < p ==> (#[trigger] states@[q]) == (if pass_of@[q] > done {
                PartitionState::Spilled
            } else {
                PartitionState::InMemory
            }),
        decreases pass_of@.len() - p,
    {
        if pass_of[p] > done {
            states.push(PartitionState::Spilled);
        } else {
            states.push(PartitionState::InMemory);
        }
        p += 1;
    }
    states
}

/// What one probe row gives rise to at once: its output when its
/// partition is in memory, nothing when its partition is spilled and the
/// row is kept for later.
pub open spec fn probe_one(kind: JoinKind, build: Seq<u64>, seed: u64, partitions: usize, pass_of: Seq<usize>, j: usize, key: u64) -> Seq<JoinedPair> {
    if pass_of[slot_of(seed, key, partitions) as int] == 0 {
        probe_emit(kind, build, j, key)
    } else {
        Seq::empty()
    }
}

/// What a batch of probe rows gives rise to at once, the first of them
/// being probe row `base`.
pub open spec fn probe_batch(kind: JoinKind, build: Seq<u64>, seed: u64, partitions: usize, pass_of: Seq<usize>, base: nat, keys: Seq<u64>) -> Seq<JoinedPair>
    decreases keys.len(),
{
    if keys.len() == 0 {
        Seq::empty()
    } else {
        probe_batch(kind, build, seed, partitions, pass_of, base, keys.drop_last()) + probe_one(
            kind,
            build,
            seed,
            partitions,
            pass_of,
            (base + keys.len() - 1) as usize,
            keys.last(),
        )
    }
}

/// A sequence with one more item holds what it held, and the item.
pub proof fn lemma_contains_push<T>(s: Seq<T>, v: T, y: T)
    ensures
        s.push(v).contains(y) == (s.contains(y) || y == v),
{
    if s.contains(y) {
        let i = choose|i: int| 0 <= i < s.len() && s[i] == y;
        assert(s.push(v)[i] == y);
    }
    if y == v {
        assert(s.push(v)[s.len() as int] == y);
    }
    if s.push(v).contains(y) {
        let i = choose|i: int| 0 <= i < s.push(v).len() && s.push(v)[i] == y;
        if i < s.len() {
            assert(s[i] == y);
        }
    }
}

/// The output of the probe rows `buffer` against the build rows `rows`,
/// one probe row after another.
pub open spec fn probe_rows_run(kind: JoinKind, rows: Seq<BuildRow>, buffer: Seq<ProbeRow>) -> Seq<JoinedPair>
    decreases buffer.len(),
{
    if buffer.len() == 0 {
        Seq::empty()
    } else {
        probe_rows_run(kind, rows, buffer.drop_last()) + probe_emit_with(
            kind,
            buffer.last().id,
            ids_at(rows, positions(keys_of(rows), buffer.last().key)),
        )
    }
}

/// Whether some probe row of `buffer` has key `key`.
pub open spec fn has_key(buffer: Seq<ProbeRow>, key: u64) -> bool {
    exists|q: int| 0 <= q < buffer.len() && (#[trigger] buffer[q]).key == key
}

/// Per build row, whether some probe row of `buffer` has its key.
pub open spec fn hits_of(rows: Seq<BuildRow>, buffer: Seq<ProbeRow>) -> Seq<bool> {
    Seq::new(rows.len(), |y: int| has_key(buffer, rows[y].key))
}

/// One pass over a partition: builds the hash table over the partition's
/// build rows, probes it with the partition's probe rows, and then puts
/// out what the build rows give rise to.
pub fn run_pass(kind: JoinKind, rows: Vec<BuildRow>, buffer: &Vec<ProbeRow>, seed: u64, out: &mut Vec<JoinedPair>)
    ensures
        final(out)@ == old(out)@ + probe_rows_run(kind, rows@, buffer@) + build_side_run(kind, rows@, hits_of(rows@, buffer@)),
{
    let slots = rows.len();
    let mut matched = cleared_flags(slots);
    let table = JoinHashTable::build(rows, seed, slots);
    let mut x: usize = 0;
    assert(out@ =~= old(out)@ + probe_rows_run(kind, table.rows@, buffer@.subrange(0, 0)));
    while x < buffer.len()
        invariant
            x <= buffer@.len(),
            table.well_formed(),
            table.rows@ == rows@,
            matched@.len() == table.rows@.len(),
            forall|y: int| 0 <= y < matched@.len() ==> (#[trigger] matched@[y]) == has_key(buffer@.subrange(0, x as int), table.rows@[y].key),
            out@ == old(out)@ + probe_rows_run(kind, rows@, buffer@.subrange(0, x as int)),
        decreases buffer@.len() - x,
    {
        let row = buffer[x];
        let ghost before = matched@;
        let ghost seen = buffer@.subrange(0, x as int);
        let ghost seen_after = buffer@.subrange(0, x + 1);
        proof {
            assert(seen_after.drop_last() =~= seen);
        }
        probe_table(kind, &table, &mut matched, row.id, row.key, out);
        proof {
            assert forall|y: int| 0 <= y < matched@.len() implies (#[trigger] matched@[y]) == has_key(seen_after, table.rows@[y].key) by {
                let k = table.rows@[y].key;
                if has_key(seen, k) {
                    let q = choose|q: int| 0 <= q < seen.len() && (#[trigger] seen[q]).key == k;
                    assert(seen_after[q].key == k);
                }
                if k == row.key {
                    assert(seen_after[x as int].key == k);
                }
                if has_key(seen_after, k) {
                    let q = choose|q: int| 0 <= q < seen_after.len() && (#[trigger] seen_after[q]).key == k;
                    if q < x {
                        assert(seen[q].key == k);
                    }
                }
            }
            assert(out@ =~= old(out)@ + probe_rows_run(kind, rows@, seen_after));
        }
        x += 1;
    }
    assert(buffer@.subrange(0, buffer@.len() as int) =~= buffer@);
    assert(matched@ =~= hits_of(rows@, buffer@));
    let ghost mid = out@;
    emit_build_side(kind, &table.rows, &matched, out);
    assert(out@ =~= old(out)@ + probe_rows_run(kind, rows@, buffer@) + build_side_run(kind, rows@, hits_of(rows@, buffer@)));
}

/// Probing the rows kept for a pass against the build rows of the pass
/// gives what those probe rows give rise to against all build rows.
pub proof fn lemma_probe_rows_run(kind: JoinKind, build: Seq<u64>, probe: Seq<u64>, btags: Seq<usize>, t: usize, sel: Seq<usize>)
    requires
        build.len() == btags.len(),
        build.len() <= usize::MAX,
        forall|x: int| 0 <= x < sel.len() ==> (#[trigger] sel[x]) < probe.len(),
        forall|x: int, i: int| 0 <= x < sel.len() && 0 <= i < build.len() && build[i] == probe[(#[trigger] sel[x]) as int] ==> (#[trigger] btags[i]) == t,
    ensures
        probe_rows_run(kind, rows_at(build, positions(btags, t)), probe_rows_at(probe, sel)) == probe_run(kind, build, probe, sel),
    decreases sel.len(),
{
    if sel.len() > 0 {
        let buffer = probe_rows_at(probe, sel);
        assert(buffer.drop_last() =~= probe_rows_at(probe, sel.drop_last()));
        lemma_probe_rows_run(kind, build, probe, btags, t, sel.drop_last());
        let key = probe[sel.last() as int];
        assert forall|i: int| 0 <= i < build.len() && build[i] == key implies btags[i] == t by {
            assert(sel[sel.len() - 1] == sel.last());
        }
        lemma_pass_holds_matches(build, btags, t, key);
    }
}

/// The state shared by all workers of one join.
pub struct HashJoinState {
    pub config: HashJoinConfig,
    pub phase: JoinPhase,
    pub build_barrier: Barrier,
    pub probe_barrier: Barrier,
    /// The keys of the build rows, as the build workers added them.
    pub row_store: Vec<u64>,
    pub partition_states: Vec<PartitionState>,
    /// Per partition, the pass that handles it.
    pub pass_of_partition: Vec<usize>,
    /// Per spilled pass, its partition.
    pub partition_of_pass: Vec<usize>,
    /// The hash table of the pass at hand.
    pub table: JoinHashTable,
    /// Per row of the table, whether a probe row had its key.
    pub matched: Vec<bool>,
    /// Per spilled pass, the partition's build rows in the byte form in
    /// which they are handed to storage.
    pub spill_area: Vec<Vec<u8>>,
    /// Per spilled pass, whether its bytes were taken out to storage and
    /// have not come back.
    pub offloaded: Vec<bool>,
    /// Per spilled pass, the number of bytes of its partition.
    pub spill_lens: Vec<usize>,
    /// Whether every partition that came back from storage came back as it
    /// was taken out.
    pub faithful: Ghost<bool>,
    /// Per spilled pass, the probe rows kept for it.
    pub probe_buffers: Vec<Vec<ProbeRow>>,
    pub probe_count: usize,
    /// Whether the probe barrier was released.
    pub probe_closed: bool,
    /// The last pass that was finished.
    pub current_pass: usize,
    /// All build keys, in the order the rows were added.
    pub build_model: Ghost<Seq<u64>>,
    /// All probe keys, in the order the rows arrived.
    pub probe_model: Ghost<Seq<u64>>,
}

impl HashJoinState {
    pub open spec fn building(&self) -> bool {
        self.phase == JoinPhase::Empty || self.phase == JoinPhase::Building
    }

    pub open spec fn built(&self) -> bool {
        self.phase == JoinPhase::Built || self.phase == JoinPhase::Probing || self.phase == JoinPhase::Done
    }

    /// The number of spilled partitions.
    pub open spec fn passes(&self) -> nat {
        self.partition_of_pass@.len()
    }

    /// The pass of every build row.
    pub open spec fn build_tags(&self) -> Seq<usize> {
        pass_tags(self.build_model@, self.config.seed, self.config.partitions, self.pass_of_partition@)
    }

    /// The bytes of the spilled partition of pass `q + 1`.
    pub open spec fn spilled_bytes(&self, q: int) -> Seq<u8> {
        encoded_rows(rows_at(self.build_model@, positions(self.build_tags(), (q + 1) as usize)))
    }

    /// The pass of every probe row.
    pub open spec fn probe_tags(&self) -> Seq<usize> {
        pass_tags(self.probe_model@, self.config.seed, self.config.partitions, self.pass_of_partition@)
    }

    /// Everything the join has put out so far, as a multiset, where
    /// storage has returned every partition as it was written: while probe
    /// rows arrive, what the probe rows of the partitions in memory gave
    /// rise to; afterwards, what the probe rows and the build rows of the
    /// finished passes gave rise to.
    pub open spec fn emitted(&self) -> Multiset<JoinedPair> {
        let kind = self.config.kind;
        let po = probe_outputs(kind, self.build_model@, self.probe_model@);
        let bo = build_outputs(kind, self.build_model@, self.probe_model@);
        if self.building() {
            Multiset::empty()
        } else if !self.probe_closed {
            msum_at(po, positions(self.probe_tags(), 0))
        } else {
            msum_below(po, self.probe_tags(), (self.current_pass + 1) as usize).add(
                msum_below(bo, self.build_tags(), (self.current_pass + 1) as usize),
            )
        }
    }

    /// What holds while build workers are at work: no probe row has
    /// arrived, and the build barrier has not been released.
    pub open spec fn wf_building(&self) -> bool {
        &&& self.row_store@ == self.build_model@
        &&& self.faithful@
        &&& self.probe_model@.len() == 0
        &&& self.build_barrier.generation == 0
        &&& self.probe_barrier.generation == 0
        &&& self.probe_barrier.arrived == 0
        &&& !self.probe_closed
        &&& self.current_pass == 0
        &&& self.probe_count == 0
        &&& self.phase == JoinPhase::Empty ==> self.build_model@.len() == 0 && self.build_barrier.arrived == 0
    }

    /// What holds once the build barrier was released: every build row
    /// that any worker added is in the hash table of its pass or in the
    /// spill area of its pass, and every buffered probe row waits for the
    /// pass of its partition.
    pub open spec fn wf_built(&self) -> bool {
        let t = self.passes();
        let k = self.config.partitions;
        &&& self.build_barrier.generation == 1
        &&& self.build_barrier.arrived == 0
        &&& self.build_model@.len() <= usize::MAX
        &&& self.pass_of_partition@.len() == k
        &&& self.partition_states@.len() == k
        &&& self.spill_area@.len() == t
        &&& self.offloaded@.len() == t
        &&& self.spill_lens@.len() == t
        &&& self.probe_buffers@.len() == t
        &&& t < usize::MAX
        &&& forall|p: int| 0 <= p < k ==> (#[trigger] self.pass_of_partition@[p]) <= t
        &&& forall|q: int| 0 <= q < t ==> (#[trigger] self.partition_of_pass@[q]) < k && self.pass_of_partition@[self.partition_of_pass@[q] as int] == q + 1
        &&& forall|p: int| 0 <= p < k ==> (#[trigger] self.partition_states@[p]) == (if self.pass_of_partition@[p] > self.current_pass {
            PartitionState::Spilled
        } else {
            PartitionState::InMemory
        })
        &&& self.current_pass <= t
        &&& self.probe_count == self.probe_model@.len()
        &&& !self.probe_closed ==> {
            &&& self.current_pass == 0
            &&& self.probe_barrier.generation == 0
            &&& self.table.well_formed()
            &&& self.table.rows@ == rows_at(self.build_model@, positions(self.build_tags(), 0))
            &&& self.matched@.len() == self.table.rows@.len()
            &&& forall|x: int| 0 <= x < self.matched@.len() ==> (#[trigger] self.matched@[x]) == self.probe_model@.contains(self.table.rows@[x].key)
        }
        &&& forall|q: int| self.faithful@ && self.current_pass <= q < t && !self.offloaded@[q] ==> (#[trigger] self.spill_area@[q])@ == self.spilled_bytes(q)
        &&& forall|q: int| self.faithful@ && self.current_pass <= q < t ==> (#[trigger] self.spill_lens@[q]) == self.spilled_bytes(q).len()
        &&& forall|q: int| self.current_pass <= q < t ==> (#[trigger] self.probe_buffers@[q])@ == probe_rows_at(
            self.probe_model@,
            positions(self.probe_tags(), (q + 1) as usize),
        )
        &&& self.phase == JoinPhase::Done <==> self.probe_closed && self.current_pass == t
        &&& self.phase == JoinPhase::Built ==> self.probe_model@.len() == 0
    }

    /// The state is consistent with the protocol.
    pub open spec fn well_formed(&self) -> bool {
        &&& self.config.valid()
        &&& self.build_barrier.well_formed()
        &&& self.build_barrier.participants == self.config.build_workers
        &&& self.probe_barrier.well_formed()
        &&& self.probe_barrier.participants == self.config.probe_workers
        &&& self.building() ==> self.wf_building()
        &&& self.built() ==> self.wf_built()
    }

    /// A join in which nothing has happened yet.
    pub fn create(config: HashJoinConfig) -> (r: Result<HashJoinState, ErrorCode>)
        ensures
            r.is_ok() <==> config.valid(),
            r matches Err(e) ==> e == ErrorCode::ConfigurationError,
            r matches Ok(s) ==> {
                &&& s.well_formed()
                &&& s.config == config
                &&& s.phase == JoinPhase::Empty
                &&& s.build_model@.len() == 0
                &&& s.probe_model@.len() == 0
            },
    {
        if config.partitions == 0 || config.partitions == usize::MAX {
            return Err(ErrorCode::ConfigurationError);
        }
        let build_barrier = match Barrier::new(config.build_workers) {
            Some(b) => b,
            None => {
                return Err(ErrorCode::ConfigurationError);
            },
        };
        let probe_barrier = match Barrier::new(config.probe_workers) {
            Some(b) => b,
            None => {
                return Err(ErrorCode::ConfigurationError);
            },
        };
        Ok(
            HashJoinState {
                config,
                phase: JoinPhase::Empty,
                build_barrier,
                probe_barrier,
                row_store: Vec::new(),
                partition_states: Vec::new(),
                pass_of_partition: Vec::new(),
                partition_of_pass: Vec::new(),
                table: JoinHashTable::build(Vec::new(), config.seed, 1),
                matched: Vec::new(),
                spill_area: Vec::new(),
                offloaded: Vec::new(),
                spill_lens: Vec::new(),
                faithful: Ghost(true),
                probe_buffers: Vec::new(),
                probe_count: 0,
                probe_closed: false,
                current_pass: 0,
                build_model: Ghost(Seq::empty()),
                probe_model: Ghost(Seq::empty()),
            },
        )
    }

    pub fn phase(&self) -> (p: JoinPhase)
        ensures
            p == self.phase,
    {
        self.phase
    }

    /// Whether probe rows may be handed in: the build barrier was released
    /// and the probe barrier was not.
    pub fn can_probe(&self) -> (b: bool)
        ensures
            b == (self.built() && !self.probe_closed),
    {
        match self.phase {
            JoinPhase::Built | JoinPhase::Probing => !self.probe_closed,
            JoinPhase::Done => !self.probe_closed,
            _ => false,
        }
    }

    /// The number of partitions that were spilled.
    pub fn spilled_partitions(&self) -> (n: usize)
        ensures
            n == self.passes(),
    {
        self.partition_of_pass.len()
    }

    /// Where partition `p` is; `None` before the build barrier was
    /// released or for a partition that does not exist.
    pub fn partition_state(&self, p: usize) -> (s: Option<PartitionState>)
        ensures
            s == (if p < self.partition_states@.len() {
                Some(self.partition_states@[p as int])
            } else {
                None
            }),
    {
        if p < self.partition_states.len() {
            Some(self.partition_states[p])
        } else {
            None
        }
    }

    /// A build worker adds rows to the shared row store. Rows can be added
    /// until the build barrier is released.
    pub fn add_build_rows(&mut self, keys: &Vec<u64>) -> (r: Result<(), ErrorCode>)
        requires
            old(self).well_formed(),
        ensures
            final(self).well_formed(),
            final(self).config == old(self).config,
            final(self).probe_model@ == old(self).probe_model@,
            final(self).emitted() == old(self).emitted(),
            r.is_ok() <==> old(self).building(),
            r matches Err(e) ==> e == ErrorCode::InternalInvariantViolation && *final(self) == *old(self),
            r.is_ok() ==> {
                &&& final(self).build_model@ == old(self).build_model@ + keys@
                &&& final(self).phase == JoinPhase::Building
                &&& final(self).build_barrier == old(self).build_barrier
            },
    {
        match self.phase {
            JoinPhase::Empty | JoinPhase::Building => {},
            _ => {
                return Err(ErrorCode::InternalInvariantViolation);
            },
        }
        let mut i: usize = 0;
        while i < keys.len()
            invariant
                i <= keys@.len(),
                self.row_store@ == old(self).row_store@ + keys@.subrange(0, i as int),
                self.faithful == old(self).faithful,
                self.config == old(self).config,
                self.phase == old(self).phase,
                self.build_barrier == old(self).build_barrier,
                self.probe_barrier == old(self).probe_barrier,
                self.probe_model == old(self).probe_model,
                self.probe_closed == old(self).probe_closed,
                self.current_pass == old(self).current_pass,
                self.probe_count == old(self).probe_count,
            decreases keys@.len() - i,
        {
            self.row_store.push(keys[i]);
            i += 1;
            assert(self.row_store@ =~= old(self).row_store@ + keys@.subrange(0, i as int));
        }
        assert(keys@.subrange(0, keys@.len() as int) =~= keys@);
        self.build_model = Ghost(self.row_store@);
        self.phase = JoinPhase::Building;
        Ok(())
    }

    /// A build worker has added its last row and arrives at the build
    /// barrier. Every arrival but the last waits. The last arrival decides
    /// what to spill, splits the row store by partition, and builds the
    /// hash table over the rows that stay in memory: only then is the join
    /// built. When the rows cross the memory limit and spilling is not
    /// allowed, the last arrival fails and the join stays as it was.
    pub fn finish_build(&mut self) -> (r: Result<BarrierWait, ErrorCode>)
        requires
            old(self).well_formed(),
        ensures
            final(self).well_formed(),
            final(self).config == old(self).config,
            final(self).build_model@ == old(self).build_model@,
            final(self).probe_model@ == old(self).probe_model@,
            final(self).emitted() == old(self).emitted(),
            !old(self).building() ==> r == Err::<BarrierWait, ErrorCode>(ErrorCode::InternalInvariantViolation),
            old(self).building() && old(self).last_build_arrival() && old(self).config.over_limit(old(self).build_model@.len()) && !old(self).config.spilling
                ==> r == Err::<BarrierWait, ErrorCode>(ErrorCode::ResourceExhausted),
            r.is_err() ==> *final(self) == *old(self),
            old(self).building() && !old(self).last_build_arrival() ==> {
                &&& r == Ok::<BarrierWait, ErrorCode>(BarrierWait::Waiting)
                &&& final(self).phase == JoinPhase::Building
                &&& final(self).build_barrier == old(self).build_barrier.after_arrival()
            },
            old(self).building() && old(self).last_build_arrival() && !(old(self).config.over_limit(old(self).build_model@.len()) && !old(self).config.spilling) ==> {
                &&& r == Ok::<BarrierWait, ErrorCode>(BarrierWait::Leader)
                &&& final(self).phase == JoinPhase::Built
                &&& !final(self).probe_closed
                &&& forall|p: int| 0 <= p < old(self).config.partitions ==> ((#[trigger] final(self).pass_of_partition@[p]) > 0) == spill_decision(
                    old(self).config,
                    old(self).build_model@,
                    p as nat,
                )
                &&& old(self).config.memory_limit matches Some(limit) ==> final(self).table.rows@.len() <= limit
                &&& forall|q: int| 0 <= q < final(self).passes() ==> !(#[trigger] final(self).offloaded@[q])
                &&& final(self).faithful@
            },
    {
        match self.phase {
            JoinPhase::Empty | JoinPhase::Building => {},
            _ => {
                return Err(ErrorCode::InternalInvariantViolation);
            },
        }
        if self.build_barrier.missing() != 1 {
            let _ = self.build_barrier.arrive();
            self.phase = JoinPhase::Building;
            return Ok(BarrierWait::Waiting);
        }
        let n = self.row_store.len();
        let partitions = self.config.partitions;
        let seed = self.config.seed;
        let mut planned: Option<usize> = None;
        match self.config.memory_limit {
            Some(limit) => {
                if self.config.spilling {
                    planned = Some(limit);
                } else if n > limit {
                    return Err(ErrorCode::ResourceExhausted);
                }
            },
            None => {},
        }
        let (pass_of, partition_of_pass) = match planned {
            Some(limit) => {
                let counts = count_partitions(&self.row_store, seed, partitions);
                assert(counts@ =~= partition_counts(self.row_store@, seed, partitions));
                let plan = plan_spill(&counts, n, limit);
                proof {
                    lemma_resident_rows_fit(self.row_store@, seed, partitions, limit, plan.0@);
                }
                plan
            },
            None => (plan_nothing(partitions), Vec::new()),
        };
        let passes = partition_of_pass.len();
        let (resident, spilled) = partition_rows(&self.row_store, seed, partitions, &pass_of, passes);
        proof {
            if self.config.memory_limit.is_some() && planned.is_none() {
                lemma_positions(pass_tags(self.row_store@, seed, partitions, pass_of@), 0);
            }
        }
        let spilled = encode_partitions(&spilled);
        let spill_lens = lengths_of(&spilled);
        let slots = resident.len();
        let matched = cleared_flags(slots);
        let table = JoinHashTable::build(resident, seed, slots);
        let states = states_of(&pass_of, 0);
        let buffers = empty_buffers(passes);
        let offloaded = cleared_flags(passes);
        let _ = self.build_barrier.arrive();
        self.row_store = Vec::new();
        self.partition_states = states;
        self.pass_of_partition = pass_of;
        self.partition_of_pass = partition_of_pass;
        self.table = table;
        self.matched = matched;
        self.spill_area = spilled;
        self.offloaded = offloaded;
        self.spill_lens = spill_lens;
        self.probe_buffers = buffers;
        self.phase = JoinPhase::Built;
        proof {
            let ptags = self.probe_tags();
            assert(ptags =~= Seq::<usize>::empty());
            assert forall|q: int| 0 <= q < passes implies (#[trigger] self.probe_buffers@[q])@ == probe_rows_at(
                self.probe_model@,
                positions(ptags, (q + 1) as usize),
            ) by {
                assert(self.probe_buffers@[q]@ =~= probe_rows_at(self.probe_model@, positions(ptags, (q + 1) as usize)));
            }
            assert forall|x: int| 0 <= x < self.matched@.len() implies (#[trigger] self.matched@[x]) == self.probe_model@.contains(
                self.table.rows@[x].key,
            ) by {}
            assert(self.emitted() =~= Multiset::<JoinedPair>::empty());
        }
        Ok(BarrierWait::Leader)
    }

    /// Whether the next arrival at the build barrier is the last.
    pub open spec fn last_build_arrival(&self) -> bool {
        self.build_barrier.arrived + 1 == self.build_barrier.participants
    }

    /// What a probing step leaves alone.
    pub open spec fn same_setup(&self, before: &HashJoinState) -> bool {
        &&& self.config == before.config
        &&& self.build_model@ == before.build_model@
        &&& self.pass_of_partition == before.pass_of_partition
        &&& self.partition_of_pass == before.partition_of_pass
        &&& self.offloaded == before.offloaded
        &&& self.spill_lens == before.spill_lens
        &&& self.faithful@ == before.faithful@
        &&& self.build_barrier == before.build_barrier
    }

    /// Takes one probe row in: probes it when its partition is in memory,
    /// keeps it for the pass of its partition otherwise.
    fn probe_row(&mut self, key: u64, out: &mut Vec<JoinedPair>)
        requires
            old(self).well_formed(),
            old(self).built(),
            !old(self).probe_closed,
            old(self).probe_count < usize::MAX,
        ensures
            final(self).well_formed(),
            final(self).same_setup(old(self)),
            final(self).probe_barrier == old(self).probe_barrier,
            final(self).phase == JoinPhase::Probing,
            !final(self).probe_closed,
            final(self).probe_model@ == old(self).probe_model@.push(key),
            final(out)@ == old(out)@ + probe_one(
                old(self).config.kind,
                old(self).build_model@,
                old(self).config.seed,
                old(self).config.partitions,
                old(self).pass_of_partition@,
                old(self).probe_count,
                key,
            ),
            final(self).emitted() == old(self).emitted().add(
                probe_one(
                    old(self).config.kind,
                    old(self).build_model@,
                    old(self).config.seed,
                    old(self).config.partitions,
                    old(self).pass_of_partition@,
                    old(self).probe_count,
                    key,
                ).to_multiset(),
            ),
    {
        let kind = self.config.kind;
        let j = self.probe_count;
        let s = key_slot(self.config.seed, key, self.config.partitions);
        let t = self.pass_of_partition[s];
        let ghost build = self.build_model@;
        let ghost probe = self.probe_model@;
        let ghost probe_after = probe.push(key);
        let ghost btags = self.build_tags();
        let ghost ptags = self.probe_tags();
        let ghost ptags_after = ptags.push(t);
        let ghost po = probe_outputs(kind, build, probe);
        let ghost v = probe_emit(kind, build, j, key).to_multiset();
        let ghost po_after = po.push(v);
        let ghost rows = self.table.rows@;
        let ghost passes = self.passes();
        let ghost earlier_buffers = self.probe_buffers@;
        let ghost earlier_matched = self.matched@;
        proof {
            lemma_positions(btags, 0);
            lemma_positions(ptags, 0);
            lemma_positions_push(ptags, t, 0);
            assert forall|x: int| 0 <= x < rows.len() implies self.pass_of_partition@[slot_of(self.config.seed, (#[trigger] rows[x]).key, self.config.partitions) as int] == 0 by {
                let i = positions(btags, 0)[x];
                assert(btags[i as int] == 0);
            }
        }
        if t == 0 {
            proof {
                assert forall|i: int| 0 <= i < build.len() && build[i] == key implies btags[i] == 0 by {}
                lemma_pass_holds_matches(build, btags, 0, key);
            }
            probe_table(kind, &self.table, &mut self.matched, j, key, out);
        } else {
            self.probe_buffers[t - 1].push(ProbeRow { id: j, key });
            assert(out@ =~= old(out)@ + Seq::<JoinedPair>::empty());
        }
        self.probe_model = Ghost(probe_after);
        self.probe_count = j + 1;
        self.phase = JoinPhase::Probing;
        proof {
            assert(self.probe_tags() =~= ptags_after);
            assert(probe_outputs(kind, build, probe_after) =~= po_after);
            assert forall|x: int| 0 <= x < self.matched@.len() implies (#[trigger] self.matched@[x]) == probe_after.contains(rows[x].key) by {
                lemma_contains_push(probe, key, rows[x].key);
                if t != 0 {
                    assert(rows[x].key != key);
                    assert(self.matched@[x] == earlier_matched[x]);
                }
            }
            assert forall|q: int| 0 <= q < passes implies (#[trigger] self.probe_buffers@[q])@ == probe_rows_at(
                probe_after,
                positions(ptags_after, (q + 1) as usize),
            ) by {
                lemma_positions(ptags, (q + 1) as usize);
                lemma_positions_push(ptags, t, (q + 1) as usize);
                assert(earlier_buffers[q]@ == probe_rows_at(probe, positions(ptags, (q + 1) as usize)));
                assert(self.probe_buffers@[q]@ =~= probe_rows_at(probe_after, positions(ptags_after, (q + 1) as usize)));
            }
            let sel = positions(ptags, 0);
            lemma_msum_at_push(po, v, sel);
            if t == 0 {
                assert(positions(ptags_after, 0).drop_last() =~= sel);
                assert(self.emitted() =~= old(self).emitted().add(v));
            } else {
                Seq::<JoinedPair>::empty().to_multiset_ensures();
                assert(Seq::<JoinedPair>::empty().to_multiset() =~= Multiset::<JoinedPair>::empty());
                assert(self.emitted() =~= old(self).emitted().add(Multiset::<JoinedPair>::empty()));
            }
        }
    }

    /// A probe worker hands a batch of probe rows in. Rows whose partition
    /// is in memory are probed at once; rows whose partition is spilled are
    /// kept until that partition is restored. No row is probed before the
    /// build barrier was released: until then the call fails and reads
    /// nothing.
    pub fn probe(&mut self, keys: &Vec<u64>) -> (r: Result<Vec<JoinedPair>, ErrorCode>)
        requires
            old(self).well_formed(),
        ensures
            final(self).well_formed(),
            final(self).same_setup(old(self)),
            final(self).probe_barrier == old(self).probe_barrier,
            !(old(self).built() && !old(self).probe_closed) ==> r == Err::<Vec<JoinedPair>, ErrorCode>(ErrorCode::InternalInvariantViolation),
            old(self).built() && !old(self).probe_closed && old(self).probe_model@.len() + keys@.len() > usize::MAX ==> r == Err::<
                Vec<JoinedPair>,
                ErrorCode,
            >(ErrorCode::ResourceExhausted),
            r.is_err() ==> *final(self) == *old(self),
            old(self).built() && !old(self).probe_closed && old(self).probe_model@.len() + keys@.len() <= usize::MAX ==> r.is_ok(),
            r matches Ok(out) ==> {
                &&& final(self).probe_model@ == old(self).probe_model@ + keys@
                &&& !final(self).probe_closed
                &&& keys@.len() > 0 ==> final(self).phase == JoinPhase::Probing
                &&& keys@.len() == 0 ==> final(self).phase == old(self).phase
                &&& out@ == probe_batch(
                    old(self).config.kind,
                    old(self).build_model@,
                    old(self).config.seed,
                    old(self).config.partitions,
                    old(self).pass_of_partition@,
                    old(self).probe_model@.len(),
                    keys@,
                )
                &&& final(self).emitted() == old(self).emitted().add(out@.to_multiset())
            },
    {
        if !self.can_probe() {
            return Err(ErrorCode::InternalInvariantViolation);
        }
        if keys.len() > usize::MAX - self.probe_count {
            return Err(ErrorCode::ResourceExhausted);
        }
        let mut out: Vec<JoinedPair> = Vec::new();
        let ghost base = self.probe_model@.len();
        let mut i: usize = 0;
        proof {
            Seq::<JoinedPair>::empty().to_multiset_ensures();
            assert(out@.to_multiset() =~= Multiset::<JoinedPair>::empty());
            assert(self.emitted() =~= old(self).emitted().add(out@.to_multiset()));
            assert(self.probe_model@ =~= old(self).probe_model@ + keys@.subrange(0, 0));
        }
        while i < keys.len()
            invariant
                i <= keys@.len(),
                base == old(self).probe_model@.len(),
                base + keys@.len() <= usize::MAX,
                self.well_formed(),
                self.built(),
                !self.probe_closed,
                self.same_setup(old(self)),
                self.probe_barrier == old(self).probe_barrier,
                i > 0 ==> self.phase == JoinPhase::Probing,
                i == 0 ==> *self == *old(self),
                self.probe_model@ == old(self).probe_model@ + keys@.subrange(0, i as int),
                self.probe_count == base + i,
                out@ == probe_batch(
                    old(self).config.kind,
                    old(self).build_model@,
                    old(self).config.seed,
                    old(self).config.partitions,
                    old(self).pass_of_partition@,
                    base,
                    keys@.subrange(0, i as int),
                ),
                self.emitted() == old(self).emitted().add(out@.to_multiset()),
            decreases keys@.len() - i,
        {
            let ghost before_out = out@;
            let ghost before_emitted = self.emitted();
            let ghost one = probe_one(
                self.config.kind,
                self.build_model@,
                self.config.seed,
                self.config.partitions,
                self.pass_of_partition@,
                self.probe_count,
                keys@[i as int],
            );
            self.probe_row(keys[i], &mut out);
            proof {
                assert(keys@.subrange(0, i + 1).drop_last() =~= keys@.subrange(0, i as int));
                assert(self.probe_model@ =~= old(self).probe_model@ + keys@.subrange(0, i + 1));
                lemma_multiset_commutative(before_out, one);
                assert(self.emitted() =~= old(self).emitted().add(out@.to_multiset()));
            }
            i += 1;
        }
        assert(keys@.subrange(0, keys@.len() as int) =~= keys@);
        Ok(out)
    }

    /// Whether the next arrival at the probe barrier is the last.
    pub open spec fn last_probe_arrival(&self) -> bool {
        self.probe_barrier.arrived + 1 == self.probe_barrier.participants
    }

    /// A probe worker has handed in its last row and arrives at the probe
    /// barrier. Every arrival but the last waits. The last arrival closes
    /// the pass over the partitions in memory: it puts out what their
    /// build rows give rise to, now that every probe row is known. With
    /// nothing spilled the join is done; otherwise the spilled partitions
    /// are next.
    pub fn finish_probe(&mut self) -> (r: Result<(BarrierWait, Vec<JoinedPair>), ErrorCode>)
        requires
            old(self).well_formed(),
        ensures
            final(self).well_formed(),
            final(self).same_setup(old(self)),
            final(self).probe_model@ == old(self).probe_model@,
            r.is_ok() <==> old(self).built() && !old(self).probe_closed,
            r matches Err(e) ==> e == ErrorCode::InternalInvariantViolation && *final(self) == *old(self),
            r matches Ok((wait, out)) ==> {
                &&& final(self).emitted() == old(self).emitted().add(out@.to_multiset())
                &&& final(self).probe_barrier == old(self).probe_barrier.after_arrival()
                &&& !old(self).last_probe_arrival() ==> {
                    &&& wait == BarrierWait::Waiting
                    &&& out@.len() == 0
                    &&& final(self).phase == old(self).phase
                    &&& !final(self).probe_closed
                }
                &&& old(self).last_probe_arrival() ==> {
                    &&& wait == BarrierWait::Leader
                    &&& final(self).probe_closed
                    &&& final(self).current_pass == 0
                    &&& out@ == build_run(
                        old(self).config.kind,
                        old(self).build_model@,
                        old(self).probe_model@,
                        positions(old(self).build_tags(), 0),
                    )
                    &&& final(self).phase == (if old(self).passes() == 0 {
                        JoinPhase::Done
                    } else {
                        JoinPhase::Probing
                    })
                }
            },
    {
        if !self.can_probe() {
            return Err(ErrorCode::InternalInvariantViolation);
        }
        let mut out: Vec<JoinedPair> = Vec::new();
        proof {
            Seq::<JoinedPair>::empty().to_multiset_ensures();
            assert(out@.to_multiset() =~= Multiset::<JoinedPair>::empty());
        }
        if self.probe_barrier.missing() != 1 {
            let _ = self.probe_barrier.arrive();
            assert(self.emitted() =~= old(self).emitted().add(out@.to_multiset()));
            return Ok((BarrierWait::Waiting, out));
        }
        let kind = self.config.kind;
        let ghost build = self.build_model@;
        let ghost probe = self.probe_model@;
        let ghost btags = self.build_tags();
        let ghost ptags = self.probe_tags();
        let ghost sel = positions(btags, 0);
        emit_build_side(kind, &self.table.rows, &self.matched, &mut out);
        let _ = self.probe_barrier.arrive();
        self.probe_closed = true;
        if self.partition_of_pass.len() == 0 {
            self.phase = JoinPhase::Done;
        } else {
            self.phase = JoinPhase::Probing;
        }
        proof {
            lemma_positions(btags, 0);
            lemma_build_side_run(kind, build, probe, sel, self.matched@);
            assert(out@ =~= build_run(kind, build, probe, sel));
            lemma_build_run_multiset(kind, build, probe, sel);
            let po = probe_outputs(kind, build, probe);
            let bo = build_outputs(kind, build, probe);
            assert(msum_below(po, ptags, 0) =~= Multiset::<JoinedPair>::empty());
            assert(msum_below(bo, btags, 0) =~= Multiset::<JoinedPair>::empty());
            assert(msum_below(po, ptags, 1) =~= msum_at(po, positions(ptags, 0)));
            assert(msum_below(bo, btags, 1) =~= msum_at(bo, positions(btags, 0)));
            assert(self.emitted() =~= old(self).emitted().add(out@.to_multiset()));
        }
        Ok((BarrierWait::Leader, out))
    }

    /// Takes the bytes of a spilled partition out of the join, to be
    /// written to storage. The partition must still wait for its pass and
    /// must not have been taken out already.
    pub fn take_spilled(&mut self, pass: usize) -> (r: Result<Vec<u8>, ErrorCode>)
        requires
            old(self).well_formed(),
        ensures
            final(self).well_formed(),
            r.is_ok() <==> old(self).built() && old(self).current_pass <= pass < old(self).passes() && !old(self).offloaded@[pass as int],
            r matches Err(e) ==> e == ErrorCode::InternalInvariantViolation && *final(self) == *old(self),
            r matches Ok(bytes) ==> {
                &&& bytes@ == old(self).spill_area@[pass as int]@
                &&& old(self).faithful@ ==> bytes@ == old(self).spilled_bytes(pass as int)
                &&& final(self).faithful@ == old(self).faithful@
                &&& final(self).offloaded@ == old(self).offloaded@.update(pass as int, true)
                &&& final(self).spill_area@[pass as int]@.len() == 0
                &&& final(self).config == old(self).config
                &&& final(self).phase == old(self).phase
                &&& final(self).build_model@ == old(self).build_model@
                &&& final(self).probe_model@ == old(self).probe_model@
                &&& final(self).pass_of_partition == old(self).pass_of_partition
                &&& final(self).partition_of_pass == old(self).partition_of_pass
                &&& final(self).current_pass == old(self).current_pass
                &&& final(self).probe_closed == old(self).probe_closed
                &&& final(self).emitted() == old(self).emitted()
            },
    {
        match self.phase {
            JoinPhase::Empty | JoinPhase::Building => {
                return Err(ErrorCode::InternalInvariantViolation);
            },
            _ => {},
        }
        if pass < self.current_pass || pass >= self.partition_of_pass.len() {
            return Err(ErrorCode::InternalInvariantViolation);
        }
        if self.offloaded[pass] {
            return Err(ErrorCode::InternalInvariantViolation);
        }
        let ghost earlier = self.spill_area@;
        let mut bytes: Vec<u8> = Vec::new();
        std::mem::swap(&mut bytes, &mut self.spill_area[pass]);
        self.offloaded.set(pass, true);
        proof {
            assert forall|q: int| self.faithful@ && self.current_pass <= q < self.passes() && !self.offloaded@[q] implies (#[trigger] self.spill_area@[q])@ == self.spilled_bytes(q) by {
                assert(self.spill_area@[q] == earlier[q]);
            }
        }
        Ok(bytes)
    }

    /// Whether the partition of pass `pass + 1` is away and may come back.
    pub open spec fn awaits(&self, pass: usize) -> bool {
        self.built() && self.current_pass <= pass < self.passes() && self.offloaded@[pass as int]
    }

    /// What can be told of bytes that storage returns for pass `pass + 1`:
    /// they are as many as were taken out, they are whole rows, and every
    /// row's key belongs to the pass.
    pub open spec fn plausible(&self, pass: usize, bytes: Seq<u8>) -> bool {
        &&& bytes.len() == self.spill_lens@[pass as int]
        &&& decodable(bytes)
        &&& rows_of_pass(decoded_rows(bytes), self.config.seed, self.config.partitions, self.pass_of_partition@, pass + 1)
    }

    /// Puts the bytes of a spilled partition back, as storage returned
    /// them. Bytes that cannot be what was taken out are rejected as a
    /// failed read. Bytes that were taken out are always accepted. Whether
    /// accepted bytes are the bytes that were taken out cannot be told
    /// here: the join remembers it as `faithful`, and what it promises of
    /// its result it promises of a faithful store.
    pub fn put_spilled(&mut self, pass: usize, bytes: Vec<u8>) -> (r: Result<(), ErrorCode>)
        requires
            old(self).well_formed(),
        ensures
            final(self).well_formed(),
            r.is_ok() <==> old(self).awaits(pass) && old(self).plausible(pass, bytes@),
            r matches Err(e) ==> *final(self) == *old(self) && e == (if old(self).awaits(pass) {
                ErrorCode::IOError
            } else {
                ErrorCode::InternalInvariantViolation
            }),
            old(self).awaits(pass) && old(self).faithful@ && bytes@ == old(self).spilled_bytes(pass as int) ==> r.is_ok(),
            r.is_ok() ==> {
                &&& final(self).faithful@ == (old(self).faithful@ && bytes@ == old(self).spilled_bytes(pass as int))
                &&& final(self).offloaded@ == old(self).offloaded@.update(pass as int, false)
                &&& final(self).spill_area@[pass as int] == bytes
                &&& final(self).config == old(self).config
                &&& final(self).phase == old(self).phase
                &&& final(self).build_model@ == old(self).build_model@
                &&& final(self).probe_model@ == old(self).probe_model@
                &&& final(self).pass_of_partition == old(self).pass_of_partition
                &&& final(self).partition_of_pass == old(self).partition_of_pass
                &&& final(self).current_pass == old(self).current_pass
                &&& final(self).probe_closed == old(self).probe_closed
                &&& final(self).emitted() == old(self).emitted()
            },
    {
        match self.phase {
            JoinPhase::Empty | JoinPhase::Building => {
                return Err(ErrorCode::InternalInvariantViolation);
            },
            _ => {},
        }
        if pass < self.current_pass || pass >= self.partition_of_pass.len() {
            return Err(ErrorCode::InternalInvariantViolation);
        }
        if !self.offloaded[pass] {
            return Err(ErrorCode::InternalInvariantViolation);
        }
        proof {
            if self.faithful@ && bytes@ == self.spilled_bytes(pass as int) {
                let sel = positions(self.build_tags(), (pass + 1) as usize);
                lemma_rows_round_trip(rows_at(self.build_model@, sel));
                lemma_positions(self.build_tags(), (pass + 1) as usize);
                assert forall|x: int| 0 <= x < decoded_rows(bytes@).len() implies self.pass_of_partition@[slot_of(
                    self.config.seed,
                    (#[trigger] decoded_rows(bytes@)[x]).key,
                    self.config.partitions,
                ) as int] == pass + 1 by {
                    assert(self.build_tags()[sel[x] as int] == pass + 1);
                }
            }
        }
        if bytes.len() != self.spill_lens[pass] {
            return Err(ErrorCode::IOError);
        }
        let rows = match decode_rows(&bytes) {
            Ok(rows) => rows,
            Err(e) => {
                return Err(ErrorCode::IOError);
            },
        };
        if !check_rows_of_pass(&rows, self.config.seed, self.config.partitions, &self.pass_of_partition, pass + 1) {
            return Err(ErrorCode::IOError);
        }
        let ghost earlier = self.spill_area@;
        let ghost still = self.faithful@ && bytes@ == self.spilled_bytes(pass as int);
        self.spill_area.set(pass, bytes);
        self.offloaded.set(pass, false);
        self.faithful = Ghost(still);
        proof {
            assert forall|q: int| self.faithful@ && self.current_pass <= q < self.passes() && !self.offloaded@[q] implies (#[trigger] self.spill_area@[q])@ == self.spilled_bytes(q) by {
                if q != pass {
                    assert(self.spill_area@[q] == earlier[q]);
                }
            }
        }
        Ok(())
    }

    /// Whether the next spilled partition can be restored: the probe
    /// barrier was released, a spilled partition is left, and its bytes
    /// are not away.
    pub open spec fn restorable(&self) -> bool {
        &&& self.built()
        &&& self.probe_closed
        &&& self.current_pass < self.passes()
        &&& !self.offloaded@[self.current_pass as int]
    }

    /// Restores the next spilled partition and runs its pass: the
    /// partition's build rows come back from the spill area into a fresh
    /// hash table, the probe rows kept for the partition are probed against
    /// it, and the build rows' own output follows. Passes run only once the
    /// probe barrier was released, one spilled partition at a time, in the
    /// order in which the partitions were spilled. A partition whose bytes
    /// were taken out to storage must be put back before its pass.
    pub fn restore_next(&mut self) -> (r: Result<Vec<JoinedPair>, ErrorCode>)
        requires
            old(self).well_formed(),
        ensures
            final(self).well_formed(),
            final(self).same_setup(old(self)),
            final(self).probe_model@ == old(self).probe_model@,
            final(self).probe_barrier == old(self).probe_barrier,
            r.is_ok() <==> old(self).restorable() && decodable(old(self).spill_area@[old(self).current_pass as int]@),
            old(self).restorable() && old(self).faithful@ ==> r.is_ok(),
            r matches Err(e) ==> *final(self) == *old(self) && e == (if old(self).restorable() {
                ErrorCode::IOError
            } else {
                ErrorCode::InternalInvariantViolation
            }),
            r matches Ok(out) ==> {
                let rows = decoded_rows(old(self).spill_area@[old(self).current_pass as int]@);
                let buffer = old(self).probe_buffers@[old(self).current_pass as int]@;
                out@ == probe_rows_run(old(self).config.kind, rows, buffer) + build_side_run(
                    old(self).config.kind,
                    rows,
                    hits_of(rows, buffer),
                )
            },
            r matches Ok(out) ==> {
                let t = (old(self).current_pass + 1) as usize;
                &&& final(self).probe_closed
                &&& final(self).current_pass == t
                &&& final(self).phase == (if t == old(self).passes() {
                    JoinPhase::Done
                } else {
                    JoinPhase::Probing
                })
                &&& final(self).partition_states@[old(self).partition_of_pass@[t - 1] as int] == PartitionState::InMemory
                &&& old(self).faithful@ ==> out@ == probe_run(
                    old(self).config.kind,
                    old(self).build_model@,
                    old(self).probe_model@,
                    positions(old(self).probe_tags(), t),
                ) + build_run(old(self).config.kind, old(self).build_model@, old(self).probe_model@, positions(old(self).build_tags(), t))
                &&& old(self).faithful@ ==> final(self).emitted() == old(self).emitted().add(out@.to_multiset())
            },
    {
        match self.phase {
            JoinPhase::Empty | JoinPhase::Building => {
                return Err(ErrorCode::InternalInvariantViolation);
            },
            _ => {},
        }
        if !self.probe_closed || self.current_pass >= self.partition_of_pass.len() {
            return Err(ErrorCode::InternalInvariantViolation);
        }
        if self.offloaded[self.current_pass] {
            return Err(ErrorCode::InternalInvariantViolation);
        }
        let kind = self.config.kind;
        let t = self.current_pass + 1;
        let partition = self.partition_of_pass[t - 1];
        let ghost build = self.build_model@;
        let ghost probe = self.probe_model@;
        let ghost btags = self.build_tags();
        let ghost ptags = self.probe_tags();
        let ghost bsel = positions(btags, t);
        let ghost psel = positions(ptags, t);
        let ghost passes = self.passes();
        let ghost earlier_spill = self.spill_area@;
        let ghost earlier_buffers = self.probe_buffers@;
        proof {
            lemma_rows_round_trip(rows_at(build, bsel));
        }
        let rows = match decode_rows(&self.spill_area[t - 1]) {
            Ok(rows) => rows,
            Err(e) => {
                return Err(ErrorCode::IOError);
            },
        };
        let ghost taken = rows@;
        self.partition_states.set(partition, PartitionState::Restoring);
        let mut bytes: Vec<u8> = Vec::new();
        std::mem::swap(&mut bytes, &mut self.spill_area[t - 1]);
        let mut buffer: Vec<ProbeRow> = Vec::new();
        std::mem::swap(&mut buffer, &mut self.probe_buffers[t - 1]);
        assert(self.faithful@ ==> rows@ == rows_at(build, bsel));
        assert(buffer@ == probe_rows_at(probe, psel));
        let mut out: Vec<JoinedPair> = Vec::new();
        run_pass(kind, rows, &buffer, self.config.seed, &mut out);
        self.partition_states = states_of(&self.pass_of_partition, t);
        self.current_pass = t;
        if t == self.partition_of_pass.len() {
            self.phase = JoinPhase::Done;
        } else {
            self.phase = JoinPhase::Probing;
        }
        proof {
            assert forall|q: int| self.faithful@ && self.current_pass <= q < passes && !self.offloaded@[q] implies (#[trigger] self.spill_area@[q])@ == self.spilled_bytes(q) by {
                assert(self.spill_area@[q] == earlier_spill[q]);
            }
            assert forall|q: int| self.current_pass <= q < passes implies (#[trigger] self.probe_buffers@[q])@ == probe_rows_at(
                self.probe_model@,
                positions(self.probe_tags(), (q + 1) as usize),
            ) by {
                assert(self.probe_buffers@[q] == earlier_buffers[q]);
            }
        }
        proof {
          if self.faithful@ {
            lemma_positions(btags, t);
            lemma_positions(ptags, t);
            assert forall|x: int, i: int| 0 <= x < psel.len() && 0 <= i < build.len() && build[i] == probe[(#[trigger] psel[x]) as int] implies (#[trigger] btags[i]) == t by {
                assert(ptags[psel[x] as int] == t);
            }
            lemma_probe_rows_run(kind, build, probe, btags, t, psel);
            let hits = hits_of(rows_at(build, bsel), probe_rows_at(probe, psel));
            assert forall|y: int| 0 <= y < bsel.len() implies (#[trigger] hits[y]) == probe.contains(build[bsel[y] as int]) by {
                let k = build[bsel[y] as int];
                let buf = probe_rows_at(probe, psel);
                assert(btags[bsel[y] as int] == t);
                if probe.contains(k) {
                    let j = choose|j: int| 0 <= j < probe.len() && probe[j] == k;
                    assert(ptags[j] == t);
                    assert(psel.contains(j as usize));
                    let q = choose|q: int| 0 <= q < psel.len() && psel[q] == j as usize;
                    assert(buf[q].key == k);
                }
                if has_key(buf, k) {
                    let q = choose|q: int| 0 <= q < buf.len() && (#[trigger] buf[q]).key == k;
                    assert(probe[psel[q] as int] == k);
                }
            }
            lemma_build_side_run(kind, build, probe, bsel, hits);
            let first = probe_run(kind, build, probe, psel);
            let second = build_run(kind, build, probe, bsel);
            assert(out@ =~= first + second);
            lemma_multiset_commutative(first, second);
            lemma_probe_run_multiset(kind, build, probe, psel);
            lemma_build_run_multiset(kind, build, probe, bsel);
            let po = probe_outputs(kind, build, probe);
            let bo = build_outputs(kind, build, probe);
            assert(self.emitted() =~= old(self).emitted().add(out@.to_multiset()));
          }
        }
        Ok(out)
    }
}

/// A join that is done, and whose store returned what was written, has
/// put out exactly the join's result, whatever was spilled: every probe row and every build row was handled in the
/// pass of its partition, and in no other.
pub proof fn lemma_done_is_complete(s: &HashJoinState)
    requires
        s.well_formed(),
        s.faithful@,
        s.phase == JoinPhase::Done,
    ensures
        s.emitted() == join_result(s.config.kind, s.build_model@, s.probe_model@),
{
    let kind = s.config.kind;
    let po = probe_outputs(kind, s.build_model@, s.probe_model@);
    let bo = build_outputs(kind, s.build_model@, s.probe_model@);
    let bound = (s.current_pass + 1) as usize;
    assert forall|i: int| 0 <= i < s.probe_tags().len() implies (#[trigger] s.probe_tags()[i]) < bound by {
        let p = slot_of(s.config.seed, s.probe_model@[i], s.config.partitions) as int;
        assert(0 <= p < s.config.partitions);
        assert(s.pass_of_partition@[p] <= s.passes());
    }
    assert forall|i: int| 0 <= i < s.build_tags().len() implies (#[trigger] s.build_tags()[i]) < bound by {
        let p = slot_of(s.config.seed, s.build_model@[i], s.config.partitions) as int;
        assert(0 <= p < s.config.partitions);
        assert(s.pass_of_partition@[p] <= s.passes());
    }
    lemma_msum_below_total(po, s.probe_tags(), bound);
    lemma_msum_below_total(bo, s.build_tags(), bound);
}

/// Two runs of a join on the same build rows and the same probe rows, with
/// the same join kind, put out the same multiset of rows, whatever their
/// memory limits, partition counts, seeds and worker counts, provided
/// that storage returned what was written: whether and what a run spills
/// does not show in its result.
pub proof fn lemma_spill_does_not_change_result(a: &HashJoinState, b: &HashJoinState)
    requires
        a.well_formed(),
        b.well_formed(),
        a.faithful@,
        b.faithful@,
        a.phase == JoinPhase::Done,
        b.phase == JoinPhase::Done,
        a.config.kind == b.config.kind,
        a.build_model@ == b.build_model@,
        a.probe_model@ == b.probe_model@,
    ensures
        a.emitted() == b.emitted(),
{
    lemma_done_is_complete(a);
    lemma_done_is_complete(b);
}

/// No probe sees a hash table that is still being built. While any build
/// worker is missing at the build barrier, the join is not built and takes
/// no probe row. Once it is built, the barrier was released by the arrival
/// of the last build worker, and until the probe barrier is released the
/// hash table holds every build row, of every worker, whose partition is in
/// memory, while every other build row lies, in byte form, in the spill
/// area of its pass, unless that was taken out to storage; this is said
/// of a store that returns what was written.
pub proof fn lemma_probe_waits_for_build(s: &HashJoinState)
    requires
        s.well_formed(),
    ensures
        s.building() ==> s.build_barrier.generation == 0 && !(s.built() && !s.probe_closed),
        s.built() ==> s.build_barrier.generation == 1 && s.build_barrier.arrived == 0,
        s.built() && !s.probe_closed ==> s.table.rows@ == rows_at(s.build_model@, positions(s.build_tags(), 0)),
        s.built() && s.faithful@ ==> forall|q: int| s.current_pass <= q < s.passes() && !s.offloaded@[q] ==> (#[trigger] s.spill_area@[q])@ == s.spilled_bytes(q),
{
}

/// Runs a whole join on one thread: every build worker arrives at the
/// build barrier, the probe rows are probed, every probe worker arrives at
/// the probe barrier, and the spilled partitions are restored one by one.
/// The rows put out are the join's result, in some order.
pub fn run_hash_join(config: HashJoinConfig, build_keys: &Vec<u64>, probe_keys: &Vec<u64>) -> (r: Result<Vec<JoinedPair>, ErrorCode>)
    ensures
        !config.valid() ==> r == Err::<Vec<JoinedPair>, ErrorCode>(ErrorCode::ConfigurationError),
        config.valid() && config.over_limit(build_keys@.len()) && !config.spilling ==> r == Err::<Vec<JoinedPair>, ErrorCode>(
            ErrorCode::ResourceExhausted,
        ),
        config.valid() && !(config.over_limit(build_keys@.len()) && !config.spilling) ==> r.is_ok(),
        r matches Ok(out) ==> out@.to_multiset() == join_result(config.kind, build_keys@, probe_keys@),
{
    let mut state = match HashJoinState::create(config) {
        Ok(s) => s,
        Err(e) => {
            return Err(e);
        },
    };
    match state.add_build_rows(build_keys) {
        Ok(()) => {},
        Err(e) => {
            return Err(e);
        },
    }
    assert(state.build_model@ =~= build_keys@);
    while state.build_barrier.missing() != 1
        invariant
            state.well_formed(),
            state.building(),
            state.config == config,
            state.build_model@ == build_keys@,
            state.probe_model@.len() == 0,
        decreases state.build_barrier.participants - state.build_barrier.arrived,
    {
        match state.finish_build() {
            Ok(_) => {},
            Err(e) => {
                return Err(e);
            },
        }
    }
    match state.finish_build() {
        Ok(_) => {},
        Err(e) => {
            return Err(e);
        },
    }
    let probe_rows = probe_keys.len();
    assert(state.probe_model@.len() + probe_keys@.len() <= usize::MAX);
    let mut out = match state.probe(probe_keys) {
        Ok(o) => o,
        Err(e) => {
            return Err(e);
        },
    };
    assert(state.probe_model@ =~= probe_keys@);
    proof {
        Seq::<JoinedPair>::empty().to_multiset_ensures();
        let po = probe_outputs(config.kind, build_keys@, Seq::<u64>::empty());
        assert(msum_at(po, positions(Seq::<usize>::empty(), 0)) =~= Multiset::<JoinedPair>::empty());
        assert(state.emitted() =~= out@.to_multiset());
    }
    while state.probe_barrier.missing() != 1
        invariant
            state.well_formed(),
            state.built(),
            !state.probe_closed,
            state.faithful@,
            forall|q: int| 0 <= q < state.passes() ==> !(#[trigger] state.offloaded@[q]),
            state.config == config,
            state.build_model@ == build_keys@,
            state.probe_model@ == probe_keys@,
            state.emitted() == out@.to_multiset(),
        decreases state.probe_barrier.participants - state.probe_barrier.arrived,
    {
        match state.finish_probe() {
            Ok(_) => {},
            Err(e) => {
                return Err(e);
            },
        }
        assert(state.emitted() =~= out@.to_multiset());
    }
    match state.finish_probe() {
        Ok((_, mut more)) => {
            proof {
                lemma_multiset_commutative(out@, more@);
            }
            out.append(&mut more);
        },
        Err(e) => {
            return Err(e);
        },
    }
    while state.current_pass < state.spilled_partitions()
        invariant
            state.well_formed(),
            state.built(),
            state.probe_closed,
            state.faithful@,
            forall|q: int| 0 <= q < state.passes() ==> !(#[trigger] state.offloaded@[q]),
            state.config == config,
            state.build_model@ == build_keys@,
            state.probe_model@ == probe_keys@,
            state.emitted() == out@.to_multiset(),
        decreases state.passes() - state.current_pass,
    {
        match state.restore_next() {
            Ok(mut more) => {
                proof {
                    lemma_multiset_commutative(out@, more@);
                }
                out.append(&mut more);
            },
            Err(e) => {
                return Err(e);
            },
        }
    }
    proof {
        lemma_done_is_complete(&state);
    }
    Ok(out)
}

} // verus!
