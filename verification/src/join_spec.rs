//! What a join produces: for every join kind, the output that each probe
//! row and each build row gives rise to, and the facts that let the rows be
//! processed in passes without changing the result.

use vstd::prelude::*;
use vstd::multiset::Multiset;
use vstd::seq_lib::lemma_multiset_commutative;
use crate::join_table::{keys_of, BuildRow};
use crate::plan::JoinKind;
use crate::selection::{lemma_positions, lemma_positions_push, msum, msum_at, positions};

verus! {

/// One output row of a join: the probe row and the build row it was put
/// together from, by their numbers in the two inputs. A missing side is
/// padded with nulls.
#[derive(Clone, Copy, Debug, PartialEq, Eq, Structural)]
pub struct JoinedPair {
    pub probe: Option<usize>,
    pub build: Option<usize>,
}

/// Probe row `j` joined with each of the build rows `ids`, in their order.
pub open spec fn matched_pairs(j: usize, ids: Seq<usize>) -> Seq<JoinedPair> {
    Seq::new(ids.len(), |x: int| JoinedPair { probe: Some(j), build: Some(ids[x]) })
}

/// What probe row `j` gives rise to when the build rows `ids` have its
/// key:
/// - inner and right joins: one row per match;
/// - left and full joins: one row per match, or the probe row alone when
///   nothing matches;
/// - left semi join: the probe row alone when something matches;
/// - left anti join: the probe row alone when nothing matches;
/// - right semi and right anti joins: nothing.
pub open spec fn probe_emit_with(kind: JoinKind, j: usize, ids: Seq<usize>) -> Seq<JoinedPair> {
    let alone = seq![JoinedPair { probe: Some(j), build: None }];
    match kind {
        JoinKind::Inner | JoinKind::Right => matched_pairs(j, ids),
        JoinKind::Left | JoinKind::Full => if ids.len() == 0 {
            alone
        } else {
            matched_pairs(j, ids)
        },
        JoinKind::LeftSemi => if ids.len() > 0 {
            alone
        } else {
            Seq::empty()
        },
        JoinKind::LeftAnti => if ids.len() == 0 {
            alone
        } else {
            Seq::empty()
        },
        JoinKind::RightSemi | JoinKind::RightAnti => Seq::empty(),
    }
}

/// What build row `i` gives rise to, given whether any probe row has its
/// key:
/// - right, full and right anti joins: the build row alone when no probe
///   row has its key;
/// - right semi join: the build row alone when some probe row has its key;
/// - every other kind: nothing.
pub open spec fn build_emit_with(kind: JoinKind, i: usize, hit: bool) -> Seq<JoinedPair> {
    let alone = seq![JoinedPair { probe: None, build: Some(i) }];
    match kind {
        JoinKind::Right | JoinKind::Full | JoinKind::RightAnti => if hit {
            Seq::empty()
        } else {
            alone
        },
        JoinKind::RightSemi => if hit {
            alone
        } else {
            Seq::empty()
        },
        _ => Seq::empty(),
    }
}

/// What probe row `j` with key `key` gives rise to against the build keys.
pub open spec fn probe_emit<K>(kind: JoinKind, build: Seq<K>, j: usize, key: K) -> Seq<JoinedPair> {
    probe_emit_with(kind, j, positions(build, key))
}

/// What build row `i` with key `key` gives rise to against the probe keys.
pub open spec fn build_emit<K>(kind: JoinKind, probe: Seq<K>, i: usize, key: K) -> Seq<JoinedPair> {
    build_emit_with(kind, i, probe.contains(key))
}

/// Per probe row, the output it gives rise to.
pub open spec fn probe_outputs<K>(kind: JoinKind, build: Seq<K>, probe: Seq<K>) -> Seq<Multiset<JoinedPair>> {
    Seq::new(probe.len(), |j: int| probe_emit(kind, build, j as usize, probe[j]).to_multiset())
}

/// Per build row, the output it gives rise to.
pub open spec fn build_outputs<K>(kind: JoinKind, build: Seq<K>, probe: Seq<K>) -> Seq<Multiset<JoinedPair>> {
    Seq::new(build.len(), |i: int| build_emit(kind, probe, i as usize, build[i]).to_multiset())
}

/// The result of joining the build rows with the probe rows on equal keys,
/// as a multiset: the order of output rows is not part of the result.
pub open spec fn join_result<K>(kind: JoinKind, build: Seq<K>, probe: Seq<K>) -> Multiset<JoinedPair> {
    msum(probe_outputs(kind, build, probe)).add(msum(build_outputs(kind, build, probe)))
}

/// The output of the probe rows `sel`, one after another.
pub open spec fn probe_run(kind: JoinKind, build: Seq<u64>, probe: Seq<u64>, sel: Seq<usize>) -> Seq<JoinedPair>
    decreases sel.len(),
{
    if sel.len() == 0 {
        Seq::empty()
    } else {
        probe_run(kind, build, probe, sel.drop_last()) + probe_emit(kind, build, sel.last(), probe[sel.last() as int])
    }
}

/// The output of the build rows `sel`, one after another.
pub open spec fn build_run(kind: JoinKind, build: Seq<u64>, probe: Seq<u64>, sel: Seq<usize>) -> Seq<JoinedPair>
    decreases sel.len(),
{
    if sel.len() == 0 {
        Seq::empty()
    } else {
        build_run(kind, build, probe, sel.drop_last()) + build_emit(kind, probe, sel.last(), build[sel.last() as int])
    }
}

/// As a multiset, the output of a run of probe rows is the union of what
/// each of them gives rise to.
pub proof fn lemma_probe_run_multiset(kind: JoinKind, build: Seq<u64>, probe: Seq<u64>, sel: Seq<usize>)
    requires
        forall|k: int| 0 <= k < sel.len() ==> (#[trigger] sel[k]) < probe.len(),
    ensures
        probe_run(kind, build, probe, sel).to_multiset() == msum_at(probe_outputs(kind, build, probe), sel),
    decreases sel.len(),
{
    if sel.len() == 0 {
        assert(probe_run(kind, build, probe, sel).to_multiset() =~= Multiset::<JoinedPair>::empty()) by {
            Seq::<JoinedPair>::empty().to_multiset_ensures();
        }
    } else {
        lemma_probe_run_multiset(kind, build, probe, sel.drop_last());
        lemma_multiset_commutative(
            probe_run(kind, build, probe, sel.drop_last()),
            probe_emit(kind, build, sel.last(), probe[sel.last() as int]),
        );
    }
}

/// As a multiset, the output of a run of build rows is the union of what
/// each of them gives rise to.
pub proof fn lemma_build_run_multiset(kind: JoinKind, build: Seq<u64>, probe: Seq<u64>, sel: Seq<usize>)
    requires
        forall|k: int| 0 <= k < sel.len() ==> (#[trigger] sel[k]) < build.len(),
    ensures
        build_run(kind, build, probe, sel).to_multiset() == msum_at(build_outputs(kind, build, probe), sel),
    decreases sel.len(),
{
    if sel.len() == 0 {
        assert(build_run(kind, build, probe, sel).to_multiset() =~= Multiset::<JoinedPair>::empty()) by {
            Seq::<JoinedPair>::empty().to_multiset_ensures();
        }
    } else {
        lemma_build_run_multiset(kind, build, probe, sel.drop_last());
        lemma_multiset_commutative(
            build_run(kind, build, probe, sel.drop_last()),
            build_emit(kind, probe, sel.last(), build[sel.last() as int]),
        );
    }
}

/// The build rows at the positions `sel` of the build input.
pub open spec fn rows_at(build: Seq<u64>, sel: Seq<usize>) -> Seq<BuildRow> {
    Seq::new(sel.len(), |x: int| BuildRow { id: sel[x], key: build[sel[x] as int] })
}

/// The numbers of the rows at the positions `local` of `rows`.
pub open spec fn ids_at(rows: Seq<BuildRow>, local: Seq<usize>) -> Seq<usize> {
    Seq::new(local.len(), |x: int| rows[local[x] as int].id)
}

/// When every build row with key `key` carries tag `t`, looking the key up
/// among the rows tagged `t` finds every build row with that key: a pass
/// that holds a key's partition sees all of the key's matches.
pub proof fn lemma_pass_holds_matches(build: Seq<u64>, tags: Seq<usize>, t: usize, key: u64)
    requires
        build.len() == tags.len(),
        build.len() <= usize::MAX,
        forall|i: int| 0 <= i < build.len() && build[i] == key ==> tags[i] == t,
    ensures
        ids_at(rows_at(build, positions(tags, t)), positions(keys_of(rows_at(build, positions(tags, t))), key)) == positions(build, key),
    decreases build.len(),
{
    let sel = positions(tags, t);
    let rows = rows_at(build, sel);
    let local = positions(keys_of(rows), key);
    if build.len() == 0 {
        assert(ids_at(rows, local) =~= positions(build, key));
    } else {
        let b0 = build.drop_last();
        let t0 = tags.drop_last();
        assert(b0.push(build.last()) =~= build);
        assert(t0.push(tags.last()) =~= tags);
        lemma_pass_holds_matches(b0, t0, t, key);
        lemma_positions_push(t0, tags.last(), t);
        lemma_positions_push(b0, build.last(), key);
        lemma_positions(t0, t);
        let sel0 = positions(t0, t);
        let rows0 = rows_at(b0, sel0);
        let local0 = positions(keys_of(rows0), key);
        lemma_positions(keys_of(rows0), key);
        if tags.last() == t {
            let r = BuildRow { id: (build.len() - 1) as usize, key: build.last() };
            assert(rows =~= rows0.push(r));
            assert(keys_of(rows) =~= keys_of(rows0).push(r.key));
            lemma_positions_push(keys_of(rows0), r.key, key);
            if build.last() == key {
                assert(local == local0.push(rows0.len() as usize));
                assert(ids_at(rows, local) =~= ids_at(rows0, local0).push(r.id));
            } else {
                assert(ids_at(rows, local) =~= ids_at(rows0, local0));
            }
        } else {
            assert(rows =~= rows0);
            assert(ids_at(rows, local) =~= ids_at(rows0, local0));
        }
    }
}

/// Whether two pairs of sides have their keys equal in the same places:
/// rows of the one pair have equal keys exactly where the rows of the other
/// have.
pub open spec fn same_pattern<K, L>(build: Seq<K>, probe: Seq<K>, other_build: Seq<L>, other_probe: Seq<L>) -> bool {
    &&& build.len() == other_build.len()
    &&& probe.len() == other_probe.len()
    &&& forall|i: int, j: int| 0 <= i < build.len() && 0 <= j < probe.len() ==> (build[i] == probe[j]) == (other_build[i] == other_probe[j])
}

/// Two sequences that agree on where a value stands select the same
/// positions for it.
pub proof fn lemma_same_positions<K, L>(a: Seq<K>, x: K, b: Seq<L>, y: L)
    requires
        a.len() == b.len(),
        forall|i: int| 0 <= i < a.len() ==> (a[i] == x) == (b[i] == y),
    ensures
        positions(a, x) == positions(b, y),
    decreases a.len(),
{
    if a.len() > 0 {
        lemma_same_positions(a.drop_last(), x, b.drop_last(), y);
    }
}

/// A join sees of its keys only which are equal: two pairs of sides whose
/// keys are equal in the same places have the same result.
pub proof fn lemma_same_pattern_same_join<K, L>(kind: JoinKind, build: Seq<K>, probe: Seq<K>, other_build: Seq<L>, other_probe: Seq<L>)
    requires
        same_pattern(build, probe, other_build, other_probe),
    ensures
        join_result(kind, build, probe) == join_result(kind, other_build, other_probe),
{
    let po = probe_outputs(kind, build, probe);
    let qo = probe_outputs(kind, other_build, other_probe);
    assert forall|j: int| 0 <= j < probe.len() implies po[j] == qo[j] by {
        lemma_same_positions(build, probe[j], other_build, other_probe[j]);
    }
    assert(po =~= qo);
    let bo = build_outputs(kind, build, probe);
    let co = build_outputs(kind, other_build, other_probe);
    assert forall|i: int| 0 <= i < build.len() implies bo[i] == co[i] by {
        if probe.contains(build[i]) {
            let j = choose|j: int| 0 <= j < probe.len() && probe[j] == build[i];
            assert(other_probe[j] == other_build[i]);
        }
        if other_probe.contains(other_build[i]) {
            let j = choose|j: int| 0 <= j < other_probe.len() && other_probe[j] == other_build[i];
            assert(probe[j] == build[i]);
        }
    }
    assert(bo =~= co);
}

} // verus!
