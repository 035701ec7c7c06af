//! Joining blocks: from key columns to keys, through the hash join, to a
//! block of output rows.

use vstd::prelude::*;
use vstd::multiset::Multiset;
use vstd::seq_lib::to_multiset_contains;
use crate::datavalues::{DataBlock, DataColumn, DataValue, Scalar};
use crate::error::ErrorCode;
use crate::hash_join::{run_hash_join, HashJoinConfig};
use crate::join_spec::{
    build_emit, build_outputs, join_result, lemma_same_pattern_same_join, probe_emit, probe_outputs, JoinedPair,
};
use crate::join_keys::{number_keys, offsets_usable, side_keys};
use crate::plan::JoinKind;
use crate::selection::{lemma_positions, msum};

verus! {

/// A row of `n` nulls.
pub open spec fn null_row(n: nat) -> Seq<Scalar> {
    Seq::new(n, |c: int| Scalar::Null)
}

/// The output row of a pair: the probe row's cells, then the build row's
/// cells, nulls standing in for a missing side.
pub open spec fn joined_row(pair: JoinedPair, probe: DataBlock, build: DataBlock) -> Seq<Scalar> {
    let left = match pair.probe {
        Some(j) => probe.row(j as int),
        None => null_row(probe.columns@.len()),
    };
    let right = match pair.build {
        Some(i) => build.row(i as int),
        None => null_row(build.columns@.len()),
    };
    left + right
}

/// Whether both row numbers of every pair exist.
pub open spec fn pairs_in_range(pairs: Seq<JoinedPair>, probe_rows: nat, build_rows: nat) -> bool {
    forall|x: int| 0 <= x < pairs.len() ==> {
        &&& (#[trigger] pairs[x]).probe matches Some(j) ==> j < probe_rows
        &&& pairs[x].build matches Some(i) ==> i < build_rows
    }
}

/// The cells of a column at the given rows, a null where no row is given.
pub fn take_or_null(column: &DataColumn, rows: &Vec<Option<usize>>) -> (c: DataColumn)
    requires
        column.well_formed(),
        forall|x: int| 0 <= x < rows@.len() ==> ((#[trigger] rows@[x]) matches Some(r) ==> r < column.values@.len()),
    ensures
        c.well_formed(),
        c.data_type == column.data_type,
        c.values@.len() == rows@.len(),
        forall|x: int| 0 <= x < rows@.len() ==> (#[trigger] c.values@[x])@ == (match rows@[x] {
            Some(r) => column.values@[r as int]@,
            None => Scalar::Null,
        }),
{
    let mut values: Vec<DataValue> = Vec::with_capacity(rows.len());
    let mut x: usize = 0;
    while x < rows.len()
        invariant
            x <= rows@.len(),
            column.well_formed(),
            forall|y: int| 0 <= y < rows@.len() ==> ((#[trigger] rows@[y]) matches Some(r) ==> r < column.values@.len()),
            values@.len() == x,
            forall|y: int| 0 <= y < x ==> (#[trigger] values@[y])@ == (match rows@[y] {
                Some(r) => column.values@[r as int]@,
                None => Scalar::Null,
            }),
            forall|y: int| 0 <= y < x ==> (#[trigger] values@[y])@.fits(column.data_type),
        decreases rows@.len() - x,
    {
        match rows[x] {
            Some(r) => {
                assert(column.values@[r as int]@.fits(column.data_type));
                values.push(column.values[r].duplicate());
            },
            None => {
                values.push(DataValue::Null);
            },
        }
        x += 1;
    }
    DataColumn { data_type: column.data_type, values }
}

/// The output rows of a list of pairs as a block: the probe side's
/// columns, then the build side's columns.
pub fn materialize(pairs: &Vec<JoinedPair>, probe: &DataBlock, build: &DataBlock) -> (out: DataBlock)
    requires
        probe.well_formed(),
        build.well_formed(),
        pairs_in_range(pairs@, probe.num_rows as nat, build.num_rows as nat),
    ensures
        out.well_formed(),
        out.num_rows == pairs@.len(),
        out.types() == probe.types() + build.types(),
        out.rows() == Seq::new(pairs@.len(), |x: int| joined_row(pairs@[x], *probe, *build)),
{
    let n = pairs.len();
    let mut left: Vec<Option<usize>> = Vec::with_capacity(n);
    let mut right: Vec<Option<usize>> = Vec::with_capacity(n);
    let mut x: usize = 0;
    while x < n
        invariant
            x <= n,
            n == pairs@.len(),
            left@.len() == x,
            right@.len() == x,
            forall|y: int| 0 <= y < x ==> (#[trigger] left@[y]) == pairs@[y].probe,
            forall|y: int| 0 <= y < x ==> (#[trigger] right@[y]) == pairs@[y].build,
        decreases n - x,
    {
        left.push(pairs[x].probe);
        right.push(pairs[x].build);
        x += 1;
    }
    let np = probe.columns.len();
    let nb = build.columns.len();
    let mut columns: Vec<DataColumn> = Vec::new();
    let mut c: usize = 0;
    while c < np
        invariant
            c <= np,
            np == probe.columns@.len(),
            n == pairs@.len(),
            probe.well_formed(),
            pairs_in_range(pairs@, probe.num_rows as nat, build.num_rows as nat),
            left@.len() == n,
            forall|y: int| 0 <= y < n ==> (#[trigger] left@[y]) == pairs@[y].probe,
            columns@.len() == c,
            forall|d: int| 0 <= d < c ==> {
                &&& (#[trigger] columns@[d]).well_formed()
                &&& columns@[d].data_type == probe.columns@[d].data_type
                &&& columns@[d].values@.len() == n
                &&& forall|y: int| 0 <= y < n ==> (#[trigger] columns@[d].values@[y])@ == (match pairs@[y].probe {
                    Some(r) => probe.columns@[d].values@[r as int]@,
                    None => Scalar::Null,
                })
            },
        decreases np - c,
    {
        assert(probe.columns@[c as int].well_formed());
        assert forall|y: int| 0 <= y < left@.len() implies ((#[trigger] left@[y]) matches Some(r) ==> r < probe.columns@[c as int].values@.len()) by {
            assert(left@[y] == pairs@[y].probe);
        }
        let col = take_or_null(&probe.columns[c], &left);
        columns.push(col);
        c += 1;
    }
    let mut d: usize = 0;
    while d < nb
        invariant
            d <= nb,
            np == probe.columns@.len(),
            nb == build.columns@.len(),
            n == pairs@.len(),
            build.well_formed(),
            pairs_in_range(pairs@, probe.num_rows as nat, build.num_rows as nat),
            right@.len() == n,
            forall|y: int| 0 <= y < n ==> (#[trigger] right@[y]) == pairs@[y].build,
            columns@.len() == np + d,
            forall|e: int| 0 <= e < np ==> {
                &&& (#[trigger] columns@[e]).well_formed()
                &&& columns@[e].data_type == probe.columns@[e].data_type
                &&& columns@[e].values@.len() == n
                &&& forall|y: int| 0 <= y < n ==> (#[trigger] columns@[e].values@[y])@ == (match pairs@[y].probe {
                    Some(r) => probe.columns@[e].values@[r as int]@,
                    None => Scalar::Null,
                })
            },
            forall|e: int| 0 <= e < d ==> {
                &&& (#[trigger] columns@[np + e]).well_formed()
                &&& columns@[np + e].data_type == build.columns@[e].data_type
                &&& columns@[np + e].values@.len() == n
                &&& forall|y: int| 0 <= y < n ==> (#[trigger] columns@[np + e].values@[y])@ == (match pairs@[y].build {
                    Some(r) => build.columns@[e].values@[r as int]@,
                    None => Scalar::Null,
                })
            },
        decreases nb - d,
    {
        assert(build.columns@[d as int].well_formed());
        assert forall|y: int| 0 <= y < right@.len() implies ((#[trigger] right@[y]) matches Some(r) ==> r < build.columns@[d as int].values@.len()) by {
            assert(right@[y] == pairs@[y].build);
        }
        let col = take_or_null(&build.columns[d], &right);
        let ghost before = columns@;
        columns.push(col);
        proof {
            assert forall|e: int| 0 <= e < np implies {
                &&& (#[trigger] columns@[e]).well_formed()
                &&& columns@[e].data_type == probe.columns@[e].data_type
                &&& columns@[e].values@.len() == n
                &&& forall|y: int| 0 <= y < n ==> (#[trigger] columns@[e].values@[y])@ == (match pairs@[y].probe {
                    Some(r) => probe.columns@[e].values@[r as int]@,
                    None => Scalar::Null,
                })
            } by {
                assert(columns@[e] == before[e]);
            }
            assert forall|e: int| 0 <= e < d + 1 implies {
                &&& (#[trigger] columns@[np + e]).well_formed()
                &&& columns@[np + e].data_type == build.columns@[e].data_type
                &&& columns@[np + e].values@.len() == n
                &&& forall|y: int| 0 <= y < n ==> (#[trigger] columns@[np + e].values@[y])@ == (match pairs@[y].build {
                    Some(r) => build.columns@[e].values@[r as int]@,
                    None => Scalar::Null,
                })
            } by {
                if e < d {
                    assert(columns@[np + e] == before[np + e]);
                }
            }
        }
        d += 1;
    }
    let out = DataBlock { columns, num_rows: n };
    proof {
        assert forall|e: int| 0 <= e < out.columns@.len() implies (#[trigger] out.columns@[e]).well_formed() && out.columns@[e].values@.len() == out.num_rows by {
            if e >= np {
                assert(out.columns@[np + (e - np)].well_formed());
            }
        }
        assert forall|e: int| 0 <= e < out.columns@.len() implies out.types()[e] == (probe.types() + build.types())[e] by {
            if e >= np {
                assert(out.columns@[np + (e - np)].data_type == build.columns@[e - np].data_type);
            }
        }
        assert(out.types() =~= probe.types() + build.types());
        let want = Seq::new(pairs@.len(), |x: int| joined_row(pairs@[x], *probe, *build));
        assert forall|y: int| 0 <= y < n implies out.rows()[y] == want[y] by {
            let row = joined_row(pairs@[y], *probe, *build);
            assert(out.row(y).len() == row.len());
            assert forall|e: int| 0 <= e < out.columns@.len() implies out.row(y)[e] == row[e] by {
                if e < np {
                    assert(out.columns@[e].values@[y]@ == (match pairs@[y].probe {
                        Some(r) => probe.columns@[e].values@[r as int]@,
                        None => Scalar::Null,
                    }));
                } else {
                    assert(out.columns@[np + (e - np)].values@[y]@ == (match pairs@[y].build {
                        Some(r) => build.columns@[e - np].values@[r as int]@,
                        None => Scalar::Null,
                    }));
                }
            }
            assert(out.row(y) =~= row);
        }
        assert(out.rows() =~= want);
    }
    out
}

/// Whatever is in a union is in one of its parts.
pub proof fn lemma_msum_member<A>(vals: Seq<Multiset<A>>, x: A)
    requires
        msum(vals).count(x) > 0,
    ensures
        exists|i: int| 0 <= i < vals.len() && (#[trigger] vals[i]).count(x) > 0,
    decreases vals.len(),
{
    if vals.len() > 0 {
        if vals.last().count(x) > 0 {
            assert(vals[vals.len() - 1].count(x) > 0);
        } else {
            lemma_msum_member(vals.drop_last(), x);
            let i = choose|i: int| 0 <= i < vals.drop_last().len() && (#[trigger] vals.drop_last()[i]).count(x) > 0;
            assert(vals[i].count(x) > 0);
        }
    }
}

/// Every row of a join's result is put together from rows that exist.
pub proof fn lemma_join_result_in_range<K>(kind: JoinKind, build: Seq<K>, probe: Seq<K>, x: JoinedPair)
    requires
        join_result(kind, build, probe).count(x) > 0,
        build.len() <= usize::MAX,
        probe.len() <= usize::MAX,
    ensures
        x.probe matches Some(j) ==> j < probe.len(),
        x.build matches Some(i) ==> i < build.len(),
{
    broadcast use to_multiset_contains;

    let po = probe_outputs(kind, build, probe);
    let bo = build_outputs(kind, build, probe);
    if msum(po).count(x) > 0 {
        lemma_msum_member(po, x);
        let j = choose|j: int| 0 <= j < po.len() && (#[trigger] po[j]).count(x) > 0;
        let emitted = probe_emit(kind, build, j as usize, probe[j]);
        assert(emitted.contains(x));
        let k = choose|k: int| 0 <= k < emitted.len() && emitted[k] == x;
        lemma_positions(build, probe[j]);
    } else {
        assert(msum(bo).count(x) > 0);
        lemma_msum_member(bo, x);
        let i = choose|i: int| 0 <= i < bo.len() && (#[trigger] bo[i]).count(x) > 0;
        let emitted = build_emit(kind, probe, i as usize, build[i]);
        assert(emitted.contains(x));
        let k = choose|k: int| 0 <= k < emitted.len() && emitted[k] == x;
    }
}

/// What a join of two blocks gives: the pairs of rows that were joined,
/// and the output rows themselves.
#[derive(Debug)]
pub struct JoinOutput {
    pub pairs: Vec<JoinedPair>,
    pub block: DataBlock,
}

/// Joins two blocks on the key columns given for each side. The key
/// columns may be of any type; a row with a null in its key matches no
/// row. The two key lists must have the same length and name columns that
/// exist.
pub fn hash_join_blocks(config: HashJoinConfig, build: &DataBlock, build_keys: &Vec<usize>, probe: &DataBlock, probe_keys: &Vec<usize>) -> (r: Result<JoinOutput, ErrorCode>)
    requires
        build.well_formed(),
        probe.well_formed(),
    ensures
        ({
            let usable = offsets_usable(*build, build_keys@, *probe, probe_keys@);
            let countable = build.num_rows + probe.num_rows <= u64::MAX;
            let starved = config.over_limit(build.num_rows as nat) && !config.spilling;
            &&& !usable ==> r.is_err() && r.unwrap_err() == ErrorCode::ConfigurationError
            &&& usable && !countable ==> r.is_err() && r.unwrap_err() == ErrorCode::ResourceExhausted
            &&& usable && countable && !config.valid() ==> r.is_err() && r.unwrap_err() == ErrorCode::ConfigurationError
            &&& usable && countable && config.valid() && starved ==> r.is_err() && r.unwrap_err() == ErrorCode::ResourceExhausted
            &&& usable && countable && config.valid() && !starved ==> r.is_ok()
        }),
        r matches Ok(out) ==> {
            &&& out.pairs@.to_multiset() == join_result(
                config.kind,
                side_keys(*build, build_keys@, true),
                side_keys(*probe, probe_keys@, false),
            )
            &&& pairs_in_range(out.pairs@, probe.num_rows as nat, build.num_rows as nat)
            &&& out.block.well_formed()
            &&& out.block.types() == probe.types() + build.types()
            &&& out.block.rows() == Seq::new(out.pairs@.len(), |x: int| joined_row(out.pairs@[x], *probe, *build))
        },
{
    let (build_numbers, probe_numbers) = match number_keys(build, build_keys, probe, probe_keys) {
        Ok(numbers) => numbers,
        Err(e) => {
            return Err(e);
        },
    };
    let pairs = match run_hash_join(config, &build_numbers, &probe_numbers) {
        Ok(p) => p,
        Err(e) => {
            return Err(e);
        },
    };
    proof {
        broadcast use to_multiset_contains;

        lemma_same_pattern_same_join(
            config.kind,
            build_numbers@,
            probe_numbers@,
            side_keys(*build, build_keys@, true),
            side_keys(*probe, probe_keys@, false),
        );
        assert forall|x: int| 0 <= x < pairs@.len() implies {
            &&& (#[trigger] pairs@[x]).probe matches Some(j) ==> j < probe.num_rows as nat
            &&& pairs@[x].build matches Some(i) ==> i < build.num_rows as nat
        } by {
            assert(pairs@.contains(pairs@[x]));
            lemma_join_result_in_range(config.kind, build_numbers@, probe_numbers@, pairs@[x]);
        }
    }
    let block = materialize(&pairs, probe, build);
    Ok(JoinOutput { pairs, block })
}

} // verus!
