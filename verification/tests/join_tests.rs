use query_pipeline::barrier::BarrierWait;
use query_pipeline::datavalues::{DataBlock, DataColumn, DataType, DataValue};
use query_pipeline::error::ErrorCode;
use query_pipeline::hash_join::{
    run_hash_join, HashJoinConfig, HashJoinState, JoinPhase, PartitionState,
};
use query_pipeline::join_keys::{keys_equal, number_keys};
use query_pipeline::join_output::{hash_join_blocks, materialize};
use query_pipeline::join_spec::JoinedPair;
use query_pipeline::join_table::{key_slot, BuildRow, JoinHashTable};
use query_pipeline::plan::JoinKind;
use query_pipeline::spill_codec::{decode_rows, encode_rows};

fn config(kind: JoinKind, memory_limit: Option<usize>, spilling: bool) -> HashJoinConfig {
    HashJoinConfig {
        kind,
        build_workers: 2,
        probe_workers: 3,
        partitions: 4,
        seed: 17,
        memory_limit,
        spilling,
    }
}

fn pair(p: Option<usize>, b: Option<usize>) -> JoinedPair {
    JoinedPair { probe: p, build: b }
}

fn sorted(mut pairs: Vec<JoinedPair>) -> Vec<(Option<usize>, Option<usize>)> {
    let mut v: Vec<(Option<usize>, Option<usize>)> = pairs.drain(..).map(|p| (p.probe, p.build)).collect();
    v.sort();
    v
}

fn text(s: &str) -> DataValue {
    DataValue::Binary(s.as_bytes().to_vec())
}

fn side(rows: &[(u64, &str)]) -> DataBlock {
    let keys: Vec<DataValue> = rows.iter().map(|r| DataValue::UInt(r.0)).collect();
    let names: Vec<DataValue> = rows.iter().map(|r| text(r.1)).collect();
    DataBlock::new(vec![
        DataColumn::new(DataType::UInt64, keys).unwrap(),
        DataColumn::new(DataType::Binary, names).unwrap(),
    ])
    .unwrap()
}

fn rows_of(block: &DataBlock) -> Vec<Vec<DataValue>> {
    let mut rows: Vec<Vec<DataValue>> = (0..block.num_rows())
        .map(|r| block.columns.iter().map(|c| c.values[r].clone()).collect())
        .collect();
    rows.sort_by(|a, b| format!("{:?}", a).cmp(&format!("{:?}", b)));
    rows
}

/// The textbook nested-loop join, to compare against.
fn reference_join(kind: JoinKind, build: &[u64], probe: &[u64]) -> Vec<(Option<usize>, Option<usize>)> {
    let mut out = Vec::new();
    for (j, pk) in probe.iter().enumerate() {
        let matches: Vec<usize> = build.iter().enumerate().filter(|(_, bk)| *bk == pk).map(|(i, _)| i).collect();
        match kind {
            JoinKind::Inner | JoinKind::Right => {
                for i in matches {
                    out.push((Some(j), Some(i)));
                }
            }
            JoinKind::Left | JoinKind::Full => {
                if matches.is_empty() {
                    out.push((Some(j), None));
                }
                for i in matches {
                    out.push((Some(j), Some(i)));
                }
            }
            JoinKind::LeftSemi => {
                if !matches.is_empty() {
                    out.push((Some(j), None));
                }
            }
            JoinKind::LeftAnti => {
                if matches.is_empty() {
                    out.push((Some(j), None));
                }
            }
            JoinKind::RightSemi | JoinKind::RightAnti => {}
        }
    }
    for (i, bk) in build.iter().enumerate() {
        let hit = probe.contains(bk);
        match kind {
            JoinKind::Right | JoinKind::Full | JoinKind::RightAnti => {
                if !hit {
                    out.push((None, Some(i)));
                }
            }
            JoinKind::RightSemi => {
                if hit {
                    out.push((None, Some(i)));
                }
            }
            _ => {}
        }
    }
    out.sort();
    out
}

const ALL_KINDS: [JoinKind; 8] = [
    JoinKind::Inner,
    JoinKind::Left,
    JoinKind::Right,
    JoinKind::Full,
    JoinKind::LeftSemi,
    JoinKind::LeftAnti,
    JoinKind::RightSemi,
    JoinKind::RightAnti,
];

#[test]
fn inner_join_no_spill_scenario() {
    let build = side(&[(1, "a"), (2, "b")]);
    let probe = side(&[(1, "x"), (3, "y")]);
    let out = hash_join_blocks(config(JoinKind::Inner, None, false), &build, &vec![0], &probe, &vec![0]).unwrap();
    assert_eq!(out.pairs, vec![pair(Some(0), Some(0))]);
    // probe columns first, then build columns: (1, "x", 1, "a")
    assert_eq!(
        rows_of(&out.block),
        vec![vec![DataValue::UInt(1), text("x"), DataValue::UInt(1), text("a")]]
    );
    // as (key, build payload, probe payload): (1, "a", "x")
    let row = &rows_of(&out.block)[0];
    assert_eq!((row[0].clone(), row[3].clone(), row[1].clone()), (DataValue::UInt(1), text("a"), text("x")));
}

#[test]
fn left_join_forced_spill_scenario() {
    let build = side(&[(1, "a"), (2, "b")]);
    let probe = side(&[(1, "x"), (3, "y")]);
    // "Left" keeps every probe row.
    let forced = config(JoinKind::Left, Some(0), true);
    let out = hash_join_blocks(forced, &build, &vec![0], &probe, &vec![0]).unwrap();
    assert_eq!(
        rows_of(&out.block),
        vec![
            vec![DataValue::UInt(1), text("x"), DataValue::UInt(1), text("a")],
            vec![DataValue::UInt(3), text("y"), DataValue::Null, DataValue::Null],
        ]
    );
    // the same join without spilling gives the same rows
    let plain = hash_join_blocks(config(JoinKind::Left, None, false), &build, &vec![0], &probe, &vec![0]).unwrap();
    assert_eq!(rows_of(&plain.block), rows_of(&out.block));
}

#[test]
fn build_outer_join_forced_spill_scenario() {
    let build = side(&[(1, "a"), (2, "b")]);
    let probe = side(&[(1, "x"), (3, "y")]);
    // "Right" keeps every build row: (1,"a","x") and the unmatched (2,"b",NULL).
    let forced = config(JoinKind::Right, Some(0), true);
    let out = hash_join_blocks(forced, &build, &vec![0], &probe, &vec![0]).unwrap();
    assert_eq!(
        rows_of(&out.block),
        vec![
            vec![DataValue::Null, DataValue::Null, DataValue::UInt(2), text("b")],
            vec![DataValue::UInt(1), text("x"), DataValue::UInt(1), text("a")],
        ]
    );
}

#[test]
fn every_join_kind_matches_the_nested_loop_join() {
    let build: Vec<u64> = vec![1, 2, 2, 5, 7, 7, 7, 9];
    let probe: Vec<u64> = vec![2, 3, 7, 7, 10, 1, 2];
    for kind in ALL_KINDS {
        let out = run_hash_join(config(kind, None, false), &build, &probe).unwrap();
        assert_eq!(sorted(out), reference_join(kind, &build, &probe), "{:?}", kind);
    }
}

#[test]
fn join_kinds_on_the_scenario_inputs() {
    let build: Vec<u64> = vec![1, 2];
    let probe: Vec<u64> = vec![1, 3];
    let run = |kind| sorted(run_hash_join(config(kind, None, false), &build, &probe).unwrap());
    assert_eq!(run(JoinKind::Inner), vec![(Some(0), Some(0))]);
    assert_eq!(run(JoinKind::Left), vec![(Some(0), Some(0)), (Some(1), None)]);
    assert_eq!(run(JoinKind::Right), vec![(None, Some(1)), (Some(0), Some(0))]);
    assert_eq!(run(JoinKind::Full), vec![(None, Some(1)), (Some(0), Some(0)), (Some(1), None)]);
    assert_eq!(run(JoinKind::LeftSemi), vec![(Some(0), None)]);
    assert_eq!(run(JoinKind::LeftAnti), vec![(Some(1), None)]);
    assert_eq!(run(JoinKind::RightSemi), vec![(None, Some(0))]);
    assert_eq!(run(JoinKind::RightAnti), vec![(None, Some(1))]);
}

#[test]
fn spilling_does_not_change_the_result() {
    let mut build: Vec<u64> = Vec::new();
    let mut probe: Vec<u64> = Vec::new();
    let mut s: u64 = 12345;
    for _ in 0..300 {
        s = s.wrapping_mul(6364136223846793005).wrapping_add(1442695040888963407);
        build.push((s >> 33) % 64);
        s = s.wrapping_mul(6364136223846793005).wrapping_add(1442695040888963407);
        probe.push((s >> 33) % 80);
    }
    for kind in ALL_KINDS {
        let plain = sorted(run_hash_join(config(kind, None, false), &build, &probe).unwrap());
        assert_eq!(plain, reference_join(kind, &build, &probe));
        for limit in [0usize, 1, 50, 150, 299, 300, 1000] {
            let spilled = sorted(run_hash_join(config(kind, Some(limit), true), &build, &probe).unwrap());
            assert_eq!(plain, spilled, "{:?} limit {}", kind, limit);
        }
        let mut other = config(kind, Some(10), true);
        other.partitions = 13;
        other.seed = 1;
        other.build_workers = 1;
        other.probe_workers = 1;
        assert_eq!(plain, sorted(run_hash_join(other, &build, &probe).unwrap()));
    }
}

#[test]
fn join_of_empty_sides() {
    for kind in ALL_KINDS {
        assert_eq!(run_hash_join(config(kind, Some(0), true), &vec![], &vec![]).unwrap(), vec![]);
        let only_probe = sorted(run_hash_join(config(kind, Some(0), true), &vec![], &vec![4, 4]).unwrap());
        assert_eq!(only_probe, reference_join(kind, &[], &[4, 4]));
        let only_build = sorted(run_hash_join(config(kind, Some(0), true), &vec![4, 4], &vec![]).unwrap());
        assert_eq!(only_build, reference_join(kind, &[4, 4], &[]));
    }
}

#[test]
fn join_without_spilling_fails_over_the_memory_limit() {
    let r = run_hash_join(config(JoinKind::Inner, Some(2), false), &vec![1, 2, 3], &vec![1]);
    assert_eq!(r, Err(ErrorCode::ResourceExhausted));
    let ok = run_hash_join(config(JoinKind::Inner, Some(3), false), &vec![1, 2, 3], &vec![1]);
    assert_eq!(ok, Ok(vec![pair(Some(0), Some(0))]));
}

#[test]
fn join_rejects_a_bad_configuration() {
    let mut c = config(JoinKind::Inner, None, false);
    c.partitions = 0;
    assert_eq!(run_hash_join(c, &vec![1], &vec![1]), Err(ErrorCode::ConfigurationError));
    let mut c = config(JoinKind::Inner, None, false);
    c.build_workers = 0;
    assert!(HashJoinState::create(c).is_err());
    let mut c = config(JoinKind::Inner, None, false);
    c.probe_workers = 0;
    assert_eq!(run_hash_join(c, &vec![1], &vec![1]), Err(ErrorCode::ConfigurationError));
}

#[test]
fn join_rejects_mismatched_key_column_counts() {
    let build = side(&[(1, "a")]);
    let probe = side(&[(1, "x")]);
    let r = hash_join_blocks(config(JoinKind::Inner, None, false), &build, &vec![0], &probe, &vec![]);
    assert_eq!(r.err(), Some(ErrorCode::ConfigurationError));
    // a key column that does not exist
    let r = hash_join_blocks(config(JoinKind::Inner, None, false), &build, &vec![4], &probe, &vec![0]);
    assert_eq!(r.err(), Some(ErrorCode::ConfigurationError));
    let r = hash_join_blocks(config(JoinKind::Inner, None, false), &build, &vec![0], &probe, &vec![2]);
    assert_eq!(r.err(), Some(ErrorCode::ConfigurationError));
}

#[test]
fn join_on_byte_string_keys() {
    let build = side(&[(1, "ann"), (2, "bob"), (3, "ann"), (4, "")]);
    let probe = side(&[(10, "bob"), (11, "ann"), (12, "eve"), (13, "")]);
    for limit in [None, Some(0)] {
        let out = hash_join_blocks(config(JoinKind::Full, limit, true), &build, &vec![1], &probe, &vec![1]).unwrap();
        assert_eq!(
            sorted(out.pairs),
            vec![
                (Some(0), Some(1)),
                (Some(1), Some(0)),
                (Some(1), Some(2)),
                (Some(2), None),
                (Some(3), Some(3)),
            ]
        );
    }
    // on both columns at once
    let out = hash_join_blocks(config(JoinKind::Inner, None, false), &build, &vec![0, 1], &build, &vec![0, 1]).unwrap();
    assert_eq!(sorted(out.pairs), vec![(Some(0), Some(0)), (Some(1), Some(1)), (Some(2), Some(2)), (Some(3), Some(3))]);
}

#[test]
fn a_null_key_matches_nothing() {
    let keyed = |keys: Vec<DataValue>| {
        DataBlock::new(vec![DataColumn::new(DataType::UInt32, keys).unwrap()]).unwrap()
    };
    let build = keyed(vec![DataValue::UInt(1), DataValue::Null, DataValue::Null, DataValue::UInt(2)]);
    let probe = keyed(vec![DataValue::Null, DataValue::UInt(1), DataValue::UInt(3)]);
    let run = |kind| sorted(hash_join_blocks(config(kind, Some(1), true), &build, &vec![0], &probe, &vec![0]).unwrap().pairs);
    assert_eq!(run(JoinKind::Inner), vec![(Some(1), Some(0))]);
    assert_eq!(run(JoinKind::Left), vec![(Some(0), None), (Some(1), Some(0)), (Some(2), None)]);
    assert_eq!(run(JoinKind::RightAnti), vec![(None, Some(1)), (None, Some(2)), (None, Some(3))]);
    assert_eq!(run(JoinKind::LeftSemi), vec![(Some(1), None)]);
    // the numbers: a build row gets the number of the first build row with its key
    let twice = keyed(vec![DataValue::UInt(7), DataValue::UInt(8), DataValue::UInt(7), DataValue::Null]);
    let (b, p) = number_keys(&twice, &vec![0], &probe, &vec![0]).unwrap();
    assert_eq!(b, vec![0, 1, 0, 3]);
    assert_eq!(p, vec![4, 5, 6]);
    assert!(keys_equal(&twice, &vec![0], 0, &twice, &vec![0], 2));
    assert!(!keys_equal(&twice, &vec![0], 0, &twice, &vec![0], 1));
}

#[test]
fn no_probe_before_the_last_build_worker_arrives() {
    let mut c = config(JoinKind::Inner, None, false);
    c.build_workers = 3;
    let mut join = HashJoinState::create(c).unwrap();
    assert_eq!(join.phase(), JoinPhase::Empty);
    assert!(!join.can_probe());
    join.add_build_rows(&vec![1, 2]).unwrap();
    assert_eq!(join.phase(), JoinPhase::Building);
    assert_eq!(join.finish_build(), Ok(BarrierWait::Waiting));
    assert_eq!(join.finish_build(), Ok(BarrierWait::Waiting));
    // two of three workers have arrived; the third is late
    assert!(!join.can_probe());
    assert_eq!(join.probe(&vec![1, 5]), Err(ErrorCode::InternalInvariantViolation));
    assert_eq!(join.finish_probe().err(), Some(ErrorCode::InternalInvariantViolation));
    assert_eq!(join.restore_next(), Err(ErrorCode::InternalInvariantViolation));
    assert_eq!(join.phase(), JoinPhase::Building);
    // the late worker still adds rows, then arrives
    join.add_build_rows(&vec![5, 5]).unwrap();
    assert_eq!(join.finish_build(), Ok(BarrierWait::Leader));
    assert_eq!(join.phase(), JoinPhase::Built);
    assert!(join.can_probe());
    // the probe sees the rows of every worker, the late one's too
    let out = join.probe(&vec![1, 5]).unwrap();
    assert_eq!(sorted(out), vec![(Some(0), Some(0)), (Some(1), Some(2)), (Some(1), Some(3))]);
    // no build row can be added any more
    assert_eq!(join.add_build_rows(&vec![9]), Err(ErrorCode::InternalInvariantViolation));
    assert_eq!(join.finish_build(), Err(ErrorCode::InternalInvariantViolation));
}

#[test]
fn join_walks_through_its_phases_with_spilling() {
    let mut c = config(JoinKind::Full, Some(0), true);
    c.build_workers = 1;
    c.probe_workers = 2;
    let mut join = HashJoinState::create(c).unwrap();
    let build: Vec<u64> = vec![10, 11, 12, 13, 14, 15, 16, 17, 10];
    let probe: Vec<u64> = vec![10, 12, 99, 17, 17];
    join.add_build_rows(&build).unwrap();
    assert_eq!(join.partition_state(0), None);
    assert_eq!(join.finish_build(), Ok(BarrierWait::Leader));
    let spilled = join.spilled_partitions();
    assert!(spilled >= 1 && spilled <= 4);
    let states: Vec<PartitionState> = (0..4).map(|p| join.partition_state(p).unwrap()).collect();
    assert_eq!(states.iter().filter(|s| **s == PartitionState::Spilled).count(), spilled);
    assert_eq!(join.partition_state(4), None);
    // with nothing in memory, only probe rows of empty partitions are answered at once
    let mut out = join.probe(&probe).unwrap();
    assert_eq!(join.phase(), JoinPhase::Probing);
    // passes cannot start before the probe barrier is released
    assert_eq!(join.restore_next(), Err(ErrorCode::InternalInvariantViolation));
    let (wait, more) = join.finish_probe().unwrap();
    assert_eq!(wait, BarrierWait::Waiting);
    assert!(more.is_empty());
    let (wait, mut more) = join.finish_probe().unwrap();
    assert_eq!(wait, BarrierWait::Leader);
    out.append(&mut more);
    assert!(!join.can_probe());
    assert_eq!(join.probe(&vec![1]), Err(ErrorCode::InternalInvariantViolation));
    for _ in 0..spilled {
        assert_eq!(join.phase(), JoinPhase::Probing);
        let mut more = join.restore_next().unwrap();
        out.append(&mut more);
    }
    assert_eq!(join.phase(), JoinPhase::Done);
    assert_eq!(join.restore_next(), Err(ErrorCode::InternalInvariantViolation));
    assert!((0..4).all(|p| join.partition_state(p) == Some(PartitionState::InMemory)));
    assert_eq!(sorted(out), reference_join(JoinKind::Full, &build, &probe));
}

#[test]
fn memory_limit_is_respected_after_the_spill_decision() {
    let build: Vec<u64> = (0..200).collect();
    for limit in [0usize, 10, 60, 120, 199] {
        let mut c = config(JoinKind::Inner, Some(limit), true);
        c.build_workers = 1;
        let mut join = HashJoinState::create(c).unwrap();
        join.add_build_rows(&build).unwrap();
        assert_eq!(join.finish_build(), Ok(BarrierWait::Leader));
        assert!(join.table.rows.len() <= limit);
        let spilled: usize = join.spill_area.iter().map(|bytes| bytes.len() / 16).sum();
        assert_eq!(join.table.rows.len() + spilled, 200);
        for bytes in join.spill_area.iter() {
            assert_eq!(encode_rows(&decode_rows(bytes).unwrap()), *bytes);
        }
    }
    // under the limit nothing is spilled
    let mut c = config(JoinKind::Inner, Some(200), true);
    c.build_workers = 1;
    let mut join = HashJoinState::create(c).unwrap();
    join.add_build_rows(&build).unwrap();
    join.finish_build().unwrap();
    assert_eq!(join.spilled_partitions(), 0);
    assert_eq!(join.table.rows.len(), 200);
}

#[test]
fn hash_table_finds_every_row_of_a_key() {
    let rows: Vec<BuildRow> = [3u64, 8, 3, 3, 9, 8]
        .iter()
        .enumerate()
        .map(|(i, k)| BuildRow { id: 100 + i, key: *k })
        .collect();
    for slots in [0usize, 1, 2, 7, 64] {
        let table = JoinHashTable::build(rows.clone(), 5, slots);
        assert_eq!(table.lookup(3), vec![0, 2, 3]);
        assert_eq!(table.lookup(8), vec![1, 5]);
        assert_eq!(table.lookup(9), vec![4]);
        assert_eq!(table.lookup(4), Vec::<usize>::new());
    }
}

#[test]
fn materialize_pads_missing_sides_with_nulls() {
    let build = side(&[(1, "a"), (2, "b")]);
    let probe = side(&[(7, "x")]);
    let pairs = vec![pair(Some(0), Some(1)), pair(None, Some(0)), pair(Some(0), None)];
    let out = materialize(&pairs, &probe, &build);
    assert_eq!(out.num_rows(), 3);
    assert_eq!(out.num_columns(), 4);
    assert_eq!(out.columns[0].values, vec![DataValue::UInt(7), DataValue::Null, DataValue::UInt(7)]);
    assert_eq!(out.columns[1].values, vec![text("x"), DataValue::Null, text("x")]);
    assert_eq!(out.columns[2].values, vec![DataValue::UInt(2), DataValue::UInt(1), DataValue::Null]);
    assert_eq!(out.columns[3].values, vec![text("b"), text("a"), DataValue::Null]);
    assert_eq!(out.columns[3].data_type, DataType::Binary);
}

#[test]
fn spilled_rows_round_trip_through_their_byte_form() {
    let rows = vec![
        BuildRow { id: 0, key: 0 },
        BuildRow { id: 1, key: u64::MAX },
        BuildRow { id: 0x0102_0304, key: 0x0a0b_0c0d_0e0f_1011 },
    ];
    let bytes = encode_rows(&rows);
    assert_eq!(bytes.len(), 48);
    assert_eq!(&bytes[32..40], &[4, 3, 2, 1, 0, 0, 0, 0]);
    assert_eq!(&bytes[40..48], &[0x11, 0x10, 0x0f, 0x0e, 0x0d, 0x0c, 0x0b, 0x0a]);
    assert_eq!(decode_rows(&bytes), Ok(rows));
    assert_eq!(decode_rows(&vec![]), Ok(vec![]));
    // bytes that are not whole rows did not come back as they were written
    assert_eq!(decode_rows(&bytes[..47].to_vec()), Err(ErrorCode::IOError));
    assert_eq!(decode_rows(&vec![0u8; 1]), Err(ErrorCode::IOError));
}

#[test]
fn a_join_restores_what_storage_hands_back() {
    let mut c = config(JoinKind::Inner, Some(0), true);
    c.build_workers = 1;
    c.probe_workers = 1;
    let build: Vec<u64> = (0..40).map(|k| k % 10).collect();
    let probe: Vec<u64> = vec![3, 3, 7, 11];
    let mut join = HashJoinState::create(c).unwrap();
    join.add_build_rows(&build).unwrap();
    join.finish_build().unwrap();
    // hand the spilled partitions to a store, leaving nothing behind
    let passes = join.spilled_partitions();
    assert!(passes > 0);
    let stored: Vec<Vec<u8>> = (0..passes).map(|q| join.take_spilled(q).unwrap()).collect();
    assert!(join.spill_area.iter().all(|b| b.is_empty()));
    assert!(stored.iter().all(|b| !b.is_empty()));
    // a partition cannot be taken twice, nor one that does not exist
    assert_eq!(join.take_spilled(0), Err(ErrorCode::InternalInvariantViolation));
    assert_eq!(join.take_spilled(passes), Err(ErrorCode::InternalInvariantViolation));
    let mut out = join.probe(&probe).unwrap();
    let (_, mut more) = join.finish_probe().unwrap();
    out.append(&mut more);
    // a pass cannot run while its partition is away
    assert_eq!(join.restore_next(), Err(ErrorCode::InternalInvariantViolation));
    for (q, bytes) in stored.into_iter().enumerate() {
        // bytes that cannot be what was taken are a failed read
        assert_eq!(join.put_spilled(q, bytes[..bytes.len() - 16].to_vec()), Err(ErrorCode::IOError));
        // a row whose key belongs to another pass
        let foreign = (0..256u64)
            .find(|k| join.pass_of_partition[key_slot(join.config.seed, *k, join.config.partitions)] != q + 1)
            .unwrap();
        let mut other = bytes.clone();
        other[8..16].copy_from_slice(&foreign.to_le_bytes());
        assert_eq!(join.put_spilled(q, other), Err(ErrorCode::IOError));
        // take the partition back before its pass
        assert_eq!(join.put_spilled(q, bytes), Ok(()));
        let mut more = join.restore_next().unwrap();
        out.append(&mut more);
    }
    assert_eq!(join.put_spilled(0, vec![]), Err(ErrorCode::InternalInvariantViolation));
    assert_eq!(join.phase(), JoinPhase::Done);
    assert_eq!(sorted(out), reference_join(JoinKind::Inner, &build, &probe));
}
