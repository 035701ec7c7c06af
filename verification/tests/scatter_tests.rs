use query_pipeline::datavalues::{DataBlock, DataColumn, DataType, DataValue};
use query_pipeline::error::ErrorCode;
use query_pipeline::port::{Batch, Event, PartitionBlock};
use query_pipeline::scatter::{
    channel_indices, partition_indices, scatter_to_channels, TransformWindowPartitionScatter,
};

fn lcg_keys(n: usize, mut state: u64) -> Vec<u64> {
    let mut keys = Vec::with_capacity(n);
    for _ in 0..n {
        state = state.wrapping_mul(6364136223846793005).wrapping_add(1442695040888963407);
        keys.push(state >> 11);
    }
    keys
}

fn key_block(keys: &[u64]) -> DataBlock {
    let values: Vec<DataValue> = keys.iter().map(|k| DataValue::UInt(*k)).collect();
    let payload: Vec<DataValue> = keys
        .iter()
        .map(|k| DataValue::Binary(format!("row{}", k).into_bytes()))
        .collect();
    let key_col = DataColumn::new(DataType::UInt64, values).unwrap();
    let pay_col = DataColumn::new(DataType::Binary, payload).unwrap();
    DataBlock::new(vec![key_col, pay_col]).unwrap()
}

fn rows_in(channels: &[Vec<PartitionBlock>]) -> usize {
    channels
        .iter()
        .map(|parts| parts.iter().map(|p| p.block.num_rows()).sum::<usize>())
        .sum()
}

#[test]
fn scatter_conserves_rows() {
    for (k, m) in [(1usize, 1usize), (4, 2), (7, 3), (3, 5), (16, 4)] {
        let keys = lcg_keys(257, 42);
        let block = key_block(&keys);
        let tags = partition_indices(&block, &vec![0], 0, k);
        let out = scatter_to_channels(&block, &tags, k, m);
        assert_eq!(out.len(), m);
        assert_eq!(rows_in(&out), 257);
    }
}

#[test]
fn scatter_of_an_empty_block_gives_empty_partitions() {
    let block = key_block(&[]);
    let tags = partition_indices(&block, &vec![0], 0, 4);
    let out = scatter_to_channels(&block, &tags, 4, 2);
    assert_eq!(rows_in(&out), 0);
    assert_eq!(out[0].len(), 2);
    assert_eq!(out[1].len(), 2);
}

#[test]
fn equal_keys_land_in_the_same_partition() {
    let keys = vec![5u64, 9, 5, 1, 9, 5, 1000, 1];
    let block = key_block(&keys);
    for k in 1usize..20 {
        let tags = partition_indices(&block, &vec![0], 7, k);
        for a in 0..keys.len() {
            assert!(tags[a] < k);
            for b in 0..keys.len() {
                if keys[a] == keys[b] {
                    assert_eq!(tags[a], tags[b]);
                }
            }
        }
    }
}

#[test]
fn partitions_go_round_robin_to_channels() {
    assert_eq!(channel_indices(5, 2), vec![0, 1, 0, 1, 0]);
    let keys = lcg_keys(100, 3);
    let block = key_block(&keys);
    let tags = partition_indices(&block, &vec![0], 0, 5);
    let out = scatter_to_channels(&block, &tags, 5, 2);
    let ids0: Vec<usize> = out[0].iter().map(|p| p.partition_id).collect();
    let ids1: Vec<usize> = out[1].iter().map(|p| p.partition_id).collect();
    assert_eq!(ids0, vec![0, 2, 4]);
    assert_eq!(ids1, vec![1, 3]);
}

#[test]
fn scattered_partitions_hold_exactly_their_rows_in_input_order() {
    let keys = lcg_keys(50, 11);
    let block = key_block(&keys);
    let tags = partition_indices(&block, &vec![0], 0, 4);
    let out = scatter_to_channels(&block, &tags, 4, 2);
    for parts in out.iter() {
        for part in parts.iter() {
            let want: Vec<DataValue> = keys
                .iter()
                .zip(tags.iter())
                .filter(|(_, t)| **t == part.partition_id)
                .map(|(k, _)| DataValue::UInt(*k))
                .collect();
            assert_eq!(part.block.columns[0].values, want);
            assert_eq!(part.block.columns.len(), 2);
        }
    }
}

#[test]
fn scatter_k4_m2_thousand_keys_is_deterministic() {
    let keys = lcg_keys(1000, 2024);
    let block = key_block(&keys);
    let first = partition_indices(&block, &vec![0], 99, 4);
    let second = partition_indices(&block, &vec![0], 99, 4);
    assert_eq!(first, second);
    let out = scatter_to_channels(&block, &first, 4, 2);
    let again = scatter_to_channels(&block, &second, 4, 2);
    assert_eq!(out, again);
    assert_eq!(out.len(), 2);
    for (c, parts) in out.iter().enumerate() {
        assert_eq!(parts.len(), 2);
        let rows: usize = parts.iter().map(|p| p.block.num_rows()).sum();
        assert!(rows > 0);
        for part in parts.iter() {
            assert_eq!(part.partition_id % 2, c);
        }
    }
    assert_eq!(rows_in(&out), 1000);
    // the same keys cut into different blocks get the same partitions
    let head = key_block(&keys[..300]);
    let head_tags = partition_indices(&head, &vec![0], 99, 4);
    assert_eq!(&first[..300], &head_tags[..]);
}

#[test]
fn another_seed_gives_another_assignment() {
    let keys = lcg_keys(200, 5);
    let block = key_block(&keys);
    let a = partition_indices(&block, &vec![0], 1, 8);
    let b = partition_indices(&block, &vec![0], 2, 8);
    assert_ne!(a, b);
}

#[test]
fn scatter_rejects_zero_counts() {
    assert_eq!(
        TransformWindowPartitionScatter::new(0, 4, vec![0]).err(),
        Some(ErrorCode::ConfigurationError)
    );
    assert_eq!(
        TransformWindowPartitionScatter::new(2, 0, vec![0]).err(),
        Some(ErrorCode::ConfigurationError)
    );
    assert!(TransformWindowPartitionScatter::new(2, 4, vec![0]).is_ok());
}

#[test]
fn scatter_processor_walks_through_its_events() {
    let mut t = TransformWindowPartitionScatter::new(2, 4, vec![0]).unwrap().with_hash_seed(99);
    assert_eq!(t.name(), "TransformWindowPartitionScatter");
    // first poll: asks for data
    assert_eq!(t.event(), Ok(Event::NeedData));
    assert!(t.input_port.can_push());
    // outputs were not asked for data yet: blocked on the consumers
    assert_eq!(t.event(), Ok(Event::NeedConsume));
    assert_eq!(t.event(), Ok(Event::NeedConsume));
    for p in t.output_ports.iter_mut() {
        p.set_need_data();
    }
    // nothing to do until the producer pushes
    assert_eq!(t.event(), Ok(Event::NeedData));
    assert_eq!(t.event(), Ok(Event::NeedData));
    let keys = lcg_keys(1000, 2024);
    t.input_port.push_data(Ok(Batch::Rows(key_block(&keys))));
    assert_eq!(t.event(), Ok(Event::Sync));
    assert_eq!(t.process(), Ok(()));
    assert_eq!(t.output_data_blocks[0].len(), 1);
    assert_eq!(t.output_data_blocks[1].len(), 1);
    // the batches go out, one per channel
    assert_eq!(t.event(), Ok(Event::NeedConsume));
    // polling again changes nothing
    assert_eq!(t.event(), Ok(Event::NeedConsume));
    let mut total = 0;
    for (c, p) in t.output_ports.iter_mut().enumerate() {
        match p.pull_data() {
            Some(Ok(Batch::Partitions(parts))) => {
                assert_eq!(parts.len(), 2);
                for part in parts.iter() {
                    assert_eq!(part.partition_id % 2, c);
                    total += part.block.num_rows();
                }
            }
            other => panic!("unexpected packet {:?}", other),
        }
        p.set_need_data();
    }
    assert_eq!(total, 1000);
    assert_eq!(t.event(), Ok(Event::NeedData));
    t.input_port.finish();
    assert_eq!(t.event(), Ok(Event::Finished));
    assert!(t.output_ports.iter().all(|p| p.is_finished()));
    assert_eq!(t.event(), Ok(Event::Finished));
}

#[test]
fn scatter_finishes_when_all_outputs_are_closed() {
    let mut t = TransformWindowPartitionScatter::new(3, 3, vec![0]).unwrap();
    assert_eq!(t.event(), Ok(Event::NeedData));
    for p in t.output_ports.iter_mut() {
        p.finish();
    }
    assert_eq!(t.event(), Ok(Event::Finished));
    assert!(t.input_port.is_finished());
}

#[test]
fn scatter_hands_an_upstream_error_on() {
    let mut t = TransformWindowPartitionScatter::new(1, 2, vec![0]).unwrap();
    assert_eq!(t.event(), Ok(Event::NeedData));
    t.output_ports[0].set_need_data();
    t.input_port.push_data(Err(ErrorCode::IOError));
    assert_eq!(t.event(), Err(ErrorCode::IOError));
}

#[test]
fn scatter_rejects_a_control_batch_on_its_input() {
    let mut t = TransformWindowPartitionScatter::new(1, 2, vec![0]).unwrap();
    assert_eq!(t.event(), Ok(Event::NeedData));
    t.output_ports[0].set_need_data();
    t.input_port.push_data(Ok(Batch::Partitions(vec![])));
    assert_eq!(t.event(), Err(ErrorCode::InternalInvariantViolation));
}

#[test]
fn scatter_process_rejects_a_missing_key_column() {
    let mut t = TransformWindowPartitionScatter::new(1, 2, vec![5]).unwrap();
    assert_eq!(t.event(), Ok(Event::NeedData));
    t.output_ports[0].set_need_data();
    t.input_port.push_data(Ok(Batch::Rows(key_block(&[1, 2, 3]))));
    assert_eq!(t.event(), Ok(Event::Sync));
    assert_eq!(t.process(), Err(ErrorCode::ConfigurationError));
    assert_eq!(t.input_data_blocks.len(), 0);
    assert_eq!(t.output_data_blocks[0].len(), 0);
}

#[test]
fn scatter_process_without_input_does_nothing() {
    let mut t = TransformWindowPartitionScatter::new(2, 2, vec![0]).unwrap();
    assert_eq!(t.process(), Ok(()));
    assert_eq!(t.output_data_blocks[0].len(), 0);
}

#[test]
fn scatter_finish_closes_every_port() {
    let mut t = TransformWindowPartitionScatter::new(2, 2, vec![0]).unwrap();
    assert_eq!(t.finish(), Ok(Event::Finished));
    assert!(t.input_port.is_finished());
    assert!(t.output_ports.iter().all(|p| p.is_finished()));
}

#[test]
fn where_a_block_is_cut_does_not_show_in_its_partitions() {
    let keys = lcg_keys(1000, 77);
    let whole = key_block(&keys);
    let tags = partition_indices(&whole, &vec![0], 5, 4);
    let all = scatter_to_channels(&whole, &tags, 4, 2);
    for cut in [0usize, 1, 333, 999, 1000] {
        let head = key_block(&keys[..cut]);
        let tail = key_block(&keys[cut..]);
        let first = scatter_to_channels(&head, &partition_indices(&head, &vec![0], 5, 4), 4, 2);
        let second = scatter_to_channels(&tail, &partition_indices(&tail, &vec![0], 5, 4), 4, 2);
        for c in 0..2 {
            for i in 0..2 {
                assert_eq!(all[c][i].partition_id, first[c][i].partition_id);
                let mut rows = first[c][i].block.columns[0].values.clone();
                rows.extend(second[c][i].block.columns[0].values.iter().cloned());
                assert_eq!(all[c][i].block.columns[0].values, rows);
            }
        }
    }
}
