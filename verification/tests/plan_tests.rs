use std::sync::Arc;

use query_pipeline::builder_join::{join_config, PipelineBuilder, Settings};
use query_pipeline::hash_join::{run_hash_join, HashJoinConfig};
use query_pipeline::datavalues::{DataBlock, DataColumn, DataField, DataType, DataValue};
use query_pipeline::error::ErrorCode;
use query_pipeline::pipeline::{
    FinishHook, PipeItem, Pipeline, ProcessorDesc, ProcessorKind,
};
use query_pipeline::plan::{
    AggregatorFinalPlan, Expression, GrpcConfig, HashJoin, JoinKind, PhysicalPlan, RangeJoin,
    StagePlan, StageState, Statistics, TableScan,
};

fn field(name: &str, t: DataType) -> DataField {
    DataField::new(name.to_string(), t)
}

fn scan(plan_id: u32, parallelism: usize, fields: &[(&str, DataType)]) -> PhysicalPlan {
    PhysicalPlan::TableScan(TableScan {
        plan_id,
        parallelism,
        schema: fields.iter().map(|(n, t)| field(n, *t)).collect(),
    })
}

fn join(kind: JoinKind, build: PhysicalPlan, probe: PhysicalPlan) -> HashJoin {
    HashJoin {
        plan_id: 7,
        build: Box::new(build),
        probe: Box::new(probe),
        build_keys: vec![0],
        probe_keys: vec![0],
        build_projections: vec![1],
        probe_projections: vec![0, 1],
        join_type: kind,
        non_equi_conditions: 0,
        contain_runtime_filter: false,
        need_hold_hash_table: false,
    }
}

fn settings(threshold: Option<usize>) -> Settings {
    Settings {
        max_threads: 8,
        max_block_size: 1000,
        join_spilling_threshold: threshold,
        join_spill_partitions: 4,
        join_hash_seed: 17,
    }
}

fn desc(kind: ProcessorKind, plan_id: u32, profiled: bool, spilling: bool) -> ProcessorDesc {
    ProcessorDesc { kind, plan_id, profiled, spilling }
}

#[test]
fn grpc_limits() {
    assert_eq!(GrpcConfig::MAX_ENCODING_SIZE, 16 * 1024 * 1024);
    assert_eq!(GrpcConfig::MAX_DECODING_SIZE, 16777216);
}

#[test]
fn stage_plan_schema_is_the_inputs_schema() {
    let input = scan(1, 2, &[("k", DataType::UInt64), ("v", DataType::Binary)]);
    let stage = StagePlan { state: StageState::GroupByMerge, input: Arc::new(input) };
    assert_eq!(stage.schema(), vec![field("k", DataType::UInt64), field("v", DataType::Binary)]);
    assert_eq!(stage.state, StageState::GroupByMerge);
}

#[test]
fn aggregator_final_plan_schema_and_input() {
    let mut plan = AggregatorFinalPlan {
        aggr_expr: vec![Expression::Column(1)],
        group_expr: vec![Expression::Constant(DataValue::UInt(1))],
        schema: vec![field("sum", DataType::UInt64)],
        schema_before_groupby: vec![field("v", DataType::UInt32)],
        input: Arc::new(scan(1, 1, &[])),
    };
    assert_eq!(plan.schema(), vec![field("sum", DataType::UInt64)]);
    plan.set_input(scan(2, 4, &[("v", DataType::UInt32)]));
    match &*plan.input {
        PhysicalPlan::TableScan(s) => {
            assert_eq!(s.plan_id, 2);
            assert_eq!(s.parallelism, 4);
        }
        _ => panic!("the input was not replaced"),
    }
    assert_eq!(plan.schema_before_groupby, vec![field("v", DataType::UInt32)]);
}

#[test]
fn statistics_setters() {
    let mut s = Statistics::new_estimated(10, 2000);
    assert_eq!((s.read_rows, s.read_bytes, s.is_exact), (10, 2000, false));
    assert!(s.count.is_none() && s.min.is_none() && s.max.is_none());
    s.set_exact_count(DataValue::UInt(10));
    assert!(s.is_exact);
    assert_eq!(s.count, Some(DataValue::UInt(10)));
    s.set_exact_min(DataValue::UInt(1));
    s.set_exact_max(DataValue::UInt(9));
    assert_eq!(s.min, Some(DataValue::UInt(1)));
    assert_eq!(s.max, Some(DataValue::UInt(9)));
    assert_eq!(s.read_rows, 10);
    s.clear();
    assert_eq!((s.read_rows, s.read_bytes, s.is_exact), (0, 0, false));
    assert!(s.count.is_none() && s.min.is_none() && s.max.is_none());
}

#[test]
fn join_output_schema_by_kind() {
    let build = || scan(1, 2, &[("k", DataType::UInt64), ("b", DataType::Binary)]);
    let probe = || scan(2, 3, &[("k", DataType::UInt64), ("p", DataType::UInt8)]);
    let inner = join(JoinKind::Inner, build(), probe());
    assert_eq!(
        inner.output_schema(),
        vec![field("k", DataType::UInt64), field("p", DataType::UInt8), field("b", DataType::Binary)]
    );
    let semi = join(JoinKind::LeftSemi, build(), probe());
    assert_eq!(semi.output_schema(), vec![field("k", DataType::UInt64), field("p", DataType::UInt8)]);
    let anti = join(JoinKind::RightAnti, build(), probe());
    assert_eq!(anti.output_schema(), vec![field("b", DataType::Binary)]);
    let range = PhysicalPlan::RangeJoin(RangeJoin { plan_id: 3, left: Box::new(probe()), right: Box::new(build()) });
    assert_eq!(range.output_schema().len(), 4);
}

#[test]
fn data_block_construction() {
    let a = DataColumn::new(DataType::UInt8, vec![DataValue::UInt(1), DataValue::Null]).unwrap();
    let b = DataColumn::new(DataType::Binary, vec![DataValue::Binary(vec![1])]).unwrap();
    assert_eq!(DataBlock::new(vec![a.clone(), b]).err(), Some(ErrorCode::ConfigurationError));
    assert_eq!(
        DataColumn::new(DataType::UInt8, vec![DataValue::UInt(256)]).err(),
        Some(ErrorCode::ConfigurationError)
    );
    assert_eq!(
        DataColumn::new(DataType::UInt8, vec![DataValue::Binary(vec![])]).err(),
        Some(ErrorCode::ConfigurationError)
    );
    assert_eq!(
        DataColumn::new(DataType::Binary, vec![DataValue::UInt(1)]).err(),
        Some(ErrorCode::ConfigurationError)
    );
    let block = DataBlock::new(vec![a.clone()]).unwrap();
    assert_eq!(block.num_rows(), 2);
    assert_eq!(block.num_columns(), 1);
    assert!(block.is_well_formed());
    assert_eq!(block.get_by_offset(0), &a);
    let taken = block.take(&vec![1, 1, 0]);
    assert_eq!(taken.columns[0].values, vec![DataValue::Null, DataValue::Null, DataValue::UInt(1)]);
    assert_eq!(block.duplicate(), block);
    assert_eq!(DataBlock::empty().num_rows(), 0);
    assert_eq!(DataBlock::new(vec![]).unwrap().num_rows(), 0);
    let bad = DataBlock { columns: vec![a.clone()], num_rows: 5 };
    assert!(!bad.is_well_formed());
    let rep = DataColumn::repeat(&DataValue::UInt(3), 4, DataType::UInt16);
    assert_eq!(rep.values, vec![DataValue::UInt(3); 4]);
    assert_eq!(DataType::UInt32.numeric_byte_size(), Ok(4));
    assert_eq!(DataType::Binary.numeric_byte_size(), Err(ErrorCode::ConfigurationError));
    assert!(DataType::UInt8.is_integer() && !DataType::Binary.is_integer());
    assert!(DataValue::Binary(vec![1, 2]).same(&DataValue::Binary(vec![1, 2])));
    assert!(!DataValue::Binary(vec![1, 2]).same(&DataValue::Binary(vec![1, 3])));
    assert!(!DataValue::Null.same(&DataValue::UInt(0)));
}

#[test]
fn pipeline_layers_and_resize() {
    let mut p = Pipeline::create();
    assert_eq!(p.output_len(), 0);
    assert_eq!(p.is_pulling_pipeline(), Err(ErrorCode::InternalInvariantViolation));
    assert_eq!(p.try_resize(4), Err(ErrorCode::ConfigurationError));
    p.add_source(desc(ProcessorKind::Source, 1, false, false), 3).unwrap();
    assert_eq!(p.add_source(desc(ProcessorKind::Source, 1, false, false), 3), Err(ErrorCode::ConfigurationError));
    assert_eq!(p.output_len(), 3);
    assert_eq!(p.is_pulling_pipeline(), Ok(true));
    assert_eq!(p.is_complete_pipeline(), Ok(false));
    // same width: nothing is inserted
    p.try_resize(3).unwrap();
    assert_eq!(p.pipes.len(), 1);
    assert_eq!(p.try_resize(0), Err(ErrorCode::ConfigurationError));
    // another width: one redistribution stage
    p.try_resize(8).unwrap();
    assert_eq!(p.pipes.len(), 2);
    assert_eq!(
        p.pipes[1].items,
        vec![PipeItem { processor: desc(ProcessorKind::Resize, 0, false, false), inputs: 3, outputs: 8 }]
    );
    assert_eq!((p.pipes[1].input_length, p.pipes[1].output_length), (3, 8));
    p.add_transform(desc(ProcessorKind::Scatter, 2, false, false)).unwrap();
    assert_eq!(p.pipes[2].items.len(), 8);
    assert_eq!(p.output_len(), 8);
    p.duplicate(5).unwrap();
    assert_eq!(p.output_len(), 16);
    assert_eq!(p.pipes[3].items[0].outputs, 2);
    p.add_sink(desc(ProcessorKind::CommitSink, 0, false, false)).unwrap();
    assert_eq!(p.output_len(), 0);
    assert_eq!(p.is_complete_pipeline(), Ok(true));
    assert_eq!(p.is_pulling_pipeline(), Ok(false));
    assert_eq!(p.on_finished, None);
    p.set_on_finished(FinishHook::CopyCommitted { copied_files: 2, purge: true });
    assert_eq!(p.on_finished, Some(FinishHook::CopyCommitted { copied_files: 2, purge: true }));
}

#[test]
fn build_join_sizes_barriers_by_worker_count() {
    let plan = PhysicalPlan::HashJoin(join(
        JoinKind::Inner,
        scan(1, 5, &[("k", DataType::UInt64), ("b", DataType::Binary)]),
        scan(2, 3, &[("k", DataType::UInt64), ("p", DataType::UInt8)]),
    ));
    let mut b = PipelineBuilder::create(settings(Some(1024)), false);
    b.build_pipeline(&plan).unwrap();
    // main pipeline: the probe side, 3 wide, ending in probe processors
    assert_eq!(b.main_pipeline.output_len(), 3);
    let last = b.main_pipeline.pipes.last().unwrap();
    assert_eq!(last.items.len(), 3);
    assert_eq!(last.items[0].processor, desc(ProcessorKind::HashJoinProbe, 7, false, true));
    // the build side is a pipeline of its own, 5 wide, ending in build sinks
    assert_eq!(b.pipelines.len(), 1);
    let build_last = b.pipelines[0].pipes.last().unwrap();
    assert_eq!(build_last.items.len(), 5);
    assert_eq!(build_last.items[0].processor, desc(ProcessorKind::HashJoinBuild, 7, false, true));
    assert_eq!(b.pipelines[0].is_complete_pipeline(), Ok(true));
    // barriers wait for exactly the workers of their side
    assert_eq!(b.build_states.len(), 1);
    assert_eq!(
        (b.build_states[0].workers, b.build_states[0].build_barrier, b.build_states[0].restore_barrier, b.build_states[0].spill_coordinator_workers),
        (5, 5, 5, 5)
    );
    assert_eq!(b.probe_states.len(), 1);
    let ps = b.probe_states[0];
    assert_eq!((ps.workers, ps.probe_barrier, ps.restore_barrier), (3, 3, 3));
    assert_eq!(ps.max_block_size, 1000);
    assert!(ps.has_string_column);
    assert!(!ps.has_non_equi_conditions);
    assert_eq!(ps.join_type, JoinKind::Inner);
    assert!(b.join_state.is_none());
    assert!(b.probe_data_fields.is_none());
}

#[test]
fn build_join_without_spilling_and_with_profiling() {
    let plan = PhysicalPlan::HashJoin(join(
        JoinKind::Left,
        scan(1, 2, &[("k", DataType::UInt64), ("b", DataType::UInt8)]),
        scan(2, 4, &[("k", DataType::UInt64), ("p", DataType::UInt8)]),
    ));
    let mut b = PipelineBuilder::create(settings(None), true);
    b.build_pipeline(&plan).unwrap();
    let layers = &b.main_pipeline.pipes;
    let n = layers.len();
    assert_eq!(layers[n - 1].items[0].processor, desc(ProcessorKind::ProfileStub, 7, true, false));
    assert_eq!(layers[n - 2].items[0].processor, desc(ProcessorKind::HashJoinProbe, 7, true, false));
    assert_eq!(layers[n - 1].items.len(), 4);
    let build_last = b.pipelines[0].pipes.last().unwrap();
    assert_eq!(build_last.items[0].processor, desc(ProcessorKind::HashJoinBuild, 7, true, false));
    assert!(!b.probe_states[0].has_string_column);
}

#[test]
fn build_join_runtime_filter_and_held_hash_table() {
    let mut j = join(
        JoinKind::Inner,
        scan(1, 2, &[("k", DataType::UInt64), ("b", DataType::UInt8)]),
        scan(2, 4, &[("k", DataType::UInt64), ("p", DataType::UInt8)]),
    );
    j.contain_runtime_filter = true;
    j.need_hold_hash_table = true;
    j.non_equi_conditions = 2;
    let mut b = PipelineBuilder::create(settings(Some(5)), false);
    b.build_pipeline(&PhysicalPlan::HashJoin(j)).unwrap();
    // the build side is duplicated, not sunk
    assert_eq!(b.pipelines[0].output_len(), 4);
    assert_eq!(b.pipelines[0].pipes.last().unwrap().items[0].processor.kind, ProcessorKind::Duplicate);
    assert_eq!(b.index, Some(0));
    assert_eq!(b.join_state.map(|s| s.workers), Some(2));
    assert_eq!(
        b.probe_data_fields,
        Some(vec![field("k", DataType::UInt64), field("p", DataType::UInt8)])
    );
    assert!(b.probe_states[0].has_non_equi_conditions);
}

#[test]
fn build_join_fails_fast_on_a_malformed_plan() {
    let mut j = join(JoinKind::Inner, scan(1, 2, &[]), scan(2, 4, &[]));
    j.probe_keys = vec![0, 1];
    let mut b = PipelineBuilder::create(settings(Some(5)), false);
    assert_eq!(b.build_pipeline(&PhysicalPlan::HashJoin(j)), Err(ErrorCode::ConfigurationError));
    assert_eq!(b.pipelines.len(), 0);
    assert_eq!(b.main_pipeline.pipes.len(), 0);
    // a scan without outputs
    let j = join(JoinKind::Inner, scan(1, 0, &[]), scan(2, 4, &[]));
    let mut b = PipelineBuilder::create(settings(Some(5)), false);
    assert_eq!(b.build_pipeline(&PhysicalPlan::HashJoin(j)), Err(ErrorCode::ConfigurationError));
}

#[test]
fn build_range_join_resizes_the_left_side() {
    let plan = PhysicalPlan::RangeJoin(RangeJoin {
        plan_id: 9,
        left: Box::new(scan(1, 3, &[("a", DataType::UInt8)])),
        right: Box::new(scan(2, 2, &[("b", DataType::UInt8)])),
    });
    let mut b = PipelineBuilder::create(settings(None), true);
    b.build_pipeline(&plan).unwrap();
    assert_eq!(b.main_pipeline.output_len(), 8);
    let kinds: Vec<ProcessorKind> = b.main_pipeline.pipes.iter().map(|p| p.items[0].processor.kind).collect();
    assert_eq!(
        kinds,
        vec![ProcessorKind::Source, ProcessorKind::Resize, ProcessorKind::RangeJoinLeft, ProcessorKind::ProfileStub]
    );
    assert_eq!(b.pipelines.len(), 1);
    let right_last = b.pipelines[0].pipes.last().unwrap();
    assert_eq!(right_last.items.len(), 2);
    assert_eq!(right_last.items[0].processor, desc(ProcessorKind::RangeJoinRight, 9, true, false));
    // no threads to resize to
    let mut none =
        PipelineBuilder::create(Settings { max_threads: 0, ..settings(None) }, false);
    assert_eq!(none.build_pipeline(&plan), Err(ErrorCode::ConfigurationError));
}

#[test]
fn nested_joins_keep_every_side_pipeline() {
    let inner = PhysicalPlan::HashJoin(join(
        JoinKind::Inner,
        scan(1, 2, &[("k", DataType::UInt64), ("b", DataType::UInt8)]),
        scan(2, 3, &[("k", DataType::UInt64), ("p", DataType::UInt8)]),
    ));
    let outer = PhysicalPlan::HashJoin(join(JoinKind::Inner, inner, scan(3, 6, &[("k", DataType::UInt64), ("q", DataType::UInt8)])));
    let b = PipelineBuilder::create(settings(Some(1)), false);
    let (res, rest) = b.finalize(&outer).unwrap();
    assert_eq!(res.main_pipeline.output_len(), 6);
    assert_eq!(res.sources_pipelines.len(), 2);
    // the outer build side is the inner join's probe pipeline, 3 wide
    assert_eq!(res.sources_pipelines[0].pipes.last().unwrap().items.len(), 3);
    assert_eq!(rest.build_states.len(), 2);
    assert_eq!(rest.build_states[0].workers, 2);
    assert_eq!(rest.build_states[1].workers, 3);
    assert_eq!(rest.probe_states.len(), 2);
    assert_eq!(rest.probe_states[1].workers, 6);
}

#[test]
fn a_threshold_of_zero_forces_the_spill() {
    let plan = PhysicalPlan::HashJoin(join(
        JoinKind::Inner,
        scan(1, 2, &[("k", DataType::UInt64), ("b", DataType::UInt8)]),
        scan(2, 3, &[("k", DataType::UInt64), ("p", DataType::UInt8)]),
    ));
    let mut b = PipelineBuilder::create(settings(Some(0)), false);
    b.build_pipeline(&plan).unwrap();
    // every build sink and every probe processor may spill
    let build_last = b.pipelines[0].pipes.last().unwrap();
    assert!(build_last.items.iter().all(|i| i.processor == desc(ProcessorKind::HashJoinBuild, 7, false, true)));
    let probe_last = b.main_pipeline.pipes.last().unwrap();
    assert!(probe_last.items.iter().all(|i| i.processor == desc(ProcessorKind::HashJoinProbe, 7, false, true)));
    // and the join that runs for these records spills every build row
    let config = join_config(&b.build_states[0], &b.probe_states[0], &b.settings).unwrap();
    assert_eq!(
        config,
        HashJoinConfig {
            kind: JoinKind::Inner,
            build_workers: 2,
            probe_workers: 3,
            partitions: 4,
            seed: 17,
            memory_limit: Some(0),
            spilling: true,
        }
    );
    assert_eq!(run_hash_join(config, &vec![1, 2], &vec![1, 3]).map(|out| out.len()), Ok(1));
    // without a threshold nothing may spill
    let mut off = PipelineBuilder::create(settings(None), false);
    off.build_pipeline(&plan).unwrap();
    let config = join_config(&off.build_states[0], &off.probe_states[0], &off.settings).unwrap();
    assert_eq!((config.memory_limit, config.spilling), (None, false));
    // records of two different joins do not go together
    let mut other = off.probe_states[0];
    other.plan_id = 8;
    assert_eq!(join_config(&off.build_states[0], &other, &off.settings), Err(ErrorCode::ConfigurationError));
}

#[test]
fn building_counts_the_side_pipelines_and_keeps_them_on_failure() {
    // the probe side fails after the build side was kept
    let j = join(JoinKind::Inner, scan(1, 2, &[]), scan(2, 0, &[]));
    let mut b = PipelineBuilder::create(settings(None), false);
    assert_eq!(b.build_pipeline(&PhysicalPlan::HashJoin(j)), Err(ErrorCode::ConfigurationError));
    assert_eq!(b.pipelines.len(), 1);
    // the build side fails: nothing was kept
    let j = join(JoinKind::Inner, scan(1, 0, &[]), scan(2, 2, &[]));
    let mut b = PipelineBuilder::create(settings(None), false);
    let state = b.build_join_state(&j).unwrap();
    assert_eq!(b.expand_build_side_pipeline(&j.build, &j, &state), Err(ErrorCode::ConfigurationError));
    assert_eq!(b.pipelines.len(), 0);
    assert!(b.join_state.is_none() && b.index.is_none());
    assert_eq!(b.build_states.len(), 0);
    // a scan builds one layer of sources
    let mut b = PipelineBuilder::create(settings(None), false);
    b.build_pipeline(&scan(5, 3, &[])).unwrap();
    assert_eq!(b.main_pipeline.pipes.len(), 1);
    assert_eq!(
        b.main_pipeline.pipes[0].items,
        vec![PipeItem { processor: desc(ProcessorKind::Source, 5, false, false), inputs: 0, outputs: 1 }; 3]
    );
    // without a held hash table the probe fields stay as they were
    let j = join(JoinKind::Inner, scan(1, 2, &[]), scan(2, 2, &[("k", DataType::UInt64)]));
    let mut b = PipelineBuilder::create(settings(None), false);
    b.probe_data_fields = Some(vec![field("kept", DataType::UInt8)]);
    b.build_pipeline(&PhysicalPlan::HashJoin(j)).unwrap();
    assert_eq!(b.probe_data_fields, Some(vec![field("kept", DataType::UInt8)]));
}
