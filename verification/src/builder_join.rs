//! Turns join nodes of the operator graph into pipelines: the build (or
//! right) side becomes a pipeline of its own that ends in sinks, the probe
//! (or left) side continues the main pipeline, and the barriers of each
//! join are sized by the number of workers that will arrive at them.

use vstd::prelude::*;
use crate::datavalues::DataField;
use crate::error::ErrorCode;
use crate::hash_join::HashJoinConfig;
use crate::pipeline::{duplicate_desc, PipeItem, Pipeline, ProcessorDesc, ProcessorKind};
use crate::plan::{
    any_binary_field, has_binary_field, join_output_fields, output_fields, project_fields, projected,
    HashJoin, JoinKind, PhysicalPlan, RangeJoin,
};

verus! {

/// The settings the builder reads.
#[derive(Clone, Copy, Debug, PartialEq, Eq)]
pub struct Settings {
    pub max_threads: usize,
    pub max_block_size: usize,
    /// The number of build rows that a join may hold in memory before it
    /// spills; `None` switches spilling off. A threshold of 0 spills every
    /// build row.
    pub join_spilling_threshold: Option<usize>,
    /// The number of partitions that a join spills by.
    pub join_spill_partitions: usize,
    /// The seed of the hash that assigns rows to spill partitions.
    pub join_hash_seed: u64,
}

/// What all workers of one join share.
#[derive(Debug)]
pub struct JoinStateConfig {
    pub plan_id: u32,
    pub join_type: JoinKind,
    pub key_count: usize,
    pub build_fields: Vec<DataField>,
}

/// The shared state of a join's build workers. Both barriers wait for
/// `workers` arrivals.
#[derive(Clone, Copy, Debug, PartialEq, Eq, Structural)]
pub struct BuildStateConfig {
    pub plan_id: u32,
    pub workers: usize,
    pub build_barrier: usize,
    pub restore_barrier: usize,
    pub spill_coordinator_workers: usize,
}

/// The shared state of a join's probe workers.
#[derive(Clone, Copy, Debug, PartialEq, Eq, Structural)]
pub struct ProbeStateConfig {
    pub plan_id: u32,
    pub join_type: JoinKind,
    pub workers: usize,
    pub probe_barrier: usize,
    pub restore_barrier: usize,
    pub max_block_size: usize,
    pub has_non_equi_conditions: bool,
    pub has_string_column: bool,
}

/// What building a plan gives back.
#[derive(Debug)]
pub struct PipelineBuildResult {
    pub main_pipeline: Pipeline,
    pub sources_pipelines: Vec<Pipeline>,
}

/// Builds the pipelines of a plan.
#[derive(Debug)]
pub struct PipelineBuilder {
    pub settings: Settings,
    pub enable_profiling: bool,
    pub main_pipeline: Pipeline,
    pub pipelines: Vec<Pipeline>,
    pub build_states: Vec<BuildStateConfig>,
    pub probe_states: Vec<ProbeStateConfig>,
    pub join_state: Option<BuildStateConfig>,
    pub index: Option<usize>,
    pub probe_data_fields: Option<Vec<DataField>>,
}

/// The number of open outputs of the main pipeline once `plan` is built.
pub open spec fn plan_width(plan: PhysicalPlan, settings: Settings) -> usize
    decreases plan,
{
    match plan {
        PhysicalPlan::TableScan(scan) => scan.parallelism,
        PhysicalPlan::HashJoin(join) => plan_width(*join.probe, settings),
        PhysicalPlan::RangeJoin(_) => settings.max_threads,
    }
}

/// The first fault found when building `plan`, if any: a scan without
/// outputs, a join whose two key lists differ in length, a range join with
/// no threads to resize to, or a duplicated build side too wide to count.
pub open spec fn build_error(plan: PhysicalPlan, settings: Settings) -> Option<ErrorCode>
    decreases plan, 0nat,
{
    match plan {
        PhysicalPlan::TableScan(scan) => if scan.parallelism == 0 {
            Some(ErrorCode::ConfigurationError)
        } else {
            None
        },
        PhysicalPlan::HashJoin(join) => join_build_error(join, settings),
        PhysicalPlan::RangeJoin(join) => range_join_build_error(join, settings),
    }
}

/// The first fault found when building a hash join.
pub open spec fn join_build_error(join: HashJoin, settings: Settings) -> Option<ErrorCode>
    decreases join, 1nat,
{
    if join.build_keys@.len() != join.probe_keys@.len() {
        Some(ErrorCode::ConfigurationError)
    } else if build_error(*join.build, settings).is_some() {
        build_error(*join.build, settings)
    } else if join.contain_runtime_filter && 2 * plan_width(*join.build, settings) > usize::MAX {
        Some(ErrorCode::ResourceExhausted)
    } else {
        build_error(*join.probe, settings)
    }
}

/// The first fault found when building a range join.
pub open spec fn range_join_build_error(join: RangeJoin, settings: Settings) -> Option<ErrorCode>
    decreases join, 1nat,
{
    if build_error(*join.right, settings).is_some() {
        build_error(*join.right, settings)
    } else if build_error(*join.left, settings).is_some() {
        build_error(*join.left, settings)
    } else if settings.max_threads == 0 {
        Some(ErrorCode::ConfigurationError)
    } else {
        None
    }
}

/// The number of pipelines that building `plan` sets beside the main
/// pipeline: one for the build side of every hash join and for the right
/// side of every range join.
pub open spec fn side_pipelines(plan: PhysicalPlan) -> nat
    decreases plan,
{
    match plan {
        PhysicalPlan::TableScan(_) => 0,
        PhysicalPlan::HashJoin(join) => side_pipelines(*join.build) + 1 + side_pipelines(*join.probe),
        PhysicalPlan::RangeJoin(join) => side_pipelines(*join.right) + 1 + side_pipelines(*join.left),
    }
}

/// The last layer of the main pipeline once `plan` is built: the sources of
/// a scan; the probe processors of a hash join and the left-side processors
/// of a range join, or the profiling stub behind them.
pub open spec fn last_layer(plan: PhysicalPlan, settings: Settings, profiling: bool) -> Seq<PipeItem> {
    match plan {
        PhysicalPlan::TableScan(scan) => Seq::new(
            scan.parallelism as nat,
            |i: int| PipeItem { processor: desc(ProcessorKind::Source, scan.plan_id, false, false), inputs: 0, outputs: 1 },
        ),
        PhysicalPlan::HashJoin(join) => if profiling {
            transform_layer(desc(ProcessorKind::ProfileStub, join.plan_id, true, false), plan_width(plan, settings))
        } else {
            transform_layer(
                desc(ProcessorKind::HashJoinProbe, join.plan_id, false, settings.join_spilling_threshold.is_some()),
                plan_width(plan, settings),
            )
        },
        PhysicalPlan::RangeJoin(join) => if profiling {
            transform_layer(desc(ProcessorKind::ProfileStub, join.plan_id, true, false), settings.max_threads)
        } else {
            transform_layer(desc(ProcessorKind::RangeJoinLeft, join.plan_id, false, false), settings.max_threads)
        },
    }
}

/// The probe fields that the builder holds once `plan` is built, having
/// held `before`: the projected probe fields of the outermost hash join on
/// the main pipeline that holds its hash table, and `before` where there is
/// none.
pub open spec fn held_fields(plan: PhysicalPlan, before: Option<Seq<DataField>>) -> Option<Seq<DataField>>
    decreases plan,
{
    match plan {
        PhysicalPlan::TableScan(_) => before,
        PhysicalPlan::HashJoin(join) => if join.need_hold_hash_table {
            Some(projected(output_fields(*join.probe), join.probe_projections@))
        } else {
            held_fields(*join.probe, before)
        },
        PhysicalPlan::RangeJoin(join) => held_fields(*join.left, before),
    }
}

/// The fields of an optional list of fields.
pub open spec fn field_list(fields: Option<Vec<DataField>>) -> Option<Seq<DataField>> {
    match fields {
        Some(f) => Some(f@),
        None => None,
    }
}

/// A layer of `n` processors with one input and one output each.
pub open spec fn transform_layer(processor: ProcessorDesc, n: usize) -> Seq<PipeItem> {
    Seq::new(n as nat, |i: int| PipeItem { processor, inputs: 1, outputs: 1 })
}

/// A layer of `n` sinks.
pub open spec fn sink_layer(processor: ProcessorDesc, n: usize) -> Seq<PipeItem> {
    Seq::new(n as nat, |i: int| PipeItem { processor, inputs: 1, outputs: 0 })
}

/// The descriptor of a processor that works for plan node `plan_id`.
pub open spec fn desc(kind: ProcessorKind, plan_id: u32, profiled: bool, spilling: bool) -> ProcessorDesc {
    ProcessorDesc { kind, plan_id, profiled, spilling }
}

impl PipelineBuilder {
    /// Every pipeline held is well formed.
    pub open spec fn well_formed(&self) -> bool {
        &&& self.main_pipeline.well_formed()
        &&& forall|i: int| 0 <= i < self.pipelines@.len() ==> (#[trigger] self.pipelines@[i]).well_formed()
    }

    /// What a building step leaves alone: the settings, and everything
    /// recorded before it.
    pub open spec fn extends(&self, before: &PipelineBuilder) -> bool {
        &&& self.settings == before.settings
        &&& self.enable_profiling == before.enable_profiling
        &&& before.pipelines@.is_prefix_of(self.pipelines@)
        &&& before.build_states@.is_prefix_of(self.build_states@)
        &&& before.probe_states@.is_prefix_of(self.probe_states@)
    }

    /// What stands once `plan` was built from the state `before`: the main
    /// pipeline starts at sources, is as wide as the plan says and ends in
    /// the plan's last layer; the plan's side pipelines were added; and
    /// the probe fields held are those the plan asks for.
    pub open spec fn built_from(&self, before: &PipelineBuilder, plan: PhysicalPlan) -> bool {
        &&& self.main_pipeline.spec_is_pulling()
        &&& self.main_pipeline.spec_output_len() == plan_width(plan, before.settings)
        &&& self.main_pipeline.pipes@.last().items@ == last_layer(plan, before.settings, before.enable_profiling)
        &&& self.pipelines@.len() == before.pipelines@.len() + side_pipelines(plan)
        &&& field_list(self.probe_data_fields) == held_fields(plan, field_list(before.probe_data_fields))
    }

    /// A builder with nothing built yet.
    pub fn create(settings: Settings, enable_profiling: bool) -> (b: PipelineBuilder)
        ensures
            b.well_formed(),
            b.settings == settings,
            b.enable_profiling == enable_profiling,
            b.main_pipeline.pipes@.len() == 0,
            b.pipelines@.len() == 0,
            b.build_states@.len() == 0,
            b.probe_states@.len() == 0,
            b.join_state.is_none(),
            b.index.is_none(),
            b.probe_data_fields.is_none(),
    {
        PipelineBuilder {
            settings,
            enable_profiling,
            main_pipeline: Pipeline::create(),
            pipelines: Vec::new(),
            build_states: Vec::new(),
            probe_states: Vec::new(),
            join_state: None,
            index: None,
            probe_data_fields: None,
        }
    }

    /// Builds `plan` and hands the pipelines over.
    pub fn finalize(self, plan: &PhysicalPlan) -> (r: Result<(PipelineBuildResult, PipelineBuilder), ErrorCode>)
        requires
            self.well_formed(),
            self.main_pipeline.pipes@.len() == 0,
        ensures
            r.is_ok() <==> build_error(*plan, self.settings).is_none(),
            r matches Err(e) ==> build_error(*plan, self.settings) == Some(e),
            r matches Ok((res, rest)) ==> {
                &&& res.main_pipeline.well_formed()
                &&& res.main_pipeline.spec_is_pulling()
                &&& res.main_pipeline.spec_output_len() == plan_width(*plan, self.settings)
                &&& res.main_pipeline.pipes@.last().items@ == last_layer(*plan, self.settings, self.enable_profiling)
                &&& res.sources_pipelines@.len() == self.pipelines@.len() + side_pipelines(*plan)
                &&& field_list(rest.probe_data_fields) == held_fields(*plan, field_list(self.probe_data_fields))
                &&& self.pipelines@.is_prefix_of(res.sources_pipelines@)
                &&& forall|i: int| 0 <= i < res.sources_pipelines@.len() ==> (#[trigger] res.sources_pipelines@[i]).well_formed()
                &&& rest.well_formed()
                &&& rest.main_pipeline.pipes@.len() == 0
                &&& rest.pipelines@.len() == 0
                &&& rest.settings == self.settings
                &&& rest.enable_profiling == self.enable_profiling
                &&& self.build_states@.is_prefix_of(rest.build_states@)
                &&& self.probe_states@.is_prefix_of(rest.probe_states@)
            },
        decreases plan, 1nat,
    {
        let mut builder = self;
        match builder.build_pipeline(plan) {
            Ok(()) => {},
            Err(e) => {
                return Err(e);
            },
        }
        let mut main_pipeline = Pipeline::create();
        std::mem::swap(&mut main_pipeline, &mut builder.main_pipeline);
        let mut sources_pipelines: Vec<Pipeline> = Vec::new();
        std::mem::swap(&mut sources_pipelines, &mut builder.pipelines);
        Ok((PipelineBuildResult { main_pipeline, sources_pipelines }, builder))
    }

    /// Builds the node `plan` onto an empty main pipeline.
    pub fn build_pipeline(&mut self, plan: &PhysicalPlan) -> (r: Result<(), ErrorCode>)
        requires
            old(self).well_formed(),
            old(self).main_pipeline.pipes@.len() == 0,
        ensures
            final(self).well_formed(),
            final(self).extends(old(self)),
            r.is_ok() <==> build_error(*plan, old(self).settings).is_none(),
            r matches Err(e) ==> build_error(*plan, old(self).settings) == Some(e),
            r.is_ok() ==> final(self).built_from(old(self), *plan),
            r.is_ok() && *plan is TableScan ==> final(self).main_pipeline.pipes@.len() == 1,
            *plan is TableScan ==> final(self).pipelines == old(self).pipelines && final(self).probe_data_fields == old(self).probe_data_fields,
        decreases plan, 0nat,
    {
        match plan {
            PhysicalPlan::TableScan(scan) => {
                if scan.parallelism == 0 {
                    return Err(ErrorCode::ConfigurationError);
                }
                let source = ProcessorDesc {
                    kind: ProcessorKind::Source,
                    plan_id: scan.plan_id,
                    profiled: false,
                    spilling: false,
                };
                self.main_pipeline.add_source(source, scan.parallelism)
            },
            PhysicalPlan::HashJoin(join) => self.build_join(join),
            PhysicalPlan::RangeJoin(join) => self.build_range_join(join),
        }
    }

    /// Builds a range join: the right side as a pipeline of its own, the
    /// left side on the main pipeline, and, when profiling, a stub behind
    /// the join that counts what it produced.
    pub fn build_range_join(&mut self, range_join: &RangeJoin) -> (r: Result<(), ErrorCode>)
        requires
            old(self).well_formed(),
            old(self).main_pipeline.pipes@.len() == 0,
        ensures
            final(self).well_formed(),
            final(self).extends(old(self)),
            r.is_ok() <==> range_join_build_error(*range_join, old(self).settings).is_none(),
            r matches Err(e) ==> range_join_build_error(*range_join, old(self).settings) == Some(e),
            r.is_ok() ==> final(self).built_from(old(self), PhysicalPlan::RangeJoin(*range_join)),
        decreases range_join, 1nat,
    {
        match self.expand_right_side_pipeline(range_join) {
            Ok(()) => {},
            Err(e) => {
                return Err(e);
            },
        }
        match self.build_left_side(range_join) {
            Ok(()) => {},
            Err(e) => {
                return Err(e);
            },
        }
        if self.enable_profiling {
            let stub = ProcessorDesc {
                kind: ProcessorKind::ProfileStub,
                plan_id: range_join.plan_id,
                profiled: true,
                spilling: false,
            };
            let _ = self.main_pipeline.add_transform(stub);
        }
        Ok(())
    }

    /// Builds the left side on the main pipeline, brings it to
    /// `max_threads` outputs, and adds one left-side join processor per
    /// output.
    pub fn build_left_side(&mut self, range_join: &RangeJoin) -> (r: Result<(), ErrorCode>)
        requires
            old(self).well_formed(),
            old(self).main_pipeline.pipes@.len() == 0,
        ensures
            final(self).well_formed(),
            final(self).extends(old(self)),
            r.is_ok() <==> build_error(*range_join.left, old(self).settings).is_none() && old(self).settings.max_threads != 0,
            r matches Err(e) ==> (if build_error(*range_join.left, old(self).settings).is_some() {
                build_error(*range_join.left, old(self).settings) == Some(e)
            } else {
                e == ErrorCode::ConfigurationError
            }),
            r.is_ok() ==> {
                &&& final(self).main_pipeline.spec_is_pulling()
                &&& final(self).main_pipeline.spec_output_len() == old(self).settings.max_threads
                &&& final(self).main_pipeline.pipes@.last().items@ == transform_layer(
                    desc(ProcessorKind::RangeJoinLeft, range_join.plan_id, old(self).enable_profiling, false),
                    old(self).settings.max_threads,
                )
                &&& final(self).pipelines@.len() == old(self).pipelines@.len() + side_pipelines(*range_join.left)
                &&& field_list(final(self).probe_data_fields) == held_fields(*range_join.left, field_list(old(self).probe_data_fields))
            },
        decreases range_join, 0nat,
    {
        match self.build_pipeline(&range_join.left) {
            Ok(()) => {},
            Err(e) => {
                return Err(e);
            },
        }
        let max_threads = self.settings.max_threads;
        match self.main_pipeline.try_resize(max_threads) {
            Ok(()) => {},
            Err(e) => {
                return Err(e);
            },
        }
        let transform = ProcessorDesc {
            kind: ProcessorKind::RangeJoinLeft,
            plan_id: range_join.plan_id,
            profiled: self.enable_profiling,
            spilling: false,
        };
        let _ = self.main_pipeline.add_transform(transform);
        Ok(())
    }

    /// Builds the right side with a builder of its own, ends it in one
    /// right-side sink per output, and keeps its pipelines.
    pub fn expand_right_side_pipeline(&mut self, range_join: &RangeJoin) -> (r: Result<(), ErrorCode>)
        requires
            old(self).well_formed(),
        ensures
            final(self).well_formed(),
            final(self).extends(old(self)),
            final(self).main_pipeline == old(self).main_pipeline,
            final(self).probe_data_fields == old(self).probe_data_fields,
            final(self).join_state == old(self).join_state,
            final(self).index == old(self).index,
            r.is_ok() <==> build_error(*range_join.right, old(self).settings).is_none(),
            r matches Err(e) ==> build_error(*range_join.right, old(self).settings) == Some(e),
            r.is_err() ==> *final(self) == *old(self),
            r.is_ok() ==> {
                &&& final(self).pipelines@.len() == old(self).pipelines@.len() + 1 + side_pipelines(*range_join.right)
                &&& final(self).pipelines@[old(self).pipelines@.len() as int].spec_is_complete()
                &&& final(self).pipelines@[old(self).pipelines@.len() as int].pipes@.last().items@ == sink_layer(
                    desc(ProcessorKind::RangeJoinRight, range_join.plan_id, old(self).enable_profiling, false),
                    plan_width(*range_join.right, old(self).settings),
                )
            },
        decreases range_join, 0nat,
    {
        let right_side_builder = PipelineBuilder::create(self.settings, self.enable_profiling);
        let (mut right_res, mut rest) = match right_side_builder.finalize(&range_join.right) {
            Ok(pair) => pair,
            Err(e) => {
                return Err(e);
            },
        };
        let sink = ProcessorDesc {
            kind: ProcessorKind::RangeJoinRight,
            plan_id: range_join.plan_id,
            profiled: self.enable_profiling,
            spilling: false,
        };
        let _ = right_res.main_pipeline.add_sink(sink);
        self.build_states.append(&mut rest.build_states);
        self.probe_states.append(&mut rest.probe_states);
        self.pipelines.push(right_res.main_pipeline);
        self.pipelines.append(&mut right_res.sources_pipelines);
        Ok(())
    }

    /// Builds a hash join: the shared state, the build side, then the
    /// probe side.
    pub fn build_join(&mut self, join: &HashJoin) -> (r: Result<(), ErrorCode>)
        requires
            old(self).well_formed(),
            old(self).main_pipeline.pipes@.len() == 0,
        ensures
            final(self).well_formed(),
            final(self).extends(old(self)),
            r.is_ok() <==> join_build_error(*join, old(self).settings).is_none(),
            r matches Err(e) ==> join_build_error(*join, old(self).settings) == Some(e),
            r.is_ok() ==> {
                &&& final(self).built_from(old(self), PhysicalPlan::HashJoin(*join))
                &&& final(self).probe_states@.len() > old(self).probe_states@.len()
                &&& final(self).probe_states@.last().plan_id == join.plan_id
                &&& final(self).probe_states@.last().workers == plan_width(*join.probe, old(self).settings)
                &&& final(self).probe_states@.last().probe_barrier == plan_width(*join.probe, old(self).settings)
                &&& final(self).probe_states@.last().restore_barrier == plan_width(*join.probe, old(self).settings)
                &&& exists|k: int|
                    old(self).build_states@.len() <= k < final(self).build_states@.len() && #[trigger] final(self).build_states@[k] == (BuildStateConfig {
                        plan_id: join.plan_id,
                        workers: plan_width(*join.build, old(self).settings),
                        build_barrier: plan_width(*join.build, old(self).settings),
                        restore_barrier: plan_width(*join.build, old(self).settings),
                        spill_coordinator_workers: plan_width(*join.build, old(self).settings),
                    })
            },
        decreases join, 2nat,
    {
        let state = match self.build_join_state(join) {
            Ok(s) => s,
            Err(e) => {
                return Err(e);
            },
        };
        match self.expand_build_side_pipeline(&join.build, join, &state) {
            Ok(()) => {},
            Err(e) => {
                return Err(e);
            },
        }
        let ghost mid = self.build_states@;
        let r = self.build_join_probe(join, &state);
        proof {
            if r.is_ok() {
                let k = mid.len() - 1;
                assert(self.build_states@[k] == mid[k]);
            }
        }
        r
    }

    /// Checks the join's description and sets up what its workers share.
    /// The two key lists must have the same length.
    pub fn build_join_state(&mut self, join: &HashJoin) -> (r: Result<JoinStateConfig, ErrorCode>)
        ensures
            *final(self) == *old(self),
            r.is_ok() <==> join.build_keys@.len() == join.probe_keys@.len(),
            r matches Err(e) ==> e == ErrorCode::ConfigurationError,
            r matches Ok(state) ==> {
                &&& state.plan_id == join.plan_id
                &&& state.join_type == join.join_type
                &&& state.key_count == join.build_keys@.len()
                &&& state.build_fields@ == projected(output_fields(*join.build), join.build_projections@)
            },
    {
        if join.build_keys.len() != join.probe_keys.len() {
            return Err(ErrorCode::ConfigurationError);
        }
        let schema = join.build.output_schema();
        let build_fields = project_fields(&schema, &join.build_projections);
        Ok(
            JoinStateConfig {
                plan_id: join.plan_id,
                join_type: join.join_type,
                key_count: join.build_keys.len(),
                build_fields,
            },
        )
    }

    /// Builds the build side with a builder of its own. Its open outputs
    /// are the build workers: both barriers and the spill coordinator are
    /// sized by their number. Each output ends in a build sink, which may
    /// spill when a spilling threshold is set; a join that feeds a runtime
    /// filter duplicates the outputs instead and leaves them open.
    pub fn expand_build_side_pipeline(&mut self, build: &PhysicalPlan, hash_join_plan: &HashJoin, join_state: &JoinStateConfig) -> (r: Result<(), ErrorCode>)
        requires
            old(self).well_formed(),
            *build == *hash_join_plan.build,
        ensures
            final(self).well_formed(),
            final(self).extends(old(self)),
            final(self).main_pipeline == old(self).main_pipeline,
            final(self).probe_data_fields == old(self).probe_data_fields,
            r.is_ok() <==> build_error(*build, old(self).settings).is_none() && !(hash_join_plan.contain_runtime_filter && 2
                * plan_width(*build, old(self).settings) > usize::MAX),
            r matches Err(e) ==> (if build_error(*build, old(self).settings).is_some() {
                build_error(*build, old(self).settings) == Some(e)
            } else {
                e == ErrorCode::ResourceExhausted
            }),
            r.is_err() ==> *final(self) == *old(self),
            r.is_ok() ==> {
                let width = plan_width(*build, old(self).settings);
                let state = BuildStateConfig {
                    plan_id: hash_join_plan.plan_id,
                    workers: width,
                    build_barrier: width,
                    restore_barrier: width,
                    spill_coordinator_workers: width,
                };
                let built = final(self).pipelines@[old(self).pipelines@.len() as int];
                &&& final(self).build_states@.last() == state
                &&& final(self).build_states@.len() > old(self).build_states@.len()
                &&& final(self).probe_states@.len() >= old(self).probe_states@.len()
                &&& final(self).pipelines@.len() == old(self).pipelines@.len() + 1 + side_pipelines(*build)
                &&& hash_join_plan.contain_runtime_filter ==> {
                    &&& built.spec_output_len() == 2 * width
                    &&& built.pipes@.len() >= 2
                    &&& built.pipes@.last().items@ == Seq::new(
                        width as nat,
                        |i: int| PipeItem { processor: duplicate_desc(hash_join_plan.plan_id), inputs: 1, outputs: 2 },
                    )
                    &&& built.pipes@[built.pipes@.len() - 2].items@ == last_layer(*build, old(self).settings, old(self).enable_profiling)
                    &&& final(self).join_state == Some(state)
                    &&& final(self).index == Some(old(self).pipelines@.len() as usize)
                }
                &&& !hash_join_plan.contain_runtime_filter ==> {
                    &&& built.spec_is_complete()
                    &&& built.pipes@.len() >= 2
                    &&& built.pipes@[built.pipes@.len() - 2].items@ == last_layer(*build, old(self).settings, old(self).enable_profiling)
                    &&& built.pipes@.last().items@ == sink_layer(
                        desc(
                            ProcessorKind::HashJoinBuild,
                            hash_join_plan.plan_id,
                            old(self).enable_profiling,
                            old(self).settings.join_spilling_threshold.is_some(),
                        ),
                        width,
                    )
                    &&& final(self).index == old(self).index
                    &&& final(self).join_state == (if hash_join_plan.need_hold_hash_table {
                        Some(state)
                    } else {
                        old(self).join_state
                    })
                }
            },
        decreases hash_join_plan, 1nat,
    {
        let build_side_builder = PipelineBuilder::create(self.settings, self.enable_profiling);
        let (mut build_res, mut rest) = match build_side_builder.finalize(build) {
            Ok(pair) => pair,
            Err(e) => {
                return Err(e);
            },
        };
        match build_res.main_pipeline.is_pulling_pipeline() {
            Ok(true) => {},
            _ => {
                return Err(ErrorCode::InternalInvariantViolation);
            },
        }
        let output_len = build_res.main_pipeline.output_len();
        let build_state = BuildStateConfig {
            plan_id: hash_join_plan.plan_id,
            workers: output_len,
            build_barrier: output_len,
            restore_barrier: output_len,
            spill_coordinator_workers: output_len,
        };
        if hash_join_plan.contain_runtime_filter {
            match build_res.main_pipeline.duplicate(hash_join_plan.plan_id) {
                Ok(()) => {},
                Err(e) => {
                    return Err(e);
                },
            }
            self.join_state = Some(build_state);
            self.index = Some(self.pipelines.len());
        } else {
            if hash_join_plan.need_hold_hash_table {
                self.join_state = Some(build_state);
            }
            let sink = ProcessorDesc {
                kind: ProcessorKind::HashJoinBuild,
                plan_id: hash_join_plan.plan_id,
                profiled: self.enable_profiling,
                spilling: self.settings.join_spilling_threshold.is_some(),
            };
            let _ = build_res.main_pipeline.add_sink(sink);
        }
        self.build_states.append(&mut rest.build_states);
        self.probe_states.append(&mut rest.probe_states);
        self.build_states.push(build_state);
        self.pipelines.push(build_res.main_pipeline);
        self.pipelines.append(&mut build_res.sources_pipelines);
        Ok(())
    }

    /// Builds the probe side on the main pipeline and adds one probe
    /// processor per open output; the probe workers' two barriers are sized
    /// by that number. When profiling, a stub behind the probe counts what
    /// it produced. A join that holds its hash table records the projected
    /// probe fields.
    pub fn build_join_probe(&mut self, join: &HashJoin, state: &JoinStateConfig) -> (r: Result<(), ErrorCode>)
        requires
            old(self).well_formed(),
            old(self).main_pipeline.pipes@.len() == 0,
        ensures
            final(self).well_formed(),
            final(self).extends(old(self)),
            r.is_ok() <==> build_error(*join.probe, old(self).settings).is_none(),
            r matches Err(e) ==> build_error(*join.probe, old(self).settings) == Some(e),
            r.is_ok() ==> {
                let width = plan_width(*join.probe, old(self).settings);
                let probe = desc(
                    ProcessorKind::HashJoinProbe,
                    join.plan_id,
                    old(self).enable_profiling,
                    old(self).settings.join_spilling_threshold.is_some(),
                );
                let layers = final(self).main_pipeline.pipes@;
                &&& final(self).main_pipeline.spec_is_pulling()
                &&& final(self).main_pipeline.spec_output_len() == width
                &&& final(self).probe_states@.len() > old(self).probe_states@.len()
                &&& final(self).probe_states@.last() == (ProbeStateConfig {
                    plan_id: join.plan_id,
                    join_type: join.join_type,
                    workers: width,
                    probe_barrier: width,
                    restore_barrier: width,
                    max_block_size: old(self).settings.max_block_size,
                    has_non_equi_conditions: join.non_equi_conditions != 0,
                    has_string_column: has_binary_field(join_output_fields(*join)),
                })
                &&& !old(self).enable_profiling ==> layers.last().items@ == transform_layer(probe, width)
                &&& old(self).enable_profiling ==> {
                    &&& layers.len() >= 2
                    &&& layers[layers.len() - 2].items@ == transform_layer(probe, width)
                    &&& layers.last().items@ == transform_layer(desc(ProcessorKind::ProfileStub, join.plan_id, true, false), width)
                }
                &&& final(self).pipelines@.len() == old(self).pipelines@.len() + side_pipelines(*join.probe)
                &&& field_list(final(self).probe_data_fields) == held_fields(
                    PhysicalPlan::HashJoin(*join),
                    field_list(old(self).probe_data_fields),
                )
            },
        decreases join, 1nat,
    {
        match self.build_pipeline(&join.probe) {
            Ok(()) => {},
            Err(e) => {
                return Err(e);
            },
        }
        let max_block_size = self.settings.max_block_size;
        let workers = self.main_pipeline.output_len();
        let output_schema = join.output_schema();
        let has_string_column = any_binary_field(&output_schema);
        let probe_state = ProbeStateConfig {
            plan_id: join.plan_id,
            join_type: join.join_type,
            workers,
            probe_barrier: workers,
            restore_barrier: workers,
            max_block_size,
            has_non_equi_conditions: join.non_equi_conditions != 0,
            has_string_column,
        };
        self.probe_states.push(probe_state);
        let transform = ProcessorDesc {
            kind: ProcessorKind::HashJoinProbe,
            plan_id: join.plan_id,
            profiled: self.enable_profiling,
            spilling: self.settings.join_spilling_threshold.is_some(),
        };
        let _ = self.main_pipeline.add_transform(transform);
        if self.enable_profiling {
            let stub = ProcessorDesc {
                kind: ProcessorKind::ProfileStub,
                plan_id: join.plan_id,
                profiled: true,
                spilling: false,
            };
            let _ = self.main_pipeline.add_transform(stub);
        }
        if join.need_hold_hash_table {
            let probe_schema = join.probe.output_schema();
            let projected_probe_fields = project_fields(&probe_schema, &join.probe_projections);
            self.probe_data_fields = Some(projected_probe_fields);
        }
        Ok(())
    }
}

/// The configuration of the join that runs for a pair of build and probe
/// records: the probe record gives the join kind, each record the workers
/// of its side, and the settings the spill threshold, the partitions and
/// the seed. Spilling is on exactly when a threshold is set. The two
/// records must belong to one plan node.
pub fn join_config(build: &BuildStateConfig, probe: &ProbeStateConfig, settings: &Settings) -> (r: Result<HashJoinConfig, ErrorCode>)
    ensures
        r.is_ok() <==> build.plan_id == probe.plan_id,
        r matches Err(e) ==> e == ErrorCode::ConfigurationError,
        r matches Ok(config) ==> config == (HashJoinConfig {
            kind: probe.join_type,
            build_workers: build.build_barrier,
            probe_workers: probe.probe_barrier,
            partitions: settings.join_spill_partitions,
            seed: settings.join_hash_seed,
            memory_limit: settings.join_spilling_threshold,
            spilling: settings.join_spilling_threshold.is_some(),
        }),
{
    if build.plan_id != probe.plan_id {
        return Err(ErrorCode::ConfigurationError);
    }
    Ok(
        HashJoinConfig {
            kind: probe.join_type,
            build_workers: build.build_barrier,
            probe_workers: probe.probe_barrier,
            partitions: settings.join_spill_partitions,
            seed: settings.join_hash_seed,
            memory_limit: settings.join_spilling_threshold,
            spilling: settings.join_spilling_threshold.is_some(),
        },
    )
}

} // verus!
