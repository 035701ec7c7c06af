//! The operator-graph description handed over by the planner: scans, hash
//! joins and range joins, with the schema each node produces.

use vstd::prelude::*;
use crate::datavalues::{DataField, DataType};
use std::sync::Arc;
use crate::datavalues::DataValue;

verus! {

/// The join kinds. "Left" is the probe side, "right" the build side: a left
/// outer join keeps every probe row, a right outer join every build row.
#[derive(Clone, Copy, Debug, PartialEq, Eq, Structural)]
pub enum JoinKind {
    Inner,
    Left,
    Right,
    Full,
    LeftSemi,
    LeftAnti,
    RightSemi,
    RightAnti,
}

impl JoinKind {
    /// Whether output rows carry the probe side's columns.
    pub open spec fn spec_keeps_probe_columns(self) -> bool {
        !(self == JoinKind::RightSemi || self == JoinKind::RightAnti)
    }

    /// Whether output rows carry the build side's columns.
    pub open spec fn spec_keeps_build_columns(self) -> bool {
        !(self == JoinKind::LeftSemi || self == JoinKind::LeftAnti)
    }

    pub fn keeps_probe_columns(&self) -> (b: bool)
        ensures
            b == self.spec_keeps_probe_columns(),
    {
        match self {
            JoinKind::RightSemi | JoinKind::RightAnti => false,
            _ => true,
        }
    }

    pub fn keeps_build_columns(&self) -> (b: bool)
        ensures
            b == self.spec_keeps_build_columns(),
    {
        match self {
            JoinKind::LeftSemi | JoinKind::LeftAnti => false,
            _ => true,
        }
    }
}

/// A leaf that produces rows on `parallelism` outputs.
#[derive(Debug)]
pub struct TableScan {
    pub plan_id: u32,
    pub parallelism: usize,
    pub schema: Vec<DataField>,
}

/// A hash join of a build side and a probe side on equal keys.
#[derive(Debug)]
pub struct HashJoin {
    pub plan_id: u32,
    pub build: Box<PhysicalPlan>,
    pub probe: Box<PhysicalPlan>,
    pub build_keys: Vec<usize>,
    pub probe_keys: Vec<usize>,
    pub build_projections: Vec<usize>,
    pub probe_projections: Vec<usize>,
    pub join_type: JoinKind,
    pub non_equi_conditions: usize,
    pub contain_runtime_filter: bool,
    pub need_hold_hash_table: bool,
}

/// A join on range conditions; the right side is materialized first.
#[derive(Debug)]
pub struct RangeJoin {
    pub plan_id: u32,
    pub left: Box<PhysicalPlan>,
    pub right: Box<PhysicalPlan>,
}

/// A node of the operator graph.
#[derive(Debug)]
pub enum PhysicalPlan {
    TableScan(TableScan),
    HashJoin(HashJoin),
    RangeJoin(RangeJoin),
}

/// The fields whose position is listed in `projections`, in schema order.
pub open spec fn projected(fields: Seq<DataField>, projections: Seq<usize>) -> Seq<DataField>
    decreases fields.len(),
{
    if fields.len() == 0 {
        Seq::empty()
    } else {
        let front = projected(fields.drop_last(), projections);
        if projections.contains((fields.len() - 1) as usize) {
            front.push(fields.last())
        } else {
            front
        }
    }
}

/// The schema a node produces.
pub open spec fn output_fields(plan: PhysicalPlan) -> Seq<DataField>
    decreases plan,
{
    match plan {
        PhysicalPlan::TableScan(scan) => scan.schema@,
        PhysicalPlan::HashJoin(join) => join_output_fields(join),
        PhysicalPlan::RangeJoin(join) => output_fields(*join.left) + output_fields(*join.right),
    }
}

/// The schema of a hash join: the projected probe fields, then the
/// projected build fields; a semi or anti join carries one side only.
pub open spec fn join_output_fields(join: HashJoin) -> Seq<DataField>
    decreases join,
{
    let probe = if join.join_type.spec_keeps_probe_columns() {
        projected(output_fields(*join.probe), join.probe_projections@)
    } else {
        Seq::empty()
    };
    let build = if join.join_type.spec_keeps_build_columns() {
        projected(output_fields(*join.build), join.build_projections@)
    } else {
        Seq::empty()
    };
    probe + build
}

/// Whether any field holds variable-width data.
pub open spec fn has_binary_field(fields: Seq<DataField>) -> bool {
    exists|i: int| 0 <= i < fields.len() && (#[trigger] fields[i]).data_type == DataType::Binary
}

/// Whether `list` holds `x`.
pub fn contains_index(list: &Vec<usize>, x: usize) -> (found: bool)
    ensures
        found == list@.contains(x),
{
    let mut i: usize = 0;
    while i < list.len()
        invariant
            i <= list@.len(),
            forall|j: int| 0 <= j < i ==> list@[j] != x,
        decreases list@.len() - i,
    {
        if list[i] == x {
            return true;
        }
        i += 1;
    }
    false
}

/// The fields whose position is listed in `projections`, in schema order.
pub fn project_fields(fields: &Vec<DataField>, projections: &Vec<usize>) -> (out: Vec<DataField>)
    ensures
        out@ == projected(fields@, projections@),
{
    let mut out: Vec<DataField> = Vec::new();
    let mut i: usize = 0;
    while i < fields.len()
        invariant
            i <= fields@.len(),
            out@ == projected(fields@.subrange(0, i as int), projections@),
        decreases fields@.len() - i,
    {
        assert(fields@.subrange(0, i + 1).drop_last() =~= fields@.subrange(0, i as int));
        if contains_index(projections, i) {
            out.push(fields[i].duplicate());
        }
        i += 1;
    }
    assert(fields@.subrange(0, fields@.len() as int) =~= fields@);
    out
}

/// Appends copies of `more` to `fields`.
pub fn append_fields(fields: &mut Vec<DataField>, more: &Vec<DataField>)
    ensures
        final(fields)@ == old(fields)@ + more@,
{
    let mut i: usize = 0;
    while i < more.len()
        invariant
            i <= more@.len(),
            fields@ == old(fields)@ + more@.subrange(0, i as int),
        decreases more@.len() - i,
    {
        fields.push(more[i].duplicate());
        i += 1;
        assert(fields@ =~= old(fields)@ + more@.subrange(0, i as int));
    }
    assert(more@.subrange(0, more@.len() as int) =~= more@);
}

impl PhysicalPlan {
    /// The schema this node produces.
    pub fn output_schema(&self) -> (fields: Vec<DataField>)
        ensures
            fields@ == output_fields(*self),
        decreases self,
    {
        match self {
            PhysicalPlan::TableScan(scan) => {
                let mut fields: Vec<DataField> = Vec::new();
                append_fields(&mut fields, &scan.schema);
                assert(fields@ =~= scan.schema@);
                fields
            },
            PhysicalPlan::HashJoin(join) => join.output_schema(),
            PhysicalPlan::RangeJoin(join) => {
                let mut fields = join.left.output_schema();
                let right = join.right.output_schema();
                append_fields(&mut fields, &right);
                fields
            },
        }
    }
}

impl HashJoin {
    /// The schema this join produces.
    pub fn output_schema(&self) -> (fields: Vec<DataField>)
        ensures
            fields@ == join_output_fields(*self),
        decreases self,
    {
        let mut fields: Vec<DataField> = Vec::new();
        if self.join_type.keeps_probe_columns() {
            let probe = self.probe.output_schema();
            let kept = project_fields(&probe, &self.probe_projections);
            append_fields(&mut fields, &kept);
        }
        if self.join_type.keeps_build_columns() {
            let build = self.build.output_schema();
            let kept = project_fields(&build, &self.build_projections);
            append_fields(&mut fields, &kept);
        }
        assert(fields@ =~= join_output_fields(*self));
        fields
    }
}

/// Whether any field holds variable-width data.
pub fn any_binary_field(fields: &Vec<DataField>) -> (b: bool)
    ensures
        b == has_binary_field(fields@),
{
    let mut found = false;
    let mut i: usize = 0;
    while i < fields.len()
        invariant
            i <= fields@.len(),
            found <==> (exists|j: int| 0 <= j < i && (#[trigger] fields@[j]).data_type == DataType::Binary),
        decreases fields@.len() - i,
    {
        match fields[i].data_type() {
            DataType::Binary => {
                found = true;
            },
            _ => {},
        }
        i += 1;
    }
    found
}

/// How a stage hands its rows on to the next.
#[derive(Clone, Copy, Debug, PartialEq, Eq, Structural)]
pub enum StageState {
    Normal,
    Through,
    SortMerge,
    GroupByMerge,
    AggregatorMerge,
}

/// A stage boundary in a plan.
#[derive(Debug)]
pub struct StagePlan {
    pub state: StageState,
    pub input: Arc<PhysicalPlan>,
}

impl StagePlan {
    /// The schema of a stage is that of its input.
    pub fn schema(&self) -> (fields: Vec<DataField>)
        ensures
            fields@ == output_fields(*self.input),
    {
        self.input.output_schema()
    }
}

/// An expression of an aggregation: a column by position, or a constant.
#[derive(Debug)]
pub enum Expression {
    Column(usize),
    Constant(DataValue),
}

/// The final step of an aggregation.
#[derive(Debug)]
pub struct AggregatorFinalPlan {
    pub aggr_expr: Vec<Expression>,
    pub group_expr: Vec<Expression>,
    pub schema: Vec<DataField>,
    pub schema_before_groupby: Vec<DataField>,
    pub input: Arc<PhysicalPlan>,
}

impl AggregatorFinalPlan {
    /// The schema the aggregation produces.
    pub fn schema(&self) -> (fields: Vec<DataField>)
        ensures
            fields@ == self.schema@,
    {
        let mut fields: Vec<DataField> = Vec::new();
        append_fields(&mut fields, &self.schema);
        assert(fields@ =~= self.schema@);
        fields
    }

    /// Replaces the input; nothing else changes.
    pub fn set_input(&mut self, node: PhysicalPlan)
        ensures
            *final(self).input == node,
            final(self).aggr_expr == old(self).aggr_expr,
            final(self).group_expr == old(self).group_expr,
            final(self).schema == old(self).schema,
            final(self).schema_before_groupby == old(self).schema_before_groupby,
    {
        self.input = Arc::new(node);
    }
}

/// What is known of the size and range of a scan's result.
#[derive(Debug)]
pub struct Statistics {
    /// Total rows of the query read.
    pub read_rows: usize,
    /// Total bytes of the query read.
    pub read_bytes: usize,
    pub count: Option<DataValue>,
    pub min: Option<DataValue>,
    pub max: Option<DataValue>,
    /// Whether count, min and max are exact.
    pub is_exact: bool,
}

impl Statistics {
    /// Estimated statistics: sizes only, nothing exact.
    pub fn new_estimated(read_rows: usize, read_bytes: usize) -> (s: Statistics)
        ensures
            s.read_rows == read_rows,
            s.read_bytes == read_bytes,
            s.count.is_none(),
            s.min.is_none(),
            s.max.is_none(),
            !s.is_exact,
    {
        Statistics { read_rows, read_bytes, count: None, min: None, max: None, is_exact: false }
    }

    /// Records the exact row count and marks the statistics exact.
    pub fn set_exact_count(&mut self, count: DataValue)
        ensures
            final(self).is_exact,
            final(self).count == Some(count),
            final(self).min == old(self).min,
            final(self).max == old(self).max,
            final(self).read_rows == old(self).read_rows,
            final(self).read_bytes == old(self).read_bytes,
    {
        self.is_exact = true;
        self.count = Some(count);
    }

    /// Records the exact minimum and marks the statistics exact.
    pub fn set_exact_min(&mut self, min: DataValue)
        ensures
            final(self).is_exact,
            final(self).min == Some(min),
            final(self).count == old(self).count,
            final(self).max == old(self).max,
            final(self).read_rows == old(self).read_rows,
            final(self).read_bytes == old(self).read_bytes,
    {
        self.is_exact = true;
        self.min = Some(min);
    }

    /// Records the exact maximum and marks the statistics exact.
    pub fn set_exact_max(&mut self, max: DataValue)
        ensures
            final(self).is_exact,
            final(self).max == Some(max),
            final(self).count == old(self).count,
            final(self).min == old(self).min,
            final(self).read_rows == old(self).read_rows,
            final(self).read_bytes == old(self).read_bytes,
    {
        self.is_exact = true;
        self.max = Some(max);
    }

    /// Forgets everything: no rows, no bytes, nothing exact.
    pub fn clear(&mut self)
        ensures
            final(self).read_rows == 0,
            final(self).read_bytes == 0,
            final(self).count.is_none(),
            final(self).min.is_none(),
            final(self).max.is_none(),
            !final(self).is_exact,
    {
        *self = Statistics { read_rows: 0, read_bytes: 0, count: None, min: None, max: None, is_exact: false };
    }
}

/// Limits on the size of a message between nodes.
#[derive(Clone, Copy, Debug)]
pub struct GrpcConfig {}

impl GrpcConfig {
    /// The largest message a client or server may send, in bytes.
    pub const MAX_ENCODING_SIZE: usize = 16 * 1024 * 1024;

    /// The largest message a client or server may receive, in bytes.
    pub const MAX_DECODING_SIZE: usize = 16 * 1024 * 1024;
}

} // verus!
