//! Pipelines for copying staged files into a table: the stages that
//! append the data, the commit with its record of copied files, and what
//! is done once the copy has run.

use vstd::prelude::*;
use crate::builder_join::{desc, sink_layer, transform_layer};
use crate::datavalues::{bytes_equal, copy_bytes, DataField, DataType, DataValue};
use crate::error::ErrorCode;
use crate::pipeline::{FinishHook, Pipeline, ProcessorDesc, ProcessorKind};

verus! {

/// How copied rows are written.
#[derive(Clone, Copy, Debug, PartialEq, Eq, Structural)]
pub enum CopyIntoTableMode {
    Insert { overwrite: bool },
    Replace,
    Copy,
}

/// A copy into a table, run on one node.
#[derive(Debug)]
pub struct CopyIntoTablePlan {
    pub required_source_schema: Vec<DataField>,
    pub required_values_schema: Vec<DataField>,
    pub values_consts: Vec<DataValue>,
    pub write_mode: CopyIntoTableMode,
}

/// A copy into a table, run on several nodes.
#[derive(Debug)]
pub struct DistributedCopyIntoTable {
    pub required_source_schema: Vec<DataField>,
    pub required_values_schema: Vec<DataField>,
    pub values_consts: Vec<DataValue>,
    pub write_mode: CopyIntoTableMode,
}

/// A copy plan of either form.
#[derive(Debug)]
pub enum CopyPlanType {
    CopyIntoTablePlanOption(CopyIntoTablePlan),
    DistributedCopyIntoTable(DistributedCopyIntoTable),
}

impl CopyPlanType {
    pub open spec fn source_schema(&self) -> Seq<DataField> {
        match self {
            CopyPlanType::CopyIntoTablePlanOption(plan) => plan.required_source_schema@,
            CopyPlanType::DistributedCopyIntoTable(plan) => plan.required_source_schema@,
        }
    }

    pub open spec fn values_consts(&self) -> Seq<DataValue> {
        match self {
            CopyPlanType::CopyIntoTablePlanOption(plan) => plan.values_consts@,
            CopyPlanType::DistributedCopyIntoTable(plan) => plan.values_consts@,
        }
    }

    pub open spec fn write_mode(&self) -> CopyIntoTableMode {
        match self {
            CopyPlanType::CopyIntoTablePlanOption(plan) => plan.write_mode,
            CopyPlanType::DistributedCopyIntoTable(plan) => plan.write_mode,
        }
    }
}

/// The names and types of a list of fields.
pub open spec fn field_views(fields: Seq<DataField>) -> Seq<(Seq<char>, DataType)> {
    Seq::new(fields.len(), |i: int| (fields[i].name@, fields[i].data_type))
}

/// Whether two schemas have the same names and types in the same order.
pub fn same_schema(a: &Vec<DataField>, b: &Vec<DataField>) -> (same: bool)
    ensures
        same == (field_views(a@) == field_views(b@)),
{
    if a.len() != b.len() {
        assert(field_views(a@).len() != field_views(b@).len());
        return false;
    }
    let mut i: usize = 0;
    while i < a.len()
        invariant
            i <= a@.len(),
            a@.len() == b@.len(),
            forall|j: int| 0 <= j < i ==> field_views(a@)[j] == field_views(b@)[j],
        decreases a@.len() - i,
    {
        let names = a[i].name == b[i].name;
        let types = a[i].data_type == b[i].data_type;
        if !names || !types {
            assert(field_views(a@)[i as int] != field_views(b@)[i as int]);
            return false;
        }
        i += 1;
    }
    assert(field_views(a@) =~= field_views(b@));
    true
}

/// The stages that a copy appends to the pipeline, in order: a cast where
/// the source schema differs from the one the plan requires, constant
/// columns where the plan has any, and the append to the table unless the
/// plan replaces.
pub open spec fn copy_stages(plan: CopyPlanType, source_schema: Seq<DataField>) -> Seq<ProcessorKind> {
    let cast = if field_views(source_schema) != field_views(plan.source_schema()) {
        seq![ProcessorKind::CastSchema]
    } else {
        Seq::empty()
    };
    let consts = if plan.values_consts().len() > 0 {
        seq![ProcessorKind::AddConstColumns]
    } else {
        Seq::empty()
    };
    let append = if plan.write_mode() != CopyIntoTableMode::Replace {
        seq![ProcessorKind::AppendTable]
    } else {
        Seq::empty()
    };
    cast + consts + append
}

/// Whether the layers of `after` are those of `before` followed by one
/// layer per stage, each as wide as the pipeline's output.
pub open spec fn stages_appended(before: Pipeline, after: Pipeline, stages: Seq<ProcessorKind>) -> bool {
    &&& after.pipes@.len() == before.pipes@.len() + stages.len()
    &&& after.pipes@.subrange(0, before.pipes@.len() as int) == before.pipes@
    &&& forall|i: int| 0 <= i < stages.len() ==> (#[trigger] after.pipes@[before.pipes@.len() + i]).items@ == transform_layer(
        desc(stages[i], 0, false, false),
        before.spec_output_len(),
    )
}

/// Adds one stage of the given kind.
fn add_stage(pipeline: &mut Pipeline, kind: ProcessorKind, Ghost(origin): Ghost<Pipeline>, Ghost(stages): Ghost<Seq<ProcessorKind>>)
    requires
        old(pipeline).well_formed(),
        origin.well_formed(),
        old(pipeline).spec_output_len() == origin.spec_output_len(),
        stages_appended(origin, *old(pipeline), stages),
    ensures
        final(pipeline).well_formed(),
        final(pipeline).spec_output_len() == origin.spec_output_len(),
        final(pipeline).on_finished == old(pipeline).on_finished,
        stages_appended(origin, *final(pipeline), stages.push(kind)),
{
    let ghost before = pipeline.pipes@;
    let hook = pipeline.on_finished;
    let processor = ProcessorDesc { kind, plan_id: 0, profiled: false, spilling: false };
    let _ = pipeline.add_transform(processor);
    pipeline.on_finished = hook;
    proof {
        assert(pipeline.pipes@.drop_last() == before);
        assert(pipeline.pipes@.subrange(0, origin.pipes@.len() as int) =~= origin.pipes@);
        assert forall|i: int| 0 <= i < stages.push(kind).len() implies (#[trigger] pipeline.pipes@[origin.pipes@.len() + i]).items@ == transform_layer(
            desc(stages.push(kind)[i], 0, false, false),
            origin.spec_output_len(),
        ) by {
            if i < stages.len() {
                assert(pipeline.pipes@[origin.pipes@.len() + i] == before[origin.pipes@.len() + i]);
            }
        }
    }
}

/// Appends the stages that bring the staged data into the table, without
/// the commit. Returns whether the table's old content is to be
/// overwritten: only an insert can ask for that.
pub fn build_append_data_pipeline(main_pipeline: &mut Pipeline, plan: CopyPlanType, source_schema: &Vec<DataField>) -> (r: Result<bool, ErrorCode>)
    requires
        old(main_pipeline).well_formed(),
    ensures
        final(main_pipeline).well_formed(),
        final(main_pipeline).on_finished == old(main_pipeline).on_finished,
        final(main_pipeline).spec_output_len() == old(main_pipeline).spec_output_len(),
        stages_appended(*old(main_pipeline), *final(main_pipeline), copy_stages(plan, source_schema@)),
        r == Ok::<bool, ErrorCode>(
            match plan.write_mode() {
                CopyIntoTableMode::Insert { overwrite } => overwrite,
                _ => false,
            },
        ),
{
    let ghost origin = *main_pipeline;
    let ghost mut stages: Seq<ProcessorKind> = Seq::empty();
    let (required_source, consts, write_mode) = match plan {
        CopyPlanType::CopyIntoTablePlanOption(p) => (p.required_source_schema, p.values_consts, p.write_mode),
        CopyPlanType::DistributedCopyIntoTable(p) => (p.required_source_schema, p.values_consts, p.write_mode),
    };
    assert(main_pipeline.pipes@.subrange(0, origin.pipes@.len() as int) =~= origin.pipes@);
    if !same_schema(source_schema, &required_source) {
        add_stage(main_pipeline, ProcessorKind::CastSchema, Ghost(origin), Ghost(stages));
        proof {
            stages = stages.push(ProcessorKind::CastSchema);
        }
    }
    if consts.len() != 0 {
        fill_const_columns(main_pipeline, Ghost(origin), Ghost(stages));
        proof {
            stages = stages.push(ProcessorKind::AddConstColumns);
        }
    }
    let mut insert_overwrite_option = false;
    match write_mode {
        CopyIntoTableMode::Insert { overwrite } => {
            insert_overwrite_option = overwrite;
            add_stage(main_pipeline, ProcessorKind::AppendTable, Ghost(origin), Ghost(stages));
            proof {
                stages = stages.push(ProcessorKind::AppendTable);
            }
        },
        CopyIntoTableMode::Replace => {},
        CopyIntoTableMode::Copy => {
            add_stage(main_pipeline, ProcessorKind::AppendTable, Ghost(origin), Ghost(stages));
            proof {
                stages = stages.push(ProcessorKind::AppendTable);
            }
        },
    }
    assert(stages =~= copy_stages(plan, source_schema@));
    Ok(insert_overwrite_option)
}

/// Appends the stage that fills in the plan's constant columns.
fn fill_const_columns(pipeline: &mut Pipeline, Ghost(origin): Ghost<Pipeline>, Ghost(stages): Ghost<Seq<ProcessorKind>>)
    requires
        old(pipeline).well_formed(),
        origin.well_formed(),
        old(pipeline).spec_output_len() == origin.spec_output_len(),
        stages_appended(origin, *old(pipeline), stages),
    ensures
        final(pipeline).well_formed(),
        final(pipeline).spec_output_len() == origin.spec_output_len(),
        final(pipeline).on_finished == old(pipeline).on_finished,
        stages_appended(origin, *final(pipeline), stages.push(ProcessorKind::AddConstColumns)),
{
    add_stage(pipeline, ProcessorKind::AddConstColumns, Ghost(origin), Ghost(stages));
}

/// A staged file that was copied.
#[derive(Clone, Debug, PartialEq, Eq)]
pub struct StageFileInfo {
    pub path: Vec<u8>,
    pub size: u64,
    pub etag: Option<Vec<u8>>,
    /// Seconds since the epoch.
    pub last_modified: i64,
}

/// What is recorded of a copied file.
#[derive(Clone, Debug, PartialEq, Eq)]
pub struct TableCopiedFileInfo {
    pub etag: Option<Vec<u8>>,
    pub content_length: u64,
    pub last_modified: Option<i64>,
}

/// The content of a record of a copied file.
pub struct CopiedFileView {
    pub etag: Option<Seq<u8>>,
    pub content_length: u64,
    pub last_modified: Option<i64>,
}

impl View for TableCopiedFileInfo {
    type V = CopiedFileView;

    open spec fn view(&self) -> CopiedFileView {
        CopiedFileView {
            etag: match self.etag {
                Some(e) => Some(e@),
                None => None,
            },
            content_length: self.content_length,
            last_modified: self.last_modified,
        }
    }
}

/// The request that records the copied files of a table.
#[derive(Clone, Debug, PartialEq, Eq)]
pub struct UpsertTableCopiedFileReq {
    /// One record per path, in ascending order of the paths.
    pub file_info: Vec<(Vec<u8>, TableCopiedFileInfo)>,
    /// When the records expire, in seconds since the epoch.
    pub expire_at: Option<u64>,
    pub fail_if_duplicated: bool,
}

/// The longest entity tag that is recorded, in bytes.
pub const SHORT_ETAG_LEN: usize = 7;

/// The first seven bytes of an entity tag.
pub open spec fn short_etag(etag: Option<Vec<u8>>) -> Option<Seq<u8>> {
    match etag {
        Some(e) => Some(
            if e@.len() > SHORT_ETAG_LEN {
                e@.subrange(0, SHORT_ETAG_LEN as int)
            } else {
                e@
            },
        ),
        None => None,
    }
}

/// What is recorded of `file`.
pub open spec fn record_of(file: StageFileInfo) -> CopiedFileView {
    CopiedFileView { etag: short_etag(file.etag), content_length: file.size, last_modified: Some(file.last_modified) }
}

/// The records of a list of copied files, by path: where a path occurs
/// several times, its last file counts.
pub open spec fn file_records(files: Seq<StageFileInfo>) -> Map<Seq<u8>, CopiedFileView>
    decreases files.len(),
{
    if files.len() == 0 {
        Map::empty()
    } else {
        file_records(files.drop_last()).insert(files.last().path@, record_of(files.last()))
    }
}

/// No path occurs twice.
pub open spec fn unique_paths(entries: Seq<(Vec<u8>, TableCopiedFileInfo)>) -> bool {
    forall|i: int, j: int| 0 <= i < j < entries.len() ==> (#[trigger] entries[i]).0@ != (#[trigger] entries[j]).0@
}

/// Whether `a` comes before `b` in the order of byte strings: at the first
/// byte in which they differ `a` has the smaller one, or `a` ends first.
pub open spec fn lex_less(a: Seq<u8>, b: Seq<u8>) -> bool
    decreases a.len(),
{
    if b.len() == 0 {
        false
    } else if a.len() == 0 {
        true
    } else if a[0] != b[0] {
        a[0] < b[0]
    } else {
        lex_less(a.drop_first(), b.drop_first())
    }
}

/// The entries stand in ascending order of their paths.
pub open spec fn sorted_by_path(entries: Seq<(Vec<u8>, TableCopiedFileInfo)>) -> bool {
    forall|i: int, j: int| 0 <= i < j < entries.len() ==> lex_less((#[trigger] entries[i]).0@, (#[trigger] entries[j]).0@)
}

/// No byte string comes before itself.
pub proof fn lemma_lex_irreflexive(a: Seq<u8>)
    ensures
        !lex_less(a, a),
    decreases a.len(),
{
    if a.len() > 0 {
        lemma_lex_irreflexive(a.drop_first());
    }
}

/// Of two different byte strings one comes before the other.
pub proof fn lemma_lex_total(a: Seq<u8>, b: Seq<u8>)
    ensures
        lex_less(a, b) || lex_less(b, a) || a == b,
    decreases a.len(),
{
    if a.len() > 0 && b.len() > 0 && a[0] == b[0] {
        lemma_lex_total(a.drop_first(), b.drop_first());
        if a.drop_first() == b.drop_first() {
            assert(a =~= seq![a[0]] + a.drop_first());
            assert(b =~= seq![b[0]] + b.drop_first());
        }
    } else if a.len() == 0 && b.len() == 0 {
        assert(a =~= b);
    }
}

/// What comes before something that comes before a third comes before the
/// third.
pub proof fn lemma_lex_transitive(a: Seq<u8>, b: Seq<u8>, c: Seq<u8>)
    requires
        lex_less(a, b),
        lex_less(b, c),
    ensures
        lex_less(a, c),
    decreases a.len(),
{
    if a.len() > 0 && a[0] == b[0] && b[0] == c[0] {
        lemma_lex_transitive(a.drop_first(), b.drop_first(), c.drop_first());
    }
}

/// Whether `a` comes before `b` in the order of byte strings.
pub fn bytes_less(a: &Vec<u8>, b: &Vec<u8>) -> (less: bool)
    ensures
        less == lex_less(a@, b@),
{
    let mut i: usize = 0;
    assert(a@.subrange(0, a@.len() as int) =~= a@);
    assert(b@.subrange(0, b@.len() as int) =~= b@);
    while i < a.len() && i < b.len()
        invariant
            i <= a@.len(),
            i <= b@.len(),
            lex_less(a@, b@) == lex_less(a@.subrange(i as int, a@.len() as int), b@.subrange(i as int, b@.len() as int)),
        decreases a@.len() - i,
    {
        let ghost ra = a@.subrange(i as int, a@.len() as int);
        let ghost rb = b@.subrange(i as int, b@.len() as int);
        assert(ra.drop_first() =~= a@.subrange(i + 1, a@.len() as int));
        assert(rb.drop_first() =~= b@.subrange(i + 1, b@.len() as int));
        assert(ra[0] == a@[i as int] && rb[0] == b@[i as int]);
        if a[i] != b[i] {
            return a[i] < b[i];
        }
        i += 1;
    }
    i < b.len()
}

/// The records of a list of entries, by path.
pub open spec fn entry_records(entries: Seq<(Vec<u8>, TableCopiedFileInfo)>) -> Map<Seq<u8>, CopiedFileView> {
    Map::new(
        |p: Seq<u8>| exists|i: int| 0 <= i < entries.len() && (#[trigger] entries[i]).0@ == p,
        |p: Seq<u8>| entries[choose|i: int| 0 <= i < entries.len() && (#[trigger] entries[i]).0@ == p].1@,
    )
}

/// When the records expire: `expire_hours` hours after `now`, where that
/// can be counted in seconds since the epoch.
pub open spec fn expiry(expire_hours: u64, now: i64) -> Option<u64> {
    if now >= 0 && expire_hours * 3600 + now <= u64::MAX {
        Some((expire_hours * 3600 + now) as u64)
    } else {
        None
    }
}

/// Puts the record of one file among the entries, in place of an earlier
/// record of the same path.
fn record_file(entries: &mut Vec<(Vec<u8>, TableCopiedFileInfo)>, file: &StageFileInfo)
    requires
        unique_paths(old(entries)@),
        sorted_by_path(old(entries)@),
    ensures
        unique_paths(final(entries)@),
        sorted_by_path(final(entries)@),
        entry_records(final(entries)@) == entry_records(old(entries)@).insert(file.path@, record_of(*file)),
{
    let etag = match &file.etag {
        Some(e) => {
            let mut short = copy_bytes(e);
            short.truncate(SHORT_ETAG_LEN);
            Some(short)
        },
        None => None,
    };
    let info = TableCopiedFileInfo { etag, content_length: file.size, last_modified: Some(file.last_modified) };
    assert(info@.etag =~= record_of(*file).etag);
    assert(info@ == record_of(*file));
    let path = copy_bytes(&file.path);
    let mut i: usize = 0;
    while i < entries.len()
        invariant
            i <= entries@.len(),
            entries@ == old(entries)@,
            unique_paths(old(entries)@),
            sorted_by_path(old(entries)@),
            info@ == record_of(*file),
            path@ == file.path@,
            forall|j: int| 0 <= j < i ==> (#[trigger] entries@[j]).0@ != file.path@,
        decreases entries@.len() - i,
    {
        if bytes_equal(&entries[i].0, &file.path) {
            entries.set(i, (path, info));
            proof {
                let before = old(entries)@;
                let after = entries@;
                assert forall|a: int, b: int| 0 <= a < b < after.len() implies (#[trigger] after[a]).0@ != (#[trigger] after[b]).0@ by {
                    assert(before[a].0@ != before[b].0@);
                }
                assert forall|a: int, b: int| 0 <= a < b < after.len() implies lex_less((#[trigger] after[a]).0@, (#[trigger] after[b]).0@) by {
                    assert(lex_less(before[a].0@, before[b].0@));
                }
                assert forall|p: Seq<u8>| #[trigger] entry_records(after).dom().contains(p) == entry_records(before).insert(file.path@, info@).dom().contains(p) by {
                    if entry_records(after).dom().contains(p) {
                        let k = choose|k: int| 0 <= k < after.len() && (#[trigger] after[k]).0@ == p;
                        assert(before[k].0@ == p);
                    }
                    if entry_records(before).dom().contains(p) {
                        let k = choose|k: int| 0 <= k < before.len() && (#[trigger] before[k]).0@ == p;
                        assert(after[k].0@ == p);
                    }
                    if p == file.path@ {
                        assert(after[i as int].0@ == p);
                    }
                }
                assert forall|p: Seq<u8>| entry_records(after).dom().contains(p) implies #[trigger] entry_records(after)[p] == entry_records(before).insert(file.path@, info@)[p] by {
                    let k = choose|k: int| 0 <= k < after.len() && (#[trigger] after[k]).0@ == p;
                    if p == file.path@ {
                        if k != i {
                            if k < i {
                                assert(after[k].0@ != after[i as int].0@);
                            } else {
                                assert(after[i as int].0@ != after[k].0@);
                            }
                        }
                    } else {
                        let m = choose|m: int| 0 <= m < before.len() && (#[trigger] before[m]).0@ == p;
                        assert(before[k].0@ == p);
                        if k != m {
                            if k < m {
                                assert(before[k].0@ != before[m].0@);
                            } else {
                                assert(before[m].0@ != before[k].0@);
                            }
                        }
                    }
                }
                assert(entry_records(after) =~= entry_records(before).insert(file.path@, info@));
            }
            return ;
        }
        i += 1;
    }
    let mut at: usize = 0;
    while at < entries.len() && bytes_less(&entries[at].0, &path)
        invariant
            at <= entries@.len(),
            entries@ == old(entries)@,
            forall|j: int| 0 <= j < at ==> lex_less((#[trigger] entries@[j]).0@, path@),
        decreases entries@.len() - at,
    {
        at += 1;
    }
    entries.insert(at, (path, info));
    proof {
        let before = old(entries)@;
        let after = entries@;
        let n = before.len() as int;
        let pos = at as int;
        assert forall|j: int| pos <= j < n implies lex_less(path@, (#[trigger] before[j]).0@) by {
            lemma_lex_total(path@, before[pos].0@);
            if j > pos {
                assert(lex_less(before[pos].0@, before[j].0@));
                lemma_lex_transitive(path@, before[pos].0@, before[j].0@);
            }
        }
        assert forall|a: int, b: int| 0 <= a < b < after.len() implies lex_less((#[trigger] after[a]).0@, (#[trigger] after[b]).0@) by {
            if a < pos && b < pos {
                assert(lex_less(before[a].0@, before[b].0@));
            } else if a < pos && b == pos {
                assert(lex_less(before[a].0@, path@));
            } else if a < pos {
                assert(lex_less(before[a].0@, before[b - 1].0@));
            } else if a == pos {
                assert(lex_less(path@, before[b - 1].0@));
            } else {
                assert(lex_less(before[a - 1].0@, before[b - 1].0@));
            }
        }
        assert forall|a: int, b: int| 0 <= a < b < after.len() implies (#[trigger] after[a]).0@ != (#[trigger] after[b]).0@ by {
            assert(lex_less(after[a].0@, after[b].0@));
            lemma_lex_irreflexive(after[a].0@);
        }
        assert forall|p: Seq<u8>| #[trigger] entry_records(after).dom().contains(p) == entry_records(before).insert(file.path@, info@).dom().contains(p) by {
            if entry_records(after).dom().contains(p) {
                let k = choose|k: int| 0 <= k < after.len() && (#[trigger] after[k]).0@ == p;
                if k < pos {
                    assert(before[k].0@ == p);
                } else if k > pos {
                    assert(before[k - 1].0@ == p);
                }
            }
            if entry_records(before).dom().contains(p) {
                let k = choose|k: int| 0 <= k < before.len() && (#[trigger] before[k]).0@ == p;
                if k < pos {
                    assert(after[k].0@ == p);
                } else {
                    assert(after[k + 1].0@ == p);
                }
            }
            if p == file.path@ {
                assert(after[pos].0@ == p);
            }
        }
        assert forall|p: Seq<u8>| entry_records(after).dom().contains(p) implies #[trigger] entry_records(after)[p] == entry_records(before).insert(file.path@, info@)[p] by {
            let k = choose|k: int| 0 <= k < after.len() && (#[trigger] after[k]).0@ == p;
            if p == file.path@ {
                if k != pos {
                    if k < pos {
                        assert(after[k].0@ != after[pos].0@);
                    } else {
                        assert(after[pos].0@ != after[k].0@);
                    }
                }
            } else {
                let m = choose|m: int| 0 <= m < before.len() && (#[trigger] before[m]).0@ == p;
                let kk = if k < pos {
                    k
                } else {
                    k - 1
                };
                assert(k != pos);
                assert(before[kk].0@ == p);
                if kk != m {
                    if kk < m {
                        assert(before[kk].0@ != before[m].0@);
                    } else {
                        assert(before[m].0@ != before[kk].0@);
                    }
                }
            }
        }
        assert(entry_records(after) =~= entry_records(before).insert(file.path@, info@));
    }
}

/// The request that records the copied files, as of the time `now` in
/// seconds since the epoch. No request is needed when the stage purges
/// after a forced copy, nor when nothing was copied. The records expire
/// `expire_hours` hours after `now`; a time that cannot be counted is
/// rejected.
pub fn upsert_copied_files_req_at(now: i64, expire_hours: u64, purge: bool, copied_files: &Vec<StageFileInfo>, force: bool) -> (r: Result<Option<UpsertTableCopiedFileReq>, ErrorCode>)
    ensures
        (purge && force) || copied_files@.len() == 0 ==> r matches Ok(None),
        !((purge && force) || copied_files@.len() == 0) ==> {
            &&& r.is_ok() <==> expiry(expire_hours, now).is_some()
            &&& r matches Err(e) ==> e == ErrorCode::ConfigurationError
            &&& r matches Ok(found) ==> found matches Some(req) && {
                &&& unique_paths(req.file_info@)
                &&& sorted_by_path(req.file_info@)
                &&& entry_records(req.file_info@) == file_records(copied_files@)
                &&& req.expire_at == expiry(expire_hours, now)
                &&& req.fail_if_duplicated == !force
            }
        },
{
    if (purge && force) || copied_files.len() == 0 {
        return Ok(None);
    }
    let mut tree: Vec<(Vec<u8>, TableCopiedFileInfo)> = Vec::new();
    let mut i: usize = 0;
    assert(entry_records(tree@) =~= file_records(copied_files@.subrange(0, 0)));
    while i < copied_files.len()
        invariant
            i <= copied_files@.len(),
            unique_paths(tree@),
            sorted_by_path(tree@),
            entry_records(tree@) == file_records(copied_files@.subrange(0, i as int)),
        decreases copied_files@.len() - i,
    {
        assert(copied_files@.subrange(0, i + 1).drop_last() =~= copied_files@.subrange(0, i as int));
        record_file(&mut tree, &copied_files[i]);
        i += 1;
    }
    assert(copied_files@.subrange(0, copied_files@.len() as int) =~= copied_files@);
    if now < 0 {
        return Err(ErrorCode::ConfigurationError);
    }
    let seconds = match expire_hours.checked_mul(3600) {
        Some(s) => s,
        None => {
            return Err(ErrorCode::ConfigurationError);
        },
    };
    let expire_at = match seconds.checked_add(now as u64) {
        Some(t) => t,
        None => {
            return Err(ErrorCode::ConfigurationError);
        },
    };
    Ok(Some(UpsertTableCopiedFileReq { file_info: tree, expire_at: Some(expire_at), fail_if_duplicated: !force }))
}

/// Reads the machine's clock with `std::time::SystemTime::now()` and has
/// `chrono` turn it into seconds since the epoch, through its conversion of
/// a `SystemTime` into a `DateTime<Utc>` and `DateTime::timestamp`. A clock
/// that reads a time before the epoch gives a negative number. The result
/// depends on the clock, so nothing is claimed of it.
#[verifier::external_body]
fn unix_now() -> (secs: i64) {
    chrono::DateTime::<chrono::Utc>::from(std::time::SystemTime::now()).timestamp()
}

/// The request that records the copied files, as of now.
pub fn build_upsert_copied_files_to_meta_req(expire_hours: u64, purge: bool, copied_files: &Vec<StageFileInfo>, force: bool) -> (r: Result<Option<UpsertTableCopiedFileReq>, ErrorCode>)
    ensures
        (purge && force) || copied_files@.len() == 0 ==> r matches Ok(None),
        !((purge && force) || copied_files@.len() == 0) ==> {
            &&& expire_hours * 3600 > u64::MAX ==> r.is_err()
            &&& r matches Err(e) ==> e == ErrorCode::ConfigurationError
            &&& r matches Ok(found) ==> found matches Some(req) && {
                &&& unique_paths(req.file_info@)
                &&& sorted_by_path(req.file_info@)
                &&& entry_records(req.file_info@) == file_records(copied_files@)
                &&& exists|now: i64| req.expire_at == #[trigger] expiry(expire_hours, now) && req.expire_at.is_some()
                &&& req.fail_if_duplicated == !force
            }
        },
{
    let now = unix_now();
    upsert_copied_files_req_at(now, expire_hours, purge, copied_files, force)
}

/// What a commit needs besides the pipeline: the record of the copied
/// files, if one is to be written, and whether old content is overwritten.
#[derive(Debug)]
pub struct CommitPlan {
    pub copied_files: Option<UpsertTableCopiedFileReq>,
    pub overwrite: bool,
}

/// Ends the pipeline in the commit, as of the time `now`, and registers
/// what is done once the copy has run.
pub fn build_commit_data_pipeline_at(
    now: i64,
    main_pipeline: &mut Pipeline,
    expire_hours: u64,
    stage_purge: bool,
    files: &Vec<StageFileInfo>,
    copy_force_option: bool,
    copy_purge_option: bool,
    insert_overwrite_option: bool,
) -> (r: Result<CommitPlan, ErrorCode>)
    requires
        old(main_pipeline).well_formed(),
    ensures
        final(main_pipeline).well_formed(),
        r.is_ok() <==> ((stage_purge && copy_force_option) || files@.len() == 0 || expiry(expire_hours, now).is_some()),
        r matches Err(e) ==> e == ErrorCode::ConfigurationError && *final(main_pipeline) == *old(main_pipeline),
        r matches Ok(plan) ==> {
            &&& plan.overwrite == insert_overwrite_option
            &&& plan.copied_files.is_some() <==> !((stage_purge && copy_force_option) || files@.len() == 0)
            &&& plan.copied_files matches Some(req) ==> {
                &&& sorted_by_path(req.file_info@)
                &&& entry_records(req.file_info@) == file_records(files@)
                &&& req.expire_at == expiry(expire_hours, now)
                &&& req.fail_if_duplicated == !copy_force_option
            }
            &&& final(main_pipeline).pipes@.drop_last() == old(main_pipeline).pipes@
            &&& final(main_pipeline).pipes@.len() == old(main_pipeline).pipes@.len() + 1
            &&& final(main_pipeline).pipes@.last().items@ == sink_layer(desc(ProcessorKind::CommitSink, 0, false, false), old(main_pipeline).spec_output_len())
            &&& final(main_pipeline).on_finished == Some(FinishHook::CopyCommitted { copied_files: files@.len() as usize, purge: copy_purge_option })
        },
{
    let copied_files = match upsert_copied_files_req_at(now, expire_hours, stage_purge, files, copy_force_option) {
        Ok(req) => req,
        Err(e) => {
            return Err(e);
        },
    };
    let sink = ProcessorDesc { kind: ProcessorKind::CommitSink, plan_id: 0, profiled: false, spilling: false };
    let _ = main_pipeline.add_sink(sink);
    set_copy_on_finished(files.len(), copy_purge_option, main_pipeline);
    Ok(CommitPlan { copied_files, overwrite: insert_overwrite_option })
}

/// Ends the pipeline in the commit, as of now, and registers what is done
/// once the copy has run.
pub fn build_commit_data_pipeline(
    main_pipeline: &mut Pipeline,
    expire_hours: u64,
    stage_purge: bool,
    files: &Vec<StageFileInfo>,
    copy_force_option: bool,
    copy_purge_option: bool,
    insert_overwrite_option: bool,
) -> (r: Result<CommitPlan, ErrorCode>)
    requires
        old(main_pipeline).well_formed(),
    ensures
        final(main_pipeline).well_formed(),
        (stage_purge && copy_force_option) || files@.len() == 0 ==> r.is_ok(),
        !((stage_purge && copy_force_option) || files@.len() == 0) && expire_hours * 3600 > u64::MAX ==> r.is_err(),
        r matches Err(e) ==> e == ErrorCode::ConfigurationError && *final(main_pipeline) == *old(main_pipeline),
        r matches Ok(plan) ==> {
            &&& plan.overwrite == insert_overwrite_option
            &&& plan.copied_files.is_some() <==> !((stage_purge && copy_force_option) || files@.len() == 0)
            &&& plan.copied_files matches Some(req) ==> {
                &&& sorted_by_path(req.file_info@)
                &&& entry_records(req.file_info@) == file_records(files@)
                &&& exists|now: i64| req.expire_at == #[trigger] expiry(expire_hours, now) && req.expire_at.is_some()
                &&& req.fail_if_duplicated == !copy_force_option
            }
            &&& final(main_pipeline).pipes@.drop_last() == old(main_pipeline).pipes@
            &&& final(main_pipeline).pipes@.last().items@ == sink_layer(desc(ProcessorKind::CommitSink, 0, false, false), old(main_pipeline).spec_output_len())
            &&& final(main_pipeline).on_finished == Some(FinishHook::CopyCommitted { copied_files: files@.len() as usize, purge: copy_purge_option })
        },
{
    let now = unix_now();
    build_commit_data_pipeline_at(
        now,
        main_pipeline,
        expire_hours,
        stage_purge,
        files,
        copy_force_option,
        copy_purge_option,
        insert_overwrite_option,
    )
}

/// Registers what is done once the copy has run.
pub fn set_copy_on_finished(copied_files: usize, copy_purge_option: bool, main_pipeline: &mut Pipeline)
    ensures
        final(main_pipeline).pipes == old(main_pipeline).pipes,
        final(main_pipeline).on_finished == Some(FinishHook::CopyCommitted { copied_files, purge: copy_purge_option }),
{
    main_pipeline.set_on_finished(FinishHook::CopyCommitted { copied_files, purge: copy_purge_option });
}

/// What is to be done when a copy has run.
#[derive(Clone, Copy, Debug, PartialEq, Eq, Structural)]
pub enum CopyFinishAction {
    /// The copy failed: report the error, touch nothing.
    ReportFailure(ErrorCode),
    /// The copy committed `copied_files` files: report that, and remove
    /// the copied files from the stage where `purge` asks for it.
    Complete { copied_files: usize, purge: bool },
}

/// Decides what is done when a copy has run with the outcome `may_error`.
pub fn copy_finished(hook: FinishHook, may_error: Option<ErrorCode>) -> (action: CopyFinishAction)
    ensures
        action == (match may_error {
            Some(e) => CopyFinishAction::ReportFailure(e),
            None => match hook {
                FinishHook::CopyCommitted { copied_files, purge } => CopyFinishAction::Complete { copied_files, purge },
            },
        }),
{
    match may_error {
        Some(e) => CopyFinishAction::ReportFailure(e),
        None => match hook {
            FinishHook::CopyCommitted { copied_files, purge } => CopyFinishAction::Complete { copied_files, purge },
        },
    }
}

} // verus!
