use query_pipeline::block_reader::{assemble_raw_reads, find_merged_data, plan_merged_reads};
use query_pipeline::copy::{
    build_append_data_pipeline, build_commit_data_pipeline, build_commit_data_pipeline_at,
    build_upsert_copied_files_to_meta_req, bytes_less, copy_finished, same_schema, set_copy_on_finished,
    upsert_copied_files_req_at, CopyFinishAction, CopyIntoTableMode, CopyIntoTablePlan,
    CopyPlanType, DistributedCopyIntoTable, StageFileInfo, TableCopiedFileInfo,
};
use query_pipeline::dal::{spells_word, StorageScheme};
use query_pipeline::datavalues::{DataField, DataType, DataValue};
use query_pipeline::error::ErrorCode;
use query_pipeline::pipeline::{FinishHook, Pipeline, ProcessorDesc, ProcessorKind};
use query_pipeline::range_merger::{check_overlaps, sort_by_start, ByteRange, RangeMerger};

fn r(start: u64, end: u64) -> ByteRange {
    ByteRange { start, end }
}

fn field(name: &str, t: DataType) -> DataField {
    DataField::new(name.to_string(), t)
}

fn file(path: &str, size: u64, etag: Option<&str>, modified: i64) -> StageFileInfo {
    StageFileInfo {
        path: path.as_bytes().to_vec(),
        size,
        etag: etag.map(|e| e.as_bytes().to_vec()),
        last_modified: modified,
    }
}

fn source_pipeline(width: usize) -> Pipeline {
    let mut p = Pipeline::create();
    p.add_source(ProcessorDesc { kind: ProcessorKind::Source, plan_id: 0, profiled: false, spilling: false }, width)
        .unwrap();
    p
}

#[test]
fn ranges_within_the_gap_are_merged() {
    let raw = vec![r(0, 100), r(150, 200), r(1500, 1600), r(100, 120)];
    let m = RangeMerger::from_iter(&raw, 60, 10_000);
    assert_eq!(m.ranges(), vec![r(0, 200), r(1500, 1600)]);
    assert_eq!(m.get(r(150, 200)), Some((0, r(0, 200))));
    assert_eq!(m.get(r(1500, 1510)), Some((1, r(1500, 1600))));
    assert_eq!(m.get(r(190, 210)), None);
    assert_eq!(m.get(r(300, 400)), None);
}

#[test]
fn ranges_beyond_the_gap_or_the_size_limit_stay_apart() {
    let raw = vec![r(0, 100), r(161, 200)];
    let m = RangeMerger::from_iter(&raw, 60, 10_000);
    assert_eq!(m.ranges(), vec![r(0, 100), r(161, 200)]);
    // the gap is met exactly
    let m = RangeMerger::from_iter(&vec![r(0, 100), r(160, 200)], 60, 10_000);
    assert_eq!(m.ranges(), vec![r(0, 200)]);
    // a read that has reached the size limit takes no more
    let m = RangeMerger::from_iter(&vec![r(0, 100), r(100, 150), r(150, 170)], 60, 150);
    assert_eq!(m.ranges(), vec![r(0, 150), r(150, 170)]);
    let m = RangeMerger::from_iter(&vec![], 1, 1);
    assert_eq!(m.ranges(), vec![]);
}

#[test]
fn every_raw_range_is_covered() {
    let mut raw = Vec::new();
    let mut s: u64 = 7;
    for _ in 0..200 {
        s = s.wrapping_mul(6364136223846793005).wrapping_add(1442695040888963407);
        let start = (s >> 40) % 100_000;
        let len = (s >> 20) % 700;
        raw.push(r(start, start + len));
    }
    for (gap, limit) in [(0u64, 0u64), (0, 1 << 40), (1024, 512 * 1024), (u64::MAX, u64::MAX), (50, 300)] {
        let m = RangeMerger::from_iter(&raw, gap, limit);
        for range in raw.iter() {
            let (i, cover) = m.get(*range).unwrap();
            assert!(cover.start <= range.start && range.end <= cover.end);
            assert_eq!(m.ranges[i], cover);
        }
    }
}

#[test]
fn sort_by_start_is_stable() {
    let raw = vec![r(5, 6), r(1, 9), r(5, 5), r(0, 1), r(1, 2)];
    assert_eq!(sort_by_start(&raw), vec![r(0, 1), r(1, 9), r(1, 2), r(5, 6), r(5, 5)]);
    assert!(check_overlaps(&r(0, 10), &r(12, 20), 2, 100));
    assert!(!check_overlaps(&r(0, 10), &r(13, 20), 2, 100));
    assert!(!check_overlaps(&r(0, 10), &r(5, 6), 2, 10));
    assert!(check_overlaps(&r(1, u64::MAX), &r(5, 6), u64::MAX, u64::MAX));
    assert!(!check_overlaps(&r(0, u64::MAX), &r(5, 6), u64::MAX, u64::MAX));
}

#[test]
fn merged_reads_are_cut_back_into_raw_ranges() {
    let raw = vec![(7usize, r(10, 14)), (3, r(100, 103)), (9, r(12, 20))];
    let merger = plan_merged_reads(&raw, 5, 1000).unwrap();
    assert_eq!(merger.ranges(), vec![r(10, 20), r(100, 103)]);
    let data = vec![(1usize, vec![50u8, 51, 52]), (0, (0u8..10).collect::<Vec<u8>>())];
    assert_eq!(find_merged_data(&data, 0), Some(1));
    assert_eq!(find_merged_data(&data, 2), None);
    let out = assemble_raw_reads(&raw, &merger, &data).unwrap();
    assert_eq!(
        out,
        vec![(7, vec![0, 1, 2, 3]), (3, vec![50, 51, 52]), (9, vec![2, 3, 4, 5, 6, 7, 8, 9])]
    );
}

#[test]
fn assembling_reports_what_is_missing() {
    let raw = vec![(0usize, r(10, 14)), (1, r(100, 103))];
    let merger = plan_merged_reads(&raw, 5, 1000).unwrap();
    // the bytes of merged range 1 were not read
    let data = vec![(0usize, vec![1u8, 2, 3, 4])];
    assert_eq!(assemble_raw_reads(&raw, &merger, &data), Err(ErrorCode::InternalInvariantViolation));
    // the read came back short
    let data = vec![(0usize, vec![1u8, 2, 3]), (1, vec![1, 2, 3])];
    assert_eq!(assemble_raw_reads(&raw, &merger, &data), Err(ErrorCode::IOError));
    // a raw range that no merged range covers
    let other = vec![(0usize, r(500, 501))];
    let data = vec![(0usize, vec![1u8, 2, 3, 4]), (1, vec![1, 2, 3])];
    assert_eq!(assemble_raw_reads(&other, &merger, &data), Err(ErrorCode::InternalInvariantViolation));
    // a range that ends before it starts
    assert_eq!(plan_merged_reads(&vec![(0, r(5, 4))], 1, 1).err(), Some(ErrorCode::ConfigurationError));
    assert_eq!(assemble_raw_reads(&vec![(0, r(5, 4))], &merger, &data), Err(ErrorCode::ConfigurationError));
}

#[test]
fn copied_files_request_records_each_path_once() {
    let files = vec![
        file("a.csv", 10, Some("0123456789abcdef"), 1000),
        file("b.csv", 20, None, 2000),
        file("a.csv", 30, Some("short"), 3000),
    ];
    let req = upsert_copied_files_req_at(1_700_000_000, 12, false, &files, false).unwrap().unwrap();
    assert_eq!(req.expire_at, Some(12 * 3600 + 1_700_000_000));
    assert!(req.fail_if_duplicated);
    let mut entries = req.file_info.clone();
    entries.sort_by(|x, y| x.0.cmp(&y.0));
    assert_eq!(
        entries,
        vec![
            (
                b"a.csv".to_vec(),
                TableCopiedFileInfo { etag: Some(b"short".to_vec()), content_length: 30, last_modified: Some(3000) }
            ),
            (b"b.csv".to_vec(), TableCopiedFileInfo { etag: None, content_length: 20, last_modified: Some(2000) }),
        ]
    );
}

#[test]
fn copied_files_request_shortens_the_etag_to_seven_bytes() {
    let files = vec![file("a", 1, Some("0123456789"), 5), file("b", 1, Some("0123456"), 5), file("c", 1, Some(""), 5)];
    let req = upsert_copied_files_req_at(0, 0, true, &files, false).unwrap().unwrap();
    let etags: Vec<Option<Vec<u8>>> = req.file_info.iter().map(|e| e.1.etag.clone()).collect();
    assert_eq!(etags, vec![Some(b"0123456".to_vec()), Some(b"0123456".to_vec()), Some(vec![])]);
    assert_eq!(req.expire_at, Some(0));
}

#[test]
fn copied_files_request_is_not_needed_after_a_forced_purging_copy() {
    let files = vec![file("a", 1, None, 5)];
    assert_eq!(upsert_copied_files_req_at(5, 1, true, &files, true), Ok(None));
    assert_eq!(upsert_copied_files_req_at(5, 1, false, &vec![], false), Ok(None));
    // forced without purge: recorded, duplicates allowed
    let req = upsert_copied_files_req_at(5, 1, false, &files, true).unwrap().unwrap();
    assert!(!req.fail_if_duplicated);
    assert_eq!(req.expire_at, Some(3605));
}

#[test]
fn copied_files_request_rejects_a_time_that_cannot_be_counted() {
    let files = vec![file("a", 1, None, 5)];
    assert_eq!(upsert_copied_files_req_at(-1, 1, false, &files, false), Err(ErrorCode::ConfigurationError));
    assert_eq!(upsert_copied_files_req_at(1, u64::MAX, false, &files, false), Err(ErrorCode::ConfigurationError));
    assert_eq!(
        upsert_copied_files_req_at(i64::MAX, u64::MAX / 3600, false, &files, false),
        Err(ErrorCode::ConfigurationError)
    );
    // nothing to record: the time does not matter
    assert_eq!(upsert_copied_files_req_at(-1, u64::MAX, true, &files, true), Ok(None));
}

#[test]
fn copied_files_request_expires_after_now() {
    let files = vec![file("a", 1, None, 5)];
    let req = build_upsert_copied_files_to_meta_req(2, false, &files, false).unwrap().unwrap();
    // the clock reads a time after 2020-01-01
    assert!(req.expire_at.unwrap() >= 2 * 3600 + 1_577_836_800);
    assert!(req.expire_at.unwrap() < 2 * 3600 + 32_503_680_000);
    assert_eq!(build_upsert_copied_files_to_meta_req(2, true, &files, true), Ok(None));
}

#[test]
fn append_pipeline_adds_the_stages_the_plan_needs() {
    let source = vec![field("a", DataType::UInt8)];
    let plan = |mode, consts: Vec<DataValue>, required: Vec<DataField>| {
        CopyPlanType::CopyIntoTablePlanOption(CopyIntoTablePlan {
            required_source_schema: required,
            required_values_schema: vec![field("a", DataType::UInt8), field("c", DataType::UInt8)],
            values_consts: consts,
            write_mode: mode,
        })
    };
    let kinds = |p: &Pipeline| -> Vec<ProcessorKind> { p.pipes.iter().map(|l| l.items[0].processor.kind).collect() };

    let mut p = source_pipeline(3);
    let over = build_append_data_pipeline(
        &mut p,
        plan(CopyIntoTableMode::Insert { overwrite: true }, vec![DataValue::UInt(1)], vec![field("a", DataType::UInt16)]),
        &source,
    );
    assert_eq!(over, Ok(true));
    assert_eq!(
        kinds(&p),
        vec![ProcessorKind::Source, ProcessorKind::CastSchema, ProcessorKind::AddConstColumns, ProcessorKind::AppendTable]
    );
    assert!(p.pipes.iter().all(|l| l.items.len() == 3));

    let mut p = source_pipeline(2);
    let r = build_append_data_pipeline(&mut p, plan(CopyIntoTableMode::Replace, vec![], source.clone()), &source);
    assert_eq!(r, Ok(false));
    assert_eq!(kinds(&p), vec![ProcessorKind::Source]);

    let mut p = source_pipeline(2);
    let r = build_append_data_pipeline(&mut p, plan(CopyIntoTableMode::Copy, vec![], source.clone()), &source);
    assert_eq!(r, Ok(false));
    assert_eq!(kinds(&p), vec![ProcessorKind::Source, ProcessorKind::AppendTable]);

    let mut p = source_pipeline(2);
    let distributed = CopyPlanType::DistributedCopyIntoTable(DistributedCopyIntoTable {
        required_source_schema: vec![field("b", DataType::UInt8)],
        required_values_schema: vec![],
        values_consts: vec![],
        write_mode: CopyIntoTableMode::Insert { overwrite: false },
    });
    assert_eq!(build_append_data_pipeline(&mut p, distributed, &source), Ok(false));
    assert_eq!(kinds(&p), vec![ProcessorKind::Source, ProcessorKind::CastSchema, ProcessorKind::AppendTable]);

    assert!(same_schema(&source, &vec![field("a", DataType::UInt8)]));
    assert!(!same_schema(&source, &vec![field("a", DataType::UInt16)]));
    assert!(!same_schema(&source, &vec![]));
}

#[test]
fn commit_pipeline_ends_in_the_commit_and_registers_the_hook() {
    let files = vec![file("a", 1, None, 5), file("b", 2, None, 6)];
    let mut p = source_pipeline(4);
    let plan = build_commit_data_pipeline_at(100, &mut p, 1, false, &files, false, true, true).unwrap();
    assert!(plan.overwrite);
    assert_eq!(plan.copied_files.as_ref().unwrap().expire_at, Some(3700));
    assert_eq!(plan.copied_files.as_ref().unwrap().file_info.len(), 2);
    assert_eq!(p.pipes.len(), 2);
    assert_eq!(p.pipes[1].items.len(), 4);
    assert_eq!(p.pipes[1].items[0].processor.kind, ProcessorKind::CommitSink);
    assert_eq!(p.output_len(), 0);
    assert_eq!(p.on_finished, Some(FinishHook::CopyCommitted { copied_files: 2, purge: true }));

    // a time that cannot be counted: nothing is touched
    let mut p = source_pipeline(4);
    let r = build_commit_data_pipeline_at(-5, &mut p, 1, false, &files, false, true, true);
    assert_eq!(r.err(), Some(ErrorCode::ConfigurationError));
    assert_eq!(p.pipes.len(), 1);
    assert_eq!(p.on_finished, None);

    // as of now
    let mut p = source_pipeline(1);
    let plan = build_commit_data_pipeline(&mut p, 1, true, &files, true, false, false).unwrap();
    assert!(plan.copied_files.is_none());
    assert_eq!(p.on_finished, Some(FinishHook::CopyCommitted { copied_files: 2, purge: false }));
}

#[test]
fn copy_on_finished_decides_by_the_outcome() {
    let mut p = source_pipeline(1);
    set_copy_on_finished(3, true, &mut p);
    let hook = p.on_finished.unwrap();
    assert_eq!(copy_finished(hook, None), CopyFinishAction::Complete { copied_files: 3, purge: true });
    assert_eq!(copy_finished(hook, Some(ErrorCode::IOError)), CopyFinishAction::ReportFailure(ErrorCode::IOError));
    set_copy_on_finished(0, false, &mut p);
    assert_eq!(
        copy_finished(p.on_finished.unwrap(), None),
        CopyFinishAction::Complete { copied_files: 0, purge: false }
    );
}

#[test]
fn storage_scheme_names() {
    assert_eq!(StorageScheme::parse(b"S3"), Ok(StorageScheme::S3));
    assert_eq!(StorageScheme::parse(b"s3"), Ok(StorageScheme::S3));
    assert_eq!(StorageScheme::parse(b"azure_storage_blob"), Ok(StorageScheme::AzureStorageBlob));
    assert_eq!(StorageScheme::parse(b"Azure_Storage_Blob"), Ok(StorageScheme::AzureStorageBlob));
    for name in [&b"local_fs"[..], b"LOCAL", b"disk", b"Disk", b"LOCAL_FS"] {
        assert_eq!(StorageScheme::parse(name), Ok(StorageScheme::LocalFs));
    }
    for name in [&b""[..], b"s", b"s33", b"local_", b"hdfs", b"S3 ", b"d\xc4\xb1sk"] {
        assert_eq!(StorageScheme::parse(name), Err(ErrorCode::ConfigurationError));
    }
    assert_eq!(StorageScheme::S3.service_name(), "s3");
    assert_eq!(StorageScheme::LocalFs.service_name(), "fs");
    assert_eq!(StorageScheme::AzureStorageBlob.service_name(), "azblob");
    assert!(spells_word(b"dIsK", &b"DISK".to_vec()));
    assert!(!spells_word(b"DISK", &b"disk".to_vec()));
}

#[test]
fn copied_files_are_recorded_in_ascending_path_order() {
    let files = vec![
        file("b/2", 1, None, 0),
        file("a", 2, None, 0),
        file("b", 3, None, 0),
        file("", 4, None, 0),
        file("ab", 5, None, 0),
        file("a", 6, None, 0),
        file("B", 7, None, 0),
    ];
    let req = upsert_copied_files_req_at(0, 0, false, &files, true).unwrap().unwrap();
    let paths: Vec<&[u8]> = req.file_info.iter().map(|e| e.0.as_slice()).collect();
    assert_eq!(paths, vec![&b""[..], b"B", b"a", b"ab", b"b", b"b/2"]);
    assert_eq!(req.file_info[2].1.content_length, 6);
    assert!(bytes_less(&b"ab".to_vec(), &b"b".to_vec()));
    assert!(bytes_less(&b"a".to_vec(), &b"ab".to_vec()));
    assert!(!bytes_less(&b"a".to_vec(), &b"a".to_vec()));
    assert!(!bytes_less(&b"b".to_vec(), &b"ab".to_vec()));
    assert!(!bytes_less(&vec![], &vec![]));
}
