use mega_bench_reporter::criterion_results::{RatioRow, WorkloadRatios};
use mega_bench_reporter::dates::{cutoff_day, day_of, has_cutoff};
use mega_bench_reporter::double::Double;
use mega_bench_reporter::instructions::{InstrRatioRow, InstrRow, InstrWorkloadRatios};
use mega_bench_reporter::storage::{
    has_short_sha, in_date_order, most_recent, names_before, prune_flame_dirs, row_name,
    short_sha, stale_flame_dirs, stored_record, CommitRecord, FlameEntry, InstrRecord, RepoStore,
    StoredRecord,
};

fn d(x: f64) -> Double {
    Double::from_bits(x.to_bits())
}

fn ratio_row(subject: &str, mean_ns: f64, ratio: Option<f64>) -> RatioRow {
    RatioRow {
        subject: subject.to_string(),
        mean_ns: d(mean_ns),
        ratio_vs_baseline: ratio.map(d),
    }
}

fn sample_ratios() -> Vec<WorkloadRatios> {
    vec![
        WorkloadRatios {
            group: "salt_dynamic_gas".into(),
            workload: "sstore_100".into(),
            rows: vec![
                ratio_row("revm_pinned", 14000.0, Some(1.0)),
                ratio_row("rex5_salt", 28000.0, Some(2.0)),
            ],
        },
        WorkloadRatios {
            group: "empty_transaction".into(),
            workload: String::new(),
            rows: vec![ratio_row("rex5", 9000.0, None)],
        },
    ]
}

fn record(sha: &str, date: &str) -> CommitRecord {
    let mut r =
        CommitRecord::new(sha.into(), date.into(), "rustc 1.86.0".into(), "revm_pinned".into());
    r.add_ratios(&sample_ratios());
    r
}

fn instr(group: &str, workload: &str, subject: &str, count: u64, ratio: Option<f64>) -> InstrWorkloadRatios {
    InstrWorkloadRatios {
        group: group.into(),
        workload: workload.into(),
        rows: vec![InstrRatioRow {
            subject: subject.into(),
            count,
            ratio_vs_baseline: ratio.map(d),
        }],
    }
}

#[test]
fn test_instr_ratios_attach_to_rows_and_roundtrip() {
    let mut record = record("abcdef0123456789", "2026-07-02T10:00:00Z");
    let skipped = record.add_instr_ratios(&[
        instr("salt_dynamic_gas", "sstore_100", "rex5_salt", 25_000, Some(2.5)),
        // A count without a walltime row is skipped, not a panic and not
        // a phantom RowRecord.
        instr("missing_group", "", "rex5", 1, None),
    ]);
    let salt = record.groups.get("salt_dynamic_gas").unwrap();
    let row = salt.get("rex5_salt/sstore_100").unwrap();
    assert_eq!(row.instr, Some(InstrRecord { count: 25_000, ratio_vs_baseline: Some(d(2.5)) }));
    // The sibling row without instr data keeps its plain shape.
    assert_eq!(salt.get("revm_pinned/sstore_100").unwrap().instr, None);
    assert!(!record.groups.contains_key("missing_group"));
    assert_eq!(skipped, vec!["missing_group/rex5"]);
}

#[test]
fn test_instr_collection_reconstructs_rows_and_failed_targets() {
    // The carry-forward source: counts come back with the exact
    // (group, subject, workload) triples they were stored under —
    // including a bare row (no workload) — plus the failure markers.
    let mut rec = record("abcdef0123456789", "2026-07-02T10:00:00Z");
    rec.add_instr_ratios(&[
        instr("salt_dynamic_gas", "sstore_100", "rex5_salt", 25_000, Some(2.5)),
        instr("empty_transaction", "", "rex5", 9_000, None),
    ]);
    rec.instr_failed_targets = Some(vec!["block_bench".to_string()]);

    let collection = rec.instr_collection().expect("instr data present");
    assert_eq!(collection.failed_targets, vec!["block_bench".to_string()]);
    let mut rows = collection.rows;
    rows.sort_by(|a, b| (&a.group, &a.subject).cmp(&(&b.group, &b.subject)));
    assert_eq!(
        rows,
        vec![
            InstrRow {
                group: "empty_transaction".into(),
                subject: "rex5".into(),
                workload: String::new(),
                count: 9_000,
            },
            InstrRow {
                group: "salt_dynamic_gas".into(),
                subject: "rex5_salt".into(),
                workload: "sstore_100".into(),
                count: 25_000,
            },
        ]
    );

    // A record without any instructions data has nothing to carry.
    assert_eq!(record("abcdef0123456789", "2026-07-02T10:00:00Z").instr_collection(), None);
}

#[test]
fn test_record_shape_matches_plan_schema() {
    let r = record("abcdef0123456789", "2026-07-02T10:00:00Z");
    assert_eq!(r.short_sha(), "abcdef0");
    assert_eq!(r.day().unwrap(), "20260702");
    assert_eq!(
        r.groups
            .get("salt_dynamic_gas")
            .unwrap()
            .get("rex5_salt/sstore_100")
            .unwrap()
            .ratio_vs_baseline,
        Some(d(2.0))
    );
    // Bare row (no workload) keys on the subject alone.
    assert_eq!(r.groups.get("empty_transaction").unwrap().get("rex5").unwrap().ns, d(9000.0));
}

#[test]
fn test_write_then_load_roundtrip_and_layout() {
    let store = RepoStore::new("/tmp/data", "mega-evm");
    let r = record("abcdef0123456789", "2026-07-02T10:00:00Z");
    let dir = store.commit_dir(&r).unwrap();
    assert_eq!(dir, "/tmp/data/mega-evm/commits/20260702-abcdef0");
    let loaded = in_date_order(vec![stored_record(dir, r.clone())]);
    assert_eq!(loaded.len(), 1);
    assert_eq!(loaded[0].record, r);
}

fn stored(records: Vec<CommitRecord>) -> Vec<StoredRecord> {
    records.into_iter().map(|r| stored_record(r.commit.clone(), r)).collect()
}

#[test]
fn test_recent_records_sorted_by_date_not_dirname() {
    // Same day, shas that sort backwards lexicographically vs arrival order.
    let all = stored(vec![
        record("fff0000000", "2026-07-02T08:00:00Z"),
        record("aaa0000000", "2026-07-02T12:00:00Z"),
        record("bbb0000000", "2026-07-01T23:00:00Z"),
    ]);
    let recent = most_recent(in_date_order(all), 2);
    let shas: Vec<&str> = recent.iter().map(|r| r.record.short_sha()).collect();
    assert_eq!(shas, vec!["fff0000", "aaa0000"]);
}

#[test]
fn records_are_ordered_by_instant_whatever_the_offset() {
    let all = stored(vec![
        // 09:00 UTC.
        record("1", "2026-07-02T11:00:00+02:00"),
        // 08:30 UTC.
        record("2", "2026-07-02T03:30:00-05:00"),
        // No date at all sorts first.
        record("3", "yesterday"),
        record("4", "2026-07-02T08:45:00.5Z"),
    ]);
    let order: Vec<String> = in_date_order(all).into_iter().map(|r| r.record.commit).collect();
    assert_eq!(order, vec!["3", "2", "4", "1"]);
}

#[test]
fn test_digest_and_flame_dir_naming() {
    let store = RepoStore::new("/data", "mega-evm");
    assert_eq!(
        store.digest_dir("20260702", "abcdef0123", "1234567abc"),
        "/data/mega-evm/digests/20260702-abcdef0..1234567"
    );
    assert_eq!(store.flame_dir("20260702"), "/data/mega-evm/flame/20260702");
}

#[test]
fn the_other_paths_of_a_store() {
    let store = RepoStore::new("/data", "mega-evm");
    assert_eq!(store.root(), "/data/mega-evm");
    assert_eq!(store.state_path(), "/data/mega-evm/state.json");
    assert_eq!(store.commits_dir(), "/data/mega-evm/commits");
    assert_eq!(
        store.trend_dir("20260702", "abcdef0123", "1234567abc"),
        "/data/mega-evm/trends/20260702-abcdef0..1234567"
    );
}

fn day_dirs() -> Vec<FlameEntry> {
    ["20260601", "20260620", "20260701"]
        .iter()
        .map(|day| FlameEntry { name: day.to_string(), is_dir: true })
        .collect()
}

#[test]
fn test_prune_flame_dirs_keeps_recent() {
    let pruned = prune_flame_dirs(&day_dirs(), "20260702", 14).unwrap().unwrap();
    assert_eq!(pruned, vec!["20260601".to_string()]);
}

#[test]
fn pruning_leaves_files_and_sorts_its_names() {
    let mut entries = day_dirs();
    entries.reverse();
    entries.push(FlameEntry { name: "20200101".to_string(), is_dir: false });
    assert_eq!(names_before(&entries, "20260625"), vec!["20260601", "20260620"]);
    // The cutoff day itself is kept.
    assert_eq!(names_before(&entries, "20260601"), Vec::<String>::new());
    let err = stale_flame_dirs(&entries, "2026-07-02", 14).unwrap_err();
    assert!(err.starts_with("bad YYYYMMDD day '2026-07-02': "), "{err}");
}

#[test]
fn pruning_needs_a_day_that_the_calendar_reaches() {
    assert!(has_cutoff("20260702", 14));
    assert!(has_cutoff("no day", u32::MAX));
    assert!(!has_cutoff("20260702", u32::MAX));
    assert!(prune_flame_dirs(&day_dirs(), "20260702", u32::MAX).is_none());
    assert!(prune_flame_dirs(&day_dirs(), "no day", u32::MAX).unwrap().is_err());
    assert_eq!(
        prune_flame_dirs(&day_dirs(), "20260702", 14),
        Some(stale_flame_dirs(&day_dirs(), "20260702", 14))
    );
}

#[test]
fn days_and_cutoffs_cross_months_and_years() {
    assert_eq!(cutoff_day("20260702", 14).unwrap(), "20260618");
    assert_eq!(cutoff_day("20260301", 1).unwrap(), "20260228");
    assert_eq!(cutoff_day("20240301", 1).unwrap(), "20240229");
    assert_eq!(cutoff_day("20260101", 366).unwrap(), "20241231");
    assert_eq!(cutoff_day("20260702", 0).unwrap(), "20260702");
    assert_eq!(day_of("2026-07-02T23:59:59+09:00").unwrap(), "20260702");
    let err = day_of("07/02/2026").unwrap_err();
    assert!(err.starts_with("bad RFC3339 date '07/02/2026': "), "{err}");
}

#[test]
fn short_shas_and_row_names() {
    assert_eq!(short_sha("abcdef0123"), "abcdef0");
    assert_eq!(short_sha("abc"), "abc");
    assert!(has_short_sha("abcdef0123"));
    // A character across the cut.
    assert!(!has_short_sha("abcdef\u{e9}"));
    assert_eq!(row_name("rex5", ""), "rex5");
    assert_eq!(row_name("rex5", "w"), "rex5/w");
}
