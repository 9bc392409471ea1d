use mega_bench_reporter::digest::{
    alert_markers, build_adhoc_trend, build_digest, build_summary, instr_y_desc, numeric,
    select_window, walltime_y_desc, DigestSummary, TrendOutcome, TrendRequest, TREND_MAX_SERIES,
};
use mega_bench_reporter::double::Double;
use mega_bench_reporter::lane::Lane;
use mega_bench_reporter::storage::{CommitRecord, InstrRecord, RepoStore, RowRecord};
use mega_bench_reporter::strmap::StrMap;

fn d(x: f64) -> Double {
    Double::from_bits(x.to_bits())
}

fn f(x: Double) -> f64 {
    f64::from_bits(x.to_bits())
}

fn put(record: &mut CommitRecord, group: &str, row_name: &str, row: RowRecord) {
    let mut rows = record.groups.remove(group).unwrap_or_else(StrMap::new);
    rows.insert(row_name.to_string(), row);
    record.groups.insert(group.to_string(), rows);
}

fn record_with(
    sha: &str,
    date: &str,
    rows: &[(&str, &str, f64, Option<f64>)],
    failed: &[&str],
) -> CommitRecord {
    let mut record = CommitRecord::new(
        sha.to_string(),
        date.to_string(),
        "rustc 1.86.0".into(),
        "revm_pinned".into(),
    );
    record.failed_targets = failed.iter().map(|s| s.to_string()).collect();
    for (group, row_name, ns, ratio) in rows {
        let row = RowRecord { ns: d(*ns), ratio_vs_baseline: ratio.map(d), instr: None };
        put(&mut record, group, row_name, row);
    }
    record
}

fn window() -> Vec<CommitRecord> {
    (0..10)
        .map(|i| {
            record_with(
                &format!("{:040x}", 0x1000 + i),
                &format!("2026-07-0{}T0{}:00:00Z", i / 5 + 1, i % 5),
                &[
                    (
                        "salt_dynamic_gas",
                        "rex5_salt/sstore_100",
                        28000.0,
                        Some(2.0 + i as f64 * 0.01),
                    ),
                    ("salt_dynamic_gas", "revm_pinned/sstore_100", 14000.0, Some(1.0)),
                    ("salt_dynamic_gas", "rex4/sstore_100", 20000.0, Some(1.43)),
                    ("empty_transaction", "rex5", 9000.0, Some(1.2)),
                    // A rexless row and a ratio-less rex5 row: both excluded.
                    ("oracle_real_data", "rex5_oracle/oracle_sload_50", 5000.0, None),
                ],
                if i == 3 { &["block_bench"] } else { &[] },
            )
        })
        .collect()
}

fn rex5_family() -> Vec<String> {
    vec!["rex5".to_string(), "rex5_*".to_string()]
}

fn every_key() -> Vec<String> {
    vec!["*".to_string()]
}

/// Like [`window`], but the `rex5_salt` headline row also carries
/// instructions ratios on even-indexed commits — odd commits have no
/// instructions data, so their positions must fall out as `null` in the
/// instructions series (the null-padding contract).
fn window_with_instr() -> Vec<CommitRecord> {
    let mut records = window();
    for (i, record) in records.iter_mut().enumerate() {
        if i % 2 != 0 {
            continue;
        }
        let mut salt =
            *record.groups.get("salt_dynamic_gas").unwrap().get("rex5_salt/sstore_100").unwrap();
        salt.instr = Some(InstrRecord { count: 25_000, ratio_vs_baseline: Some(d(2.5)) });
        put(record, "salt_dynamic_gas", "rex5_salt/sstore_100", salt);
    }
    records
}

fn summary(records: &[CommitRecord]) -> DigestSummary {
    build_summary(records, &rex5_family(), &every_key())
}

fn store() -> RepoStore {
    RepoStore::new("/data", "mega-evm")
}

#[test]
fn test_build_summary_headline_rows_sorted_by_median() {
    let summary = summary(&window());
    let keys: Vec<&str> = summary.rows.iter().map(|r| r.row_key.as_str()).collect();
    // rex4 and revm_pinned rows excluded; ratio-less rex5_oracle row excluded.
    assert_eq!(keys, vec!["salt_dynamic_gas/rex5_salt/sstore_100", "empty_transaction/rex5"]);
    let salt = &summary.rows[0];
    assert_eq!(salt.first, Some(d(2.0)));
    assert_eq!(salt.last, Some(d(2.09)));
    assert_eq!(salt.ratios.len(), 10);
    assert_eq!(summary.failed_targets, vec!["block_bench".to_string()]);
    // Ten values: the median is the mean of the two in the middle.
    assert_eq!(salt.median.map(f), Some((2.04 + 2.05) / 2.0));
}

#[test]
fn test_select_window_last_and_sha_bounds() {
    let records = window();
    let sha = |i: u64| format!("{:040x}", 0x1000 + i);

    let recent = select_window(records.clone(), 3, None, None).unwrap();
    assert_eq!(recent.len(), 3);
    assert_eq!(recent[0].commit, sha(7));

    let mid = select_window(records.clone(), 999, Some(&sha(2)), Some(&sha(5))).unwrap();
    assert_eq!(mid.len(), 4);
    assert_eq!(mid[0].commit, sha(2));
    assert_eq!(mid[3].commit, sha(5));

    let from_only = select_window(records.clone(), 999, Some(&sha(8)), None).unwrap();
    assert_eq!(from_only.len(), 2);

    assert!(select_window(records.clone(), 5, Some("deadbeef"), None).is_err());
    assert!(select_window(records.clone(), 5, Some(&sha(5)), Some(&sha(2))).is_err());
    // last = 0 is a user error, not an implicit 1.
    assert!(select_window(records.clone(), 0, None, None).is_err());
    // ...but it is ignored (like any other last) when sha bounds are given.
    assert!(select_window(records, 0, Some(&sha(2)), Some(&sha(5))).is_ok());
}

fn trend(metric: Lane, records: &[CommitRecord], patterns: &[&str], out: Option<&str>) -> Result<TrendOutcome, String> {
    build_adhoc_trend(
        &store(),
        "mega-evm",
        "rex5, rex5_*",
        &rex5_family(),
        d(10.0),
        d(2.0),
        metric,
        records,
        &TrendRequest {
            row_patterns: patterns.iter().map(|s| s.to_string()).collect(),
            out: out.map(str::to_string),
        },
    )
}

#[test]
fn test_build_adhoc_trend_row_filter_and_default_scope() {
    let records = window();

    // A non-headline row is reachable via an explicit --row pattern.
    let rex4 = trend(Lane::Walltime, &records, &["salt_dynamic_gas/rex4/*"], None).unwrap();
    assert_eq!(rex4.rows, vec!["salt_dynamic_gas/rex4/sstore_100".to_string()]);
    assert_eq!(rex4.commits.len(), 10);
    assert!(rex4.dir.starts_with("/data/mega-evm/trends/"));
    assert_eq!(rex4.chart.path, format!("{}/trend.png", rex4.dir));

    // Default scope = the headline family.
    let headline = trend(Lane::Walltime, &records, &[], None).unwrap();
    assert_eq!(headline.rows.len(), 2);

    // A pattern matching nothing is an error, not an empty chart.
    assert!(trend(Lane::Walltime, &records, &["nope/*"], None).is_err());

    // An output directory of the caller's choice.
    let out = trend(Lane::Walltime, &records, &[], Some("/elsewhere")).unwrap();
    assert_eq!(out.dir, "/elsewhere");
}

#[test]
fn test_build_summary_instr_series_null_padding_and_omission() {
    // Lane off (no instr anywhere): instr_series is None, keeping lane-off
    // digests stable.
    assert!(summary(&window()).instr_series.is_none());

    // Lane on for even commits only: the instructions series carries the
    // salt row, null-padded at the odd commits with no instructions data.
    let summary = summary(&window_with_instr());
    let instr = summary.instr_series.expect("instr_series present");
    let salt = instr
        .iter()
        .find(|r| r.row_key == "salt_dynamic_gas/rex5_salt/sstore_100")
        .expect("salt row in instr_series");
    assert_eq!(salt.ratios.len(), 10, "aligned to the same commits as rows");
    for (i, ratio) in salt.ratios.iter().enumerate() {
        if i % 2 == 0 {
            assert_eq!(*ratio, Some(d(2.5)), "commit {i} has instructions data");
        } else {
            assert_eq!(*ratio, None, "commit {i} has no instructions data → null");
        }
    }
    // The non-instrumented rex5 headline row is absent from instr_series.
    assert!(instr.iter().all(|r| r.row_key != "empty_transaction/rex5"));
}

#[test]
fn test_build_digest_renders_instr_trend_only_with_data() {
    let digest = |records: &[CommitRecord]| {
        build_digest(&store(), "mega-evm", "rex5, rex5_*", &rex5_family(), d(10.0), d(2.0), records)
            .unwrap()
    };
    // Lane off: trend.png only, no instr_trend.png, no instr_series.
    let off = digest(&window());
    assert_eq!(off.charts.len(), 1);
    assert_eq!(off.charts[0].path, format!("{}/trend.png", off.dir));
    assert!(off.summary.instr_series.is_none());

    // Lane on: both charts, and the summary carries instr_series.
    let on = digest(&window_with_instr());
    let paths: Vec<&str> = on.charts.iter().map(|c| c.path.as_str()).collect();
    assert_eq!(
        paths,
        vec![format!("{}/trend.png", on.dir), format!("{}/instr_trend.png", on.dir)]
    );
    assert!(on.summary.instr_series.is_some());
}

#[test]
fn test_build_adhoc_trend_metric_instructions_happy_and_empty() {
    // Happy path: instructions data present → instr_trend.png and a summary
    // carrying instr_series; only the chosen lane's chart is drawn, and the
    // returned rows are the instr series.
    let ok = trend(Lane::Instructions, &window_with_instr(), &[], None).unwrap();
    assert_eq!(ok.chart.path, format!("{}/instr_trend.png", ok.dir));
    assert_eq!(ok.rows, vec!["salt_dynamic_gas/rex5_salt/sstore_100".to_string()]);
    assert!(ok.summary.instr_series.is_some());

    // Empty window: no instructions data anywhere → an actionable error,
    // not an empty chart.
    let err = trend(Lane::Instructions, &window(), &[], None);
    assert!(err.is_err());
    assert!(err.unwrap_err().contains("instructions"));
}

#[test]
fn test_build_digest_writes_summary_and_trend() {
    let records = window();
    let outcome = build_digest(
        &store(),
        "mega-evm",
        "rex5, rex5_*",
        &rex5_family(),
        d(10.0),
        d(2.0),
        &records,
    )
    .unwrap();
    // Directory named after the last commit's day + the sha range.
    assert_eq!(
        outcome.dir,
        store().digest_dir("20260702", &records[0].commit, &records[9].commit)
    );
    assert_eq!(outcome.charts[0].path, format!("{}/trend.png", outcome.dir));
    assert_eq!(outcome.summary.failed_targets[0], "block_bench");
}

#[test]
fn test_build_digest_without_headline_rows_errors() {
    let records = vec![record_with(
        &format!("{:040x}", 0x99),
        "2026-07-02T10:00:00Z",
        &[("g", "revm_pinned/w", 1.0, Some(1.0))],
        &[],
    )];
    assert!(build_digest(&store(), "r", "rex5", &rex5_family(), d(10.0), d(2.0), &records).is_err());
}

#[test]
fn markers_ring_what_rises_over_the_points_before() {
    let some = |x: f64| Some(d(x));
    let rings = alert_markers(
        &vec![some(2.0), some(2.0), None, some(2.3), some(2.3), some(2.05)],
        d(10.0),
    );
    assert_eq!(rings, vec![false, false, false, true, true, false]);
    // Points that ring count for the later ones: medians 1, 1.5 and 2.
    assert_eq!(
        alert_markers(&vec![some(1.0), some(2.0), some(2.0), some(2.0)], d(10.0)),
        vec![false, true, true, false]
    );
    // A first point has nothing to rise over.
    assert_eq!(alert_markers(&vec![None, some(9.0)], d(10.0)), vec![false, false]);
}

#[test]
fn a_trend_chart_shows_at_most_eight_series() {
    let rows: Vec<(String, String)> =
        (0..10).map(|i| ("g".to_string(), format!("rex5/w{i}"))).collect();
    let refs: Vec<(&str, &str, f64, Option<f64>)> = rows
        .iter()
        .enumerate()
        .map(|(i, (g, r))| (g.as_str(), r.as_str(), 1.0, Some(1.0 + i as f64)))
        .collect();
    let records = vec![record_with(&"a".repeat(40), "2026-07-02T10:00:00Z", &refs, &[])];
    assert!(numeric(&records[0]));
    let digest =
        build_digest(&store(), "r", "rex5", &rex5_family(), d(10.0), d(2.0), &records).unwrap();
    assert_eq!(digest.summary.rows.len(), 10);
    assert_eq!(digest.charts[0].series.len(), TREND_MAX_SERIES);
    // The biggest medians come first.
    assert_eq!(digest.charts[0].series[0].label, "g/rex5/w9");
}

#[test]
fn axes_name_their_lane_and_baseline() {
    assert!(walltime_y_desc("revm_pinned").contains("revm_pinned"));
    assert!(instr_y_desc("revm_pinned").contains("revm_pinned"));
    assert_ne!(walltime_y_desc("x"), instr_y_desc("x"));
}

#[test]
fn every_window_error_names_its_cause() {
    let records = window();
    let sha = |i: u64| format!("{:040x}", 0x1000 + i);
    assert_eq!(select_window(Vec::new(), 5, None, None), Ok(vec![]));
    assert_eq!(
        select_window(records.clone(), 0, None, None).unwrap_err(),
        "--last must be >= 1"
    );
    assert_eq!(
        select_window(records.clone(), 5, Some("deadbeef"), None).unwrap_err(),
        "no stored commit matches 'deadbeef'"
    );
    assert_eq!(
        select_window(records, 5, Some(&sha(5)), Some(&sha(2))).unwrap_err(),
        "--from is newer than --to (the window runs oldest to newest)"
    );
}
