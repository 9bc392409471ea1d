use mega_bench_reporter::compare::{build_compare_table, p95, subject_rank, CompareTable};
use mega_bench_reporter::criterion_results::{RatioRow, Row, WorkloadRatios};
use mega_bench_reporter::double::Double;
use mega_bench_reporter::instructions::{InstrRatioRow, InstrWorkloadRatios};

fn d(x: f64) -> Double {
    Double::from_bits(x.to_bits())
}

fn f(x: Double) -> f64 {
    f64::from_bits(x.to_bits())
}

fn fake_samples(center_ns: f64, n: usize) -> Vec<Double> {
    // Deterministic pseudo-noise around the center.
    (0..n).map(|i| d(center_ns * (1.0 + 0.02 * ((i as f64 * 2.399).sin())))).collect()
}

fn ratio(subject: &str, mean_ns: f64, ratio: f64) -> RatioRow {
    RatioRow { subject: subject.into(), mean_ns: d(mean_ns), ratio_vs_baseline: Some(d(ratio)) }
}

fn sample_ratio_rows() -> (Vec<Row>, Vec<WorkloadRatios>) {
    let mk = |subject: &str, mean: f64| Row {
        group: "salt_dynamic_gas".into(),
        subject: subject.into(),
        workload: "sstore_100".into(),
        mean_ns: d(mean),
        std_dev_ns: d(mean * 0.01),
        samples_ns: fake_samples(mean, 50),
    };
    let rows = vec![mk("revm_pinned", 14000.0), mk("rex4", 20000.0), mk("rex5_salt", 28000.0)];
    let ratios = vec![WorkloadRatios {
        group: "salt_dynamic_gas".into(),
        workload: "sstore_100".into(),
        rows: vec![
            ratio("revm_pinned", 14000.0, 1.0),
            ratio("rex4", 20000.0, 1.43),
            ratio("rex5_salt", 28000.0, 2.0),
        ],
    }];
    (rows, ratios)
}

fn table(instr: Option<Vec<InstrWorkloadRatios>>, order: &[&str]) -> CompareTable {
    let (rows, ratios) = sample_ratio_rows();
    build_compare_table(
        &rows,
        &ratios,
        &instr,
        "rex5",
        "revm_pinned",
        &order.iter().map(|s| s.to_string()).collect(),
        &vec!["rex5*".to_string()],
    )
}

#[test]
fn test_p95_nearest_rank() {
    let samples: Vec<Double> = (1..=100).map(|i| d(i as f64)).collect();
    assert_eq!(p95(&samples), d(95.0));
    assert_eq!(p95(&[d(7.0)]), d(7.0));
    assert!(p95(&[]).is_nan());
}

#[test]
fn test_build_compare_table_orders_subjects_and_picks_worst_headline_ratio() {
    let table = table(None, &["revm_pinned"]);
    assert_eq!(table.subjects, vec!["revm_pinned", "rex4", "rex5_salt"]);
    assert_eq!(table.rows.len(), 1);
    assert_eq!(table.rows[0].item, "salt_dynamic_gas/sstore_100");
    // Worst headline ratio (only rex5_salt matches the filter).
    assert_eq!(table.rows[0].headline_ratio, Some(d(2.0)));
    assert!(table.rows[0].p95_us.iter().all(|v| v.is_some()));
    // Lane off: the instr fields stay absent.
    assert_eq!(table.rows[0].instr, None);
    assert_eq!(table.rows[0].instr_headline_ratio, None);
}

#[test]
fn test_build_compare_table_instr_columns_align_with_subjects() {
    let instr_row = |subject: &str, count: u64, r: f64| InstrRatioRow {
        subject: subject.into(),
        count,
        ratio_vs_baseline: Some(d(r)),
    };
    let instr = vec![InstrWorkloadRatios {
        group: "salt_dynamic_gas".into(),
        workload: "sstore_100".into(),
        // rex4 has no instr row (absent column); rex5_salt does.
        rows: vec![instr_row("revm_pinned", 10_000, 1.0), instr_row("rex5_salt", 25_000, 2.5)],
    }];
    let table = table(Some(instr), &["revm_pinned"]);
    assert_eq!(table.subjects, vec!["revm_pinned", "rex4", "rex5_salt"]);
    assert_eq!(table.rows[0].instr, Some(vec![Some(10_000), None, Some(25_000)]));
    assert_eq!(table.rows[0].instr_headline_ratio, Some(d(2.5)));
    // The walltime columns are untouched by the extra lane.
    assert_eq!(table.rows[0].headline_ratio, Some(d(2.0)));
}

#[test]
fn test_build_compare_table_baseline_label_independent_of_display_order() {
    // subject_order is display-only: a configured order that doesn't lead
    // with the baseline must not relabel the table's baseline_subject.
    let table = table(None, &["rex5_salt", "rex4"]);
    assert_eq!(table.baseline_subject, "revm_pinned");
    assert_eq!(table.subjects, vec!["rex5_salt", "rex4", "revm_pinned"]);
}

#[test]
fn a_cell_is_the_p95_in_microseconds() {
    let (rows, _) = sample_ratio_rows();
    let table = table(None, &["revm_pinned"]);
    let mut samples: Vec<f64> = rows[1].samples_ns.iter().map(|s| f(*s)).collect();
    samples.sort_by(|a, b| a.partial_cmp(b).unwrap());
    // The nearest rank of 50 samples is the 48th.
    assert_eq!(table.rows[0].p95_us[1].map(f), Some(samples[47] / 1000.0));
}

#[test]
fn configured_subjects_rank_before_the_rest() {
    let order = vec!["b".to_string(), "a".to_string()];
    assert_eq!(subject_rank("b", &order), (0, String::new()));
    assert_eq!(subject_rank("a", &order), (1, String::new()));
    assert_eq!(subject_rank("0", &order), (2, "0".to_string()));
}

#[test]
fn the_order_of_the_rows_plays_no_part_in_the_columns() {
    let (mut rows, ratios) = sample_ratio_rows();
    let order = vec!["rex5_salt".to_string()];
    let headline = vec!["rex5*".to_string()];
    let one = build_compare_table(&rows, &ratios, &None, "l", "revm_pinned", &order, &headline);
    rows.reverse();
    let other = build_compare_table(&rows, &ratios, &None, "l", "revm_pinned", &order, &headline);
    assert_eq!(one, other);
    assert_eq!(one.subjects, vec!["rex5_salt", "revm_pinned", "rex4"]);
}
