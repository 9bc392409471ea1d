use mega_bench_reporter::criterion_results::{
    bench_dirs, compute_ratios, criterion_dir_for, item_name, row_key, row_of,
    split_function_id, BenchFiles, DirNode, Row, TREE_DEPTH,
};
use mega_bench_reporter::double::Double;

fn d(x: f64) -> Double {
    Double::from_bits(x.to_bits())
}

fn f(x: Double) -> f64 {
    f64::from_bits(x.to_bits())
}

fn files(group: &str, id: Option<&str>, value: Option<&str>, mean: f64, iters: f64, time: f64) -> BenchFiles {
    BenchFiles {
        group_id: group.to_string(),
        function_id: id.map(str::to_string),
        value_str: value.map(str::to_string),
        mean_ns: d(mean),
        std_dev_ns: d(mean / 100.0),
        iters: vec![d(iters)],
        times: vec![d(time)],
    }
}

/// A criterion tree in memory: the directories that have all three files.
struct Tree {
    root: Vec<DirNode>,
    benches: Vec<(String, BenchFiles)>,
}

fn add_dir(nodes: &mut Vec<DirNode>, parts: &[&str]) {
    if parts.is_empty() {
        return;
    }
    if !nodes.iter().any(|n| n.name == parts[0]) {
        nodes.push(DirNode { name: parts[0].to_string(), is_dir: true, children: Vec::new() });
    }
    let node = nodes.iter_mut().find(|n| n.name == parts[0]).unwrap();
    add_dir(&mut node.children, &parts[1..]);
}

impl Tree {
    fn new() -> Tree {
        Tree { root: Vec::new(), benches: Vec::new() }
    }

    fn dir(&mut self, path: &str) {
        add_dir(&mut self.root, &path.split('/').collect::<Vec<_>>());
    }

    fn bench(&mut self, path: &str, files: BenchFiles) {
        self.dir(&format!("{path}/new"));
        self.benches.push((format!("/t/{path}"), files));
    }

    fn scan(&self) -> Vec<Row> {
        bench_dirs(&self.root, "/t", TREE_DEPTH)
            .iter()
            .filter_map(|dir| {
                self.benches.iter().find(|(p, _)| p == dir).map(|(_, f)| row_of(f.clone()))
            })
            .collect()
    }
}

#[test]
fn test_scan_and_split_function_id() {
    let mut tree = Tree::new();
    tree.bench(
        "salt_dynamic_gas/revm_pinned_sstore_100",
        files("salt_dynamic_gas", Some("revm_pinned/sstore_100"), None, 14000.0, 100.0, 1_400_000.0),
    );
    tree.bench(
        "salt_dynamic_gas/rex5_salt_sstore_100",
        files("salt_dynamic_gas", Some("rex5_salt/sstore_100"), None, 28000.0, 100.0, 2_800_000.0),
    );
    let rows = tree.scan();
    assert_eq!(rows.len(), 2);
    let baseline = rows.iter().find(|r| r.subject == "revm_pinned").unwrap();
    assert_eq!(baseline.group, "salt_dynamic_gas");
    assert_eq!(baseline.workload, "sstore_100");
    assert_eq!(baseline.samples_ns, vec![d(14000.0)]);
}

#[test]
fn test_scan_skips_report_dir_and_incomplete_rows() {
    let mut tree = Tree::new();
    tree.dir("report");
    tree.dir("some_group/report");
    // A row with only benchmark.json (e.g. an interrupted run) is skipped, not an error.
    tree.dir("some_group/incomplete_row/new");
    assert!(tree.scan().is_empty());
    let dirs = bench_dirs(&tree.root, "/t", TREE_DEPTH);
    assert_eq!(dirs, vec!["/t/some_group", "/t/some_group/incomplete_row", "/t/some_group/incomplete_row/new"]);
}

#[test]
fn test_scan_value_parameterized_layout_one_level_deeper() {
    // `<group>/<function>/<value>/new` with value_str set, as criterion
    // lays out `BenchmarkId::new(function, value)` benches.
    let mut tree = Tree::new();
    tree.bench(
        "param_group/rex5_case/100",
        files("param_group", Some("rex5_case"), Some("100"), 5000.0, 1.0, 5000.0),
    );
    let rows = tree.scan();
    assert_eq!(rows.len(), 1);
    assert_eq!(rows[0].subject, "rex5_case");
    assert_eq!(rows[0].workload, "100");
}

fn row(group: &str, subject: &str, workload: &str, mean: f64) -> Row {
    Row {
        group: group.into(),
        subject: subject.into(),
        workload: workload.into(),
        mean_ns: d(mean),
        std_dev_ns: d(mean / 50.0),
        samples_ns: vec![d(mean)],
    }
}

#[test]
fn test_compute_ratios_against_revm_pinned() {
    let rows = vec![
        row("salt_dynamic_gas", "revm_pinned", "sstore_100", 14000.0),
        row("salt_dynamic_gas", "rex5", "sstore_100", 24000.0),
        row("salt_dynamic_gas", "rex5_salt", "sstore_100", 28000.0),
    ];
    let ratios = compute_ratios(&rows, "revm_pinned");
    assert_eq!(ratios.len(), 1);
    let wl = &ratios[0];
    assert_eq!(wl.group, "salt_dynamic_gas");
    assert_eq!(wl.workload, "sstore_100");
    assert_eq!(wl.rows.len(), 3);
    let rex5_salt = wl.rows.iter().find(|r| r.subject == "rex5_salt").unwrap();
    assert!((f(rex5_salt.ratio_vs_baseline.unwrap()) - 2.0).abs() < 1e-9);
    let baseline = wl.rows.iter().find(|r| r.subject == "revm_pinned").unwrap();
    assert!((f(baseline.ratio_vs_baseline.unwrap()) - 1.0).abs() < 1e-9);
    // The quotient is rounded as the hardware rounds it.
    let rex5 = wl.rows.iter().find(|r| r.subject == "rex5").unwrap();
    assert_eq!(f(rex5.ratio_vs_baseline.unwrap()), 24000.0 / 14000.0);
}

#[test]
fn test_compute_ratios_missing_baseline_skips_ratio_not_the_group() {
    // A group/workload without a baseline row still shows up (mean_ns),
    // just with ratio_vs_baseline = None.
    let rows = vec![row("oracle_real_data", "rex5_oracle", "oracle_sload_50", 5000.0)];
    let ratios = compute_ratios(&rows, "revm_pinned");
    assert_eq!(ratios.len(), 1);
    assert_eq!(ratios[0].rows[0].ratio_vs_baseline, None);
}

#[test]
fn test_scan_bare_bench_function_top_level_layout() {
    // `Criterion::bench_function("name", ...)` writes directly at
    // `target/criterion/<name>/new` with a null function_id.
    let mut tree = Tree::new();
    tree.bench("standalone_bench", files("standalone_bench", None, None, 7000.0, 1.0, 7000.0));
    let rows = tree.scan();
    assert_eq!(rows.len(), 1);
    assert_eq!(rows[0].group, "standalone_bench");
    assert_eq!(rows[0].subject, "standalone_bench");
    assert_eq!(rows[0].workload, "");
}

#[test]
fn test_scan_coexisting_flat_and_value_layouts() {
    // The same function id can have both `<g>/<f>/new` and
    // `<g>/<f>/<value>/new`; neither may shadow the other.
    let mut tree = Tree::new();
    tree.bench("g/f", files("g", Some("f"), None, 1000.0, 1.0, 1000.0));
    tree.bench("g/f/8", files("g", Some("f"), Some("8"), 2000.0, 1.0, 2000.0));
    let mut rows = tree.scan();
    rows.sort_by(|a, b| a.workload.cmp(&b.workload));
    assert_eq!(rows.len(), 2);
    assert_eq!((rows[0].subject.as_str(), rows[0].workload.as_str()), ("f", ""));
    assert_eq!((rows[1].subject.as_str(), rows[1].workload.as_str()), ("f", "8"));
}

#[test]
fn test_degenerate_baseline_yields_no_ratio_not_inf() {
    let rows = vec![row("g", "revm_pinned", "w", 0.0), row("g", "rex5", "w", 1000.0)];
    let ratios = compute_ratios(&rows, "revm_pinned");
    for row in &ratios[0].rows {
        assert_eq!(row.ratio_vs_baseline, None, "subject {}", row.subject);
    }
}

#[test]
fn test_row_key_formats() {
    assert_eq!(
        row_key("salt_dynamic_gas", "rex5_salt", "sstore_100"),
        "salt_dynamic_gas/rex5_salt/sstore_100"
    );
    assert_eq!(row_key("empty_transaction", "revm_pinned", ""), "empty_transaction/revm_pinned");
}

#[test]
fn overflowing_and_nan_means_yield_no_ratio() {
    let rows = vec![
        row("g", "b", "w", 1e-300),
        row("g", "huge", "w", 1e300),
        row("g", "nan", "w", f64::NAN),
    ];
    let ratios = compute_ratios(&rows, "b");
    let of = |s: &str| {
        ratios[0].rows.iter().find(|r| r.subject == s).unwrap().ratio_vs_baseline
    };
    assert_eq!(of("b"), Some(d(1.0)));
    assert_eq!(of("huge"), None);
    assert_eq!(of("nan"), None);
}

#[test]
fn workloads_and_subjects_come_in_order() {
    let rows = vec![
        row("b", "z", "w", 2.0),
        row("a", "y", "", 3.0),
        row("b", "a", "w", 1.0),
        row("b", "a", "", 1.0),
    ];
    let ratios = compute_ratios(&rows, "a");
    let keys: Vec<(&str, &str)> =
        ratios.iter().map(|w| (w.group.as_str(), w.workload.as_str())).collect();
    assert_eq!(keys, vec![("a", ""), ("b", ""), ("b", "w")]);
    let subjects: Vec<&str> = ratios[2].rows.iter().map(|r| r.subject.as_str()).collect();
    assert_eq!(subjects, vec!["a", "z"]);
    assert_eq!(ratios[2].rows[1].ratio_vs_baseline, Some(d(2.0)));
}

#[test]
fn ids_split_at_their_first_slash() {
    assert_eq!(
        split_function_id("revm_pinned/sstore_100/x8"),
        ("revm_pinned".to_string(), "sstore_100/x8".to_string())
    );
    assert_eq!(split_function_id("revm_pinned"), ("revm_pinned".to_string(), String::new()));
    let both = row_of(files("g", Some("f/w"), Some("8"), 1.0, 2.0, 5.0));
    assert_eq!(both.workload, "w/8");
    assert_eq!(both.samples_ns, vec![d(2.5)]);
    assert_eq!(item_name("g", ""), "g");
    assert_eq!(item_name("g", "w"), "g/w");
    assert_eq!(criterion_dir_for("/co"), "/co/target/criterion");
}
