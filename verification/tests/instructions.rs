use mega_bench_reporter::criterion_results::{row_key, row_of, BenchFiles};
use mega_bench_reporter::double::Double;
use mega_bench_reporter::instructions::{
    assemble_collection, build_args, compat_dep_check, compute_instr_ratios, find_version_token,
    fold_profiles, lock_has_package, major_version, next_action, parse_callgrind_profile,
    parse_callgrind_rows, preflight, profile_files, run_args, uri_to_triple, version_notes,
    CollectAction, CollectEvent, CollectRequest, InstrRow, Probe, ProfileText,
};

fn d(x: f64) -> Double {
    Double::from_bits(x.to_bits())
}

fn instr(group: &str, subject: &str, workload: &str, count: u64) -> InstrRow {
    InstrRow { group: group.into(), subject: subject.into(), workload: workload.into(), count }
}

/// Trimmed real profile (two bench parts).
const FIXTURE: &str = "\
# callgrind format
version: 1
creator: callgrind-3.26.0.codspeed5
cmd:  /scratch/codspeed-spike/target/codspeed/analysis/codspeed-spike/fib_bench
part: 3
desc: Trigger: Client Request: benches/fib_bench.rs::benches::bench_fib_small::fib_iter_small
events: Ir Dr Dw I1mr D1mr D1mw ILmr DLmr DLmw sysCount sysTime sysCpuTime
totals: 56 1 1 2 0 1 2 0 1

part: 4
desc: Trigger: Client Request: benches/fib_bench.rs::benches::bench_fib_large::fib_iter_large
events: Ir Dr Dw I1mr D1mr D1mw ILmr DLmr DLmw sysCount sysTime sysCpuTime
totals: 456 1 1 2 0 1 2 0 1
";

#[test]
fn test_parse_fixture_counts_and_omitted_trailing_zeros() {
    let rows = parse_callgrind_rows(FIXTURE, "fixture.out");
    assert_eq!(rows.len(), 2);
    // 9 values for 12 event names: trailing zero columns are omitted,
    // and Ir (the first column) still parses.
    assert_eq!(rows[0].count, 56);
    assert_eq!(rows[0].group, "bench_fib_small");
    assert_eq!(rows[0].subject, "fib_iter_small");
    assert_eq!(rows[0].workload, "");
    assert_eq!(rows[1].count, 456);
}

#[test]
fn test_parse_skips_metadata_and_termination_parts() {
    let text = "\
# callgrind format
events: Ir Dr Dw
part: 1
desc: Trigger: Client Request: Metadata: codspeed-rust 3.0.0
totals: 11 1 1
part: 2
desc: Trigger: Client Request: benches/a.rs::benches::f::g::rex5/w1
totals: 99 1 1
part: 3
desc: Trigger: Program termination
totals: 1000 5 5
";
    let rows = parse_callgrind_rows(text, "fixture.out");
    assert_eq!(rows.len(), 1);
    assert_eq!(rows[0], instr("g", "rex5", "w1", 99));
}

#[test]
fn test_parse_ir_column_found_by_name_not_position() {
    // Ir is documented first, but the parser must key on the name.
    let text = "\
events: Dr Ir Dw
desc: Trigger: Client Request: b.rs::m::g::s/w
totals: 7 42
";
    let rows = parse_callgrind_rows(text, "fixture.out");
    assert_eq!(rows.len(), 1);
    assert_eq!(rows[0].count, 42);
    // A totals line too short to REACH the Ir column is malformed relative
    // to its events header — the part is skipped, never recorded as 0.
    let text = "\
events: Dr Dw Ir
desc: Trigger: Client Request: b.rs::m::g::s/w
totals: 7
";
    assert!(parse_callgrind_rows(text, "fixture.out").is_empty());
}

#[test]
fn test_parse_skips_part_with_malformed_totals_token() {
    // A present-but-unparseable token (in ANY column, not just Ir) marks
    // the part malformed: it must be skipped, not recorded as count 0 —
    // a 0 count for a non-baseline subject would flow into the rolling
    // window as a 0.0 ratio. Parts before and after still parse.
    let text = "\
events: Ir Dr
desc: Trigger: Client Request: b.rs::m::g::before/w
totals: 12 1
desc: Trigger: Client Request: b.rs::m::g::bad_ir/w
totals: 56garbage 1
desc: Trigger: Client Request: b.rs::m::g::bad_other/w
totals: 56 nope
desc: Trigger: Client Request: b.rs::m::g::after/w
totals: 34 1
";
    let rows = parse_callgrind_rows(text, "300.out");
    let subjects: Vec<&str> = rows.iter().map(|r| r.subject.as_str()).collect();
    assert_eq!(subjects, vec!["before", "after"]);
    assert_eq!(rows[0].count, 12);
    assert_eq!(rows[1].count, 34);
}

#[test]
fn test_parse_skips_part_when_totals_too_short_to_reach_ir() {
    // Ir sits at a later column here (index 2), so the guard must hold for
    // any column index, not just 0: a totals line with too few fields to
    // reach Ir is malformed and skipped with a warning — recording 0 would
    // feed a bogus 0.0 ratio into the rolling window (same policy as a
    // malformed token). Parts before/after with enough fields still parse.
    let text = "\
events: Dr Dw Ir
desc: Trigger: Client Request: b.rs::m::g::before/w
totals: 1 2 30
desc: Trigger: Client Request: b.rs::m::g::short/w
totals: 7
desc: Trigger: Client Request: b.rs::m::g::after/w
totals: 4 5 60
";
    let rows = parse_callgrind_rows(text, "short.out");
    let subjects: Vec<&str> = rows.iter().map(|r| r.subject.as_str()).collect();
    assert_eq!(subjects, vec!["before", "after"]);
    // No 0-count row was recorded for the skipped short part.
    assert!(rows.iter().all(|r| r.count != 0));
    assert_eq!(rows[0].count, 30);
    assert_eq!(rows[1].count, 60);
    // The skipped part leaves a warning.
    assert_eq!(parse_callgrind_profile(text, "short.out").warnings.len(), 1);
}

#[test]
fn test_parse_skips_file_with_non_callgrind_creator() {
    // The experimental tracegrind tool writes a different layout under a
    // different creator (`.tgtrace` files); treat any non-`callgrind-`
    // creator as profile-format drift and skip the whole file rather than
    // mis-parse it.
    let drift = "\
# callgrind format
creator: tracegrind-1.0.0
events: Ir Dr
desc: Trigger: Client Request: b.rs::m::g::s/w
totals: 42 1
";
    assert!(parse_callgrind_rows(drift, "drift.out").is_empty());

    // The same profile under a callgrind creator parses normally.
    let ok = drift.replace("tracegrind-1.0.0", "callgrind-3.26.0.codspeed5");
    assert_eq!(parse_callgrind_rows(&ok, "ok.out").len(), 1);

    // No creator line at all → parse as today (older/partial formats omit
    // it in some profile parts).
    let no_creator = "\
events: Ir Dr
desc: Trigger: Client Request: b.rs::m::g::s/w
totals: 42 1
";
    assert_eq!(parse_callgrind_rows(no_creator, "old.out").len(), 1);
}

/// What a directory with these files holds.
fn scan_profile_dir(files: &[(&str, &str)]) -> Vec<InstrRow> {
    let names: Vec<String> = files.iter().map(|(n, _)| n.to_string()).collect();
    let texts: Vec<ProfileText> = profile_files(&names)
        .into_iter()
        .map(|path| {
            let (_, text) = files.iter().find(|(n, _)| path == *n).unwrap();
            ProfileText { source: path, text: text.to_string() }
        })
        .collect();
    fold_profiles(&texts).rows
}

#[test]
fn test_scan_profile_dir_collects_across_out_files_and_dedupes() {
    let rows = scan_profile_dir(&[
        ("100.out", FIXTURE),
        // A child-process profile with no benchmark parts (only termination).
        (
            "101.out",
            "# callgrind format\ndesc: Trigger: Program termination\nevents: Ir\ntotals: 5\n",
        ),
        // A second bench-binary profile repeating one part (deterministic
        // counts: identical value) plus a new one.
        (
            "102.out",
            "\
events: Ir Dr
desc: Trigger: Client Request: benches/fib_bench.rs::benches::bench_fib_small::fib_iter_small
totals: 56 1
desc: Trigger: Client Request: benches/other.rs::benches::bench_other::grp::rex5/w
totals: 777 1
",
        ),
        // A non-.out file must be ignored.
        ("notes.txt", "events: Ir\ntotals: 1\n"),
    ]);
    let keys: Vec<String> =
        rows.iter().map(|r| row_key(&r.group, &r.subject, &r.workload)).collect();
    assert_eq!(
        keys,
        vec!["bench_fib_large/fib_iter_large", "bench_fib_small/fib_iter_small", "grp/rex5/w"]
    );
    assert_eq!(rows.iter().find(|r| r.group == "grp").unwrap().count, 777);
    assert_eq!(rows.iter().find(|r| r.group == "bench_fib_small").unwrap().count, 56);
}

/// Row-key parity with the walltime lane: for the bench styles mega-evm uses
/// (grouped `bench_function`, with and without a workload suffix, and
/// value-parameterized `BenchmarkId::new`), the URI mapping and the criterion
/// files produce the same row key.
#[test]
fn test_row_key_parity_with_walltime_scan() {
    let walltime = |group: &str, function_id: &str, value: Option<&str>| -> String {
        let row = row_of(BenchFiles {
            group_id: group.into(),
            function_id: Some(function_id.into()),
            value_str: value.map(str::to_string),
            mean_ns: d(1000.0),
            std_dev_ns: d(10.0),
            iters: vec![d(1.0)],
            times: vec![d(1000.0)],
        });
        row_key(&row.group, &row.subject, &row.workload)
    };
    let mapped = |uri: &str| -> String {
        let (group, subject, workload) = uri_to_triple(uri).expect("bench uri maps");
        row_key(&group, &subject, &workload)
    };
    // The three styles, with the URI codspeed-criterion-compat emits for
    // each (`<file>::<modules…>::<group>::<function_id[/value]>`).
    // 1. `bench_function("rex4/1_txs")` — subject/workload function id.
    let uri1 = "crates/mega-evm/benches/block_bench.rs::benches::bench_block_empty_txs::block_executor_empty_txs::rex4/1_txs";
    assert_eq!(walltime("block_executor_empty_txs", "rex4/1_txs", None), mapped(uri1));
    assert_eq!(mapped(uri1), "block_executor_empty_txs/rex4/1_txs");
    // 2. `bench_function("revm_pinned")` — bare subject, no workload.
    let uri2 =
        "crates/mega-evm/benches/mega_bench.rs::benches::bench_empty_tx::empty_transaction::revm_pinned";
    assert_eq!(walltime("empty_transaction", "revm_pinned", None), mapped(uri2));
    assert_eq!(mapped(uri2), "empty_transaction/revm_pinned");
    // 3. `bench_with_input(BenchmarkId::new("rex5_salt", 100))` —
    //    value-parameterized; criterion folds the value into the id.
    let uri3 =
        "crates/mega-evm/benches/mega_bench.rs::benches::bench_salt::salt_dynamic_gas::rex5_salt/100";
    assert_eq!(walltime("salt_dynamic_gas", "rex5_salt", Some("100")), mapped(uri3));
    assert_eq!(mapped(uri3), "salt_dynamic_gas/rex5_salt/100");
}

#[test]
fn test_compute_instr_ratios_mirrors_walltime_semantics() {
    let rows = vec![
        instr("salt_dynamic_gas", "revm_pinned", "sstore_100", 10_000),
        instr("salt_dynamic_gas", "rex5_salt", "sstore_100", 25_000),
        instr("oracle_real_data", "rex5_oracle", "oracle_sload_50", 500),
    ];
    let ratios = compute_instr_ratios(&rows, "revm_pinned");
    assert_eq!(ratios.len(), 2);
    // Baseline-less group: counts recorded, no ratio.
    assert_eq!(ratios[0].group, "oracle_real_data");
    assert_eq!(ratios[0].rows[0].ratio_vs_baseline, None);
    let salt = &ratios[1];
    assert_eq!(salt.rows[0].subject, "revm_pinned");
    assert_eq!(salt.rows[0].ratio_vs_baseline, Some(d(1.0)));
    assert_eq!(salt.rows[1].ratio_vs_baseline, Some(d(2.5)));
}

#[test]
fn test_compute_instr_ratios_zero_baseline_yields_no_ratio() {
    let rows = vec![instr("g", "revm_pinned", "w", 0), instr("g", "rex5", "w", 10)];
    let ratios = compute_instr_ratios(&rows, "revm_pinned");
    for row in &ratios[0].rows {
        assert_eq!(row.ratio_vs_baseline, None, "subject {}", row.subject);
    }
}

fn request(os: &str) -> CollectRequest {
    CollectRequest {
        checkout: "/co".to_string(),
        package: "mega-evm".to_string(),
        bench_targets: vec!["mega_bench".to_string()],
        bench_filter: None,
        profile_root: "/nonexistent-profiles".to_string(),
        os: os.to_string(),
    }
}

#[test]
fn test_collect_skipped_cleanly_on_non_linux() {
    // Must skip before touching any tool or the filesystem, and the
    // outcome must carry the reason (require_instructions surfaces it).
    assert_eq!(
        next_action(&request("macos"), &CollectEvent::Start),
        CollectAction::Skip(
            "skipped on macos (CodSpeed simulation mode needs Linux/valgrind)".to_string()
        )
    );
}

const WITH_COMPAT: &str =
    "[[package]]\nname = \"codspeed-criterion-compat\"\nversion = \"2.10.1\"\n";
const WITHOUT_COMPAT: &str = "[[package]]\nname = \"criterion\"\nversion = \"0.5.1\"\n";

#[test]
fn test_collect_skipped_cleanly_when_preflight_tools_missing() {
    // os IS linux and the checkout resolves the compat dep, so the lane
    // clears the compat-dep gate and reaches the version preflight — but
    // neither tool can spawn. The lane must skip, and the reason names the
    // unusable tool.
    let req = request("linux");
    assert_eq!(
        next_action(&req, &CollectEvent::Start),
        CollectAction::ReadLock("/co/Cargo.lock".to_string())
    );
    assert_eq!(
        next_action(&req, &CollectEvent::Lock(Ok(WITH_COMPAT.to_string()))),
        CollectAction::RunProbes
    );
    let missing = || Probe::Failed("No such file or directory".to_string());
    match next_action(&req, &CollectEvent::Probes(missing(), missing())) {
        CollectAction::Skip(reason) => {
            assert!(reason.contains("codspeed CLI not usable"), "reason: {reason}");
        }
        other => panic!("expected a tools-missing skip, got {other:?}"),
    }
}

#[test]
fn test_lock_has_package_matches_only_the_package_name_line() {
    let lock = "\
[[package]]
name = \"criterion\"
version = \"0.5.1\"

[[package]]
name = \"codspeed-criterion-compat\"
version = \"2.10.1\"
";
    assert!(lock_has_package(lock, "codspeed-criterion-compat"));
    assert!(lock_has_package(lock, "criterion"));
    assert!(!lock_has_package(lock, "codspeed-divan-compat"));
    // A substring of a resolved name must not count as a match.
    assert!(!lock_has_package(lock, "codspeed-criterion"));
}

#[test]
fn test_compat_dep_check_reads_the_checkout_lockfile() {
    // With the dep resolved → lane may proceed.
    assert_eq!(compat_dep_check("/co/Cargo.lock", &Ok(WITH_COMPAT.to_string())), Ok(()));

    // Lockfile present but the dep absent → skip (the graceful pre-merge
    // path), with a reason naming the missing dep.
    let reason =
        compat_dep_check("/co/Cargo.lock", &Ok(WITHOUT_COMPAT.to_string())).unwrap_err();
    assert!(reason.contains("codspeed-criterion-compat not in"), "reason: {reason}");

    // Missing Cargo.lock (unreadable) → same skip path.
    let reason = compat_dep_check("/co/Cargo.lock", &Err("not found".to_string())).unwrap_err();
    assert!(reason.contains("cannot read"), "reason: {reason}");
}

#[test]
fn test_collect_skips_before_probing_when_compat_dep_absent() {
    // A checkout whose Cargo.lock lacks the compat dep skips the lane up
    // front — the compat probe runs before the tool preflight.
    match next_action(&request("linux"), &CollectEvent::Lock(Ok(WITHOUT_COMPAT.to_string()))) {
        CollectAction::Skip(reason) => {
            assert!(reason.contains("codspeed-criterion-compat not in"), "reason: {reason}");
        }
        other => panic!("expected a compat-dep skip, got {other:?}"),
    }
}

#[test]
fn test_version_token_and_major_version() {
    let token = |s: &str| find_version_token(s);
    assert_eq!(token("cargo-codspeed 5.0.1").as_deref(), Some("5.0.1"));
    assert_eq!(token("codspeed 4.18.0").as_deref(), Some("4.18.0"));
    // A leading `v` is kept in the display token but ignored for the major.
    assert_eq!(token("v6.2.0").as_deref(), Some("v6.2.0"));
    // Nothing version-shaped → None (the preflight then falls back to the
    // whole trimmed output for the visibility line on a successful exit).
    assert_eq!(token("  nightly build  "), None);

    assert_eq!(major_version("5.0.1"), Some(5));
    assert_eq!(major_version("v6.2.0"), Some(6));
    assert_eq!(major_version("18.0.0"), Some(18));
    assert_eq!(major_version("nightly"), None);
}

#[test]
fn a_version_has_at_most_one_leading_v() {
    assert_eq!(find_version_token("tool vv5 6.1").as_deref(), Some("6.1"));
    assert_eq!(find_version_token("v vv1"), None);
    assert_eq!(major_version("vv5"), None);
}

fn ran(stdout: &str, stderr: &str, success: bool) -> Probe {
    Probe::Ran {
        stdout: stdout.to_string(),
        stderr: stderr.to_string(),
        success,
        status: if success { "exit status: 0" } else { "exit status: 1" }.to_string(),
    }
}

#[test]
fn test_preflight_captures_versions_and_warns_without_skipping_off_major_five() {
    // The preflight must capture both versions and, for a non-5
    // cargo-codspeed major, WARN but not skip — it returns the parsed version
    // tokens, so counts are still attempted.
    let out = preflight(
        &ran("codspeed 4.18.2\n", "", true),
        &ran("cargo-codspeed 6.1.0\n", "", true),
    );
    assert_eq!(out, Ok(("4.18.2".to_string(), "6.1.0".to_string())));
    assert_eq!(version_notes("4.18.2", "6.1.0").len(), 2);
    assert_eq!(version_notes("4.18.2", "5.0.1").len(), 1);
}

#[test]
fn test_preflight_accepts_version_banner_on_stderr_with_nonzero_exit() {
    // Regression pin for the real cargo-codspeed 5.0.1: `cargo codspeed
    // --version` prints its banner (via clap's version-request error
    // path) and exits 1. The probe must treat that as usable — requiring
    // exit 0 skipped the lane on a healthy host.
    let out = preflight(
        &ran("codspeed-runner 4.18.4\n", "", true),
        &ran("", "cargo-codspeed 5.0.1\n", false),
    );
    assert_eq!(out, Ok(("4.18.4".to_string(), "5.0.1".to_string())));
}

#[test]
fn test_preflight_skips_on_nonzero_exit_without_a_version_banner() {
    // A tool that fails without ever printing a version is genuinely
    // unusable — the tolerant probe must not swallow that.
    let reason = preflight(
        &ran("", "broken install\n", false),
        &ran("cargo-codspeed 5.0.1\n", "", true),
    )
    .unwrap_err();
    assert!(reason.contains("codspeed CLI not usable"), "reason: {reason}");
    assert!(reason.contains("without a version banner"), "reason: {reason}");
}

#[test]
fn test_preflight_skips_when_a_tool_cannot_spawn() {
    let gone = Probe::Failed("No such file or directory".to_string());
    let reason = preflight(&gone, &gone).unwrap_err();
    assert!(reason.contains("codspeed CLI not usable"), "reason: {reason}");
}

#[test]
fn targets_are_put_together_and_failures_marked() {
    let targets = vec!["a".to_string(), "b".to_string(), "c".to_string()];
    let results = vec![
        Some(vec![instr("g", "z", "", 1), instr("g", "s", "", 2)]),
        None,
        // The later target's count wins.
        Some(vec![instr("g", "s", "", 3)]),
    ];
    let collection = assemble_collection(&targets, &results);
    assert_eq!(collection.failed_targets, vec!["b"]);
    assert_eq!(collection.rows, vec![instr("g", "s", "", 3), instr("g", "z", "", 1)]);
}

#[test]
fn tool_arguments() {
    assert_eq!(
        build_args("pkg", "bench"),
        vec!["codspeed", "build", "-p", "pkg", "--bench", "bench"]
    );
    let args = run_args("/p", &Some("rex5".to_string()));
    assert!(args.contains(&"--skip-upload".to_string()));
    assert!(args.contains(&"/p".to_string()));
    assert_eq!(args.last().map(String::as_str), Some("rex5"));
    assert!(!run_args("/p", &None).contains(&"rex5".to_string()));
}
