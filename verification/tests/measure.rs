use mega_bench_reporter::criterion_results::Row;
use mega_bench_reporter::double::Double;
use mega_bench_reporter::instructions::{
    next_action, CollectAction, CollectEvent, CollectOutcome, CollectRequest, InstrCollection,
    InstrRow,
};
use mega_bench_reporter::measure::{
    assemble, extract_toml_section, fnv1a64, measure, profile_fingerprint, profile_root,
    run_instructions, run_walltime, validate_request, MeasureRequest,
};

fn d(x: f64) -> Double {
    Double::from_bits(x.to_bits())
}

fn request(checkout: &str, instructions: bool, walltime: bool, os: &str) -> MeasureRequest {
    MeasureRequest {
        checkout: checkout.into(),
        package: "pkg".into(),
        bench_targets: vec!["t".into()],
        instructions,
        walltime,
        bench_filter: None,
        os: os.into(),
    }
}

fn row(group: &str, subject: &str, workload: &str, mean: f64) -> Row {
    Row {
        group: group.into(),
        subject: subject.into(),
        workload: workload.into(),
        mean_ns: d(mean),
        std_dev_ns: d(1.0),
        samples_ns: vec![d(mean)],
    }
}

fn instr(group: &str, subject: &str, workload: &str, count: u64) -> InstrRow {
    InstrRow { group: group.into(), subject: subject.into(), workload: workload.into(), count }
}

#[test]
fn test_validate_requires_a_lane_flag() {
    let err = validate_request(&request("/co", false, false, "linux"), true).unwrap_err();
    assert!(err.contains("--instructions") && err.contains("--walltime"), "{err}");
}

#[test]
fn test_validate_rejects_missing_checkout() {
    let req = request("/nonexistent-measure-checkout", false, true, "linux");
    let err = validate_request(&req, false).unwrap_err();
    assert!(err.contains("not a directory"), "{err}");
}

#[test]
fn validate_requires_a_bench_target() {
    let mut req = request("/co", true, true, "linux");
    assert_eq!(validate_request(&req, true), Ok(()));
    req.bench_targets.clear();
    let err = validate_request(&req, true).unwrap_err();
    assert_eq!(err, "at least one --bench-target is required");
}

#[test]
fn test_assemble_walltime_fixture_omits_instr_count() {
    let rows = vec![
        row("salt_dynamic_gas", "rex5_salt", "sstore_100", 14_000.0),
        row("empty_transaction", "revm_pinned", "", 8_000.0),
    ];
    let out = assemble(Some(&rows), None, "rustc 1.89.0", "rustc 1.89.0|deadbeef");
    let salt = out.rows.get("salt_dynamic_gas/rex5_salt/sstore_100").unwrap();
    assert_eq!(salt.ns, Some(d(14_000.0)));
    assert!(salt.instr_count.is_none());
    let empty = out.rows.get("empty_transaction/revm_pinned").unwrap();
    assert_eq!(empty.ns, Some(d(8_000.0)));
    assert!(empty.instr_count.is_none());
    assert_eq!(out.meta.rustc, "rustc 1.89.0");
    assert_eq!(out.meta.profile_fingerprint, "rustc 1.89.0|deadbeef");
}

#[test]
fn test_assemble_instructions_fixture_omits_ns() {
    let counts =
        vec![instr("bench_fib_small", "fib_iter_small", "", 56), instr("grp", "rex5", "w", 777)];
    let out = assemble(None, Some(&counts), "rustc 1.89.0", "fp");
    let fib = out.rows.get("bench_fib_small/fib_iter_small").unwrap();
    assert_eq!(fib.instr_count, Some(56));
    assert!(fib.ns.is_none());
    assert_eq!(out.rows.get("grp/rex5/w").unwrap().instr_count, Some(777));
}

#[test]
fn test_assemble_both_lanes_merge_on_row_key() {
    let walltime = vec![row("g", "s", "w", 100.0)];
    let counts = vec![instr("g", "s", "w", 42)];
    let out = assemble(Some(&walltime), Some(&counts), "rustc", "fp");
    assert_eq!(out.rows.len(), 1);
    let row = out.rows.get("g/s/w").unwrap();
    assert_eq!(row.ns, Some(d(100.0)));
    assert_eq!(row.instr_count, Some(42));
    assert_eq!(out.meta.rustc, "rustc");
    assert_eq!(out.meta.profile_fingerprint, "fp");
}

const TOML: &str = r#"
[package]
name = "x"
version = "0.1.0"

[profile.release]
opt-level = 3
lto = "thin"

[profile.bench]
inherits = "release"
"#;

#[test]
fn test_profile_fingerprint_hashes_release_and_bench_sections() {
    let fp = profile_fingerprint(TOML, "rustc 1.89.0 (abc)");
    assert!(fp.starts_with("rustc 1.89.0 (abc)|"), "{fp}");
    // Stable across calls.
    assert_eq!(fp, profile_fingerprint(TOML, "rustc 1.89.0 (abc)"));
    let hash = fnv1a64(b"opt-level = 3\nlto = \"thin\"\0inherits = \"release\"");
    assert_eq!(fp, format!("rustc 1.89.0 (abc)|{hash:016x}"));
    // Changing a profile section changes the hash.
    let changed = r#"
[package]
name = "x"
version = "0.1.0"

[profile.release]
opt-level = 2

[profile.bench]
inherits = "release"
"#;
    let fp3 = profile_fingerprint(changed, "rustc 1.89.0 (abc)");
    assert_ne!(fp, fp3);
    // Same rustc prefix, different hash suffix.
    assert!(fp3.starts_with("rustc 1.89.0 (abc)|"));
    // Nothing else of the file counts.
    assert_eq!(fp, profile_fingerprint(&TOML.replace("0.1.0", "0.2.0"), "rustc 1.89.0 (abc)"));
}

#[test]
fn test_profile_fingerprint_empty_sections_when_absent() {
    let fp = profile_fingerprint("[package]\nname = \"x\"\n", "rustc 1.0");
    // Empty release + empty bench → hash of [0x00] only.
    let expected_hash = fnv1a64(&[0]);
    assert_eq!(fp, format!("rustc 1.0|{expected_hash:016x}"));
}

#[test]
fn the_hash_is_fnv_1a() {
    // Published test vectors.
    assert_eq!(fnv1a64(b""), 0xcbf2_9ce4_8422_2325);
    assert_eq!(fnv1a64(b"a"), 0xaf63_dc4c_8601_ec8c);
    assert_eq!(fnv1a64(b"foobar"), 0x8594_4171_f739_67e8);
}

/// The outcome of a lane that skips at its first step.
fn skipped(req: &MeasureRequest) -> CollectOutcome {
    let collect = CollectRequest {
        checkout: req.checkout.clone(),
        package: req.package.clone(),
        bench_targets: req.bench_targets.clone(),
        bench_filter: req.bench_filter.clone(),
        profile_root: profile_root(&req.checkout),
        os: req.os.clone(),
    };
    match next_action(&collect, &CollectEvent::Start) {
        CollectAction::Skip(reason) => CollectOutcome::Skipped(reason),
        other => panic!("expected a skip, got {other:?}"),
    }
}

#[test]
fn test_measure_instructions_errors_on_non_linux() {
    let req = request("/co", true, false, "macos");
    assert_eq!(validate_request(&req, true), Ok(()));
    let err = measure(None, Some(skipped(&req)), "[package]\nname = \"x\"\n", "rustc 1.0")
        .unwrap_err();
    assert!(err.contains("--instructions failed"), "{err}");
    assert!(err.contains("macos"), "{err}");
    assert!(err.contains("Linux/valgrind"), "{err}");
}

#[test]
fn test_measure_requires_a_lane_flag() {
    let err = validate_request(&request("/co", false, false, "linux"), true).unwrap_err();
    assert!(err.contains("--instructions") && err.contains("--walltime"), "{err}");
}

#[test]
fn test_measure_rejects_missing_checkout() {
    let req = request("/nonexistent-measure-cli-checkout", false, true, "linux");
    let err = validate_request(&req, false).unwrap_err();
    assert!(err.contains("not a directory"), "{err}");
}

#[test]
fn test_extract_toml_section_stops_at_next_header() {
    let text = "\
[profile.release]
opt-level = 3

[profile.release.package.foo]
opt-level = 1

[profile.bench]
debug = true
";
    let release = extract_toml_section(text, "profile.release");
    // Trailing blank line before the next header is stripped.
    assert_eq!(release, "opt-level = 3");
    assert!(!release.contains("package.foo"));
    let bench = extract_toml_section(text, "profile.bench");
    assert_eq!(bench, "debug = true");
    assert_eq!(extract_toml_section(text, "profile.dev"), "");
}

#[test]
fn section_bodies_keep_all_but_their_last_blank_lines() {
    let text = "  [a]  \n\n\nx = 1\n\ny = [\n1,\n]\n\n\n[b]";
    assert_eq!(extract_toml_section(text, "a"), "\n\nx = 1\n\ny = [\n1,\n]");
    assert_eq!(extract_toml_section(text, "b"), "");
}

#[test]
fn headers_may_have_a_comment_behind_them() {
    let text = "[profile.release]\nopt-level = 3\n[profile.bench] # b\ndebug = true\n";
    assert_eq!(extract_toml_section(text, "profile.release"), "opt-level = 3");
    assert_eq!(extract_toml_section(text, "profile.bench"), "debug = true");
    // A `#` in quotes starts no comment; the lines of an array are no headers.
    let text = "[a]\nx = [\n[1, 2], # c\n[3, 4] # ]\n]\n[[\"b#\"]]\ny = 1";
    assert_eq!(extract_toml_section(text, "a"), "x = [\n[1, 2], # c\n[3, 4] # ]\n]");
    assert_eq!(extract_toml_section(text, "[\"b#\"]"), "y = 1");
    let text = "[a]\nx = [\n[1]\n, [\n[\"x\"] # c\n] ]\n[b]\n";
    assert_eq!(extract_toml_section(text, "a"), "x = [\n[1]\n, [\n[\"x\"] # c\n] ]");
    // Nor are the lines of a string; what stands in one opens nothing.
    let text = "n = \"\"\"\n[a]\n\"\"\"\n[a]\nx = '''\n[b]\n#''' # '''\ny = \"[\" # [\n[b]";
    assert_eq!(
        extract_toml_section(text, "a"),
        "x = '''\n[b]\n#''' # '''\ny = \"[\" # ["
    );
    let text = "[a]\nx = [\"\"\"\"1\"\"\"\"\"]\n[b]\ny = 1";
    assert_eq!(extract_toml_section(text, "a"), "x = [\"\"\"\"1\"\"\"\"\"]");
    let text = "[a]\n['b\\']# c\nx = 1";
    assert_eq!(extract_toml_section(text, "a"), "");
    let text = "[a]\n[\"\\\"#\"]\nx = 1";
    assert_eq!(extract_toml_section(text, "a"), "");
}

#[test]
fn a_measured_document_has_both_lanes_and_its_provenance() {
    let collected = CollectOutcome::Collected(InstrCollection {
        rows: vec![instr("g", "s", "w", 42), instr("g", "t", "", 7)],
        failed_targets: vec![],
    });
    let walltime = vec![row("g", "s", "w", 1.0), row("g", "s", "w", 2.0)];
    let out = measure(Some(&walltime), Some(collected), TOML, "rustc 1.89.0").unwrap();
    // The last row of a key counts.
    assert_eq!(out.rows.get("g/s/w").unwrap().ns, Some(d(2.0)));
    assert_eq!(out.rows.get("g/s/w").unwrap().instr_count, Some(42));
    assert_eq!(out.rows.get("g/t").unwrap().ns, None);
    assert_eq!(out.meta.profile_fingerprint, profile_fingerprint(TOML, "rustc 1.89.0"));
}

#[test]
fn lane_failures_are_errors_of_a_measurement() {
    let failed = CollectOutcome::Collected(InstrCollection {
        rows: vec![],
        failed_targets: vec!["a".to_string(), "b".to_string()],
    });
    assert_eq!(
        run_instructions(failed).unwrap_err(),
        "--instructions: 2 target(s) failed: a, b"
    );
    let mut req = request("/co", false, true, "linux");
    req.bench_targets.push("u".to_string());
    let both = vec!["t".to_string(), "u".to_string()];
    assert_eq!(
        run_walltime(&req, &both, true, "/c").unwrap_err(),
        "all 2 walltime bench target(s) failed — no data to report"
    );
    let one = vec!["t".to_string()];
    assert_eq!(
        run_walltime(&req, &one, false, "/c").unwrap_err(),
        "walltime benches finished but no criterion tree at /c"
    );
    assert_eq!(run_walltime(&req, &one, true, "/c"), Ok(()));
    assert_eq!(profile_root("/co"), "/co/target/_measure_instr_profiles");
}
