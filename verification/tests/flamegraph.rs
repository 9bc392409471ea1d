use mega_bench_reporter::config::{FlameWorkloadPair, FlamegraphConfig, RepoConfig, Tuning};
use mega_bench_reporter::flamegraph::{
    are_countable, bench_artifact, build_bench_binary, built_binary, checked_profile,
    collapse_perf_script, collapse_sample_output, demangle_folded, exact_args,
    find_bench_executable, flame_settings, is_countable, is_foldable, is_profile_foldable,
    is_sample_foldable, perf_script_args, profile_with_perf, profile_with_sample,
    profile_workload, profiler_for, render_differential_svg, render_flamegraph_svg,
    run_flamegraph_pipeline, scratch_file, verify_benchmark_id, verify_listed, workload_file_stem,
    Profiler,
};
use mega_bench_reporter::json::parse;

#[test]
fn test_workload_file_stem() {
    assert_eq!(
        workload_file_stem("salt_dynamic_gas/rex5_salt/sstore_100"),
        "salt_dynamic_gas_rex5_salt_sstore_100"
    );
}

/// Minimal but well-formed `perf script` output: two samples of the same
/// two-frame stack (leaf first, as perf prints them).
const PERF: &str = "\
mega_bench 1234 100.000001: 250000 cycles:\n\
\t            55a8f0 evm_run (/x/mega_bench)\n\
\t            55a900 main (/x/mega_bench)\n\
\n\
mega_bench 1234 100.000002: 250000 cycles:\n\
\t            55a8f0 evm_run (/x/mega_bench)\n\
\t            55a900 main (/x/mega_bench)\n\
\n";

#[test]
fn test_collapse_perf_script_fixture() {
    assert!(is_foldable(PERF.as_bytes()));
    let folded = collapse_perf_script(PERF.as_bytes()).unwrap();
    let text = String::from_utf8(folded).unwrap();
    // inferno roots stacks at the process name and weighs by event period.
    assert!(
        text.contains("mega_bench;main;evm_run 500000"),
        "unexpected folded output: {text}"
    );
}

const SAMPLE: &str = "\
Analysis of sampling mega_bench (pid 12345) every 1 millisecond
Process:         mega_bench [12345]

Call graph:
    2000 Thread_260629
      2000 start  (in dyld) + 1903  [0x1806c3f3c]
        2000 main  (in mega_bench) + 40  [0x1000e0]
          1500 evm_run  (in mega_bench) + 100  [0x100120]
            500 sstore  (in mega_bench) + 4  [0x100200]

Total number in stack (recursive counted multiple, when >=5):

Sort by top of stack, same collapsed (when >= 5):
        evm_run  (in mega_bench)        1000
";

#[test]
fn test_collapse_sample_output_fixture() {
    let folded = collapse_sample_output(SAMPLE.as_bytes()).unwrap();
    let text = String::from_utf8(folded).unwrap();
    // inferno folds sample frames as module`function, rooted at the thread.
    assert!(
        text.contains("mega_bench`main;mega_bench`evm_run;mega_bench`sstore 500"),
        "unexpected folded output: {text}"
    );
}

#[test]
fn test_demangle_folded_rust_symbols() {
    // Bare (perf-style) and module-prefixed (macOS sample-style) frames.
    let folded = b"main;_ZN8mega_evm3run17h1234567890abcdefE;mega_bench`_ZN8mega_evm3run17h1234567890abcdefE;raw_frame 42\n".to_vec();
    let text = String::from_utf8(demangle_folded(&folded)).unwrap();
    assert_eq!(text, "main;mega_evm::run;mega_bench`mega_evm::run;raw_frame 42\n");
}

#[test]
fn test_render_flamegraph_and_differential_svgs() {
    let baseline = b"main;evm_run 90\nmain;evm_run;sstore 10\n".to_vec();
    let feature =
        b"main;evm_run 90\nmain;evm_run;sstore 40\nmain;evm_run;salt_lookup 15\n".to_vec();

    assert!(is_countable(&feature));
    let svg = render_flamegraph_svg("feature", &feature, "feature.svg").unwrap();
    let svg_text = String::from_utf8(svg).unwrap();
    assert!(svg_text.contains("<svg"));
    assert!(svg_text.contains("salt_lookup"));
    assert!(svg_text.contains(">feature<"));

    assert!(are_countable(&baseline, &feature));
    let diff =
        render_differential_svg("feature vs baseline", &baseline, &feature, "feature_diff.svg")
            .unwrap();
    let diff_text = String::from_utf8(diff).unwrap();
    assert!(diff_text.contains("<svg"));
    assert!(diff_text.contains("sstore"));
    assert!(diff_text.contains("feature vs baseline"));
}

/// A drawing with the colors of its frames left out.
fn uncolored(svg: &[u8]) -> String {
    let text = String::from_utf8(svg.to_vec()).unwrap();
    let mut out = String::new();
    for (i, part) in text.split("fill=\"rgb(").enumerate() {
        if i == 0 {
            out.push_str(part);
        } else {
            out.push_str(&part[part.find(')').unwrap()..]);
        }
    }
    out
}

#[test]
fn drawings_differ_in_their_colors_alone_whatever_the_order_of_the_lines() {
    let one = render_flamegraph_svg("t", b"main;a 90\nmain;b 10\n", "t.svg").unwrap();
    let other = render_flamegraph_svg("t", b"main;b 10\nmain;a 90\n", "t.svg").unwrap();
    assert_eq!(uncolored(&one), uncolored(&other));
    let more = render_flamegraph_svg("t", b"main;a 90\nmain;b 11\n", "t.svg").unwrap();
    assert_ne!(uncolored(&one), uncolored(&more));
    let again = render_differential_svg("d", b"a 9\nb 1\n", b"a 1\nb 9\n", "d.svg").unwrap();
    let swapped = render_differential_svg("d", b"b 1\na 9\n", b"b 9\na 1\n", "d.svg").unwrap();
    // The colors of a comparison are settled too: red grew, blue shrank.
    assert_eq!(again, swapped);
    let svg = String::from_utf8(again).unwrap();
    assert!(svg.contains("fill=\"rgb(255,100,100)\""), "{svg}");
    assert!(svg.contains("fill=\"rgb(100,100,255)\""), "{svg}");
}

const CARGO_JSON: &str = r#"{"reason":"compiler-artifact","target":{"name":"mega-evm","kind":["lib"]},"executable":null}
{"reason":"compiler-artifact","target":{"name":"mega_bench","kind":["bench"]},"executable":"/t/profiling/deps/mega_bench-abc123"}
{"reason":"build-finished","success":true}"#;

#[test]
fn test_find_bench_executable_from_cargo_json() {
    assert_eq!(
        find_bench_executable(CARGO_JSON, "mega_bench"),
        Some("/t/profiling/deps/mega_bench-abc123".to_string())
    );
    assert_eq!(find_bench_executable(CARGO_JSON, "other_bench"), None);
}

#[test]
fn the_built_binary_is_read_from_raw_output() {
    assert_eq!(
        built_binary(CARGO_JSON.as_bytes(), "mega_bench"),
        Ok("/t/profiling/deps/mega_bench-abc123".to_string())
    );
    assert_eq!(
        built_binary(b"not json\n{}", "mega_bench"),
        Err("no executable for bench target 'mega_bench' in cargo output".to_string())
    );
    // An example of that name is no bench.
    let example = r#"{"reason":"compiler-artifact","target":{"name":"b","kind":["example"]},"executable":"/x"}"#;
    assert_eq!(bench_artifact(&parse(example).unwrap(), "b"), None);
    assert_eq!(
        build_bench_binary("pkg", "b"),
        vec![
            "bench",
            "-p",
            "pkg",
            "--bench",
            "b",
            "--profile",
            "profiling",
            "--no-run",
            "--message-format=json"
        ]
    );
}

#[test]
fn ids_must_be_listed_exactly() {
    let listing = "g/a/w: benchmark\n g/b/w: benchmark\n\ng/c: benchmark: benchmark\n";
    assert_eq!(verify_benchmark_id(listing, "/bin", "g/a/w"), Ok(()));
    assert_eq!(verify_benchmark_id(listing, "/bin", "g/b/w"), Ok(()));
    assert_eq!(verify_benchmark_id(listing, "/bin", "g/c: benchmark"), Ok(()));
    assert!(verify_benchmark_id(listing, "/bin", "g/c").is_err());
    assert_eq!(
        verify_benchmark_id(listing, "/bin", "g/a"),
        Err("benchmark id 'g/a' not found in `--list` output of /bin — check the id's \
             row/variant order"
            .to_string())
    );
    assert_eq!(verify_listed(listing.as_bytes(), "/bin", "g/a/w"), Ok(()));
    assert!(verify_listed(b"\xff", "/bin", "g/a/w").is_err());
}

#[test]
fn demangling_keeps_what_it_cannot_name() {
    let demangled = |s: &[u8]| String::from_utf8(demangle_folded(s)).unwrap();
    assert_eq!(demangled(b"no_count\na b;c 1"), "no_count\na b;c 1\n");
    assert_eq!(demangled(b"m\xff 2\n"), "m\u{fffd} 2\n");
    // A v0 symbol.
    assert_eq!(demangled(b"_RNvC6_123foo3bar 3\n"), "123foo::bar 3\n");
    assert_eq!(demangled(b""), "");
}

#[test]
fn output_the_collapsers_cannot_take_is_told_apart() {
    // A first stack that ends without an event.
    assert!(!is_foldable(b"\t 55a8f0 evm_run (/x)\n\n"));
    assert!(!is_foldable(b"\n"));
    assert!(!is_foldable(b"bench 12 no event\n\n"));
    assert!(is_foldable(b"\t 55a8f0 evm_run (/x)\n"));
    assert!(is_foldable(b"bench 12 no event\n"));
    assert!(is_foldable(b"weird\nbench 12 1.0: cycles:\n\n"));
    assert!(is_foldable(b"# comment\n# another\nbench 12/13 1.0: cycles:\n\n"));
    assert!(is_foldable(b"# only a comment"));
    assert!(is_foldable(b""));
    // Periods that overflow; other numbers do not count.
    let most = "b 1 18446744073709551615: 18446744073709551615 cycles:\n\t 1a f (/x)\n\n";
    let folded = checked_profile(Profiler::Perf, most.as_bytes()).unwrap().unwrap();
    assert_eq!(folded, b"b;f 18446744073709551615\n");
    assert!(!is_foldable(format!("{most}{most}").as_bytes()));
    assert!(!is_foldable(format!("{most}b 1 1.0: cycles:\n").as_bytes()));
    // A symbol that would be cut inside a character.
    assert!(is_foldable("caf\u{e9} 1234 100.0: 1 cycles:\n\n".as_bytes()));
    let cut = "b 1 1.0: 5 cycles:\n\t 1 \u{e9}2345678901234567 (/x)\n\n";
    assert!(!is_foldable(cut.as_bytes()));
    assert!(checked_profile(Profiler::Perf, cut.as_bytes()).is_none());
    let whole = "b 1 1.0: 5 cycles:\n\t 1 \u{e9}234567890123456 (/x)\n\n";
    let folded = checked_profile(Profiler::Perf, whole.as_bytes()).unwrap().unwrap();
    assert_eq!(String::from_utf8(folded).unwrap(), "b;\u{e9}234567890123456 5\n");
    let offset = "b 1 1.0: 5 cycles:\n\t 1 \u{e9}2345678901234567+0x1f (/x)\n\n";
    assert!(!is_foldable(offset.as_bytes()));
    // Only symbols are looked at so.
    let comm = "\u{e9}2345678901234567 1 1.0: 5 cycles:\n\t 1 f (\u{e9}234567890123456)\n\n";
    let folded = checked_profile(Profiler::Perf, comm.as_bytes()).unwrap().unwrap();
    assert_eq!(String::from_utf8(folded).unwrap(), "\u{e9}2345678901234567;f 5\n");
    assert!(is_profile_foldable(Profiler::Sample, b"x"));
    assert!(is_sample_foldable(b"\xff"));
    // Replaced by a character of three bytes.
    assert!(!is_sample_foldable(b"    + 3 a\xff2345678901234567 (in x)"));
    assert!(!is_sample_foldable(b"    3 a\xff2345678901234567"));
    assert!(is_sample_foldable(b"    3 a\xff2345678901234567y (in x)"));
    let graph = "Call graph:\n    3 a (in \u{e9}234567890123456)\nTotal number in stack\n";
    let folded = checked_profile(Profiler::Sample, graph.as_bytes()).unwrap().unwrap();
    assert_eq!(String::from_utf8(folded).unwrap(), "\u{e9}234567890123456`a 3\n");
    // What is no call-graph line has no symbol.
    assert!(is_sample_foldable(b"Path: a\xff2345678901234567 (x)"));
    // Counts that overflow when they are scaled.
    assert!(!is_countable(b"a 9223372036854775807\n"));
    assert!(is_countable(b"a 61489146912365172\n"));
    assert!(!is_countable(b"a 61489146912365173\n"));
    assert!(!are_countable(b"a 61489146912365172\n", b"b 1\n"));
    // Only the counts at the end of a line are added up.
    assert!(is_countable(b"f18446744073709551615 a 1 2\ng 3\n"));
    assert!(is_countable(b"a 61489146912365170 x 1 1"));
    assert!(!is_countable(b"a 61489146912365172 x 1"));
}

#[test]
fn collapsers_and_renderers_report_their_errors() {
    let err = collapse_sample_output(b"Call graph:\n").unwrap_err();
    assert_eq!(err, "collapsing sample output: File ended before end of call graph");
    let err = render_flamegraph_svg("t", b"", "/d/a.svg").unwrap_err();
    assert_eq!(err, "rendering flame graph /d/a.svg: No stack counts found");
    let err = render_differential_svg("t", b"", b"", "/d/b.svg").unwrap_err();
    assert_eq!(err, "rendering differential /d/b.svg: No stack counts found");
    assert_eq!(collapse_perf_script(b"").unwrap(), b"");
}

#[test]
fn a_profile_is_folded_and_demangled() {
    let folded = profile_workload(
        Profiler::Perf,
        b"b 1 1.0: 5 cycles:\n\t 1 _ZN8mega_evm3run17h1234567890abcdefE (/x/b)\n\n",
    )
    .unwrap();
    assert_eq!(String::from_utf8(folded).unwrap(), "b;mega_evm::run 5\n");
    assert!(profile_workload(Profiler::Sample, SAMPLE.as_bytes()).is_ok());
}

#[test]
fn each_platform_has_its_profiler() {
    assert_eq!(profiler_for("linux"), Ok(Profiler::Perf));
    assert_eq!(profiler_for("macos"), Ok(Profiler::Sample));
    assert_eq!(
        profiler_for("windows"),
        Err("flamegraph profiling is not supported on windows".to_string())
    );
    assert_eq!(
        profile_with_perf("/bin", "g/s/w", 30, "/d"),
        vec![
            "record",
            "-g",
            "--call-graph",
            "dwarf,16384",
            "-o",
            "/d",
            "--",
            "/bin",
            "--bench",
            "--exact",
            "--profile-time",
            "30",
            "g/s/w"
        ]
    );
    assert_eq!(perf_script_args("/d"), vec!["script", "-i", "/d"]);
    assert_eq!(
        exact_args(5, "g/s"),
        vec!["--bench", "--exact", "--profile-time", "5", "g/s"]
    );
    assert_eq!(profile_with_sample(77, 5, "/s"), vec!["77", "5", "-mayDie", "-f", "/s"]);
    assert_eq!(scratch_file(Profiler::Perf, "g/s"), "g_s.perf.data");
    assert_eq!(scratch_file(Profiler::Sample, "g/s"), "g_s.sample.txt");
}

fn pair(baseline: &str, feature: &str) -> FlameWorkloadPair {
    FlameWorkloadPair { baseline: baseline.into(), feature: feature.into() }
}

fn settings(workloads: Vec<FlameWorkloadPair>) -> FlamegraphConfig {
    FlamegraphConfig {
        bench_target: "mega_bench".into(),
        profile_secs: 30,
        retention_days: 30,
        workloads,
    }
}

fn repo(flamegraph: Option<FlamegraphConfig>) -> RepoConfig {
    RepoConfig {
        name: "mega-evm".into(),
        github: "o/r".into(),
        branch: "main".into(),
        clone_url: "https://h/r.git".into(),
        bench_targets: vec![],
        baseline_subject: "b".into(),
        headline_subjects: vec![],
        subject_order: None,
        package: None,
        tuning: Tuning::default(),
        flamegraph,
        instructions: None,
    }
}

#[test]
fn a_shared_baseline_is_profiled_once() {
    let plan = run_flamegraph_pipeline(
        &settings(vec![pair("g/b/w", "g/x/w"), pair("g/b/w", "g/y/w")]),
        "/flame/20260702",
    )
    .unwrap();
    let ids: Vec<&str> = plan.profiles.iter().map(|j| j.id.as_str()).collect();
    assert_eq!(ids, vec!["g/b/w", "g/x/w", "g/y/w"]);
    assert_eq!(plan.profiles[0].svg, "/flame/20260702/g_b_w.svg");
    assert_eq!(plan.diffs.len(), 2);
    assert_eq!(plan.diffs[1].title, "g/y/w vs g/b/w");
    assert_eq!(plan.diffs[1].svg, "/flame/20260702/g_y_w_diff.svg");
}

#[test]
fn flame_settings_that_cannot_work_are_refused() {
    assert_eq!(
        run_flamegraph_pipeline(&settings(vec![pair("a", "x"), pair("b", "x")]), "/f"),
        Err("flamegraph workload feature 'x' appears in more than one pair".to_string())
    );
    assert_eq!(
        flame_settings(&repo(None)),
        Err("repo 'mega-evm' has no [repos.flamegraph] config".to_string())
    );
    assert_eq!(
        flame_settings(&repo(Some(settings(vec![])))),
        Err("repo 'mega-evm' has an empty flamegraph workload list".to_string())
    );
    let ok = settings(vec![pair("a", "x")]);
    assert_eq!(flame_settings(&repo(Some(ok.clone()))), Ok(&ok));
}
