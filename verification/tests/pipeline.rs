use mega_bench_reporter::config::{InstructionsConfig, RepoConfig, Settings, Tuning};
use mega_bench_reporter::criterion_results::{RatioRow, WorkloadRatios};
use mega_bench_reporter::double::Double;
use mega_bench_reporter::git::CommitMeta;
use mega_bench_reporter::instructions::{CollectOutcome, InstrCollection};
use mega_bench_reporter::lane::Lane;
use mega_bench_reporter::pipeline::{
    bench_outcome, bench_target, carry_forward, check_lane, check_regen, check_required_lane,
    digest_result, dist_file_name, finish_run, process_results, run_commit_pipeline, Event,
    FinishAction, FinishEvent, InstrAnnotationCtx, InstrVerdict, RunAction, RunEvent, RunPlan,
};
use mega_bench_reporter::state::{RowHistory, State, Thresholds};
use mega_bench_reporter::storage::{CommitRecord, RepoStore};
use mega_bench_reporter::strmap::StrMap;

fn d(x: f64) -> Double {
    Double::from_bits(x.to_bits())
}

#[test]
fn test_instructions_events_carry_the_metric_marker_and_no_annotation() {
    let event = Event::Regression {
        row_key: "g/rex5/w".into(),
        baseline_median: d(1.0),
        current: d(1.05),
        pct_over: d(5.0),
        metric: Lane::Instructions.metric_field().map(str::to_string),
        // Instructions events annotate nothing — the field is omitted.
        instructions: None,
    };
    match event {
        Event::Regression { metric, instructions, .. } => {
            assert_eq!(metric.as_deref(), Some("instructions"));
            assert!(instructions.is_none());
        }
        other => panic!("expected Regression, got {other:?}"),
    }
}

#[test]
fn test_dist_file_name_sanitizes_criterion_separators() {
    assert_eq!(
        dist_file_name("salt_dynamic_gas", "sstore_100"),
        "dist_salt_dynamic_gas_sstore_100.png"
    );
    assert_eq!(
        dist_file_name("salt_dynamic_gas", "sstore_100/x8"),
        "dist_salt_dynamic_gas_sstore_100_x8.png"
    );
    assert_eq!(dist_file_name("empty_transaction", ""), "dist_empty_transaction.png");
}

#[test]
fn bench_arguments_follow_the_config() {
    assert_eq!(
        bench_target("mega-evm", "mega_bench", &None, &None),
        vec!["bench", "-p", "mega-evm", "--bench", "mega_bench", "--", "--output-format", "bencher"]
    );
    assert_eq!(
        bench_target("p", "t", &Some("profiling".to_string()), &Some("rex5".to_string())),
        vec![
            "bench", "-p", "p", "--bench", "t", "--profile", "profiling", "--",
            "--output-format", "bencher", "rex5"
        ]
    );
}

#[test]
fn a_run_fails_only_when_every_target_fails() {
    let targets = vec!["a".to_string(), "b".to_string()];
    assert_eq!(bench_outcome(&targets, &vec![true, true]), Ok(vec![]));
    assert_eq!(bench_outcome(&targets, &vec![true, false]), Ok(vec!["b".to_string()]));
    assert!(bench_outcome(&targets, &vec![false, false]).is_err());
}

fn repo(targets: &[&str], lane: bool) -> RepoConfig {
    RepoConfig {
        name: "r".to_string(),
        github: "o/r".to_string(),
        branch: "main".to_string(),
        clone_url: "https://example.com/o/r".to_string(),
        bench_targets: targets.iter().map(|t| t.to_string()).collect(),
        baseline_subject: "revm".to_string(),
        headline_subjects: vec!["rex5".to_string()],
        subject_order: None,
        package: None,
        tuning: Tuning::default(),
        flamegraph: None,
        instructions: lane
            .then(|| InstructionsConfig { bench_filter: None, require_instructions: false }),
    }
}

/// Every action of a run whose actions are answered by `answer`.
fn actions(
    repo: &RepoConfig,
    skip_bench: bool,
    mut answer: impl FnMut(&RunAction) -> RunEvent,
) -> Vec<RunAction> {
    let mut asked = RunAction::Lock;
    let mut all = vec![asked.clone()];
    while !matches!(asked, RunAction::Process { .. } | RunAction::Fail(_)) {
        let event = answer(&asked);
        asked = run_commit_pipeline(repo, "abc", skip_bench, "/c", asked, event);
        all.push(asked.clone());
    }
    all
}

#[test]
fn a_run_benches_every_target_once_and_then_collects() {
    let outcome = CollectOutcome::Skipped("no valgrind".to_string());
    let done = actions(&repo(&["a", "b"], true), false, |asked| match asked {
        RunAction::Bench { succeeded } => RunEvent::Benched(succeeded.len() == 1),
        RunAction::Collect { .. } => RunEvent::Collected(outcome.clone()),
        _ => RunEvent::Done,
    });
    assert_eq!(
        done,
        vec![
            RunAction::Lock,
            RunAction::EnsureCheckout,
            RunAction::CheckOut,
            RunAction::ReadMeta,
            RunAction::ClearTree,
            RunAction::Bench { succeeded: vec![] },
            RunAction::Bench { succeeded: vec![false] },
            RunAction::Collect { failed_targets: vec!["a".to_string()] },
            RunAction::Process {
                failed_targets: vec!["a".to_string()],
                instr: Some(outcome.clone()),
            },
        ]
    );
    // Without the lane the results follow the last target.
    let done = actions(&repo(&["a"], false), false, |asked| match asked {
        RunAction::Bench { .. } => RunEvent::Benched(true),
        _ => RunEvent::Done,
    });
    let process = RunAction::Process { failed_targets: vec![], instr: None };
    assert_eq!(done[5..], [RunAction::Bench { succeeded: vec![] }, process]);
}

#[test]
fn a_run_ends_at_the_first_failure() {
    for (targets, n) in [(vec!["a", "b"], 2), (vec![], 0)] {
        let done = actions(&repo(&targets, true), false, |asked| match asked {
            RunAction::Bench { .. } => RunEvent::Benched(false),
            _ => RunEvent::Done,
        });
        let error = format!("all {n} bench targets failed — no data to report");
        assert_eq!(done.last(), Some(&RunAction::Fail(error)));
    }
    let done = actions(&repo(&["a"], false), false, |asked| match asked {
        RunAction::CheckOut => RunEvent::Failed("no such commit".to_string()),
        _ => RunEvent::Done,
    });
    assert_eq!(done[3..], [RunAction::Fail("no such commit".to_string())]);
    // What does not answer the action leaves it asked.
    let repo = repo(&["a"], false);
    let asked = run_commit_pipeline(
        &repo,
        "abc",
        false,
        "/c",
        RunAction::ReadMeta,
        RunEvent::Benched(true),
    );
    assert_eq!(asked, RunAction::ReadMeta);
}

#[test]
fn a_regeneration_measures_nothing() {
    let answer = |tree: bool, last: &str| {
        let last = last.to_string();
        move |asked: &RunAction| match asked {
            RunAction::FindTree => RunEvent::Tree(tree),
            RunAction::ReadLastSeen => RunEvent::LastSeen(Some(last.clone())),
            RunAction::ReadRecord => {
                let mut record = CommitRecord::new(
                    "abc".to_string(),
                    "2026-01-01T00:00:00Z".to_string(),
                    "rustc 1.90.0".to_string(),
                    "revm".to_string(),
                );
                record.failed_targets = vec!["b".to_string()];
                RunEvent::Record(Some(record))
            }
            _ => RunEvent::Done,
        }
    };
    let repo = repo(&["a", "b"], true);
    assert_eq!(
        actions(&repo, true, answer(true, "abc"))[4..],
        [
            RunAction::FindTree,
            RunAction::ReadLastSeen,
            RunAction::ReadRecord,
            RunAction::Process { failed_targets: vec!["b".to_string()], instr: None },
        ]
    );
    assert_eq!(
        actions(&repo, true, answer(false, "abc")).last(),
        Some(&RunAction::Fail("--skip-bench: no existing criterion tree at /c".to_string()))
    );
    assert_eq!(
        actions(&repo, true, answer(true, "def")).last(),
        Some(&RunAction::Fail(
            "--skip-bench only re-renders the last processed sha (def); the existing criterion \
             tree was not produced by abc"
                .to_string()
        ))
    );
}

#[test]
fn regeneration_is_for_the_last_processed_sha() {
    let seen = Some("abc".to_string());
    assert_eq!(check_regen(true, "/c", &seen, "abc"), Ok(()));
    assert!(check_regen(true, "/c", &seen, "def").is_err());
    assert!(check_regen(true, "/c", &None, "abc").is_err());
    let err = check_regen(false, "/c", &seen, "abc").unwrap_err();
    assert!(err.contains("/c"), "{err}");
    assert_eq!(carry_forward(&None), (vec![], None));
}

#[test]
fn a_required_lane_must_have_run() {
    let on = Some(InstructionsConfig { bench_filter: None, require_instructions: true });
    let off = Some(InstructionsConfig { bench_filter: None, require_instructions: false });
    let skipped = Some(CollectOutcome::Skipped("no valgrind".to_string()));
    let failed = Some(CollectOutcome::Collected(InstrCollection {
        rows: vec![],
        failed_targets: vec!["t".to_string()],
    }));
    let fine = Some(CollectOutcome::Collected(InstrCollection::default()));
    assert!(check_required_lane(&on, &skipped).unwrap_err().contains("no valgrind"));
    assert!(check_required_lane(&on, &failed).unwrap_err().contains("t"));
    assert_eq!(check_required_lane(&on, &fine), Ok(()));
    assert_eq!(check_required_lane(&off, &skipped), Ok(()));
    assert_eq!(check_required_lane(&None, &skipped), Ok(()));
}

#[test]
fn annotations_round_the_delta_but_judge_it_exactly() {
    let mut current = StrMap::new();
    let mut rows = StrMap::new();
    let mut put = |key: &str, now: f64, before: &[f64]| {
        current.insert(key.to_string(), d(now));
        rows.insert(
            key.to_string(),
            RowHistory {
                recent_ratios: before.iter().map(|x| d(*x)).collect(),
                currently_regressed: false,
            },
        );
    };
    put("up", 1.03, &[1.0]);
    put("almost", 1.019999, &[1.0]);
    put("down", 0.9, &[1.0, 1.0, 5.0]);
    put("fresh", 1.0, &[]);
    let ctx = InstrAnnotationCtx { current: &current, instr_rows: &rows, regression_pct: d(2.0) };
    let up = ctx.annotation_for("up");
    assert_eq!((up.verdict, up.ratio_delta_pct), (InstrVerdict::Up, Some(d(3.0))));
    // Rounds to the threshold, but lies below it.
    let almost = ctx.annotation_for("almost");
    assert_eq!((almost.verdict, almost.ratio_delta_pct), (InstrVerdict::Flat, Some(d(2.0))));
    let down = ctx.annotation_for("down");
    assert_eq!((down.verdict, down.ratio_delta_pct), (InstrVerdict::Down, Some(d(-10.0))));
    for key in ["fresh", "unknown"] {
        let a = ctx.annotation_for(key);
        assert_eq!((a.verdict, a.ratio_delta_pct), (InstrVerdict::Missing, None));
    }
    assert_eq!(State::default().rows.len(), 0);
}

#[test]
fn a_first_check_records_every_row_and_emits_nothing() {
    let row = |subject: &str, ratio: Option<f64>| RatioRow {
        subject: subject.to_string(),
        mean_ns: d(1.0),
        ratio_vs_baseline: ratio.map(d),
    };
    let table = |ratio: f64| {
        vec![WorkloadRatios {
            group: "g".to_string(),
            workload: "w".to_string(),
            rows: vec![row("other", Some(3.0)), row("rex5", Some(ratio)), row("unrated", None)],
        }]
    };
    let headline = vec!["rex5".to_string()];
    let mut histories: StrMap<RowHistory> = StrMap::new();
    let mut events: Vec<Event> = Vec::new();
    let th = Thresholds::uniform(d(10.0));
    check_lane(Lane::Walltime, &table(2.0), th, &mut histories, 20, &headline, None, &mut events);
    assert!(events.is_empty());
    // Headline or not, but only with a ratio.
    assert_eq!(histories.get("g/other/w").unwrap().recent_ratios, vec![d(3.0)]);
    assert_eq!(histories.get("g/rex5/w").unwrap().recent_ratios, vec![d(2.0)]);
    assert!(!histories.contains_key("g/unrated/w"));
    // The next check has something to compare with.
    check_lane(Lane::Walltime, &table(3.0), th, &mut histories, 20, &headline, None, &mut events);
    assert_eq!(events.len(), 1);
    assert_eq!(histories.get("g/rex5/w").unwrap().recent_ratios, vec![d(2.0)]);
}

/// Every action of a run's end whose actions are answered by `answer`.
fn writes(
    is_rerun: bool,
    digest_due: bool,
    instr: &Option<CollectOutcome>,
    answer: impl Fn(&FinishAction) -> FinishEvent,
) -> (Vec<FinishAction>, RunPlan) {
    let store = RepoStore::new("/data", "r");
    let lane = Some(InstructionsConfig { bench_filter: None, require_instructions: true });
    let mut plan = process_results(
        &repo(&["a"], true),
        &Settings::resolve(&Tuning::default(), &Tuning::default()).unwrap(),
        &store,
        &[],
        &CommitMeta {
            sha: "abcdef012345".to_string(),
            date: "2026-01-01T00:00:00Z".to_string(),
            rustc: "rustc 1.90.0".to_string(),
        },
        &vec![],
        instr,
        State::default(),
    )
    .unwrap();
    plan.is_rerun = is_rerun;
    plan.digest_due = digest_due;
    let mut asked = FinishAction::WriteRecord;
    let mut all = vec![asked.clone()];
    while !matches!(asked, FinishAction::Finish | FinishAction::Fail(_)) {
        let event = answer(&asked);
        asked = finish_run(&store, &lane, instr, &mut plan, asked, event);
        all.push(asked.clone());
    }
    (all, plan)
}

#[test]
fn the_writes_of_a_run_come_in_order() {
    let (all, plan) = writes(false, true, &None, |asked| match asked {
        FinishAction::BuildDigest => FinishEvent::Built(Ok("/data/r/digests/d".to_string())),
        _ => FinishEvent::Done,
    });
    assert_eq!(
        all,
        vec![
            FinishAction::WriteRecord,
            FinishAction::WriteArtifacts,
            FinishAction::BuildDigest,
            FinishAction::WriteEvents,
            FinishAction::SaveState,
            FinishAction::WriteLatest,
            FinishAction::Finish,
        ]
    );
    assert_eq!(plan.events, vec![Event::Digest { dir: "digests/d".to_string() }]);
    assert_eq!(plan.state.commits_since_digest, 0);
    // A re-run writes no events; a required lane fails it when all is written.
    let skipped = Some(CollectOutcome::Skipped("no valgrind".to_string()));
    let (all, _) = writes(true, false, &skipped, |_| FinishEvent::Done);
    assert_eq!(
        all[1..4],
        [FinishAction::WriteArtifacts, FinishAction::SaveState, FinishAction::WriteLatest]
    );
    assert!(matches!(&all[4..], [FinishAction::Fail(e)] if e.contains("no valgrind")));
}

#[test]
fn a_failed_write_ends_the_run() {
    let (all, _) = writes(false, false, &None, |asked| match asked {
        FinishAction::SaveState => FinishEvent::Failed("disk full".to_string()),
        _ => FinishEvent::Done,
    });
    assert_eq!(all[3..], [FinishAction::SaveState, FinishAction::Fail("disk full".to_string())]);
    let (all, plan) = writes(false, true, &None, |asked| match asked {
        FinishAction::BuildDigest => FinishEvent::Built(Err("no rows".to_string())),
        _ => FinishEvent::Done,
    });
    assert_eq!(all.last(), Some(&FinishAction::Finish));
    assert_eq!((plan.events.len(), plan.state.commits_since_digest), (0, 1));
}

#[test]
fn a_digest_result_settles_the_counter() {
    let store = RepoStore::new("/data", "r");
    let mut state = State::default();
    state.commits_since_digest = 7;
    let mut events = vec![];
    digest_result(Err("no rows".to_string()), &store, &mut state, &mut events);
    assert_eq!((state.commits_since_digest, events.len()), (7, 0));
    digest_result(Ok("/data/r/digests/d".to_string()), &store, &mut state, &mut events);
    assert_eq!(state.commits_since_digest, 0);
    assert_eq!(events, vec![Event::Digest { dir: "digests/d".to_string() }]);
}
