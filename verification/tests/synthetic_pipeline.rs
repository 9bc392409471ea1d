//! Drives the post-bench stage over many commits in memory — no git, no cargo,
//! no benches — and checks the records, the simulated regression/recovery
//! events, and the digest of a batch.

use mega_bench_reporter::config::{
    Config, InstructionsConfig, RepoConfig, Settings, Tuning,
};
use mega_bench_reporter::criterion_results::{row_of, BenchFiles, Row};
use mega_bench_reporter::digest::{
    build_adhoc_trend, build_digest, select_window, DigestOutcome, TrendOutcome, TrendRequest,
};
use mega_bench_reporter::double::Double;
use mega_bench_reporter::git::CommitMeta;
use mega_bench_reporter::instructions::{CollectOutcome, InstrCollection, InstrRow};
use mega_bench_reporter::lane::Lane;
use mega_bench_reporter::pipeline::{
    carry_forward, check_required_lane, finish_run, has_counter_room, process_results,
    run_outcome, Event, FinishAction, FinishEvent,
    InstrVerdict, RunOutcome, RunPlan,
};
use mega_bench_reporter::state::State;
use mega_bench_reporter::storage::{
    in_date_order, most_recent, stored_record, CommitRecord, RepoStore, RowRecord,
};

fn d(x: f64) -> Double {
    Double::from_bits(x.to_bits())
}

fn f(x: Double) -> f64 {
    f64::from_bits(x.to_bits())
}

const SALT: &str = "salt_dynamic_gas/rex5_salt/sstore_100";

fn config(instructions: Option<InstructionsConfig>) -> Config {
    Config {
        defaults: Tuning::default(),
        repos: vec![RepoConfig {
            name: "mega-evm".into(),
            github: "megaeth-labs/mega-evm".into(),
            branch: "main".into(),
            clone_url: "https://github.com/megaeth-labs/mega-evm.git".into(),
            bench_targets: vec!["mega_bench".into()],
            baseline_subject: "revm_pinned".into(),
            headline_subjects: vec!["rex5".into(), "rex5_*".into()],
            subject_order: None,
            package: None,
            tuning: Tuning::default(),
            flamegraph: None,
            instructions,
        }],
    }
    .checked()
    .unwrap()
}

/// What criterion's files of one benchmark hold: 20 deterministic samples
/// around the mean.
fn bench(group: &str, function_id: &str, mean_ns: f64) -> Row {
    row_of(BenchFiles {
        group_id: group.into(),
        function_id: Some(function_id.into()),
        value_str: None,
        mean_ns: d(mean_ns),
        std_dev_ns: d(mean_ns * 0.01),
        iters: vec![d(1.0); 20],
        times: (0..20)
            .map(|i| d(mean_ns * (1.0 + 0.01 * ((i as f64) * 2.399).sin())))
            .collect(),
    })
}

/// A synthetic bench result set: two comparison groups; `salt_ratio` controls
/// the headline row's gap (baseline stays fixed), so a run can simulate a
/// regression by passing a higher value.
fn criterion_rows(salt_ratio: f64) -> Vec<Row> {
    vec![
        bench("salt_dynamic_gas", "revm_pinned/sstore_100", 14_000.0),
        bench("salt_dynamic_gas", "rex5/sstore_100", 24_000.0),
        bench("salt_dynamic_gas", "rex5_salt/sstore_100", 14_000.0 * salt_ratio),
        bench("empty_transaction", "revm_pinned", 8_000.0),
        bench("empty_transaction", "rex5", 9_500.0),
        // A group without a revm_pinned baseline: rows recorded, no ratio.
        bench("oracle_real_data", "rex5_oracle/oracle_sload_50", 5_000.0),
    ]
}

fn meta(i: usize) -> CommitMeta {
    // Distinct leading 7 chars per synthetic sha — commit dirs are keyed by
    // `<day>-<shortsha>`.
    CommitMeta {
        sha: format!("{:07x}{}", 0xa00000 + i, "0".repeat(33)),
        date: format!("2026-07-{:02}T{:02}:15:00Z", 1 + i / 4, 6 * (i % 4)),
        rustc: "rustc 1.86.0".to_string(),
    }
}

/// A synthetic instructions-lane collection mirroring `criterion_rows`'
/// headline row; `salt_count` controls the `rex5_salt` count (baseline fixed
/// at 10_000, so `salt_count / 10_000` is the instructions ratio).
fn instr_collection(salt_count: u64) -> InstrCollection {
    let mk = |group: &str, subject: &str, workload: &str, count: u64| InstrRow {
        group: group.into(),
        subject: subject.into(),
        workload: workload.into(),
        count,
    };
    InstrCollection {
        rows: vec![
            mk("salt_dynamic_gas", "revm_pinned", "sstore_100", 10_000),
            mk("salt_dynamic_gas", "rex5", "sstore_100", 24_000),
            mk("salt_dynamic_gas", "rex5_salt", "sstore_100", salt_count),
            mk("empty_transaction", "revm_pinned", "", 8_000),
            mk("empty_transaction", "rex5", "", 9_500),
        ],
        failed_targets: vec![],
    }
}

fn collected(salt_count: u64) -> Option<CollectOutcome> {
    Some(CollectOutcome::Collected(instr_collection(salt_count)))
}

/// A data root in memory: what a run would leave on disk.
struct Disk {
    repo: RepoConfig,
    settings: Settings,
    store: RepoStore,
    state: State,
    records: Vec<(String, CommitRecord)>,
    events: Vec<(String, Vec<Event>)>,
    digests: Vec<DigestOutcome>,
}

impl Disk {
    fn new() -> Disk {
        Disk::with(None)
    }

    fn with(instructions: Option<InstructionsConfig>) -> Disk {
        let cfg = config(instructions);
        let repo = cfg.repo("mega-evm").unwrap().clone();
        let settings = cfg.settings(&repo).unwrap();
        Disk {
            repo,
            settings,
            store: RepoStore::new("/data", "mega-evm"),
            state: State::default(),
            records: Vec::new(),
            events: Vec::new(),
            digests: Vec::new(),
        }
    }

    fn plan(&self, i: usize, rows: &[Row], failed: &[&str], instr: &Option<CollectOutcome>) -> RunPlan {
        process_results(
            &self.repo,
            &self.settings,
            &self.store,
            rows,
            &meta(i),
            &failed.iter().map(|s| s.to_string()).collect(),
            instr,
            self.state.clone(),
        )
        .unwrap()
    }

    fn recent(&self, n: usize) -> Vec<CommitRecord> {
        let all = self
            .records
            .iter()
            .map(|(dir, r)| stored_record(dir.clone(), r.clone()))
            .collect();
        most_recent(in_date_order(all), n).into_iter().map(|s| s.record).collect()
    }

    fn digest(&mut self) -> Result<String, String> {
        let window = self.recent(self.settings.digest_batch_size as usize);
        let digest = build_digest(
            &self.store,
            "mega-evm",
            &self.repo.headline_label(),
            &self.repo.headline_subjects,
            self.settings.regression_threshold_pct,
            self.settings.instr_regression_threshold_pct,
            &window,
        )?;
        let dir = digest.dir.clone();
        self.digests.push(digest);
        Ok(dir)
    }

    /// Everything a run writes, in the order it is asked for.
    fn finish(
        &mut self,
        mut plan: RunPlan,
        instr: &Option<CollectOutcome>,
    ) -> Result<RunOutcome, String> {
        let mut asked = FinishAction::WriteRecord;
        loop {
            let mut event = FinishEvent::Done;
            match &asked {
                FinishAction::WriteRecord => {
                    self.records.retain(|(dir, _)| *dir != plan.commit_dir);
                    self.records.push((plan.commit_dir.clone(), plan.record.clone()));
                }
                FinishAction::WriteArtifacts | FinishAction::WriteLatest => {}
                FinishAction::BuildDigest => event = FinishEvent::Built(self.digest()),
                FinishAction::WriteEvents => {
                    self.events.push((plan.commit_dir.clone(), plan.events.clone()));
                }
                FinishAction::SaveState => self.state = plan.state.clone(),
                FinishAction::Finish => return Ok(run_outcome(plan)),
                FinishAction::Fail(e) => return Err(e.clone()),
            }
            asked = finish_run(
                &self.store,
                &self.repo.instructions,
                instr,
                &mut plan,
                asked,
                event,
            );
        }
    }

    fn try_run(
        &mut self,
        i: usize,
        salt_ratio: f64,
        failed: &[&str],
        instr: &Option<CollectOutcome>,
    ) -> Result<RunOutcome, String> {
        let plan = self.plan(i, &criterion_rows(salt_ratio), failed, instr);
        self.finish(plan, instr)
    }

    fn run(&mut self, i: usize, salt_ratio: f64, failed: &[&str], instr: &Option<CollectOutcome>) -> RunOutcome {
        self.try_run(i, salt_ratio, failed, instr).unwrap()
    }

    fn row(&self, i: usize, group: &str, name: &str) -> RowRecord {
        let record = &self.records.iter().find(|(_, r)| r.commit == meta(i).sha).unwrap().1;
        *record.groups.get(group).unwrap().get(name).unwrap()
    }
}

#[test]
fn test_synthetic_ten_commit_run_with_regression_and_recovery() {
    let mut disk = Disk::new();

    // Runs 0–4: stable baseline. No events at all.
    for i in 0..5 {
        let outcome = disk.run(i, 2.0, &[], &None);
        assert!(outcome.events.is_empty(), "run {i} should be quiet, got {:?}", outcome.events);
    }
    assert_eq!(disk.state.last_seen_sha.as_deref(), Some(meta(4).sha.as_str()));

    // Storage layout after the stable runs.
    assert_eq!(disk.records.len(), 5, "one commits/ dir per run");
    let first_dir = format!("/data/mega-evm/commits/20260701-{}", &meta(0).sha[..7]);
    assert_eq!(disk.records[0].0, first_dir);
    let fresh = Disk::new();
    let first = fresh.plan(0, &criterion_rows(2.0), &[], &None);
    assert_eq!(first.bars.as_ref().unwrap().path, format!("{first_dir}/compare_bars.png"));
    // No instructions lane this run → no instr_bars.png.
    assert!(first.instr_bars.is_none());
    let table = first.table.as_ref().unwrap();
    assert_eq!(table.headline_label, "rex5, rex5_*");
    assert!(table.subjects.iter().any(|s| s == "revm_pinned"));
    let salt_row = table
        .rows
        .iter()
        .find(|r| r.item == "salt_dynamic_gas/sstore_100")
        .expect("salt row in compare_table.json");
    assert_eq!(salt_row.headline_ratio, Some(d(2.0)));
    let dists: Vec<&str> = first.violins.iter().map(|v| v.path.as_str()).collect();
    assert!(dists.contains(&format!("{first_dir}/dist_salt_dynamic_gas_sstore_100.png").as_str()));
    assert!(dists.contains(&format!("{first_dir}/dist_empty_transaction.png").as_str()));
    // Baseline-less group gets no violin with a single row, and no ratio.
    assert_eq!(dists.len(), 2);

    assert_eq!(first.record.baseline_subject, "revm_pinned");
    assert_eq!(
        disk.row(0, "salt_dynamic_gas", "rex5_salt/sstore_100").ratio_vs_baseline,
        Some(d(2.0))
    );
    assert_eq!(
        disk.row(0, "oracle_real_data", "rex5_oracle/oracle_sload_50").ratio_vs_baseline,
        None
    );

    // Run 5: the headline row jumps 15% over the rolling median → regression
    // event (a fact — composing an alert card from it is the consumer's job).
    let outcome = disk.run(5, 2.3, &[], &None);
    assert_eq!(outcome.events.len(), 1);
    match &outcome.events[0] {
        Event::Regression { row_key, baseline_median, current, pct_over, metric, instructions } => {
            assert_eq!(row_key, SALT);
            assert!((f(*baseline_median) - 2.0).abs() < 1e-9);
            assert!((f(*current) - 2.3).abs() < 1e-9);
            assert!((f(*pct_over) - 15.0).abs() < 0.1);
            // Walltime events carry no metric marker (absent in the JSON).
            assert_eq!(*metric, None);
            // This run has no instructions lane, so the walltime alert is
            // annotated `missing` (no comparable instructions data).
            let ann = instructions.as_ref().expect("walltime events carry the annotation");
            assert_eq!(ann.verdict, InstrVerdict::Missing);
            assert_eq!(ann.ratio_delta_pct, None);
        }
        other => panic!("expected Regression, got {other:?}"),
    }

    // The events are persisted durably in the commit dir (recovery path for a
    // lost stdout), and a retry of the same sha must NOT clobber them with
    // its empty event list.
    let alert_dir = format!("/data/mega-evm/commits/20260702-{}", &meta(5).sha[..7]);
    let persisted = |disk: &Disk| -> Vec<Event> {
        disk.events.iter().rev().find(|(dir, _)| *dir == alert_dir).unwrap().1.clone()
    };
    assert!(matches!(persisted(&disk)[0], Event::Regression { .. }));
    let retry = disk.run(5, 2.3, &[], &None);
    assert!(retry.events.is_empty(), "idempotent rerun emits no events on stdout");
    assert!(
        matches!(persisted(&disk)[0], Event::Regression { .. }),
        "rerun must not overwrite the persisted events"
    );

    // Run 6: still elevated — no new event (latched).
    let outcome = disk.run(6, 2.32, &[], &None);
    assert!(outcome.events.is_empty(), "still-regressed must not re-fire");

    // Run 7: back to baseline → recovery event.
    let outcome = disk.run(7, 2.0, &[], &None);
    assert_eq!(outcome.events.len(), 1);
    assert!(matches!(outcome.events[0], Event::Recovery { .. }));

    // Runs 8–9: quiet again; run 9 is the 10th commit → digest event.
    let outcome = disk.run(8, 2.0, &[], &None);
    assert!(outcome.events.is_empty());
    let outcome = disk.run(9, 2.0, &[], &None);
    assert_eq!(outcome.events.len(), 1);
    match &outcome.events[0] {
        Event::Digest { dir } => assert!(dir.starts_with("digests/"), "digest dir: {dir}"),
        other => panic!("expected Digest, got {other:?}"),
    }

    // Digest artifacts.
    assert_eq!(disk.digests.len(), 1);
    let digest = &disk.digests[0];
    assert_eq!(digest.charts[0].path, format!("{}/trend.png", digest.dir));
    assert_eq!(digest.summary.commits.len(), 10);
    // The regression bump at runs 5–6 is visible in the stored series.
    let salt_row =
        digest.summary.rows.iter().find(|r| r.row_key == SALT).expect("headline row in summary");
    assert_eq!(salt_row.ratios[5], Some(d(2.3)));

    // State after all runs: digest counter reset, sha recorded, latch clear.
    assert_eq!(disk.state.commits_since_digest, 0);
    assert_eq!(disk.state.last_seen_sha.as_deref(), Some(meta(9).sha.as_str()));
    assert!(!disk.state.rows.get(SALT).unwrap().currently_regressed);
}

#[test]
fn test_instructions_lane_regression_recovery_and_rebaseline() {
    let mut disk = Disk::new();
    // Walltime stays flat throughout: every event below is instructions-only.

    // Runs 0–4: stable counts. Quiet on both lanes.
    for i in 0..5 {
        let outcome = disk.run(i, 2.0, &[], &collected(20_000));
        assert!(outcome.events.is_empty(), "run {i} should be quiet, got {:?}", outcome.events);
        assert_eq!(outcome.instr_failed_targets, None, "clean lane reports no failures");
    }

    // The per-commit artifacts carry the lane's data.
    let first_dir = format!("/data/mega-evm/commits/20260701-{}", &meta(0).sha[..7]);
    let first = Disk::new().plan(0, &criterion_rows(2.0), &[], &collected(20_000));
    let salt_row = disk.row(0, "salt_dynamic_gas", "rex5_salt/sstore_100");
    assert_eq!(salt_row.instr.unwrap().count, 20_000);
    assert_eq!(salt_row.instr.unwrap().ratio_vs_baseline, Some(d(2.0)));
    // Lane on but all targets fine: no instr_failed_targets.
    assert!(first.record.instr_failed_targets.is_none());
    // The instructions bars ride alongside compare_bars.png.
    assert_eq!(first.bars.as_ref().unwrap().path, format!("{first_dir}/compare_bars.png"));
    assert_eq!(first.instr_bars.as_ref().unwrap().path, format!("{first_dir}/instr_bars.png"));
    let table = first.table.as_ref().unwrap();
    let salt_item = table
        .rows
        .iter()
        .find(|r| r.item == "salt_dynamic_gas/sstore_100")
        .expect("salt row in compare_table.json");
    // Worst (max) headline-family instructions ratio: plain rex5's
    // 24_000/10_000 beats rex5_salt's 2.0.
    assert_eq!(salt_item.instr_headline_ratio, Some(d(2.4)));
    let instr_cols = salt_item.instr.as_ref().unwrap();
    assert_eq!(instr_cols.len(), table.subjects.len(), "instr aligns with subjects");
    let pinned_idx = table.subjects.iter().position(|s| s == "revm_pinned").unwrap();
    assert_eq!(instr_cols[pinned_idx], Some(10_000));

    // Run 5: counts jump 3% — over the 2% built-in instructions threshold,
    // far under the 10% walltime threshold. Exactly one event, marked.
    let outcome = disk.run(5, 2.0, &[], &collected(20_600));
    assert_eq!(outcome.events.len(), 1, "got {:?}", outcome.events);
    match &outcome.events[0] {
        Event::Regression { row_key, metric, pct_over, .. } => {
            assert_eq!(row_key, SALT);
            assert_eq!(metric.as_deref(), Some("instructions"));
            assert!((f(*pct_over) - 3.0).abs() < 0.1);
        }
        other => panic!("expected instructions Regression, got {other:?}"),
    }

    // Run 6: still elevated — latched, quiet.
    assert!(
        disk.run(6, 2.0, &[], &collected(20_600)).events.is_empty(),
        "still-regressed must not re-fire"
    );

    // Run 7: back to the old count → recovery, still marked.
    let outcome = disk.run(7, 2.0, &[], &collected(20_000));
    assert_eq!(outcome.events.len(), 1);
    match &outcome.events[0] {
        Event::Recovery { metric, .. } => assert_eq!(metric.as_deref(), Some("instructions")),
        other => panic!("expected instructions Recovery, got {other:?}"),
    }

    // The lanes' histories live side by side under the same key.
    let mut state = disk.state.clone();
    assert!(state.rows.contains_key(SALT));
    assert!(state.instr_rows.contains_key(SALT));
    assert!(!state.instr_rows.get(SALT).unwrap().currently_regressed);

    // Rebaseline clears the row from BOTH lanes.
    let cleared = state.clear_rows(&vec![format!("{SALT}*")]);
    assert_eq!(cleared, vec![SALT.to_string()]);
    assert!(!state.rows.contains_key(SALT));
    assert!(!state.instr_rows.contains_key(SALT));
}

#[test]
fn test_instr_failed_targets_are_marked_in_record_and_outcome() {
    let mut disk = Disk::new();
    let mut instr = instr_collection(20_000);
    instr.failed_targets = vec!["mega_bench".to_string()];
    let outcome = disk.run(0, 2.0, &[], &Some(CollectOutcome::Collected(instr)));
    assert_eq!(outcome.instr_failed_targets, Some(vec!["mega_bench".to_string()]));
    let record = &disk.records[0].1;
    assert_eq!(record.instr_failed_targets, Some(vec!["mega_bench".to_string()]));
    // The walltime marker stays independent (and absent here).
    assert!(record.failed_targets.is_empty());
}

#[test]
fn test_rerunning_same_sha_does_not_double_count() {
    let mut disk = Disk::new();
    disk.run(0, 2.0, &[], &None);
    let state_after_first = disk.state.clone();

    // Same sha again (e.g. a consumer retry): artifacts refresh, but the
    // rolling window and digest counter must not move.
    let outcome = disk.run(0, 2.0, &[], &None);
    assert!(outcome.events.is_empty());
    assert_eq!(state_after_first, disk.state);
    assert_eq!(disk.state.rows.get(SALT).unwrap().recent_ratios.len(), 1);
    assert_eq!(disk.state.commits_since_digest, 1);
}

#[test]
fn test_rerunning_same_sha_with_instr_does_not_double_count() {
    let mut disk = Disk::new();
    disk.run(0, 2.0, &[], &collected(20_000));
    let state_after_first = disk.state.clone();

    // Same sha again WITH instructions data: artifacts refresh, but neither
    // lane's rolling window nor the digest counter moves, and the replayed
    // ratios fire no events — mirroring the walltime-only rerun above.
    let outcome = disk.run(0, 2.0, &[], &collected(20_000));
    assert!(outcome.events.is_empty());
    assert_eq!(state_after_first, disk.state);
    assert_eq!(disk.state.rows.get(SALT).unwrap().recent_ratios.len(), 1);
    assert_eq!(disk.state.instr_rows.get(SALT).unwrap().recent_ratios.len(), 1);
    assert_eq!(disk.state.commits_since_digest, 1);
}

#[test]
fn test_walltime_regression_annotated_with_instructions_verdict() {
    // A walltime regression fires at run 5 while the instructions lane sits at
    // a chosen level. The event's `instructions` annotation is the
    // instructions lane's *stateless* cross-check: its pre-update rolling
    // median (built over runs 0–4), its regression threshold (2%), symmetric
    // in both directions. Each verdict runs in its own fresh store.
    let verdict_for = |run5_instr: Option<CollectOutcome>| -> (InstrVerdict, Option<Double>) {
        let mut disk = Disk::new();
        // Runs 0–4: walltime and instructions both flat (instr salt ratio 2.0
        // → the instructions rolling median settles at 2.0).
        for i in 0..5 {
            let out = disk.run(i, 2.0, &[], &collected(20_000));
            assert!(out.events.is_empty(), "run {i} should be quiet");
        }
        // Run 5: walltime jumps 15% (fires the walltime regression); the
        // instructions lane sits wherever `run5_instr` puts it.
        let out = disk.run(5, 2.3, &[], &run5_instr);
        let ev = out
            .events
            .iter()
            .find(|e| matches!(e, Event::Regression { metric: None, .. }))
            .expect("a walltime regression event");
        match ev {
            Event::Regression { instructions, .. } => {
                let ann = instructions.as_ref().expect("walltime events carry the annotation");
                (ann.verdict, ann.ratio_delta_pct)
            }
            _ => unreachable!(),
        }
    };

    // flat: instructions unchanged (ratio 2.0 vs median 2.0 → 0%).
    assert_eq!(verdict_for(collected(20_000)), (InstrVerdict::Flat, Some(d(0.0))));
    // up: +3% (ratio 2.06 vs 2.0), at/above the 2% instructions threshold —
    // the walltime regression is corroborated by a real code-path change.
    assert_eq!(verdict_for(collected(20_600)), (InstrVerdict::Up, Some(d(3.0))));
    // down: −3% (ratio 1.94 vs 2.0), symmetric — an instructions improvement.
    assert_eq!(verdict_for(collected(19_400)), (InstrVerdict::Down, Some(d(-3.0))));
    // missing: no instructions data at all this run.
    assert_eq!(verdict_for(None), (InstrVerdict::Missing, None));
}

#[test]
fn test_digest_over_mixed_instr_commits_has_instr_series_and_chart() {
    // 10 commits with instructions data on even runs only. The 10th commit's
    // digest must null-pad `instr_series` at the no-instr commits and render
    // `instr_trend.png`. Walltime stays flat, so the digest is the only event.
    let mut disk = Disk::new();
    let mut digest_rel_dir = None;
    for i in 0..10 {
        let instr = if i % 2 == 0 { collected(20_000) } else { None };
        let out = disk.run(i, 2.0, &[], &instr);
        for ev in &out.events {
            if let Event::Digest { dir } = ev {
                digest_rel_dir = Some(dir.clone());
            }
        }
    }

    let digest = &disk.digests[0];
    let dir = format!("/data/mega-evm/{}", digest_rel_dir.expect("digest at the 10th commit"));
    assert_eq!(digest.dir, dir);
    let paths: Vec<&str> = digest.charts.iter().map(|c| c.path.as_str()).collect();
    assert_eq!(paths, vec![format!("{dir}/trend.png"), format!("{dir}/instr_trend.png")]);

    let instr_series = digest.summary.instr_series.as_ref().expect("instr_series present");
    let salt = instr_series
        .iter()
        .find(|r| r.row_key == SALT)
        .expect("salt headline row in instr_series");
    assert_eq!(salt.ratios.len(), 10, "aligned to the same 10 commits as the walltime series");
    for (i, ratio) in salt.ratios.iter().enumerate() {
        assert_eq!(ratio.is_some(), i % 2 == 0, "commit {i}");
    }
}

#[test]
fn test_trend_metric_instructions_happy_and_empty() {
    let trend = |with_instr: bool| -> Result<TrendOutcome, String> {
        let mut disk = Disk::new();
        for i in 0..3 {
            let instr = if with_instr { collected(20_000) } else { None };
            disk.run(i, 2.0, &[], &instr);
        }
        let window = select_window(disk.recent(20), 20, None, None).unwrap();
        build_adhoc_trend(
            &disk.store,
            "mega-evm",
            &disk.repo.headline_label(),
            &disk.repo.headline_subjects,
            disk.settings.regression_threshold_pct,
            disk.settings.instr_regression_threshold_pct,
            Lane::Instructions,
            &window,
            &TrendRequest { row_patterns: vec![], out: None },
        )
    };

    // Happy path: instructions data present → instr_trend.png plus a
    // summary carrying instr_series; only the chosen lane's chart lands.
    let ok = trend(true).unwrap();
    assert_eq!(ok.chart.path, format!("{}/instr_trend.png", ok.dir));
    assert!(ok.summary.instr_series.is_some());

    // Empty window: commits with no instructions data → an actionable error.
    let err = trend(false);
    assert!(err.is_err());
    assert!(err.unwrap_err().contains("instructions"));
}

#[test]
fn test_failed_targets_are_marked_not_silently_dropped() {
    let mut disk = Disk::new();
    let outcome = disk.run(0, 2.0, &["block_bench"], &None);
    assert_eq!(outcome.failed_targets, vec!["block_bench"]);
    assert_eq!(disk.records[0].1.failed_targets[0], "block_bench");
}

#[test]
fn test_require_instructions_skip_or_failure_errors_after_full_writes() {
    // `require_instructions = true` turns a skipped lane — or a lane-failed
    // target — into a nonzero exit, but only AFTER the complete happy-path
    // write sequence: everything on disk must be exactly what a best-effort
    // run would have written; the error is a signal, not a data problem.
    let required = Some(InstructionsConfig { bench_filter: None, require_instructions: true });

    // Case 1: the lane skipped entirely; the captured reason travels into the
    // error message.
    let mut disk = Disk::with(required.clone());
    let skipped =
        Some(CollectOutcome::Skipped("codspeed CLI not usable: spawn failed".to_string()));
    let msg = disk
        .try_run(0, 2.0, &[], &skipped)
        .expect_err("require_instructions + skipped lane must fail the run");
    assert!(msg.contains("require_instructions"), "error names the knob: {msg}");
    assert!(msg.contains("codspeed CLI not usable"), "error names the skip reason: {msg}");

    // The walltime write sequence finished before the error fired.
    let commit_dir = format!("/data/mega-evm/commits/20260701-{}", &meta(0).sha[..7]);
    assert_eq!(disk.records[0].0, commit_dir);
    assert_eq!(disk.records[0].1.instr_collection(), None, "skipped lane leaves no instr blocks");
    assert_eq!(disk.events[0], (commit_dir.clone(), vec![]), "events written (empty first run)");
    assert_eq!(disk.state.last_seen_sha.as_deref(), Some(meta(0).sha.as_str()), "state saved");
    assert!(disk.state.rows.contains_key(SALT));

    // Case 2: the lane ran but a bench target failed collection — the error
    // names the target, and the successful rows' data still landed first.
    let mut disk = Disk::with(required);
    let mut instr = instr_collection(20_000);
    instr.failed_targets = vec!["mega_bench".to_string()];
    let outcome = Some(CollectOutcome::Collected(instr));
    let msg = disk
        .try_run(0, 2.0, &[], &outcome)
        .expect_err("require_instructions + lane-failed target must fail the run");
    assert!(msg.contains("require_instructions"), "error names the knob: {msg}");
    assert!(msg.contains("mega_bench"), "error names the failed target: {msg}");
    assert_eq!(disk.records[0].1.instr_failed_targets, Some(vec!["mega_bench".to_string()]));
    let salt = disk.row(0, "salt_dynamic_gas", "rex5_salt/sstore_100");
    assert_eq!(salt.instr.unwrap().count, 20_000);
    assert_eq!(disk.state.last_seen_sha.as_deref(), Some(meta(0).sha.as_str()));
    assert!(disk.state.instr_rows.contains_key(SALT));
}

#[test]
fn test_require_instructions_absent_or_false_skip_stays_best_effort() {
    // With the knob absent or explicitly false, a skipped lane keeps today's
    // behavior exactly: Ok, quiet, artifacts identical to a walltime-only run
    // with no `[repos.instructions]` at all.
    let control = Disk::new().plan(0, &criterion_rows(2.0), &[], &None);
    for knob in [
        InstructionsConfig::default(),
        InstructionsConfig { bench_filter: None, require_instructions: false },
    ] {
        let skipped = Some(CollectOutcome::Skipped(
            "skipped on macos (CodSpeed simulation mode needs Linux/valgrind)".into(),
        ));
        let disk = Disk::with(Some(knob));
        let plan = disk.plan(0, &criterion_rows(2.0), &[], &skipped);
        assert!(plan.events.is_empty());
        assert_eq!(check_required_lane(&disk.repo.instructions, &skipped), Ok(()));
        assert_eq!(plan.record, control.record);
        assert_eq!(plan.table, control.table);
        assert_eq!(run_outcome(plan).instr_failed_targets, None);
    }
}

#[test]
fn test_skip_bench_regen_carries_instr_blocks_byte_identical() {
    // The --skip-bench carry-forward: a re-render reads the previous record
    // for the sha, reconstructs the lane collection from its rows, and
    // re-attaches it — instr blocks (and the compare-table columns derived
    // from them) come out identical. A previous record without instr data
    // regenerates exactly as today.
    let mut disk = Disk::new();
    let original = disk.plan(0, &criterion_rows(2.0), &[], &collected(20_000));
    disk.run(0, 2.0, &[], &collected(20_000));
    assert!(original.record.instr_collection().is_some(), "sanity: instr data is there");

    let (failed, carried) = carry_forward(&Some(disk.records[0].1.clone()));
    assert!(failed.is_empty());
    let regen = disk.plan(0, &criterion_rows(2.0), &[], &carried);
    assert!(regen.is_rerun && regen.events.is_empty(), "regen of the same sha is a rerun");
    assert_eq!(regen.record, original.record, "instr blocks included");
    assert_eq!(regen.table, original.table, "instr columns included");

    // A previous record WITHOUT instr data → nothing to carry → the regen
    // is unchanged.
    let mut disk = Disk::new();
    let original = disk.plan(0, &criterion_rows(2.0), &["block_bench"], &None);
    disk.run(0, 2.0, &["block_bench"], &None);
    let (failed, carried) = carry_forward(&Some(disk.records[0].1.clone()));
    assert_eq!(failed, vec!["block_bench"]);
    assert_eq!(carried, None, "no instr data to carry");
    let regen = disk.plan(0, &criterion_rows(2.0), &["block_bench"], &carried);
    assert_eq!(regen.record, original.record);
}

#[test]
fn a_baseline_without_a_walltime_row_takes_the_ratios_with_it() {
    // The one thing a re-render cannot carry: a count that has no row to be
    // stored on.
    let disk = Disk::new();
    let rows: Vec<Row> = criterion_rows(2.0)
        .into_iter()
        .filter(|r| r.group != "salt_dynamic_gas" || r.subject != "revm_pinned")
        .collect();
    let first = disk.plan(0, &rows, &[], &collected(20_000));
    assert!(!first.homeless.is_empty());
    let row = first.record.groups.get("salt_dynamic_gas").unwrap();
    let instr = row.get("rex5_salt/sstore_100").unwrap().instr.unwrap();
    assert!(instr.ratio_vs_baseline.is_some());

    let (_, carried) = carry_forward(&Some(first.record.clone()));
    let regen = disk.plan(0, &rows, &[], &carried);
    let row = regen.record.groups.get("salt_dynamic_gas").unwrap();
    let kept = row.get("rex5_salt/sstore_100").unwrap().instr.unwrap();
    assert_eq!(kept.count, instr.count);
    assert!(kept.ratio_vs_baseline.is_none());
}

#[test]
fn a_bad_commit_date_is_an_error() {
    let disk = Disk::new();
    let mut broken = meta(0);
    broken.date = "someday".to_string();
    let err = process_results(
        &disk.repo,
        &disk.settings,
        &disk.store,
        &criterion_rows(2.0),
        &broken,
        &vec![],
        &None,
        State::default(),
    )
    .unwrap_err();
    assert!(err.starts_with("bad RFC3339 date 'someday': "), "{err}");
}

#[test]
fn a_rerun_succeeds_with_a_full_digest_counter() {
    let mut disk = Disk::new();
    disk.run(0, 2.0, &[], &None);
    disk.state.commits_since_digest = u32::MAX;
    assert!(has_counter_room(&disk.state, &meta(0).sha));
    assert!(!has_counter_room(&disk.state, &meta(1).sha));
    let before = disk.state.clone();
    let outcome = disk.run(0, 9.0, &[], &None);
    assert!(outcome.events.is_empty());
    assert_eq!(disk.state, before);
    assert_eq!(disk.events.len(), 1, "events of the first time stay as they are");
}

#[test]
fn a_failed_digest_is_due_again_at_the_next_commit() {
    let mut disk = Disk::new();
    disk.settings.digest_batch_size = 1;
    // No headline rows: there is nothing to build a digest of.
    let bare: Vec<Row> =
        criterion_rows(2.0).into_iter().filter(|r| r.subject == "revm_pinned").collect();
    let plan = disk.plan(0, &bare, &[], &None);
    assert!(plan.digest_due);
    let outcome = disk.finish(plan, &None).unwrap();
    assert!(outcome.events.is_empty());
    assert_eq!(disk.state.commits_since_digest, 1);
    disk.settings.digest_batch_size = 2;
    let outcome = disk.run(1, 2.0, &[], &None);
    assert!(matches!(outcome.events[..], [Event::Digest { .. }]), "{:?}", outcome.events);
    assert_eq!(disk.state.commits_since_digest, 0);
}

#[test]
fn attached_counts_come_back_from_the_record() {
    let disk = Disk::new();
    let mut attached = instr_collection(20_000).rows;
    let plan = disk.plan(0, &criterion_rows(2.0), &[], &collected(20_000));
    assert!(plan.homeless.is_empty());
    let mut back = plan.record.instr_collection().unwrap();
    let key = |r: &InstrRow| (r.group.clone(), r.subject.clone(), r.workload.clone());
    attached.sort_by_key(key);
    back.rows.sort_by_key(key);
    assert_eq!(back.rows, attached);
    assert!(back.failed_targets.is_empty());
}
