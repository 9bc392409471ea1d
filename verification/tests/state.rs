use mega_bench_reporter::double::Double;
use mega_bench_reporter::state::{median, State, Thresholds, Verdict};

fn d(x: f64) -> Double {
    Double::from_bits(x.to_bits())
}

fn f(x: Double) -> f64 {
    f64::from_bits(x.to_bits())
}

fn uniform(pct: f64) -> Thresholds {
    Thresholds::uniform(d(pct))
}

fn check(state: &mut State, key: &str, ratio: f64) -> Verdict {
    state.check_and_record(key, d(ratio), uniform(10.0), 20)
}

#[test]
fn test_first_run_establishes_baseline_no_alert() {
    let mut state = State::default();
    let verdict = check(&mut state, "salt_dynamic_gas/rex5_salt/sstore_100", 2.0);
    assert_eq!(verdict, Verdict::FirstRun);
    assert!(!verdict.is_regressed());
    assert_eq!(
        state.rows.get("salt_dynamic_gas/rex5_salt/sstore_100").unwrap().recent_ratios.len(),
        1
    );
}

#[test]
fn test_regression_over_threshold_fires_once_then_still_regressed() {
    let mut state = State::default();
    let key = "g/rex5/w";
    // Build up a stable history around ratio 2.0.
    for _ in 0..5 {
        check(&mut state, key, 2.0);
    }
    // 15% jump — over the 10% threshold.
    match check(&mut state, key, 2.3) {
        Verdict::NewRegression { median, current, pct_over } => {
            assert!((f(median) - 2.0).abs() < 1e-9);
            assert!((f(current) - 2.3).abs() < 1e-9);
            assert!(f(pct_over) > 10.0);
            assert_eq!(f(pct_over), (2.3 - 2.0) / 2.0 * 100.0);
        }
        other => panic!("expected NewRegression, got {other:?}"),
    }
    // Still elevated next run — must NOT re-alert (StillRegressed, not NewRegression).
    let v2 = check(&mut state, key, 2.35);
    assert_eq!(v2, Verdict::StillRegressed);
    assert!(v2.is_regressed());
}

#[test]
fn test_improvement_does_not_regress() {
    let mut state = State::default();
    let key = "g/rex5/w";
    for _ in 0..5 {
        check(&mut state, key, 2.0);
    }
    let v = check(&mut state, key, 1.5);
    assert_eq!(v, Verdict::Healthy);
}

#[test]
fn test_missing_baseline_is_first_run_not_a_crash() {
    // A row_key never seen before (e.g. a brand new workload) is FirstRun,
    // not treated as a 0% -> N% "regression".
    let mut state = State::default();
    let v = check(&mut state, "new/workload/never/seen", 999.0);
    assert_eq!(v, Verdict::FirstRun);
}

#[test]
fn test_recovery_fires_once_after_a_regression() {
    let mut state = State::default();
    let key = "g/rex5/w";
    for _ in 0..5 {
        check(&mut state, key, 2.0);
    }
    let regressed = check(&mut state, key, 2.3);
    assert!(regressed.is_regressed());
    // Drops back near baseline.
    let v = check(&mut state, key, 2.0);
    match v {
        Verdict::Recovered { .. } => {}
        other => panic!("expected Recovered, got {other:?}"),
    }
    assert!(!v.is_regressed());
    // Next run at the same level: no repeated recovery notice.
    let v2 = check(&mut state, key, 2.0);
    assert_eq!(v2, Verdict::Healthy);
}

#[test]
fn test_sustained_regression_never_falsely_recovers() {
    // The regressed values must not be folded into the window: a +50%
    // regression held for many runs stays StillRegressed (frozen baseline)
    // instead of converging the median and emitting a false Recovered.
    let mut state = State::default();
    let key = "g/rex5/w";
    for _ in 0..5 {
        check(&mut state, key, 2.0);
    }
    assert!(matches!(check(&mut state, key, 3.0), Verdict::NewRegression { .. }));
    for run in 0..30 {
        let v = check(&mut state, key, 3.0);
        assert_eq!(v, Verdict::StillRegressed, "run {run} must stay regressed");
    }
    // The baseline is still the pre-regression 2.0 median, so an actual
    // fix back to 2.05 recovers against the ORIGINAL baseline.
    match check(&mut state, key, 2.05) {
        Verdict::Recovered { median, .. } => assert!((f(median) - 2.0).abs() < 1e-9),
        other => panic!("expected Recovered, got {other:?}"),
    }
    // And the window was not polluted by the regressed era: a fresh +15%
    // over the old level alerts again.
    assert!(matches!(check(&mut state, key, 2.35), Verdict::NewRegression { .. }));
}

#[test]
fn test_recovery_hysteresis_holds_the_latch_between_thresholds() {
    // Regress past +10%, recover only under +5%: the gap in between must
    // stay latched and quiet instead of emitting recovery/regression
    // pairs while the row oscillates around the regression threshold.
    let th = Thresholds { regression_pct: d(10.0), recovery_pct: d(5.0) };
    let mut state = State::default();
    let key = "g/rex5/w";
    for _ in 0..5 {
        state.check_and_record(key, d(2.0), th, 20);
    }
    assert!(matches!(
        state.check_and_record(key, d(2.3), th, 20),
        Verdict::NewRegression { .. }
    ));
    // +7% over the frozen median: within the old one-threshold band, but
    // above the recovery threshold — no recovery yet.
    assert_eq!(state.check_and_record(key, d(2.14), th, 20), Verdict::StillRegressed);
    // Oscillating back up must NOT re-alert (still the same latch).
    assert_eq!(state.check_and_record(key, d(2.3), th, 20), Verdict::StillRegressed);
    // +4%: under the recovery threshold — one recovery event, and the
    // hysteresis-gap values never polluted the frozen window.
    match state.check_and_record(key, d(2.08), th, 20) {
        Verdict::Recovered { median, .. } => assert!((f(median) - 2.0).abs() < 1e-9),
        other => panic!("expected Recovered, got {other:?}"),
    }
    // Healthy again: a fresh +15% re-alerts against the old baseline.
    assert!(matches!(
        state.check_and_record(key, d(2.31), th, 20),
        Verdict::NewRegression { .. }
    ));
}

#[test]
fn test_clear_rows_drops_history_and_latch_by_pattern() {
    let mut state = State::default();
    // Two latched regressed rows and one healthy row.
    for key in ["g/rex5_salt/w", "g/rex5/w", "other/rex5/w"] {
        for _ in 0..3 {
            check(&mut state, key, 2.0);
        }
    }
    assert!(check(&mut state, "g/rex5_salt/w", 3.0).is_regressed());
    assert!(check(&mut state, "g/rex5/w", 3.0).is_regressed());

    let cleared = state.clear_rows(&vec!["g/*".to_string()]);
    assert_eq!(cleared, vec!["g/rex5/w".to_string(), "g/rex5_salt/w".to_string()]);
    // The untouched row keeps its window.
    assert_eq!(state.rows.len(), 1);
    assert!(state.rows.contains_key("other/rex5/w"));

    // Cleared rows re-baseline at the NEW level: FirstRun, no alert, and
    // a later value near the new level stays Ok.
    assert_eq!(check(&mut state, "g/rex5_salt/w", 3.0), Verdict::FirstRun);
    assert_eq!(check(&mut state, "g/rex5_salt/w", 3.05), Verdict::Healthy);

    // A pattern matching nothing clears nothing.
    assert!(state.clear_rows(&vec!["nope/*".to_string()]).is_empty());
}

#[test]
fn test_rolling_window_caps_at_20() {
    let mut state = State::default();
    let key = "g/s/w";
    for i in 0..30 {
        check(&mut state, key, 1.0 + i as f64 * 0.01);
    }
    assert_eq!(state.rows.get(key).unwrap().recent_ratios.len(), 20);
}

#[test]
fn test_digest_counter_batches_at_ten_then_resets() {
    let mut state = State::default();
    for i in 0..9 {
        assert!(!state.bump_digest_counter(10), "should not fire before 10 (i={i})");
    }
    assert!(state.bump_digest_counter(10), "10th commit should fire the digest");
    state.reset_digest_counter();
    assert_eq!(state.commits_since_digest, 0);
}

#[test]
fn the_window_drops_its_oldest_ratio() {
    let mut state = State::default();
    for i in 0..5 {
        state.check_and_record("k", d(1.0 + i as f64 * 0.001), uniform(10.0), 3);
    }
    let kept: Vec<f64> =
        state.rows.get("k").unwrap().recent_ratios.iter().map(|r| f(*r)).collect();
    assert_eq!(kept, vec![1.002, 1.003, 1.004]);
}

#[test]
fn medians_of_even_and_odd_windows() {
    assert_eq!(f(median(&vec![d(3.0), d(1.0), d(2.0)])), 2.0);
    assert_eq!(f(median(&vec![d(4.0), d(1.0), d(2.0), d(3.0)])), 2.5);
    assert_eq!(f(median(&vec![d(7.25)])), 7.25);
}

#[test]
fn a_rise_of_exactly_the_threshold_is_healthy() {
    let mut state = State::default();
    check(&mut state, "k", 100.0);
    assert_eq!(check(&mut state, "k", 110.0), Verdict::Healthy);
}

#[test]
fn the_lanes_keep_their_own_histories() {
    let mut state = State::default();
    check(&mut state, "k", 2.0);
    assert_eq!(
        state.check_and_record_instr("k", d(9.0), uniform(2.0), 20),
        Verdict::FirstRun
    );
    assert_eq!(state.rows.get("k").unwrap().recent_ratios, vec![d(2.0)]);
    assert_eq!(state.instr_rows.get("k").unwrap().recent_ratios, vec![d(9.0)]);
}

#[test]
fn rebaseline_refuses_a_pattern_that_matches_nothing() {
    let mut state = State::default();
    check(&mut state, "g/rex5/w", 2.0);
    state.check_and_record_instr("h/rex5/w", d(2.0), uniform(2.0), 20);
    let before = state.clone();
    let err = state.rebaseline(&vec!["g/*".to_string(), "nope".to_string()]).unwrap_err();
    assert_eq!(err, "no stored row matches 'nope'");
    assert_eq!(state, before);
    let cleared = state.rebaseline(&vec!["h/*".to_string(), "g/*".to_string()]).unwrap();
    assert_eq!(cleared, vec!["g/rex5/w", "h/rex5/w"]);
    assert!(state.rows.is_empty() && state.instr_rows.is_empty());
}
