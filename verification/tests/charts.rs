use mega_bench_reporter::charts::{
    alert_red, baseline_gray, integer_tick_label, palette, render_speed_bars, render_trend,
    render_violin, series_color, tick_index, Rgb, SpeedBarItem, SubjectColors, TrendSeries,
};
use mega_bench_reporter::criterion_results::Row;
use mega_bench_reporter::double::Double;
use std::collections::BTreeSet;

fn d(x: f64) -> Double {
    Double::from_bits(x.to_bits())
}

fn f(x: Double) -> f64 {
    f64::from_bits(x.to_bits())
}

fn strings(list: &[&str]) -> Vec<String> {
    list.iter().map(|s| s.to_string()).collect()
}

fn fake_samples(center_ns: f64, n: usize) -> Vec<Double> {
    // Deterministic pseudo-noise around the center.
    (0..n).map(|i| d(center_ns * (1.0 + 0.02 * ((i as f64 * 2.399).sin())))).collect()
}

fn sample_colors() -> SubjectColors {
    SubjectColors::new(
        "revm_pinned",
        &strings(&["revm_pinned", "rex4", "rex5", "rex5_salt", "rex5_oracle", "s"]),
        &strings(&["rex5*"]),
    )
}

#[test]
fn test_subject_colors_baseline_reserved_and_headline_gets_leading_slots() {
    let colors = sample_colors();
    assert_eq!(colors.baseline(), "revm_pinned");
    assert_eq!(colors.color("revm_pinned"), baseline_gray());
    // Priority (headline) subjects take the leading bright slots in
    // alphabetical order; the rest follow — independent of which chart
    // asks.
    assert_eq!(colors.color("rex5"), palette(0));
    assert_eq!(colors.color("rex5_oracle"), palette(1));
    assert_eq!(colors.color("rex5_salt"), palette(2));
    assert_eq!(colors.color("rex4"), palette(3));
    assert_eq!(colors.color("s"), palette(4));
    // The baseline never occupies a palette slot.
    assert!((0..8).all(|i| palette(i) != baseline_gray()));
}

#[test]
fn test_subject_colors_stay_distinct_past_the_palette_size() {
    // mega-evm's real comparison set is 11 non-baseline subjects — more
    // than the 8 base palette slots. Slots past the palette must shade,
    // not repeat: every subject keeps a unique color.
    let subjects: Vec<String> = (0..12).map(|i| format!("subject_{i:02}")).collect();
    let colors = SubjectColors::new("base", &subjects, &Vec::new());
    let mut seen = BTreeSet::new();
    for s in &subjects {
        let Rgb { r, g, b } = colors.color(s);
        assert!(seen.insert((r, g, b)), "duplicate color for {s}");
    }
}

fn bars(item: &str, list: &[(&str, f64)]) -> SpeedBarItem {
    SpeedBarItem {
        item: item.into(),
        bars: list.iter().map(|(s, v)| (s.to_string(), d(*v))).collect(),
    }
}

#[test]
fn test_render_speed_bars_writes_png() {
    let items = vec![
        bars(
            "salt_dynamic_gas/sstore_100",
            &[("revm_pinned", 100.0), ("rex5", 57.0), ("rex5_salt", 48.0)],
        ),
        bars("oracle_real_data/oracle_sload_50", &[("revm_pinned", 100.0), ("rex5_oracle", 143.0)]),
    ];
    let chart = render_speed_bars(
        "relative speed (revm_pinned = 100%)",
        "relative speed %",
        &items,
        &sample_colors(),
    )
    .unwrap();
    assert_eq!(chart.title, "relative speed (revm_pinned = 100%)");
    // Every bar has its length, its text and its subject's color.
    let drawn: Vec<Vec<f64>> =
        chart.bars.iter().map(|b| b.iter().map(|x| f(x.percent)).collect()).collect();
    let all: Vec<f64> = drawn.concat();
    let mut sorted = all.clone();
    sorted.sort_by(|a, b| a.partial_cmp(b).unwrap());
    assert_eq!(sorted, vec![48.0, 57.0, 100.0, 100.0, 143.0]);
    let texts: BTreeSet<String> =
        chart.bars.iter().flatten().map(|b| b.text.clone()).collect();
    assert!(texts.iter().any(|t| t.contains("57")), "{texts:?}");
    assert!(chart.bars.iter().flatten().any(|b| b.color == palette(0)));
    // The axis reaches past the longest bar.
    assert!(f(chart.x_max) >= 143.0);
    assert_eq!(chart.labels.len(), 2);
    // The legend lists the subjects as they first appear.
    let legend: Vec<&str> = chart.legend.iter().map(|s| s.subject.as_str()).collect();
    assert_eq!(legend, vec!["revm_pinned", "rex5", "rex5_salt", "rex5_oracle"]);
}

#[test]
fn speed_bars_of_nothing_are_refused() {
    assert!(render_speed_bars("t", "x", &[], &sample_colors()).is_err());
}

fn row(group: &str, subject: &str, workload: &str, mean: f64, samples: Vec<Double>) -> Row {
    Row {
        group: group.into(),
        subject: subject.into(),
        workload: workload.into(),
        mean_ns: d(mean),
        std_dev_ns: d(250.0),
        samples_ns: samples,
    }
}

#[test]
fn test_render_violin_writes_png() {
    let rows = vec![
        row("salt_dynamic_gas", "revm_pinned", "sstore_100", 14000.0, fake_samples(14000.0, 100)),
        row("salt_dynamic_gas", "rex5_salt", "sstore_100", 28000.0, fake_samples(28000.0, 100)),
    ];
    let chart =
        render_violin("salt_dynamic_gas/sstore_100", &rows, &vec![0, 1], &sample_colors())
            .unwrap();
    assert_eq!(chart.violins.len(), 2);
    for (violin, row) in chart.violins.iter().zip(&rows) {
        assert_eq!(violin.samples_us.len(), 100);
        assert_eq!(f(violin.samples_us[3]), f(row.samples_ns[3]) / 1000.0);
        let sum = violin.samples_us.iter().fold(0.0, |sum, s| sum + f(*s));
        assert_eq!(f(violin.mean), sum / 100.0);
        assert_eq!(violin.grid.len(), 201);
        // The grid runs from the lowest to the highest sample.
        let us: Vec<f64> = violin.samples_us.iter().map(|s| f(*s)).collect();
        let lo = us.iter().cloned().fold(f64::INFINITY, f64::min);
        let hi = us.iter().cloned().fold(f64::NEG_INFINITY, f64::max);
        assert_eq!((f(violin.lo), f(violin.hi)), (lo, hi));
        assert!(f(chart.x_lo) <= lo && hi <= f(chart.x_hi));
    }
    assert_eq!(chart.violins[0].color, baseline_gray());
    assert_eq!(chart.violins[1].color, palette(2));
}

#[test]
fn test_render_violin_handles_degenerate_all_equal_samples() {
    let rows = vec![row("g", "s", "w", 1000.0, vec![d(1000.0); 50])];
    let chart = render_violin("degenerate", &rows, &vec![0], &sample_colors()).unwrap();
    // The axis keeps a width although all samples are equal.
    assert!(f(chart.x_lo) < f(chart.x_hi));
    assert_eq!((f(chart.violins[0].lo), f(chart.violins[0].hi)), (1.0, 1.0));
}

#[test]
fn violins_without_samples_are_refused() {
    let rows = vec![row("g", "s", "w", 1000.0, vec![])];
    assert!(render_violin("t", &rows, &vec![0], &sample_colors()).is_err());
    assert!(render_violin("t", &rows, &vec![], &sample_colors()).is_err());
}

fn series(label: &str, ratios: Vec<Option<f64>>, alerts: Vec<bool>) -> TrendSeries {
    TrendSeries {
        label: label.into(),
        ratios: ratios.into_iter().map(|r| r.map(d)).collect(),
        alerts,
    }
}

#[test]
fn test_render_trend_writes_png() {
    let commits: Vec<String> =
        (0..10).map(|i| format!("{:07x}", 0x1234567 + i * 0x111)).collect();
    let all = vec![
        series(
            "salt_dynamic_gas/rex5_salt/sstore_100",
            (0..10).map(|i| Some(2.0 + 0.02 * i as f64)).collect(),
            (0..10).map(|i| i == 6).collect(),
        ),
        series(
            "empty_transaction/rex5",
            // One missing commit (row absent that run) must not break the line.
            (0..10).map(|i| if i == 4 { None } else { Some(1.2) }).collect(),
            Vec::new(),
        ),
    ];
    let plot = render_trend("mega-evm 10-commit trend", "revm_pinned", &commits, &all).unwrap();
    assert_eq!(plot.commit_labels, commits);
    assert_eq!(plot.lines.len(), 2);
    let salt =
        plot.lines.iter().find(|l| l.label == "salt_dynamic_gas/rex5_salt/sstore_100").unwrap();
    assert_eq!(salt.points.len(), 10);
    assert_eq!(salt.rings.len(), 1);
    assert_eq!(salt.rings[0].x, 6);
    assert_eq!(f(salt.rings[0].ratio), 2.0 + 0.02 * 6.0);
    let empty = plot.lines.iter().find(|l| l.label == "empty_transaction/rex5").unwrap();
    let xs: Vec<usize> = empty.points.iter().map(|p| p.x).collect();
    assert_eq!(xs, vec![0, 1, 2, 3, 5, 6, 7, 8, 9]);
    // Everything lies on the plot.
    assert!(f(plot.y_lo) <= 1.2 && f(plot.y_hi) >= 2.18);
}

#[test]
fn trends_without_points_are_refused() {
    let commits = strings(&["a", "b"]);
    assert!(render_trend("t", "y", &commits, &[]).is_err());
    assert!(render_trend("t", "y", &commits, &[series("s", vec![None, None], vec![])]).is_err());
}

#[test]
fn series_colors_shade_past_the_palette() {
    assert_eq!(series_color(3), palette(3));
    assert_ne!(series_color(11), palette(3));
    let all: BTreeSet<(u8, u8, u8)> =
        (0..24).map(|i| series_color(i)).map(|c| (c.r, c.g, c.b)).collect();
    assert_eq!(all.len(), 24);
    assert!(!all.contains(&(alert_red().r, alert_red().g, alert_red().b)));
}

#[test]
fn ticks_are_labelled_at_whole_positions() {
    let labels = strings(&["a", "b", "c"]);
    // The first label stands at the top.
    assert_eq!(integer_tick_label(d(0.0), &labels), "c");
    assert_eq!(integer_tick_label(d(2.0), &labels), "a");
    assert_eq!(integer_tick_label(d(1.4), &labels), "");
    assert_eq!(integer_tick_label(d(-1.0), &labels), "");
    assert_eq!(integer_tick_label(d(3.0), &labels), "");
    assert_eq!(tick_index(d(2.0), 3), Some(2));
    assert_eq!(tick_index(d(1.005), 3), Some(1));
    assert_eq!(tick_index(d(-0.004), 3), Some(0));
}
