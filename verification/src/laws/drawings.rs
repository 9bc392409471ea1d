//! What the charts show of the numbers.
use crate::charts;
use crate::charts::{
    SpeedBarItem, SpeedBarsChart, SubjectColors, TrendPlot, TrendPoint, TrendSeries, Violin,
    ViolinChart,
};
use crate::config;
use crate::criterion_results::Row;
use crate::double;
use crate::double::Double;
use crate::laws::history;
use crate::laws::numbers;
use crate::text;
use vstd::arithmetic::power2::*;
use vstd::prelude::*;

verus! {

// ---------------------------------------------------------------------------
// Extremes
// ---------------------------------------------------------------------------

proof fn lemma_least(s: Seq<Double>, so_far: Double)
    requires
        history::numbers(s),
        !so_far.nan(),
    ensures
        !charts::least(s, so_far).nan(),
        charts::least(s, so_far).le_spec(so_far),
        forall|i: int| 0 <= i < s.len() ==> charts::least(s, so_far).le_spec(#[trigger] s[i]),
        charts::least(s, so_far) == so_far || s.contains(charts::least(s, so_far)),
    decreases s.len(),
{
    if s.len() > 0 {
        let front = s.drop_last();
        let n = s.len() - 1;
        assert forall|i: int| 0 <= i < front.len() implies !(#[trigger] front[i]).nan() by {
            assert(front[i] == s[i]);
        }
        lemma_least(front, so_far);
        let before = charts::least(front, so_far);
        let now = charts::least(s, so_far);
        assert(!s[n].nan());
        assert(now.le_spec(before) && now.le_spec(s[n]));
        assert forall|i: int| 0 <= i < s.len() implies now.le_spec(#[trigger] s[i]) by {
            if i < n {
                assert(front[i] == s[i]);
            }
        }
        if now == s[n] {
            assert(s.contains(now));
        } else if front.contains(before) {
            let i = front.index_of(before);
            assert(s[i] == before);
        }
    }
}

proof fn lemma_most(s: Seq<Double>, so_far: Double)
    requires
        history::numbers(s),
        !so_far.nan(),
    ensures
        !charts::most(s, so_far).nan(),
        so_far.le_spec(charts::most(s, so_far)),
        forall|i: int| 0 <= i < s.len() ==> (#[trigger] s[i]).le_spec(charts::most(s, so_far)),
        charts::most(s, so_far) == so_far || s.contains(charts::most(s, so_far)),
    decreases s.len(),
{
    if s.len() > 0 {
        let front = s.drop_last();
        let n = s.len() - 1;
        assert forall|i: int| 0 <= i < front.len() implies !(#[trigger] front[i]).nan() by {
            assert(front[i] == s[i]);
        }
        lemma_most(front, so_far);
        let before = charts::most(front, so_far);
        let now = charts::most(s, so_far);
        assert(!s[n].nan());
        assert(before.le_spec(now) && s[n].le_spec(now));
        assert forall|i: int| 0 <= i < s.len() implies (#[trigger] s[i]).le_spec(now) by {
            if i < n {
                assert(front[i] == s[i]);
            }
        }
        if now == s[n] {
            assert(s.contains(now));
        } else if front.contains(before) {
            let i = front.index_of(before);
            assert(s[i] == before);
        }
    }
}

// ---------------------------------------------------------------------------
// Trend lines
// ---------------------------------------------------------------------------

/// A trend line has one point per ratio that is there, at its commit's place,
/// from the oldest to the newest.
pub proof fn law_lines_have_a_point_per_ratio(ratios: Seq<Option<Double>>, p: TrendPoint)
    requires
        ratios.len() <= usize::MAX,
    ensures
        charts::points_spec(ratios).contains(p) <==> p.x < ratios.len() && ratios[p.x as int]
            == Some(p.ratio),
        forall|i: int, j: int|
            0 <= i < j < charts::points_spec(ratios).len() ==> (#[trigger] charts::points_spec(
                ratios,
            )[i]).x < (#[trigger] charts::points_spec(ratios)[j]).x,
    decreases ratios.len(),
{
    let all = charts::points_spec(ratios);
    if ratios.len() > 0 {
        let n = ratios.len() - 1;
        let front = ratios.drop_last();
        law_lines_have_a_point_per_ratio(front, p);
        let before = charts::points_spec(front);
        if all.contains(p) {
            let k = all.index_of(p);
            if k < before.len() {
                assert(before[k] == p);
                assert(before.contains(p));
            }
        }
        if p.x < ratios.len() && ratios[p.x as int] == Some(p.ratio) {
            if p.x < n {
                assert(before.contains(p));
                let k = before.index_of(p);
                assert(all[k] == p);
            } else {
                assert(all[all.len() - 1] == p);
            }
        }
        assert forall|i: int, j: int| 0 <= i < j < all.len() implies (#[trigger] all[i]).x < (
        #[trigger] all[j]).x by {
            assert(all[i] == before[i]);
            if j < before.len() {
                assert(all[j] == before[j]);
            } else {
                law_lines_have_a_point_per_ratio(front, before[i]);
                assert(before.contains(before[i]));
            }
        }
    } else {
        assert(!all.contains(p));
    }
}

/// The rings of a trend line are its points that carry an alert.
pub proof fn law_rings_are_the_alerted_points(
    ratios: Seq<Option<Double>>,
    alerts: Seq<bool>,
    p: TrendPoint,
)
    requires
        ratios.len() <= usize::MAX,
    ensures
        charts::rings_spec(ratios, alerts).contains(p) <==> p.x < ratios.len()
            && ratios[p.x as int] == Some(p.ratio) && p.x < alerts.len() && alerts[p.x as int],
    decreases ratios.len(),
{
    let all = charts::rings_spec(ratios, alerts);
    if ratios.len() > 0 {
        let n = ratios.len() - 1;
        let front = ratios.drop_last();
        law_rings_are_the_alerted_points(front, alerts, p);
        let before = charts::rings_spec(front, alerts);
        if all.contains(p) {
            let k = all.index_of(p);
            if k < before.len() {
                assert(before[k] == p);
                assert(before.contains(p));
            }
        }
        if p.x < ratios.len() && ratios[p.x as int] == Some(p.ratio) && p.x < alerts.len()
            && alerts[p.x as int] {
            if p.x < n {
                assert(before.contains(p));
                let k = before.index_of(p);
                assert(all[k] == p);
            } else {
                assert(all[all.len() - 1] == p);
            }
        }
    } else {
        assert(!all.contains(p));
    }
}

/// A series' last value is its newest ratio that is there.
pub proof fn law_the_last_value_is_the_newest(ratios: Seq<Option<Double>>, k: int)
    requires
        0 <= k < ratios.len(),
        ratios[k] is Some,
        forall|j: int| k < j < ratios.len() ==> (#[trigger] ratios[j]) is None,
    ensures
        charts::last_value(ratios) == ratios[k],
    decreases ratios.len(),
{
    let n = ratios.len() - 1;
    if k < n {
        assert(ratios[n] is None);
        let front = ratios.drop_last();
        assert(front[k] == ratios[k]);
        assert forall|j: int| k < j < front.len() implies (#[trigger] front[j]) is None by {
            assert(front[j] == ratios[j]);
        }
        law_the_last_value_is_the_newest(front, k);
    }
}

/// The ratio of the series at that commit, where it is there.
pub open spec fn shown_at(series: Seq<TrendSeries>, i: int, x: int, ratio: Double) -> bool {
    &&& 0 <= i < series.len()
    &&& 0 <= x < series[i].ratios@.len()
    &&& series[i].ratios@[x] == Some(ratio)
}

/// Every ratio that is there is a finite number.
pub open spec fn all_finite(series: Seq<TrendSeries>) -> bool {
    forall|i: int, x: int, r: Double| #[trigger] shown_at(series, i, x, r) ==> r.finite()
}

proof fn lemma_there(ratios: Seq<Option<Double>>, x: int)
    requires
        ratios.len() <= usize::MAX,
        0 <= x < ratios.len(),
        ratios[x] is Some,
    ensures
        charts::ratios_there(ratios).contains(ratios[x]->0),
{
    let p = TrendPoint { x: x as usize, ratio: ratios[x]->0 };
    law_lines_have_a_point_per_ratio(ratios, p);
    let all = charts::points_spec(ratios);
    let k = all.index_of(p);
    assert(all[k] == p);
    assert(charts::ratios_there(ratios)[k] == p.ratio);
}

proof fn lemma_from_there(ratios: Seq<Option<Double>>, k: int)
    requires
        ratios.len() <= usize::MAX,
        0 <= k < charts::ratios_there(ratios).len(),
    ensures
        exists|x: int|
            0 <= x < ratios.len() && #[trigger] ratios[x] == Some(charts::ratios_there(ratios)[k]),
{
    let all = charts::points_spec(ratios);
    let p = all[k];
    law_lines_have_a_point_per_ratio(ratios, p);
    assert(all.contains(p));
    assert(ratios[p.x as int] == Some(charts::ratios_there(ratios)[k]));
}

proof fn lemma_numbers_there(series: Seq<TrendSeries>, i: int)
    requires
        all_finite(series),
        short_series(series),
        0 <= i < series.len(),
    ensures
        history::numbers(charts::ratios_there(series[i].ratios@)),
{
    let ratios = series[i].ratios@;
    let there = charts::ratios_there(ratios);
    assert forall|k: int| 0 <= k < there.len() implies !(#[trigger] there[k]).nan() by {
        lemma_from_there(ratios, k);
        let x = choose|x: int| 0 <= x < ratios.len() && #[trigger] ratios[x] == Some(there[k]);
        assert(shown_at(series, i, x, there[k]));
    }
}

proof fn lemma_series_extremes(series: Seq<TrendSeries>)
    requires
        all_finite(series),
        short_series(series),
    ensures
        !charts::series_least(series).nan(),
        !charts::series_most(series).nan(),
        forall|i: int, x: int, r: Double| #[trigger]
            shown_at(series, i, x, r) ==> charts::series_least(series).le_spec(r) && r.le_spec(
                charts::series_most(series),
            ),
        (exists|i: int, x: int, r: Double| #[trigger] shown_at(series, i, x, r))
            ==> charts::series_least(series).finite() && charts::series_most(series).finite(),
        charts::series_least(series) == charts::plus_inf() || charts::series_least(
            series,
        ).finite(),
        charts::series_most(series) == charts::minus_inf() || charts::series_most(series).finite(),
    decreases series.len(),
{
    let (lo, hi) = (charts::series_least(series), charts::series_most(series));
    assert(charts::minus_inf().mag() == double::INF && charts::minus_inf().neg());
    if series.len() > 0 {
        let front = series.drop_last();
        let n = series.len() - 1;
        assert forall|i: int, x: int, r: Double| #[trigger]
            shown_at(front, i, x, r) implies r.finite() by {
            assert(shown_at(series, i, x, r));
        }
        assert forall|i: int| 0 <= i < front.len() implies (#[trigger] front[i]).ratios@.len()
            <= usize::MAX by {
            assert(front[i] == series[i]);
        }
        lemma_series_extremes(front);
        let (a, b) = (charts::series_least(front), charts::series_most(front));
        let ratios = series[n].ratios@;
        let there = charts::ratios_there(ratios);
        lemma_numbers_there(series, n);
        lemma_least(there, a);
        lemma_most(there, b);
        assert forall|i: int, x: int, r: Double| #[trigger]
            shown_at(series, i, x, r) implies lo.le_spec(r) && r.le_spec(hi) by {
            if i < n {
                assert(shown_at(front, i, x, r));
            } else {
                lemma_there(ratios, x);
                let k = there.index_of(r);
                assert(there[k] == r);
            }
        }
        if there.contains(lo) {
            let k = there.index_of(lo);
            lemma_from_there(ratios, k);
            let x = choose|x: int| 0 <= x < ratios.len() && #[trigger] ratios[x] == Some(there[k]);
            assert(shown_at(series, n, x, lo));
        }
        if there.contains(hi) {
            let k = there.index_of(hi);
            lemma_from_there(ratios, k);
            let x = choose|x: int| 0 <= x < ratios.len() && #[trigger] ratios[x] == Some(there[k]);
            assert(shown_at(series, n, x, hi));
        }
    }
    if exists|i: int, x: int, r: Double| #[trigger] shown_at(series, i, x, r) {
        let (i, x, r) = choose|i: int, x: int, r: Double| #[trigger] shown_at(series, i, x, r);
        assert(r.finite());
        assert(lo.le_spec(r) && r.le_spec(hi));
    }
}

/// The value axis of a trend chart takes in every ratio that it shows, and
/// marks parity where that lies on it.
pub proof fn law_the_axis_takes_in_every_ratio(
    plot: TrendPlot,
    series: Seq<TrendSeries>,
    i: int,
    x: int,
    ratio: Double,
)
    requires
        charts::is_plot(plot, series),
        all_finite(series),
        short_series(series),
        shown_at(series, i, x, ratio),
        plot.y_lo.finite(),
        plot.y_hi.finite(),
    ensures
        plot.y_lo.le_spec(ratio),
        ratio.le_spec(plot.y_hi),
        plot.parity <==> plot.y_lo.le_spec(Double { bits: double::ONE }) && (Double {
            bits: double::ONE,
        }).lt_spec(plot.y_hi),
{
    lemma_series_extremes(series);
    let (lo, hi) = (charts::series_least(series), charts::series_most(series));
    let span = charts::span_spec(lo, hi);
    let pad = span.mul_spec(Double { bits: charts::TENTH });
    lemma_span(lo, hi);
    lemma_product_sign(span, Double { bits: charts::TENTH });
    lemma_product_sign(pad, Double { bits: charts::TOP_PAD });
    lemma_below(lo, pad);
    lemma_above(hi, pad.mul_spec(Double { bits: charts::TOP_PAD }));
}

/// The span is at least a tiny positive number.
proof fn lemma_span(lo: Double, hi: Double)
    ensures
        !charts::span_spec(lo, hi).neg(),
{
    let tiny = Double { bits: charts::TINY };
    assert(!tiny.neg() && !tiny.nan() && !tiny.zero());
}

proof fn lemma_product_sign(a: Double, b: Double)
    requires
        !a.neg(),
        !b.neg(),
    ensures
        !a.mul_spec(b).neg(),
{
}

proof fn lemma_below(a: Double, pad: Double)
    requires
        a.finite(),
        !pad.neg(),
        a.sub_spec(pad).finite(),
    ensures
        a.sub_spec(pad).le_spec(a),
{
    let minus = pad.negate_spec();
    assert(minus.mag() == pad.mag());
    assert(pad.finite());
    numbers::law_subtracting_never_raises(a, pad);
}

proof fn lemma_above(a: Double, pad: Double)
    requires
        a.finite(),
        !pad.neg(),
        a.add_spec(pad).finite(),
    ensures
        a.le_spec(a.add_spec(pad)),
{
    assert(pad.finite());
    numbers::law_adding_never_lowers(a, pad);
}

/// No series is longer than a list can be.
pub open spec fn short_series(series: Seq<TrendSeries>) -> bool {
    forall|i: int| 0 <= i < series.len() ==> (#[trigger] series[i]).ratios@.len() <= usize::MAX
}

/// The legend lists every line once, from the largest last value to the
/// smallest, those without a value behind the others.
pub proof fn law_the_legend_runs_by_last_value(
    plot: TrendPlot,
    series: Seq<TrendSeries>,
    p: int,
    q: int,
)
    requires
        charts::is_plot(plot, series),
        0 <= p < q < series.len(),
    ensures
        ({
            let (i, j) = (plot.legend@[p] as int, plot.legend@[q] as int);
            let (a, b) = (
                charts::last_value(series[i].ratios@),
                charts::last_value(series[j].ratios@),
            );
            &&& plot.legend@.len() == series.len()
            &&& i != j && 0 <= i < series.len() && 0 <= j < series.len()
            &&& a is Some && b is Some ==> !(a->0.lt_spec(b->0))
            &&& b is Some && b->0.finite() ==> a is Some
            &&& a == b ==> i < j
        }),
{
    let before = |i: int, j: int| charts::listed_before(series, i, j);
    lemma_ranked(plot.legend@, series.len(), before, p, q);
    let (i, j) = (plot.legend@[p] as int, plot.legend@[q] as int);
    lemma_places(
        charts::last_value(series[i].ratios@),
        charts::last_value(series[j].ratios@),
        charts::legend_place(series[i].ratios@),
        charts::legend_place(series[j].ratios@),
    );
}

proof fn lemma_ranked(
    order: Seq<usize>,
    n: nat,
    before: spec_fn(int, int) -> bool,
    p: int,
    q: int,
)
    requires
        charts::is_ranking(order, n, before),
        0 <= p < q < n,
    ensures
        order.len() == n,
        order[p] < n && order[q] < n && order[p] != order[q],
        before(order[p] as int, order[q] as int),
{
}

proof fn lemma_places(a: Option<Double>, b: Option<Double>, x: int, y: int)
    requires
        x >= y,
        x == (match a {
            Some(v) => charts::total_place(v),
            None => charts::total_place(charts::minus_inf()),
        }),
        y == (match b {
            Some(v) => charts::total_place(v),
            None => charts::total_place(charts::minus_inf()),
        }),
    ensures
        a is Some && b is Some ==> !(a->0.lt_spec(b->0)),
        b is Some && b->0.finite() ==> a is Some,
{
    lemma_minus_inf();
}

proof fn lemma_minus_inf()
    ensures
        charts::minus_inf().mag() == double::INF,
        charts::minus_inf().neg(),
        !charts::minus_inf().nan(),
{
}

/// Each line is drawn under its label, with its points, its rings and its last
/// value, in the color and the shape of its slot; slots go by label.
pub proof fn law_lines_wear_their_slot(
    plot: TrendPlot,
    series: Seq<TrendSeries>,
    i: int,
    j: int,
)
    requires
        charts::is_plot(plot, series),
        0 <= i < series.len(),
        0 <= j < series.len(),
        text::lex_lt(series[i].label@, series[j].label@),
    ensures
        plot.lines@.len() == series.len(),
        plot.lines@[i].label@ == series[i].label@,
        plot.lines@[i].points@ == charts::points_spec(series[i].ratios@),
        plot.lines@[i].rings@ == charts::rings_spec(series[i].ratios@, series[i].alerts@),
        exists|a: nat, b: nat|
            a < b && plot.lines@[i].color == #[trigger] charts::series_color_spec(a)
                && plot.lines@[j].color == #[trigger] charts::series_color_spec(b)
                && plot.lines@[i].shape == a % 4 && plot.lines@[j].shape == b % 4,
{
    let n = series.len();
    let (a, b) = (charts::slot_of(series, i, n), charts::slot_of(series, j, n));
    charts::law_slots_follow_labels(series, i, j);
    assert(charts::is_line(plot.lines@[i], series[i], a));
    assert(charts::is_line(plot.lines@[j], series[j], b));
    assert(plot.lines@[i].color == charts::series_color_spec(a));
    assert(plot.lines@[j].color == charts::series_color_spec(b));
}

/// A trend chart can be had exactly where there is a label and a series with a
/// point.
pub proof fn law_trend_charts_need_a_point(labels: nat, series: Seq<TrendSeries>)
    requires
        short_series(series),
    ensures
        charts::plot_fault(labels, series) is None <==> labels > 0 && exists|
            i: int,
            x: int,
            r: Double,
        | #[trigger] shown_at(series, i, x, r),
{
    if charts::any_point(series) {
        let i = choose|i: int|
            0 <= i < series.len() && charts::points_spec((#[trigger] series[i]).ratios@).len() > 0;
        let ratios = series[i].ratios@;
        let p = charts::points_spec(ratios)[0];
        law_lines_have_a_point_per_ratio(ratios, p);
        assert(charts::points_spec(ratios).contains(p));
        assert(shown_at(series, i, p.x as int, p.ratio));
    }
    if exists|i: int, x: int, r: Double| #[trigger] shown_at(series, i, x, r) {
        let (i, x, r) = choose|i: int, x: int, r: Double| #[trigger] shown_at(series, i, x, r);
        let ratios = series[i].ratios@;
        let p = TrendPoint { x: x as usize, ratio: r };
        law_lines_have_a_point_per_ratio(ratios, p);
        assert(charts::points_spec(ratios).contains(p));
        assert(charts::points_spec(series[i].ratios@).len() > 0);
    }
}

// ---------------------------------------------------------------------------
// Speed bars
// ---------------------------------------------------------------------------

/// Does some bar of the items name that subject?
pub open spec fn has_bar(items: Seq<SpeedBarItem>, s: Seq<char>) -> bool {
    exists|i: int, b: int|
        0 <= i < items.len() && 0 <= b < items[i].bars@.len() && (#[trigger] items[i].bars@[b]).0@
            == s
}

proof fn lemma_new_subjects(bars: Seq<(String, Double)>, met: Seq<Seq<char>>, s: Seq<char>)
    requires
        met.no_duplicates(),
    ensures
        charts::new_subjects(bars, met).no_duplicates(),
        charts::new_subjects(bars, met).contains(s) <==> met.contains(s) || exists|b: int|
            0 <= b < bars.len() && (#[trigger] bars[b]).0@ == s,
    decreases bars.len(),
{
    if bars.len() > 0 {
        let front = bars.drop_last();
        let n = bars.len() - 1;
        lemma_new_subjects(front, met, s);
        let before = charts::new_subjects(front, met);
        let all = charts::new_subjects(bars, met);
        let last = bars[n].0@;
        if before.contains(s) {
            let k = before.index_of(s);
            assert(all[k] == s);
        }
        if s == last {
            if !before.contains(last) {
                assert(all[all.len() - 1] == s);
            }
        }
        if all.contains(s) {
            let k = all.index_of(s);
            if k < before.len() {
                assert(before[k] == s);
            } else {
                assert(bars[n].0@ == s);
            }
        }
        if exists|b: int| 0 <= b < bars.len() && (#[trigger] bars[b]).0@ == s {
            let b = choose|b: int| 0 <= b < bars.len() && (#[trigger] bars[b]).0@ == s;
            if b < n {
                assert(front[b] == bars[b]);
            }
        }
        if before.contains(s) && !met.contains(s) {
            let b = choose|b: int| 0 <= b < front.len() && (#[trigger] front[b]).0@ == s;
            assert(bars[b] == front[b]);
        }
        assert(all.no_duplicates()) by {
            if !before.contains(last) {
                assert forall|x: int, y: int|
                    0 <= x < all.len() && 0 <= y < all.len() && x != y implies all[x]
                    != all[y] by {
                    if x < before.len() && y < before.len() {
                    } else if x < before.len() {
                        assert(before.contains(before[x]));
                    } else {
                        assert(before.contains(before[y]));
                    }
                }
            }
        }
    }
}

/// The legend names every subject that has a bar, once.
pub proof fn law_the_legend_names_every_subject_once(items: Seq<SpeedBarItem>, s: Seq<char>)
    ensures
        charts::legend_subjects(items).no_duplicates(),
        charts::legend_subjects(items).contains(s) <==> has_bar(items, s),
    decreases items.len(),
{
    if items.len() > 0 {
        let front = items.drop_last();
        let n = items.len() - 1;
        law_the_legend_names_every_subject_once(front, s);
        let met = charts::legend_subjects(front);
        lemma_new_subjects(items[n].bars@, met, s);
        if has_bar(front, s) {
            let (i, b) = choose|i: int, b: int|
                0 <= i < front.len() && 0 <= b < front[i].bars@.len() && (
                #[trigger] front[i].bars@[b]).0@ == s;
            assert(items[i].bars@[b].0@ == s);
        }
        if exists|b: int| 0 <= b < items[n].bars@.len() && (#[trigger] items[n].bars@[b]).0@ == s {
            let b = choose|b: int|
                0 <= b < items[n].bars@.len() && (#[trigger] items[n].bars@[b]).0@ == s;
            assert(items[n].bars@[b].0@ == s);
        }
        if has_bar(items, s) {
            let (i, b) = choose|i: int, b: int|
                0 <= i < items.len() && 0 <= b < items[i].bars@.len() && (
                #[trigger] items[i].bars@[b]).0@ == s;
            if i < n {
                assert(front[i].bars@[b].0@ == s);
                assert(has_bar(front, s));
            }
        }
    } else {
        assert(!charts::legend_subjects(items).contains(s));
    }
}

proof fn lemma_bars_max(bars: Seq<(String, Double)>, so_far: Double)
    requires
        !so_far.nan(),
    ensures
        !charts::bars_max(bars, so_far).nan(),
        so_far.le_spec(charts::bars_max(bars, so_far)),
        forall|b: int|
            0 <= b < bars.len() && !(#[trigger] bars[b]).1.nan() ==> bars[b].1.le_spec(
                charts::bars_max(bars, so_far),
            ),
        charts::bars_max(bars, so_far) == so_far || exists|b: int|
            0 <= b < bars.len() && (#[trigger] bars[b]).1 == charts::bars_max(bars, so_far),
    decreases bars.len(),
{
    if bars.len() > 0 {
        let front = bars.drop_last();
        let n = bars.len() - 1;
        lemma_bars_max(front, so_far);
        let before = charts::bars_max(front, so_far);
        let now = charts::bars_max(bars, so_far);
        assert forall|b: int|
            0 <= b < bars.len() && !(#[trigger] bars[b]).1.nan() implies bars[b].1.le_spec(now) by {
            if b < n {
                assert(front[b] == bars[b]);
            }
        }
        if now == bars[n].1 {
        } else if now != so_far {
            let b = choose|b: int| 0 <= b < front.len() && (#[trigger] front[b]).1 == before;
            assert(bars[b] == front[b]);
        }
    }
}

/// The longest bar of a chart, or the baseline's hundred percent where none is
/// longer.
pub proof fn law_the_longest_bar_is_the_longest(items: Seq<SpeedBarItem>)
    ensures
        !charts::items_max(items).nan(),
        (Double { bits: double::HUNDRED }).le_spec(charts::items_max(items)),
        forall|i: int, b: int|
            0 <= i < items.len() && 0 <= b < items[i].bars@.len() && !(
            #[trigger] items[i].bars@[b]).1.nan() ==> items[i].bars@[b].1.le_spec(
                charts::items_max(items),
            ),
        charts::items_max(items) == (Double { bits: double::HUNDRED }) || exists|i: int, b: int|
            0 <= i < items.len() && 0 <= b < items[i].bars@.len() && (
            #[trigger] items[i].bars@[b]).1 == charts::items_max(items),
    decreases items.len(),
{
    if items.len() > 0 {
        let front = items.drop_last();
        let n = items.len() - 1;
        law_the_longest_bar_is_the_longest(front);
        let before = charts::items_max(front);
        let now = charts::items_max(items);
        lemma_bars_max(items[n].bars@, before);
        assert forall|i: int, b: int|
            0 <= i < items.len() && 0 <= b < items[i].bars@.len() && !(
            #[trigger] items[i].bars@[b]).1.nan() implies items[i].bars@[b].1.le_spec(now) by {
            if i < n {
                assert(front[i].bars@[b] == items[i].bars@[b]);
            }
        }
        if now == before {
            if now != (Double { bits: double::HUNDRED }) {
                let (i, b) = choose|i: int, b: int|
                    0 <= i < front.len() && 0 <= b < front[i].bars@.len() && (
                    #[trigger] front[i].bars@[b]).1 == before;
                assert(items[i].bars@[b].1 == now);
            }
        } else {
            let bars = items[n].bars@;
            let b = choose|b: int| 0 <= b < bars.len() && (#[trigger] bars[b]).1 == now;
            assert(items[n].bars@[b].1 == now);
        }
    }
}

/// Each bar of a chart is its subject's percent, in its subject's color, under
/// its item's name.
pub proof fn law_bars_show_their_percent(
    chart: SpeedBarsChart,
    items: Seq<SpeedBarItem>,
    colors: SubjectColors,
    i: int,
    b: int,
)
    requires
        charts::is_speed_bars(chart, items, colors),
        0 <= i < items.len(),
        0 <= b < items[i].bars@.len(),
    ensures
        chart.labels@.len() == items.len() && chart.bars@.len() == items.len(),
        chart.labels@[i].0@ == items[i].item@,
        chart.bars@[i]@.len() == items[i].bars@.len(),
        chart.bars@[i]@[b].percent == items[i].bars@[b].1,
        chart.bars@[i]@[b].text@ == items[i].bars@[b].1.fixed_spec(0, false) + "%"@,
        items[i].bars@[b].0@ == colors.baseline_spec() ==> chart.bars@[i]@[b].color
            == charts::baseline_gray_spec(),
        items[i].bars@[b].0@ != colors.baseline_spec() ==> chart.bars@[i]@[b].color
            == charts::series_color_spec(
            text::position(colors.slots(), items[i].bars@[b].0@),
        ),
{
    let l = charts::legend_subjects(items).len();
    assert(chart.labels@[i].0@ == items[i].item@);
    assert(chart.bars@[i]@.len() == items[i].bars@.len());
    assert(charts::is_bar(
        chart.bars@[i]@[b],
        items[i].bars@[b],
        charts::base_spec(i, items.len(), l),
        charts::bar_slot(b, l),
        colors,
    ));
}

// ---------------------------------------------------------------------------
// Violins
// ---------------------------------------------------------------------------

proof fn lemma_violin(v: Violin, row: Row, above: nat, colors: SubjectColors, k: int)
    requires
        charts::is_violin(v, row, above, colors),
        0 <= k < row.samples_ns@.len(),
        history::numbers(charts::in_us(row.samples_ns@)),
    ensures
        v.samples_us@.len() == row.samples_ns@.len(),
        v.samples_us@[k] == row.samples_ns@[k].div_spec(Double { bits: double::THOUSAND }),
        v.lo.le_spec(v.samples_us@[k]),
        v.samples_us@[k].le_spec(v.hi),
        v.mean == charts::sum(v.samples_us@).div_spec(
            Double::from_nat_spec(v.samples_us@.len()),
        ),
        v.y == Double::from_nat_spec(above),
        v.grid@.len() == 201,
{
    lemma_reach(charts::in_us(row.samples_ns@), k);
    lemma_in_us(row.samples_ns@, k);
}

proof fn lemma_reach(us: Seq<Double>, k: int)
    requires
        history::numbers(us),
        0 <= k < us.len(),
    ensures
        charts::least(us, charts::plus_inf()).le_spec(us[k]),
        us[k].le_spec(charts::most(us, charts::minus_inf())),
{
    lemma_minus_inf();
    lemma_least(us, charts::plus_inf());
    lemma_most(us, charts::minus_inf());
}

proof fn lemma_in_us(ns: Seq<Double>, k: int)
    ensures
        charts::in_us(ns).len() == ns.len(),
        0 <= k < ns.len() ==> charts::in_us(ns)[k] == ns[k].div_spec(
            Double { bits: double::THOUSAND },
        ),
{
}

/// A violin reaches from its row's least sample to its greatest, in
/// microseconds; its mean is their sum over their number. It wears its subject's
/// name and color, and the first one stands at the top.
pub proof fn law_violins_reach_over_their_samples(
    chart: ViolinChart,
    rows: Seq<Row>,
    picked: Seq<usize>,
    colors: SubjectColors,
    i: int,
    k: int,
)
    requires
        charts::is_violin_chart(chart, rows, picked, colors),
        0 <= i < picked.len(),
        0 <= k < rows[picked[i] as int].samples_ns@.len(),
        history::numbers(charts::in_us(rows[picked[i] as int].samples_ns@)),
    ensures
        ({
            let v = chart.violins@[i];
            let row = rows[picked[i] as int];
            let us = v.samples_us@;
            &&& chart.violins@.len() == picked.len()
            &&& us.len() == row.samples_ns@.len()
            &&& us[k] == row.samples_ns@[k].div_spec(Double { bits: double::THOUSAND })
            &&& v.lo.le_spec(us[k]) && us[k].le_spec(v.hi)
            &&& v.mean == charts::sum(us).div_spec(Double::from_nat_spec(us.len()))
            &&& v.y == Double::from_nat_spec((picked.len() - 1 - i) as nat)
            &&& v.grid@.len() == 201
            &&& v.color == colors.color_spec(row.subject@)
            &&& text::has_prefix(v.label@, row.subject@)
        }),
{
    let v = chart.violins@[i];
    let row = rows[picked[i] as int];
    assert(charts::is_violin(v, row, (picked.len() - 1 - i) as nat, colors));
    assert(v.label@.take(row.subject@.len() as int) =~= row.subject@);
    lemma_violin(v, row, (picked.len() - 1 - i) as nat, colors, k);
}

/// A sum takes in one value at a time.
pub proof fn law_sums_take_in_value_by_value(samples: Seq<Double>, x: Double)
    ensures
        charts::sum(seq![x]) == x,
        samples.len() > 0 ==> charts::sum(samples.push(x)) == charts::sum(samples).add_spec(x),
{
    if samples.len() > 0 {
        assert(samples.push(x).drop_last() =~= samples);
    }
}

/// A violin plot can be had exactly where rows are picked and all of them have
/// samples.
pub proof fn law_violins_need_samples(rows: Seq<Row>, picked: Seq<usize>)
    ensures
        charts::violin_fault(rows, picked) is None <==> picked.len() > 0 && forall|i: int|
            0 <= i < picked.len() ==> rows[(#[trigger] picked[i]) as int].samples_ns@.len() > 0,
{
}

// ---------------------------------------------------------------------------
// Places and colors
// ---------------------------------------------------------------------------

/// The bars of an item run downwards in their order; the first one is on top.
pub proof fn law_bars_run_downwards(
    chart: SpeedBarsChart,
    items: Seq<SpeedBarItem>,
    colors: SubjectColors,
    i: int,
    a: int,
    b: int,
)
    requires
        charts::is_speed_bars(chart, items, colors),
        0 <= i < items.len(),
        0 <= a < b < items[i].bars@.len(),
        charts::base_spec(i, items.len(), charts::legend_subjects(items).len()).finite(),
        charts::legend_subjects(items).len() <= u64::MAX,
    ensures
        chart.bars@[i]@[b].y.le_spec(chart.bars@[i]@[a].y),
{
    let l = charts::legend_subjects(items).len();
    let base = charts::base_spec(i, items.len(), l);
    let (p, q) = (charts::bar_slot(a, l), charts::bar_slot(b, l));
    assert(charts::is_bar(chart.bars@[i]@[a], items[i].bars@[a], base, p, colors));
    assert(charts::is_bar(chart.bars@[i]@[b], items[i].bars@[b], base, q, colors));
    let subject = items[i].bars@[a].0@;
    assert(has_bar(items, subject));
    law_the_legend_names_every_subject_once(items, subject);
    assert(l > 0);
    assert(q <= p <= u64::MAX);
    numbers::law_larger_counts_have_larger_doubles(q, p);
    double::lemma_u64_is_finite(p as u64);
    double::lemma_u64_is_finite(q as u64);
    numbers::law_larger_terms_give_larger_sums(base, charts::whole(q), charts::whole(p));
}

/// The items run downwards in their order; the first one is on top.
pub proof fn law_items_run_downwards(i: int, j: int, n: nat, subjects: nat)
    requires
        0 <= i <= j < n,
        n <= u64::MAX,
        charts::band_spec(subjects).finite(),
        !charts::band_spec(subjects).neg(),
    ensures
        charts::base_spec(j, n, subjects).le_spec(charts::base_spec(i, n, subjects)),
{
    let (p, q) = ((n - 1 - i) as nat, (n - 1 - j) as nat);
    numbers::law_larger_counts_have_larger_doubles(q, p);
    double::lemma_u64_is_finite(p as u64);
    double::lemma_u64_is_finite(q as u64);
    numbers::law_larger_factors_give_larger_products(
        charts::band_spec(subjects),
        charts::whole(q),
        charts::whole(p),
    );
}

/// Sizes stay within their bounds, and are what was asked for inside them.
pub proof fn law_sizes_stay_in_bounds(v: int, lo: int, hi: int)
    requires
        lo <= hi,
    ensures
        lo <= charts::clamp(v, lo, hi) <= hi,
        lo <= v <= hi ==> charts::clamp(v, lo, hi) == v,
        v < lo ==> charts::clamp(v, lo, hi) == lo,
        v > hi ==> charts::clamp(v, lo, hi) == hi,
{
}

/// Behind the palette its hues come back with each channel at three fifths, then
/// halfway to white, and then as they were.
pub proof fn law_hues_come_back_darker_then_lighter(i: nat)
    ensures
        ({
            let c = charts::series_color_spec(i);
            let darker = charts::series_color_spec(i + 8);
            let lighter = charts::series_color_spec(i + 16);
            &&& charts::series_color_spec(i + 24) == c
            &&& (i / 8) % 3 == 0 ==> {
                &&& darker.r == c.r * 3 / 5 && darker.g == c.g * 3 / 5 && darker.b == c.b * 3 / 5
                &&& lighter.r == c.r / 2 + 128 && lighter.g == c.g / 2 + 128 && lighter.b == c.b / 2
                    + 128
            }
        }),
{
    assert((i + 8) % 8 == i % 8 && (i + 16) % 8 == i % 8 && (i + 24) % 8 == i % 8);
    assert((i + 8) / 8 == i / 8 + 1 && (i + 16) / 8 == i / 8 + 2 && (i + 24) / 8 == i / 8 + 3);
    assert((i / 8 + 3) % 3 == (i / 8) % 3);
}

/// The baseline wears its gray; every other subject the color of its place.
/// Headline subjects have the leading places, and within both parts they go by
/// name.
pub proof fn law_headline_subjects_take_the_leading_colors(
    colors: SubjectColors,
    priority: Seq<Seq<char>>,
    i: int,
    j: int,
)
    requires
        charts::in_slot_order(colors.slots(), priority),
        0 <= i < j < colors.slots().len(),
    ensures
        ({
            let (a, b) = (colors.slots()[i], colors.slots()[j]);
            let (x, y) = (
                config::any_star_match(priority, a),
                config::any_star_match(priority, b),
            );
            &&& y ==> x
            &&& x == y ==> text::lex_lt(a, b)
            &&& a != colors.baseline_spec() ==> colors.color_spec(a) == charts::series_color_spec(
                i as nat,
            )
        }),
        colors.color_spec(colors.baseline_spec()) == charts::baseline_gray_spec(),
{
    let slots = colors.slots();
    assert(charts::slot_before(slots[i], slots[j], priority));
    assert forall|k: int| 0 <= k < i implies #[trigger] slots[k] != slots[i] by {
        assert(charts::slot_before(slots[k], slots[i], priority));
        text::lemma_lex_irreflexive(slots[i]);
    }
    lemma_place(slots, i);
}

proof fn lemma_place(list: Seq<Seq<char>>, i: int)
    requires
        0 <= i < list.len(),
        forall|k: int| 0 <= k < i ==> #[trigger] list[k] != list[i],
    ensures
        text::position(list, list[i]) == i,
    decreases list.len(),
{
    if i > 0 {
        assert(list[0] != list[i]);
        let rest = list.drop_first();
        assert(rest[i - 1] == list[i]);
        assert forall|k: int| 0 <= k < i - 1 implies #[trigger] rest[k] != rest[i - 1] by {
            assert(rest[k] == list[k + 1]);
        }
        lemma_place(rest, i - 1);
    }
}

/// The spread of a row is its deviation over its mean, in percent; none where
/// the mean is zero.
pub proof fn law_spreads_are_relative_to_the_mean(std_dev_ns: Double, mean_us: Double)
    ensures
        mean_us.zero() ==> charts::cv_spec(std_dev_ns, mean_us).zero(),
        !mean_us.zero() ==> charts::cv_spec(std_dev_ns, mean_us) == std_dev_ns.div_spec(
            Double { bits: double::THOUSAND },
        ).div_spec(mean_us).mul_spec(Double { bits: double::HUNDRED }),
{
}

/// Labels run downwards: the first one stands at the topmost mark.
pub proof fn law_labels_run_downwards(v: Double, labels: Seq<Seq<char>>, i: int)
    requires
        charts::tick_spec(v) == Some(i),
        0 <= i,
    ensures
        i < labels.len() ==> charts::top_down_label(v, labels) == labels.reverse()[i],
        i >= labels.len() ==> charts::top_down_label(v, labels).len() == 0,
{
}

/// The room for labels is that of the widest.
pub proof fn law_room_is_for_the_widest_label(texts: Seq<Seq<char>>, i: int)
    requires
        0 <= i < texts.len(),
    ensures
        charts::byte_len(texts[i]) <= charts::widest(texts),
        exists|j: int|
            0 <= j < texts.len() && charts::byte_len(#[trigger] texts[j]) == charts::widest(texts),
    decreases texts.len(),
{
    let front = texts.drop_last();
    let n = texts.len() - 1;
    if front.len() > 0 {
        law_room_is_for_the_widest_label(front, if i < n { i } else { 0 });
        let j = choose|j: int|
            0 <= j < front.len() && charts::byte_len(#[trigger] front[j]) == charts::widest(front);
        assert(texts[j] == front[j]);
        if i < n {
            assert(texts[i] == front[i]);
        }
    } else {
        assert(charts::widest(front) == 0);
    }
    assert(texts[n] == texts.last());
}

/// The value axis of violins takes in every sample of every row.
pub proof fn law_violin_axes_take_in_every_sample(
    rows: Seq<Row>,
    picked: Seq<usize>,
    i: int,
    k: int,
)
    requires
        0 <= i < picked.len(),
        0 <= k < rows[picked[i] as int].samples_ns@.len(),
        forall|j: int|
            0 <= j < picked.len() ==> history::numbers(
                charts::in_us((#[trigger] rows[picked[j] as int]).samples_ns@),
            ),
    ensures
        ({
            let us = rows[picked[i] as int].samples_ns@[k].div_spec(
                Double { bits: double::THOUSAND },
            );
            &&& charts::rows_least(rows, picked).le_spec(us)
            &&& us.le_spec(charts::rows_most(rows, picked))
        }),
{
    lemma_rows_reach(rows, picked, i, k);
    lemma_in_us(rows[picked[i] as int].samples_ns@, k);
}

proof fn lemma_rows_reach(rows: Seq<Row>, picked: Seq<usize>, i: int, k: int)
    requires
        forall|j: int|
            0 <= j < picked.len() ==> history::numbers(
                charts::in_us((#[trigger] rows[picked[j] as int]).samples_ns@),
            ),
    ensures
        !charts::rows_least(rows, picked).nan(),
        !charts::rows_most(rows, picked).nan(),
        0 <= i < picked.len() && 0 <= k < rows[picked[i] as int].samples_ns@.len() ==> {
            let us = charts::in_us(rows[picked[i] as int].samples_ns@);
            charts::rows_least(rows, picked).le_spec(us[k]) && us[k].le_spec(
                charts::rows_most(rows, picked),
            )
        },
    decreases picked.len(),
{
    if picked.len() == 0 {
        lemma_minus_inf();
    } else {
        let front = picked.drop_last();
        let n = picked.len() - 1;
        assert forall|j: int| 0 <= j < front.len() implies history::numbers(
            charts::in_us((#[trigger] rows[front[j] as int]).samples_ns@),
        ) by {
            assert(front[j] == picked[j]);
        }
        lemma_rows_reach(rows, front, i, k);
        let last = charts::in_us(rows[picked[n] as int].samples_ns@);
        assert(rows[picked[n] as int] == rows[picked[n] as int]);
        assert(history::numbers(last));
        let (lo, hi) = (charts::rows_least(rows, front), charts::rows_most(rows, front));
        lemma_least(last, lo);
        lemma_most(last, hi);
        if 0 <= i < n {
            assert(front[i] == picked[i]);
        }
    }
}

/// The points at which a violin is drawn run from its low end upwards.
pub proof fn law_grids_run_upwards(lo: Double, hi: Double, j: nat, k: nat)
    requires
        j <= k <= 200,
        lo.finite(),
        hi.sub_spec(lo).finite(),
        !hi.sub_spec(lo).neg(),
        hi.sub_spec(lo).mul_spec(charts::whole(j)).div_spec(
            Double { bits: charts::GRID_STEPS },
        ).finite(),
        hi.sub_spec(lo).mul_spec(charts::whole(k)).div_spec(
            Double { bits: charts::GRID_STEPS },
        ).finite(),
        hi.sub_spec(lo).mul_spec(charts::whole(j)).finite(),
        hi.sub_spec(lo).mul_spec(charts::whole(k)).finite(),
    ensures
        charts::grid_point(lo, hi, j).le_spec(charts::grid_point(lo, hi, k)),
{
    let width = hi.sub_spec(lo);
    let steps = Double { bits: charts::GRID_STEPS };
    numbers::law_larger_counts_have_larger_doubles(j, k);
    double::lemma_u64_is_finite(j as u64);
    double::lemma_u64_is_finite(k as u64);
    numbers::law_larger_factors_give_larger_products(width, charts::whole(j), charts::whole(k));
    numbers::law_sums_do_not_depend_on_the_order(width, charts::whole(j));
    numbers::law_sums_do_not_depend_on_the_order(width, charts::whole(k));
    let (p, q) = (width.mul_spec(charts::whole(j)), width.mul_spec(charts::whole(k)));
    numbers::law_larger_dividends_give_larger_quotients(p, q, steps);
    numbers::law_larger_terms_give_larger_sums(lo, p.div_spec(steps), q.div_spec(steps));
}

/// The value axis of violins goes past the samples by a share of their width, by
/// a share of the greatest one, or by the least pad, whichever is most.
pub proof fn law_violin_axes_go_past_the_samples(x_min: Double, x_max: Double)
    requires
        x_min.finite(),
        x_max.finite(),
        !x_max.sub_spec(x_min).mul_spec(Double { bits: charts::VIOLIN_PAD }).nan(),
        !x_max.abs_spec().mul_spec(Double { bits: charts::THOUSANDTH }).nan(),
    ensures
        ({
            let pad = charts::violin_pad(x_min, x_max);
            let share = x_max.sub_spec(x_min).mul_spec(Double { bits: charts::VIOLIN_PAD });
            let part = x_max.abs_spec().mul_spec(Double { bits: charts::THOUSANDTH });
            let least = Double { bits: charts::TINY };
            &&& share.le_spec(pad) && part.le_spec(pad) && least.le_spec(pad)
            &&& pad == share || pad == part || pad == least
            &&& pad.finite() && !pad.neg() ==> x_min.sub_spec(pad).le_spec(x_min) && x_max.le_spec(
                x_max.add_spec(pad),
            )
        }),
{
    let pad = charts::violin_pad(x_min, x_max);
    let share = x_max.sub_spec(x_min).mul_spec(Double { bits: charts::VIOLIN_PAD });
    let part = x_max.abs_spec().mul_spec(Double { bits: charts::THOUSANDTH });
    let least = Double { bits: charts::TINY };
    assert(!least.nan());
    numbers::law_the_larger_is_no_less_than_either(share, part);
    numbers::law_the_larger_is_no_less_than_either(share.max_spec(part), least);
    if pad.finite() && !pad.neg() {
        numbers::law_subtracting_never_raises(x_min, pad);
        numbers::law_adding_never_lowers(x_max, pad);
    }
}

/// Whole positions are marks, by their number.
pub proof fn law_whole_positions_are_marks(n: nat)
    requires
        n < double::LIMIT,
    ensures
        charts::tick_spec(Double::from_nat_spec(n)) == Some(n as int),
{
    let v = Double::from_nat_spec(n);
    let one = pow2(1074);
    lemma_pow2_pos(1074);
    numbers::law_whole_numbers_stay(n);
    numbers::law_small_counts_are_exact(n);
    assert(n * one >= 0) by (nonlinear_arith);
    lemma_mark(v);
    assert((n * one + one - 1) / (one as int) == n) by (nonlinear_arith)
        requires
            one > 0,
    ;
}

proof fn lemma_mark(v: Double)
    requires
        v.finite(),
        v.value() >= 0,
        v.round_spec() == v,
    ensures
        charts::tick_spec(v) == Some((v.value() + pow2(1074) - 1) / (pow2(1074) as int)),
{
    numbers::law_a_number_less_itself_is_zero(v);
    double::law_order_is_order_of_values(Double { bits: 0 }, v);
    numbers::lemma_zero_units();
    assert(v.value() == v.units());
}

/// The middle of an item's band stands between its lowest bar and its topmost.
pub proof fn law_the_middle_is_between_the_bars(i: int, n: nat, subjects: nat)
    requires
        charts::base_spec(i, n, subjects).finite(),
        charts::whole(subjects).sub_spec(Double { bits: double::ONE }).finite(),
        !charts::whole(subjects).sub_spec(Double { bits: double::ONE }).neg(),
        charts::whole(subjects).sub_spec(Double { bits: double::ONE }).div_spec(
            Double { bits: double::TWO },
        ).finite(),
    ensures
        charts::base_spec(i, n, subjects).le_spec(charts::center_spec(i, n, subjects)),
        charts::center_spec(i, n, subjects).le_spec(
            charts::base_spec(i, n, subjects).add_spec(
                charts::whole(subjects).sub_spec(Double { bits: double::ONE }),
            ),
        ),
{
    numbers::law_half_way_is_on_the_way(
        charts::base_spec(i, n, subjects),
        charts::whole(subjects).sub_spec(Double { bits: double::ONE }),
    );
}

} // verus!
