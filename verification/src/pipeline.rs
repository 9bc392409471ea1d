//! The per-commit pipeline: what becomes of a run's results — record, tables,
//! charts, regression check and events — and the decisions around it.
use crate::charts;
use crate::charts::{SpeedBarItem, SpeedBarsChart, SubjectColors, ViolinChart};
use crate::compare;
use crate::compare::CompareTable;
use crate::config;
use crate::config::{RepoConfig, Settings};
use crate::criterion_results;
use crate::criterion_results::{Row, WorkloadRatios};
use crate::dates;
use crate::double;
use crate::double::Double;
use crate::git::CommitMeta;
use crate::instructions;
use crate::instructions::{CollectOutcome, InstrCollection, InstrWorkloadRatios};
use crate::lane::Lane;
use crate::numerals;
use crate::paths;
use crate::sorting;
use crate::sorting::Ranked;
use crate::state;
use crate::state::{HistoryView, RowHistory, State, Thresholds, Verdict};
use crate::storage;
use crate::storage::{CommitRecord, RepoStore};
use crate::strmap::StrMap;
use crate::text;
use vstd::prelude::*;

verus! {

// ---------------------------------------------------------------------------
// Events
// ---------------------------------------------------------------------------

/// The instructions cross-check outcome. `Up`/`Down` mean the count moved at
/// least the instructions regression threshold in that direction; `Flat` is
/// within it; `Missing` is no comparable data.
#[derive(Debug, Clone, Copy, PartialEq, Eq, Structural)]
pub enum InstrVerdict {
    Flat,
    Up,
    Down,
    Missing,
}

/// What the instructions lane saw for a row when its walltime alert fired: a
/// stateless cross-check against the lane's rolling median before this run.
#[derive(Debug, Clone, Copy, PartialEq, Eq, Structural)]
pub struct InstrAnnotation {
    /// `(current / median - 1) * 100`, rounded to two decimals; none where
    /// there is nothing to compare.
    pub ratio_delta_pct: Option<Double>,
    pub verdict: InstrVerdict,
}

/// A factual thing that happened during a run. `metric` names the lane an
/// alert came from: none for the walltime lane.
#[derive(Debug, Clone, PartialEq)]
pub enum Event {
    /// A headline row rose past the regression threshold this run.
    Regression {
        row_key: String,
        baseline_median: Double,
        current: Double,
        pct_over: Double,
        metric: Option<String>,
        /// The instructions lane's cross-check; on walltime events only.
        instructions: Option<InstrAnnotation>,
    },
    /// A regressed headline row dropped back within the recovery threshold of
    /// its frozen median.
    Recovery {
        row_key: String,
        baseline_median: Double,
        current: Double,
        metric: Option<String>,
        instructions: Option<InstrAnnotation>,
    },
    /// A digest window completed; its data is in `dir` (repo-relative).
    Digest { dir: String },
}

/// An event's contents.
pub enum EventView {
    Regression {
        row_key: Seq<char>,
        baseline_median: Double,
        current: Double,
        pct_over: Double,
        metric: Option<Seq<char>>,
        instructions: Option<InstrAnnotation>,
    },
    Recovery {
        row_key: Seq<char>,
        baseline_median: Double,
        current: Double,
        metric: Option<Seq<char>>,
        instructions: Option<InstrAnnotation>,
    },
    Digest { dir: Seq<char> },
}

impl View for Event {
    type V = EventView;

    open spec fn view(&self) -> EventView {
        match *self {
            Event::Regression {
                row_key,
                baseline_median,
                current,
                pct_over,
                metric,
                instructions,
            } => EventView::Regression {
                row_key: row_key@,
                baseline_median,
                current,
                pct_over,
                metric: text::opt_view(metric),
                instructions,
            },
            Event::Recovery { row_key, baseline_median, current, metric, instructions } =>
                EventView::Recovery {
                row_key: row_key@,
                baseline_median,
                current,
                metric: text::opt_view(metric),
                instructions,
            },
            Event::Digest { dir } => EventView::Digest { dir: dir@ },
        }
    }
}

pub open spec fn event_views(events: Seq<Event>) -> Seq<EventView> {
    events.map_values(|e: Event| e@)
}

proof fn lemma_event_push(events: Seq<Event>, e: Event)
    ensures
        event_views(events.push(e)) == event_views(events).push(e@),
{
    assert(event_views(events.push(e)) =~= event_views(events).push(e@));
}

// ---------------------------------------------------------------------------
// Annotations
// ---------------------------------------------------------------------------

/// What walltime events are annotated with: this run's instructions ratio per
/// row, the instructions lane's histories before this run, and its regression
/// threshold.
pub struct AnnotationView {
    pub current: Map<Seq<char>, Double>,
    pub histories: Map<Seq<char>, HistoryView>,
    pub regression_pct: Double,
}

/// How far a ratio lies from a median, in percent.
pub open spec fn delta_spec(current: Double, median: Double) -> Double {
    current.div_spec(median).sub_spec(Double { bits: double::ONE }).mul_spec(
        Double { bits: double::HUNDRED },
    )
}

/// Up or down by at least the threshold, or flat.
pub open spec fn verdict_spec(delta: Double, pct: Double) -> InstrVerdict {
    if pct.le_spec(delta) {
        InstrVerdict::Up
    } else if delta.le_spec(pct.negate_spec()) {
        InstrVerdict::Down
    } else {
        InstrVerdict::Flat
    }
}

/// A number with two decimals kept.
pub open spec fn two_decimals(x: Double) -> Double {
    x.mul_spec(Double { bits: double::HUNDRED }).round_spec().div_spec(
        Double { bits: double::HUNDRED },
    )
}

/// The annotation for one row: missing when either this run's ratio or a
/// positive median is absent.
pub open spec fn annotation_spec(ctx: AnnotationView, key: Seq<char>) -> InstrAnnotation {
    let h = state::history_of(ctx.histories, key);
    let median = state::median_spec(h.ratios);
    if ctx.current.dom().contains(key) && h.ratios.len() > 0 && (Double { bits: 0 }).lt_spec(
        median,
    ) {
        let delta = delta_spec(ctx.current[key], median);
        InstrAnnotation {
            ratio_delta_pct: Some(two_decimals(delta)),
            verdict: verdict_spec(delta, ctx.regression_pct),
        }
    } else {
        InstrAnnotation { ratio_delta_pct: None, verdict: InstrVerdict::Missing }
    }
}

pub struct InstrAnnotationCtx<'a> {
    pub current: &'a StrMap<Double>,
    pub instr_rows: &'a StrMap<RowHistory>,
    pub regression_pct: Double,
}

impl<'a> InstrAnnotationCtx<'a> {
    pub open spec fn wf(self) -> bool {
        &&& self.current.wf()
        &&& self.instr_rows.wf()
        &&& state::all_finite(state::histories(self.instr_rows@))
    }

    pub open spec fn view(self) -> AnnotationView {
        AnnotationView {
            current: self.current@,
            histories: state::histories(self.instr_rows@),
            regression_pct: self.regression_pct,
        }
    }

    pub fn annotation_for(&self, row_key: &str) -> (r: InstrAnnotation)
        requires
            self.wf(),
        ensures
            r == annotation_spec(self.view(), row_key@),
    {
        let missing = InstrAnnotation { ratio_delta_pct: None, verdict: InstrVerdict::Missing };
        let current: Double = match self.current.get(row_key) {
            Some(c) => *c,
            None => {
                return missing;
            },
        };
        let history: &RowHistory = match self.instr_rows.get(row_key) {
            Some(h) => h,
            None => {
                return missing;
            },
        };
        if history.recent_ratios.len() == 0 {
            return missing;
        }
        proof {
            let all = state::histories(self.instr_rows@);
            assert(all.dom().contains(row_key@));
            assert(all[row_key@].ratios == history.recent_ratios@);
            assert forall|i: int| 0 <= i < history.recent_ratios@.len() implies !(
            #[trigger] history.recent_ratios@[i]).nan() by {
                assert(all[row_key@].ratios[i].finite());
            }
        }
        let median: Double = state::median(&history.recent_ratios);
        if !Double::from_bits(0).lt(median) {
            return missing;
        }
        let delta: Double = current.over(median).minus(Double::from_bits(double::ONE)).times(
            Double::from_bits(double::HUNDRED),
        );
        let verdict: InstrVerdict = if self.regression_pct.le(delta) {
            InstrVerdict::Up
        } else if delta.le(self.regression_pct.negate()) {
            InstrVerdict::Down
        } else {
            InstrVerdict::Flat
        };
        let rounded: Double = delta.times(Double::from_bits(double::HUNDRED)).round().over(
            Double::from_bits(double::HUNDRED),
        );
        InstrAnnotation { ratio_delta_pct: Some(rounded), verdict }
    }
}

// ---------------------------------------------------------------------------
// Lanes
// ---------------------------------------------------------------------------

/// The lane-agnostic view of one workload's ratio table.
pub trait LaneWorkloadRatios: Sized {
    spec fn group_of(self) -> Seq<char>;

    spec fn workload_of(self) -> Seq<char>;

    /// Each subject and its ratio vs the baseline (none = no baseline row).
    spec fn subject_ratios(self) -> Seq<(String, Option<Double>)>;

    fn group(&self) -> (r: &str)
        ensures
            r@ == self.group_of(),
    ;

    fn workload(&self) -> (r: &str)
        ensures
            r@ == self.workload_of(),
    ;

    fn count(&self) -> (n: usize)
        ensures
            n == self.subject_ratios().len(),
    ;

    fn subject_at(&self, i: usize) -> (r: &String)
        requires
            i < self.subject_ratios().len(),
        ensures
            *r == self.subject_ratios()[i as int].0,
    ;

    fn ratio_at(&self, i: usize) -> (r: Option<Double>)
        requires
            i < self.subject_ratios().len(),
        ensures
            r == self.subject_ratios()[i as int].1,
    ;
}

impl LaneWorkloadRatios for WorkloadRatios {
    open spec fn group_of(self) -> Seq<char> {
        self.group@
    }

    open spec fn workload_of(self) -> Seq<char> {
        self.workload@
    }

    open spec fn subject_ratios(self) -> Seq<(String, Option<Double>)> {
        Seq::new(
            self.rows@.len(),
            |i: int| (self.rows@[i].subject, self.rows@[i].ratio_vs_baseline),
        )
    }

    fn group(&self) -> (r: &str) {
        self.group.as_str()
    }

    fn workload(&self) -> (r: &str) {
        self.workload.as_str()
    }

    fn count(&self) -> (n: usize) {
        self.rows.len()
    }

    fn subject_at(&self, i: usize) -> (r: &String) {
        &self.rows[i].subject
    }

    fn ratio_at(&self, i: usize) -> (r: Option<Double>) {
        self.rows[i].ratio_vs_baseline
    }
}

impl LaneWorkloadRatios for InstrWorkloadRatios {
    open spec fn group_of(self) -> Seq<char> {
        self.group@
    }

    open spec fn workload_of(self) -> Seq<char> {
        self.workload@
    }

    open spec fn subject_ratios(self) -> Seq<(String, Option<Double>)> {
        Seq::new(
            self.rows@.len(),
            |i: int| (self.rows@[i].subject, self.rows@[i].ratio_vs_baseline),
        )
    }

    fn group(&self) -> (r: &str) {
        self.group.as_str()
    }

    fn workload(&self) -> (r: &str) {
        self.workload.as_str()
    }

    fn count(&self) -> (n: usize) {
        self.rows.len()
    }

    fn subject_at(&self, i: usize) -> (r: &String) {
        &self.rows[i].subject
    }

    fn ratio_at(&self, i: usize) -> (r: Option<Double>) {
        self.rows[i].ratio_vs_baseline
    }
}

/// A row of a lane that has a ratio.
#[derive(Debug, Clone, PartialEq)]
pub struct LaneRow {
    pub key: String,
    pub subject: String,
    pub ratio: Double,
}

pub struct LaneRowView {
    pub key: Seq<char>,
    pub subject: Seq<char>,
    pub ratio: Double,
}

impl View for LaneRow {
    type V = LaneRowView;

    open spec fn view(&self) -> LaneRowView {
        LaneRowView { key: self.key@, subject: self.subject@, ratio: self.ratio }
    }
}

pub open spec fn lane_row_views(rows: Seq<LaneRow>) -> Seq<LaneRowView> {
    rows.map_values(|r: LaneRow| r@)
}

/// The first `n` rows of a workload, those with a ratio.
pub open spec fn workload_lane_rows<T: LaneWorkloadRatios>(wl: T, n: nat) -> Seq<LaneRowView>
    decreases n,
{
    if n == 0 {
        Seq::empty()
    } else {
        let before = workload_lane_rows(wl, (n - 1) as nat);
        let (subject, ratio) = wl.subject_ratios()[n - 1];
        match ratio {
            Some(ratio) => before.push(
                LaneRowView {
                    key: criterion_results::row_key_spec(
                        wl.group_of(),
                        subject@,
                        wl.workload_of(),
                    ),
                    subject: subject@,
                    ratio,
                },
            ),
            None => before,
        }
    }
}

/// The rows of a lane that have a ratio, in table order.
pub open spec fn lane_rows<T: LaneWorkloadRatios>(ratios: Seq<T>) -> Seq<LaneRowView>
    decreases ratios.len(),
{
    if ratios.len() == 0 {
        Seq::empty()
    } else {
        lane_rows(ratios.drop_last()) + workload_lane_rows(
            ratios.last(),
            ratios.last().subject_ratios().len(),
        )
    }
}

/// The rows of a lane that have a ratio.
fn lane_rows_of<T: LaneWorkloadRatios>(ratios: &[T]) -> (r: Vec<LaneRow>)
    ensures
        lane_row_views(r@) == lane_rows(ratios@),
{
    let mut out: Vec<LaneRow> = Vec::new();
    let mut w: usize = 0;
    assert(lane_row_views(out@) =~= lane_rows(ratios@.take(0)));
    while w < ratios.len()
        invariant
            w <= ratios@.len(),
            lane_row_views(out@) == lane_rows(ratios@.take(w as int)),
        decreases ratios@.len() - w,
    {
        let wl: &T = &ratios[w];
        let ghost before = lane_row_views(out@);
        proof {
            assert(ratios@.take(w + 1).drop_last() =~= ratios@.take(w as int));
            assert(ratios@.take(w + 1).last() == ratios@[w as int]);
            assert(before + Seq::<LaneRowView>::empty() =~= before);
        }
        let n: usize = wl.count();
        let mut i: usize = 0;
        while i < n
            invariant
                i <= n,
                n == wl.subject_ratios().len(),
                lane_row_views(out@) == before + workload_lane_rows(*wl, i as nat),
            decreases n - i,
        {
            match wl.ratio_at(i) {
                Some(ratio) => {
                    let subject: &String = wl.subject_at(i);
                    let row = LaneRow {
                        key: criterion_results::row_key(
                            wl.group(),
                            subject.as_str(),
                            wl.workload(),
                        ),
                        subject: subject.clone(),
                        ratio,
                    };
                    let ghost so_far = out@;
                    out.push(row);
                    proof {
                        assert(lane_row_views(out@) =~= lane_row_views(so_far).push(row@));
                        assert((before + workload_lane_rows(*wl, i as nat)).push(row@) =~= before
                            + workload_lane_rows(*wl, i as nat).push(row@));
                    }
                },
                None => {},
            }
            i = i + 1;
        }
        w = w + 1;
    }
    assert(ratios@.take(ratios@.len() as int) =~= ratios@);
    out
}

/// A lane's histories after checking these rows in turn.
pub open spec fn rows_after(
    rows: Seq<LaneRowView>,
    histories: Map<Seq<char>, HistoryView>,
    th: Thresholds,
    window: nat,
) -> Map<Seq<char>, HistoryView>
    decreases rows.len(),
{
    if rows.len() == 0 {
        histories
    } else {
        state::recorded(
            rows_after(rows.drop_last(), histories, th, window),
            rows.last().key,
            rows.last().ratio,
            th,
            window,
        )
    }
}

/// The event of a verdict, where it has one.
pub open spec fn event_of(
    verdict: Verdict,
    key: Seq<char>,
    lane: Lane,
    instructions: Option<InstrAnnotation>,
) -> Option<EventView> {
    match verdict {
        Verdict::NewRegression { median, current, pct_over } => Some(
            EventView::Regression {
                row_key: key,
                baseline_median: median,
                current,
                pct_over,
                metric: lane.metric_spec(),
                instructions,
            },
        ),
        Verdict::Recovered { median, current } => Some(
            EventView::Recovery {
                row_key: key,
                baseline_median: median,
                current,
                metric: lane.metric_spec(),
                instructions,
            },
        ),
        _ => None,
    }
}

pub open spec fn annotation_opt(ctx: Option<AnnotationView>, key: Seq<char>) -> Option<
    InstrAnnotation,
> {
    match ctx {
        Some(ctx) => Some(annotation_spec(ctx, key)),
        None => None,
    }
}

/// The event of a headline row's check, where it has one.
pub open spec fn row_event(
    row: LaneRowView,
    histories: Map<Seq<char>, HistoryView>,
    th: Thresholds,
    lane: Lane,
    headline: Seq<Seq<char>>,
    ctx: Option<AnnotationView>,
) -> Option<EventView> {
    if config::any_star_match(headline, row.subject) {
        event_of(
            state::judge(state::history_of(histories, row.key), row.ratio, th),
            row.key,
            lane,
            annotation_opt(ctx, row.key),
        )
    } else {
        None
    }
}

/// The events of checking these rows in turn.
pub open spec fn events_after(
    rows: Seq<LaneRowView>,
    histories: Map<Seq<char>, HistoryView>,
    th: Thresholds,
    window: nat,
    lane: Lane,
    headline: Seq<Seq<char>>,
    ctx: Option<AnnotationView>,
) -> Seq<EventView>
    decreases rows.len(),
{
    if rows.len() == 0 {
        Seq::empty()
    } else {
        let front = rows.drop_last();
        let before = events_after(front, histories, th, window, lane, headline, ctx);
        match row_event(
            rows.last(),
            rows_after(front, histories, th, window),
            th,
            lane,
            headline,
            ctx,
        ) {
            Some(e) => before.push(e),
            None => before,
        }
    }
}

pub open spec fn all_ratios_finite<T: LaneWorkloadRatios>(ratios: Seq<T>) -> bool {
    forall|w: int, i: int|
        0 <= w < ratios.len() && 0 <= i < ratios[w].subject_ratios().len() ==> (
        match (#[trigger] ratios[w].subject_ratios()[i]).1 {
            Some(r) => r.finite(),
            None => true,
        })
}

proof fn lemma_workload_rows_finite<T: LaneWorkloadRatios>(wl: T, n: nat)
    requires
        n <= wl.subject_ratios().len(),
        forall|i: int|
            0 <= i < wl.subject_ratios().len() ==> (match (#[trigger] wl.subject_ratios()[i]).1 {
                Some(r) => r.finite(),
                None => true,
            }),
    ensures
        forall|i: int|
            0 <= i < workload_lane_rows(wl, n).len() ==> (#[trigger] workload_lane_rows(
                wl,
                n,
            )[i]).ratio.finite(),
    decreases n,
{
    if n > 0 {
        lemma_workload_rows_finite(wl, (n - 1) as nat);
        let before = workload_lane_rows(wl, (n - 1) as nat);
        let all = workload_lane_rows(wl, n);
        let last = wl.subject_ratios()[n - 1];
        assert forall|i: int| 0 <= i < all.len() implies (#[trigger] all[i]).ratio.finite() by {
            if i < before.len() {
                assert(all[i] == before[i]);
            } else {
                assert(all[i].ratio == last.1->0);
            }
        }
    }
}

proof fn lemma_rows_finite<T: LaneWorkloadRatios>(ratios: Seq<T>)
    requires
        all_ratios_finite(ratios),
    ensures
        forall|i: int|
            0 <= i < lane_rows(ratios).len() ==> (#[trigger] lane_rows(ratios)[i]).ratio.finite(),
    decreases ratios.len(),
{
    if ratios.len() > 0 {
        let front = ratios.drop_last();
        assert forall|w: int, i: int|
            0 <= w < front.len() && 0 <= i < front[w].subject_ratios().len() implies (
        match (#[trigger] front[w].subject_ratios()[i]).1 {
            Some(r) => r.finite(),
            None => true,
        }) by {
            assert(ratios[w].subject_ratios()[i] == front[w].subject_ratios()[i]);
        }
        lemma_rows_finite(front);
        let wl = ratios.last();
        let n = wl.subject_ratios().len();
        assert forall|i: int| 0 <= i < n implies (match (#[trigger] wl.subject_ratios()[i]).1 {
            Some(r) => r.finite(),
            None => true,
        }) by {
            assert(ratios[ratios.len() - 1].subject_ratios()[i] == wl.subject_ratios()[i]);
        }
        lemma_workload_rows_finite(wl, n);
        let (a, b) = (lane_rows(front), workload_lane_rows(wl, n));
        assert forall|i: int| 0 <= i < (a + b).len() implies (#[trigger] (a
            + b)[i]).ratio.finite() by {
            if i < a.len() {
                assert((a + b)[i] == a[i]);
            } else {
                assert((a + b)[i] == b[i - a.len()]);
            }
        }
    }
}

/// One lane's regression pass — the verdict protocol both lanes share. Every
/// row with a ratio is folded into `lane_rows` (that lane's rolling windows and
/// latches); only headline-family rows emit events, tagged with the lane's
/// marker.
pub fn check_lane<T: LaneWorkloadRatios>(
    lane: Lane,
    ratios: &[T],
    thresholds: Thresholds,
    histories: &mut StrMap<RowHistory>,
    rolling_window: usize,
    headline: &Vec<String>,
    annotate: Option<&InstrAnnotationCtx>,
    events: &mut Vec<Event>,
)
    requires
        old(histories).wf(),
        state::all_finite(state::histories(old(histories)@)),
        all_ratios_finite(ratios@),
        annotate matches Some(ctx) ==> ctx.wf(),
    ensures
        final(histories).wf(),
        state::all_finite(state::histories(final(histories)@)),
        state::histories(final(histories)@) == rows_after(
            lane_rows(ratios@),
            state::histories(old(histories)@),
            thresholds,
            rolling_window as nat,
        ),
        event_views(final(events)@) == event_views(old(events)@) + events_after(
            lane_rows(ratios@),
            state::histories(old(histories)@),
            thresholds,
            rolling_window as nat,
            lane,
            text::views(headline@),
            (match annotate {
                Some(ctx) => Some(ctx.view()),
                None => None,
            }),
        ),
{
    let rows: Vec<LaneRow> = lane_rows_of(ratios);
    let ghost all = lane_rows(ratios@);
    let ghost start = state::histories(histories@);
    let ghost events_before = event_views(events@);
    let ghost window = rolling_window as nat;
    let ghost patterns = text::views(headline@);
    let ghost ctx = match annotate {
        Some(ctx) => Some(ctx.view()),
        None => None,
    };
    proof {
        lemma_rows_finite(ratios@);
        assert(events_before + Seq::<EventView>::empty() =~= events_before);
    }
    let mut i: usize = 0;
    while i < rows.len()
        invariant
            i <= rows@.len(),
            all == lane_row_views(rows@),
            forall|k: int| 0 <= k < all.len() ==> (#[trigger] all[k]).ratio.finite(),
            patterns == text::views(headline@),
            window == rolling_window,
            ctx == (match annotate {
                Some(ctx) => Some(ctx.view()),
                None => None,
            }),
            annotate matches Some(ctx) ==> ctx.wf(),
            histories.wf(),
            state::all_finite(state::histories(histories@)),
            state::histories(histories@) == rows_after(
                all.take(i as int),
                start,
                thresholds,
                window,
            ),
            event_views(events@) == events_before + events_after(
                all.take(i as int),
                start,
                thresholds,
                window,
                lane,
                patterns,
                ctx,
            ),
        decreases rows@.len() - i,
    {
        let row: &LaneRow = &rows[i];
        let ghost now = state::histories(histories@);
        let ghost events_now = events@;
        let ghost emitted = events_after(
            all.take(i as int),
            start,
            thresholds,
            window,
            lane,
            patterns,
            ctx,
        );
        proof {
            assert(all.take(i + 1).drop_last() =~= all.take(i as int));
            assert(all.take(i + 1).last() == all[i as int]);
            assert(all[i as int] == row@);
        }
        let verdict: Verdict = state::check_and_record_in(
            histories,
            row.key.as_str(),
            row.ratio,
            thresholds,
            rolling_window,
        );
        if config::any_pattern_matches(headline, row.subject.as_str()) {
            let metric: Option<String> = match lane.metric_field() {
                Some(m) => Some(m.to_string()),
                None => None,
            };
            let instructions: Option<InstrAnnotation> = match annotate {
                Some(ctx) => Some(ctx.annotation_for(row.key.as_str())),
                None => None,
            };
            match verdict {
                Verdict::NewRegression { median, current, pct_over } => {
                    let e = Event::Regression {
                        row_key: row.key.clone(),
                        baseline_median: median,
                        current,
                        pct_over,
                        metric,
                        instructions,
                    };
                    proof {
                        lemma_event_push(events_now, e);
                        assert((events_before + emitted).push(e@) =~= events_before
                            + emitted.push(e@));
                    }
                    events.push(e);
                },
                Verdict::Recovered { median, current } => {
                    let e = Event::Recovery {
                        row_key: row.key.clone(),
                        baseline_median: median,
                        current,
                        metric,
                        instructions,
                    };
                    proof {
                        lemma_event_push(events_now, e);
                        assert((events_before + emitted).push(e@) =~= events_before
                            + emitted.push(e@));
                    }
                    events.push(e);
                },
                Verdict::FirstRun | Verdict::Healthy | Verdict::StillRegressed => {},
            }
        }
        i = i + 1;
    }
    assert(all.take(all.len() as int) =~= all);
}

// ---------------------------------------------------------------------------
// Benching
// ---------------------------------------------------------------------------

/// The cargo arguments that run one bench target.
pub open spec fn bench_args_spec(
    package: Seq<char>,
    target: Seq<char>,
    profile: Option<Seq<char>>,
    filter: Option<Seq<char>>,
) -> Seq<Seq<char>> {
    let head = seq!["bench"@, "-p"@, package, "--bench"@, target];
    let with_profile = match profile {
        Some(p) => head + seq!["--profile"@, p],
        None => head,
    };
    let full = with_profile + seq!["--"@, "--output-format"@, "bencher"@];
    match filter {
        Some(f) => full.push(f),
        None => full,
    }
}

/// The cargo arguments that run one bench target: bencher output, the
/// configured profile, and only the benchmarks that the filter matches.
pub fn bench_target(
    package: &str,
    target: &str,
    bench_profile: &Option<String>,
    bench_filter: &Option<String>,
) -> (r: Vec<String>)
    ensures
        text::views(r@) == bench_args_spec(
            package@,
            target@,
            text::opt_view(*bench_profile),
            text::opt_view(*bench_filter),
        ),
{
    let mut args: Vec<String> = Vec::new();
    text::add_word(&mut args, "bench");
    text::add_word(&mut args, "-p");
    text::add_word(&mut args, package);
    text::add_word(&mut args, "--bench");
    text::add_word(&mut args, target);
    assert(text::views(args@) =~= seq!["bench"@, "-p"@, package@, "--bench"@, target@]);
    match bench_profile {
        Some(p) => {
            text::add_word(&mut args, "--profile");
            text::add_word(&mut args, p.as_str());
        },
        None => {},
    }
    text::add_word(&mut args, "--");
    text::add_word(&mut args, "--output-format");
    text::add_word(&mut args, "bencher");
    match bench_filter {
        Some(f) => text::add_word(&mut args, f.as_str()),
        None => {},
    }
    assert(text::views(args@) =~= bench_args_spec(
        package@,
        target@,
        text::opt_view(*bench_profile),
        text::opt_view(*bench_filter),
    ));
    args
}

/// `dist_<group>[_<workload>].png`, path separators flattened.
pub open spec fn dist_name_spec(group: Seq<char>, workload: Seq<char>) -> Seq<char> {
    let g = text::replace_spec(group, '/', '_');
    if workload.len() == 0 {
        "dist_"@ + g + ".png"@
    } else {
        "dist_"@ + g + "_"@ + text::replace_spec(workload, '/', '_') + ".png"@
    }
}

pub fn dist_file_name(group: &str, workload: &str) -> (r: String)
    ensures
        r@ == dist_name_spec(group@, workload@),
{
    let g: String = text::replace(group, '/', '_');
    if workload.is_empty() {
        text::cat3("dist_", g.as_str(), ".png")
    } else {
        let w: String = text::replace(workload, '/', '_');
        text::cat5("dist_", g.as_str(), "_", w.as_str(), ".png")
    }
}

/// A dist file name holds no path separator.
pub proof fn law_dist_names_hold_no_separator(group: Seq<char>, workload: Seq<char>, i: int)
    requires
        0 <= i < dist_name_spec(group, workload).len(),
    ensures
        dist_name_spec(group, workload)[i] != '/',
{
    reveal_strlit("dist_");
    reveal_strlit(".png");
    reveal_strlit("_");
}

// ---------------------------------------------------------------------------
// Speed bars
// ---------------------------------------------------------------------------

impl Ranked for (String, Double) {
    open spec fn before(self, other: (String, Double)) -> bool {
        text::lex_lt(self.0@, other.0@)
    }

    fn comes_before(&self, other: &(String, Double)) -> (r: bool) {
        text::less(self.0.as_str(), other.0.as_str())
    }
}

/// The bars of a workload's first `n` rows: each headline subject's
/// `100 / ratio`.
pub open spec fn bars_spec<T: LaneWorkloadRatios>(wl: T, headline: Seq<Seq<char>>, n: nat) -> Seq<
    (String, Double),
>
    decreases n,
{
    if n == 0 {
        Seq::empty()
    } else {
        let before = bars_spec(wl, headline, (n - 1) as nat);
        let (subject, ratio) = wl.subject_ratios()[n - 1];
        match ratio {
            Some(r) => if config::any_star_match(headline, subject@) {
                before.push((subject, (Double { bits: double::HUNDRED }).div_spec(r)))
            } else {
                before
            },
            None => before,
        }
    }
}

pub open spec fn all_bars<T: LaneWorkloadRatios>(wl: T, headline: Seq<Seq<char>>) -> Seq<
    (String, Double),
> {
    bars_spec(wl, headline, wl.subject_ratios().len())
}

/// The workloads with a headline ratio.
pub open spec fn shown<T: LaneWorkloadRatios>(ratios: Seq<T>, headline: Seq<Seq<char>>) -> Seq<T>
    decreases ratios.len(),
{
    if ratios.len() == 0 {
        Seq::empty()
    } else {
        let before = shown(ratios.drop_last(), headline);
        if all_bars(ratios.last(), headline).len() > 0 {
            before.push(ratios.last())
        } else {
            before
        }
    }
}

/// Is `item` the bar item of a workload: the baseline at 100% first, then the
/// headline subjects by name?
pub open spec fn is_speed_item<T: LaneWorkloadRatios>(
    item: SpeedBarItem,
    wl: T,
    baseline: Seq<char>,
    headline: Seq<Seq<char>>,
) -> bool {
    &&& item.item@ == criterion_results::item_spec(wl.group_of(), wl.workload_of())
    &&& item.bars@.len() > 0
    &&& item.bars@[0].0@ == baseline
    &&& item.bars@[0].1 == (Double { bits: double::HUNDRED })
    &&& item.bars@.skip(1) == sorting::sorted(all_bars(wl, headline))
}

pub open spec fn are_speed_items<T: LaneWorkloadRatios>(
    items: Seq<SpeedBarItem>,
    ratios: Seq<T>,
    baseline: Seq<char>,
    headline: Seq<Seq<char>>,
) -> bool {
    let wls = shown(ratios, headline);
    &&& items.len() == wls.len()
    &&& forall|i: int|
        0 <= i < wls.len() ==> is_speed_item(#[trigger] items[i], wls[i], baseline, headline)
}

fn bars_of<T: LaneWorkloadRatios>(wl: &T, headline: &Vec<String>) -> (r: Vec<(String, Double)>)
    ensures
        r@ == all_bars(*wl, text::views(headline@)),
{
    let mut out: Vec<(String, Double)> = Vec::new();
    let n: usize = wl.count();
    let mut i: usize = 0;
    while i < n
        invariant
            i <= n,
            n == wl.subject_ratios().len(),
            out@ == bars_spec(*wl, text::views(headline@), i as nat),
        decreases n - i,
    {
        match wl.ratio_at(i) {
            Some(r) => {
                let subject: &String = wl.subject_at(i);
                if config::any_pattern_matches(headline, subject.as_str()) {
                    out.push((subject.clone(), Double::from_bits(double::HUNDRED).over(r)));
                }
            },
            None => {},
        }
        i = i + 1;
    }
    out
}

/// Relative-speed bar items for one lane's ratio table: per workload, the
/// baseline at 100% plus each headline subject's `100 / ratio`. Workloads with
/// no headline ratio are dropped.
pub fn speed_bar_items<T: LaneWorkloadRatios>(
    ratios: &[T],
    baseline_subject: &str,
    headline: &Vec<String>,
) -> (r: Vec<SpeedBarItem>)
    ensures
        are_speed_items(r@, ratios@, baseline_subject@, text::views(headline@)),
{
    let ghost patterns = text::views(headline@);
    let mut out: Vec<SpeedBarItem> = Vec::new();
    let mut w: usize = 0;
    while w < ratios.len()
        invariant
            w <= ratios@.len(),
            patterns == text::views(headline@),
            are_speed_items(out@, ratios@.take(w as int), baseline_subject@, patterns),
        decreases ratios@.len() - w,
    {
        let wl: &T = &ratios[w];
        proof {
            assert(ratios@.take(w + 1).drop_last() =~= ratios@.take(w as int));
            assert(ratios@.take(w + 1).last() == ratios@[w as int]);
        }
        let ghost wls = shown(ratios@.take(w as int), patterns);
        let ghost before = out@;
        let bars: Vec<(String, Double)> = bars_of(wl, headline);
        if bars.len() > 0 {
            let mut sorted: Vec<(String, Double)> = sorting::sort(bars);
            let ghost ordered = sorted@;
            sorted.insert(0, (baseline_subject.to_string(), Double::from_bits(double::HUNDRED)));
            assert(sorted@.skip(1) =~= ordered);
            let item = SpeedBarItem {
                item: criterion_results::item_name(wl.group(), wl.workload()),
                bars: sorted,
            };
            out.push(item);
            assert forall|i: int| 0 <= i < wls.push(*wl).len() implies is_speed_item(
                #[trigger] out@[i],
                wls.push(*wl)[i],
                baseline_subject@,
                patterns,
            ) by {
                if i < wls.len() {
                    assert(out@[i] == before[i]);
                }
            }
        }
        w = w + 1;
    }
    assert(ratios@.take(ratios@.len() as int) =~= ratios@);
    out
}

// ---------------------------------------------------------------------------
// Violins
// ---------------------------------------------------------------------------

/// A row picked for a violin plot.
pub struct Pick {
    pub index: usize,
    pub subject: String,
    pub is_baseline: bool,
}

impl Ranked for Pick {
    /// The baseline first, then by subject.
    open spec fn before(self, other: Pick) -> bool {
        (self.is_baseline && !other.is_baseline) || (self.is_baseline == other.is_baseline
            && text::lex_lt(self.subject@, other.subject@))
    }

    fn comes_before(&self, other: &Pick) -> (r: bool) {
        (self.is_baseline && !other.is_baseline) || (self.is_baseline == other.is_baseline
            && text::less(self.subject.as_str(), other.subject.as_str()))
    }
}

/// The rows of a workload, in input order.
pub open spec fn picks(
    rows: Seq<Row>,
    group: Seq<char>,
    workload: Seq<char>,
    baseline: Seq<char>,
) -> Seq<Pick>
    decreases rows.len(),
{
    if rows.len() == 0 {
        Seq::empty()
    } else {
        let before = picks(rows.drop_last(), group, workload, baseline);
        let row = rows.last();
        if row.group@ == group && row.workload@ == workload {
            before.push(
                Pick {
                    index: (rows.len() - 1) as usize,
                    subject: row.subject,
                    is_baseline: row.subject@ == baseline,
                },
            )
        } else {
            before
        }
    }
}

/// The rows of a workload's violin plot: the baseline first, then by subject.
pub open spec fn violin_rows(
    rows: Seq<Row>,
    group: Seq<char>,
    workload: Seq<char>,
    baseline: Seq<char>,
) -> Seq<usize> {
    sorting::sorted(picks(rows, group, workload, baseline)).map_values(|p: Pick| p.index)
}

proof fn lemma_picks_index(
    rows: Seq<Row>,
    group: Seq<char>,
    workload: Seq<char>,
    baseline: Seq<char>,
)
    requires
        rows.len() <= usize::MAX,
    ensures
        forall|i: int|
            0 <= i < picks(rows, group, workload, baseline).len() ==> (#[trigger] picks(
                rows,
                group,
                workload,
                baseline,
            )[i]).index < rows.len(),
    decreases rows.len(),
{
    if rows.len() > 0 {
        lemma_picks_index(rows.drop_last(), group, workload, baseline);
        let before = picks(rows.drop_last(), group, workload, baseline);
        let all = picks(rows, group, workload, baseline);
        assert forall|i: int| 0 <= i < all.len() implies (#[trigger] all[i]).index
            < rows.len() by {
            if i < before.len() {
                assert(all[i] == before[i]);
            }
        }
    }
}

fn pick_rows(rows: &[Row], group: &str, workload: &str, baseline: &str) -> (r: Vec<usize>)
    ensures
        r@ == violin_rows(rows@, group@, workload@, baseline@),
        r@.len() == picks(rows@, group@, workload@, baseline@).len(),
        forall|i: int| 0 <= i < r@.len() ==> (#[trigger] r@[i]) < rows@.len(),
{
    let n: usize = rows.len();
    let mut found: Vec<Pick> = Vec::new();
    let mut i: usize = 0;
    while i < n
        invariant
            i <= n,
            n == rows@.len(),
            found@ == picks(rows@.take(i as int), group@, workload@, baseline@),
        decreases n - i,
    {
        let row: &Row = &rows[i];
        proof {
            assert(rows@.take(i + 1).drop_last() =~= rows@.take(i as int));
            assert(rows@.take(i + 1).last() == rows@[i as int]);
        }
        if text::same(row.group.as_str(), group) && text::same(row.workload.as_str(), workload) {
            let is_baseline: bool = text::same(row.subject.as_str(), baseline);
            found.push(Pick { index: i, subject: row.subject.clone(), is_baseline });
        }
        i = i + 1;
    }
    let ghost all = picks(rows@, group@, workload@, baseline@);
    proof {
        assert(rows@.take(n as int) =~= rows@);
        lemma_picks_index(rows@, group@, workload@, baseline@);
        sorting::lemma_sorted_contains(all);
    }
    let sorted: Vec<Pick> = sorting::sort(found);
    let ghost order = violin_rows(rows@, group@, workload@, baseline@);
    let mut out: Vec<usize> = Vec::new();
    let mut k: usize = 0;
    while k < sorted.len()
        invariant
            k <= sorted@.len(),
            order == sorted@.map_values(|p: Pick| p.index),
            out@ == order.take(k as int),
        decreases sorted@.len() - k,
    {
        out.push(sorted[k].index);
        assert(order.take(k + 1) =~= order.take(k as int).push(order[k as int]));
        k = k + 1;
    }
    proof {
        assert(order.take(order.len() as int) =~= order);
        assert forall|i: int| 0 <= i < out@.len() implies (#[trigger] out@[i]) < rows@.len() by {
            assert(sorted@.contains(sorted@[i]));
            let x = all.index_of(sorted@[i]);
            assert(all[x] == sorted@[i]);
        }
    }
    out
}

/// A violin plot of a run.
#[derive(Debug)]
pub struct ViolinJob {
    /// `group[/workload]`.
    pub item: String,
    pub path: String,
    pub chart: Result<ViolinChart, String>,
}

/// Is `job` the violin plot of a workload?
pub open spec fn is_violin_job(
    job: ViolinJob,
    wl: WorkloadRatios,
    rows: Seq<Row>,
    commit_dir: Seq<char>,
    baseline: Seq<char>,
    colors: SubjectColors,
) -> bool {
    let item = criterion_results::item_spec(wl.group@, wl.workload@);
    let picked = violin_rows(rows, wl.group@, wl.workload@, baseline);
    &&& job.item@ == item
    &&& job.path@ == paths::join_spec(commit_dir, dist_name_spec(wl.group@, wl.workload@))
    &&& match job.chart {
        Ok(chart) => charts::violin_fault(rows, picked) is None && chart.title@ == item
            + " — per-call distribution"@ && charts::is_violin_chart(chart, rows, picked, colors),
        Err(e) => charts::violin_fault(rows, picked) == Some(e@),
    }
}

/// The workloads with anything to compare: two rows at least.
pub open spec fn comparable(
    ratios: Seq<WorkloadRatios>,
    rows: Seq<Row>,
    baseline: Seq<char>,
) -> Seq<WorkloadRatios>
    decreases ratios.len(),
{
    if ratios.len() == 0 {
        Seq::empty()
    } else {
        let before = comparable(ratios.drop_last(), rows, baseline);
        let wl = ratios.last();
        if picks(rows, wl.group@, wl.workload@, baseline).len() >= 2 {
            before.push(wl)
        } else {
            before
        }
    }
}

pub open spec fn are_violin_jobs(
    jobs: Seq<ViolinJob>,
    ratios: Seq<WorkloadRatios>,
    rows: Seq<Row>,
    commit_dir: Seq<char>,
    baseline: Seq<char>,
    colors: SubjectColors,
) -> bool {
    let wls = comparable(ratios, rows, baseline);
    &&& jobs.len() == wls.len()
    &&& forall|i: int|
        0 <= i < wls.len() ==> is_violin_job(
            #[trigger] jobs[i],
            wls[i],
            rows,
            commit_dir,
            baseline,
            colors,
        )
}

/// The violin plots of a run: one per workload with two rows at least.
fn violin_jobs(
    ratios: &Vec<WorkloadRatios>,
    rows: &[Row],
    commit_dir: &str,
    baseline: &str,
    colors: &SubjectColors,
) -> (r: Vec<ViolinJob>)
    ensures
        are_violin_jobs(r@, ratios@, rows@, commit_dir@, baseline@, *colors),
{
    let mut out: Vec<ViolinJob> = Vec::new();
    let mut w: usize = 0;
    while w < ratios.len()
        invariant
            w <= ratios@.len(),
            are_violin_jobs(
                out@,
                ratios@.take(w as int),
                rows@,
                commit_dir@,
                baseline@,
                *colors,
            ),
        decreases ratios@.len() - w,
    {
        let wl: &WorkloadRatios = &ratios[w];
        proof {
            assert(ratios@.take(w + 1).drop_last() =~= ratios@.take(w as int));
            assert(ratios@.take(w + 1).last() == ratios@[w as int]);
        }
        let ghost wls = comparable(ratios@.take(w as int), rows@, baseline@);
        let ghost before = out@;
        let picked: Vec<usize> = pick_rows(
            rows,
            wl.group.as_str(),
            wl.workload.as_str(),
            baseline,
        );
        if picked.len() >= 2 {
            let item: String = criterion_results::item_name(
                wl.group.as_str(),
                wl.workload.as_str(),
            );
            let title: String = text::cat2(item.as_str(), " — per-call distribution");
            let file: String = dist_file_name(wl.group.as_str(), wl.workload.as_str());
            let job = ViolinJob {
                path: paths::join(commit_dir, file.as_str()),
                chart: charts::render_violin(title.as_str(), rows, &picked, colors),
                item,
            };
            out.push(job);
            assert forall|i: int| 0 <= i < wls.push(*wl).len() implies is_violin_job(
                #[trigger] out@[i],
                wls.push(*wl)[i],
                rows@,
                commit_dir@,
                baseline@,
                *colors,
            ) by {
                if i < wls.len() {
                    assert(out@[i] == before[i]);
                }
            }
        }
        w = w + 1;
    }
    assert(ratios@.take(ratios@.len() as int) =~= ratios@);
    out
}

// ---------------------------------------------------------------------------
// A run's results
// ---------------------------------------------------------------------------

/// A bar chart of a run.
#[derive(Debug, Clone, PartialEq)]
pub struct BarsJob {
    pub path: String,
    pub items: Vec<SpeedBarItem>,
    pub chart: SpeedBarsChart,
}

/// Everything that becomes of one commit's results, before the digest: what to
/// write, what happened, and the state to save.
#[derive(Debug)]
pub struct RunPlan {
    /// The same sha was processed last run: artifacts are refreshed without
    /// touching the regression state, and no events are written.
    pub is_rerun: bool,
    pub ratios: Vec<WorkloadRatios>,
    /// Present when the instructions lane was collected.
    pub instr_ratios: Option<Vec<InstrWorkloadRatios>>,
    pub record: CommitRecord,
    /// Counted rows that the record has no walltime row for.
    pub homeless: Vec<String>,
    pub commit_dir: String,
    /// Absent when there is nothing to compare.
    pub table: Option<CompareTable>,
    /// One run-wide color assignment, so that every chart agrees.
    pub colors: SubjectColors,
    pub bars: Option<BarsJob>,
    pub instr_bars: Option<BarsJob>,
    pub violins: Vec<ViolinJob>,
    pub events: Vec<Event>,
    pub state: State,
    /// A digest window is complete.
    pub digest_due: bool,
}

/// The lane's collection, where there is one.
pub open spec fn collected(instr: Option<CollectOutcome>) -> Option<InstrCollection> {
    match instr {
        Some(CollectOutcome::Collected(c)) => Some(c),
        _ => None,
    }
}

/// Are these the instructions ratios of the collection?
pub open spec fn are_instr_ratios(
    instr_ratios: Option<Vec<InstrWorkloadRatios>>,
    instr: Option<CollectOutcome>,
    baseline: Seq<char>,
) -> bool {
    match (instr_ratios, collected(instr)) {
        (Some(t), Some(c)) => instructions::is_instr_ratio_table(t@, c.rows@, baseline),
        (None, None) => true,
        _ => false,
    }
}

/// Is `record` the record of a run?
pub open spec fn is_run_record(
    record: CommitRecord,
    meta: CommitMeta,
    baseline: Seq<char>,
    failed: Seq<String>,
    instr: Option<CollectOutcome>,
    ratios: Seq<WorkloadRatios>,
    instr_ratios: Option<Vec<InstrWorkloadRatios>>,
) -> bool {
    let walltime = storage::with_ratios(Map::empty(), ratios);
    &&& record.wf()
    &&& record.commit@ == meta.sha@
    &&& record.date@ == meta.date@
    &&& record.rustc@ == meta.rustc@
    &&& record.baseline_subject@ == baseline
    &&& text::views(record.failed_targets@) == text::views(failed)
    &&& match collected(instr) {
        Some(c) => if c.failed_targets@.len() > 0 {
            record.instr_failed_targets matches Some(f) && text::views(f@) == text::views(
                c.failed_targets@,
            )
        } else {
            record.instr_failed_targets is None
        },
        None => record.instr_failed_targets is None,
    }
    &&& record.rows() == (match instr_ratios {
        Some(t) => storage::with_instr_ratios(walltime, t@),
        None => walltime,
    })
}

/// Are these the run-wide colors: headline subjects first?
pub open spec fn are_run_colors(
    colors: SubjectColors,
    baseline: Seq<char>,
    rows: Seq<Row>,
    headline: Seq<Seq<char>>,
) -> bool {
    &&& colors.baseline_spec() == baseline
    &&& charts::in_slot_order(colors.slots(), headline)
    &&& forall|s: Seq<char>| #[trigger]
        colors.slots().contains(s) <==> compare::is_subject(rows, s) && s != baseline
}

/// What a lane's bar chart is called.
pub open spec fn bars_title(
    lane: Lane,
    repo: Seq<char>,
    sha: Seq<char>,
    baseline: Seq<char>,
) -> Seq<char> {
    let what = match lane {
        Lane::Walltime => " relative speed @ "@,
        Lane::Instructions => " relative instructions @ "@,
    };
    repo + what + storage::short_spec(sha) + " ("@ + baseline + " = 100%)"@
}

pub open spec fn bars_x_desc(lane: Lane, baseline: Seq<char>) -> Seq<char> {
    let what = match lane {
        Lane::Walltime => "relative speed, "@,
        Lane::Instructions => "relative instruction count, "@,
    };
    what + baseline + " = 100% (lower = more overhead)"@
}

/// Is `job` a lane's bar chart, absent where no workload has a headline ratio?
pub open spec fn is_bars_job<T: LaneWorkloadRatios>(
    job: Option<BarsJob>,
    lane: Lane,
    ratios: Seq<T>,
    repo: RepoConfig,
    sha: Seq<char>,
    commit_dir: Seq<char>,
    colors: SubjectColors,
) -> bool {
    let headline = text::views(repo.headline_subjects@);
    let baseline = repo.baseline_subject@;
    match job {
        Some(job) => {
            &&& shown(ratios, headline).len() > 0
            &&& job.path@ == paths::join_spec(
                commit_dir,
                (match lane {
                    Lane::Walltime => "compare_bars.png"@,
                    Lane::Instructions => "instr_bars.png"@,
                }),
            )
            &&& are_speed_items(job.items@, ratios, baseline, headline)
            &&& job.chart.title@ == bars_title(lane, repo.name@, sha, baseline)
            &&& job.chart.x_desc@ == bars_x_desc(lane, baseline)
            &&& charts::is_speed_bars(job.chart, job.items@, colors)
        },
        None => shown(ratios, headline).len() == 0,
    }
}

fn bars_job<T: LaneWorkloadRatios>(
    lane: Lane,
    ratios: &[T],
    repo: &RepoConfig,
    sha: &str,
    commit_dir: &str,
    colors: &SubjectColors,
) -> (job: Option<BarsJob>)
    requires
        storage::can_shorten(sha@),
    ensures
        is_bars_job(job, lane, ratios@, *repo, sha@, commit_dir@, *colors),
{
    let baseline: &str = repo.baseline_subject.as_str();
    let items: Vec<SpeedBarItem> = speed_bar_items(ratios, baseline, &repo.headline_subjects);
    let what: &str = match lane {
        Lane::Walltime => " relative speed @ ",
        Lane::Instructions => " relative instructions @ ",
    };
    let title: String = text::cat6(
        repo.name.as_str(),
        what,
        storage::short_sha(sha),
        " (",
        baseline,
        " = 100%)",
    );
    let measure: &str = match lane {
        Lane::Walltime => "relative speed, ",
        Lane::Instructions => "relative instruction count, ",
    };
    let x_desc: String = text::cat3(measure, baseline, " = 100% (lower = more overhead)");
    let file: &str = match lane {
        Lane::Walltime => "compare_bars.png",
        Lane::Instructions => "instr_bars.png",
    };
    match charts::render_speed_bars(title.as_str(), x_desc.as_str(), items.as_slice(), colors) {
        Ok(chart) => Some(BarsJob { path: paths::join(commit_dir, file), items, chart }),
        Err(_) => None,
    }
}

/// The ratio of each row of a lane, by key.
pub open spec fn ratio_map(rows: Seq<LaneRowView>) -> Map<Seq<char>, Double>
    decreases rows.len(),
{
    if rows.len() == 0 {
        Map::empty()
    } else {
        ratio_map(rows.drop_last()).insert(rows.last().key, rows.last().ratio)
    }
}

fn current_ratios(ratios: &[InstrWorkloadRatios]) -> (r: StrMap<Double>)
    ensures
        r.wf(),
        r@ == ratio_map(lane_rows(ratios@)),
{
    let rows: Vec<LaneRow> = lane_rows_of(ratios);
    let ghost all = lane_rows(ratios@);
    let mut out: StrMap<Double> = StrMap::new();
    let mut i: usize = 0;
    while i < rows.len()
        invariant
            i <= rows@.len(),
            all == lane_row_views(rows@),
            out.wf(),
            out@ == ratio_map(all.take(i as int)),
        decreases rows@.len() - i,
    {
        proof {
            assert(all.take(i + 1).drop_last() =~= all.take(i as int));
            assert(all.take(i + 1).last() == all[i as int]);
        }
        out.insert(rows[i].key.clone(), rows[i].ratio);
        i = i + 1;
    }
    assert(all.take(all.len() as int) =~= all);
    out
}

/// The counted rows of a run: none without a collection.
pub open spec fn instr_lane_rows(instr_ratios: Option<Vec<InstrWorkloadRatios>>) -> Seq<
    LaneRowView,
> {
    match instr_ratios {
        Some(t) => lane_rows(t@),
        None => Seq::empty(),
    }
}

/// What the walltime events of a run are annotated with: the instructions
/// lane's histories are those from before the run.
pub open spec fn run_annotations(
    instr_ratios: Option<Vec<InstrWorkloadRatios>>,
    settings: Settings,
    before: State,
) -> AnnotationView {
    AnnotationView {
        current: ratio_map(instr_lane_rows(instr_ratios)),
        histories: state::histories(before.instr_rows@),
        regression_pct: settings.thresholds_spec(Lane::Instructions).regression_pct,
    }
}

/// The events of a run: all walltime events, then the instructions lane's.
pub open spec fn run_events(
    ratios: Seq<WorkloadRatios>,
    instr_ratios: Option<Vec<InstrWorkloadRatios>>,
    settings: Settings,
    headline: Seq<Seq<char>>,
    before: State,
) -> Seq<EventView> {
    events_after(
        lane_rows(ratios),
        state::histories(before.rows@),
        settings.thresholds_spec(Lane::Walltime),
        settings.rolling_window as nat,
        Lane::Walltime,
        headline,
        Some(run_annotations(instr_ratios, settings, before)),
    ) + events_after(
        instr_lane_rows(instr_ratios),
        state::histories(before.instr_rows@),
        settings.thresholds_spec(Lane::Instructions),
        settings.rolling_window as nat,
        Lane::Instructions,
        headline,
        None,
    )
}

/// Is `after` the state of a run that folded its ratios in?
pub open spec fn is_folded_state(
    after: State,
    before: State,
    ratios: Seq<WorkloadRatios>,
    instr_ratios: Option<Vec<InstrWorkloadRatios>>,
    settings: Settings,
) -> bool {
    &&& state::histories(after.rows@) == rows_after(
        lane_rows(ratios),
        state::histories(before.rows@),
        settings.thresholds_spec(Lane::Walltime),
        settings.rolling_window as nat,
    )
    &&& state::histories(after.instr_rows@) == rows_after(
        instr_lane_rows(instr_ratios),
        state::histories(before.instr_rows@),
        settings.thresholds_spec(Lane::Instructions),
        settings.rolling_window as nat,
    )
    &&& after.commits_since_digest == before.commits_since_digest + 1
}

/// Was this sha processed last run?
pub open spec fn is_rerun_spec(before: State, sha: Seq<char>) -> bool {
    before.last_seen_sha matches Some(last) && last@ == sha
}

/// Was this sha processed last run?
pub fn is_rerun(state: &State, sha: &str) -> (r: bool)
    ensures
        r == is_rerun_spec(*state, sha@),
{
    match &state.last_seen_sha {
        Some(last) => text::same(last.as_str(), sha),
        None => false,
    }
}

/// Can the digest counter count a run of this sha? A re-run is not counted.
pub open spec fn counter_fits(state: State, sha: Seq<char>) -> bool {
    is_rerun_spec(state, sha) || state.commits_since_digest < u32::MAX
}

/// Can the digest counter count a run of this sha?
pub fn has_counter_room(state: &State, sha: &str) -> (r: bool)
    ensures
        r == counter_fits(*state, sha@),
{
    is_rerun(state, sha) || state.commits_since_digest < u32::MAX
}

/// Is `plan` what becomes of a run's results?
pub open spec fn is_run_plan(
    plan: RunPlan,
    repo: RepoConfig,
    settings: Settings,
    store: RepoStore,
    rows: Seq<Row>,
    meta: CommitMeta,
    failed: Seq<String>,
    instr: Option<CollectOutcome>,
    before: State,
) -> bool {
    let baseline = repo.baseline_subject@;
    let headline = text::views(repo.headline_subjects@);
    &&& criterion_results::is_ratio_table(plan.ratios@, rows, baseline)
    &&& are_instr_ratios(plan.instr_ratios, instr, baseline)
    &&& is_run_record(
        plan.record,
        meta,
        baseline,
        failed,
        instr,
        plan.ratios@,
        plan.instr_ratios,
    )
    &&& text::views(plan.homeless@) == (match plan.instr_ratios {
        Some(t) => storage::all_homeless(storage::with_ratios(Map::empty(), plan.ratios@), t@),
        None => Seq::empty(),
    })
    &&& store.commit_dir_spec(plan.record) == Result::<Seq<char>, Seq<char>>::Ok(plan.commit_dir@)
    &&& match plan.table {
        Some(table) => plan.ratios@.len() > 0 && table.headline_label@ == repo.label_spec()
            && table.baseline_subject@ == baseline && compare::is_compare_table(
            table,
            rows,
            plan.ratios@,
            compare::instr_tables(plan.instr_ratios),
            repo.order_spec(),
            headline,
        ),
        None => plan.ratios@.len() == 0,
    }
    &&& are_run_colors(plan.colors, baseline, rows, headline)
    &&& is_bars_job(
        plan.bars,
        Lane::Walltime,
        plan.ratios@,
        repo,
        meta.sha@,
        plan.commit_dir@,
        plan.colors,
    )
    &&& match plan.instr_ratios {
        Some(t) => is_bars_job(
            plan.instr_bars,
            Lane::Instructions,
            t@,
            repo,
            meta.sha@,
            plan.commit_dir@,
            plan.colors,
        ),
        None => plan.instr_bars is None,
    }
    &&& are_violin_jobs(
        plan.violins@,
        plan.ratios@,
        rows,
        plan.commit_dir@,
        baseline,
        plan.colors,
    )
    &&& plan.state.wf()
    &&& plan.state.last_seen_sha matches Some(last) && last@ == meta.sha@
    &&& plan.is_rerun == is_rerun_spec(before, meta.sha@)
    &&& if plan.is_rerun {
        &&& plan.events@.len() == 0
        &&& plan.state.rows == before.rows
        &&& plan.state.instr_rows == before.instr_rows
        &&& plan.state.commits_since_digest == before.commits_since_digest
        &&& !plan.digest_due
    } else {
        &&& event_views(plan.events@) == run_events(
            plan.ratios@,
            plan.instr_ratios,
            settings,
            headline,
            before,
        )
        &&& is_folded_state(plan.state, before, plan.ratios@, plan.instr_ratios, settings)
        &&& plan.digest_due == (plan.state.commits_since_digest >= settings.digest_batch_size)
    }
}

proof fn lemma_walltime_finite(ratios: Seq<WorkloadRatios>, rows: Seq<Row>, baseline: Seq<char>)
    requires
        criterion_results::is_ratio_table(ratios, rows, baseline),
    ensures
        all_ratios_finite(ratios),
{
    assert forall|w: int, i: int|
        0 <= w < ratios.len() && 0 <= i < ratios[w].subject_ratios().len() implies (
    match (#[trigger] ratios[w].subject_ratios()[i]).1 {
        Some(r) => r.finite(),
        None => true,
    }) by {
        let wl = ratios[w];
        assert(wl.rows@ == criterion_results::ratio_rows_spec(
            rows,
            wl.group@,
            wl.workload@,
            baseline,
        ));
        criterion_results::law_ratios_are_finite(rows, wl.group@, wl.workload@, baseline, i);
    }
}

proof fn lemma_instr_finite(
    ratios: Seq<InstrWorkloadRatios>,
    rows: Seq<instructions::InstrRow>,
    baseline: Seq<char>,
)
    requires
        instructions::is_instr_ratio_table(ratios, rows, baseline),
    ensures
        all_ratios_finite(ratios),
{
    assert forall|w: int, i: int|
        0 <= w < ratios.len() && 0 <= i < ratios[w].subject_ratios().len() implies (
    match (#[trigger] ratios[w].subject_ratios()[i]).1 {
        Some(r) => r.finite(),
        None => true,
    }) by {
        let wl = ratios[w];
        assert(wl.rows@ == instructions::instr_ratio_rows_spec(
            rows,
            wl.group@,
            wl.workload@,
            baseline,
        ));
        criterion_results::law_ratios_are_finite(rows, wl.group@, wl.workload@, baseline, i);
    }
}

/// The subjects of the rows, in input order.
fn subjects_of(rows: &[Row]) -> (r: Vec<String>)
    ensures
        forall|s: Seq<char>| #[trigger]
            text::views(r@).contains(s) <==> compare::is_subject(rows@, s),
{
    let mut out: Vec<String> = Vec::new();
    let mut i: usize = 0;
    while i < rows.len()
        invariant
            i <= rows@.len(),
            out@.len() == i,
            forall|k: int| 0 <= k < i ==> (#[trigger] out@[k])@ == rows@[k].subject@,
        decreases rows@.len() - i,
    {
        out.push(rows[i].subject.clone());
        i = i + 1;
    }
    proof {
        let all = text::views(out@);
        assert forall|s: Seq<char>| #[trigger]
            all.contains(s) <==> compare::is_subject(rows@, s) by {
            if all.contains(s) {
                let k = all.index_of(s);
                assert(out@[k]@ == rows@[k].subject@);
                assert(rows@[k].subject@ == s);
            }
            if compare::is_subject(rows@, s) {
                let k = choose|k: int| 0 <= k < rows@.len() && (#[trigger] rows@[k]).subject@ == s;
                assert(out@[k]@ == s);
                assert(all[k] == s);
            }
        }
    }
    out
}

/// Both lanes' checks of a run, walltime first: its events are annotated with
/// what the instructions lane saw, against that lane's medians from before the
/// run.
fn check_run(
    ratios: &Vec<WorkloadRatios>,
    instr_ratios: &Option<Vec<InstrWorkloadRatios>>,
    settings: &Settings,
    headline: &Vec<String>,
    state: State,
) -> (r: (State, Vec<Event>))
    requires
        state.wf(),
        all_ratios_finite(ratios@),
        (*instr_ratios) matches Some(t) ==> all_ratios_finite(t@),
    ensures
        r.0.wf(),
        state::histories(r.0.rows@) == rows_after(
            lane_rows(ratios@),
            state::histories(state.rows@),
            settings.thresholds_spec(Lane::Walltime),
            settings.rolling_window as nat,
        ),
        state::histories(r.0.instr_rows@) == rows_after(
            instr_lane_rows(*instr_ratios),
            state::histories(state.instr_rows@),
            settings.thresholds_spec(Lane::Instructions),
            settings.rolling_window as nat,
        ),
        r.0.commits_since_digest == state.commits_since_digest,
        r.0.last_seen_sha == state.last_seen_sha,
        event_views(r.1@) == run_events(
            ratios@,
            *instr_ratios,
            *settings,
            text::views(headline@),
            state,
        ),
{
    let State { last_seen_sha, commits_since_digest, rows, instr_rows } = state;
    let mut walltime: StrMap<RowHistory> = rows;
    let mut counts: StrMap<RowHistory> = instr_rows;
    let mut events: Vec<Event> = Vec::new();
    let none: Vec<InstrWorkloadRatios> = Vec::new();
    let table: &Vec<InstrWorkloadRatios> = match instr_ratios {
        Some(t) => t,
        None => &none,
    };
    assert(event_views(events@) =~= Seq::empty());
    assert(lane_rows(table@) == instr_lane_rows(*instr_ratios));
    let current: StrMap<Double> = current_ratios(table.as_slice());
    let ctx = InstrAnnotationCtx {
        current: &current,
        instr_rows: &counts,
        regression_pct: settings.thresholds(Lane::Instructions).regression_pct,
    };
    check_lane(
        Lane::Walltime,
        ratios.as_slice(),
        settings.thresholds(Lane::Walltime),
        &mut walltime,
        settings.rolling_window,
        headline,
        Some(&ctx),
        &mut events,
    );
    check_lane(
        Lane::Instructions,
        table.as_slice(),
        settings.thresholds(Lane::Instructions),
        &mut counts,
        settings.rolling_window,
        headline,
        None,
        &mut events,
    );
    assert(event_views(events@) =~= run_events(
        ratios@,
        *instr_ratios,
        *settings,
        text::views(headline@),
        state,
    ));
    (
        State { last_seen_sha, commits_since_digest, rows: walltime, instr_rows: counts },
        events,
    )
}

/// The whole post-bench stage for one commit: record, tables, charts and the
/// rolling-median regression check. `instr` is what the instructions lane came
/// back with; without a collection every artifact is that of a walltime-only
/// run. A retried run of the sha just processed refreshes the artifacts and
/// leaves the regression state alone.
pub fn process_results(
    repo: &RepoConfig,
    settings: &Settings,
    store: &RepoStore,
    rows: &[Row],
    meta: &CommitMeta,
    failed_targets: &Vec<String>,
    instr: &Option<CollectOutcome>,
    state: State,
) -> (r: Result<RunPlan, String>)
    requires
        state.wf(),
        counter_fits(state, meta.sha@),
        storage::can_shorten(meta.sha@),
    ensures
        match r {
            Ok(plan) => dates::day_spec(meta.date@) is Ok && is_run_plan(
                plan,
                *repo,
                *settings,
                *store,
                rows@,
                *meta,
                failed_targets@,
                *instr,
                state,
            ),
            Err(e) => dates::day_spec(meta.date@) == Result::<Seq<char>, Seq<char>>::Err(e@),
        },
{
    let baseline: &str = repo.baseline_subject.as_str();
    let headline: &Vec<String> = &repo.headline_subjects;
    let ratios: Vec<WorkloadRatios> = criterion_results::compute_ratios(rows, baseline);
    let instr_ratios: Option<Vec<InstrWorkloadRatios>> = match instr {
        Some(CollectOutcome::Collected(c)) => Some(
            instructions::compute_instr_ratios(c.rows.as_slice(), baseline),
        ),
        _ => None,
    };
    let is_rerun: bool = is_rerun(&state, meta.sha.as_str());

    let mut record: CommitRecord = CommitRecord::new(
        meta.sha.clone(),
        meta.date.clone(),
        meta.rustc.clone(),
        repo.baseline_subject.clone(),
    );
    record.add_ratios(ratios.as_slice());
    record.failed_targets = text::copy_list(failed_targets);
    let homeless: Vec<String> = match &instr_ratios {
        Some(t) => record.add_instr_ratios(t.as_slice()),
        None => Vec::new(),
    };
    record.instr_failed_targets = match instr {
        Some(CollectOutcome::Collected(c)) => if c.failed_targets.len() > 0 {
            Some(text::copy_list(&c.failed_targets))
        } else {
            None
        },
        _ => None,
    };
    assert(text::views(homeless@) =~= (match instr_ratios {
        Some(t) => storage::all_homeless(storage::with_ratios(Map::empty(), ratios@), t@),
        None => Seq::empty(),
    }));
    let commit_dir: String = match store.commit_dir(&record) {
        Ok(dir) => dir,
        Err(e) => {
            return Err(e);
        },
    };

    let table: Option<CompareTable> = if ratios.len() == 0 {
        None
    } else {
        let label: String = repo.headline_label();
        let order: Vec<String> = repo.subject_order();
        Some(
            compare::build_compare_table(
                rows,
                ratios.as_slice(),
                &instr_ratios,
                label.as_str(),
                baseline,
                &order,
                headline,
            ),
        )
    };
    let subjects: Vec<String> = subjects_of(rows);
    let colors: SubjectColors = SubjectColors::new(baseline, &subjects, headline);
    let bars: Option<BarsJob> = bars_job(
        Lane::Walltime,
        ratios.as_slice(),
        repo,
        meta.sha.as_str(),
        commit_dir.as_str(),
        &colors,
    );
    let instr_bars: Option<BarsJob> = match &instr_ratios {
        Some(t) => bars_job(
            Lane::Instructions,
            t.as_slice(),
            repo,
            meta.sha.as_str(),
            commit_dir.as_str(),
            &colors,
        ),
        None => None,
    };
    let violins: Vec<ViolinJob> = violin_jobs(
        &ratios,
        rows,
        commit_dir.as_str(),
        baseline,
        &colors,
    );

    proof {
        lemma_walltime_finite(ratios@, rows@, baseline@);
        if instr_ratios is Some {
            lemma_instr_finite(instr_ratios->0@, collected(*instr)->0.rows@, baseline@);
        }
    }
    let mut after: State = state;
    let mut events: Vec<Event> = Vec::new();
    let mut digest_due: bool = false;
    if !is_rerun {
        let (checked, emitted) = check_run(&ratios, &instr_ratios, settings, headline, after);
        after = checked;
        events = emitted;
        digest_due = after.bump_digest_counter(settings.digest_batch_size);
    }
    after.last_seen_sha = Some(meta.sha.clone());
    Ok(
        RunPlan {
            is_rerun,
            ratios,
            instr_ratios,
            record,
            homeless,
            commit_dir,
            table,
            colors,
            bars,
            instr_bars,
            violins,
            events,
            state: after,
            digest_due,
        },
    )
}

// ---------------------------------------------------------------------------
// Finishing a run
// ---------------------------------------------------------------------------

/// Takes note of a digest that was built and written: its event, with the
/// directory relative to the repo's store, and a fresh digest counter.
pub fn record_digest(store: &RepoStore, dir: &str, state: &mut State, events: &mut Vec<Event>)
    ensures
        event_views(final(events)@) == event_views(old(events)@).push(
            (EventView::Digest { dir: paths::relative_spec(store.root_spec(), dir@) }),
        ),
        final(state).commits_since_digest == 0,
        final(state).rows == old(state).rows,
        final(state).instr_rows == old(state).instr_rows,
        final(state).last_seen_sha == old(state).last_seen_sha,
{
    let e = Event::Digest { dir: paths::relative(store.root(), dir) };
    proof {
        lemma_event_push(events@, e);
    }
    events.push(e);
    state.reset_digest_counter();
}

/// A digest's event names its directory below the repo's store.
pub proof fn law_digest_events_are_repo_relative(
    store: RepoStore,
    day: Seq<char>,
    first: Seq<char>,
    last: Seq<char>,
)
    requires
        !(day.len() > 0 && day[0] == '/'),
    ensures
        paths::relative_spec(
            store.root_spec(),
            paths::join_spec(
                store.under("digests"@),
                storage::window_name(day, first, last),
            ),
        ) == "digests/"@ + storage::window_name(day, first, last),
{
    reveal_strlit("digests");
    reveal_strlit("digests/");
    reveal_strlit("/");
    reveal_strlit("-");
    let name = storage::window_name(day, first, last);
    assert(name.len() > 0 && name[0] != '/') by {
        let head = day + "-"@;
        assert(name[0] == head[0]);
    }
    let root = store.root_spec();
    let under = store.under("digests"@);
    assert(under.last() == 's') by {
        assert(under.last() == "digests"@.last());
    }
    let tail = "digests/"@ + name;
    assert("digests"@ + "/"@ =~= "digests/"@);
    assert(paths::join_spec(under, name) =~= paths::join_spec(root, tail));
    paths::law_joined_parts_come_back(root, tail);
}

/// Why a run fails although everything is written: the instructions lane is
/// required, and was skipped or had failing targets.
pub open spec fn required_fault(
    config: Option<config::InstructionsConfig>,
    instr: Option<CollectOutcome>,
) -> Option<Seq<char>> {
    let head = "instructions lane required (require_instructions = true) but "@;
    match (config, instr) {
        (Some(c), Some(CollectOutcome::Skipped(reason))) => if c.require_instructions {
            Some(head + "it was skipped: "@ + reason@)
        } else {
            None
        },
        (Some(c), Some(CollectOutcome::Collected(collection))) => if c.require_instructions
            && collection.failed_targets@.len() > 0 {
            Some(
                head + "target(s) failed: "@ + text::join_spec(
                    text::views(collection.failed_targets@),
                    ", "@,
                ),
            )
        } else {
            None
        },
        _ => None,
    }
}

/// Turns a skipped or failed lane into an error where the repo requires it.
/// Checked after everything is written: the error is a signal, not a data
/// problem.
pub fn check_required_lane(
    config: &Option<config::InstructionsConfig>,
    instr: &Option<CollectOutcome>,
) -> (r: Result<(), String>)
    ensures
        match r {
            Ok(_) => required_fault(*config, *instr) is None,
            Err(e) => required_fault(*config, *instr) == Some(e@),
        },
{
    let required: bool = match config {
        Some(c) => c.require_instructions,
        None => false,
    };
    if !required {
        return Ok(());
    }
    match instr {
        Some(CollectOutcome::Skipped(reason)) => Err(
            text::cat3(
                "instructions lane required (require_instructions = true) but ",
                "it was skipped: ",
                reason.as_str(),
            ),
        ),
        Some(CollectOutcome::Collected(collection)) => if collection.failed_targets.len() > 0 {
            let names: String = text::join(&collection.failed_targets, ", ");
            Err(
                text::cat3(
                    "instructions lane required (require_instructions = true) but ",
                    "target(s) failed: ",
                    names.as_str(),
                ),
            )
        } else {
            Ok(())
        },
        None => Ok(()),
    }
}

/// What becomes of a digest that was due: one that was built is recorded; one
/// whose build failed leaves counter and events as they are, so that the next
/// commit retries.
pub fn digest_result(
    built: Result<String, String>,
    store: &RepoStore,
    state: &mut State,
    events: &mut Vec<Event>,
)
    ensures
        match built {
            Ok(dir) => {
                &&& event_views(final(events)@) == event_views(old(events)@).push(
                    (EventView::Digest { dir: paths::relative_spec(store.root_spec(), dir@) }),
                )
                &&& final(state).commits_since_digest == 0
                &&& final(state).rows == old(state).rows
                &&& final(state).instr_rows == old(state).instr_rows
                &&& final(state).last_seen_sha == old(state).last_seen_sha
            },
            Err(_) => *final(state) == *old(state) && final(events)@ == old(events)@,
        },
{
    match built {
        Ok(dir) => record_digest(store, dir.as_str(), state, events),
        Err(_) => {},
    }
}

/// What the end of a run asks for next.
#[derive(Debug, Clone, PartialEq)]
pub enum FinishAction {
    /// Write the record: first of all, before anything that can fail
    /// cosmetically.
    WriteRecord,
    /// Write table and charts. What fails here is logged.
    WriteArtifacts,
    /// Build and write the digest of the latest commits.
    BuildDigest,
    /// Write the events of the run.
    WriteEvents,
    /// Save the regression state.
    SaveState,
    /// Point to the run as the latest one that was completed.
    WriteLatest,
    /// The run is complete.
    Finish,
    /// End the run with this error.
    Fail(String),
}

/// What came of an action at the end of a run.
#[derive(Debug, PartialEq)]
pub enum FinishEvent {
    /// It was done.
    Done,
    /// It failed, and with it the run.
    Failed(String),
    /// The directory of the digest, or why it was not built.
    Built(Result<String, String>),
}

/// Is `event` an answer to `asked`?
pub open spec fn settles(asked: FinishAction, event: FinishEvent) -> bool {
    match asked {
        FinishAction::WriteArtifacts => event is Done,
        FinishAction::BuildDigest => event is Built || event is Failed,
        FinishAction::Finish => false,
        FinishAction::Fail(_) => false,
        _ => event is Done || event is Failed,
    }
}

/// Is `next` what the end of a run asks for after `event` has answered `asked`?
/// Record, artifacts, a digest that is due, events, state, pointer, in this
/// order; a re-run writes no events. The required lane is checked last.
pub open spec fn is_next_write(
    is_rerun: bool,
    digest_due: bool,
    lane_fault: Option<Seq<char>>,
    asked: FinishAction,
    event: FinishEvent,
    next: FinishAction,
) -> bool {
    if !settles(asked, event) {
        next == asked
    } else {
        match event {
            FinishEvent::Failed(e) => next matches FinishAction::Fail(f) && f@ == e@,
            _ => match asked {
                FinishAction::WriteRecord => next is WriteArtifacts,
                FinishAction::WriteArtifacts => if digest_due {
                    next is BuildDigest
                } else if is_rerun {
                    next is SaveState
                } else {
                    next is WriteEvents
                },
                FinishAction::BuildDigest => if is_rerun {
                    next is SaveState
                } else {
                    next is WriteEvents
                },
                FinishAction::WriteEvents => next is SaveState,
                FinishAction::SaveState => next is WriteLatest,
                _ => match lane_fault {
                    Some(fault) => next matches FinishAction::Fail(f) && f@ == fault,
                    None => next is Finish,
                },
            },
        }
    }
}

/// What a digest that was due makes of a run: see [`digest_result`].
pub open spec fn is_settled(
    before: RunPlan,
    after: RunPlan,
    store: RepoStore,
    built: Result<String, String>,
) -> bool {
    match built {
        Ok(dir) => {
            &&& event_views(after.events@) == event_views(before.events@).push(
                (EventView::Digest { dir: paths::relative_spec(store.root_spec(), dir@) }),
            )
            &&& after == (RunPlan {
                state: State { commits_since_digest: 0, ..before.state },
                events: after.events,
                ..before
            })
        },
        Err(_) => after == (RunPlan { events: after.events, ..before }) && after.events@
            == before.events@,
    }
}

fn after_digest(is_rerun: bool) -> (next: FinishAction)
    ensures
        is_rerun ==> next is SaveState,
        !is_rerun ==> next is WriteEvents,
{
    if is_rerun {
        FinishAction::SaveState
    } else {
        FinishAction::WriteEvents
    }
}

/// The end of a run, step by step: from what was asked for and what came of it
/// to what is asked for next. It starts with `FinishAction::WriteRecord`; an
/// event that does not answer the action leaves it asked. What is written is
/// the plan as it then stands: a digest that was built is in its events and its
/// state.
pub fn finish_run(
    store: &RepoStore,
    config: &Option<config::InstructionsConfig>,
    instr: &Option<CollectOutcome>,
    plan: &mut RunPlan,
    asked: FinishAction,
    event: FinishEvent,
) -> (next: FinishAction)
    ensures
        is_next_write(
            old(plan).is_rerun,
            old(plan).digest_due,
            required_fault(*config, *instr),
            asked,
            event,
            next,
        ),
        match event {
            FinishEvent::Built(built) => if asked is BuildDigest {
                is_settled(*old(plan), *final(plan), *store, built)
            } else {
                *final(plan) == *old(plan)
            },
            _ => *final(plan) == *old(plan),
        },
{
    match (asked, event) {
        (FinishAction::WriteRecord, FinishEvent::Done) => FinishAction::WriteArtifacts,
        (FinishAction::WriteArtifacts, FinishEvent::Done) => {
            if plan.digest_due {
                FinishAction::BuildDigest
            } else {
                after_digest(plan.is_rerun)
            }
        },
        (FinishAction::BuildDigest, FinishEvent::Built(built)) => {
            digest_result(built, store, &mut plan.state, &mut plan.events);
            after_digest(plan.is_rerun)
        },
        (FinishAction::WriteEvents, FinishEvent::Done) => FinishAction::SaveState,
        (FinishAction::SaveState, FinishEvent::Done) => FinishAction::WriteLatest,
        (FinishAction::WriteLatest, FinishEvent::Done) => match check_required_lane(config, instr) {
            Ok(_) => FinishAction::Finish,
            Err(e) => FinishAction::Fail(e),
        },
        (FinishAction::WriteRecord, FinishEvent::Failed(e)) => FinishAction::Fail(e),
        (FinishAction::BuildDigest, FinishEvent::Failed(e)) => FinishAction::Fail(e),
        (FinishAction::WriteEvents, FinishEvent::Failed(e)) => FinishAction::Fail(e),
        (FinishAction::SaveState, FinishEvent::Failed(e)) => FinishAction::Fail(e),
        (FinishAction::WriteLatest, FinishEvent::Failed(e)) => FinishAction::Fail(e),
        (asked, _) => asked,
    }
}

/// Everything a run produced, for the summary.
#[derive(Debug, Clone, PartialEq)]
pub struct RunOutcome {
    pub commit_dir: String,
    pub failed_targets: Vec<String>,
    /// Instructions-lane per-target failures; none when the lane is off,
    /// skipped, or fully clean.
    pub instr_failed_targets: Option<Vec<String>>,
    pub events: Vec<Event>,
}

/// The outcome of a run whose artifacts are written.
pub fn run_outcome(plan: RunPlan) -> (r: RunOutcome)
    ensures
        r.commit_dir == plan.commit_dir,
        r.failed_targets == plan.record.failed_targets,
        r.instr_failed_targets == plan.record.instr_failed_targets,
        r.events == plan.events,
{
    RunOutcome {
        commit_dir: plan.commit_dir,
        failed_targets: plan.record.failed_targets,
        instr_failed_targets: plan.record.instr_failed_targets,
        events: plan.events,
    }
}

// ---------------------------------------------------------------------------
// The full per-commit run
// ---------------------------------------------------------------------------

/// The targets that did not run.
pub open spec fn failed_spec(targets: Seq<String>, succeeded: Seq<bool>) -> Seq<Seq<char>>
    decreases targets.len(),
{
    if targets.len() == 0 {
        Seq::empty()
    } else {
        let before = failed_spec(targets.drop_last(), succeeded);
        let i = targets.len() - 1;
        if i < succeeded.len() && succeeded[i] {
            before
        } else {
            before.push(targets.last()@)
        }
    }
}

/// The error of a run without a single target that ran.
pub open spec fn all_failed_text(n: nat) -> Seq<char> {
    "all "@ + numerals::digits(n, 10) + " bench targets failed — no data to report"@
}

/// The failed targets of a bench pass. A failing target is marked, not fatal —
/// unless every target failed, which means no data at all.
pub fn bench_outcome(targets: &Vec<String>, succeeded: &Vec<bool>) -> (r: Result<
    Vec<String>,
    String,
>)
    ensures
        match r {
            Ok(failed) => text::views(failed@) == failed_spec(targets@, succeeded@) && failed@.len()
                < targets@.len(),
            Err(e) => failed_spec(targets@, succeeded@).len() == targets@.len() && e@
                == all_failed_text(targets@.len()),
        },
{
    let n: usize = targets.len();
    let mut failed: Vec<String> = Vec::new();
    let mut i: usize = 0;
    assert(text::views(failed@) =~= failed_spec(targets@.take(0), succeeded@));
    while i < n
        invariant
            i <= n,
            n == targets@.len(),
            failed@.len() <= i,
            text::views(failed@) == failed_spec(targets@.take(i as int), succeeded@),
        decreases n - i,
    {
        proof {
            assert(targets@.take(i + 1).drop_last() =~= targets@.take(i as int));
            assert(targets@.take(i + 1).last() == targets@[i as int]);
        }
        if !(i < succeeded.len() && succeeded[i]) {
            text::add_word(&mut failed, targets[i].as_str());
        }
        i = i + 1;
    }
    assert(targets@.take(n as int) =~= targets@);
    if failed.len() == n {
        Err(
            text::cat3(
                "all ",
                numerals::decimal(n as u64).as_str(),
                " bench targets failed — no data to report",
            ),
        )
    } else {
        Ok(failed)
    }
}

/// The error of a regeneration without a criterion tree.
pub open spec fn no_tree_text(criterion_dir: Seq<char>) -> Seq<char> {
    "--skip-bench: no existing criterion tree at "@ + criterion_dir
}

fn no_tree(criterion_dir: &str) -> (r: String)
    ensures
        r@ == no_tree_text(criterion_dir@),
{
    text::cat2("--skip-bench: no existing criterion tree at ", criterion_dir)
}

/// Why an existing criterion tree cannot be re-rendered for a sha.
pub open spec fn regen_fault(
    tree_exists: bool,
    criterion_dir: Seq<char>,
    last_seen: Option<Seq<char>>,
    sha: Seq<char>,
) -> Option<Seq<char>> {
    if !tree_exists {
        Some(no_tree_text(criterion_dir))
    } else if last_seen != Some(sha) {
        let last = match last_seen {
            Some(s) => s,
            None => "<none>"@,
        };
        Some(
            "--skip-bench only re-renders the last processed sha ("@ + last
                + "); the existing criterion tree was not produced by "@ + sha,
        )
    } else {
        None
    }
}

/// May the checkout's criterion tree be re-rendered for `sha`? Its provenance
/// is only known for the last processed one: anything else would record another
/// commit's numbers under this sha.
pub fn check_regen(
    tree_exists: bool,
    criterion_dir: &str,
    last_seen_sha: &Option<String>,
    sha: &str,
) -> (r: Result<(), String>)
    ensures
        match r {
            Ok(_) => regen_fault(tree_exists, criterion_dir@, text::opt_view(*last_seen_sha), sha@)
                is None,
            Err(e) => regen_fault(tree_exists, criterion_dir@, text::opt_view(*last_seen_sha), sha@)
                == Some(e@),
        },
{
    if !tree_exists {
        return Err(no_tree(criterion_dir));
    }
    let last: &str = match last_seen_sha {
        Some(s) => {
            if text::same(s.as_str(), sha) {
                return Ok(());
            }
            s.as_str()
        },
        None => "<none>",
    };
    Err(
        text::cat4(
            "--skip-bench only re-renders the last processed sha (",
            last,
            "); the existing criterion tree was not produced by ",
            sha,
        ),
    )
}

/// Are these the failed-target markers and the instructions data of a record?
pub open spec fn is_carried(
    record: CommitRecord,
    failed: Seq<String>,
    instr: Option<CollectOutcome>,
) -> bool {
    let counts = storage::stored_counts(record.groups, record.groups.keys().len());
    &&& text::views(failed) == text::views(record.failed_targets@)
    &&& match instr {
        Some(CollectOutcome::Collected(c)) => instructions::row_views(c.rows@) == counts
            && c.failed_targets@ == record.instr_failures() && (counts.len() > 0
            || record.instr_failures().len() > 0),
        Some(CollectOutcome::Skipped(_)) => false,
        None => counts.len() == 0 && record.instr_failures().len() == 0,
    }
}

/// What a re-rendered run takes over from the sha's previous record: its
/// failed-target markers and its instructions data, which is never collected
/// anew.
pub fn carry_forward(existing: &Option<CommitRecord>) -> (r: (Vec<String>, Option<CollectOutcome>))
    ensures
        match *existing {
            Some(record) => is_carried(record, r.0@, r.1),
            None => r.0@.len() == 0 && r.1 is None,
        },
{
    match existing {
        Some(record) => {
            let instr: Option<CollectOutcome> = match record.instr_collection() {
                Some(c) => Some(CollectOutcome::Collected(c)),
                None => None,
            };
            (text::copy_list(&record.failed_targets), instr)
        },
        None => {
            let failed: Vec<String> = Vec::new();
            assert(text::views(failed@) =~= Seq::empty());
            (failed, None)
        },
    }
}

/// What a per-commit run asks for next.
#[derive(Debug, Clone, PartialEq)]
pub enum RunAction {
    /// Take the repo's lock, and hold it to the end of the run.
    Lock,
    /// Clone the repo, or reuse its checkout.
    EnsureCheckout,
    /// Bring the checkout to the run's commit.
    CheckOut,
    /// Read the commit's date and toolchain.
    ReadMeta,
    /// Look for a criterion tree in the checkout.
    FindTree,
    /// Read which sha was processed last.
    ReadLastSeen,
    /// Read the record that is stored for the commit.
    ReadRecord,
    /// Remove the checkout's criterion tree, if there is one: stale results of
    /// another commit must not leak into this run.
    ClearTree,
    /// Bench the next target; `succeeded` tells how those before it went.
    Bench { succeeded: Vec<bool> },
    /// Collect the instructions lane.
    Collect { failed_targets: Vec<String> },
    /// Process the criterion tree: the run's last step.
    Process { failed_targets: Vec<String>, instr: Option<CollectOutcome> },
    /// End the run with this error.
    Fail(String),
}

/// What came of an action.
#[derive(Debug, Clone, PartialEq)]
pub enum RunEvent {
    /// It was done.
    Done,
    /// It failed, and with it the run.
    Failed(String),
    /// Is there a criterion tree?
    Tree(bool),
    /// The sha that was processed last.
    LastSeen(Option<String>),
    /// The stored record, where there is one that can be read.
    Record(Option<CommitRecord>),
    /// Did the target run?
    Benched(bool),
    /// What the instructions lane brought.
    Collected(CollectOutcome),
}

/// Is `event` an answer to `asked`?
pub open spec fn answers(asked: RunAction, event: RunEvent) -> bool {
    match asked {
        RunAction::Lock
        | RunAction::EnsureCheckout
        | RunAction::CheckOut
        | RunAction::ReadMeta
        | RunAction::ClearTree => event is Done || event is Failed,
        RunAction::FindTree => event is Tree,
        RunAction::ReadLastSeen => event is LastSeen || event is Failed,
        RunAction::ReadRecord => event is Record,
        RunAction::Bench { .. } => event is Benched,
        RunAction::Collect { .. } => event is Collected,
        RunAction::Process { .. } => false,
        RunAction::Fail(_) => false,
    }
}

pub open spec fn fails_with(next: RunAction, error: Seq<char>) -> bool {
    next matches RunAction::Fail(e) && e@ == error
}

pub open spec fn benches_after(next: RunAction, succeeded: Seq<bool>) -> bool {
    next matches RunAction::Bench { succeeded: s } && s@ == succeeded
}

/// The step after `succeeded.len()` targets: the next target; after the last
/// one the instructions lane where it is configured, and then the results. A
/// run ends where every target failed.
pub open spec fn is_after_benches(repo: RepoConfig, succeeded: Seq<bool>, next: RunAction) -> bool {
    let targets = repo.bench_targets@;
    let failed = failed_spec(targets, succeeded);
    if succeeded.len() < targets.len() {
        benches_after(next, succeeded)
    } else if failed.len() == targets.len() {
        fails_with(next, all_failed_text(targets.len()))
    } else if repo.instructions is Some {
        next matches RunAction::Collect { failed_targets } && text::views(failed_targets@) == failed
    } else {
        next matches RunAction::Process { failed_targets, instr } && text::views(failed_targets@)
            == failed && instr is None
    }
}

/// Is `next` what a run asks for after `event` has answered `asked`? Checkout
/// and metadata come first. A regeneration then takes the tree as it is, of the
/// last processed sha alone, and what the stored record says; any other run
/// clears the tree and benches every target.
pub open spec fn is_next_action(
    repo: RepoConfig,
    sha: Seq<char>,
    skip_bench: bool,
    criterion_dir: Seq<char>,
    asked: RunAction,
    event: RunEvent,
    next: RunAction,
) -> bool {
    if !answers(asked, event) {
        next == asked
    } else {
        match event {
            RunEvent::Failed(e) => fails_with(next, e@),
            RunEvent::Done => match asked {
                RunAction::Lock => next is EnsureCheckout,
                RunAction::EnsureCheckout => next is CheckOut,
                RunAction::CheckOut => next is ReadMeta,
                RunAction::ReadMeta => if skip_bench {
                    next is FindTree
                } else {
                    next is ClearTree
                },
                _ => is_after_benches(repo, Seq::empty(), next),
            },
            RunEvent::Tree(found) => if found {
                next is ReadLastSeen
            } else {
                fails_with(next, no_tree_text(criterion_dir))
            },
            RunEvent::LastSeen(last) => match regen_fault(
                true,
                criterion_dir,
                text::opt_view(last),
                sha,
            ) {
                Some(fault) => fails_with(next, fault),
                None => next is ReadRecord,
            },
            RunEvent::Record(record) => next matches RunAction::Process { failed_targets, instr }
                && match record {
                Some(record) => is_carried(record, failed_targets@, instr),
                None => failed_targets@.len() == 0 && instr is None,
            },
            RunEvent::Benched(ok) => is_after_benches(
                repo,
                asked->succeeded@.push(ok),
                next,
            ),
            RunEvent::Collected(outcome) => next == (RunAction::Process {
                failed_targets: asked->Collect_failed_targets,
                instr: Some(outcome),
            }),
        }
    }
}

fn after_benches(repo: &RepoConfig, succeeded: Vec<bool>) -> (next: RunAction)
    ensures
        is_after_benches(*repo, succeeded@, next),
{
    if succeeded.len() < repo.bench_targets.len() {
        return RunAction::Bench { succeeded };
    }
    match bench_outcome(&repo.bench_targets, &succeeded) {
        Err(e) => RunAction::Fail(e),
        Ok(failed_targets) => match repo.instructions {
            Some(_) => RunAction::Collect { failed_targets },
            None => RunAction::Process { failed_targets, instr: None },
        },
    }
}

/// The complete `run` of one commit, step by step: from what was asked for and
/// what came of it to what is asked for next. A run starts with
/// `RunAction::Lock`; an event that does not answer the action leaves it asked.
pub fn run_commit_pipeline(
    repo: &RepoConfig,
    sha: &str,
    skip_bench: bool,
    criterion_dir: &str,
    asked: RunAction,
    event: RunEvent,
) -> (next: RunAction)
    ensures
        is_next_action(*repo, sha@, skip_bench, criterion_dir@, asked, event, next),
{
    match (asked, event) {
        (RunAction::Lock, RunEvent::Done) => RunAction::EnsureCheckout,
        (RunAction::EnsureCheckout, RunEvent::Done) => RunAction::CheckOut,
        (RunAction::CheckOut, RunEvent::Done) => RunAction::ReadMeta,
        (RunAction::ReadMeta, RunEvent::Done) => {
            if skip_bench {
                RunAction::FindTree
            } else {
                RunAction::ClearTree
            }
        },
        (RunAction::Lock, RunEvent::Failed(e)) => RunAction::Fail(e),
        (RunAction::EnsureCheckout, RunEvent::Failed(e)) => RunAction::Fail(e),
        (RunAction::CheckOut, RunEvent::Failed(e)) => RunAction::Fail(e),
        (RunAction::ReadMeta, RunEvent::Failed(e)) => RunAction::Fail(e),
        (RunAction::ClearTree, RunEvent::Failed(e)) => RunAction::Fail(e),
        (RunAction::ReadLastSeen, RunEvent::Failed(e)) => RunAction::Fail(e),
        (RunAction::FindTree, RunEvent::Tree(found)) => {
            if found {
                RunAction::ReadLastSeen
            } else {
                RunAction::Fail(no_tree(criterion_dir))
            }
        },
        (RunAction::ReadLastSeen, RunEvent::LastSeen(last)) => {
            match check_regen(true, criterion_dir, &last, sha) {
                Ok(_) => RunAction::ReadRecord,
                Err(e) => RunAction::Fail(e),
            }
        },
        (RunAction::ReadRecord, RunEvent::Record(record)) => {
            let (failed_targets, instr) = carry_forward(&record);
            RunAction::Process { failed_targets, instr }
        },
        (RunAction::ClearTree, RunEvent::Done) => after_benches(repo, Vec::new()),
        (RunAction::Bench { succeeded }, RunEvent::Benched(ok)) => {
            let mut succeeded: Vec<bool> = succeeded;
            succeeded.push(ok);
            after_benches(repo, succeeded)
        },
        (RunAction::Collect { failed_targets }, RunEvent::Collected(outcome)) => {
            RunAction::Process { failed_targets, instr: Some(outcome) }
        },
        (asked, _) => asked,
    }
}

// ---------------------------------------------------------------------------
// Laws
// ---------------------------------------------------------------------------

/// Are these the actions of a run, each after the first asked for once the one
/// before it was answered?
pub open spec fn is_run(
    repo: RepoConfig,
    sha: Seq<char>,
    skip_bench: bool,
    criterion_dir: Seq<char>,
    actions: Seq<RunAction>,
    events: Seq<RunEvent>,
) -> bool {
    &&& actions.len() == events.len() + 1
    &&& actions[0] is Lock
    &&& forall|i: int|
        0 <= i < events.len() ==> answers(actions[i], #[trigger] events[i]) && is_next_action(
            repo,
            sha,
            skip_bench,
            criterion_dir,
            actions[i],
            events[i],
            actions[i + 1],
        )
}

/// A regeneration measures nothing: it never clears the tree, benches a target
/// or collects the instructions lane. It comes to its results only for the sha
/// that was processed last, and with what the stored record says.
pub proof fn law_a_regeneration_measures_nothing(
    repo: RepoConfig,
    sha: Seq<char>,
    criterion_dir: Seq<char>,
    actions: Seq<RunAction>,
    events: Seq<RunEvent>,
    at: int,
)
    requires
        is_run(repo, sha, true, criterion_dir, actions, events),
        0 <= at < actions.len(),
    ensures
        !(actions[at] is ClearTree || actions[at] is Bench || actions[at] is Collect),
        actions[at] is Process ==> at == 7 && events[4] == RunEvent::Tree(true) && (events[5] matches
            RunEvent::LastSeen(Some(last)) && last@ == sha) && (events[6] matches RunEvent::Record(
            record,
        ) && match record {
            Some(record) => is_carried(
                record,
                actions[at]->Process_failed_targets@,
                actions[at]->instr,
            ),
            None => actions[at]->Process_failed_targets@.len() == 0 && actions[at]->instr is None,
        }),
{
    lemma_regeneration_order(repo, sha, criterion_dir, actions, events, at);
    if actions[at] is Process {
        lemma_regeneration_order(repo, sha, criterion_dir, actions, events, 6);
        lemma_regeneration_order(repo, sha, criterion_dir, actions, events, 5);
        assert(answers(actions[6], events[6]));
        assert(answers(actions[5], events[5]));
        assert(answers(actions[4], events[4]));
    }
}

/// The place of an action in a regeneration.
proof fn lemma_regeneration_order(
    repo: RepoConfig,
    sha: Seq<char>,
    criterion_dir: Seq<char>,
    actions: Seq<RunAction>,
    events: Seq<RunEvent>,
    at: int,
)
    requires
        is_run(repo, sha, true, criterion_dir, actions, events),
        0 <= at < actions.len(),
    ensures
        match actions[at] {
            RunAction::Lock => at == 0,
            RunAction::EnsureCheckout => at == 1,
            RunAction::CheckOut => at == 2,
            RunAction::ReadMeta => at == 3,
            RunAction::FindTree => at == 4,
            RunAction::ReadLastSeen => at == 5 && actions[4] is FindTree,
            RunAction::ReadRecord => at == 6 && actions[5] is ReadLastSeen,
            RunAction::Process { .. } => at == 7 && actions[6] is ReadRecord,
            RunAction::Fail(_) => true,
            _ => false,
        },
    decreases at,
{
    if at > 0 {
        lemma_regeneration_order(repo, sha, criterion_dir, actions, events, at - 1);
        assert(answers(actions[at - 1], events[at - 1]));
    }
}

/// How the targets of a run went that were benched in its first `n` bench steps.
pub open spec fn bench_results(events: Seq<RunEvent>, n: nat) -> Seq<bool> {
    Seq::new(n, |k: int| events[5 + k] == RunEvent::Benched(true))
}

/// A run benches every target once, in the configured order, before its
/// instructions lane and its results; and the targets that are marked as failed
/// are those whose bench failed, never all of them.
pub proof fn law_every_target_is_benched_once(
    repo: RepoConfig,
    sha: Seq<char>,
    criterion_dir: Seq<char>,
    actions: Seq<RunAction>,
    events: Seq<RunEvent>,
    at: int,
)
    requires
        is_run(repo, sha, false, criterion_dir, actions, events),
        0 <= at < actions.len(),
    ensures
        actions[at] matches RunAction::Bench { succeeded } ==> at == 5 + succeeded@.len()
            && succeeded@ == bench_results(events, succeeded@.len()),
        actions[at] is Collect || actions[at] is Process ==> {
            let n = repo.bench_targets@.len();
            let failed = if actions[at] is Collect {
                actions[at]->Collect_failed_targets@
            } else {
                actions[at]->Process_failed_targets@
            };
            &&& at >= 5 + n
            &&& forall|k: int| 5 <= k < 5 + n ==> #[trigger] actions[k] is Bench
            &&& text::views(failed) == failed_spec(repo.bench_targets@, bench_results(events, n))
            &&& failed.len() < n
        },
{
    lemma_bench_order(repo, sha, criterion_dir, actions, events, at);
}

/// Are these the failed targets of a run that has benched them all?
spec fn is_benched(
    repo: RepoConfig,
    actions: Seq<RunAction>,
    events: Seq<RunEvent>,
    failed: Seq<String>,
) -> bool {
    let n = repo.bench_targets@.len();
    &&& forall|k: int| 5 <= k < 5 + n ==> #[trigger] actions[k] is Bench
    &&& text::views(failed) == failed_spec(repo.bench_targets@, bench_results(events, n))
    &&& failed.len() < n
}

/// The place of an action in a run that benches.
proof fn lemma_bench_order(
    repo: RepoConfig,
    sha: Seq<char>,
    criterion_dir: Seq<char>,
    actions: Seq<RunAction>,
    events: Seq<RunEvent>,
    at: int,
)
    requires
        is_run(repo, sha, false, criterion_dir, actions, events),
        0 <= at < actions.len(),
    ensures
        match actions[at] {
            RunAction::Lock => at == 0,
            RunAction::EnsureCheckout => at == 1,
            RunAction::CheckOut => at == 2,
            RunAction::ReadMeta => at == 3,
            RunAction::ClearTree => at == 4,
            RunAction::Bench { succeeded } => at == 5 + succeeded@.len() && succeeded@
                == bench_results(events, succeeded@.len()) && succeeded@.len()
                < repo.bench_targets@.len() && forall|k: int|
                5 <= k <= at ==> #[trigger] actions[k] is Bench,
            RunAction::Collect { failed_targets } => at == 5 + repo.bench_targets@.len()
                && is_benched(repo, actions, events, failed_targets@),
            RunAction::Process { failed_targets, .. } => at >= 5 + repo.bench_targets@.len()
                && is_benched(repo, actions, events, failed_targets@),
            RunAction::Fail(_) => true,
            _ => false,
        },
    decreases at,
{
    if at > 0 {
        lemma_bench_order(repo, sha, criterion_dir, actions, events, at - 1);
        assert(answers(actions[at - 1], events[at - 1]));
        let targets = repo.bench_targets@;
        match actions[at - 1] {
            RunAction::ClearTree => {
                assert(bench_results(events, 0) =~= Seq::empty());
                lemma_failed_are_targets(targets, Seq::empty());
            },
            RunAction::Bench { succeeded } => {
                let done = succeeded@.push(events[at - 1]->Benched_0);
                assert(done =~= bench_results(events, done.len()));
                lemma_failed_are_targets(targets, done);
            },
            _ => {},
        }
    }
}

proof fn lemma_failed_are_targets(targets: Seq<String>, succeeded: Seq<bool>)
    ensures
        failed_spec(targets, succeeded).len() <= targets.len(),
    decreases targets.len(),
{
    if targets.len() > 0 {
        lemma_failed_are_targets(targets.drop_last(), succeeded);
    }
}

/// The row key of an alert event.
pub open spec fn event_key(e: EventView) -> Option<Seq<char>> {
    match e {
        EventView::Regression { row_key, .. } => Some(row_key),
        EventView::Recovery { row_key, .. } => Some(row_key),
        EventView::Digest { .. } => None,
    }
}

pub open spec fn event_metric(e: EventView) -> Option<Seq<char>> {
    match e {
        EventView::Regression { metric, .. } => metric,
        EventView::Recovery { metric, .. } => metric,
        EventView::Digest { .. } => None,
    }
}

pub open spec fn event_annotation(e: EventView) -> Option<InstrAnnotation> {
    match e {
        EventView::Regression { instructions, .. } => instructions,
        EventView::Recovery { instructions, .. } => instructions,
        EventView::Digest { .. } => None,
    }
}

/// Only headline rows emit events, each under its own key, with the lane's
/// marker and that row's annotation.
pub proof fn law_only_headline_rows_emit(
    rows: Seq<LaneRowView>,
    histories: Map<Seq<char>, HistoryView>,
    th: Thresholds,
    window: nat,
    lane: Lane,
    headline: Seq<Seq<char>>,
    ctx: Option<AnnotationView>,
    i: int,
)
    requires
        0 <= i < events_after(rows, histories, th, window, lane, headline, ctx).len(),
    ensures
        ({
            let e = events_after(rows, histories, th, window, lane, headline, ctx)[i];
            &&& exists|k: int|
                0 <= k < rows.len() && config::any_star_match(
                    headline,
                    (#[trigger] rows[k]).subject,
                ) && event_key(e) == Some(rows[k].key) && event_annotation(e) == annotation_opt(
                    ctx,
                    rows[k].key,
                )
            &&& event_metric(e) == lane.metric_spec()
        }),
    decreases rows.len(),
{
    let front = rows.drop_last();
    let before = events_after(front, histories, th, window, lane, headline, ctx);
    let e = events_after(rows, histories, th, window, lane, headline, ctx)[i];
    if rows.len() > 0 {
        if i < before.len() {
            law_only_headline_rows_emit(
                front,
                histories,
                th,
                window,
                lane,
                headline,
                ctx,
                i,
            );
            let k = choose|k: int|
                0 <= k < front.len() && config::any_star_match(
                    headline,
                    (#[trigger] front[k]).subject,
                ) && event_key(e) == Some(front[k].key) && event_annotation(e) == annotation_opt(
                    ctx,
                    front[k].key,
                );
            assert(rows[k] == front[k]);
        } else {
            let k = rows.len() - 1;
            assert(rows[k] == rows.last());
        }
    }
}

/// Walltime events carry no marker and always an annotation; instructions
/// events carry their marker and none.
pub proof fn law_event_shapes(
    ratios: Seq<WorkloadRatios>,
    instr_ratios: Option<Vec<InstrWorkloadRatios>>,
    settings: Settings,
    headline: Seq<Seq<char>>,
    before: State,
    i: int,
)
    requires
        0 <= i < run_events(ratios, instr_ratios, settings, headline, before).len(),
    ensures
        ({
            let e = run_events(ratios, instr_ratios, settings, headline, before)[i];
            ||| event_metric(e) is None && event_annotation(e) is Some
            ||| event_metric(e) == Some("instructions"@) && event_annotation(e) is None
        }),
        // Walltime events come first.
        forall|j: int|
            0 <= j < i && event_metric(
                run_events(ratios, instr_ratios, settings, headline, before)[i],
            ) is None ==> event_metric(
                #[trigger] run_events(ratios, instr_ratios, settings, headline, before)[j],
            ) is None,
{
    let all = run_events(ratios, instr_ratios, settings, headline, before);
    let window = settings.rolling_window as nat;
    let ctx = Some(run_annotations(instr_ratios, settings, before));
    let wall = events_after(
        lane_rows(ratios),
        state::histories(before.rows@),
        settings.thresholds_spec(Lane::Walltime),
        window,
        Lane::Walltime,
        headline,
        ctx,
    );
    let counts = events_after(
        instr_lane_rows(instr_ratios),
        state::histories(before.instr_rows@),
        settings.thresholds_spec(Lane::Instructions),
        window,
        Lane::Instructions,
        headline,
        None,
    );
    assert(all == wall + counts);
    assert forall|j: int| 0 <= j < all.len() implies (if j < wall.len() {
        event_metric(#[trigger] all[j]) is None && event_annotation(all[j]) is Some
    } else {
        event_metric(all[j]) == Some("instructions"@) && event_annotation(all[j]) is None
    }) by {
        if j < wall.len() {
            law_only_headline_rows_emit(
                lane_rows(ratios),
                state::histories(before.rows@),
                settings.thresholds_spec(Lane::Walltime),
                window,
                Lane::Walltime,
                headline,
                ctx,
                j,
            );
            assert(all[j] == wall[j]);
        } else {
            law_only_headline_rows_emit(
                instr_lane_rows(instr_ratios),
                state::histories(before.instr_rows@),
                settings.thresholds_spec(Lane::Instructions),
                window,
                Lane::Instructions,
                headline,
                None,
                j - wall.len(),
            );
            assert(all[j] == counts[j - wall.len()]);
        }
    }
}

/// The cross-check is symmetric: a count that moved by the threshold or more is
/// up or down by its direction, and nothing else is.
pub proof fn law_cross_check_is_symmetric(delta: Double, pct: Double)
    requires
        !delta.nan(),
        !pct.nan(),
        (Double { bits: 0 }).lt_spec(pct),
    ensures
        verdict_spec(delta, pct) is Up <==> pct.le_spec(delta),
        verdict_spec(delta, pct) is Down <==> pct.le_spec(delta.negate_spec()),
        !(verdict_spec(delta, pct) is Missing),
{
    let minus = delta.negate_spec();
    let low = pct.negate_spec();
    assert(minus.mag() == delta.mag() && minus.neg() == !delta.neg());
    assert(low.mag() == pct.mag() && low.neg() == !pct.neg());
    assert(minus.order() == -delta.order());
    assert(low.order() == -pct.order());
}

/// Rows outside a run keep their histories.
pub proof fn law_unseen_rows_keep_their_history(
    rows: Seq<LaneRowView>,
    histories: Map<Seq<char>, HistoryView>,
    th: Thresholds,
    window: nat,
    key: Seq<char>,
)
    requires
        forall|i: int| 0 <= i < rows.len() ==> (#[trigger] rows[i]).key != key,
    ensures
        state::history_of(rows_after(rows, histories, th, window), key) == state::history_of(
            histories,
            key,
        ),
    decreases rows.len(),
{
    if rows.len() > 0 {
        let front = rows.drop_last();
        assert forall|i: int| 0 <= i < front.len() implies (#[trigger] front[i]).key != key by {
            assert(rows[i] == front[i]);
        }
        law_unseen_rows_keep_their_history(front, histories, th, window, key);
        assert(rows[rows.len() - 1].key != key);
    }
}

/// Every row with a ratio has a history from then on, headline or not.
pub proof fn law_every_checked_row_has_a_history(
    rows: Seq<LaneRowView>,
    histories: Map<Seq<char>, HistoryView>,
    th: Thresholds,
    window: nat,
    i: int,
)
    requires
        0 <= i < rows.len(),
        window >= 1,
    ensures
        rows_after(rows, histories, th, window).dom().contains(rows[i].key),
        rows_after(rows, histories, th, window)[rows[i].key].ratios.len() > 0,
    decreases rows.len(),
{
    let front = rows.drop_last();
    if i < front.len() {
        assert(rows[i] == front[i]);
        law_every_checked_row_has_a_history(front, histories, th, window, i);
    }
}

/// A run of rows without history establishes their baselines and emits
/// nothing.
pub proof fn law_rows_without_history_emit_nothing(
    rows: Seq<LaneRowView>,
    histories: Map<Seq<char>, HistoryView>,
    th: Thresholds,
    window: nat,
    lane: Lane,
    headline: Seq<Seq<char>>,
    ctx: Option<AnnotationView>,
)
    requires
        forall|i: int|
            0 <= i < rows.len() ==> state::history_of(
                histories,
                (#[trigger] rows[i]).key,
            ).ratios.len() == 0,
        forall|i: int, j: int|
            0 <= i < j < rows.len() ==> (#[trigger] rows[i]).key != (#[trigger] rows[j]).key,
    ensures
        events_after(rows, histories, th, window, lane, headline, ctx).len() == 0,
    decreases rows.len(),
{
    if rows.len() > 0 {
        let front = rows.drop_last();
        let last = rows.len() - 1;
        assert forall|i: int| 0 <= i < front.len() implies state::history_of(
            histories,
            (#[trigger] front[i]).key,
        ).ratios.len() == 0 by {
            assert(rows[i] == front[i]);
        }
        assert forall|i: int, j: int| 0 <= i < j < front.len() implies (
        #[trigger] front[i]).key != (#[trigger] front[j]).key by {
            assert(rows[i] == front[i] && rows[j] == front[j]);
        }
        law_rows_without_history_emit_nothing(front, histories, th, window, lane, headline, ctx);
        assert forall|i: int| 0 <= i < front.len() implies (#[trigger] front[i]).key
            != rows[last].key by {
            assert(rows[i] == front[i]);
        }
        law_unseen_rows_keep_their_history(front, histories, th, window, rows[last].key);
    }
}

/// A run without a collection leaves the instructions lane's histories alone
/// and emits no events for it.
pub proof fn law_lane_off_runs_are_walltime_only(
    ratios: Seq<WorkloadRatios>,
    settings: Settings,
    headline: Seq<Seq<char>>,
    before: State,
    after: State,
    i: int,
)
    requires
        is_folded_state(after, before, ratios, None, settings),
    ensures
        state::histories(after.instr_rows@) == state::histories(before.instr_rows@),
        0 <= i < run_events(ratios, None, settings, headline, before).len() ==> event_metric(
            run_events(ratios, None, settings, headline, before)[i],
        ) is None,
{
    if 0 <= i < run_events(ratios, None, settings, headline, before).len() {
        let all = run_events(ratios, None, settings, headline, before);
        let wall = events_after(
            lane_rows(ratios),
            state::histories(before.rows@),
            settings.thresholds_spec(Lane::Walltime),
            settings.rolling_window as nat,
            Lane::Walltime,
            headline,
            Some(run_annotations(None, settings, before)),
        );
        assert(all =~= wall);
        law_only_headline_rows_emit(
            lane_rows(ratios),
            state::histories(before.rows@),
            settings.thresholds_spec(Lane::Walltime),
            settings.rolling_window as nat,
            Lane::Walltime,
            headline,
            Some(run_annotations(None, settings, before)),
            i,
        );
    }
}

/// Running the sha that was just processed again leaves the regression state
/// alone and emits nothing, whatever its results are this time.
pub proof fn law_a_retried_run_changes_nothing(
    first: RunPlan,
    second: RunPlan,
    repo: RepoConfig,
    settings: Settings,
    store: RepoStore,
    meta: CommitMeta,
    rows: Seq<Row>,
    failed: Seq<String>,
    instr: Option<CollectOutcome>,
    retried_rows: Seq<Row>,
    retried_failed: Seq<String>,
    retried_instr: Option<CollectOutcome>,
    before: State,
)
    requires
        is_run_plan(first, repo, settings, store, rows, meta, failed, instr, before),
        is_run_plan(
            second,
            repo,
            settings,
            store,
            retried_rows,
            meta,
            retried_failed,
            retried_instr,
            first.state,
        ),
    ensures
        second.is_rerun,
        second.events@.len() == 0,
        !second.digest_due,
        second.state.rows == first.state.rows,
        second.state.instr_rows == first.state.instr_rows,
        second.state.commits_since_digest == first.state.commits_since_digest,
        second.state.last_seen_sha matches Some(sha) && sha@ == meta.sha@,
{
}

/// Are these the actions at the end of a run, each after the first asked for
/// once the one before it was answered?
pub open spec fn is_finish(
    is_rerun: bool,
    digest_due: bool,
    lane_fault: Option<Seq<char>>,
    actions: Seq<FinishAction>,
    events: Seq<FinishEvent>,
) -> bool {
    &&& actions.len() == events.len() + 1
    &&& actions[0] is WriteRecord
    &&& forall|i: int|
        0 <= i < events.len() ==> settles(actions[i], #[trigger] events[i]) && is_next_write(
            is_rerun,
            digest_due,
            lane_fault,
            actions[i],
            events[i],
            actions[i + 1],
        )
}

/// The end of a run writes record and artifacts, builds a digest that is due,
/// and then writes events, state and pointer, each once and in this order; a
/// re-run writes no events. It goes on only where nothing failed, completes
/// only when all is written, and fails over a required lane only then.
pub proof fn law_writes_come_in_order(
    is_rerun: bool,
    digest_due: bool,
    lane_fault: Option<Seq<char>>,
    actions: Seq<FinishAction>,
    events: Seq<FinishEvent>,
    at: int,
)
    requires
        is_finish(is_rerun, digest_due, lane_fault, actions, events),
        0 <= at < actions.len(),
    ensures
        ({
            let digest = if digest_due {
                2int
            } else {
                1int
            };
            let write = if is_rerun {
                digest
            } else {
                digest + 1
            };
            match actions[at] {
                FinishAction::WriteRecord => at == 0,
                FinishAction::WriteArtifacts => at == 1,
                FinishAction::BuildDigest => digest_due && at == digest,
                FinishAction::WriteEvents => !is_rerun && at == write,
                FinishAction::SaveState => at == write + 1,
                FinishAction::WriteLatest => at == write + 2,
                FinishAction::Finish => at == write + 3 && lane_fault is None,
                FinishAction::Fail(_) => at > 0 && (events[at - 1] is Failed || at == write + 3
                    && actions[at - 1] is WriteLatest && lane_fault is Some),
            }
        }),
        at > 0 && actions[at] !is Fail ==> events[at - 1] !is Failed,
    decreases at,
{
    if at > 0 {
        law_writes_come_in_order(is_rerun, digest_due, lane_fault, actions, events, at - 1);
        assert(settles(actions[at - 1], events[at - 1]));
    }
}

/// A digest whose build failed is due again at the next commit.
pub proof fn law_a_failed_digest_is_retried(
    plan: RunPlan,
    settled: RunPlan,
    next: RunPlan,
    repo: RepoConfig,
    settings: Settings,
    store: RepoStore,
    rows: Seq<Row>,
    meta: CommitMeta,
    failed: Seq<String>,
    instr: Option<CollectOutcome>,
    before: State,
    next_rows: Seq<Row>,
    next_meta: CommitMeta,
    next_failed: Seq<String>,
    next_instr: Option<CollectOutcome>,
    error: String,
)
    requires
        is_run_plan(plan, repo, settings, store, rows, meta, failed, instr, before),
        plan.digest_due,
        is_settled(plan, settled, store, Err(error)),
        is_run_plan(
            next,
            repo,
            settings,
            store,
            next_rows,
            next_meta,
            next_failed,
            next_instr,
            settled.state,
        ),
        next_meta.sha@ != meta.sha@,
    ensures
        settled.state == plan.state,
        settled.events@ == plan.events@,
        next.digest_due,
{
}

} // verus!
