//! What a run checks, reports and leaves behind.
use crate::charts::SubjectColors;
use crate::compare;
use crate::config;
use crate::config::{RepoConfig, Settings};
use crate::criterion_results;
use crate::criterion_results::{Row, WorkloadRatios};
use crate::double;
use crate::double::Double;
use crate::git::CommitMeta;
use crate::instructions::{CollectOutcome, InstrWorkloadRatios};
use crate::lane::Lane;
use crate::laws::numbers;
use crate::laws::texts;
use crate::paths;
use crate::pipeline;
use crate::pipeline::{AnnotationView, EventView, LaneRowView, LaneWorkloadRatios, Pick, RunPlan};
use crate::sorting;
use crate::sorting::Ranked;
use crate::state;
use crate::state::{HistoryView, State, Thresholds};
use crate::storage::RepoStore;
use crate::text;
use vstd::prelude::*;

verus! {

// ---------------------------------------------------------------------------
// Rows
// ---------------------------------------------------------------------------

/// `group/subject`, and the workload behind it where there is one.
pub open spec fn keyed_as(
    key: Seq<char>,
    group: Seq<char>,
    subject: Seq<char>,
    workload: Seq<char>,
) -> bool {
    if workload.len() > 0 {
        key == group + "/"@ + subject + "/"@ + workload
    } else {
        key == group + "/"@ + subject
    }
}

/// Is this the lane's row of the `k`th subject of the workload?
pub open spec fn is_row_of<T: LaneWorkloadRatios>(row: LaneRowView, wl: T, k: int) -> bool {
    &&& 0 <= k < wl.subject_ratios().len()
    &&& row.subject == wl.subject_ratios()[k].0@
    &&& wl.subject_ratios()[k].1 == Some(row.ratio)
    &&& keyed_as(row.key, wl.group_of(), row.subject, wl.workload_of())
}

spec fn is_some_row<T: LaneWorkloadRatios>(row: LaneRowView, wl: T) -> bool {
    exists|k: int| #[trigger] is_row_of(row, wl, k)
}

spec fn is_listed<T: LaneWorkloadRatios>(rows: Seq<LaneRowView>, wl: T, k: int) -> bool {
    exists|i: int| 0 <= i < rows.len() && is_row_of(#[trigger] rows[i], wl, k)
}

proof fn lemma_workload_rows<T: LaneWorkloadRatios>(wl: T, n: nat)
    requires
        n <= wl.subject_ratios().len(),
    ensures
        forall|i: int|
            0 <= i < pipeline::workload_lane_rows(wl, n).len() ==> is_some_row(
                #[trigger] pipeline::workload_lane_rows(wl, n)[i],
                wl,
            ),
        forall|k: int|
            0 <= k < n && (#[trigger] wl.subject_ratios()[k]).1 is Some ==> is_listed(
                pipeline::workload_lane_rows(wl, n),
                wl,
                k,
            ),
    decreases n,
{
    if n > 0 {
        let m = (n - 1) as nat;
        lemma_workload_rows(wl, m);
        let before = pipeline::workload_lane_rows(wl, m);
        let rows = pipeline::workload_lane_rows(wl, n);
        assert forall|i: int| 0 <= i < rows.len() implies is_some_row(#[trigger] rows[i], wl) by {
            if i < before.len() {
                assert(rows[i] == before[i]);
                assert(is_some_row(before[i], wl));
            } else {
                assert(is_row_of(rows[i], wl, m as int));
            }
        }
        assert forall|k: int|
            0 <= k < n && (#[trigger] wl.subject_ratios()[k]).1 is Some implies is_listed(
            rows,
            wl,
            k,
        ) by {
            if k < m {
                assert(is_listed(before, wl, k));
                let i = choose|i: int|
                    0 <= i < before.len() && is_row_of(#[trigger] before[i], wl, k);
                assert(rows[i] == before[i]);
            } else {
                assert(is_row_of(rows[before.len() as int], wl, k));
            }
        }
    }
}

/// A lane checks the rows with a ratio, each under its own key: those and no
/// others.
pub proof fn law_lanes_check_the_rows_with_a_ratio<T: LaneWorkloadRatios>(
    ratios: Seq<T>,
    i: int,
    w: int,
    k: int,
)
    ensures
        ({
            let rows = pipeline::lane_rows(ratios);
            &&& 0 <= i < rows.len() ==> exists|v: int, j: int|
                0 <= v < ratios.len() && is_row_of(rows[i], #[trigger] ratios[v], j)
                    && #[trigger] at(j)
            &&& 0 <= w < ratios.len() && 0 <= k < ratios[w].subject_ratios().len()
                && ratios[w].subject_ratios()[k].1 is Some ==> exists|j: int|
                0 <= j < rows.len() && is_row_of(#[trigger] rows[j], ratios[w], k)
        }),
    decreases ratios.len(),
{
    if ratios.len() > 0 {
        let front = ratios.drop_last();
        let n = ratios.len() - 1;
        let before = pipeline::lane_rows(front);
        let here = pipeline::workload_lane_rows(ratios[n], ratios[n].subject_ratios().len());
        let rows = pipeline::lane_rows(ratios);
        assert(rows == before + here);
        law_lanes_check_the_rows_with_a_ratio(front, i, w, k);
        lemma_workload_rows(ratios[n], ratios[n].subject_ratios().len());
        if 0 <= i < rows.len() {
            if i < before.len() {
                let (v, j) = choose|v: int, j: int|
                    0 <= v < front.len() && is_row_of(before[i], #[trigger] front[v], j)
                        && #[trigger] at(j);
                assert(rows[i] == before[i] && ratios[v] == front[v]);
                assert(is_row_of(rows[i], ratios[v], j) && at(j));
            } else {
                assert(rows[i] == here[i - before.len()]);
                assert(is_some_row(here[i - before.len()], ratios[n]));
                let j = choose|j: int| #[trigger]
                    is_row_of(here[i - before.len()], ratios[n], j);
                assert(is_row_of(rows[i], ratios[n], j) && at(j));
            }
        }
        if 0 <= w < ratios.len() && 0 <= k < ratios[w].subject_ratios().len()
            && ratios[w].subject_ratios()[k].1 is Some {
            if w < n {
                assert(front[w] == ratios[w]);
                let j = choose|j: int|
                    0 <= j < before.len() && is_row_of(#[trigger] before[j], front[w], k);
                assert(rows[j] == before[j]);
            } else {
                assert(is_listed(here, ratios[n], k));
                let j = choose|j: int| 0 <= j < here.len() && is_row_of(#[trigger] here[j], ratios[n], k);
                assert(rows[before.len() + j] == here[j]);
            }
        }
    }
}

/// A place in a sequence.
pub open spec fn at(i: int) -> bool {
    true
}

// ---------------------------------------------------------------------------
// Checks
// ---------------------------------------------------------------------------

/// A row whose key no other row of the run shares is held against its own
/// history from before the run, and what the run leaves of it is that history
/// with its ratio judged and folded in.
pub proof fn law_rows_are_held_against_their_own_history(
    rows: Seq<LaneRowView>,
    histories: Map<Seq<char>, HistoryView>,
    th: Thresholds,
    window: nat,
    k: int,
)
    requires
        0 <= k < rows.len(),
        forall|i: int| 0 <= i < rows.len() && i != k ==> (#[trigger] rows[i]).key != rows[k].key,
    ensures
        ({
            let own = state::history_of(histories, rows[k].key);
            &&& state::history_of(
                pipeline::rows_after(rows.take(k), histories, th, window),
                rows[k].key,
            ) == own
            &&& pipeline::rows_after(rows, histories, th, window).dom().contains(rows[k].key)
            &&& pipeline::rows_after(rows, histories, th, window)[rows[k].key] == state::folded(
                own,
                rows[k].ratio,
                state::judge(own, rows[k].ratio, th),
                window,
            )
        }),
    decreases rows.len(),
{
    let key = rows[k].key;
    let n = rows.len() - 1;
    let front = rows.drop_last();
    let before = rows.take(k);
    assert forall|i: int| 0 <= i < before.len() implies (#[trigger] before[i]).key != key by {
        assert(before[i] == rows[i]);
    }
    pipeline::law_unseen_rows_keep_their_history(before, histories, th, window, key);
    if k == n {
        assert(front =~= before);
    } else {
        assert(front[k] == rows[k]);
        assert forall|i: int| 0 <= i < front.len() && i != k implies (#[trigger] front[i]).key
            != front[k].key by {
            assert(front[i] == rows[i]);
        }
        law_rows_are_held_against_their_own_history(front, histories, th, window, k);
        assert(rows[n].key != key);
    }
}

/// Does the event report the check of this row against that history?
pub open spec fn reports(
    e: EventView,
    row: LaneRowView,
    h: HistoryView,
    th: Thresholds,
    metric: Option<Seq<char>>,
) -> bool {
    let m = state::median_spec(h.ratios);
    let over = row.ratio.sub_spec(m).div_spec(m).mul_spec(Double { bits: double::HUNDRED });
    match e {
        EventView::Regression { row_key, baseline_median, current, pct_over, metric: lane, .. } => {
            &&& row_key == row.key
            &&& current == row.ratio
            &&& baseline_median == m
            &&& pct_over == over
            &&& lane == metric
            &&& h.ratios.len() > 0 && !h.regressed && th.regression_pct.lt_spec(over)
        },
        EventView::Recovery { row_key, baseline_median, current, metric: lane, .. } => {
            &&& row_key == row.key
            &&& current == row.ratio
            &&& baseline_median == m
            &&& lane == metric
            &&& h.ratios.len() > 0 && h.regressed && over.le_spec(th.recovery_pct)
        },
        EventView::Digest { .. } => false,
    }
}

/// What a row is held against: its history once the rows in front of it were
/// checked.
pub open spec fn seen_by(
    rows: Seq<LaneRowView>,
    k: int,
    histories: Map<Seq<char>, HistoryView>,
    th: Thresholds,
    window: nat,
) -> HistoryView {
    state::history_of(pipeline::rows_after(rows.take(k), histories, th, window), rows[k].key)
}

/// What events of a lane are marked with.
pub open spec fn marker(lane: Lane) -> Option<Seq<char>> {
    if lane is Instructions {
        Some("instructions"@)
    } else {
        None
    }
}

/// Every event reports one headline row: the ratio that was checked, and the
/// median that it was held against.
pub proof fn law_events_report_what_was_checked(
    rows: Seq<LaneRowView>,
    histories: Map<Seq<char>, HistoryView>,
    th: Thresholds,
    window: nat,
    lane: Lane,
    headline: Seq<Seq<char>>,
    ctx: Option<AnnotationView>,
    i: int,
)
    requires
        0 <= i < pipeline::events_after(rows, histories, th, window, lane, headline, ctx).len(),
    ensures
        exists|k: int|
            0 <= k < rows.len() && config::any_star_match(headline, (#[trigger] rows[k]).subject)
                && reports(
                pipeline::events_after(rows, histories, th, window, lane, headline, ctx)[i],
                rows[k],
                seen_by(rows, k, histories, th, window),
                th,
                marker(lane),
            ),
    decreases rows.len(),
{
    if rows.len() > 0 {
        let front = rows.drop_last();
        let n = rows.len() - 1;
        let before = pipeline::events_after(front, histories, th, window, lane, headline, ctx);
        let all = pipeline::events_after(rows, histories, th, window, lane, headline, ctx);
        if i < before.len() {
            law_events_report_what_was_checked(
                front,
                histories,
                th,
                window,
                lane,
                headline,
                ctx,
                i,
            );
            let k = choose|k: int|
                0 <= k < front.len() && config::any_star_match(
                    headline,
                    (#[trigger] front[k]).subject,
                ) && reports(
                    before[i],
                    front[k],
                    seen_by(front, k, histories, th, window),
                    th,
                    marker(lane),
                );
            assert(rows[k] == front[k]);
            assert(rows.take(k) =~= front.take(k));
            assert(all[i] == before[i]);
        } else {
            assert(rows.take(n) =~= front);
            assert(rows[n] == rows.last());
        }
    }
}

proof fn lemma_row_event(
    row: LaneRowView,
    histories: Map<Seq<char>, HistoryView>,
    th: Thresholds,
    lane: Lane,
    headline: Seq<Seq<char>>,
    ctx: Option<AnnotationView>,
)
    requires
        config::any_star_match(headline, row.subject),
        alerts(state::history_of(histories, row.key), row.ratio, th),
    ensures
        pipeline::row_event(row, histories, th, lane, headline, ctx) is Some,
        reports(
            pipeline::row_event(row, histories, th, lane, headline, ctx)->0,
            row,
            state::history_of(histories, row.key),
            th,
            marker(lane),
        ),
{
}

/// Does one of the events report the check of this row?
pub open spec fn is_reported(
    events: Seq<EventView>,
    row: LaneRowView,
    h: HistoryView,
    th: Thresholds,
    metric: Option<Seq<char>>,
) -> bool {
    exists|i: int| 0 <= i < events.len() && reports(#[trigger] events[i], row, h, th, metric)
}

proof fn lemma_still_reported(
    events: Seq<EventView>,
    e: EventView,
    row: LaneRowView,
    h: HistoryView,
    th: Thresholds,
    metric: Option<Seq<char>>,
)
    requires
        is_reported(events, row, h, th, metric) || reports(e, row, h, th, metric),
    ensures
        is_reported(events.push(e), row, h, th, metric),
{
    let all = events.push(e);
    if is_reported(events, row, h, th, metric) {
        let i = choose|i: int|
            0 <= i < events.len() && reports(#[trigger] events[i], row, h, th, metric);
        assert(all[i] == events[i]);
    } else {
        assert(all[events.len() as int] == e);
    }
}

/// A headline row whose check alerts or recovers is reported.
pub proof fn law_alerting_rows_are_reported(
    rows: Seq<LaneRowView>,
    histories: Map<Seq<char>, HistoryView>,
    th: Thresholds,
    window: nat,
    lane: Lane,
    headline: Seq<Seq<char>>,
    ctx: Option<AnnotationView>,
    k: int,
)
    requires
        0 <= k < rows.len(),
        config::any_star_match(headline, rows[k].subject),
        alerts(seen_by(rows, k, histories, th, window), rows[k].ratio, th),
    ensures
        is_reported(
            pipeline::events_after(rows, histories, th, window, lane, headline, ctx),
            rows[k],
            seen_by(rows, k, histories, th, window),
            th,
            marker(lane),
        ),
    decreases rows.len(),
{
    let front = rows.drop_last();
    let n = rows.len() - 1;
    let h = seen_by(rows, k, histories, th, window);
    let before = pipeline::events_after(front, histories, th, window, lane, headline, ctx);
    let now = pipeline::rows_after(front, histories, th, window);
    let next = pipeline::row_event(rows[n], now, th, lane, headline, ctx);
    lemma_event_step(rows, histories, th, window, lane, headline, ctx);
    if k < n {
        assert(front[k] == rows[k]);
        assert(rows.take(k) =~= front.take(k));
        law_alerting_rows_are_reported(front, histories, th, window, lane, headline, ctx, k);
    } else {
        assert(rows.take(n) =~= front);
        lemma_row_event(rows[k], now, th, lane, headline, ctx);
    }
    if let Some(e) = next {
        lemma_still_reported(before, e, rows[k], h, th, marker(lane));
    }
}

/// Is this check an alert or a recovery?
pub open spec fn alerts(h: HistoryView, ratio: Double, th: Thresholds) -> bool {
    state::judge(h, ratio, th) is NewRegression || state::judge(h, ratio, th) is Recovered
}

proof fn lemma_event_step(
    rows: Seq<LaneRowView>,
    histories: Map<Seq<char>, HistoryView>,
    th: Thresholds,
    window: nat,
    lane: Lane,
    headline: Seq<Seq<char>>,
    ctx: Option<AnnotationView>,
)
    requires
        rows.len() > 0,
    ensures
        ({
            let front = rows.drop_last();
            let before = pipeline::events_after(front, histories, th, window, lane, headline, ctx);
            pipeline::events_after(rows, histories, th, window, lane, headline, ctx) == (
            match pipeline::row_event(
                rows[rows.len() - 1],
                pipeline::rows_after(front, histories, th, window),
                th,
                lane,
                headline,
                ctx,
            ) {
                Some(e) => before.push(e),
                None => before,
            })
        }),
{
}

/// The cross-check of a row has nothing to say where the lane did not count the
/// row this run, where it has no history, or where its median is not positive;
/// otherwise it says by how many percent the count is off the median.
pub proof fn law_cross_checks_compare_with_the_lane_median(ctx: AnnotationView, key: Seq<char>)
    ensures
        ({
            let a = pipeline::annotation_spec(ctx, key);
            let seen = ctx.histories.dom().contains(key) && ctx.histories[key].ratios.len() > 0;
            let m = state::median_spec(ctx.histories[key].ratios);
            let there = ctx.current.dom().contains(key) && seen && (Double { bits: 0 }).lt_spec(m);
            let delta = ctx.current[key].div_spec(m).sub_spec(
                Double { bits: double::ONE },
            ).mul_spec(Double { bits: double::HUNDRED });
            &&& a.verdict is Missing <==> !there
            &&& a.ratio_delta_pct is Some <==> there
            &&& there ==> {
                &&& a.verdict is Up <==> ctx.regression_pct.le_spec(delta)
                &&& a.verdict is Down ==> delta.le_spec(ctx.regression_pct.negate_spec())
                &&& a.verdict is Flat ==> !delta.le_spec(ctx.regression_pct.negate_spec())
            }
        }),
{
}

// ---------------------------------------------------------------------------
// Plans
// ---------------------------------------------------------------------------

/// A run's record is about the commit that was run: its sha, its date, its
/// compiler, the baseline and the targets that failed.
pub proof fn law_run_records_name_their_commit(
    plan: RunPlan,
    repo: RepoConfig,
    settings: Settings,
    store: RepoStore,
    rows: Seq<Row>,
    meta: CommitMeta,
    failed: Seq<String>,
    instr: Option<CollectOutcome>,
    before: State,
)
    requires
        pipeline::is_run_plan(plan, repo, settings, store, rows, meta, failed, instr, before),
    ensures
        plan.record.commit@ == meta.sha@,
        plan.record.date@ == meta.date@,
        plan.record.rustc@ == meta.rustc@,
        plan.record.baseline_subject@ == repo.baseline_subject@,
        plan.record.failed_targets@.len() == failed.len(),
        forall|i: int|
            0 <= i < failed.len() ==> (#[trigger] plan.record.failed_targets@[i])@ == failed[i]@,
        plan.state.last_seen_sha is Some,
        plan.state.last_seen_sha->0@ == meta.sha@,
        plan.table is Some <==> plan.ratios@.len() > 0,
{
    let (a, b) = (text::views(plan.record.failed_targets@), text::views(failed));
    assert(a.len() == plan.record.failed_targets@.len() && b.len() == failed.len());
    assert forall|i: int| 0 <= i < failed.len() implies (
    #[trigger] plan.record.failed_targets@[i])@ == failed[i]@ by {
        assert(a[i] == b[i]);
    }
}

/// A run of a new commit counts once towards the digest, which is due as soon as
/// the count reaches the batch size; a run of the last one again counts nothing.
pub proof fn law_runs_count_towards_the_digest(
    plan: RunPlan,
    repo: RepoConfig,
    settings: Settings,
    store: RepoStore,
    rows: Seq<Row>,
    meta: CommitMeta,
    failed: Seq<String>,
    instr: Option<CollectOutcome>,
    before: State,
)
    requires
        pipeline::is_run_plan(plan, repo, settings, store, rows, meta, failed, instr, before),
    ensures
        ({
            let again = before.last_seen_sha is Some && before.last_seen_sha->0@ == meta.sha@;
            let counted = before.commits_since_digest + if again { 0int } else { 1int };
            &&& plan.is_rerun == again
            &&& plan.state.commits_since_digest == counted
            &&& plan.digest_due <==> !again && counted >= settings.digest_batch_size
        }),
{
}

// ---------------------------------------------------------------------------
// Benches
// ---------------------------------------------------------------------------

/// Did the target run?
pub open spec fn ran(succeeded: Seq<bool>, i: int) -> bool {
    0 <= i < succeeded.len() && succeeded[i]
}

/// The failed targets are those that did not run; a bench pass has no data only
/// where not one did.
pub proof fn law_failed_targets_did_not_run(
    targets: Seq<String>,
    succeeded: Seq<bool>,
    t: Seq<char>,
)
    ensures
        pipeline::failed_spec(targets, succeeded).contains(t) <==> exists|i: int|
            0 <= i < targets.len() && (#[trigger] targets[i])@ == t && !ran(succeeded, i),
        pipeline::failed_spec(targets, succeeded).len() == targets.len() <==> forall|i: int|
            0 <= i < targets.len() ==> !(#[trigger] ran(succeeded, i)),
        pipeline::failed_spec(targets, succeeded).len() <= targets.len(),
    decreases targets.len(),
{
    let failed = pipeline::failed_spec(targets, succeeded);
    if targets.len() > 0 {
        let front = targets.drop_last();
        let n = targets.len() - 1;
        law_failed_targets_did_not_run(front, succeeded, t);
        let before = pipeline::failed_spec(front, succeeded);
        if failed.contains(t) {
            let j = failed.index_of(t);
            assert(failed[j] == t);
            if j < before.len() {
                assert(before[j] == t);
                assert(before.contains(t));
                let i = choose|i: int|
                    0 <= i < front.len() && (#[trigger] front[i])@ == t && !ran(succeeded, i);
                assert(targets[i] == front[i]);
            } else {
                assert(targets[n]@ == t && !ran(succeeded, n));
            }
        }
        if exists|i: int|
            0 <= i < targets.len() && (#[trigger] targets[i])@ == t && !ran(succeeded, i) {
            let i = choose|i: int|
                0 <= i < targets.len() && (#[trigger] targets[i])@ == t && !ran(succeeded, i);
            if i < n {
                assert(front[i] == targets[i]);
                assert(before.contains(t));
                let j = before.index_of(t);
                assert(failed[j] == before[j]);
            } else {
                assert(failed[failed.len() - 1] == t);
            }
        }
        if failed.len() == targets.len() {
            assert(before.len() == front.len());
            assert forall|i: int| 0 <= i < targets.len() implies !(#[trigger] ran(
                succeeded,
                i,
            )) by {
                if i < n {
                    assert(!ran(succeeded, i));
                }
            }
        }
        if forall|i: int| 0 <= i < targets.len() ==> !(#[trigger] ran(succeeded, i)) {
            assert(!ran(succeeded, n));
        }
    }
}

/// A criterion tree is re-rendered exactly where there is one and the sha is
/// the one processed last.
pub proof fn law_only_the_last_sha_is_rerendered(
    tree_exists: bool,
    dir: Seq<char>,
    last_seen: Option<Seq<char>>,
    sha: Seq<char>,
)
    ensures
        pipeline::regen_fault(tree_exists, dir, last_seen, sha) is None <==> tree_exists
            && last_seen is Some && last_seen->0 == sha,
{
}

// ---------------------------------------------------------------------------
// Violins
// ---------------------------------------------------------------------------

/// Is this a row of the group's workload?
pub open spec fn in_plot(row: Row, group: Seq<char>, workload: Seq<char>) -> bool {
    row.group@ == group && row.workload@ == workload
}

proof fn lemma_picks(
    rows: Seq<Row>,
    group: Seq<char>,
    workload: Seq<char>,
    baseline: Seq<char>,
)
    requires
        rows.len() <= usize::MAX,
    ensures
        forall|i: int|
            0 <= i < pipeline::picks(rows, group, workload, baseline).len() ==> ({
                let p = #[trigger] pipeline::picks(rows, group, workload, baseline)[i];
                &&& p.index < rows.len()
                &&& in_plot(rows[p.index as int], group, workload)
                &&& p.subject == rows[p.index as int].subject
                &&& p.is_baseline == (rows[p.index as int].subject@ == baseline)
            }),
        forall|i: int, j: int|
            0 <= i < j < pipeline::picks(rows, group, workload, baseline).len() ==> (
            #[trigger] pipeline::picks(rows, group, workload, baseline)[i]).index < (
            #[trigger] pipeline::picks(rows, group, workload, baseline)[j]).index,
        forall|k: int|
            0 <= k < rows.len() && in_plot(#[trigger] rows[k], group, workload) ==> is_picked(
                pipeline::picks(rows, group, workload, baseline),
                k,
            ),
    decreases rows.len(),
{
    if rows.len() > 0 {
        let front = rows.drop_last();
        let n = rows.len() - 1;
        lemma_picks(front, group, workload, baseline);
        let before = pipeline::picks(front, group, workload, baseline);
        let all = pipeline::picks(rows, group, workload, baseline);
        assert forall|i: int| 0 <= i < all.len() implies ({
            let p = #[trigger] all[i];
            &&& p.index < rows.len()
            &&& in_plot(rows[p.index as int], group, workload)
            &&& p.subject == rows[p.index as int].subject
            &&& p.is_baseline == (rows[p.index as int].subject@ == baseline)
        }) by {
            if i < before.len() {
                assert(all[i] == before[i]);
                assert(front[before[i].index as int] == rows[before[i].index as int]);
            }
        }
        assert forall|i: int, j: int| 0 <= i < j < all.len() implies (#[trigger] all[i]).index < (
        #[trigger] all[j]).index by {
            assert(all[i] == before[i]);
            if j < before.len() {
                assert(all[j] == before[j]);
            }
        }
        assert forall|k: int|
            0 <= k < rows.len() && in_plot(#[trigger] rows[k], group, workload) implies is_picked(
            all,
            k,
        ) by {
            if k < n {
                assert(front[k] == rows[k]);
                assert(is_picked(before, k));
                let i = choose|i: int| 0 <= i < before.len() && (#[trigger] before[i]).index == k;
                assert(all[i] == before[i]);
            } else {
                assert(all[all.len() - 1].index == k);
            }
        }
    }
}

pub open spec fn is_picked(picks: Seq<Pick>, k: int) -> bool {
    exists|i: int| 0 <= i < picks.len() && (#[trigger] picks[i]).index == k
}

/// A workload's violin plot shows its rows, all of them and no others: the
/// baseline's in front, the others by subject.
pub proof fn law_violins_show_the_workload(
    rows: Seq<Row>,
    group: Seq<char>,
    workload: Seq<char>,
    baseline: Seq<char>,
    i: int,
    j: int,
    k: int,
)
    requires
        rows.len() <= usize::MAX,
        0 <= i < j < pipeline::violin_rows(rows, group, workload, baseline).len(),
    ensures
        ({
            let shown = pipeline::violin_rows(rows, group, workload, baseline);
            let (a, b) = (shown[i] as int, shown[j] as int);
            &&& a < rows.len() && b < rows.len()
            &&& in_plot(rows[a], group, workload) && in_plot(rows[b], group, workload)
            &&& rows[b].subject@ == baseline ==> rows[a].subject@ == baseline
            &&& rows[a].subject@ != baseline ==> !text::lex_lt(rows[b].subject@, rows[a].subject@)
            &&& 0 <= k < rows.len() && in_plot(rows[k], group, workload) ==> exists|x: int|
                0 <= x < shown.len() && #[trigger] shown[x] == k
        }),
{
    let picks = pipeline::picks(rows, group, workload, baseline);
    let sorted = sorting::sorted(picks);
    let shown = pipeline::violin_rows(rows, group, workload, baseline);
    lemma_picks(rows, group, workload, baseline);
    sorting::lemma_sorted_contains(picks);
    assert(sorted.contains(sorted[i]) && sorted.contains(sorted[j]));
    let (x, y) = (picks.index_of(sorted[i]), picks.index_of(sorted[j]));
    assert(picks[x] == sorted[i] && picks[y] == sorted[j]);
    assert forall|p: Pick, q: Pick| #[trigger] p.before(q) implies !q.before(p) by {
        if text::lex_lt(p.subject@, q.subject@) {
            text::lemma_lex_asymmetric(p.subject@, q.subject@);
        }
    }
    assert forall|p: Pick, q: Pick, r: Pick|
        !(#[trigger] p.before(q)) && !(#[trigger] q.before(r)) implies !p.before(r) by {
        text::lemma_lex_total(p.subject@, q.subject@);
        text::lemma_lex_total(q.subject@, r.subject@);
        if p.before(r) && p.subject@ != q.subject@ && q.subject@ != r.subject@ {
            if text::lex_lt(r.subject@, q.subject@) && text::lex_lt(q.subject@, p.subject@) {
                text::lemma_lex_transitive(r.subject@, q.subject@, p.subject@);
                text::lemma_lex_asymmetric(r.subject@, p.subject@);
            }
        }
    }
    sorting::lemma_sorted_ordered(picks);
    assert(!sorted[j].before(sorted[i]));
    if 0 <= k < rows.len() && in_plot(rows[k], group, workload) {
        assert(is_picked(picks, k));
        let z = choose|z: int| 0 <= z < picks.len() && (#[trigger] picks[z]).index == k;
        assert(picks.contains(picks[z]));
        assert(sorted.contains(picks[z]));
        let w = sorted.index_of(picks[z]);
        assert(sorted[w] == picks[z]);
        assert(shown[w] == k);
    }
}

/// A workload has a violin plot exactly where it has two rows to compare.
pub proof fn law_lone_rows_have_no_violin(
    ratios: Seq<WorkloadRatios>,
    rows: Seq<Row>,
    baseline: Seq<char>,
    w: int,
)
    requires
        0 <= w < ratios.len(),
    ensures
        ({
            let wl = ratios[w];
            pipeline::comparable(ratios, rows, baseline).contains(wl) <==> rows.filter(
                |r: Row| in_plot(r, wl.group@, wl.workload@),
            ).len() >= 2
        }),
{
    let wl = ratios[w];
    lemma_pick_count(rows, wl.group@, wl.workload@, baseline);
    lemma_comparable(ratios, rows, baseline, wl);
    assert(ratios.contains(wl));
    assert((|r: Row| in_plot(r, wl.group@, wl.workload@)) =~= (|r: Row|
        in_plot(r, ratios[w].group@, ratios[w].workload@)));
}

proof fn lemma_pick_count(
    rows: Seq<Row>,
    group: Seq<char>,
    workload: Seq<char>,
    baseline: Seq<char>,
)
    ensures
        pipeline::picks(rows, group, workload, baseline).len() == rows.filter(
            |r: Row| in_plot(r, group, workload),
        ).len(),
    decreases rows.len(),
{
    reveal(Seq::filter);
    if rows.len() > 0 {
        lemma_pick_count(rows.drop_last(), group, workload, baseline);
    }
}

proof fn lemma_comparable(
    ratios: Seq<WorkloadRatios>,
    rows: Seq<Row>,
    baseline: Seq<char>,
    wl: WorkloadRatios,
)
    ensures
        pipeline::comparable(ratios, rows, baseline).contains(wl) <==> ratios.contains(wl)
            && pipeline::picks(rows, wl.group@, wl.workload@, baseline).len() >= 2,
    decreases ratios.len(),
{
    let all = pipeline::comparable(ratios, rows, baseline);
    if ratios.len() > 0 {
        let front = ratios.drop_last();
        let n = ratios.len() - 1;
        lemma_comparable(front, rows, baseline, wl);
        let before = pipeline::comparable(front, rows, baseline);
        if before.contains(wl) {
            let i = before.index_of(wl);
            assert(all[i] == before[i]);
        }
        if front.contains(wl) {
            let i = front.index_of(wl);
            assert(ratios[i] == front[i]);
        }
        if all.contains(wl) {
            let i = all.index_of(wl);
            if i < before.len() {
                assert(before[i] == wl);
            } else {
                assert(ratios[n] == wl);
            }
        }
        if ratios.contains(wl) && !front.contains(wl) {
            let i = ratios.index_of(wl);
            if i < n {
                assert(front[i] == wl);
            }
            assert(ratios[n] == wl);
            if pipeline::picks(rows, wl.group@, wl.workload@, baseline).len() >= 2 {
                assert(all[all.len() - 1] == wl);
            }
        }
    }
}

// ---------------------------------------------------------------------------
// Whole runs
// ---------------------------------------------------------------------------

/// What the walltime lane alerts by.
pub open spec fn walltime_pair(settings: Settings) -> Thresholds {
    Thresholds {
        regression_pct: settings.regression_threshold_pct,
        recovery_pct: settings.recovery_threshold_pct,
    }
}

/// What the instructions lane alerts by.
pub open spec fn instr_pair(settings: Settings) -> Thresholds {
    Thresholds {
        regression_pct: settings.instr_regression_threshold_pct,
        recovery_pct: settings.instr_recovery_threshold_pct,
    }
}

/// The rows that the instructions lane of a run checks.
pub open spec fn counted_rows(plan: RunPlan) -> Seq<LaneRowView> {
    if plan.instr_ratios is Some {
        pipeline::lane_rows(plan.instr_ratios->0@)
    } else {
        Seq::empty()
    }
}

/// No other row of the list has this row's key.
pub open spec fn alone(rows: Seq<LaneRowView>, k: int) -> bool {
    &&& 0 <= k < rows.len()
    &&& forall|i: int| 0 <= i < rows.len() && i != k ==> (#[trigger] rows[i]).key != rows[k].key
}

/// A run of a new commit leaves each row's history as it was before, with the
/// run's ratio judged by the lane's thresholds and folded into the lane's
/// window; walltime into the walltime histories, counts into the others.
pub proof fn law_runs_fold_each_row_into_its_lane(
    plan: RunPlan,
    repo: RepoConfig,
    settings: Settings,
    store: RepoStore,
    rows: Seq<Row>,
    meta: CommitMeta,
    failed: Seq<String>,
    instr: Option<CollectOutcome>,
    before: State,
    k: int,
)
    requires
        pipeline::is_run_plan(plan, repo, settings, store, rows, meta, failed, instr, before),
        !plan.is_rerun,
    ensures
        ({
            let timed = pipeline::lane_rows(plan.ratios@);
            let counted = counted_rows(plan);
            let window = settings.rolling_window as nat;
            &&& alone(timed, k) ==> {
                let own = state::history_of(state::histories(before.rows@), timed[k].key);
                state::histories(plan.state.rows@)[timed[k].key] == state::folded(
                    own,
                    timed[k].ratio,
                    state::judge(own, timed[k].ratio, walltime_pair(settings)),
                    window,
                )
            }
            &&& alone(counted, k) ==> {
                let own = state::history_of(state::histories(before.instr_rows@), counted[k].key);
                state::histories(plan.state.instr_rows@)[counted[k].key] == state::folded(
                    own,
                    counted[k].ratio,
                    state::judge(own, counted[k].ratio, instr_pair(settings)),
                    window,
                )
            }
        }),
{
    let timed = pipeline::lane_rows(plan.ratios@);
    let counted = counted_rows(plan);
    let window = settings.rolling_window as nat;
    if alone(timed, k) {
        law_rows_are_held_against_their_own_history(
            timed,
            state::histories(before.rows@),
            walltime_pair(settings),
            window,
            k,
        );
    }
    if alone(counted, k) {
        law_rows_are_held_against_their_own_history(
            counted,
            state::histories(before.instr_rows@),
            instr_pair(settings),
            window,
            k,
        );
    }
}

/// Every event of a run reports a headline row of one of the lanes, held by
/// that lane's thresholds against that lane's histories from before the run.
pub proof fn law_run_events_report_their_lane(
    ratios: Seq<WorkloadRatios>,
    instr_ratios: Option<Vec<InstrWorkloadRatios>>,
    settings: Settings,
    headline: Seq<Seq<char>>,
    before: State,
    i: int,
)
    requires
        0 <= i < pipeline::run_events(ratios, instr_ratios, settings, headline, before).len(),
    ensures
        ({
            let e = pipeline::run_events(ratios, instr_ratios, settings, headline, before)[i];
            let timed = pipeline::lane_rows(ratios);
            let window = settings.rolling_window as nat;
            ||| exists|k: int|
                0 <= k < timed.len() && config::any_star_match(
                    headline,
                    (#[trigger] timed[k]).subject,
                ) && reports(
                    e,
                    timed[k],
                    seen_by(
                        timed,
                        k,
                        state::histories(before.rows@),
                        walltime_pair(settings),
                        window,
                    ),
                    walltime_pair(settings),
                    None,
                )
            ||| instr_ratios is Some && exists|k: int|
                0 <= k < pipeline::lane_rows(instr_ratios->0@).len() && config::any_star_match(
                    headline,
                    (#[trigger] pipeline::lane_rows(instr_ratios->0@)[k]).subject,
                ) && reports(
                    e,
                    pipeline::lane_rows(instr_ratios->0@)[k],
                    seen_by(
                        pipeline::lane_rows(instr_ratios->0@),
                        k,
                        state::histories(before.instr_rows@),
                        instr_pair(settings),
                        window,
                    ),
                    instr_pair(settings),
                    Some("instructions"@),
                )
        }),
{
    let window = settings.rolling_window as nat;
    let ctx = Some(pipeline::run_annotations(instr_ratios, settings, before));
    let timed = pipeline::lane_rows(ratios);
    let counted = pipeline::instr_lane_rows(instr_ratios);
    let wall = pipeline::events_after(
        timed,
        state::histories(before.rows@),
        walltime_pair(settings),
        window,
        Lane::Walltime,
        headline,
        ctx,
    );
    let counts = pipeline::events_after(
        counted,
        state::histories(before.instr_rows@),
        instr_pair(settings),
        window,
        Lane::Instructions,
        headline,
        None,
    );
    let all = pipeline::run_events(ratios, instr_ratios, settings, headline, before);
    assert(all == wall + counts);
    if i < wall.len() {
        law_events_report_what_was_checked(
            timed,
            state::histories(before.rows@),
            walltime_pair(settings),
            window,
            Lane::Walltime,
            headline,
            ctx,
            i,
        );
        assert(all[i] == wall[i]);
    } else {
        let j = i - wall.len();
        law_events_report_what_was_checked(
            counted,
            state::histories(before.instr_rows@),
            instr_pair(settings),
            window,
            Lane::Instructions,
            headline,
            None,
            j,
        );
        assert(all[i] == counts[j]);
        assert(instr_ratios is Some);
    }
}

/// Is this the last row of that key?
pub open spec fn last_keyed(rows: Seq<LaneRowView>, k: int, key: Seq<char>) -> bool {
    &&& 0 <= k < rows.len()
    &&& rows[k].key == key
    &&& forall|j: int| k < j < rows.len() ==> (#[trigger] rows[j]).key != key
}

proof fn lemma_ratio_map(rows: Seq<LaneRowView>, key: Seq<char>)
    ensures
        pipeline::ratio_map(rows).dom().contains(key) ==> exists|k: int| #[trigger]
            last_keyed(rows, k, key) && pipeline::ratio_map(rows)[key] == rows[k].ratio,
        forall|k: int|
            0 <= k < rows.len() && (#[trigger] rows[k]).key == key ==> pipeline::ratio_map(
                rows,
            ).dom().contains(key),
    decreases rows.len(),
{
    if rows.len() > 0 {
        let front = rows.drop_last();
        let n = rows.len() - 1;
        lemma_ratio_map(front, key);
        if rows[n].key == key {
            assert(last_keyed(rows, n, key));
        } else if pipeline::ratio_map(front).dom().contains(key) {
            let k = choose|k: int| #[trigger]
                last_keyed(front, k, key) && pipeline::ratio_map(front)[key] == front[k].ratio;
            assert forall|j: int| k < j < rows.len() implies (#[trigger] rows[j]).key != key by {
                if j < n {
                    assert(front[j] == rows[j]);
                }
            }
            assert(last_keyed(rows, k, key));
        }
        assert forall|k: int|
            0 <= k < rows.len() && (#[trigger] rows[k]).key == key implies pipeline::ratio_map(
            rows,
        ).dom().contains(key) by {
            if k < n {
                assert(front[k] == rows[k]);
            }
        }
    }
}

/// Walltime events are cross-checked with the counts of this very run, held
/// against the instructions lane's histories from before it, by that lane's
/// regression threshold.
pub proof fn law_cross_checks_use_the_instructions_lane(
    instr_ratios: Option<Vec<InstrWorkloadRatios>>,
    settings: Settings,
    before: State,
    key: Seq<char>,
)
    ensures
        ({
            let ctx = pipeline::run_annotations(instr_ratios, settings, before);
            &&& ctx.regression_pct == settings.instr_regression_threshold_pct
            &&& ctx.histories == state::histories(before.instr_rows@)
            &&& instr_ratios is None ==> !ctx.current.dom().contains(key)
            &&& instr_ratios matches Some(tables) ==> {
                let rows = pipeline::lane_rows(tables@);
                &&& ctx.current.dom().contains(key) ==> exists|k: int| #[trigger]
                    last_keyed(rows, k, key) && ctx.current[key] == rows[k].ratio
                &&& forall|k: int|
                    0 <= k < rows.len() && (#[trigger] rows[k]).key == key
                        ==> ctx.current.dom().contains(key)
            }
        }),
{
    lemma_ratio_map(pipeline::instr_lane_rows(instr_ratios), key);
}

/// A digest that was built adds one event, last, and starts the count over; one
/// that was not built changes nothing.
pub proof fn law_digests_start_the_count_over(
    before: RunPlan,
    after: RunPlan,
    store: RepoStore,
    built: Result<String, String>,
)
    requires
        pipeline::is_settled(before, after, store, built),
    ensures
        ({
            let (a, b) = (
                pipeline::event_views(before.events@),
                pipeline::event_views(after.events@),
            );
            &&& built is Ok ==> after.state.commits_since_digest == 0 && b.len() == a.len() + 1
                && b.last() is Digest && b.drop_last() == a
            &&& built is Err ==> after.state.commits_since_digest
                == before.state.commits_since_digest && b == a
            &&& after.state.rows == before.state.rows
            &&& after.state.instr_rows == before.state.instr_rows
            &&& after.state.last_seen_sha == before.state.last_seen_sha
            &&& after.record == before.record && after.commit_dir == before.commit_dir
        }),
{
    let (a, b) = (pipeline::event_views(before.events@), pipeline::event_views(after.events@));
    if built is Ok {
        assert(b.drop_last() =~= a);
    }
}

/// A run fails over the instructions lane exactly where the repo requires it
/// and it was skipped or had failing targets.
pub proof fn law_required_lanes_fail_the_run(
    config: Option<config::InstructionsConfig>,
    instr: Option<CollectOutcome>,
)
    ensures
        pipeline::required_fault(config, instr) is Some <==> (config is Some
            && config->0.require_instructions && match instr {
            Some(CollectOutcome::Skipped(_)) => true,
            Some(CollectOutcome::Collected(c)) => c.failed_targets@.len() > 0,
            None => false,
        }),
{
}

/// Every workload with rows to compare has its violins: of all its rows, under
/// its name, in a file of its own in the commit's directory.
pub proof fn law_every_comparison_has_its_violins(
    jobs: Seq<pipeline::ViolinJob>,
    ratios: Seq<WorkloadRatios>,
    rows: Seq<Row>,
    dir: Seq<char>,
    baseline: Seq<char>,
    colors: SubjectColors,
    i: int,
)
    requires
        pipeline::are_violin_jobs(jobs, ratios, rows, dir, baseline, colors),
        0 <= i < pipeline::comparable(ratios, rows, baseline).len(),
    ensures
        ({
            let wl = pipeline::comparable(ratios, rows, baseline)[i];
            let picked = pipeline::violin_rows(rows, wl.group@, wl.workload@, baseline);
            let name = pipeline::dist_name_spec(wl.group@, wl.workload@);
            &&& jobs.len() == pipeline::comparable(ratios, rows, baseline).len()
            &&& jobs[i].item@ == criterion_results::item_spec(wl.group@, wl.workload@)
            &&& paths::file_name_spec(jobs[i].path@) == Some(name)
            &&& name.take(5) == "dist_"@ && name.skip(name.len() - 4) == ".png"@
            &&& jobs[i].chart matches Ok(chart) ==> chart.violins@.len() == picked.len()
                && text::has_prefix(chart.title@, jobs[i].item@)
        }),
{
    let wl = pipeline::comparable(ratios, rows, baseline)[i];
    let name = pipeline::dist_name_spec(wl.group@, wl.workload@);
    assert(pipeline::is_violin_job(jobs[i], wl, rows, dir, baseline, colors));
    reveal_strlit("dist_");
    reveal_strlit(".png");
    reveal_strlit("_");
    assert(name.take(5) =~= "dist_"@);
    assert(name.skip(name.len() - 4) =~= ".png"@);
    if name.contains('/') {
        let k = name.index_of('/');
        pipeline::law_dist_names_hold_no_separator(wl.group@, wl.workload@, k);
    }
    assert(name[0] == 'd');
    texts::law_joined_names_are_final(dir, name);
    if let Ok(chart) = jobs[i].chart {
        let item = jobs[i].item@;
        assert(chart.title@.take(item.len() as int) =~= item);
    }
}

/// A percentage of hundredths keeps them: what is a whole number of hundredths is
/// that number over a hundred.
pub proof fn law_two_decimals_are_hundredths(x: Double, n: nat)
    requires
        n < double::LIMIT,
        x.mul_spec(Double { bits: double::HUNDRED }) == Double::from_nat_spec(n),
    ensures
        pipeline::two_decimals(x) == Double::from_nat_spec(n).div_spec(
            Double { bits: double::HUNDRED },
        ),
{
    numbers::law_whole_numbers_stay(n);
}

/// Every subject of a run but the baseline has a color of its own, and no other
/// has one.
pub proof fn law_every_subject_has_a_color(
    colors: SubjectColors,
    baseline: Seq<char>,
    rows: Seq<Row>,
    headline: Seq<Seq<char>>,
    i: int,
    k: int,
)
    requires
        pipeline::are_run_colors(colors, baseline, rows, headline),
        0 <= i < rows.len(),
    ensures
        rows[i].subject@ != baseline ==> colors.slots().contains(rows[i].subject@),
        !colors.slots().contains(baseline),
        0 <= k < colors.slots().len() ==> exists|j: int|
            0 <= j < rows.len() && (#[trigger] rows[j]).subject@ == colors.slots()[k],
        colors.baseline_spec() == baseline,
{
    assert(compare::is_subject(rows, rows[i].subject@));
    if 0 <= k < colors.slots().len() {
        assert(colors.slots().contains(colors.slots()[k]));
        assert(compare::is_subject(rows, colors.slots()[k]));
    }
}

} // verus!
