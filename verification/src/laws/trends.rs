//! What windows, summaries and trend charts hold of the stored records.
use crate::config;
use crate::criterion_results;
use crate::dates;
use crate::digest;
use crate::digest::{DigestOutcome, DigestSummary, Scope, SummaryRow, TrendChart, TrendOutcome};
use crate::double;
use crate::double::Double;
use crate::lane::Lane;
use crate::paths;
use crate::sorting::Ranked;
use crate::state;
use crate::storage;
use crate::storage::{CommitRecord, RepoStore, RowRecord};
use crate::strmap::StrMap;
use crate::text;
use vstd::prelude::*;

verus! {

/// Is this the first of the records whose sha starts with the prefix?
pub open spec fn first_named(records: Seq<CommitRecord>, i: int, prefix: Seq<char>) -> bool {
    &&& 0 <= i < records.len()
    &&& prefix.is_prefix_of(records[i].commit@)
    &&& forall|j: int| 0 <= j < i ==> !prefix.is_prefix_of((#[trigger] records[j]).commit@)
}

proof fn lemma_prefix(s: Seq<char>, p: Seq<char>)
    ensures
        text::has_prefix(s, p) <==> p.is_prefix_of(s),
{
    if text::has_prefix(s, p) {
        assert(s.take(p.len() as int) =~= s.subrange(0, p.len() as int));
    }
    if p.is_prefix_of(s) {
        assert(s.take(p.len() as int) =~= s.subrange(0, p.len() as int));
    }
}

proof fn lemma_find_commit(records: Seq<CommitRecord>, prefix: Seq<char>)
    ensures
        match digest::find_commit(records, prefix) {
            Some(i) => first_named(records, i, prefix),
            None => forall|j: int|
                0 <= j < records.len() ==> !prefix.is_prefix_of((#[trigger] records[j]).commit@),
        },
    decreases records.len(),
{
    if records.len() > 0 {
        lemma_prefix(records[0].commit@, prefix);
        let rest = records.drop_first();
        lemma_find_commit(rest, prefix);
        if !text::has_prefix(records[0].commit@, prefix) {
            match digest::find_commit(rest, prefix) {
                Some(i) => {
                    assert(rest[i] == records[i + 1]);
                    assert forall|j: int| 0 <= j < i + 1 implies !prefix.is_prefix_of(
                        (#[trigger] records[j]).commit@,
                    ) by {
                        if j > 0 {
                            assert(rest[j - 1] == records[j]);
                        }
                    }
                },
                None => {
                    assert forall|j: int| 0 <= j < records.len() implies !prefix.is_prefix_of(
                        (#[trigger] records[j]).commit@,
                    ) by {
                        if j > 0 {
                            assert(rest[j - 1] == records[j]);
                        }
                    }
                },
            }
        }
    }
}

/// A window runs from the first stored commit that `from` names, or the oldest
/// one, to the first that `to` names, or the newest one, both included. Without
/// either it is the newest `last` records.
pub proof fn law_windows_run_between_the_named_commits(
    window: Seq<CommitRecord>,
    records: Seq<CommitRecord>,
    last: nat,
    from: Option<Seq<char>>,
    to: Option<Seq<char>>,
    lo: int,
    hi: int,
)
    requires
        digest::window_spec(records, last, from, to) == Result::<(int, int), Seq<char>>::Ok(
            (lo, hi),
        ),
        0 <= lo <= hi <= records.len(),
        window == records.subrange(lo, hi),
    ensures
        forall|i: int| 0 <= i < window.len() ==> window[i] == #[trigger] records[lo + i],
        to matches Some(p) ==> window.len() > 0 && first_named(
            records,
            lo + window.len() - 1,
            p,
        ),
        to is Some && from is None ==> window.len() > 0 && window[0] == records[0] && lo == 0,
        from matches Some(p) ==> window.len() > 0 && first_named(records, lo, p),
        from is Some && to is None ==> window.last() == records.last() && lo + window.len()
            == records.len(),
        from is None && to is None ==> lo + window.len() == records.len() && window.len() == if last
            < records.len() {
            last
        } else {
            records.len()
        },
{
    if let Some(p) = from {
        lemma_find_commit(records, p);
    }
    if let Some(p) = to {
        lemma_find_commit(records, p);
    }
}

/// There is no window exactly where a name matches no stored commit, where the
/// named commits run from newer to older, or where no record was asked for.
pub proof fn law_windows_are_refused_for_a_reason(
    records: Seq<CommitRecord>,
    last: nat,
    from: Option<Seq<char>>,
    to: Option<Seq<char>>,
)
    ensures
        ({
            let unknown = |p: Option<Seq<char>>|
                p is Some && forall|j: int|
                    0 <= j < records.len() ==> !p->0.is_prefix_of((#[trigger] records[j]).commit@);
            let crossed = exists|i: int, j: int|
                from is Some && to is Some && j < i && #[trigger] first_named(records, i, from->0)
                    && #[trigger] first_named(records, j, to->0);
            digest::window_spec(records, last, from, to) is Err <==> (unknown(from) || unknown(to)
                || crossed || (from is None && to is None && last == 0))
        }),
{
    if let Some(p) = from {
        lemma_find_commit(records, p);
        if let Some(i) = digest::find_commit(records, p) {
            digest::lemma_find_commit_bound(records, p);
            assert(p.is_prefix_of(records[i].commit@));
        }
    }
    if let Some(p) = to {
        lemma_find_commit(records, p);
        if let Some(i) = digest::find_commit(records, p) {
            digest::lemma_find_commit_bound(records, p);
            assert(p.is_prefix_of(records[i].commit@));
        }
    }
    if from is Some && to is Some {
        let (p, q) = (from->0, to->0);
        if digest::find_commit(records, p) is Some && digest::find_commit(records, q) is Some {
            let i = digest::find_commit(records, p)->0;
            let j = digest::find_commit(records, q)->0;
            assert(first_named(records, i, p) && first_named(records, j, q));
            assert forall|x: int| #[trigger] first_named(records, x, p) implies x == i by {
                if x < i {
                    assert(!p.is_prefix_of(records[x].commit@));
                }
                if i < x {
                    assert(!p.is_prefix_of(records[i].commit@));
                }
            }
            assert forall|x: int| #[trigger] first_named(records, x, q) implies x == j by {
                if x < j {
                    assert(!q.is_prefix_of(records[x].commit@));
                }
                if j < x {
                    assert(!q.is_prefix_of(records[j].commit@));
                }
            }
        }
    }
}

// ---------------------------------------------------------------------------
// Points
// ---------------------------------------------------------------------------

/// What a stored row holds for a lane.
pub open spec fn stored_ratio(row: RowRecord, lane: Lane) -> Option<Double> {
    if lane is Walltime {
        row.ratio_vs_baseline
    } else if row.instr is Some {
        row.instr->0.ratio_vs_baseline
    } else {
        None
    }
}

/// Does the record hold a row in scope under that key, with that ratio?
pub open spec fn holds(
    record: CommitRecord,
    g: int,
    i: int,
    key: Seq<char>,
    scope: Scope,
    lane: Lane,
    ratio: Double,
) -> bool {
    &&& 0 <= g < record.groups.keys().len()
    &&& 0 <= i < record.groups.nth(g).keys().len()
    &&& key == record.groups.keys()[g] + "/"@ + record.groups.nth(g).keys()[i]
    &&& stored_ratio(record.groups.nth(g).nth(i), lane) == Some(ratio)
    &&& config::any_star_match(scope.keys, key)
    &&& config::any_star_match(
        scope.subjects,
        criterion_results::split_id(record.groups.nth(g).keys()[i]).0,
    )
}

spec fn row_holds(
    group: Seq<char>,
    rows: StrMap<RowRecord>,
    i: int,
    key: Seq<char>,
    scope: Scope,
    lane: Lane,
    ratio: Double,
) -> bool {
    &&& 0 <= i < rows.keys().len()
    &&& key == group + "/"@ + rows.keys()[i]
    &&& stored_ratio(rows.nth(i), lane) == Some(ratio)
    &&& config::any_star_match(scope.keys, key)
    &&& config::any_star_match(scope.subjects, criterion_results::split_id(rows.keys()[i]).0)
}

proof fn lemma_group_points(
    group: Seq<char>,
    rows: StrMap<RowRecord>,
    n: nat,
    scope: Scope,
    lane: Lane,
    key: Seq<char>,
)
    requires
        n <= rows.keys().len(),
    ensures
        ({
            let p = digest::group_points(group, rows, n, scope, lane);
            &&& p.dom().contains(key) ==> exists|i: int|
                i < n && #[trigger] row_holds(group, rows, i, key, scope, lane, p[key])
            &&& forall|i: int, r: Double|
                i < n && #[trigger] row_holds(group, rows, i, key, scope, lane, r)
                    ==> p.dom().contains(key)
        }),
    decreases n,
{
    if n > 0 {
        let m = (n - 1) as nat;
        lemma_group_points(group, rows, m, scope, lane, key);
        let before = digest::group_points(group, rows, m, scope, lane);
        let p = digest::group_points(group, rows, n, scope, lane);
        let name = rows.keys()[m as int];
        if p.dom().contains(key) {
            if before.dom().contains(key) && p[key] == before[key] {
            } else {
                assert(row_holds(group, rows, m as int, key, scope, lane, p[key]));
            }
        }
    }
}

proof fn lemma_points(
    record: CommitRecord,
    n: nat,
    scope: Scope,
    lane: Lane,
    key: Seq<char>,
)
    requires
        n <= record.groups.keys().len(),
    ensures
        ({
            let p = digest::points_upto(record.groups, n, scope, lane);
            &&& p.dom().contains(key) ==> exists|g: int, i: int|
                g < n && #[trigger] holds(record, g, i, key, scope, lane, p[key])
            &&& forall|g: int, i: int, r: Double|
                g < n && #[trigger] holds(record, g, i, key, scope, lane, r) ==> p.dom().contains(
                    key,
                )
        }),
    decreases n,
{
    if n > 0 {
        let m = (n - 1) as nat;
        lemma_points(record, m, scope, lane, key);
        let group = record.groups.keys()[m as int];
        let rows = record.groups.nth(m as int);
        lemma_group_points(group, rows, rows.keys().len(), scope, lane, key);
        let here = digest::group_points(group, rows, rows.keys().len(), scope, lane);
        let p = digest::points_upto(record.groups, n, scope, lane);
        if here.dom().contains(key) {
            let i = choose|i: int|
                i < rows.keys().len() && #[trigger] row_holds(
                    group,
                    rows,
                    i,
                    key,
                    scope,
                    lane,
                    here[key],
                );
            assert(p[key] == here[key]);
            assert(holds(record, m as int, i, key, scope, lane, p[key]));
        } else if p.dom().contains(key) {
            let before = digest::points_upto(record.groups, m, scope, lane);
            assert(p[key] == before[key]);
            let (g, i) = choose|g: int, i: int|
                g < m && #[trigger] holds(record, g, i, key, scope, lane, before[key]);
            assert(g < n && holds(record, g, i, key, scope, lane, p[key]));
        }
        assert forall|g: int, i: int, r: Double|
            g < n && #[trigger] holds(
                record,
                g,
                i,
                key,
                scope,
                lane,
                r,
            ) implies p.dom().contains(key) by {
            if g == m {
                assert(row_holds(group, rows, i, key, scope, lane, r));
            }
        }
    }
}

/// A summary's series has one entry per commit: the ratio of the stored row of
/// that key, where the commit has one in scope, and none where it has not.
pub proof fn law_series_read_the_stored_rows(
    rows: Seq<SummaryRow>,
    records: Seq<CommitRecord>,
    scope: Scope,
    lane: Lane,
    k: int,
    x: int,
)
    requires
        digest::is_table(rows, records, scope, lane),
        0 <= k < rows.len(),
        0 <= x < records.len(),
    ensures
        rows[k].ratios@.len() == records.len(),
        rows[k].ratios@[x] is Some ==> exists|g: int, i: int| #[trigger]
            holds(records[x], g, i, rows[k].row_key@, scope, lane, rows[k].ratios@[x]->0),
        rows[k].ratios@[x] is None ==> forall|g: int, i: int, r: Double|
            !(#[trigger] holds(records[x], g, i, rows[k].row_key@, scope, lane, r)),
{
    let key = rows[k].row_key@;
    assert(digest::is_summary_row(rows[k], records, scope, lane));
    let record = records[x];
    lemma_points(record, record.groups.keys().len(), scope, lane, key);
    let p = digest::points(record, scope, lane);
    assert(rows[k].ratios@[x] == digest::series(records, key, scope, lane)[x]);
    if p.dom().contains(key) {
        let (g, i) = choose|g: int, i: int|
            g < record.groups.keys().len() && #[trigger] holds(
                record,
                g,
                i,
                key,
                scope,
                lane,
                p[key],
            );
        assert(rows[k].ratios@[x] == Some(p[key]));
        assert(rows[k].ratios@[x]->0 == p[key]);
        assert(holds(records[x], g, i, rows[k].row_key@, scope, lane, rows[k].ratios@[x]->0));
    } else {
        assert(rows[k].ratios@[x] is None);
        assert forall|g: int, i: int, r: Double|
            !(#[trigger] holds(record, g, i, key, scope, lane, r)) by {
            if holds(record, g, i, key, scope, lane, r) {
                assert(g < record.groups.keys().len());
            }
        }
    }
}

/// Every stored row in scope that has a ratio, in whichever commit of the
/// window, has its summary row.
pub proof fn law_every_stored_row_in_scope_is_summed_up(
    rows: Seq<SummaryRow>,
    records: Seq<CommitRecord>,
    scope: Scope,
    lane: Lane,
    x: int,
    g: int,
    i: int,
    key: Seq<char>,
    ratio: Double,
)
    requires
        digest::is_table(rows, records, scope, lane),
        0 <= x < records.len(),
        holds(records[x], g, i, key, scope, lane, ratio),
    ensures
        exists|k: int| 0 <= k < rows.len() && (#[trigger] rows[k]).row_key@ == key,
{
    let record = records[x];
    lemma_points(record, record.groups.keys().len(), scope, lane, key);
    assert(digest::points(record, scope, lane).dom().contains(key));
    assert(digest::has_points(records, key, scope, lane));
}

/// The ratios of a series that are there.
pub open spec fn there(ratios: Seq<Option<Double>>) -> Seq<Double> {
    ratios.filter(|r: Option<Double>| r is Some).map_values(|r: Option<Double>| r->0)
}

proof fn lemma_present(ratios: Seq<Option<Double>>)
    ensures
        digest::present(ratios) == there(ratios),
    decreases ratios.len(),
{
    reveal(Seq::filter);
    if ratios.len() > 0 {
        lemma_present(ratios.drop_last());
        let p = |r: Option<Double>| r is Some;
        let before = ratios.drop_last().filter(p);
        if ratios.last() is Some {
            assert(ratios.filter(p) =~= before.push(ratios.last()));
            assert(there(ratios) =~= there(ratios.drop_last()).push(ratios.last()->0));
        } else {
            assert(ratios.filter(p) =~= before);
        }
    } else {
        assert(there(ratios) =~= Seq::empty());
        assert(digest::present(ratios) =~= Seq::empty());
    }
}

proof fn lemma_ends(ratios: Seq<Option<Double>>, k: int)
    requires
        0 <= k < ratios.len(),
        ratios[k] is Some,
    ensures
        digest::present(ratios).len() > 0,
        (forall|j: int| 0 <= j < k ==> (#[trigger] ratios[j]) is None) ==> digest::present(
            ratios,
        )[0] == ratios[k]->0,
        (forall|j: int| k < j < ratios.len() ==> (#[trigger] ratios[j]) is None)
            ==> digest::present(ratios).last() == ratios[k]->0,
    decreases ratios.len(),
{
    let n = ratios.len() - 1;
    let front = ratios.drop_last();
    if k < n {
        assert(front[k] == ratios[k]);
        lemma_ends(front, k);
        if forall|j: int| 0 <= j < k ==> (#[trigger] ratios[j]) is None {
            assert forall|j: int| 0 <= j < k implies (#[trigger] front[j]) is None by {
                assert(front[j] == ratios[j]);
            }
        }
        if forall|j: int| k < j < ratios.len() ==> (#[trigger] ratios[j]) is None {
            assert(ratios[n] is None);
            assert forall|j: int| k < j < front.len() implies (#[trigger] front[j]) is None by {
                assert(front[j] == ratios[j]);
            }
        }
    } else if forall|j: int| 0 <= j < k ==> (#[trigger] ratios[j]) is None {
        lemma_none_present(front, n);
    }
}

proof fn lemma_none_present(ratios: Seq<Option<Double>>, n: int)
    requires
        forall|j: int| 0 <= j < ratios.len() ==> (#[trigger] ratios[j]) is None,
    ensures
        digest::present(ratios).len() == 0,
    decreases ratios.len(),
{
    if ratios.len() > 0 {
        assert(ratios[ratios.len() - 1] is None);
        let front = ratios.drop_last();
        assert forall|j: int| 0 <= j < front.len() implies (#[trigger] front[j]) is None by {
            assert(front[j] == ratios[j]);
        }
        lemma_none_present(front, n);
    }
}

/// A summary row's first and last ratio are the earliest and the latest of its
/// series that are there, and its median is that of all that are there.
pub proof fn law_summary_rows_sum_up_their_series(
    rows: Seq<SummaryRow>,
    records: Seq<CommitRecord>,
    scope: Scope,
    lane: Lane,
    i: int,
    k: int,
)
    requires
        digest::is_table(rows, records, scope, lane),
        0 <= i < rows.len(),
        0 <= k < rows[i].ratios@.len(),
        rows[i].ratios@[k] is Some,
    ensures
        ({
            let ratios = rows[i].ratios@;
            &&& (forall|j: int| 0 <= j < k ==> (#[trigger] ratios[j]) is None) ==> rows[i].first
                == ratios[k]
            &&& (forall|j: int| k < j < ratios.len() ==> (#[trigger] ratios[j]) is None)
                ==> rows[i].last == ratios[k]
            &&& rows[i].median == Some(state::median_spec(there(ratios)))
        }),
{
    assert(digest::is_summary_row(rows[i], records, scope, lane));
    lemma_ends(rows[i].ratios@, k);
    lemma_present(rows[i].ratios@);
}

/// A summary names its commits in order, the first and the last of them, and
/// every target that failed in one of them, once, in order.
pub proof fn law_summaries_name_their_commits(
    s: DigestSummary,
    records: Seq<CommitRecord>,
    scope: Scope,
    t: Seq<char>,
)
    requires
        digest::is_summary(s, records, scope),
        records.len() > 0,
    ensures
        s.commits@.len() == records.len(),
        forall|i: int|
            0 <= i < records.len() ==> (#[trigger] s.commits@[i])@ == records[i].commit@,
        s.first_commit@ == records[0].commit@,
        s.last_commit@ == records[records.len() - 1].commit@,
        (exists|k: int|
            0 <= k < s.failed_targets@.len() && (#[trigger] s.failed_targets@[k])@ == t) <==> (
        exists|i: int, j: int|
            0 <= i < records.len() && 0 <= j < records[i].failed_targets@.len() && (
            #[trigger] records[i].failed_targets@[j])@ == t),
        forall|i: int, j: int|
            0 <= i < j < s.failed_targets@.len() ==> text::lex_lt(
                (#[trigger] s.failed_targets@[i])@,
                (#[trigger] s.failed_targets@[j])@,
            ),
{
    let all = digest::commits_of(records);
    assert(text::views(s.commits@).len() == s.commits@.len() && all.len() == records.len());
    assert forall|i: int| 0 <= i < records.len() implies (#[trigger] s.commits@[i])@
        == records[i].commit@ by {
        assert(text::views(s.commits@)[i] == all[i]);
    }
    let failed = text::views(s.failed_targets@);
    if exists|k: int| 0 <= k < s.failed_targets@.len() && (#[trigger] s.failed_targets@[k])@ == t {
        let k = choose|k: int|
            0 <= k < s.failed_targets@.len() && (#[trigger] s.failed_targets@[k])@ == t;
        assert(failed[k] == t);
        assert(failed.contains(t));
        assert(digest::some_failed(records, t));
        let i = choose|i: int|
            0 <= i < records.len() && text::views(
                (#[trigger] records[i]).failed_targets@,
            ).contains(t);
        let j = text::views(records[i].failed_targets@).index_of(t);
        assert(text::views(records[i].failed_targets@)[j] == t);
        assert(records[i].failed_targets@[j]@ == t);
    }
    if exists|i: int, j: int|
        0 <= i < records.len() && 0 <= j < records[i].failed_targets@.len() && (
        #[trigger] records[i].failed_targets@[j])@ == t {
        let (i, j) = choose|i: int, j: int|
            0 <= i < records.len() && 0 <= j < records[i].failed_targets@.len() && (
            #[trigger] records[i].failed_targets@[j])@ == t;
        assert(text::views(records[i].failed_targets@)[j] == t);
        assert(text::views(records[i].failed_targets@).contains(t));
        assert(digest::some_failed(records, t));
        assert(failed.contains(t));
        let k = failed.index_of(t);
        assert(s.failed_targets@[k]@ == t);
    }
    assert forall|i: int, j: int| 0 <= i < j < s.failed_targets@.len() implies text::lex_lt(
        (#[trigger] s.failed_targets@[i])@,
        (#[trigger] s.failed_targets@[j])@,
    ) by {
        assert(text::lex_lt(failed[i], failed[j]));
    }
}

// ---------------------------------------------------------------------------
// Rings and charts
// ---------------------------------------------------------------------------

/// A point rings exactly where it has a ratio, the points before it have a
/// positive median, and the ratio lies above that median by more than the
/// threshold.
pub proof fn law_rings_mark_the_outliers(ratios: Seq<Option<Double>>, pct: Double, i: int)
    requires
        0 <= i < ratios.len(),
    ensures
        digest::marks(ratios, pct).len() == ratios.len(),
        ({
            let before = there(ratios.take(i));
            let m = state::median_spec(before);
            digest::marks(ratios, pct)[i] <==> ratios[i] is Some && before.len() > 0 && (Double {
                bits: 0,
            }).lt_spec(m) && pct.lt_spec(
                ratios[i]->0.sub_spec(m).div_spec(m).mul_spec(Double { bits: double::HUNDRED }),
            )
        }),
{
    lemma_present(ratios.take(i));
}

/// A trend chart draws the summary's topmost rows, up to eight, each whole,
/// over the commits' short names.
pub proof fn law_trend_charts_draw_the_topmost_rows(
    chart: TrendChart,
    records: Seq<CommitRecord>,
    rows: Seq<SummaryRow>,
    pct: Double,
    i: int,
)
    requires
        digest::is_trend_chart(chart, records, rows, pct),
    ensures
        chart.commit_labels@.len() == records.len(),
        0 <= i < records.len() ==> chart.commit_labels@[i]@ == storage::short_spec(
            records[i].commit@,
        ),
        chart.series@.len() <= 8,
        chart.series@.len() == rows.len() || (chart.series@.len() == 8 && rows.len() > 8),
        0 <= i < chart.series@.len() ==> chart.series@[i].label@ == rows[i].row_key@
            && chart.series@[i].ratios@ == rows[i].ratios@ && chart.series@[i].alerts@.len()
            == rows[i].ratios@.len(),
{
    let all = digest::labels(records);
    assert(text::views(chart.commit_labels@).len() == chart.commit_labels@.len());
    assert(all.len() == records.len());
    if 0 <= i < records.len() {
        assert(text::views(chart.commit_labels@)[i] == all[i]);
    }
    if 0 <= i < chart.series@.len() {
        assert(chart.series@[i].alerts@ == digest::marks(rows[i].ratios@, pct));
    }
}

/// Rows with the same median run by key.
pub proof fn law_equal_medians_run_by_key(
    rows: Seq<SummaryRow>,
    records: Seq<CommitRecord>,
    scope: Scope,
    lane: Lane,
    i: int,
    j: int,
)
    requires
        digest::is_table(rows, records, scope, lane),
        0 <= i < j < rows.len(),
        rows[i].median == rows[j].median,
    ensures
        text::lex_lt(rows[i].row_key@, rows[j].row_key@),
{
    assert(rows[i].before(rows[j]));
}

/// A digest's charts draw a lane each: the first the walltime rows, ringed by
/// the walltime threshold, the second, where there is one, the counted rows,
/// ringed by theirs.
pub proof fn law_digest_charts_ring_by_their_lane(
    d: DigestOutcome,
    store: RepoStore,
    repo: Seq<char>,
    label: Seq<char>,
    scope: Scope,
    pct: Double,
    instr_pct: Double,
    records: Seq<CommitRecord>,
    i: int,
)
    requires
        digest::is_digest(d, store, repo, label, scope, pct, instr_pct, records),
    ensures
        d.charts@.len() == 1 || d.charts@.len() == 2,
        d.charts@.len() == 2 <==> d.summary.instr_series is Some,
        0 <= i < d.charts@[0].series@.len() ==> d.charts@[0].series@[i].label@
            == d.summary.rows@[i].row_key@ && d.charts@[0].series@[i].ratios@
            == d.summary.rows@[i].ratios@ && d.charts@[0].series@[i].alerts@ == digest::marks(
            d.summary.rows@[i].ratios@,
            pct,
        ),
        d.summary.instr_series matches Some(counted) ==> (0 <= i < d.charts@[1].series@.len()
            ==> d.charts@[1].series@[i].label@ == counted@[i].row_key@
            && d.charts@[1].series@[i].ratios@ == counted@[i].ratios@
            && d.charts@[1].series@[i].alerts@ == digest::marks(counted@[i].ratios@, instr_pct)),
{
}

/// A digest can be had exactly where there are records, one of them has a ratio
/// in scope, and the last one's date can be read.
pub proof fn law_digests_need_a_ratio_and_a_date(
    records: Seq<CommitRecord>,
    label: Seq<char>,
    scope: Scope,
)
    ensures
        digest::digest_fault(records, label, scope) is None <==> records.len() > 0
            && any_ratio(records, scope, Lane::Walltime) && dates::rfc3339_moment(
            records.last().date@,
        ) is Ok,
{
    lemma_any_ratio(records, scope, Lane::Walltime);
}

/// Has one of the records a row in scope with a ratio of that lane?
pub open spec fn any_ratio(records: Seq<CommitRecord>, scope: Scope, lane: Lane) -> bool {
    exists|x: int, g: int, i: int, key: Seq<char>, r: Double|
        0 <= x < records.len() && #[trigger] holds(records[x], g, i, key, scope, lane, r)
}

proof fn lemma_any_ratio(records: Seq<CommitRecord>, scope: Scope, lane: Lane)
    ensures
        digest::any_points(records, scope, lane) <==> any_ratio(records, scope, lane),
{
    if digest::any_points(records, scope, lane) {
        let key = choose|key: Seq<char>| #[trigger] digest::has_points(records, key, scope, lane);
        let x = choose|x: int|
            0 <= x < records.len() && (#[trigger] digest::points(
                records[x],
                scope,
                lane,
            )).dom().contains(key);
        let record = records[x];
        lemma_points(record, record.groups.keys().len(), scope, lane, key);
        let p = digest::points(record, scope, lane);
        let (g, i) = choose|g: int, i: int|
            g < record.groups.keys().len() && #[trigger] holds(
                record,
                g,
                i,
                key,
                scope,
                lane,
                p[key],
            );
        assert(holds(records[x], g, i, key, scope, lane, p[key]));
    }
    if any_ratio(records, scope, lane) {
        let (x, g, i, key, r) = choose|x: int, g: int, i: int, key: Seq<char>, r: Double|
            0 <= x < records.len() && #[trigger] holds(records[x], g, i, key, scope, lane, r);
        let record = records[x];
        lemma_points(record, record.groups.keys().len(), scope, lane, key);
        assert(digest::points(records[x], scope, lane).dom().contains(key));
        assert(digest::has_points(records, key, scope, lane));
    }
}

/// An ad-hoc trend can be had exactly where there are records, one of them has
/// a ratio of the lane in scope, and, where it has to name its own directory,
/// the last one's date can be read.
pub proof fn law_trends_need_a_ratio(
    records: Seq<CommitRecord>,
    scope: Scope,
    name: Seq<char>,
    lane: Lane,
    out: Option<Seq<char>>,
)
    ensures
        digest::trend_fault(records, scope, name, lane, out) is None <==> records.len() > 0
            && any_ratio(records, scope, lane) && (out is Some || dates::rfc3339_moment(
            records.last().date@,
        ) is Ok),
{
    lemma_any_ratio(records, scope, lane);
}

/// Row patterns open the scope to every subject and narrow it to the keys that
/// they name; without them it is the headline subjects, under any key.
pub proof fn law_row_patterns_replace_the_headline(
    headline: Seq<Seq<char>>,
    patterns: Seq<Seq<char>>,
    s: Seq<char>,
)
    ensures
        ({
            let scope = digest::trend_scope(headline, patterns);
            &&& patterns.len() == 0 ==> scope.subjects == headline && config::any_star_match(
                scope.keys,
                s,
            )
            &&& patterns.len() > 0 ==> scope.keys == patterns && config::any_star_match(
                scope.subjects,
                s,
            )
        }),
{
    reveal_strlit("*");
    let all = seq!["*"@];
    assert("*"@.drop_last() =~= Seq::<char>::empty());
    assert(s.take(0) =~= Seq::<char>::empty());
    assert(config::star_match(all[0], s));
    assert(config::any_star_match(all, s));
}

/// An ad-hoc trend lists every row of its lane and draws the topmost of them.
pub proof fn law_trends_show_their_lane(
    t: TrendOutcome,
    store: RepoStore,
    repo: Seq<char>,
    scope: Scope,
    name: Seq<char>,
    pct: Double,
    lane: Lane,
    records: Seq<CommitRecord>,
    out: Option<Seq<char>>,
    i: int,
)
    requires
        digest::is_trend(t, store, repo, scope, name, pct, lane, records, out),
        any_ratio(records, scope, lane),
    ensures
        ({
            let rows = if lane is Walltime {
                t.summary.rows@
            } else {
                t.summary.instr_series->0@
            };
            &&& lane is Instructions ==> t.summary.instr_series is Some
            &&& t.rows@.len() == rows.len()
            &&& 0 <= i < rows.len() ==> t.rows@[i]@ == rows[i].row_key@
            &&& 0 <= i < t.chart.series@.len() ==> t.chart.series@[i].ratios@ == rows[i].ratios@
                && t.chart.series@[i].alerts@ == digest::marks(rows[i].ratios@, pct)
            &&& t.commits@.len() == records.len()
            &&& 0 <= i < records.len() ==> t.commits@[i]@ == records[i].commit@
        }),
{
    lemma_any_ratio(records, scope, lane);
    let rows = digest::lane_rows(t.summary, lane);
    let keys = digest::row_keys(rows);
    assert(text::views(t.rows@).len() == t.rows@.len() && keys.len() == rows.len());
    assert(text::views(t.commits@).len() == t.commits@.len());
    assert(digest::commits_of(records).len() == records.len());
    if 0 <= i < rows.len() {
        assert(text::views(t.rows@)[i] == keys[i]);
    }
    if 0 <= i < records.len() {
        assert(text::views(t.commits@)[i] == digest::commits_of(records)[i]);
    }
    if lane is Instructions && t.summary.instr_series is None {
        let key = choose|key: Seq<char>| #[trigger] digest::has_points(records, key, scope, lane);
        assert(!digest::has_points(records, key, scope, Lane::Instructions));
    }
}

/// The digest of a window is kept among the digests, under the day of its newest
/// commit and the short shas of its oldest and its newest; its charts lie there,
/// and tell of the newest commit's baseline.
pub proof fn law_digests_are_kept_under_their_newest_day(
    d: DigestOutcome,
    store: RepoStore,
    repo: Seq<char>,
    label: Seq<char>,
    scope: Scope,
    pct: Double,
    instr_pct: Double,
    records: Seq<CommitRecord>,
    day: Seq<char>,
)
    requires
        digest::is_digest(d, store, repo, label, scope, pct, instr_pct, records),
        records.len() > 0,
        dates::day_spec(records[records.len() - 1].date@) == Result::<Seq<char>, Seq<char>>::Ok(day),
        day.len() > 0,
        day[0] != '/',
    ensures
        text::has_prefix(d.dir@, store.under("digests"@)),
        text::has_suffix(
            d.dir@,
            "digests"@ + "/"@ + span_name(
                day,
                storage::short_spec(records[0].commit@),
                storage::short_spec(records[records.len() - 1].commit@),
            ),
        ),
        text::has_prefix(d.charts@[0].path@, d.dir@),
        text::has_suffix(d.charts@[0].path@, "trend.png"@),
        text::has_prefix(d.charts@[0].title@, repo),
        d.charts@[0].y_desc@ == digest::y_desc_spec(
            Lane::Walltime,
            records[records.len() - 1].baseline_subject@,
        ),
{
    let (first, last) = (
        storage::short_spec(records[0].commit@),
        storage::short_spec(records[records.len() - 1].commit@),
    );
    reveal_strlit("digests");
    reveal_strlit("trend.png");
    lemma_kept(store, "digests"@, day, first, last);
    let path = d.charts@[0].path@;
    assert(path.take(d.dir@.len() as int) =~= d.dir@);
    assert(path.skip(path.len() - "trend.png"@.len()) =~= "trend.png"@);
    assert(d.charts@[0].title@.take(repo.len() as int) =~= repo);
}

/// `<day>-<first>..<last>`.
pub open spec fn span_name(day: Seq<char>, first: Seq<char>, last: Seq<char>) -> Seq<char> {
    day + "-"@ + first + ".."@ + last
}

proof fn lemma_kept(
    store: RepoStore,
    part: Seq<char>,
    day: Seq<char>,
    first: Seq<char>,
    last: Seq<char>,
)
    requires
        part.len() > 0,
        part[0] != '/',
        part.last() != '/',
        day.len() > 0,
        day[0] != '/',
    ensures
        ({
            let dir = paths::join_spec(store.under(part), span_name(day, first, last));
            &&& dir.len() > 0
            &&& text::has_prefix(dir, store.under(part))
            &&& text::has_suffix(dir, part + "/"@ + span_name(day, first, last))
        }),
{
    reveal_strlit("/");
    let base = store.under(part);
    let name = span_name(day, first, last);
    let dir = paths::join_spec(base, name);
    assert(name[0] == day[0]);
    assert(base.last() == part.last());
    assert(dir == base + "/"@ + name);
    assert(dir.take(base.len() as int) =~= base);
    let end = part + "/"@ + name;
    assert(base.skip(base.len() - part.len()) =~= part);
    assert(dir.skip(dir.len() - end.len()) =~= end);
}

/// The trend of a window lies where it was asked for, or else among the trends,
/// under the day of its newest commit and the short shas of its oldest and its
/// newest.
pub proof fn law_trends_are_kept_under_their_newest_day(
    t: TrendOutcome,
    store: RepoStore,
    repo: Seq<char>,
    scope: Scope,
    name: Seq<char>,
    pct: Double,
    metric: Lane,
    records: Seq<CommitRecord>,
    out: Option<Seq<char>>,
    day: Seq<char>,
)
    requires
        digest::is_trend(t, store, repo, scope, name, pct, metric, records, out),
        records.len() > 0,
        dates::day_spec(records[records.len() - 1].date@) == Result::<Seq<char>, Seq<char>>::Ok(day),
        day.len() > 0,
        day[0] != '/',
    ensures
        out matches Some(dir) ==> t.dir@ == dir,
        out is None ==> text::has_prefix(t.dir@, store.under("trends"@)) && text::has_suffix(
            t.dir@,
            "trends"@ + "/"@ + span_name(
                day,
                storage::short_spec(records[0].commit@),
                storage::short_spec(records[records.len() - 1].commit@),
            ),
        ),
        text::has_prefix(t.chart.title@, repo),
{
    let (first, last) = (
        storage::short_spec(records[0].commit@),
        storage::short_spec(records[records.len() - 1].commit@),
    );
    reveal_strlit("trends");
    lemma_kept(store, "trends"@, day, first, last);
    assert(t.chart.title@.take(repo.len() as int) =~= repo);
}

} // verus!
