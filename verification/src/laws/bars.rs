//! What the relative-speed bars show of the ratios.
use crate::charts::{SpeedBarItem, SubjectColors};
use crate::config;
use crate::config::RepoConfig;
use crate::criterion_results;
use crate::criterion_results::WorkloadRatios;
use crate::double;
use crate::double::Double;
use crate::instructions::InstrWorkloadRatios;
use crate::lane::Lane;
use crate::laws::numbers;
use crate::laws::texts;
use crate::paths;
use crate::pipeline;
use crate::pipeline::{BarsJob, LaneWorkloadRatios};
use crate::sorting;
use crate::sorting::Ranked;
use crate::text;
use vstd::prelude::*;

verus! {

/// Does the `k`th row of the workload hold that ratio, for a headline subject?
pub open spec fn headline_at<T: LaneWorkloadRatios>(
    wl: T,
    headline: Seq<Seq<char>>,
    k: int,
    ratio: Double,
) -> bool {
    &&& 0 <= k < wl.subject_ratios().len()
    &&& wl.subject_ratios()[k].1 == Some(ratio)
    &&& config::any_star_match(headline, wl.subject_ratios()[k].0@)
}

/// Is this the bar of the `k`th row, a headline subject's at that ratio?
pub open spec fn is_bar<T: LaneWorkloadRatios>(
    bar: (String, Double),
    wl: T,
    headline: Seq<Seq<char>>,
    k: int,
    ratio: Double,
) -> bool {
    &&& headline_at(wl, headline, k, ratio)
    &&& bar.0 == wl.subject_ratios()[k].0
    &&& bar.1 == (Double { bits: double::HUNDRED }).div_spec(ratio)
}

/// Is this the bar of one of the first `n` rows?
spec fn is_some_bar<T: LaneWorkloadRatios>(
    bar: (String, Double),
    wl: T,
    headline: Seq<Seq<char>>,
    n: int,
) -> bool {
    exists|k: int, r: Double| k < n && #[trigger] is_bar(bar, wl, headline, k, r)
}

proof fn lemma_bars<T: LaneWorkloadRatios>(wl: T, headline: Seq<Seq<char>>, n: nat)
    requires
        n <= wl.subject_ratios().len(),
    ensures
        forall|j: int|
            0 <= j < pipeline::bars_spec(wl, headline, n).len() ==> is_some_bar(
                #[trigger] pipeline::bars_spec(wl, headline, n)[j],
                wl,
                headline,
                n as int,
            ),
        forall|k: int, r: Double|
            k < n && #[trigger] headline_at(wl, headline, k, r) ==> exists|j: int|
                0 <= j < pipeline::bars_spec(wl, headline, n).len() && is_bar(
                    #[trigger] pipeline::bars_spec(wl, headline, n)[j],
                    wl,
                    headline,
                    k,
                    r,
                ),
    decreases n,
{
    let bars = pipeline::bars_spec(wl, headline, n);
    if n > 0 {
        let m = (n - 1) as nat;
        lemma_bars(wl, headline, m);
        let before = pipeline::bars_spec(wl, headline, m);
        assert forall|j: int| 0 <= j < bars.len() implies is_some_bar(
            #[trigger] bars[j],
            wl,
            headline,
            n as int,
        ) by {
            if j < before.len() {
                assert(bars[j] == before[j]);
                assert(is_some_bar(before[j], wl, headline, m as int));
                let (k, r) = choose|k: int, r: Double|
                    k < m && #[trigger] is_bar(before[j], wl, headline, k, r);
                assert(is_bar(bars[j], wl, headline, k, r));
            } else {
                let r = wl.subject_ratios()[m as int].1->0;
                assert(is_bar(bars[j], wl, headline, m as int, r));
            }
        }
        assert forall|k: int, r: Double|
            k < n && #[trigger] headline_at(wl, headline, k, r) implies exists|j: int|
            0 <= j < bars.len() && is_bar(#[trigger] bars[j], wl, headline, k, r) by {
            if k < m {
                let j = choose|j: int|
                    0 <= j < before.len() && is_bar(#[trigger] before[j], wl, headline, k, r);
                assert(bars[j] == before[j]);
            } else {
                assert(is_bar(bars[before.len() as int], wl, headline, k, r));
            }
        }
    } else {
        assert(bars.len() == 0);
    }
}

proof fn lemma_shown<T: LaneWorkloadRatios>(ratios: Seq<T>, headline: Seq<Seq<char>>)
    ensures
        ({
            let shown = pipeline::shown(ratios, headline);
            &&& forall|i: int|
                0 <= i < shown.len() ==> ratios.contains(#[trigger] shown[i])
                    && pipeline::all_bars(shown[i], headline).len() > 0
            &&& forall|w: int|
                0 <= w < ratios.len() && pipeline::all_bars(#[trigger] ratios[w], headline).len()
                    > 0 ==> shown.contains(ratios[w])
        }),
    decreases ratios.len(),
{
    if ratios.len() > 0 {
        let front = ratios.drop_last();
        let n = ratios.len() - 1;
        lemma_shown(front, headline);
        let before = pipeline::shown(front, headline);
        let shown = pipeline::shown(ratios, headline);
        assert forall|i: int| 0 <= i < shown.len() implies ratios.contains(#[trigger] shown[i])
            && pipeline::all_bars(shown[i], headline).len() > 0 by {
            if i < before.len() {
                assert(shown[i] == before[i]);
                let w = front.index_of(before[i]);
                assert(front[w] == before[i]);
                assert(ratios[w] == shown[i]);
            } else {
                assert(ratios[n] == shown[i]);
            }
        }
        assert forall|w: int|
            0 <= w < ratios.len() && pipeline::all_bars(#[trigger] ratios[w], headline).len()
                > 0 implies shown.contains(ratios[w]) by {
            if w < n {
                assert(front[w] == ratios[w]);
                let i = before.index_of(front[w]);
                assert(before[i] == front[w]);
                assert(shown[i] == ratios[w]);
            } else {
                assert(shown[shown.len() - 1] == ratios[w]);
            }
        }
    }
}

/// Every bar behind the first is the bar of a headline subject with a ratio, in
/// a workload of that item's name.
proof fn lemma_bar_source<T: LaneWorkloadRatios>(
    items: Seq<SpeedBarItem>,
    ratios: Seq<T>,
    baseline: Seq<char>,
    headline: Seq<Seq<char>>,
    i: int,
    j: int,
) -> (r: (int, int, Double))
    requires
        pipeline::are_speed_items(items, ratios, baseline, headline),
        0 <= i < items.len(),
        1 <= j < items[i].bars@.len(),
    ensures
        0 <= r.0 < ratios.len(),
        items[i].item@ == criterion_results::item_spec(
            ratios[r.0].group_of(),
            ratios[r.0].workload_of(),
        ),
        is_bar(items[i].bars@[j], ratios[r.0], headline, r.1, r.2),
{
    let wls = pipeline::shown(ratios, headline);
    lemma_shown(ratios, headline);
    let wl = wls[i];
    assert(pipeline::is_speed_item(items[i], wl, baseline, headline));
    let w = ratios.index_of(wl);
    assert(ratios[w] == wl);
    let bars = pipeline::all_bars(wl, headline);
    lemma_bars(wl, headline, wl.subject_ratios().len());
    sorting::lemma_sorted_contains(bars);
    let bar = items[i].bars@[j];
    assert(items[i].bars@.skip(1)[j - 1] == bar);
    assert(sorting::sorted(bars).contains(bar));
    let b = bars.index_of(bar);
    assert(bars[b] == bar);
    assert(is_some_bar(bars[b], wl, headline, wl.subject_ratios().len() as int));
    let (k, r) = choose|k: int, r: Double|
        k < wl.subject_ratios().len() && #[trigger] is_bar(bars[b], wl, headline, k, r);
    (w, k, r)
}

/// A headline subject slower than the baseline has a bar below 100%, a faster
/// one a bar above 100%. The baseline's own bar comes first, at 100%.
pub proof fn law_slower_subjects_have_shorter_bars<T: LaneWorkloadRatios>(
    items: Seq<SpeedBarItem>,
    ratios: Seq<T>,
    baseline: Seq<char>,
    headline: Seq<Seq<char>>,
    i: int,
    j: int,
)
    requires
        pipeline::are_speed_items(items, ratios, baseline, headline),
        0 <= i < items.len(),
        1 <= j < items[i].bars@.len(),
    ensures
        ({
            let full = Double { bits: double::HUNDRED };
            let one = Double { bits: double::ONE };
            let bar = items[i].bars@[j];
            &&& items[i].bars@[0].0@ == baseline && items[i].bars@[0].1 == full
            &&& exists|w: int, k: int, r: Double|
                0 <= w < ratios.len() && items[i].item@ == criterion_results::item_spec(
                    ratios[w].group_of(),
                    ratios[w].workload_of(),
                ) && #[trigger] headline_at(ratios[w], headline, k, r) && bar.0@
                    == ratios[w].subject_ratios()[k].0@ && (r.finite() && one.lt_spec(r)
                    ==> bar.1.lt_spec(full)) && (!r.neg() && r.lt_spec(one) ==> full.lt_spec(
                    bar.1,
                ))
        }),
{
    assert(pipeline::is_speed_item(
        items[i],
        pipeline::shown(ratios, headline)[i],
        baseline,
        headline,
    ));
    let (w, k, r) = lemma_bar_source(items, ratios, baseline, headline, i, j);
    let one = Double { bits: double::ONE };
    if r.finite() && one.lt_spec(r) {
        numbers::law_a_hundred_over_more_is_less(r);
    }
    if !r.neg() && r.lt_spec(one) {
        numbers::law_a_hundred_over_less_is_more(r);
    }
    assert(headline_at(ratios[w], headline, k, r));
}

/// Of two bars, of the same workload or not, the one of the larger ratio is
/// never the longer one.
pub proof fn law_larger_ratios_never_have_longer_bars<T: LaneWorkloadRatios>(
    items: Seq<SpeedBarItem>,
    ratios: Seq<T>,
    baseline: Seq<char>,
    headline: Seq<Seq<char>>,
    i1: int,
    j1: int,
    i2: int,
    j2: int,
)
    requires
        pipeline::are_speed_items(items, ratios, baseline, headline),
        0 <= i1 < items.len(),
        1 <= j1 < items[i1].bars@.len(),
        0 <= i2 < items.len(),
        1 <= j2 < items[i2].bars@.len(),
    ensures
        exists|w1: int, k1: int, r1: Double, w2: int, k2: int, r2: Double|
            {
                &&& 0 <= w1 < ratios.len() && #[trigger] headline_at(ratios[w1], headline, k1, r1)
                &&& 0 <= w2 < ratios.len() && #[trigger] headline_at(ratios[w2], headline, k2, r2)
                &&& items[i1].bars@[j1].0@ == ratios[w1].subject_ratios()[k1].0@
                &&& items[i2].bars@[j2].0@ == ratios[w2].subject_ratios()[k2].0@
                &&& r1.finite() && r2.finite() && !r1.neg() && !r1.zero() && r1.le_spec(r2)
                    ==> items[i2].bars@[j2].1.le_spec(items[i1].bars@[j1].1)
            },
{
    let (w1, k1, r1) = lemma_bar_source(items, ratios, baseline, headline, i1, j1);
    let (w2, k2, r2) = lemma_bar_source(items, ratios, baseline, headline, i2, j2);
    if r1.finite() && r2.finite() && !r1.neg() && !r1.zero() && r1.le_spec(r2) {
        numbers::law_larger_divisors_give_smaller_quotients(
            Double { bits: double::HUNDRED },
            r1,
            r2,
        );
    }
    assert(headline_at(ratios[w1], headline, k1, r1));
    assert(headline_at(ratios[w2], headline, k2, r2));
}

/// Every headline subject with a ratio has its bar, in an item named after its
/// workload.
pub proof fn law_every_headline_ratio_has_a_bar<T: LaneWorkloadRatios>(
    items: Seq<SpeedBarItem>,
    ratios: Seq<T>,
    baseline: Seq<char>,
    headline: Seq<Seq<char>>,
    w: int,
    k: int,
    r: Double,
)
    requires
        pipeline::are_speed_items(items, ratios, baseline, headline),
        0 <= w < ratios.len(),
        headline_at(ratios[w], headline, k, r),
    ensures
        exists|i: int, j: int|
            0 <= i < items.len() && 1 <= j < items[i].bars@.len() && items[i].item@
                == criterion_results::item_spec(ratios[w].group_of(), ratios[w].workload_of())
                && is_bar(#[trigger] items[i].bars@[j], ratios[w], headline, k, r),
{
    let wls = pipeline::shown(ratios, headline);
    let wl = ratios[w];
    let bars = pipeline::all_bars(wl, headline);
    lemma_bars(wl, headline, wl.subject_ratios().len());
    let b = choose|b: int| 0 <= b < bars.len() && is_bar(#[trigger] bars[b], wl, headline, k, r);
    lemma_shown(ratios, headline);
    assert(wls.contains(wl));
    let i = wls.index_of(wl);
    assert(wls[i] == wl);
    assert(pipeline::is_speed_item(items[i], wls[i], baseline, headline));
    sorting::lemma_sorted_contains(bars);
    assert(bars.contains(bars[b]));
    let sorted = sorting::sorted(bars);
    assert(sorted.contains(bars[b]));
    let j = sorted.index_of(bars[b]);
    assert(sorted[j] == bars[b]);
    assert(items[i].bars@.skip(1)[j] == items[i].bars@[j + 1]);
    assert(is_bar(items[i].bars@[j + 1], ratios[w], headline, k, r));
}

/// Behind the baseline the bars run by subject.
pub proof fn law_bars_run_by_subject<T: LaneWorkloadRatios>(
    items: Seq<SpeedBarItem>,
    ratios: Seq<T>,
    baseline: Seq<char>,
    headline: Seq<Seq<char>>,
    i: int,
    j: int,
    k: int,
)
    requires
        pipeline::are_speed_items(items, ratios, baseline, headline),
        0 <= i < items.len(),
        1 <= j < k < items[i].bars@.len(),
    ensures
        !text::lex_lt(items[i].bars@[k].0@, items[i].bars@[j].0@),
{
    let wl = pipeline::shown(ratios, headline)[i];
    assert(pipeline::is_speed_item(items[i], wl, baseline, headline));
    let bars = pipeline::all_bars(wl, headline);
    assert forall|x: (String, Double), y: (String, Double)| #[trigger]
        x.before(y) implies !y.before(x) by {
        text::lemma_lex_asymmetric(x.0@, y.0@);
    }
    assert forall|x: (String, Double), y: (String, Double), z: (String, Double)|
        !(#[trigger] x.before(y)) && !(#[trigger] y.before(z)) implies !x.before(z) by {
        text::lemma_lex_total(x.0@, y.0@);
        text::lemma_lex_total(y.0@, z.0@);
        if x.before(z) && x.0@ != y.0@ && y.0@ != z.0@ {
            text::lemma_lex_transitive(z.0@, y.0@, x.0@);
            text::lemma_lex_asymmetric(x.0@, z.0@);
        }
    }
    sorting::lemma_sorted_ordered(bars);
    let sorted = sorting::sorted(bars);
    assert(!sorted[k - 1].before(sorted[j - 1]));
    assert(items[i].bars@.skip(1)[j - 1] == items[i].bars@[j]);
    assert(items[i].bars@.skip(1)[k - 1] == items[i].bars@[k]);
}

/// A lane reads its table as it stands: each row's subject with its ratio.
pub proof fn law_lanes_read_their_rows(wl: WorkloadRatios, counted: InstrWorkloadRatios, k: int)
    ensures
        wl.group_of() == wl.group@ && wl.workload_of() == wl.workload@,
        counted.group_of() == counted.group@ && counted.workload_of() == counted.workload@,
        wl.subject_ratios().len() == wl.rows@.len(),
        counted.subject_ratios().len() == counted.rows@.len(),
        0 <= k < wl.rows@.len() ==> wl.subject_ratios()[k] == (
            wl.rows@[k].subject,
            wl.rows@[k].ratio_vs_baseline,
        ),
        0 <= k < counted.rows@.len() ==> counted.subject_ratios()[k] == (
            counted.rows@[k].subject,
            counted.rows@[k].ratio_vs_baseline,
        ),
{
}

/// A lane has a bar chart exactly where one of its workloads has a headline
/// ratio.
pub proof fn law_bar_charts_need_a_headline_ratio<T: LaneWorkloadRatios>(
    job: Option<BarsJob>,
    lane: Lane,
    ratios: Seq<T>,
    repo: RepoConfig,
    sha: Seq<char>,
    dir: Seq<char>,
    colors: SubjectColors,
)
    requires
        pipeline::is_bars_job(job, lane, ratios, repo, sha, dir, colors),
    ensures
        job is Some <==> exists|w: int, k: int, r: Double|
            0 <= w < ratios.len() && #[trigger] headline_at(
                ratios[w],
                text::views(repo.headline_subjects@),
                k,
                r,
            ),
{
    let headline = text::views(repo.headline_subjects@);
    let shown = pipeline::shown(ratios, headline);
    lemma_shown(ratios, headline);
    if shown.len() > 0 {
        let wl = shown[0];
        let w = ratios.index_of(wl);
        assert(ratios[w] == wl);
        lemma_bars(wl, headline, wl.subject_ratios().len());
        let bars = pipeline::all_bars(wl, headline);
        assert(is_some_bar(bars[0], wl, headline, wl.subject_ratios().len() as int));
        let (k, r) = choose|k: int, r: Double|
            k < wl.subject_ratios().len() && #[trigger] is_bar(bars[0], wl, headline, k, r);
        assert(headline_at(ratios[w], headline, k, r));
    }
    if exists|w: int, k: int, r: Double|
        0 <= w < ratios.len() && #[trigger] headline_at(ratios[w], headline, k, r) {
        let (w, k, r) = choose|w: int, k: int, r: Double|
            0 <= w < ratios.len() && #[trigger] headline_at(ratios[w], headline, k, r);
        let wl = ratios[w];
        lemma_bars(wl, headline, wl.subject_ratios().len());
        let bars = pipeline::all_bars(wl, headline);
        let b = choose|b: int|
            0 <= b < bars.len() && is_bar(#[trigger] bars[b], wl, headline, k, r);
        assert(bars.len() > 0);
        assert(pipeline::all_bars(ratios[w], headline).len() > 0);
        assert(shown.contains(ratios[w]));
    }
}

/// The bar charts of the two lanes lie in the commit's directory, each in a file
/// of its own.
pub proof fn law_lanes_have_bar_charts_of_their_own<T: LaneWorkloadRatios>(
    job: BarsJob,
    lane: Lane,
    ratios: Seq<T>,
    repo: RepoConfig,
    sha: Seq<char>,
    dir: Seq<char>,
    colors: SubjectColors,
)
    requires
        pipeline::is_bars_job(Some(job), lane, ratios, repo, sha, dir, colors),
    ensures
        lane is Walltime ==> paths::file_name_spec(job.path@) == Some("compare_bars.png"@),
        lane is Instructions ==> paths::file_name_spec(job.path@) == Some("instr_bars.png"@),
        text::has_prefix(job.path@, dir),
        job.chart.bars@.len() == job.items@.len(),
{
    lemma_bar_files(dir);
}

proof fn lemma_bar_files(dir: Seq<char>)
    ensures
        paths::file_name_spec(paths::join_spec(dir, "compare_bars.png"@)) == Some(
            "compare_bars.png"@,
        ),
        paths::file_name_spec(paths::join_spec(dir, "instr_bars.png"@)) == Some("instr_bars.png"@),
        text::has_prefix(paths::join_spec(dir, "compare_bars.png"@), dir),
        text::has_prefix(paths::join_spec(dir, "instr_bars.png"@), dir),
{
    assert(paths::file_name_spec(paths::join_spec(dir, "compare_bars.png"@)) == Some(
        "compare_bars.png"@,
    ) && "compare_bars.png"@[0] == 'c') by {
        reveal_strlit("compare_bars.png");
        texts::law_joined_names_are_final(dir, "compare_bars.png"@);
    }
    assert(paths::file_name_spec(paths::join_spec(dir, "instr_bars.png"@)) == Some(
        "instr_bars.png"@,
    ) && "instr_bars.png"@[0] == 'i') by {
        reveal_strlit("instr_bars.png");
        texts::law_joined_names_are_final(dir, "instr_bars.png"@);
    }
    lemma_joined_prefix(dir, "compare_bars.png"@);
    lemma_joined_prefix(dir, "instr_bars.png"@);
}

proof fn lemma_joined_prefix(dir: Seq<char>, name: Seq<char>)
    requires
        name.len() > 0 ==> name[0] != '/',
    ensures
        text::has_prefix(paths::join_spec(dir, name), dir),
{
    assert(paths::join_spec(dir, name).take(dir.len() as int) =~= dir);
}

} // verus!
