//! The regression state: rolling-median baseline per row, the "currently
//! regressed" latch (so an alert fires once on the state *change*, not every
//! run while a regression is active), and the digest-batch counter.
use crate::config;
use crate::double;
use crate::double::Double;
use crate::sorting;
use crate::strmap;
use crate::strmap::StrMap;
use crate::text;
use vstd::prelude::*;

verus! {

/// One row's rolling window and regression latch.
#[derive(Debug, Clone, PartialEq)]
pub struct RowHistory {
    /// Recent `ratio_vs_baseline` values, oldest first, capped at the
    /// configured rolling window.
    pub recent_ratios: Vec<Double>,
    /// Latched regression state: an alert only fires when this flips.
    pub currently_regressed: bool,
}

/// What a row's history says.
pub struct HistoryView {
    pub ratios: Seq<Double>,
    pub regressed: bool,
}

impl View for RowHistory {
    type V = HistoryView;

    open spec fn view(&self) -> HistoryView {
        HistoryView { ratios: self.recent_ratios@, regressed: self.currently_regressed }
    }
}

/// The history of a row never seen before.
pub open spec fn no_history() -> HistoryView {
    HistoryView { ratios: Seq::empty(), regressed: false }
}

/// The histories of all rows of a lane.
pub open spec fn histories(rows: Map<Seq<char>, RowHistory>) -> Map<Seq<char>, HistoryView> {
    rows.map_values(|h: RowHistory| h@)
}

/// The history of one row, empty where the row was never seen.
pub open spec fn history_of(rows: Map<Seq<char>, HistoryView>, key: Seq<char>) -> HistoryView {
    if rows.dom().contains(key) {
        rows[key]
    } else {
        no_history()
    }
}

/// Every recorded ratio is a finite number.
pub open spec fn all_finite(rows: Map<Seq<char>, HistoryView>) -> bool {
    forall|k: Seq<char>, i: int|
        rows.dom().contains(k) && 0 <= i < rows[k].ratios.len()
            ==> (#[trigger] rows[k].ratios[i]).finite()
}

/// Detection thresholds, both in percent over the rolling median.
#[derive(Debug, Clone, Copy, PartialEq, Eq, Structural)]
pub struct Thresholds {
    /// A healthy row regresses when it rises more than this.
    pub regression_pct: Double,
    /// A latched row recovers only when back within this. A gap between the
    /// two stops a row oscillating around the regression threshold from
    /// emitting an alternating pair of events per run: between the thresholds
    /// it just stays latched.
    pub recovery_pct: Double,
}

impl Thresholds {
    /// No hysteresis: recover in the same band the row regressed past.
    pub fn uniform(pct: Double) -> (r: Thresholds)
        ensures
            r == (Thresholds { regression_pct: pct, recovery_pct: pct }),
    {
        Thresholds { regression_pct: pct, recovery_pct: pct }
    }
}

/// What a check found for one row, relative to its history *before* this run's
/// value is folded in.
#[derive(Debug, Clone, Copy, PartialEq, Eq, Structural)]
pub enum Verdict {
    /// No prior history: establishes the baseline, never alerts.
    FirstRun,
    /// Within threshold; nothing to report.
    Healthy,
    /// Was not regressed last run, is now. Alert.
    NewRegression { median: Double, current: Double, pct_over: Double },
    /// Was already regressed and still is: no new alert.
    StillRegressed,
    /// Was regressed, is back under threshold.
    Recovered { median: Double, current: Double },
}

impl Verdict {
    pub open spec fn regressed_spec(self) -> bool {
        self is NewRegression || self is StillRegressed
    }

    pub fn is_regressed(&self) -> (r: bool)
        ensures
            r == self.regressed_spec(),
    {
        match self {
            Verdict::NewRegression { .. } => true,
            Verdict::StillRegressed => true,
            _ => false,
        }
    }
}

// ---------------------------------------------------------------------------
// Medians
// ---------------------------------------------------------------------------

/// The middle value in order, or the mean of the two middle ones.
pub open spec fn median_spec(values: Seq<Double>) -> Double {
    let s = sorting::sorted(values);
    let n = s.len();
    if n % 2 == 1 {
        s[(n / 2) as int]
    } else {
        s[n / 2 - 1].add_spec(s[(n / 2) as int]).div_spec(Double { bits: double::TWO })
    }
}

/// The median of a set of values that holds no NaN.
pub fn median(values: &Vec<Double>) -> (r: Double)
    requires
        values@.len() > 0,
        forall|i: int| 0 <= i < values@.len() ==> !(#[trigger] values@[i]).nan(),
    ensures
        r == median_spec(values@),
{
    let mut copy: Vec<Double> = Vec::new();
    let mut i: usize = 0;
    while i < values.len()
        invariant
            i <= values@.len(),
            copy@ == values@.take(i as int),
        decreases values@.len() - i,
    {
        copy.push(values[i]);
        assert(values@.take(i + 1) =~= values@.take(i as int).push(values@[i as int]));
        i = i + 1;
    }
    proof {
        assert(values@.take(values@.len() as int) =~= values@);
        sorting::lemma_sorted_multiset(values@);
    }
    let s: Vec<Double> = sorting::sort(copy);
    let n: usize = s.len();
    if n % 2 == 1 {
        s[n / 2]
    } else {
        s[n / 2 - 1].plus(s[n / 2]).over(Double { bits: double::TWO })
    }
}

// ---------------------------------------------------------------------------
// The check
// ---------------------------------------------------------------------------

/// How far `ratio` lies above `median`, in percent.
pub open spec fn pct_over_spec(ratio: Double, median: Double) -> Double {
    ratio.sub_spec(median).div_spec(median).mul_spec(Double { bits: double::HUNDRED })
}

/// The verdict on `ratio` against a row's history.
pub open spec fn judge(h: HistoryView, ratio: Double, th: Thresholds) -> Verdict {
    let median = median_spec(h.ratios);
    let pct_over = pct_over_spec(ratio, median);
    if h.ratios.len() == 0 {
        Verdict::FirstRun
    } else if h.regressed {
        if pct_over.le_spec(th.recovery_pct) {
            Verdict::Recovered { median, current: ratio }
        } else {
            Verdict::StillRegressed
        }
    } else if th.regression_pct.lt_spec(pct_over) {
        Verdict::NewRegression { median, current: ratio, pct_over }
    } else {
        Verdict::Healthy
    }
}

/// The last `n` values.
pub open spec fn last_n(s: Seq<Double>, n: nat) -> Seq<Double> {
    if s.len() <= n {
        s
    } else {
        s.skip(s.len() - n)
    }
}

/// A row's history once its ratio was judged: the latch is set or released, and
/// only a healthy ratio enters the window.
pub open spec fn folded(h: HistoryView, ratio: Double, verdict: Verdict, window: nat) -> HistoryView {
    if verdict.regressed_spec() {
        HistoryView { ratios: h.ratios, regressed: true }
    } else {
        HistoryView { ratios: last_n(h.ratios.push(ratio), window), regressed: false }
    }
}

/// A lane's histories after checking one row.
pub open spec fn recorded(
    rows: Map<Seq<char>, HistoryView>,
    key: Seq<char>,
    ratio: Double,
    th: Thresholds,
    window: nat,
) -> Map<Seq<char>, HistoryView> {
    let h = history_of(rows, key);
    rows.insert(key, folded(h, ratio, judge(h, ratio, th), window))
}

proof fn lemma_histories_insert(rows: Map<Seq<char>, RowHistory>, key: Seq<char>, h: RowHistory)
    ensures
        histories(rows.insert(key, h)) == histories(rows).insert(key, h@),
{
    assert(histories(rows.insert(key, h)) =~= histories(rows).insert(key, h@));
}

/// The regression state of one repo.
#[derive(Debug, Clone, PartialEq)]
pub struct State {
    pub last_seen_sha: Option<String>,
    pub commits_since_digest: u32,
    pub rows: StrMap<RowHistory>,
    /// The instructions lane's rolling windows and latches, keyed by the same
    /// row keys as `rows`. Empty when the lane is off.
    pub instr_rows: StrMap<RowHistory>,
}

impl Default for State {
    fn default() -> (r: State)
        ensures
            r.wf(),
            r.last_seen_sha is None,
            r.commits_since_digest == 0,
            r.rows@ == Map::<Seq<char>, RowHistory>::empty(),
            r.instr_rows@ == Map::<Seq<char>, RowHistory>::empty(),
    {
        State {
            last_seen_sha: None,
            commits_since_digest: 0,
            rows: StrMap::new(),
            instr_rows: StrMap::new(),
        }
    }
}

/// Checks one row of a lane and folds its ratio in: see
/// [`State::check_and_record`].
pub fn check_and_record_in(
    rows: &mut StrMap<RowHistory>,
    row_key: &str,
    ratio: Double,
    thresholds: Thresholds,
    window: usize,
) -> (verdict: Verdict)
    requires
        old(rows).wf(),
        all_finite(histories(old(rows)@)),
        ratio.finite(),
    ensures
        final(rows).wf(),
        all_finite(histories(final(rows)@)),
        verdict == judge(history_of(histories(old(rows)@), row_key@), ratio, thresholds),
        histories(final(rows)@) == recorded(
            histories(old(rows)@),
            row_key@,
            ratio,
            thresholds,
            window as nat,
        ),
{
    let ghost before = old(rows)@;
    let ghost h = history_of(histories(before), row_key@);
    let mut entry: RowHistory = match rows.remove(row_key) {
        Some(found) => found,
        None => RowHistory { recent_ratios: Vec::new(), currently_regressed: false },
    };
    proof {
        assert(entry@.ratios =~= h.ratios);
        assert forall|i: int| 0 <= i < h.ratios.len() implies (#[trigger] h.ratios[i]).finite() by {
            assert(histories(before)[row_key@].ratios[i].finite());
        }
    }
    let verdict: Verdict = if entry.recent_ratios.len() == 0 {
        Verdict::FirstRun
    } else {
        let baseline: Double = median(&entry.recent_ratios);
        let pct_over: Double = ratio.minus(baseline).over(baseline).times(
            Double { bits: double::HUNDRED },
        );
        if entry.currently_regressed {
            if pct_over.le(thresholds.recovery_pct) {
                Verdict::Recovered { median: baseline, current: ratio }
            } else {
                Verdict::StillRegressed
            }
        } else if thresholds.regression_pct.lt(pct_over) {
            Verdict::NewRegression { median: baseline, current: ratio, pct_over }
        } else {
            Verdict::Healthy
        }
    };
    assert(verdict == judge(h, ratio, thresholds));
    entry.currently_regressed = verdict.is_regressed();
    if !verdict.is_regressed() {
        entry.recent_ratios.push(ratio);
        let ghost pushed = h.ratios.push(ratio);
        proof {
            assert(pushed.skip(0) =~= pushed);
        }
        let ghost mut dropped: int = 0;
        while entry.recent_ratios.len() > window
            invariant
                0 <= dropped <= pushed.len(),
                dropped > 0 ==> entry.recent_ratios@.len() >= window,
                entry.recent_ratios@ == pushed.skip(dropped),
                entry.currently_regressed == verdict.regressed_spec(),
            decreases entry.recent_ratios@.len(),
        {
            entry.recent_ratios.remove(0);
            proof {
                dropped = dropped + 1;
                assert(entry.recent_ratios@ =~= pushed.skip(dropped));
            }
        }
        assert(entry.recent_ratios@ =~= last_n(pushed, window as nat));
    }
    let ghost after = folded(h, ratio, verdict, window as nat);
    proof {
        assert(entry@.ratios =~= after.ratios);
        assert(entry@.regressed == after.regressed);
        assert forall|i: int| 0 <= i < after.ratios.len() implies (
        #[trigger] after.ratios[i]).finite() by {
            let pushed = h.ratios.push(ratio);
            if !verdict.regressed_spec() {
                if pushed.len() <= window {
                    assert(after.ratios[i] == pushed[i]);
                } else {
                    assert(after.ratios[i] == pushed[i + pushed.len() - window]);
                }
            }
        }
        lemma_histories_insert(before.remove(row_key@), row_key@, entry);
        assert(histories(before.remove(row_key@)).insert(row_key@, after) =~= histories(
            before,
        ).insert(row_key@, after));
    }
    rows.insert(row_key.to_string(), entry);
    proof {
        let all = histories(rows@);
        assert(all =~= recorded(histories(before), row_key@, ratio, thresholds, window as nat));
        assert forall|k: Seq<char>, i: int|
            all.dom().contains(k) && 0 <= i < all[k].ratios.len() implies (
        #[trigger] all[k].ratios[i]).finite() by {
            if k != row_key@ {
                assert(all[k] == histories(before)[k]);
                assert(histories(before)[k].ratios[i].finite());
            }
        }
    }
    verdict
}

impl State {
    pub open spec fn wf(self) -> bool {
        &&& self.rows.wf()
        &&& self.instr_rows.wf()
        &&& all_finite(histories(self.rows@))
        &&& all_finite(histories(self.instr_rows@))
    }

    /// Compares `ratio` (this run's `ratio_vs_baseline` for `row_key`) against
    /// the rolling median of its history so far, records the verdict's
    /// regression latch, then folds `ratio` into the window.
    ///
    /// Regressed values are *not* folded into the window: otherwise a
    /// sustained regression would converge the median onto the regressed level
    /// and silently rebaseline. The baseline stays frozen while a row is
    /// regressed.
    pub fn check_and_record(
        &mut self,
        row_key: &str,
        ratio: Double,
        thresholds: Thresholds,
        window: usize,
    ) -> (verdict: Verdict)
        requires
            old(self).wf(),
            ratio.finite(),
        ensures
            final(self).wf(),
            verdict == judge(history_of(histories(old(self).rows@), row_key@), ratio, thresholds),
            histories(final(self).rows@) == recorded(
                histories(old(self).rows@),
                row_key@,
                ratio,
                thresholds,
                window as nat,
            ),
            final(self).instr_rows == old(self).instr_rows,
            final(self).last_seen_sha == old(self).last_seen_sha,
            final(self).commits_since_digest == old(self).commits_since_digest,
    {
        check_and_record_in(&mut self.rows, row_key, ratio, thresholds, window)
    }

    /// [`State::check_and_record`] for the instructions lane: identical
    /// semantics against the row's history in `instr_rows` — the two lanes'
    /// windows and latches never mix.
    pub fn check_and_record_instr(
        &mut self,
        row_key: &str,
        ratio: Double,
        thresholds: Thresholds,
        window: usize,
    ) -> (verdict: Verdict)
        requires
            old(self).wf(),
            ratio.finite(),
        ensures
            final(self).wf(),
            verdict == judge(
                history_of(histories(old(self).instr_rows@), row_key@),
                ratio,
                thresholds,
            ),
            histories(final(self).instr_rows@) == recorded(
                histories(old(self).instr_rows@),
                row_key@,
                ratio,
                thresholds,
                window as nat,
            ),
            final(self).rows == old(self).rows,
            final(self).last_seen_sha == old(self).last_seen_sha,
            final(self).commits_since_digest == old(self).commits_since_digest,
    {
        check_and_record_in(&mut self.instr_rows, row_key, ratio, thresholds, window)
    }

    /// Bumps the digest counter; returns `true` when it has reached
    /// `batch_size`.
    pub fn bump_digest_counter(&mut self, batch_size: u32) -> (r: bool)
        requires
            old(self).commits_since_digest < u32::MAX,
        ensures
            final(self).commits_since_digest == old(self).commits_since_digest + 1,
            r == (final(self).commits_since_digest >= batch_size),
            final(self).rows == old(self).rows,
            final(self).instr_rows == old(self).instr_rows,
            final(self).last_seen_sha == old(self).last_seen_sha,
    {
        self.commits_since_digest = self.commits_since_digest + 1;
        self.commits_since_digest >= batch_size
    }

    pub fn reset_digest_counter(&mut self)
        ensures
            final(self).commits_since_digest == 0,
            final(self).rows == old(self).rows,
            final(self).instr_rows == old(self).instr_rows,
            final(self).last_seen_sha == old(self).last_seen_sha,
    {
        self.commits_since_digest = 0;
    }
}

// ---------------------------------------------------------------------------
// Rebaselining
// ---------------------------------------------------------------------------

/// The rows that no pattern matches.
pub open spec fn unmatched(
    rows: Map<Seq<char>, RowHistory>,
    patterns: Seq<Seq<char>>,
) -> Map<Seq<char>, RowHistory> {
    rows.restrict(Set::new(|k: Seq<char>| !config::any_star_match(patterns, k)))
}

/// Removes the matching rows of one lane, adding their keys to `cleared`.
fn clear_lane(
    rows: &mut StrMap<RowHistory>,
    patterns: &Vec<String>,
    cleared: &mut StrMap<bool>,
)
    requires
        old(rows).wf(),
        old(cleared).wf(),
    ensures
        final(rows).wf(),
        final(cleared).wf(),
        final(rows)@ == unmatched(old(rows)@, text::views(patterns@)),
        forall|k: Seq<char>| #[trigger]
            final(cleared)@.dom().contains(k) <==> old(cleared)@.dom().contains(k) || (old(
                rows,
            )@.dom().contains(k) && config::any_star_match(text::views(patterns@), k)),
{
    let ghost before = *old(rows);
    let ghost pats = text::views(patterns@);
    let mut matched: Vec<String> = Vec::new();
    let mut i: usize = 0;
    while i < rows.len()
        invariant
            *rows == before,
            before.wf(),
            pats == text::views(patterns@),
            i <= before.keys().len(),
            forall|k: Seq<char>| #[trigger]
                text::views(matched@).contains(k) <==> before.keys().take(i as int).contains(k)
                    && config::any_star_match(pats, k),
        decreases before.keys().len() - i,
    {
        let key: &String = rows.key_at(i);
        let ghost had = matched@;
        let ghost seen = before.keys().take(i as int);
        let ghost next = before.keys().take(i + 1);
        proof {
            assert(next =~= seen.push(key@));
            lemma_push_contains(seen, key@);
        }
        if config::any_pattern_matches(patterns, key.as_str()) {
            matched.push(key.clone());
            proof {
                text::lemma_views_push(had, matched@.last());
                lemma_push_contains(text::views(had), key@);
            }
        }
        i = i + 1;
    }
    assert(before.keys().take(before.keys().len() as int) =~= before.keys());
    let ghost all = text::views(matched@);
    let ghost cleared0 = cleared@;
    let mut m: usize = 0;
    while m < matched.len()
        invariant
            rows.wf(),
            cleared.wf(),
            all == text::views(matched@),
            m <= matched@.len(),
            forall|k: Seq<char>| #[trigger]
                rows@.dom().contains(k) <==> before@.dom().contains(k) && !all.take(
                    m as int,
                ).contains(k),
            forall|k: Seq<char>| #[trigger]
                rows@.dom().contains(k) ==> rows@[k] == before@[k],
            forall|k: Seq<char>| #[trigger]
                cleared@.dom().contains(k) <==> cleared0.dom().contains(k) || all.take(
                    m as int,
                ).contains(k),
        decreases matched@.len() - m,
    {
        proof {
            assert(all.take(m + 1) =~= all.take(m as int).push(matched@[m as int]@));
            lemma_push_contains(all.take(m as int), matched@[m as int]@);
        }
        let key: String = matched[m].clone();
        rows.remove(key.as_str());
        cleared.insert(key, true);
        m = m + 1;
    }
    proof {
        assert(all.take(all.len() as int) =~= all);
        assert(rows@ =~= unmatched(before@, pats));
    }
}

proof fn lemma_push_contains(s: Seq<Seq<char>>, x: Seq<char>)
    ensures
        forall|k: Seq<char>| #[trigger] s.push(x).contains(k) <==> s.contains(k) || k == x,
{
    assert forall|k: Seq<char>| #[trigger] s.push(x).contains(k) <==> s.contains(k) || k == x by {
        if s.contains(k) {
            let i = s.index_of(k);
            assert(s.push(x)[i] == k);
        }
        if k == x {
            assert(s.push(x)[s.len() as int] == k);
        }
        if s.push(x).contains(k) {
            let i = s.push(x).index_of(k);
            if i < s.len() {
                assert(s[i] == k);
            }
        }
    }
}

impl State {
    /// Accepts a new performance level for the rows matching `patterns`
    /// (exact row keys or trailing-`*` prefixes): drops their rolling history
    /// and their regression latch, in both lanes, so the next run re-baselines
    /// them without an alert. Returns the cleared row keys, in order and
    /// without duplicates.
    pub fn clear_rows(&mut self, patterns: &Vec<String>) -> (r: Vec<String>)
        requires
            old(self).wf(),
        ensures
            final(self).wf(),
            final(self).rows@ == unmatched(old(self).rows@, text::views(patterns@)),
            final(self).instr_rows@ == unmatched(old(self).instr_rows@, text::views(patterns@)),
            final(self).last_seen_sha == old(self).last_seen_sha,
            final(self).commits_since_digest == old(self).commits_since_digest,
            strmap::increasing(text::views(r@)),
            forall|k: Seq<char>| #[trigger]
                text::views(r@).contains(k) <==> (old(self).rows@.dom().contains(k) || old(
                    self,
                ).instr_rows@.dom().contains(k)) && config::any_star_match(
                    text::views(patterns@),
                    k,
                ),
    {
        let mut cleared: StrMap<bool> = StrMap::new();
        clear_lane(&mut self.rows, patterns, &mut cleared);
        clear_lane(&mut self.instr_rows, patterns, &mut cleared);
        proof {
            lemma_unmatched_finite(old(self).rows@, text::views(patterns@));
            lemma_unmatched_finite(old(self).instr_rows@, text::views(patterns@));
        }
        let mut out: Vec<String> = Vec::new();
        let mut i: usize = 0;
        while i < cleared.len()
            invariant
                i <= cleared.keys().len(),
                text::views(out@) == cleared.keys().take(i as int),
            decreases cleared.keys().len() - i,
        {
            let ghost had = out@;
            out.push(cleared.key_at(i).clone());
            proof {
                text::lemma_views_push(had, out@.last());
                assert(cleared.keys().take(i + 1) =~= cleared.keys().take(i as int).push(
                    cleared.keys()[i as int],
                ));
            }
            i = i + 1;
        }
        proof {
            assert(cleared.keys().take(cleared.keys().len() as int) =~= cleared.keys());
            assert forall|k: Seq<char>| #[trigger]
                text::views(out@).contains(k) <==> cleared@.dom().contains(k) by {
                assert(cleared.has(k) <==> cleared.keys().contains(k));
            }
        }
        out
    }
}

/// Does a pattern match a row of either lane?
pub open spec fn matches_a_row(state: State, pattern: Seq<char>) -> bool {
    exists|k: Seq<char>|
        (state.rows@.dom().contains(k) || state.instr_rows@.dom().contains(k))
            && #[trigger] config::star_match(pattern, k)
}

/// The first pattern that matches no row.
pub open spec fn idle_pattern(state: State, patterns: Seq<Seq<char>>) -> Option<Seq<char>>
    decreases patterns.len(),
{
    if patterns.len() == 0 {
        None
    } else if !matches_a_row(state, patterns[0]) {
        Some(patterns[0])
    } else {
        idle_pattern(state, patterns.drop_first())
    }
}

/// Does a pattern match a key of the map?
fn matches_key(rows: &StrMap<RowHistory>, pattern: &str) -> (r: bool)
    requires
        rows.wf(),
    ensures
        r == exists|k: Seq<char>|
            rows@.dom().contains(k) && #[trigger] config::star_match(pattern@, k),
{
    let n: usize = rows.len();
    let mut i: usize = 0;
    while i < n
        invariant
            rows.wf(),
            n == rows.keys().len(),
            i <= n,
            forall|j: int| 0 <= j < i ==> !config::star_match(pattern@, #[trigger] rows.keys()[j]),
        decreases n - i,
    {
        let key: &String = rows.key_at(i);
        if config::star_pattern_matches(pattern, key.as_str()) {
            proof {
                rows.lemma_nth(i as int);
                assert(rows@.dom().contains(key@) && config::star_match(pattern@, key@));
            }
            return true;
        }
        i = i + 1;
    }
    assert forall|k: Seq<char>| rows@.dom().contains(k) implies !#[trigger] config::star_match(
        pattern@,
        k,
    ) by {
        assert(rows.has(k));
        let j = rows.keys().index_of(k);
        assert(rows.keys()[j] == k);
    }
    false
}

impl State {
    /// [`State::clear_rows`] on request: a pattern that matches nothing is an
    /// error, and then nothing is cleared.
    pub fn rebaseline(&mut self, patterns: &Vec<String>) -> (r: Result<Vec<String>, String>)
        requires
            old(self).wf(),
        ensures
            final(self).wf(),
            match r {
                Ok(cleared) => {
                    &&& idle_pattern(*old(self), text::views(patterns@)) is None
                    &&& final(self).rows@ == unmatched(old(self).rows@, text::views(patterns@))
                    &&& final(self).instr_rows@ == unmatched(
                        old(self).instr_rows@,
                        text::views(patterns@),
                    )
                    &&& final(self).last_seen_sha == old(self).last_seen_sha
                    &&& final(self).commits_since_digest == old(self).commits_since_digest
                    &&& strmap::increasing(text::views(cleared@))
                    &&& forall|k: Seq<char>| #[trigger]
                        text::views(cleared@).contains(k) <==> (old(self).rows@.dom().contains(k)
                            || old(self).instr_rows@.dom().contains(k)) && config::any_star_match(
                            text::views(patterns@),
                            k,
                        )
                },
                Err(e) => {
                    &&& *final(self) == *old(self)
                    &&& idle_pattern(*old(self), text::views(patterns@)) matches Some(p)
                    &&& e@ == "no stored row matches '"@ + p + "'"@
                },
            },
    {
        let ghost all = text::views(patterns@);
        assert(all.skip(0) =~= all);
        let mut i: usize = 0;
        while i < patterns.len()
            invariant
                *self == *old(self),
                self.wf(),
                i <= patterns@.len(),
                all == text::views(patterns@),
                idle_pattern(*old(self), all) == idle_pattern(*old(self), all.skip(i as int)),
            decreases patterns@.len() - i,
        {
            let pattern: &str = patterns[i].as_str();
            assert(all.skip(i as int)[0] == pattern@);
            let walltime: bool = matches_key(&self.rows, pattern);
            let counted: bool = matches_key(&self.instr_rows, pattern);
            if !walltime && !counted {
                return Err(text::cat3("no stored row matches '", pattern, "'"));
            }
            assert(all.skip(i as int).drop_first() =~= all.skip(i + 1));
            i = i + 1;
        }
        assert(all.skip(i as int).len() == 0);
        Ok(self.clear_rows(patterns))
    }
}

proof fn lemma_unmatched_finite(rows: Map<Seq<char>, RowHistory>, patterns: Seq<Seq<char>>)
    requires
        all_finite(histories(rows)),
    ensures
        all_finite(histories(unmatched(rows, patterns))),
{
    let all = histories(unmatched(rows, patterns));
    assert forall|k: Seq<char>, i: int|
        all.dom().contains(k) && 0 <= i < all[k].ratios.len() implies (
    #[trigger] all[k].ratios[i]).finite() by {
        assert(histories(rows).dom().contains(k));
        assert(all[k] == histories(rows)[k]);
        assert(histories(rows)[k].ratios[i].finite());
    }
}

// ---------------------------------------------------------------------------
// Laws
// ---------------------------------------------------------------------------

/// A row without history never alerts: its first ratio becomes the baseline.
pub proof fn law_first_run_never_alerts(h: HistoryView, ratio: Double, th: Thresholds, window: nat)
    requires
        h.ratios.len() == 0,
        window >= 1,
    ensures
        judge(h, ratio, th) == Verdict::FirstRun,
        folded(h, ratio, judge(h, ratio, th), window) == (HistoryView {
            ratios: seq![ratio],
            regressed: false,
        }),
{
    assert(h.ratios.push(ratio) =~= seq![ratio]);
}

/// A regression alert fires once: as long as the row stays latched, no later
/// ratio, whatever it is, raises a second one.
pub proof fn law_regression_fires_once(
    h: HistoryView,
    ratio: Double,
    next: Double,
    th: Thresholds,
    next_th: Thresholds,
    window: nat,
)
    requires
        judge(h, ratio, th).regressed_spec(),
    ensures
        ({
            let latched = folded(h, ratio, judge(h, ratio, th), window);
            let verdict = judge(latched, next, next_th);
            verdict is StillRegressed || verdict is Recovered
        }),
{
}

/// A regressed ratio never enters the window: the baseline is frozen while a
/// row is regressed.
pub proof fn law_baseline_frozen_while_regressed(
    h: HistoryView,
    ratio: Double,
    th: Thresholds,
    window: nat,
)
    requires
        judge(h, ratio, th).regressed_spec(),
    ensures
        folded(h, ratio, judge(h, ratio, th), window).ratios == h.ratios,
        median_spec(folded(h, ratio, judge(h, ratio, th), window).ratios) == median_spec(h.ratios),
{
}

/// A row's history after `n` more runs at the same ratio.
pub open spec fn held(h: HistoryView, ratio: Double, th: Thresholds, window: nat, n: nat) -> HistoryView
    decreases n,
{
    if n == 0 {
        h
    } else {
        let before = held(h, ratio, th, window, (n - 1) as nat);
        folded(before, ratio, judge(before, ratio, th), window)
    }
}

/// A regression held at the same level, for however many runs, stays
/// regressed: it never recovers by converging the baseline onto itself.
pub proof fn law_sustained_regression_never_recovers(
    h: HistoryView,
    ratio: Double,
    th: Thresholds,
    window: nat,
    n: nat,
)
    requires
        th.recovery_pct.le_spec(th.regression_pct),
        judge(h, ratio, th) is NewRegression,
        n >= 1,
    ensures
        judge(held(h, ratio, th, window, n), ratio, th) == Verdict::StillRegressed,
        held(h, ratio, th, window, n).ratios == h.ratios,
    decreases n,
{
    if n > 1 {
        law_sustained_regression_never_recovers(h, ratio, th, window, (n - 1) as nat);
    } else {
        assert(held(h, ratio, th, window, 0) == h);
    }
    let before = held(h, ratio, th, window, (n - 1) as nat);
    assert(held(h, ratio, th, window, n) == folded(
        before,
        ratio,
        judge(before, ratio, th),
        window,
    ));
}

/// Between the two thresholds a latched row stays latched and quiet.
pub proof fn law_hysteresis_gap_holds_the_latch(
    h: HistoryView,
    ratio: Double,
    th: Thresholds,
    window: nat,
)
    requires
        h.ratios.len() > 0,
        h.regressed,
        th.recovery_pct.lt_spec(pct_over_spec(ratio, median_spec(h.ratios))),
    ensures
        judge(h, ratio, th) == Verdict::StillRegressed,
        folded(h, ratio, Verdict::StillRegressed, window) == h,
{
}

/// A recovery fires once: the row is healthy afterwards, and the next run
/// reports neither a recovery nor a standing regression.
pub proof fn law_recovery_fires_once(
    h: HistoryView,
    ratio: Double,
    next: Double,
    th: Thresholds,
    window: nat,
)
    requires
        judge(h, ratio, th) is Recovered,
    ensures
        ({
            let healthy = folded(h, ratio, judge(h, ratio, th), window);
            let verdict = judge(healthy, next, th);
            !healthy.regressed && !(verdict is Recovered) && !(verdict is StillRegressed)
        }),
{
}

/// A row whose ratio comes back to exactly its frozen median recovers.
pub proof fn law_back_to_median_recovers(h: HistoryView, th: Thresholds)
    requires
        h.ratios.len() > 0,
        h.regressed,
        median_spec(h.ratios).finite(),
        !median_spec(h.ratios).zero(),
        (Double { bits: 0 }).le_spec(th.recovery_pct),
    ensures
        ({
            let median = median_spec(h.ratios);
            judge(h, median, th) == Verdict::Recovered { median, current: median }
        }),
{
    double::lemma_nothing_over(median_spec(h.ratios), Double { bits: double::HUNDRED });
}

/// The window never outgrows its cap.
pub proof fn law_window_is_capped(h: HistoryView, ratio: Double, th: Thresholds, window: nat)
    requires
        h.ratios.len() <= window,
    ensures
        folded(h, ratio, judge(h, ratio, th), window).ratios.len() <= window,
{
}

/// Checking one row leaves every other row's window and latch alone.
pub proof fn law_rows_are_independent(
    rows: Map<Seq<char>, HistoryView>,
    key: Seq<char>,
    other: Seq<char>,
    ratio: Double,
    th: Thresholds,
    window: nat,
)
    requires
        key != other,
    ensures
        history_of(recorded(rows, key, ratio, th, window), other) == history_of(rows, other),
{
}

/// A rebaselined row starts over: whatever its next ratio is, the run is its
/// first, without an alert. Rows that no pattern matches are untouched.
pub proof fn law_rebaselined_row_starts_over(
    rows: Map<Seq<char>, RowHistory>,
    patterns: Seq<Seq<char>>,
    key: Seq<char>,
    ratio: Double,
    th: Thresholds,
)
    ensures
        ({
            let after = histories(unmatched(rows, patterns));
            if config::any_star_match(patterns, key) {
                judge(history_of(after, key), ratio, th) == Verdict::FirstRun
            } else {
                history_of(after, key) == history_of(histories(rows), key)
            }
        }),
{
}

} // verus!
