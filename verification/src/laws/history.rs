//! What a check says of a row, and what it leaves in the row's history.
use crate::config;
use crate::double;
use crate::double::Double;
use crate::sorting;
use crate::sorting::Ranked;
use crate::state;
use crate::state::{HistoryView, RowHistory, Thresholds, Verdict};
use vstd::prelude::*;

verus! {

/// Numbers in ascending order.
pub open spec fn ascending(s: Seq<Double>) -> bool {
    forall|i: int, j: int| 0 <= i < j < s.len() ==> (#[trigger] s[i]).le_spec(#[trigger] s[j])
}

/// No value is a NaN.
pub open spec fn numbers(s: Seq<Double>) -> bool {
    forall|i: int| 0 <= i < s.len() ==> !(#[trigger] s[i]).nan()
}

pub proof fn lemma_sorted_numbers(s: Seq<Double>)
    requires
        numbers(s),
    ensures
        ascending(sorting::sorted(s)),
        numbers(sorting::sorted(s)),
        sorting::sorted(s).to_multiset() == s.to_multiset(),
        sorting::sorted(s).len() == s.len(),
    decreases s.len(),
{
    sorting::lemma_sorted_multiset(s);
    sorting::lemma_sorted_contains(s);
    if s.len() > 0 {
        let front = s.drop_last();
        let x = s.last();
        assert(numbers(front)) by {
            assert forall|i: int| 0 <= i < front.len() implies !(#[trigger] front[i]).nan() by {
                assert(front[i] == s[i]);
            }
        }
        lemma_sorted_numbers(front);
        let t = sorting::sorted(front);
        let at = sorting::slot(t, x) as int;
        sorting::lemma_slot_props(t, x);
        let all = t.insert(at, x);
        assert(all == sorting::sorted(s));
        assert(!x.nan()) by {
            assert(x == s[s.len() - 1]);
        }
        assert forall|i: int| 0 <= i < all.len() implies !(#[trigger] all[i]).nan() by {
            if i < at {
                assert(all[i] == t[i]);
            } else if i > at {
                assert(all[i] == t[i - 1]);
            }
        }
        assert forall|i: int, j: int| 0 <= i < j < all.len() implies (#[trigger] all[i]).le_spec(
            #[trigger] all[j],
        ) by {
            let p = if i < at { i } else { i - 1 };
            let q = if j < at { j } else { j - 1 };
            if i < at {
                assert(all[i] == t[i]);
            } else if i > at {
                assert(all[i] == t[i - 1]);
            }
            if j < at {
                assert(all[j] == t[j]);
            } else if j > at {
                assert(all[j] == t[j - 1]);
            }
            if j == at {
                assert(!x.before(t[at - 1]));
                if i < at - 1 {
                    assert(t[i].le_spec(t[at - 1]));
                }
            } else if i == at {
                assert(x.before(t[j - 1]));
            } else {
                assert(t[p].le_spec(t[q]));
            }
        }
    }
}

/// `s` in ascending order.
pub open spec fn is_arrangement(s: Seq<Double>, of: Seq<Double>) -> bool {
    ascending(s) && s.to_multiset() == of.to_multiset() && s.len() == of.len()
}

/// The median of an odd number of values is the one in their middle; of an
/// even number it is the mean of the two in their middle.
pub proof fn law_the_median_is_in_the_middle(values: Seq<Double>)
    requires
        values.len() > 0,
        numbers(values),
    ensures
        exists|s: Seq<Double>| #[trigger]
            is_arrangement(s, values) && (values.len() % 2 == 1 ==> state::median_spec(values)
                == s[(values.len() - 1) / 2]) && (values.len() % 2 == 0 ==> state::median_spec(
                values,
            ) == s[values.len() / 2 - 1].add_spec(s[values.len() as int / 2]).div_spec(
                Double { bits: double::TWO },
            )),
{
    lemma_sorted_numbers(values);
    assert(is_arrangement(sorting::sorted(values), values));
}

/// The median of an odd number of values is one of them; at most half of them
/// lie below it and at most half above.
pub proof fn law_odd_medians_split_the_values(values: Seq<Double>)
    requires
        values.len() % 2 == 1,
        numbers(values),
    ensures
        values.contains(state::median_spec(values)),
        2 * values.filter(|v: Double| v.lt_spec(state::median_spec(values))).len() < values.len(),
        2 * values.filter(|v: Double| state::median_spec(values).lt_spec(v)).len() < values.len(),
{
    lemma_sorted_numbers(values);
    sorting::lemma_sorted_contains(values);
    let s = sorting::sorted(values);
    let n = values.len();
    let h = (n / 2) as int;
    let m = state::median_spec(values);
    assert(s[h] == m);
    assert(s.contains(m));
    let below = |v: Double| v.lt_spec(m);
    let above = |v: Double| m.lt_spec(v);
    lemma_filter_counts(s, values, below);
    lemma_filter_counts(s, values, above);
    assert forall|i: int| h <= i < n implies !below(#[trigger] s[i]) by {
        if i > h {
            assert(s[h].le_spec(s[i]));
        }
    }
    assert forall|i: int| 0 <= i <= h implies !above(#[trigger] s[i]) by {
        if i < h {
            assert(s[i].le_spec(s[h]));
        }
    }
    lemma_filter_front(s, below, h);
    lemma_filter_back(s, above, h + 1);
    assert(below =~= (|v: Double| v.lt_spec(state::median_spec(values))));
    assert(above =~= (|v: Double| state::median_spec(values).lt_spec(v)));
}

proof fn lemma_filter_counts(a: Seq<Double>, b: Seq<Double>, p: spec_fn(Double) -> bool)
    requires
        a.to_multiset() == b.to_multiset(),
    ensures
        a.filter(p).len() == b.filter(p).len(),
{
    lemma_filter_multiset(a, p);
    lemma_filter_multiset(b, p);
}

proof fn lemma_filter_multiset(a: Seq<Double>, p: spec_fn(Double) -> bool)
    ensures
        a.filter(p).len() == a.to_multiset().filter(p).len(),
    decreases a.len(),
{
    broadcast use vstd::seq_lib::group_to_multiset_ensures;
    broadcast use vstd::multiset::group_multiset_axioms;

    reveal(Seq::filter);
    if a.len() == 0 {
        assert(a.to_multiset() =~= vstd::multiset::Multiset::empty());
        assert(a.to_multiset().filter(p) =~= vstd::multiset::Multiset::empty());
    } else {
        let front = a.drop_last();
        lemma_filter_multiset(front, p);
        assert(front.push(a.last()) =~= a);
        let m = front.to_multiset();
        assert(a.to_multiset() =~= m.insert(a.last()));
        if p(a.last()) {
            assert(m.insert(a.last()).filter(p) =~= m.filter(p).insert(a.last()));
        } else {
            assert(m.insert(a.last()).filter(p) =~= m.filter(p));
        }
    }
}

proof fn lemma_filter_front(s: Seq<Double>, p: spec_fn(Double) -> bool, h: int)
    requires
        0 <= h <= s.len(),
        forall|i: int| h <= i < s.len() ==> !p(#[trigger] s[i]),
    ensures
        s.filter(p).len() <= h,
    decreases s.len(),
{
    reveal(Seq::filter);
    if s.len() > 0 {
        let front = s.drop_last();
        let k = if h < s.len() { h } else { h - 1 };
        assert forall|i: int| k <= i < front.len() implies !p(#[trigger] front[i]) by {
            assert(front[i] == s[i]);
        }
        lemma_filter_front(front, p, k);
        if h < s.len() {
            assert(!p(s[s.len() - 1]));
        }
    }
}

proof fn lemma_filter_back(s: Seq<Double>, p: spec_fn(Double) -> bool, h: int)
    requires
        0 <= h <= s.len(),
        forall|i: int| 0 <= i < h ==> !p(#[trigger] s[i]),
    ensures
        s.filter(p).len() <= s.len() - h,
    decreases s.len(),
{
    reveal(Seq::filter);
    if s.len() > 0 {
        let front = s.drop_last();
        let k = if h < s.len() { h } else { h - 1 };
        assert forall|i: int| 0 <= i < k implies !p(#[trigger] front[i]) by {
            assert(front[i] == s[i]);
        }
        lemma_filter_back(front, p, k);
        if h == s.len() {
            assert(!p(s[s.len() - 1]));
        }
    }
}

/// Whatever the history and the thresholds, a verdict that carries a current
/// value carries the ratio that was checked, and with it the median of the
/// history before that ratio.
pub proof fn law_verdicts_carry_the_checked_ratio(h: HistoryView, ratio: Double, th: Thresholds)
    ensures
        match state::judge(h, ratio, th) {
            Verdict::NewRegression { median, current, pct_over } => current == ratio && median
                == state::median_spec(h.ratios) && th.regression_pct.lt_spec(pct_over) && pct_over
                == current.sub_spec(median).div_spec(median).mul_spec(
                Double { bits: double::HUNDRED },
            ),
            Verdict::Recovered { median, current } => current == ratio && median
                == state::median_spec(h.ratios),
            _ => true,
        },
{
}

/// A row alerts only where it has a history, is not latched yet, and its ratio
/// lies above the median by more than the threshold; it recovers only where it
/// is latched and is back within the other threshold; and it is quiet
/// otherwise.
pub proof fn law_verdicts_follow_the_distance_from_the_median(
    h: HistoryView,
    ratio: Double,
    th: Thresholds,
)
    ensures
        ({
            let m = state::median_spec(h.ratios);
            let over = ratio.sub_spec(m).div_spec(m).mul_spec(Double { bits: double::HUNDRED });
            let verdict = state::judge(h, ratio, th);
            let seen = h.ratios.len() > 0;
            &&& verdict is FirstRun <==> !seen
            &&& verdict is NewRegression <==> seen && !h.regressed && th.regression_pct.lt_spec(
                over,
            )
            &&& verdict is Healthy <==> seen && !h.regressed && !th.regression_pct.lt_spec(over)
            &&& verdict is Recovered <==> seen && h.regressed && over.le_spec(th.recovery_pct)
            &&& verdict is StillRegressed <==> seen && h.regressed && !over.le_spec(
                th.recovery_pct,
            )
        }),
{
}

/// The latch is set exactly while the row is regressed.
pub proof fn law_the_latch_follows_the_verdict(
    rows: Map<Seq<char>, HistoryView>,
    key: Seq<char>,
    ratio: Double,
    th: Thresholds,
    window: nat,
)
    ensures
        ({
            let verdict = state::judge(state::history_of(rows, key), ratio, th);
            let after = state::recorded(rows, key, ratio, th, window);
            &&& after.dom().contains(key)
            &&& after[key].regressed <==> verdict is NewRegression || verdict is StillRegressed
        }),
{
}

/// A ratio that is not regressed becomes the newest of the window, behind the
/// newest of those that were there, as many as the window takes; a regressed
/// one leaves the window alone.
pub proof fn law_the_window_holds_the_newest_ratios(
    rows: Map<Seq<char>, HistoryView>,
    key: Seq<char>,
    ratio: Double,
    th: Thresholds,
    window: nat,
    i: int,
)
    ensures
        ({
            let before = state::history_of(rows, key).ratios;
            let verdict = state::judge(state::history_of(rows, key), ratio, th);
            let after = state::recorded(rows, key, ratio, th, window)[key].ratios;
            let n = before.len() + 1;
            if verdict is NewRegression || verdict is StillRegressed {
                after == before
            } else {
                &&& after.len() == if n < window { n } else { window }
                &&& after.len() > 0 ==> after.last() == ratio
                &&& 0 <= i < after.len() - 1 ==> after[i] == before[i + n - after.len()]
            }
        }),
{
}

/// A rebaseline drops exactly the rows that one of the patterns names, by its
/// whole text or, with a star at its end, by the text in front of the star.
pub proof fn law_rebaselines_drop_the_named_rows(
    rows: Map<Seq<char>, RowHistory>,
    patterns: Seq<Seq<char>>,
    key: Seq<char>,
)
    ensures
        ({
            let left = state::unmatched(rows, patterns);
            let named = exists|i: int| 0 <= i < patterns.len() && names(#[trigger] patterns[i], key);
            &&& left.dom().contains(key) <==> rows.dom().contains(key) && !named
            &&& left.dom().contains(key) ==> left[key] == rows[key]
        }),
{
    law_patterns_name_values(patterns, key);
}

/// Does a pattern name a value: by its whole text, or by the text in front of
/// the star that it ends with?
pub open spec fn names(pattern: Seq<char>, value: Seq<char>) -> bool {
    if pattern.len() > 0 && pattern[pattern.len() - 1] == '*' {
        value.len() >= pattern.len() - 1 && forall|i: int|
            0 <= i < pattern.len() - 1 ==> #[trigger] value[i] == pattern[i]
    } else {
        value == pattern
    }
}

/// A list of patterns matches the values that one of them names.
pub proof fn law_patterns_name_values(patterns: Seq<Seq<char>>, value: Seq<char>)
    ensures
        config::any_star_match(patterns, value) <==> exists|i: int|
            0 <= i < patterns.len() && names(#[trigger] patterns[i], value),
{
    assert forall|i: int| 0 <= i < patterns.len() implies (config::star_match(
        #[trigger] patterns[i],
        value,
    ) <==> names(patterns[i], value)) by {
        lemma_star(patterns[i], value);
    }
    if config::any_star_match(patterns, value) {
        let i = choose|i: int|
            0 <= i < patterns.len() && config::star_match(#[trigger] patterns[i], value);
        assert(names(patterns[i], value));
    }
    if exists|i: int| 0 <= i < patterns.len() && names(#[trigger] patterns[i], value) {
        let i = choose|i: int| 0 <= i < patterns.len() && names(#[trigger] patterns[i], value);
        assert(config::star_match(patterns[i], value));
    }
}

proof fn lemma_star(pattern: Seq<char>, value: Seq<char>)
    ensures
        config::star_match(pattern, value) <==> names(pattern, value),
{
    if pattern.len() > 0 && pattern.last() == '*' {
        let front = pattern.drop_last();
        if names(pattern, value) {
            assert(value.take(front.len() as int) =~= front);
        }
        if config::star_match(pattern, value) {
            assert forall|i: int| 0 <= i < pattern.len() - 1 implies #[trigger] value[i]
                == pattern[i] by {
                assert(front[i] == pattern[i]);
                assert(value.take(front.len() as int)[i] == value[i]);
            }
        }
    }
}

/// A pattern that is reported as idle is one of those given and names no row; where
/// none is, each names one.
pub proof fn law_idle_patterns_name_no_row(before: state::State, patterns: Seq<Seq<char>>)
    ensures
        match state::idle_pattern(before, patterns) {
            Some(p) => patterns.contains(p) && forall|k: Seq<char>|
                #![trigger config::star_match(p, k)]
                before.rows@.dom().contains(k) || before.instr_rows@.dom().contains(k)
                    ==> !config::star_match(p, k),
            None => forall|i: int|
                0 <= i < patterns.len() ==> names_a_row(before, #[trigger] patterns[i]),
        },
    decreases patterns.len(),
{
    if patterns.len() > 0 {
        let rest = patterns.drop_first();
        if state::idle_pattern(before, patterns) == Some(patterns[0]) && !state::matches_a_row(
            before,
            patterns[0],
        ) {
            assert(patterns.contains(patterns[0]));
        } else {
            law_idle_patterns_name_no_row(before, rest);
            match state::idle_pattern(before, rest) {
                Some(p) => {
                    let i = rest.index_of(p);
                    assert(patterns[i + 1] == p);
                },
                None => {
                    assert(names_a_row(before, patterns[0]));
                    assert forall|i: int| 0 <= i < patterns.len() implies names_a_row(
                        before,
                        #[trigger] patterns[i],
                    ) by {
                        if i > 0 {
                            assert(rest[i - 1] == patterns[i]);
                        }
                    }
                },
            }
        }
    }
}

/// Does a pattern name a row of the walltime or of the instructions lane?
pub open spec fn names_a_row(before: state::State, pattern: Seq<char>) -> bool {
    exists|k: Seq<char>|
        #![trigger config::star_match(pattern, k)]
        (before.rows@.dom().contains(k) || before.instr_rows@.dom().contains(k))
            && config::star_match(pattern, k)
}

} // verus!
