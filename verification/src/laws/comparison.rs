//! What stands in the comparison table.
use crate::compare;
use crate::compare::CompareTable;
use crate::config;
use crate::criterion_results::{RatioRow, Row, WorkloadRatios};
use crate::double;
use crate::double::Double;
use crate::instructions::{InstrRatioRow, InstrWorkloadRatios};
use crate::laws::history;
use crate::laws::numbers;
use crate::sorting;
use crate::text;
use vstd::arithmetic::power2::*;
use vstd::prelude::*;

verus! {

/// Is this a headline subject's row with that ratio?
pub open spec fn headlines(row: RatioRow, headline: Seq<Seq<char>>, ratio: Double) -> bool {
    config::any_star_match(headline, row.subject@) && row.ratio_vs_baseline == Some(ratio)
}

pub open spec fn instr_headlines(
    row: InstrRatioRow,
    headline: Seq<Seq<char>>,
    ratio: Double,
) -> bool {
    config::any_star_match(headline, row.subject@) && row.ratio_vs_baseline == Some(ratio)
}

proof fn lemma_worst(rows: Seq<RatioRow>, headline: Seq<Seq<char>>)
    ensures
        match compare::worst_ratio(rows, headline) {
            Some(w) => (exists|k: int|
                0 <= k < rows.len() && headlines(#[trigger] rows[k], headline, w)) && (forall|
                k: int,
                r: Double,
            |
                0 <= k < rows.len() && #[trigger] headlines(rows[k], headline, r) ==> !w.lt_spec(r)
                    && (w.nan() ==> r.nan())),
            None => forall|k: int, r: Double|
                0 <= k < rows.len() ==> !(#[trigger] headlines(rows[k], headline, r)),
        },
    decreases rows.len(),
{
    if rows.len() > 0 {
        let front = rows.drop_last();
        let n = rows.len() - 1;
        lemma_worst(front, headline);
        let before = compare::worst_ratio(front, headline);
        match compare::worst_ratio(rows, headline) {
            Some(w) => {
                if before == Some(w) {
                    let k = choose|k: int|
                        0 <= k < front.len() && headlines(#[trigger] front[k], headline, w);
                    assert(headlines(rows[k], headline, w));
                } else {
                    assert(headlines(rows[n], headline, w));
                }
                assert forall|k: int, r: Double|
                    0 <= k < rows.len() && #[trigger] headlines(
                        rows[k],
                        headline,
                        r,
                    ) implies !w.lt_spec(r) && (w.nan() ==> r.nan()) by {
                    if k < n {
                        assert(headlines(front[k], headline, r));
                    }
                }
            },
            None => {
                assert forall|k: int, r: Double| 0 <= k < rows.len() implies !(
                #[trigger] headlines(rows[k], headline, r)) by {
                    if k < n {
                        assert(!headlines(front[k], headline, r));
                    }
                }
            },
        }
    }
}

proof fn lemma_worst_instr(rows: Seq<InstrRatioRow>, headline: Seq<Seq<char>>)
    ensures
        match compare::worst_instr_ratio(rows, headline) {
            Some(w) => (exists|k: int|
                0 <= k < rows.len() && instr_headlines(#[trigger] rows[k], headline, w)) && (forall|
                k: int,
                r: Double,
            |
                0 <= k < rows.len() && #[trigger] instr_headlines(rows[k], headline, r)
                    ==> !w.lt_spec(r) && (w.nan() ==> r.nan())),
            None => forall|k: int, r: Double|
                0 <= k < rows.len() ==> !(#[trigger] instr_headlines(rows[k], headline, r)),
        },
    decreases rows.len(),
{
    if rows.len() > 0 {
        let front = rows.drop_last();
        let n = rows.len() - 1;
        lemma_worst_instr(front, headline);
        let before = compare::worst_instr_ratio(front, headline);
        match compare::worst_instr_ratio(rows, headline) {
            Some(w) => {
                if before == Some(w) {
                    let k = choose|k: int|
                        0 <= k < front.len() && instr_headlines(#[trigger] front[k], headline, w);
                    assert(instr_headlines(rows[k], headline, w));
                } else {
                    assert(instr_headlines(rows[n], headline, w));
                }
                assert forall|k: int, r: Double|
                    0 <= k < rows.len() && #[trigger] instr_headlines(
                        rows[k],
                        headline,
                        r,
                    ) implies !w.lt_spec(r) && (w.nan() ==> r.nan()) by {
                    if k < n {
                        assert(instr_headlines(front[k], headline, r));
                    }
                }
            },
            None => {
                assert forall|k: int, r: Double| 0 <= k < rows.len() implies !(
                #[trigger] instr_headlines(rows[k], headline, r)) by {
                    if k < n {
                        assert(!instr_headlines(front[k], headline, r));
                    }
                }
            },
        }
    }
}

/// The ratio column holds the worst of the headline subjects' ratios: one of
/// them, with none above it. It is empty only where no headline subject of the
/// workload has a ratio.
pub proof fn law_the_ratio_column_is_the_worst_headline(
    table: CompareTable,
    rows: Seq<Row>,
    ratios: Seq<WorkloadRatios>,
    instr: Option<Seq<InstrWorkloadRatios>>,
    order: Seq<Seq<char>>,
    headline: Seq<Seq<char>>,
    i: int,
)
    requires
        compare::is_compare_table(table, rows, ratios, instr, order, headline),
        0 <= i < ratios.len(),
    ensures
        ({
            let measured = ratios[i].rows@;
            match table.rows@[i].headline_ratio {
                Some(w) => {
                    &&& exists|k: int|
                        0 <= k < measured.len() && headlines(#[trigger] measured[k], headline, w)
                    &&& forall|k: int, r: Double|
                        0 <= k < measured.len() && #[trigger] headlines(measured[k], headline, r)
                            ==> !w.lt_spec(r) && (w.nan() ==> r.nan())
                },
                None => forall|k: int, r: Double|
                    0 <= k < measured.len() ==> !(#[trigger] headlines(measured[k], headline, r)),
            }
        }),
{
    assert(compare::is_table_row(
        table.rows@[i],
        ratios[i],
        rows,
        instr,
        text::views(table.subjects@),
        headline,
    ));
    lemma_worst(ratios[i].rows@, headline);
}

/// Is this the last count table of the workload?
pub open spec fn counted_last(
    tables: Seq<InstrWorkloadRatios>,
    t: int,
    group: Seq<char>,
    workload: Seq<char>,
) -> bool {
    &&& 0 <= t < tables.len()
    &&& tables[t].group@ == group
    &&& tables[t].workload@ == workload
    &&& forall|u: int|
        t < u < tables.len() ==> !((#[trigger] tables[u]).group@ == group && tables[u].workload@
            == workload)
}

proof fn lemma_instr_item(tables: Seq<InstrWorkloadRatios>, group: Seq<char>, workload: Seq<char>)
    ensures
        match compare::instr_item(tables, group, workload) {
            Some(rows) => exists|t: int| #[trigger]
                counted_last(tables, t, group, workload) && rows == tables[t].rows@,
            None => forall|t: int|
                0 <= t < tables.len() ==> !((#[trigger] tables[t]).group@ == group
                    && tables[t].workload@ == workload),
        },
    decreases tables.len(),
{
    if tables.len() > 0 {
        let front = tables.drop_last();
        let n = tables.len() - 1;
        lemma_instr_item(front, group, workload);
        if tables[n].group@ == group && tables[n].workload@ == workload {
            assert(counted_last(tables, n, group, workload));
        } else {
            match compare::instr_item(front, group, workload) {
                Some(rows) => {
                    let t = choose|t: int| #[trigger]
                        counted_last(front, t, group, workload) && rows == front[t].rows@;
                    assert forall|u: int| t < u < tables.len() implies !((
                    #[trigger] tables[u]).group@ == group && tables[u].workload@ == workload) by {
                        if u < n {
                            assert(front[u] == tables[u]);
                        }
                    }
                    assert(counted_last(tables, t, group, workload));
                },
                None => {
                    assert forall|t: int| 0 <= t < tables.len() implies !((
                    #[trigger] tables[t]).group@ == group && tables[t].workload@ == workload) by {
                        if t < n {
                            assert(front[t] == tables[t]);
                        }
                    }
                },
            }
        }
    }
}

proof fn lemma_count_cell(rows: Seq<InstrRatioRow>, subject: Seq<char>)
    ensures
        match compare::count_cell(rows, subject) {
            Some(c) => exists|k: int|
                0 <= k < rows.len() && (#[trigger] rows[k]).subject@ == subject && rows[k].count
                    == c && forall|j: int|
                    0 <= j < k ==> (#[trigger] rows[j]).subject@ != subject,
            None => forall|k: int|
                0 <= k < rows.len() ==> (#[trigger] rows[k]).subject@ != subject,
        },
    decreases rows.len(),
{
    if rows.len() > 0 && rows[0].subject@ != subject {
        let rest = rows.drop_first();
        lemma_count_cell(rest, subject);
        match compare::count_cell(rest, subject) {
            Some(c) => {
                let k = choose|k: int|
                    0 <= k < rest.len() && (#[trigger] rest[k]).subject@ == subject && rest[k].count
                        == c && forall|j: int|
                        0 <= j < k ==> (#[trigger] rest[j]).subject@ != subject;
                assert(rows[k + 1] == rest[k]);
                assert forall|j: int| 0 <= j < k + 1 implies (#[trigger] rows[j]).subject@
                    != subject by {
                    if j > 0 {
                        assert(rest[j - 1] == rows[j]);
                    }
                }
            },
            None => {
                assert forall|k: int| 0 <= k < rows.len() implies (#[trigger] rows[k]).subject@
                    != subject by {
                    if k > 0 {
                        assert(rest[k - 1] == rows[k]);
                    }
                }
            },
        }
    }
}

/// Where the instructions lane counted a workload, its row has a count column
/// for every subject, each with that subject's count there, and the worst of
/// the headline subjects' count ratios; where it did not, the row has neither.
pub proof fn law_count_columns_hold_the_counts(
    table: CompareTable,
    rows: Seq<Row>,
    ratios: Seq<WorkloadRatios>,
    tables: Seq<InstrWorkloadRatios>,
    order: Seq<Seq<char>>,
    headline: Seq<Seq<char>>,
    i: int,
    t: int,
    s: int,
)
    requires
        compare::is_compare_table(table, rows, ratios, Some(tables), order, headline),
        0 <= i < ratios.len(),
        counted_last(tables, t, ratios[i].group@, ratios[i].workload@),
    ensures
        ({
            let row = table.rows@[i];
            let counted = tables[t].rows@;
            &&& row.instr matches Some(cells) && cells@.len() == table.subjects@.len() && (0 <= s
                < cells@.len() ==> match cells@[s] {
                Some(c) => exists|k: int|
                    0 <= k < counted.len() && (#[trigger] counted[k]).subject@
                        == table.subjects@[s]@ && counted[k].count == c && forall|j: int|
                        0 <= j < k ==> (#[trigger] counted[j]).subject@ != table.subjects@[s]@,
                None => forall|k: int|
                    0 <= k < counted.len() ==> (#[trigger] counted[k]).subject@
                        != table.subjects@[s]@,
            })
            &&& match row.instr_headline_ratio {
                Some(w) => {
                    &&& exists|k: int|
                        0 <= k < counted.len() && instr_headlines(
                            #[trigger] counted[k],
                            headline,
                            w,
                        )
                    &&& forall|k: int, r: Double|
                        0 <= k < counted.len() && #[trigger] instr_headlines(
                            counted[k],
                            headline,
                            r,
                        ) ==> !w.lt_spec(r) && (w.nan() ==> r.nan())
                },
                None => forall|k: int, r: Double|
                    0 <= k < counted.len() ==> !(#[trigger] instr_headlines(
                        counted[k],
                        headline,
                        r,
                    )),
            }
        }),
{
    let subjects = text::views(table.subjects@);
    let (group, workload) = (ratios[i].group@, ratios[i].workload@);
    assert(compare::is_table_row(
        table.rows@[i],
        ratios[i],
        rows,
        Some(tables),
        subjects,
        headline,
    ));
    lemma_instr_item(tables, group, workload);
    match compare::instr_item(tables, group, workload) {
        Some(found) => {
            let u = choose|u: int| #[trigger]
                counted_last(tables, u, group, workload) && found == tables[u].rows@;
            if u < t {
                assert(tables[t].group@ == group);
            }
            if t < u {
                assert(tables[u].group@ == group);
            }
            assert(u == t);
        },
        None => {
            assert(tables[t].group@ == group);
        },
    }
    let counted = tables[t].rows@;
    lemma_worst_instr(counted, headline);
    if 0 <= s < subjects.len() {
        lemma_count_cell(counted, subjects[s]);
        assert(compare::count_columns(counted, subjects)[s] == compare::count_cell(
            counted,
            subjects[s],
        ));
    }
}

/// A row has no counts where the lane is off or counted nothing of its
/// workload.
pub proof fn law_uncounted_workloads_have_no_counts(
    table: CompareTable,
    rows: Seq<Row>,
    ratios: Seq<WorkloadRatios>,
    instr: Option<Seq<InstrWorkloadRatios>>,
    order: Seq<Seq<char>>,
    headline: Seq<Seq<char>>,
    i: int,
)
    requires
        compare::is_compare_table(table, rows, ratios, instr, order, headline),
        0 <= i < ratios.len(),
        instr matches Some(tables) ==> forall|t: int|
            0 <= t < tables.len() ==> !((#[trigger] tables[t]).group@ == ratios[i].group@
                && tables[t].workload@ == ratios[i].workload@),
    ensures
        table.rows@[i].instr is None,
        table.rows@[i].instr_headline_ratio is None,
{
    assert(compare::is_table_row(
        table.rows@[i],
        ratios[i],
        rows,
        instr,
        text::views(table.subjects@),
        headline,
    ));
    if let Some(tables) = instr {
        lemma_instr_item(tables, ratios[i].group@, ratios[i].workload@);
        if compare::instr_item(tables, ratios[i].group@, ratios[i].workload@) is Some {
            let u = choose|u: int| #[trigger]
                counted_last(tables, u, ratios[i].group@, ratios[i].workload@);
            assert(tables[u].group@ == ratios[i].group@);
        }
    }
}

/// Every measured subject has a column, and no other has one; no subject has
/// two. The subjects of the configured order come first, in that order; the
/// others follow alphabetically.
pub proof fn law_columns_follow_the_configured_order(
    table: CompareTable,
    rows: Seq<Row>,
    ratios: Seq<WorkloadRatios>,
    instr: Option<Seq<InstrWorkloadRatios>>,
    order: Seq<Seq<char>>,
    headline: Seq<Seq<char>>,
    i: int,
    j: int,
)
    requires
        compare::is_compare_table(table, rows, ratios, instr, order, headline),
        0 <= i < j < table.subjects@.len(),
    ensures
        ({
            let (a, b) = (table.subjects@[i]@, table.subjects@[j]@);
            &&& a != b
            &&& exists|k: int| 0 <= k < rows.len() && (#[trigger] rows[k]).subject@ == a
            &&& if order.contains(b) {
                order.contains(a) && order.index_of_first(a).unwrap() < order.index_of_first(
                    b,
                ).unwrap()
            } else {
                order.contains(a) || text::lex_lt(a, b)
            }
        }),
{
    let subjects = text::views(table.subjects@);
    let (a, b) = (subjects[i], subjects[j]);
    assert(compare::rank_lt(subjects[i], subjects[j], order));
    lemma_position(order, a);
    lemma_position(order, b);
    assert(a != b) by {
        text::lemma_lex_irreflexive(a);
        text::lemma_lex_irreflexive(Seq::<char>::empty());
    }
    text::lemma_lex_irreflexive(Seq::<char>::empty());
    assert(subjects.contains(a));
    assert(compare::is_subject(rows, a));
}

proof fn lemma_position(order: Seq<Seq<char>>, s: Seq<char>)
    ensures
        text::position(order, s) <= order.len(),
        order.contains(s) <==> text::position(order, s) < order.len(),
        order.contains(s) ==> order.index_of_first(s) == Some(text::position(order, s) as int),
{
    lemma_position_first(order, s);
    let p = text::position(order, s) as int;
    if order.contains(s) {
        let k = order.index_of(s);
        assert(order[k] == s);
        order.index_of_first_ensures(s);
        let q = order.index_of_first(s).unwrap();
        if q < p {
            assert(order[q] == s);
        }
        if p < q {
            assert(order[p] == s);
        }
    }
    if p < order.len() {
        assert(order[p] == s);
    }
}

proof fn lemma_position_first(order: Seq<Seq<char>>, s: Seq<char>)
    ensures
        ({
            let p = text::position(order, s) as int;
            &&& p <= order.len()
            &&& p < order.len() ==> order[p] == s
            &&& forall|k: int| 0 <= k < p ==> #[trigger] order[k] != s
        }),
    decreases order.len(),
{
    if order.len() > 0 && order[0] != s {
        let rest = order.drop_first();
        lemma_position_first(rest, s);
        let p = text::position(order, s) as int;
        assert forall|k: int| 0 <= k < p implies #[trigger] order[k] != s by {
            if k > 0 {
                assert(rest[k - 1] == order[k]);
            }
        }
        if p < order.len() {
            assert(rest[p - 1] == order[p]);
        }
    }
}

/// A walltime cell is the 95th percentile of the samples of the subject's last
/// row in the workload, in microseconds; it is empty where there is no such
/// row.
pub proof fn law_walltime_cells_read_the_samples(
    table: CompareTable,
    rows: Seq<Row>,
    ratios: Seq<WorkloadRatios>,
    instr: Option<Seq<InstrWorkloadRatios>>,
    order: Seq<Seq<char>>,
    headline: Seq<Seq<char>>,
    i: int,
    s: int,
)
    requires
        compare::is_compare_table(table, rows, ratios, instr, order, headline),
        0 <= i < ratios.len(),
        0 <= s < table.subjects@.len(),
    ensures
        ({
            let wl = ratios[i];
            let subject = table.subjects@[s]@;
            &&& table.rows@[i].p95_us@.len() == table.subjects@.len()
            &&& match table.rows@[i].p95_us@[s] {
                Some(v) => exists|k: int|
                    0 <= k < rows.len() && crate::laws::ratios::measures(
                        #[trigger] rows[k],
                        wl.group@,
                        wl.workload@,
                        subject,
                    ) && v == compare::p95_spec(rows[k].samples_ns@).div_spec(
                        Double { bits: double::THOUSAND },
                    ) && forall|j: int|
                        k < j < rows.len() ==> !crate::laws::ratios::measures(
                            #[trigger] rows[j],
                            wl.group@,
                            wl.workload@,
                            subject,
                        ),
                None => forall|k: int|
                    0 <= k < rows.len() ==> !crate::laws::ratios::measures(
                        #[trigger] rows[k],
                        wl.group@,
                        wl.workload@,
                        subject,
                    ),
            }
        }),
{
    let subjects = text::views(table.subjects@);
    assert(compare::is_table_row(
        table.rows@[i],
        ratios[i],
        rows,
        instr,
        subjects,
        headline,
    ));
    lemma_p95_cell(rows, ratios[i].group@, ratios[i].workload@, subjects[s]);
    assert(table.rows@[i].p95_us@[s] == compare::p95_cell(
        rows,
        ratios[i].group@,
        ratios[i].workload@,
        subjects[s],
    ));
}

proof fn lemma_p95_cell(
    rows: Seq<Row>,
    group: Seq<char>,
    workload: Seq<char>,
    subject: Seq<char>,
)
    ensures
        match compare::p95_cell(rows, group, workload, subject) {
            Some(v) => exists|k: int|
                0 <= k < rows.len() && crate::laws::ratios::measures(
                    #[trigger] rows[k],
                    group,
                    workload,
                    subject,
                ) && v == compare::p95_spec(rows[k].samples_ns@).div_spec(
                    Double { bits: double::THOUSAND },
                ) && forall|j: int|
                    k < j < rows.len() ==> !crate::laws::ratios::measures(
                        #[trigger] rows[j],
                        group,
                        workload,
                        subject,
                    ),
            None => forall|k: int|
                0 <= k < rows.len() ==> !crate::laws::ratios::measures(
                    #[trigger] rows[k],
                    group,
                    workload,
                    subject,
                ),
        },
    decreases rows.len(),
{
    if rows.len() > 0 {
        let n = rows.len() - 1;
        let front = rows.drop_last();
        lemma_p95_cell(front, group, workload, subject);
        if crate::laws::ratios::measures(rows[n], group, workload, subject) {
        } else {
            match compare::p95_cell(front, group, workload, subject) {
                Some(v) => {
                    let k = choose|k: int|
                        0 <= k < front.len() && crate::laws::ratios::measures(
                            #[trigger] front[k],
                            group,
                            workload,
                            subject,
                        ) && v == compare::p95_spec(front[k].samples_ns@).div_spec(
                            Double { bits: double::THOUSAND },
                        ) && forall|j: int|
                            k < j < front.len() ==> !crate::laws::ratios::measures(
                                #[trigger] front[j],
                                group,
                                workload,
                                subject,
                            );
                    assert(front[k] == rows[k]);
                    assert forall|j: int| k < j < rows.len() implies !crate::laws::ratios::measures(
                        #[trigger] rows[j],
                        group,
                        workload,
                        subject,
                    ) by {
                        if j < n {
                            assert(front[j] == rows[j]);
                        }
                    }
                },
                None => {
                    assert forall|k: int| 0 <= k < rows.len() implies !crate::laws::ratios::measures(
                        #[trigger] rows[k],
                        group,
                        workload,
                        subject,
                    ) by {
                        if k < n {
                            assert(front[k] == rows[k]);
                        }
                    }
                },
            }
        }
    }
}

/// The 95th percentile is one of the samples; no sample in front of it, in
/// ascending order, is above it and none behind it below.
pub proof fn law_percentiles_are_samples(samples: Seq<Double>)
    requires
        0 < samples.len() <= u64::MAX,
        history::numbers(samples),
    ensures
        samples.contains(compare::p95_spec(samples)),
        exists|s: Seq<Double>, at: int|
            history::is_arrangement(s, samples) && 0 <= at < s.len() && #[trigger] s[at]
                == compare::p95_spec(samples),
{
    history::lemma_sorted_numbers(samples);
    sorting::lemma_sorted_contains(samples);
    let s = sorting::sorted(samples);
    let at = compare::p95_index(samples.len());
    lemma_ceil_not_negative(
        Double::from_nat_spec(samples.len()).mul_spec(Double { bits: compare::P95 }).units(),
    );
    assert(0 <= at < s.len());
    assert(history::is_arrangement(s, samples));
    assert(s.contains(s[at]));
}

proof fn lemma_ceil_not_negative(units: nat)
    ensures
        double::ceil_spec(units) >= 0,
{
    lemma_pow2_pos(1074);
    let p = pow2(1074) as int;
    assert((units + p - 1) / p >= 0) by (nonlinear_arith)
        requires
            p > 0,
            units >= 0,
    ;
}

/// The 95th percentile stands where 95 of a hundred samples are at or below it,
/// give or take one place.
pub proof fn law_percentiles_stand_near_the_end(n: nat)
    requires
        0 < n < double::LIMIT,
    ensures
        ({
            let at = compare::p95_index(n);
            &&& 0 <= at < n
            &&& 20 * (at + 1) >= 19 * n - 28
            &&& at > 0 ==> 20 * (at + 1) <= 19 * n + 20
        }),
{
    let one = pow2(1074);
    let w = pow2(1021);
    let sig = 0x1E_6666_6666_6666nat;
    lemma_pow2_pos(1074);
    lemma_pow2_pos(1021);
    lemma2_to64_rest();
    lemma_pow2_adds(53, 1021);
    let p95 = Double { bits: compare::P95 };
    assert(p95.units() == sig * w) by {
        assert(double::significand(compare::P95) == sig && double::power(compare::P95) == 1021);
    }
    numbers::law_small_counts_are_exact(n);
    let count = Double::from_nat_spec(n);
    assert(count.units() == n * one);
    let scaled = count.mul_spec(p95);
    let num = count.units() * p95.units();
    let low = (n * sig) / 0x20_0000_0000_0000nat;
    assert(low * 0x20_0000_0000_0000 <= n * sig < (low + 1) * 0x20_0000_0000_0000)
        by (nonlinear_arith)
        requires
            low == (n * sig) / 0x20_0000_0000_0000nat,
    ;
    assert(low + 1 <= n) by (nonlinear_arith)
        requires
            low * 0x20_0000_0000_0000 <= n * sig,
            sig == 0x1E_6666_6666_6666,
            n > 0,
    {
        assert(n * sig < n * 0x20_0000_0000_0000);
    }
    numbers::law_small_counts_are_exact(low);
    numbers::law_small_counts_are_exact(low + 1);
    let (a, b) = (Double::from_nat_spec(low), Double::from_nat_spec(low + 1));
    assert(one == 0x20_0000_0000_0000 * w);
    assert(a.units() * one <= num <= b.units() * one) by (nonlinear_arith)
        requires
            num == (n * one) * (sig * w),
            a.units() == low * one,
            b.units() == (low + 1) * one,
            low * 0x20_0000_0000_0000 <= n * sig < (low + 1) * 0x20_0000_0000_0000,
            one == 0x20_0000_0000_0000 * w,
            w > 0,
    {
        assert((n * one) * (sig * w) == (n * sig) * (one * w));
        assert((low * one) * one == (low * 0x20_0000_0000_0000) * (one * w));
        assert(((low + 1) * one) * one == ((low + 1) * 0x20_0000_0000_0000) * (one * w));
        assert(one * w > 0);
    }
    numbers::law_rounding_crosses_no_double(num, one, a.mag());
    numbers::law_rounding_crosses_no_double(num, one, b.mag());
    let m = scaled.mag();
    assert(a.mag() <= m <= b.mag());
    if a.mag() < m {
        double::lemma_units_increase(a.mag(), m);
    }
    if m < b.mag() {
        double::lemma_units_increase(m, b.mag());
    }
    let u = scaled.units();
    assert(low * one <= u <= (low + 1) * one);
    let rank = double::ceil_spec(u);
    let d = one as int;
    assert(low <= rank <= low + 1) by (nonlinear_arith)
        requires
            rank == (u + d - 1) / d,
            low * d <= u <= (low + 1) * d,
            d > 0,
    ;
    assert(20 * low >= 19 * n - 28 && 20 * (low + 1) <= 19 * n + 20) by (nonlinear_arith)
        requires
            low * 0x20_0000_0000_0000 <= n * sig < (low + 1) * 0x20_0000_0000_0000,
            sig == 0x1E_6666_6666_6666,
            n < 0x20_0000_0000_0000,
    {
        assert(20 * sig == 19 * 0x20_0000_0000_0000 - 8);
        assert(20 * (n * sig) == 19 * n * 0x20_0000_0000_0000 - 8 * n);
    }
}

} // verus!
