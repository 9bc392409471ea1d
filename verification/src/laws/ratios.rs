//! What a ratio is, over the rows that were measured.
use crate::criterion_results;
use crate::criterion_results::{RatioCell, RatioInput, Row, WorkloadRatios};
use crate::double::Double;
use crate::instructions;
use crate::instructions::{InstrRow, InstrWorkloadRatios};
use crate::keyed;
use crate::keyed::Keyed;
use crate::sorting;
use crate::sorting::Ranked;
use crate::text;
use vstd::prelude::*;

verus! {

/// A value over its baseline: there is a ratio exactly where the baseline is a
/// positive number and the quotient is finite.
pub open spec fn is_ratio(r: Option<Double>, value: Double, baseline: Double) -> bool {
    let there = baseline.finite() && baseline.value() > 0 && value.div_spec(baseline).finite();
    match r {
        Some(ratio) => there && ratio == value.div_spec(baseline),
        None => !there,
    }
}

/// Is this a measurement of the subject in the group's workload?
pub open spec fn measures(
    row: Row,
    group: Seq<char>,
    workload: Seq<char>,
    subject: Seq<char>,
) -> bool {
    row.group@ == group && row.workload@ == workload && row.subject@ == subject
}

/// Is this a count of the subject in the group's workload?
pub open spec fn counts(
    row: InstrRow,
    group: Seq<char>,
    workload: Seq<char>,
    subject: Seq<char>,
) -> bool {
    row.group@ == group && row.workload@ == workload && row.subject@ == subject
}

/// A cell holds the ratio of the row it points to.
spec fn is_cell<R: RatioInput>(
    c: RatioCell,
    rows: Seq<R>,
    group: Seq<char>,
    workload: Seq<char>,
    baseline: Option<Double>,
) -> bool {
    &&& c.index < rows.len()
    &&& criterion_results::in_workload(rows[c.index as int], group, workload)
    &&& c.subject == rows[c.index as int].subject_of()
    &&& c.ratio == criterion_results::ratio_spec(rows[c.index as int].value_of(), baseline)
}

proof fn lemma_cells<R: RatioInput>(
    rows: Seq<R>,
    group: Seq<char>,
    workload: Seq<char>,
    baseline: Option<Double>,
)
    requires
        rows.len() <= usize::MAX,
    ensures
        ({
            let cells = criterion_results::cells(rows, group, workload, baseline);
            &&& forall|j: int|
                0 <= j < cells.len() ==> is_cell(
                    #[trigger] cells[j],
                    rows,
                    group,
                    workload,
                    baseline,
                )
            &&& forall|i: int, j: int|
                0 <= i < j < cells.len() ==> (#[trigger] cells[i]).index < (
                #[trigger] cells[j]).index
            &&& forall|k: int|
                0 <= k < rows.len() && criterion_results::in_workload(
                    #[trigger] rows[k],
                    group,
                    workload,
                ) ==> exists|j: int| 0 <= j < cells.len() && (#[trigger] cells[j]).index == k
        }),
    decreases rows.len(),
{
    if rows.len() > 0 {
        let front = rows.drop_last();
        lemma_cells(front, group, workload, baseline);
        let before = criterion_results::cells(front, group, workload, baseline);
        let cells = criterion_results::cells(rows, group, workload, baseline);
        assert forall|j: int| 0 <= j < cells.len() implies is_cell(
            #[trigger] cells[j],
            rows,
            group,
            workload,
            baseline,
        ) by {
            if j < before.len() {
                assert(cells[j] == before[j]);
                assert(front[before[j].index as int] == rows[before[j].index as int]);
            }
        }
        assert forall|i: int, j: int| 0 <= i < j < cells.len() implies (#[trigger] cells[i]).index
            < (#[trigger] cells[j]).index by {
            assert(cells[i] == before[i]);
            if j < before.len() {
                assert(cells[j] == before[j]);
            }
        }
        assert forall|k: int|
            0 <= k < rows.len() && criterion_results::in_workload(
                #[trigger] rows[k],
                group,
                workload,
            ) implies exists|j: int| 0 <= j < cells.len() && (#[trigger] cells[j]).index == k by {
            if k < front.len() {
                assert(front[k] == rows[k]);
                let j = choose|j: int| 0 <= j < before.len() && (#[trigger] before[j]).index == k;
                assert(cells[j].index == k);
            } else {
                assert(cells[cells.len() - 1].index == k);
            }
        }
    }
}

proof fn lemma_baseline<R: RatioInput>(
    rows: Seq<R>,
    group: Seq<char>,
    workload: Seq<char>,
    baseline: Seq<char>,
)
    ensures
        match criterion_results::first_baseline(rows, group, workload, baseline) {
            Some(v) => exists|k: int|
                0 <= k < rows.len() && criterion_results::in_workload(
                    #[trigger] rows[k],
                    group,
                    workload,
                ) && rows[k].subject_of()@ == baseline && rows[k].value_of() == v && forall|j: int|
                    0 <= j < k ==> !(criterion_results::in_workload(
                        #[trigger] rows[j],
                        group,
                        workload,
                    ) && rows[j].subject_of()@ == baseline),
            None => forall|j: int|
                0 <= j < rows.len() ==> !(criterion_results::in_workload(
                    #[trigger] rows[j],
                    group,
                    workload,
                ) && rows[j].subject_of()@ == baseline),
        },
    decreases rows.len(),
{
    if rows.len() > 0 {
        let front = rows.drop_last();
        let n = rows.len() - 1;
        lemma_baseline(front, group, workload, baseline);
        assert forall|j: int| 0 <= j < n implies front[j] == #[trigger] rows[j] by {}
        match criterion_results::first_baseline(front, group, workload, baseline) {
            Some(v) => {
                let k = choose|k: int|
                    0 <= k < front.len() && criterion_results::in_workload(
                        #[trigger] front[k],
                        group,
                        workload,
                    ) && front[k].subject_of()@ == baseline && front[k].value_of() == v
                        && forall|j: int|
                        0 <= j < k ==> !(criterion_results::in_workload(
                            #[trigger] front[j],
                            group,
                            workload,
                        ) && front[j].subject_of()@ == baseline);
                assert(rows[k] == front[k]);
                assert forall|j: int| 0 <= j < k implies !(criterion_results::in_workload(
                    #[trigger] rows[j],
                    group,
                    workload,
                ) && rows[j].subject_of()@ == baseline) by {
                    assert(front[j] == rows[j]);
                }
            },
            None => {
                assert forall|j: int| 0 <= j < n implies !(criterion_results::in_workload(
                    #[trigger] rows[j],
                    group,
                    workload,
                ) && rows[j].subject_of()@ == baseline) by {
                    assert(front[j] == rows[j]);
                }
                assert(rows[n] == rows.last());
            },
        }
    }
}

proof fn lemma_usable(v: Double)
    ensures
        criterion_results::usable(Some(v)) == (if v.finite() && v.value() > 0 {
            Some(v)
        } else {
            None
        }),
{
    let zero = Double { bits: 0 };
    if v.finite() {
        crate::double::law_order_is_order_of_values(zero, v);
    }
    assert(zero.value() == 0) by {
        assert(zero.mag() == 0);
        assert(crate::double::significand(0) == 0);
        assert(0 * vstd::arithmetic::power2::pow2(crate::double::power(0)) == 0)
            by (nonlinear_arith);
    }
}

/// One row of a workload's cells, by the row that it is of.
proof fn lemma_sorted_cell<R: RatioInput>(
    rows: Seq<R>,
    group: Seq<char>,
    workload: Seq<char>,
    baseline: Seq<char>,
    j: int,
)
    requires
        rows.len() <= usize::MAX,
        0 <= j < criterion_results::workload_cells(rows, group, workload, baseline).len(),
    ensures
        is_cell(
            criterion_results::workload_cells(rows, group, workload, baseline)[j],
            rows,
            group,
            workload,
            criterion_results::usable(
                criterion_results::first_baseline(rows, group, workload, baseline),
            ),
        ),
{
    let b = criterion_results::usable(
        criterion_results::first_baseline(rows, group, workload, baseline),
    );
    let cells = criterion_results::cells(rows, group, workload, b);
    let sorted = criterion_results::workload_cells(rows, group, workload, baseline);
    lemma_cells(rows, group, workload, b);
    sorting::lemma_sorted_contains(cells);
    assert(sorted.contains(sorted[j]));
    let x = cells.index_of(sorted[j]);
    assert(is_cell(cells[x], rows, group, workload, b));
}

/// A walltime ratio is the mean of its row over the mean of the workload's
/// baseline row, the first there is of that subject; nothing else of the rows
/// counts. There is none where the baseline has no row, or no mean to divide by.
pub proof fn law_walltime_ratios_divide_means(
    table: Seq<WorkloadRatios>,
    rows: Seq<Row>,
    baseline: Seq<char>,
    t: int,
    j: int,
)
    requires
        criterion_results::is_ratio_table(table, rows, baseline),
        rows.len() <= usize::MAX,
        0 <= t < table.len(),
        0 <= j < table[t].rows@.len(),
    ensures
        ({
            let wl = table[t];
            let r = wl.rows@[j];
            &&& exists|k: int|
                0 <= k < rows.len() && measures(
                    #[trigger] rows[k],
                    wl.group@,
                    wl.workload@,
                    r.subject@,
                ) && r.mean_ns == rows[k].mean_ns
            &&& forall|b: int|
                0 <= b < rows.len() && measures(
                    #[trigger] rows[b],
                    wl.group@,
                    wl.workload@,
                    baseline,
                ) && (forall|a: int|
                    0 <= a < b ==> !measures(
                        #[trigger] rows[a],
                        wl.group@,
                        wl.workload@,
                        baseline,
                    )) ==> is_ratio(r.ratio_vs_baseline, r.mean_ns, rows[b].mean_ns)
            &&& (forall|b: int|
                0 <= b < rows.len() ==> !measures(
                    #[trigger] rows[b],
                    wl.group@,
                    wl.workload@,
                    baseline,
                )) ==> r.ratio_vs_baseline is None
        }),
{
    let wl = table[t];
    let (group, workload) = (wl.group@, wl.workload@);
    let cells = criterion_results::workload_cells(rows, group, workload, baseline);
    assert(wl.rows@ == criterion_results::ratio_rows_spec(rows, group, workload, baseline));
    lemma_sorted_cell(rows, group, workload, baseline, j);
    lemma_baseline(rows, group, workload, baseline);
    let c = cells[j];
    let k = c.index as int;
    assert(measures(rows[k], group, workload, wl.rows@[j].subject@));
    match criterion_results::first_baseline(rows, group, workload, baseline) {
        Some(v) => {
            lemma_usable(v);
            let m = choose|m: int|
                0 <= m < rows.len() && criterion_results::in_workload(
                    #[trigger] rows[m],
                    group,
                    workload,
                ) && rows[m].subject_of()@ == baseline && rows[m].value_of() == v && forall|j: int|
                    0 <= j < m ==> !(criterion_results::in_workload(
                        #[trigger] rows[j],
                        group,
                        workload,
                    ) && rows[j].subject_of()@ == baseline);
            assert(measures(rows[m], group, workload, baseline));
            assert forall|b: int|
                0 <= b < rows.len() && measures(#[trigger] rows[b], group, workload, baseline) && (
                forall|a: int|
                    0 <= a < b ==> !measures(
                        #[trigger] rows[a],
                        group,
                        workload,
                        baseline,
                    )) implies is_ratio(
                wl.rows@[j].ratio_vs_baseline,
                wl.rows@[j].mean_ns,
                rows[b].mean_ns,
            ) by {
                assert(criterion_results::in_workload(rows[b], group, workload));
                if m < b {
                    assert(!measures(rows[m], group, workload, baseline));
                }
                if b < m {
                    assert(!criterion_results::in_workload(rows[b], group, workload)
                        || rows[b].subject_of()@ != baseline);
                }
                assert(b == m);
            }
        },
        None => {
            assert forall|b: int| 0 <= b < rows.len() implies !measures(
                #[trigger] rows[b],
                group,
                workload,
                baseline,
            ) by {
                assert(!(criterion_results::in_workload(rows[b], group, workload)
                    && rows[b].subject_of()@ == baseline));
            }
        },
    }
}

/// The instructions lane's twin: a ratio is the row's count over the count of
/// the workload's baseline row.
pub proof fn law_instruction_ratios_divide_counts(
    table: Seq<InstrWorkloadRatios>,
    rows: Seq<InstrRow>,
    baseline: Seq<char>,
    t: int,
    j: int,
)
    requires
        instructions::is_instr_ratio_table(table, rows, baseline),
        rows.len() <= usize::MAX,
        0 <= t < table.len(),
        0 <= j < table[t].rows@.len(),
    ensures
        ({
            let wl = table[t];
            let r = wl.rows@[j];
            &&& exists|k: int|
                0 <= k < rows.len() && counts(
                    #[trigger] rows[k],
                    wl.group@,
                    wl.workload@,
                    r.subject@,
                ) && r.count == rows[k].count
            &&& forall|b: int|
                0 <= b < rows.len() && counts(
                    #[trigger] rows[b],
                    wl.group@,
                    wl.workload@,
                    baseline,
                ) && (forall|a: int|
                    0 <= a < b ==> !counts(
                        #[trigger] rows[a],
                        wl.group@,
                        wl.workload@,
                        baseline,
                    )) ==> is_ratio(
                    r.ratio_vs_baseline,
                    Double::from_nat_spec(r.count as nat),
                    Double::from_nat_spec(rows[b].count as nat),
                )
            &&& (forall|b: int|
                0 <= b < rows.len() ==> !counts(
                    #[trigger] rows[b],
                    wl.group@,
                    wl.workload@,
                    baseline,
                )) ==> r.ratio_vs_baseline is None
        }),
{
    let wl = table[t];
    let (group, workload) = (wl.group@, wl.workload@);
    let cells = criterion_results::workload_cells(rows, group, workload, baseline);
    assert(wl.rows@ == instructions::instr_ratio_rows_spec(rows, group, workload, baseline));
    lemma_sorted_cell(rows, group, workload, baseline, j);
    lemma_baseline(rows, group, workload, baseline);
    let c = cells[j];
    let k = c.index as int;
    assert(counts(rows[k], group, workload, wl.rows@[j].subject@));
    match criterion_results::first_baseline(rows, group, workload, baseline) {
        Some(v) => {
            lemma_usable(v);
            let m = choose|m: int|
                0 <= m < rows.len() && criterion_results::in_workload(
                    #[trigger] rows[m],
                    group,
                    workload,
                ) && rows[m].subject_of()@ == baseline && rows[m].value_of() == v && forall|j: int|
                    0 <= j < m ==> !(criterion_results::in_workload(
                        #[trigger] rows[j],
                        group,
                        workload,
                    ) && rows[j].subject_of()@ == baseline);
            assert(counts(rows[m], group, workload, baseline));
            assert forall|b: int|
                0 <= b < rows.len() && counts(#[trigger] rows[b], group, workload, baseline) && (
                forall|a: int|
                    0 <= a < b ==> !counts(
                        #[trigger] rows[a],
                        group,
                        workload,
                        baseline,
                    )) implies is_ratio(
                wl.rows@[j].ratio_vs_baseline,
                Double::from_nat_spec(wl.rows@[j].count as nat),
                Double::from_nat_spec(rows[b].count as nat),
            ) by {
                assert(criterion_results::in_workload(rows[b], group, workload));
                if m < b {
                    assert(!counts(rows[m], group, workload, baseline));
                }
                if b < m {
                    assert(!criterion_results::in_workload(rows[b], group, workload)
                        || rows[b].subject_of()@ != baseline);
                }
                assert(b == m);
            }
        },
        None => {
            assert forall|b: int| 0 <= b < rows.len() implies !counts(
                #[trigger] rows[b],
                group,
                workload,
                baseline,
            ) by {
                assert(!(criterion_results::in_workload(rows[b], group, workload)
                    && rows[b].subject_of()@ == baseline));
            }
        },
    }
}

/// Rows that differ only in their samples or their deviation have the same
/// ratio table.
pub proof fn law_samples_do_not_move_ratios(
    a: Seq<WorkloadRatios>,
    b: Seq<WorkloadRatios>,
    rows: Seq<Row>,
    others: Seq<Row>,
    baseline: Seq<char>,
    t: int,
)
    requires
        criterion_results::is_ratio_table(a, rows, baseline),
        criterion_results::is_ratio_table(b, others, baseline),
        rows.len() == others.len(),
        rows.len() <= usize::MAX,
        forall|i: int|
            0 <= i < rows.len() ==> (#[trigger] rows[i]).group == others[i].group
                && rows[i].subject == others[i].subject && rows[i].workload == others[i].workload
                && rows[i].mean_ns == others[i].mean_ns,
    ensures
        a.len() == b.len(),
        0 <= t < a.len() ==> a[t].group@ == b[t].group@ && a[t].workload@ == b[t].workload@
            && a[t].rows@ == b[t].rows@,
{
    assert forall|k: Seq<Seq<char>>| #[trigger]
        keyed::has_key(a, k) <==> keyed::has_key(b, k) by {
        if keyed::has_key(a, k) {
            let i = choose|i: int|
                0 <= i < rows.len() && #[trigger] criterion_results::workload_key(rows[i]) == k;
            assert(criterion_results::workload_key(others[i]) == k);
        }
        if keyed::has_key(b, k) {
            let i = choose|i: int|
                0 <= i < others.len() && #[trigger] criterion_results::workload_key(others[i]) == k;
            assert(rows[i].group == others[i].group);
            assert(criterion_results::workload_key(rows[i]) == k);
        }
    }
    keyed::lemma_same_keys(a, b);
    if 0 <= t < a.len() {
        assert(a[t].key() == b[t].key());
        assert(a[t].key()[0] == a[t].group@ && b[t].key()[0] == b[t].group@);
        assert(a[t].key()[1] == a[t].workload@ && b[t].key()[1] == b[t].workload@);
        let (group, workload) = (a[t].group@, a[t].workload@);
        lemma_same_baseline(rows, others, group, workload, baseline);
        let base = criterion_results::usable(
            criterion_results::first_baseline(rows, group, workload, baseline),
        );
        lemma_same_cells(rows, others, group, workload, base);
        let cells = criterion_results::workload_cells(rows, group, workload, baseline);
        assert(cells == criterion_results::workload_cells(others, group, workload, baseline));
        assert forall|j: int| 0 <= j < cells.len() implies #[trigger] a[t].rows@[j]
            == b[t].rows@[j] by {
            lemma_sorted_cell(rows, group, workload, baseline, j);
            let k = cells[j].index as int;
            assert(rows[k].mean_ns == others[k].mean_ns);
        }
        assert(a[t].rows@ =~= b[t].rows@);
    }
}

proof fn lemma_same_baseline(
    rows: Seq<Row>,
    others: Seq<Row>,
    group: Seq<char>,
    workload: Seq<char>,
    baseline: Seq<char>,
)
    requires
        rows.len() == others.len(),
        forall|i: int|
            0 <= i < rows.len() ==> (#[trigger] rows[i]).group == others[i].group
                && rows[i].subject == others[i].subject && rows[i].workload == others[i].workload
                && rows[i].mean_ns == others[i].mean_ns,
    ensures
        criterion_results::first_baseline(rows, group, workload, baseline)
            == criterion_results::first_baseline(others, group, workload, baseline),
    decreases rows.len(),
{
    if rows.len() > 0 {
        let (a, b) = (rows.drop_last(), others.drop_last());
        assert forall|i: int| 0 <= i < a.len() implies (#[trigger] a[i]).group == b[i].group
            && a[i].subject == b[i].subject && a[i].workload == b[i].workload && a[i].mean_ns
            == b[i].mean_ns by {
            assert(a[i] == rows[i]);
        }
        lemma_same_baseline(a, b, group, workload, baseline);
        assert(rows[rows.len() - 1].group == others[rows.len() - 1].group);
    }
}

proof fn lemma_same_cells(
    rows: Seq<Row>,
    others: Seq<Row>,
    group: Seq<char>,
    workload: Seq<char>,
    baseline: Option<Double>,
)
    requires
        rows.len() == others.len(),
        forall|i: int|
            0 <= i < rows.len() ==> (#[trigger] rows[i]).group == others[i].group
                && rows[i].subject == others[i].subject && rows[i].workload == others[i].workload
                && rows[i].mean_ns == others[i].mean_ns,
    ensures
        criterion_results::cells(rows, group, workload, baseline) == criterion_results::cells(
            others,
            group,
            workload,
            baseline,
        ),
    decreases rows.len(),
{
    if rows.len() > 0 {
        let (a, b) = (rows.drop_last(), others.drop_last());
        assert forall|i: int| 0 <= i < a.len() implies (#[trigger] a[i]).group == b[i].group
            && a[i].subject == b[i].subject && a[i].workload == b[i].workload && a[i].mean_ns
            == b[i].mean_ns by {
            assert(a[i] == rows[i]);
        }
        lemma_same_cells(a, b, group, workload, baseline);
        assert(rows[rows.len() - 1].group == others[rows.len() - 1].group);
    }
}

/// Every measured row is in the table of its group and workload.
pub proof fn law_every_row_has_a_ratio_row(
    table: Seq<WorkloadRatios>,
    rows: Seq<Row>,
    baseline: Seq<char>,
    k: int,
)
    requires
        criterion_results::is_ratio_table(table, rows, baseline),
        rows.len() <= usize::MAX,
        0 <= k < rows.len(),
    ensures
        exists|t: int, j: int|
            0 <= t < table.len() && 0 <= j < table[t].rows@.len() && table[t].group@
                == rows[k].group@ && table[t].workload@ == rows[k].workload@ && (
            #[trigger] table[t].rows@[j]).subject@ == rows[k].subject@ && table[t].rows@[j].mean_ns
                == rows[k].mean_ns,
{
    let (group, workload) = (rows[k].group@, rows[k].workload@);
    let key = criterion_results::workload_key(rows[k]);
    assert(keyed::has_key(table, key));
    let t = keyed::key_position(table, key);
    let wl = table[t];
    assert(wl.key() == key);
    assert(wl.key()[0] == wl.group@ && wl.key()[1] == wl.workload@);
    assert(key[0] == group && key[1] == workload);
    lemma_workload_cell(rows, group, workload, baseline, k);
    let sorted = criterion_results::workload_cells(rows, group, workload, baseline);
    let j = choose|j: int| 0 <= j < sorted.len() && (#[trigger] sorted[j]).index == k;
    lemma_sorted_cell(rows, group, workload, baseline, j);
    assert(wl.rows@ == criterion_results::ratio_rows_spec(rows, group, workload, baseline));
    assert(table[t].rows@[j].subject@ == rows[k].subject@);
}

proof fn lemma_workload_cell(
    rows: Seq<Row>,
    group: Seq<char>,
    workload: Seq<char>,
    baseline: Seq<char>,
    k: int,
)
    requires
        rows.len() <= usize::MAX,
        0 <= k < rows.len(),
        rows[k].group@ == group,
        rows[k].workload@ == workload,
    ensures
        exists|j: int|
            0 <= j < criterion_results::workload_cells(rows, group, workload, baseline).len() && (
            #[trigger] criterion_results::workload_cells(rows, group, workload, baseline)[j]).index
                == k,
{
    let b = criterion_results::usable(
        criterion_results::first_baseline(rows, group, workload, baseline),
    );
    let cells = criterion_results::cells(rows, group, workload, b);
    let sorted = criterion_results::workload_cells(rows, group, workload, baseline);
    lemma_cells(rows, group, workload, b);
    assert(criterion_results::in_workload(rows[k], group, workload));
    let x = choose|x: int| 0 <= x < cells.len() && (#[trigger] cells[x]).index == k;
    sorting::lemma_sorted_contains(cells);
    assert(cells.contains(cells[x]));
    assert(sorting::sorted(cells).contains(cells[x]));
    let j = sorted.index_of(cells[x]);
    assert(sorted[j].index == k);
}

/// The rows measured in a group's workload.
pub open spec fn measured(rows: Seq<Row>, group: Seq<char>, workload: Seq<char>) -> Seq<Row> {
    rows.filter(|r: Row| r.group@ == group && r.workload@ == workload)
}

/// A workload's table has one row for each row measured there.
pub proof fn law_ratio_rows_are_as_many_as_measured(
    table: Seq<WorkloadRatios>,
    rows: Seq<Row>,
    baseline: Seq<char>,
    t: int,
)
    requires
        criterion_results::is_ratio_table(table, rows, baseline),
        0 <= t < table.len(),
    ensures
        table[t].rows@.len() == measured(rows, table[t].group@, table[t].workload@).len(),
{
    let wl = table[t];
    let b = criterion_results::usable(
        criterion_results::first_baseline(rows, wl.group@, wl.workload@, baseline),
    );
    lemma_cell_count(rows, wl.group@, wl.workload@, b);
    sorting::lemma_sorted_contains(criterion_results::cells(rows, wl.group@, wl.workload@, b));
}

proof fn lemma_cell_count(
    rows: Seq<Row>,
    group: Seq<char>,
    workload: Seq<char>,
    baseline: Option<Double>,
)
    ensures
        criterion_results::cells(rows, group, workload, baseline).len() == measured(
            rows,
            group,
            workload,
        ).len(),
    decreases rows.len(),
{
    reveal(Seq::filter);
    if rows.len() > 0 {
        lemma_cell_count(rows.drop_last(), group, workload, baseline);
    }
}

/// A workload's ratio rows run by subject, in alphabetical order.
pub proof fn law_ratio_rows_run_by_subject(
    table: Seq<WorkloadRatios>,
    rows: Seq<Row>,
    baseline: Seq<char>,
    t: int,
    i: int,
    j: int,
)
    requires
        criterion_results::is_ratio_table(table, rows, baseline),
        0 <= t < table.len(),
        0 <= i < j < table[t].rows@.len(),
    ensures
        !text::lex_lt(table[t].rows@[j].subject@, table[t].rows@[i].subject@),
{
    let wl = table[t];
    let b = criterion_results::usable(
        criterion_results::first_baseline(rows, wl.group@, wl.workload@, baseline),
    );
    let cells = criterion_results::cells(rows, wl.group@, wl.workload@, b);
    assert forall|x: RatioCell, y: RatioCell| #[trigger] x.before(y) implies !y.before(x) by {
        text::lemma_lex_asymmetric(x.subject@, y.subject@);
    }
    assert forall|x: RatioCell, y: RatioCell, z: RatioCell|
        !(#[trigger] x.before(y)) && !(#[trigger] y.before(z)) implies !x.before(z) by {
        text::lemma_lex_total(x.subject@, y.subject@);
        text::lemma_lex_total(y.subject@, z.subject@);
        if x.before(z) {
            if x.subject@ == y.subject@ || y.subject@ == z.subject@ {
            } else {
                text::lemma_lex_transitive(z.subject@, y.subject@, x.subject@);
                text::lemma_lex_asymmetric(x.subject@, z.subject@);
            }
        }
    }
    sorting::lemma_sorted_ordered(cells);
    let sorted = criterion_results::workload_cells(rows, wl.group@, wl.workload@, baseline);
    assert(!sorted[j].before(sorted[i]));
}

/// The table has one entry for every group and workload that was measured, none
/// twice: by group, and by workload within a group.
pub proof fn law_ratio_tables_run_by_group_and_workload(
    table: Seq<WorkloadRatios>,
    rows: Seq<Row>,
    baseline: Seq<char>,
    t: int,
    u: int,
)
    requires
        criterion_results::is_ratio_table(table, rows, baseline),
        0 <= t < u < table.len(),
    ensures
        ({
            let (a, b) = (table[t], table[u]);
            ||| text::lex_lt(a.group@, b.group@)
            ||| a.group@ == b.group@ && text::lex_lt(a.workload@, b.workload@)
        }),
        exists|k: int|
            0 <= k < rows.len() && (#[trigger] rows[k]).group@ == table[t].group@
                && rows[k].workload@ == table[t].workload@,
{
    let (a, b) = (table[t].key(), table[u].key());
    assert(keyed::list_lt(table[t].key(), table[u].key()));
    reveal_with_fuel(keyed::list_lt, 4);
    assert(a.drop_first() =~= seq![table[t].workload@]);
    assert(b.drop_first() =~= seq![table[u].workload@]);
    assert(a.drop_first().drop_first() =~= Seq::empty());
    assert(b.drop_first().drop_first() =~= Seq::empty());
    assert(keyed::has_key(table, a));
    let k = choose|k: int|
        0 <= k < rows.len() && #[trigger] criterion_results::workload_key(rows[k]) == a;
    let key = criterion_results::workload_key(rows[k]);
    assert(key[0] == a[0] && key[1] == a[1]);
    assert(rows[k].group@ == table[t].group@ && rows[k].workload@ == table[t].workload@);
}

/// Every count is in the instructions lane's table of its group and workload.
pub proof fn law_every_count_has_a_ratio_row(
    table: Seq<InstrWorkloadRatios>,
    rows: Seq<InstrRow>,
    baseline: Seq<char>,
    k: int,
)
    requires
        instructions::is_instr_ratio_table(table, rows, baseline),
        rows.len() <= usize::MAX,
        0 <= k < rows.len(),
    ensures
        exists|t: int, j: int|
            0 <= t < table.len() && 0 <= j < table[t].rows@.len() && table[t].group@
                == rows[k].group@ && table[t].workload@ == rows[k].workload@ && (
            #[trigger] table[t].rows@[j]).subject@ == rows[k].subject@ && table[t].rows@[j].count
                == rows[k].count,
{
    let (group, workload) = (rows[k].group@, rows[k].workload@);
    let key = criterion_results::workload_key(rows[k]);
    assert(keyed::has_key(table, key));
    let t = keyed::key_position(table, key);
    let wl = table[t];
    assert(wl.key() == key);
    assert(wl.key()[0] == wl.group@ && wl.key()[1] == wl.workload@);
    assert(key[0] == group && key[1] == workload);
    let b = criterion_results::usable(
        criterion_results::first_baseline(rows, group, workload, baseline),
    );
    let cells = criterion_results::cells(rows, group, workload, b);
    let sorted = criterion_results::workload_cells(rows, group, workload, baseline);
    lemma_cells(rows, group, workload, b);
    assert(criterion_results::in_workload(rows[k], group, workload));
    let x = choose|x: int| 0 <= x < cells.len() && (#[trigger] cells[x]).index == k;
    sorting::lemma_sorted_contains(cells);
    assert(cells.contains(cells[x]));
    assert(sorting::sorted(cells).contains(cells[x]));
    let j = sorted.index_of(cells[x]);
    assert(sorted[j].index == k);
    lemma_sorted_cell(rows, group, workload, baseline, j);
    assert(wl.rows@ == instructions::instr_ratio_rows_spec(rows, group, workload, baseline));
    assert(table[t].rows@[j].subject@ == rows[k].subject@);
}

} // verus!
