//! Carry-forward: a run that is rendered again from the record of its first
//! time gets the same record.
use crate::compare;
use crate::compare::{CompareTable, CompareTableRow};
use crate::config::{RepoConfig, Settings};
use crate::criterion_results;
use crate::criterion_results::{RatioCell, RatioInput, Row, WorkloadRatios};
use crate::double::Double;
use crate::git::CommitMeta;
use crate::instructions;
use crate::instructions::{
    CollectOutcome, InstrCollection, InstrRatioRow, InstrRow, InstrRowView, InstrWorkloadRatios,
};
use crate::keyed;
use crate::keyed::Keyed;
use crate::pipeline;
use crate::pipeline::RunPlan;
use crate::sorting;
use crate::sorting::Ranked;
use crate::state::State;
use crate::storage;
use crate::storage::{CommitRecord, InstrRecord, RepoStore, RowRecord};
use crate::strmap;
use crate::strmap::StrMap;
use crate::text;
use vstd::prelude::*;

verus! {

// ---------------------------------------------------------------------------
// Where a count lands
// ---------------------------------------------------------------------------

pub open spec fn instr_of(r: InstrRatioRow) -> InstrRecord {
    InstrRecord { count: r.count, ratio_vs_baseline: r.ratio_vs_baseline }
}

/// Is a count of a workload stored under this name?
pub open spec fn lands_on(r: InstrRatioRow, workload: Seq<char>, name: Seq<char>) -> bool {
    storage::row_name_spec(r.subject@, workload) == name
}

/// Does the `j`-th count of a workload land on this row?
pub open spec fn hits(wl: InstrWorkloadRatios, j: int, group: Seq<char>, name: Seq<char>) -> bool {
    0 <= j < wl.rows@.len() && wl.group@ == group && lands_on(wl.rows@[j], wl.workload@, name)
}

proof fn lemma_counts_elsewhere(
    groups: Map<Seq<char>, Map<Seq<char>, RowRecord>>,
    wl_group: Seq<char>,
    workload: Seq<char>,
    rows: Seq<InstrRatioRow>,
    group: Seq<char>,
    name: Seq<char>,
)
    requires
        storage::has_row(groups, group, name),
        wl_group != group || forall|j: int|
            0 <= j < rows.len() ==> !lands_on(#[trigger] rows[j], workload, name),
    ensures
        storage::with_counts(groups, wl_group, workload, rows)[group][name].instr
            == groups[group][name].instr,
    decreases rows.len(),
{
    if rows.len() > 0 {
        let front = rows.drop_last();
        assert forall|j: int| 0 <= j < front.len() implies wl_group != group || !lands_on(
            #[trigger] front[j],
            workload,
            name,
        ) by {
            assert(front[j] == rows[j]);
        }
        lemma_counts_elsewhere(groups, wl_group, workload, front, group, name);
        storage::lemma_with_counts_walltime(groups, wl_group, workload, front, group, name);
        assert(wl_group != group || !lands_on(rows[rows.len() - 1], workload, name));
    }
}

proof fn lemma_counts_here(
    groups: Map<Seq<char>, Map<Seq<char>, RowRecord>>,
    group: Seq<char>,
    workload: Seq<char>,
    rows: Seq<InstrRatioRow>,
    name: Seq<char>,
    j: int,
)
    requires
        storage::has_row(groups, group, name),
        0 <= j < rows.len(),
        lands_on(rows[j], workload, name),
        forall|k: int|
            0 <= k < rows.len() && lands_on(#[trigger] rows[k], workload, name) ==> k == j,
    ensures
        storage::with_counts(groups, group, workload, rows)[group][name].instr == Some(
            instr_of(rows[j]),
        ),
    decreases rows.len(),
{
    let front = rows.drop_last();
    storage::lemma_with_counts_walltime(groups, group, workload, front, group, name);
    if j < rows.len() - 1 {
        assert(front[j] == rows[j]);
        assert forall|k: int|
            0 <= k < front.len() && lands_on(#[trigger] front[k], workload, name) implies k
            == j by {
            assert(front[k] == rows[k]);
        }
        lemma_counts_here(groups, group, workload, front, name, j);
        assert(!lands_on(rows[rows.len() - 1], workload, name));
    }
}

proof fn lemma_untouched(
    groups: Map<Seq<char>, Map<Seq<char>, RowRecord>>,
    table: Seq<InstrWorkloadRatios>,
    group: Seq<char>,
    name: Seq<char>,
)
    requires
        storage::has_row(groups, group, name),
        forall|t: int, j: int| 0 <= t < table.len() ==> !#[trigger] hits(table[t], j, group, name),
    ensures
        storage::with_instr_ratios(groups, table)[group][name].instr == groups[group][name].instr,
    decreases table.len(),
{
    if table.len() > 0 {
        let front = table.drop_last();
        assert forall|t: int, j: int| 0 <= t < front.len() implies !#[trigger] hits(
            front[t],
            j,
            group,
            name,
        ) by {
            assert(front[t] == table[t]);
        }
        lemma_untouched(groups, front, group, name);
        storage::law_counts_leave_walltime_alone(groups, front, group, name);
        let wl = table.last();
        if wl.group@ == group {
            assert forall|j: int| 0 <= j < wl.rows@.len() implies !lands_on(
                #[trigger] wl.rows@[j],
                wl.workload@,
                name,
            ) by {
                assert(!hits(table[table.len() - 1], j, group, name));
            }
        }
        lemma_counts_elsewhere(
            storage::with_instr_ratios(groups, front),
            wl.group@,
            wl.workload@,
            wl.rows@,
            group,
            name,
        );
    }
}

proof fn lemma_hit(
    groups: Map<Seq<char>, Map<Seq<char>, RowRecord>>,
    table: Seq<InstrWorkloadRatios>,
    group: Seq<char>,
    name: Seq<char>,
    t: int,
    j: int,
)
    requires
        storage::has_row(groups, group, name),
        0 <= t < table.len(),
        hits(table[t], j, group, name),
        forall|u: int, k: int|
            0 <= u < table.len() && #[trigger] hits(table[u], k, group, name) ==> u == t && k == j,
    ensures
        storage::with_instr_ratios(groups, table)[group][name].instr == Some(
            instr_of(table[t].rows@[j]),
        ),
    decreases table.len(),
{
    let front = table.drop_last();
    let wl = table.last();
    let last = table.len() - 1;
    storage::law_counts_leave_walltime_alone(groups, front, group, name);
    if t < last {
        assert(front[t] == table[t]);
        assert forall|u: int, k: int|
            0 <= u < front.len() && #[trigger] hits(front[u], k, group, name) implies u == t && k
            == j by {
            assert(front[u] == table[u]);
            assert(hits(table[u], k, group, name));
        }
        lemma_hit(groups, front, group, name, t, j);
        if wl.group@ == group {
            assert forall|k: int| 0 <= k < wl.rows@.len() implies !lands_on(
                #[trigger] wl.rows@[k],
                wl.workload@,
                name,
            ) by {
                assert(!hits(table[last], k, group, name));
            }
        }
        lemma_counts_elsewhere(
            storage::with_instr_ratios(groups, front),
            wl.group@,
            wl.workload@,
            wl.rows@,
            group,
            name,
        );
    } else {
        assert forall|k: int|
            0 <= k < wl.rows@.len() && lands_on(#[trigger] wl.rows@[k], wl.workload@, name) implies k
            == j by {
            assert(hits(table[last], k, group, name));
        }
        lemma_counts_here(
            storage::with_instr_ratios(groups, front),
            group,
            wl.workload@,
            wl.rows@,
            name,
            j,
        );
    }
}

// ---------------------------------------------------------------------------
// Counts by their triple
// ---------------------------------------------------------------------------

pub open spec fn is_triple(
    r: InstrRowView,
    group: Seq<char>,
    subject: Seq<char>,
    workload: Seq<char>,
) -> bool {
    r.group == group && r.subject == subject && r.workload == workload
}

/// One row per `(group, subject, workload)`, no subject with a `/`: what a
/// collection holds.
pub open spec fn are_triples(rows: Seq<InstrRowView>) -> bool {
    &&& forall|i: int, j: int|
        0 <= i < j < rows.len() ==> !is_triple(
            #[trigger] rows[i],
            (#[trigger] rows[j]).group,
            rows[j].subject,
            rows[j].workload,
        )
    &&& forall|i: int| 0 <= i < rows.len() ==> !(#[trigger] rows[i]).subject.contains('/')
}

/// The count of a triple.
pub open spec fn count_at(
    rows: Seq<InstrRowView>,
    group: Seq<char>,
    subject: Seq<char>,
    workload: Seq<char>,
) -> Option<u64>
    decreases rows.len(),
{
    if rows.len() == 0 {
        None
    } else if is_triple(rows.last(), group, subject, workload) {
        Some(rows.last().count)
    } else {
        count_at(rows.drop_last(), group, subject, workload)
    }
}

proof fn lemma_count_at(rows: Seq<InstrRowView>, i: int)
    requires
        are_triples(rows),
        0 <= i < rows.len(),
    ensures
        count_at(rows, rows[i].group, rows[i].subject, rows[i].workload) == Some(rows[i].count),
    decreases rows.len(),
{
    let front = rows.drop_last();
    if i < rows.len() - 1 {
        assert(front[i] == rows[i]);
        assert(!is_triple(
            rows[i],
            rows[rows.len() - 1].group,
            rows[rows.len() - 1].subject,
            rows[rows.len() - 1].workload,
        ));
        assert forall|a: int, b: int| 0 <= a < b < front.len() implies !is_triple(
            #[trigger] front[a],
            (#[trigger] front[b]).group,
            front[b].subject,
            front[b].workload,
        ) by {
            assert(front[a] == rows[a] && front[b] == rows[b]);
        }
        assert forall|a: int| 0 <= a < front.len() implies !(#[trigger] front[a]).subject.contains(
            '/',
        ) by {
            assert(front[a] == rows[a]);
        }
        lemma_count_at(front, i);
    }
}

proof fn lemma_count_from(
    rows: Seq<InstrRowView>,
    group: Seq<char>,
    subject: Seq<char>,
    workload: Seq<char>,
) -> (i: int)
    requires
        count_at(rows, group, subject, workload) is Some,
    ensures
        0 <= i < rows.len(),
        is_triple(rows[i], group, subject, workload),
        count_at(rows, group, subject, workload) == Some(rows[i].count),
    decreases rows.len(),
{
    if is_triple(rows.last(), group, subject, workload) {
        rows.len() - 1
    } else {
        let i = lemma_count_from(rows.drop_last(), group, subject, workload);
        assert(rows.drop_last()[i] == rows[i]);
        i
    }
}

/// The baseline's count of a workload, as a ratio is computed against it.
pub open spec fn baseline_at(
    rows: Seq<InstrRowView>,
    group: Seq<char>,
    workload: Seq<char>,
    baseline: Seq<char>,
) -> Option<Double> {
    match count_at(rows, group, baseline, workload) {
        Some(c) => Some(Double::from_nat_spec(c as nat)),
        None => None,
    }
}

/// What the rows attach to a stored row of this name.
pub open spec fn attached(
    rows: Seq<InstrRowView>,
    baseline: Seq<char>,
    group: Seq<char>,
    name: Seq<char>,
) -> Option<InstrRecord> {
    let (subject, workload) = criterion_results::split_id(name);
    if storage::row_name_spec(subject, workload) == name {
        match count_at(rows, group, subject, workload) {
            Some(c) => Some(
                InstrRecord {
                    count: c,
                    ratio_vs_baseline: criterion_results::ratio_spec(
                        Double::from_nat_spec(c as nat),
                        criterion_results::usable(baseline_at(rows, group, workload, baseline)),
                    ),
                },
            ),
            None => None,
        }
    } else {
        None
    }
}

proof fn lemma_first_baseline(
    rows: Seq<InstrRow>,
    group: Seq<char>,
    workload: Seq<char>,
    baseline: Seq<char>,
)
    requires
        are_triples(instructions::row_views(rows)),
    ensures
        criterion_results::first_baseline(rows, group, workload, baseline) == baseline_at(
            instructions::row_views(rows),
            group,
            workload,
            baseline,
        ),
    decreases rows.len(),
{
    let views = instructions::row_views(rows);
    if rows.len() > 0 {
        let front = rows.drop_last();
        let before = instructions::row_views(front);
        assert(before =~= views.drop_last());
        assert forall|a: int, b: int| 0 <= a < b < before.len() implies !is_triple(
            #[trigger] before[a],
            (#[trigger] before[b]).group,
            before[b].subject,
            before[b].workload,
        ) by {
            assert(before[a] == views[a] && before[b] == views[b]);
        }
        assert forall|a: int| 0 <= a < before.len() implies !(
        #[trigger] before[a]).subject.contains('/') by {
            assert(before[a] == views[a]);
        }
        lemma_first_baseline(front, group, workload, baseline);
        assert(views.last() == rows.last()@);
        if is_triple(views.last(), group, baseline, workload) {
            if count_at(before, group, baseline, workload) is Some {
                let i = lemma_count_from(before, group, baseline, workload);
                assert(before[i] == views[i]);
                assert(!is_triple(
                    views[i],
                    views[views.len() - 1].group,
                    views[views.len() - 1].subject,
                    views[views.len() - 1].workload,
                ));
            }
        }
    }
}

// ---------------------------------------------------------------------------
// Ratio tables
// ---------------------------------------------------------------------------

pub open spec fn is_cell(
    c: RatioCell,
    rows: Seq<InstrRow>,
    group: Seq<char>,
    workload: Seq<char>,
    baseline: Option<Double>,
) -> bool {
    &&& c.index < rows.len()
    &&& criterion_results::in_workload(rows[c.index as int], group, workload)
    &&& c.subject == rows[c.index as int].subject
    &&& c.ratio == criterion_results::ratio_spec(rows[c.index as int].value_of(), baseline)
}

proof fn lemma_cells(
    rows: Seq<InstrRow>,
    group: Seq<char>,
    workload: Seq<char>,
    baseline: Option<Double>,
)
    requires
        rows.len() <= usize::MAX,
    ensures
        ({
            let cells = criterion_results::cells(rows, group, workload, baseline);
            &&& forall|j: int|
                0 <= j < cells.len() ==> is_cell(
                    #[trigger] cells[j],
                    rows,
                    group,
                    workload,
                    baseline,
                )
            &&& forall|i: int, j: int|
                0 <= i < j < cells.len() ==> (#[trigger] cells[i]).index < (
                #[trigger] cells[j]).index
            &&& forall|k: int|
                0 <= k < rows.len() && criterion_results::in_workload(
                    #[trigger] rows[k],
                    group,
                    workload,
                ) ==> exists|j: int| 0 <= j < cells.len() && (#[trigger] cells[j]).index == k
        }),
    decreases rows.len(),
{
    if rows.len() > 0 {
        let front = rows.drop_last();
        lemma_cells(front, group, workload, baseline);
        let before = criterion_results::cells(front, group, workload, baseline);
        let cells = criterion_results::cells(rows, group, workload, baseline);
        assert forall|j: int| 0 <= j < cells.len() implies is_cell(
            #[trigger] cells[j],
            rows,
            group,
            workload,
            baseline,
        ) by {
            if j < before.len() {
                assert(cells[j] == before[j]);
                assert(front[before[j].index as int] == rows[before[j].index as int]);
            }
        }
        assert forall|i: int, j: int| 0 <= i < j < cells.len() implies (#[trigger] cells[i]).index
            < (#[trigger] cells[j]).index by {
            assert(cells[i] == before[i]);
            if j < before.len() {
                assert(cells[j] == before[j]);
            }
        }
        assert forall|k: int|
            0 <= k < rows.len() && criterion_results::in_workload(
                #[trigger] rows[k],
                group,
                workload,
            ) implies exists|j: int| 0 <= j < cells.len() && (#[trigger] cells[j]).index == k by {
            if k < front.len() {
                assert(front[k] == rows[k]);
                let j = choose|j: int| 0 <= j < before.len() && (#[trigger] before[j]).index == k;
                assert(cells[j].index == k);
            } else {
                assert(cells[cells.len() - 1].index == k);
            }
        }
    }
}

/// A count that lands on a row comes from the input row with the name's triple.
proof fn lemma_hit_source(
    table: Seq<InstrWorkloadRatios>,
    rows: Seq<InstrRow>,
    baseline: Seq<char>,
    group: Seq<char>,
    name: Seq<char>,
    t: int,
    j: int,
) -> (k: int)
    requires
        instructions::is_instr_ratio_table(table, rows, baseline),
        are_triples(instructions::row_views(rows)),
        rows.len() <= usize::MAX,
        0 <= t < table.len(),
        hits(table[t], j, group, name),
    ensures
        0 <= k < rows.len(),
        rows[k].group@ == group,
        criterion_results::split_id(name) == (rows[k].subject@, rows[k].workload@),
        storage::row_name_spec(rows[k].subject@, rows[k].workload@) == name,
        table[t].workload@ == rows[k].workload@,
        table[t].rows@[j].subject == rows[k].subject,
        table[t].rows@[j].count == rows[k].count,
        table[t].rows@[j].ratio_vs_baseline == criterion_results::ratio_spec(
            rows[k].value_of(),
            criterion_results::usable(
                baseline_at(
                    instructions::row_views(rows),
                    group,
                    rows[k].workload@,
                    baseline,
                ),
            ),
        ),
        criterion_results::workload_cells(rows, group, table[t].workload@, baseline)[j].index == k,
{
    let wl = table[t];
    let b = criterion_results::usable(
        criterion_results::first_baseline(rows, group, wl.workload@, baseline),
    );
    let cells = criterion_results::cells(rows, group, wl.workload@, b);
    let sorted = criterion_results::workload_cells(rows, group, wl.workload@, baseline);
    lemma_cells(rows, group, wl.workload@, b);
    sorting::lemma_sorted_contains(cells);
    assert(wl.rows@.len() == sorted.len());
    let c = sorted[j];
    assert(sorted.contains(c));
    let x = cells.index_of(c);
    assert(is_cell(cells[x], rows, group, wl.workload@, b));
    let k = c.index as int;
    lemma_first_baseline(rows, group, wl.workload@, baseline);
    let views = instructions::row_views(rows);
    assert(views[k] == rows[k]@);
    assert(!views[k].subject.contains('/'));
    storage::law_row_names_split_back(rows[k].subject@, wl.workload@);
    k
}

/// The row that an input row lands on is hit, by nothing else.
proof fn lemma_target(
    table: Seq<InstrWorkloadRatios>,
    rows: Seq<InstrRow>,
    baseline: Seq<char>,
    k: int,
) -> (r: (int, int))
    requires
        instructions::is_instr_ratio_table(table, rows, baseline),
        are_triples(instructions::row_views(rows)),
        rows.len() <= usize::MAX,
        0 <= k < rows.len(),
    ensures
        ({
            let group = rows[k].group@;
            let name = storage::row_name_spec(rows[k].subject@, rows[k].workload@);
            &&& 0 <= r.0 < table.len()
            &&& hits(table[r.0], r.1, group, name)
            &&& forall|u: int, j: int|
                0 <= u < table.len() && #[trigger] hits(table[u], j, group, name) ==> u == r.0 && j
                    == r.1
        }),
{
    let group = rows[k].group@;
    let workload = rows[k].workload@;
    let name = storage::row_name_spec(rows[k].subject@, workload);
    let key = criterion_results::workload_key(rows[k]);
    assert(keyed::has_key(table, key));
    let t = keyed::key_position(table, key);
    let wl = table[t];
    assert(wl.key() == key);
    assert(wl.key()[0] == wl.group@ && wl.key()[1] == wl.workload@);
    assert(key[0] == group && key[1] == workload);
    let b = criterion_results::usable(
        criterion_results::first_baseline(rows, group, workload, baseline),
    );
    let cells = criterion_results::cells(rows, group, workload, b);
    let sorted = criterion_results::workload_cells(rows, group, workload, baseline);
    lemma_cells(rows, group, workload, b);
    assert(criterion_results::in_workload(rows[k], group, workload));
    let x = choose|x: int| 0 <= x < cells.len() && (#[trigger] cells[x]).index == k;
    assert(is_cell(cells[x], rows, group, workload, b));
    sorting::lemma_sorted_contains(cells);
    assert(cells.contains(cells[x]));
    assert(sorted.contains(cells[x]));
    let j = sorted.index_of(cells[x]);
    assert(hits(wl, j, group, name));
    assert(cells.no_duplicates()) by {
        assert forall|p: int, q: int| 0 <= p < cells.len() && 0 <= q < cells.len() && p
            != q implies cells[p] != cells[q] by {
            if p < q {
                assert(cells[p].index < cells[q].index);
            } else {
                assert(cells[q].index < cells[p].index);
            }
        }
    }
    sorting::lemma_sorted_no_duplicates(cells);
    let views = instructions::row_views(rows);
    assert forall|u: int, i: int| 0 <= u < table.len() && #[trigger] hits(
        table[u],
        i,
        group,
        name,
    ) implies u == t && i == j by {
        let k2 = lemma_hit_source(table, rows, baseline, group, name, u, i);
        assert(views[k] == rows[k]@ && views[k2] == rows[k2]@);
        storage::law_row_names_split_back(rows[k].subject@, workload);
        assert(k2 == k) by {
            if k2 < k {
                assert(!is_triple(views[k2], views[k].group, views[k].subject, views[k].workload));
            } else if k < k2 {
                assert(!is_triple(views[k], views[k2].group, views[k2].subject, views[k2].workload));
            }
        }
        assert(table[u].key() =~= key);
        keyed::lemma_position_is(table, u);
        assert(u == t);
        // Both cells have the index `k`.
        assert(sorted[i].index == k && sorted[j].index == k);
        assert(sorted.contains(sorted[i]));
        let y = cells.index_of(sorted[i]);
        assert(cells[y].index == k);
        if y < x {
            assert(cells[y].index < cells[x].index);
        } else if x < y {
            assert(cells[x].index < cells[y].index);
        }
        assert(sorted[i] == sorted[j]);
    }
    (t, j)
}

/// What a stored row gets from the ratio table of a collection.
proof fn lemma_attached(
    groups: Map<Seq<char>, Map<Seq<char>, RowRecord>>,
    table: Seq<InstrWorkloadRatios>,
    rows: Seq<InstrRow>,
    baseline: Seq<char>,
    group: Seq<char>,
    name: Seq<char>,
)
    requires
        instructions::is_instr_ratio_table(table, rows, baseline),
        are_triples(instructions::row_views(rows)),
        rows.len() <= usize::MAX,
        storage::has_row(groups, group, name),
    ensures
        storage::with_instr_ratios(groups, table)[group][name].instr == (match attached(
            instructions::row_views(rows),
            baseline,
            group,
            name,
        ) {
            Some(r) => Some(r),
            None => groups[group][name].instr,
        }),
{
    let views = instructions::row_views(rows);
    let (subject, workload) = criterion_results::split_id(name);
    if attached(views, baseline, group, name) is Some {
        let k = lemma_count_from(views, group, subject, workload);
        assert(views[k] == rows[k]@);
        let (t, j) = lemma_target(table, rows, baseline, k);
        lemma_hit(groups, table, group, name, t, j);
        let k2 = lemma_hit_source(table, rows, baseline, group, name, t, j);
        assert(views[k2] == rows[k2]@);
        lemma_count_at(views, k2);
    } else {
        assert forall|t: int, j: int| 0 <= t < table.len() implies !#[trigger] hits(
            table[t],
            j,
            group,
            name,
        ) by {
            if hits(table[t], j, group, name) {
                let k = lemma_hit_source(table, rows, baseline, group, name, t, j);
                assert(views[k] == rows[k]@);
                lemma_count_at(views, k);
            }
        }
        lemma_untouched(groups, table, group, name);
    }
}

// ---------------------------------------------------------------------------
// Stored counts
// ---------------------------------------------------------------------------

/// Does every count stand under a name that splits into its triple?
pub open spec fn counts_named(rows: StrMap<RowRecord>) -> bool {
    forall|i: int|
        0 <= i < rows.keys().len() && (#[trigger] rows.nth(i)).instr is Some ==> {
            let (subject, workload) = criterion_results::split_id(rows.keys()[i]);
            storage::row_name_spec(subject, workload) == rows.keys()[i]
        }
}

/// The row that a stored count comes from.
proof fn lemma_group_source(group: Seq<char>, rows: StrMap<RowRecord>, n: nat, p: int) -> (i: int)
    requires
        n <= rows.keys().len(),
        0 <= p < storage::group_counts(group, rows, n).len(),
    ensures
        0 <= i < n,
        rows.nth(i).instr is Some,
        ({
            let (subject, workload) = criterion_results::split_id(rows.keys()[i]);
            let x = storage::group_counts(group, rows, n)[p];
            is_triple(x, group, subject, workload) && x.count == rows.nth(i).instr->0.count
        }),
    decreases n,
{
    let before = storage::group_counts(group, rows, (n - 1) as nat);
    if p < before.len() {
        let i = lemma_group_source(group, rows, (n - 1) as nat, p);
        assert(storage::group_counts(group, rows, n)[p] == before[p]);
        i
    } else {
        n - 1
    }
}

proof fn lemma_group_triples(group: Seq<char>, rows: StrMap<RowRecord>, n: nat)
    requires
        rows.wf(),
        counts_named(rows),
        n <= rows.keys().len(),
    ensures
        are_triples(storage::group_counts(group, rows, n)),
    decreases n,
{
    if n > 0 {
        lemma_group_triples(group, rows, (n - 1) as nat);
        let before = storage::group_counts(group, rows, (n - 1) as nat);
        let all = storage::group_counts(group, rows, n);
        assert forall|a: int, b: int| 0 <= a < b < all.len() implies !is_triple(
            #[trigger] all[a],
            (#[trigger] all[b]).group,
            all[b].subject,
            all[b].workload,
        ) by {
            assert(all[a] == before[a]);
            if b < before.len() {
                assert(all[b] == before[b]);
            } else {
                let i = lemma_group_source(group, rows, (n - 1) as nat, a);
                let last = n - 1;
                assert(rows.nth(last).instr is Some);
                if is_triple(all[a], all[b].group, all[b].subject, all[b].workload) {
                    assert(rows.keys()[i] == rows.keys()[last]);
                    strmap::lemma_increasing_distinct(rows.keys(), i, last);
                }
            }
        }
        assert forall|a: int| 0 <= a < all.len() implies !(#[trigger] all[a]).subject.contains(
            '/',
        ) by {
            let i = lemma_group_source(group, rows, n, a);
            storage::law_subjects_hold_no_slash(rows.keys()[i]);
        }
    }
}

/// The group and row that a stored count comes from.
proof fn lemma_stored_source(groups: StrMap<StrMap<RowRecord>>, n: nat, p: int) -> (r: (int, int))
    requires
        n <= groups.keys().len(),
        0 <= p < storage::stored_counts(groups, n).len(),
    ensures
        0 <= r.0 < n,
        0 <= r.1 < groups.nth(r.0).keys().len(),
        groups.nth(r.0).nth(r.1).instr is Some,
        ({
            let rows = groups.nth(r.0);
            let (subject, workload) = criterion_results::split_id(rows.keys()[r.1]);
            let x = storage::stored_counts(groups, n)[p];
            is_triple(x, groups.keys()[r.0], subject, workload) && x.count == rows.nth(
                r.1,
            ).instr->0.count
        }),
    decreases n,
{
    let before = storage::stored_counts(groups, (n - 1) as nat);
    let rows = groups.nth(n - 1);
    let last = storage::group_counts(groups.keys()[n - 1], rows, rows.keys().len());
    if p < before.len() {
        let r = lemma_stored_source(groups, (n - 1) as nat, p);
        assert((before + last)[p] == before[p]);
        r
    } else {
        let i = lemma_group_source(
            groups.keys()[n - 1],
            rows,
            rows.keys().len(),
            p - before.len(),
        );
        assert((before + last)[p] == last[p - before.len()]);
        (n - 1, i)
    }
}

proof fn lemma_stored_triples(groups: StrMap<StrMap<RowRecord>>, n: nat)
    requires
        groups.wf(),
        forall|g: int|
            0 <= g < groups.keys().len() ==> (#[trigger] groups.nth(g)).wf() && counts_named(
                groups.nth(g),
            ),
        n <= groups.keys().len(),
    ensures
        are_triples(storage::stored_counts(groups, n)),
    decreases n,
{
    if n > 0 {
        lemma_stored_triples(groups, (n - 1) as nat);
        let before = storage::stored_counts(groups, (n - 1) as nat);
        let rows = groups.nth(n - 1);
        let last = storage::group_counts(groups.keys()[n - 1], rows, rows.keys().len());
        lemma_group_triples(groups.keys()[n - 1], rows, rows.keys().len());
        let all = before + last;
        assert(all == storage::stored_counts(groups, n));
        assert forall|a: int, b: int| 0 <= a < b < all.len() implies !is_triple(
            #[trigger] all[a],
            (#[trigger] all[b]).group,
            all[b].subject,
            all[b].workload,
        ) by {
            let m = before.len();
            if b < m {
                assert(all[a] == before[a] && all[b] == before[b]);
            } else if a >= m {
                assert(all[a] == last[a - m] && all[b] == last[b - m]);
            } else {
                assert(all[a] == before[a] && all[b] == last[b - m]);
                let (g, i) = lemma_stored_source(groups, (n - 1) as nat, a);
                let j = lemma_group_source(groups.keys()[n - 1], rows, rows.keys().len(), b - m);
                if all[a].group == all[b].group {
                    strmap::lemma_increasing_distinct(groups.keys(), g, n - 1);
                }
            }
        }
        assert forall|a: int| 0 <= a < all.len() implies !(#[trigger] all[a]).subject.contains(
            '/',
        ) by {
            if a < before.len() {
                assert(all[a] == before[a]);
            } else {
                assert(all[a] == last[a - before.len()]);
            }
        }
    }
}

/// Reading a stored count by its triple.
proof fn lemma_stored_at(
    groups: StrMap<StrMap<RowRecord>>,
    group: Seq<char>,
    subject: Seq<char>,
    workload: Seq<char>,
)
    requires
        storage::groups_wf(groups),
        forall|g: int|
            0 <= g < groups.keys().len() ==> counts_named(#[trigger] groups.nth(g)),
        !subject.contains('/'),
    ensures
        ({
            let name = storage::row_name_spec(subject, workload);
            let rows = storage::groups_of(groups);
            count_at(
                storage::stored_counts(groups, groups.keys().len()),
                group,
                subject,
                workload,
            ) == (if storage::has_row(rows, group, name) {
                match rows[group][name].instr {
                    Some(i) => Some(i.count),
                    None => None,
                }
            } else {
                None
            })
        }),
{
    let n = groups.keys().len();
    let stored = storage::stored_counts(groups, n);
    let name = storage::row_name_spec(subject, workload);
    let rows = storage::groups_of(groups);
    assert forall|g: int| 0 <= g < n implies (#[trigger] groups.nth(g)).wf() && counts_named(
        groups.nth(g),
    ) by {
        groups.lemma_nth(g);
    }
    lemma_stored_triples(groups, n);
    if storage::has_row(rows, group, name) && rows[group][name].instr is Some {
        let g = groups.position(group);
        assert(groups.has(group));
        assert(groups.keys()[g] == group);
        groups.lemma_nth(g);
        let inner = groups.nth(g);
        assert(inner.has(name));
        let i = inner.position(name);
        assert(inner.keys()[i] == name);
        inner.lemma_nth(i);
        storage::law_row_names_split_back(subject, workload);
        storage::lemma_stored_counts_from(groups, n, g, i);
        let x = InstrRowView { group, subject, workload, count: inner.nth(i).instr->0.count };
        let p = stored.index_of(x);
        assert(stored[p] == x);
        lemma_count_at(stored, p);
    } else if count_at(stored, group, subject, workload) is Some {
        let p = lemma_count_from(stored, group, subject, workload);
        let (g, i) = lemma_stored_source(groups, n, p);
        groups.lemma_nth(g);
        let inner = groups.nth(g);
        assert(counts_named(inner));
        assert(inner.nth(i).instr is Some);
        assert(inner.keys()[i] == name);
        inner.lemma_nth(i);
        assert(rows[group] == inner@);
    }
}

// ---------------------------------------------------------------------------
// The law
// ---------------------------------------------------------------------------

/// A run's instruction rows.
pub open spec fn lane_views(instr: Option<CollectOutcome>) -> Seq<InstrRowView> {
    match pipeline::collected(instr) {
        Some(c) => instructions::row_views(c.rows@),
        None => Seq::empty(),
    }
}

/// Does every row with an instructions ratio have its baseline's row beside it?
pub open spec fn baselines_stored(
    rows: Map<Seq<char>, Map<Seq<char>, RowRecord>>,
    baseline: Seq<char>,
) -> bool {
    forall|g: Seq<char>, n: Seq<char>| #[trigger]
        storage::has_row(rows, g, n) && has_instr_ratio(rows[g][n]) ==> storage::has_row(
            rows,
            g,
            storage::row_name_spec(baseline, criterion_results::split_id(n).1),
        )
}

pub open spec fn has_instr_ratio(row: RowRecord) -> bool {
    match row.instr {
        Some(instr) => instr.ratio_vs_baseline is Some,
        None => false,
    }
}

proof fn lemma_same_tables(
    a: Seq<WorkloadRatios>,
    b: Seq<WorkloadRatios>,
    rows: Seq<Row>,
    baseline: Seq<char>,
    n: nat,
)
    requires
        criterion_results::is_ratio_table(a, rows, baseline),
        criterion_results::is_ratio_table(b, rows, baseline),
        n <= a.len(),
    ensures
        a.len() == b.len(),
        storage::with_ratios(Map::empty(), a.take(n as int)) == storage::with_ratios(
            Map::empty(),
            b.take(n as int),
        ),
    decreases n,
{
    keyed::lemma_same_keys(a, b);
    if n > 0 {
        lemma_same_tables(a, b, rows, baseline, (n - 1) as nat);
        let i = n - 1;
        assert(a.take(n as int).drop_last() =~= a.take(i));
        assert(b.take(n as int).drop_last() =~= b.take(i));
        assert(a.take(n as int).last() == a[i] && b.take(n as int).last() == b[i]);
        assert(a[i].key() == b[i].key());
        assert(a[i].key()[0] == a[i].group@ && b[i].key()[0] == b[i].group@);
        assert(a[i].key()[1] == a[i].workload@ && b[i].key()[1] == b[i].workload@);
        assert(a[i].rows@ == b[i].rows@);
    } else {
        assert(a.take(0) =~= Seq::empty() && b.take(0) =~= Seq::empty());
    }
}

/// Walltime rows carry no counts.
pub open spec fn no_counts(groups: Map<Seq<char>, Map<Seq<char>, RowRecord>>) -> bool {
    forall|g: Seq<char>, n: Seq<char>| #[trigger]
        storage::has_row(groups, g, n) ==> groups[g][n].instr is None
}

proof fn lemma_rows_without_counts(
    rows: Map<Seq<char>, RowRecord>,
    ratios: Seq<criterion_results::RatioRow>,
    workload: Seq<char>,
    name: Seq<char>,
)
    requires
        rows.dom().contains(name) ==> rows[name].instr is None,
    ensures
        storage::with_rows(rows, ratios, workload).dom().contains(name) ==> storage::with_rows(
            rows,
            ratios,
            workload,
        )[name].instr is None,
    decreases ratios.len(),
{
    if ratios.len() > 0 {
        lemma_rows_without_counts(rows, ratios.drop_last(), workload, name);
    }
}

proof fn lemma_walltime_without_counts(ratios: Seq<WorkloadRatios>)
    ensures
        no_counts(storage::with_ratios(Map::empty(), ratios)),
    decreases ratios.len(),
{
    let all = storage::with_ratios(Map::empty(), ratios);
    if ratios.len() > 0 {
        let before = storage::with_ratios(Map::empty(), ratios.drop_last());
        lemma_walltime_without_counts(ratios.drop_last());
        let wl = ratios.last();
        assert forall|g: Seq<char>, n: Seq<char>| #[trigger]
            storage::has_row(all, g, n) implies all[g][n].instr is None by {
            if g == wl.group@ {
                let rows = storage::group_rows(before, g);
                if rows.dom().contains(n) {
                    assert(storage::has_row(before, g, n));
                }
                lemma_rows_without_counts(rows, wl.rows@, wl.workload@, n);
            } else {
                assert(storage::has_row(before, g, n));
            }
        }
    }
}

proof fn lemma_counts_same_rows(
    groups: Map<Seq<char>, Map<Seq<char>, RowRecord>>,
    group: Seq<char>,
    workload: Seq<char>,
    rows: Seq<InstrRatioRow>,
)
    ensures
        storage::same_rows(groups, storage::with_counts(groups, group, workload, rows)),
    decreases rows.len(),
{
    if rows.len() > 0 {
        lemma_counts_same_rows(groups, group, workload, rows.drop_last());
        let before = storage::with_counts(groups, group, workload, rows.drop_last());
        storage::lemma_with_count_same_rows(
            before,
            group,
            storage::row_name_spec(rows.last().subject@, workload),
            instr_of(rows.last()),
        );
    }
}

proof fn lemma_table_same_rows(
    groups: Map<Seq<char>, Map<Seq<char>, RowRecord>>,
    table: Seq<InstrWorkloadRatios>,
)
    ensures
        storage::same_rows(groups, storage::with_instr_ratios(groups, table)),
    decreases table.len(),
{
    if table.len() > 0 {
        lemma_table_same_rows(groups, table.drop_last());
        let before = storage::with_instr_ratios(groups, table.drop_last());
        let wl = table.last();
        lemma_counts_same_rows(before, wl.group@, wl.workload@, wl.rows@);
    }
}

/// A run's rows: its walltime rows, each with what the lane attaches to it.
pub open spec fn are_run_rows(
    rows: Map<Seq<char>, Map<Seq<char>, RowRecord>>,
    walltime: Map<Seq<char>, Map<Seq<char>, RowRecord>>,
    views: Seq<InstrRowView>,
    baseline: Seq<char>,
) -> bool {
    &&& storage::same_rows(walltime, rows)
    &&& forall|g: Seq<char>, n: Seq<char>| #[trigger]
        storage::has_row(walltime, g, n) ==> rows[g][n] == (RowRecord {
            ns: walltime[g][n].ns,
            ratio_vs_baseline: walltime[g][n].ratio_vs_baseline,
            instr: attached(views, baseline, g, n),
        })
}

proof fn lemma_run_rows(
    plan: RunPlan,
    repo: RepoConfig,
    settings: Settings,
    store: RepoStore,
    rows: Seq<Row>,
    meta: CommitMeta,
    failed: Seq<String>,
    instr: Option<CollectOutcome>,
    before: State,
)
    requires
        pipeline::is_run_plan(plan, repo, settings, store, rows, meta, failed, instr, before),
        are_triples(lane_views(instr)),
    ensures
        are_run_rows(
            plan.record.rows(),
            storage::with_ratios(Map::empty(), plan.ratios@),
            lane_views(instr),
            repo.baseline_subject@,
        ),
{
    let walltime = storage::with_ratios(Map::empty(), plan.ratios@);
    let baseline = repo.baseline_subject@;
    let views = lane_views(instr);
    lemma_walltime_without_counts(plan.ratios@);
    let all = plan.record.rows();
    match plan.instr_ratios {
        Some(t) => {
            let c = pipeline::collected(instr)->0;
            assert(c.rows.len() == c.rows@.len());
            lemma_table_same_rows(walltime, t@);
            assert forall|g: Seq<char>, n: Seq<char>| #[trigger]
                storage::has_row(walltime, g, n) implies all[g][n] == (RowRecord {
                ns: walltime[g][n].ns,
                ratio_vs_baseline: walltime[g][n].ratio_vs_baseline,
                instr: attached(views, baseline, g, n),
            }) by {
                lemma_attached(walltime, t@, c.rows@, baseline, g, n);
                storage::law_counts_leave_walltime_alone(walltime, t@, g, n);
            }
        },
        None => {},
    }
}

/// Re-attaching what a record carries gives each row what it had.
proof fn lemma_reattached(
    groups: StrMap<StrMap<RowRecord>>,
    walltime: Map<Seq<char>, Map<Seq<char>, RowRecord>>,
    views: Seq<InstrRowView>,
    baseline: Seq<char>,
    group: Seq<char>,
    name: Seq<char>,
)
    requires
        storage::groups_wf(groups),
        are_triples(views),
        are_run_rows(storage::groups_of(groups), walltime, views, baseline),
        baselines_stored(storage::groups_of(groups), baseline),
        storage::has_row(walltime, group, name),
    ensures
        are_triples(storage::stored_counts(groups, groups.keys().len())),
        attached(
            storage::stored_counts(groups, groups.keys().len()),
            baseline,
            group,
            name,
        ) == attached(views, baseline, group, name),
{
    let rows = storage::groups_of(groups);
    let stored = storage::stored_counts(groups, groups.keys().len());
    lemma_counts_named(groups, walltime, views, baseline);
    assert forall|g: int| 0 <= g < groups.keys().len() implies (#[trigger] groups.nth(g)).wf()
        && counts_named(groups.nth(g)) by {
        groups.lemma_nth(g);
    }
    lemma_stored_triples(groups, groups.keys().len());
    let (subject, workload) = criterion_results::split_id(name);
    if storage::row_name_spec(subject, workload) == name {
        storage::law_subjects_hold_no_slash(name);
        lemma_stored_at(groups, group, subject, workload);
        assert(storage::has_row(rows, group, name));
        assert(count_at(stored, group, subject, workload) == count_at(
            views,
            group,
            subject,
            workload,
        ));
        if baseline.contains('/') {
            if count_at(stored, group, baseline, workload) is Some {
                let i = lemma_count_from(stored, group, baseline, workload);
                assert(!stored[i].subject.contains('/'));
            }
            if count_at(views, group, baseline, workload) is Some {
                let i = lemma_count_from(views, group, baseline, workload);
                assert(!views[i].subject.contains('/'));
            }
        } else {
            let base_name = storage::row_name_spec(baseline, workload);
            lemma_stored_at(groups, group, baseline, workload);
            storage::law_row_names_split_back(baseline, workload);
            if storage::has_row(walltime, group, base_name) {
                assert(storage::has_row(rows, group, base_name));
            } else {
                assert(!storage::has_row(rows, group, base_name));
                assert(!has_instr_ratio(rows[group][name]));
            }
        }
    }
}

proof fn lemma_counts_named(
    groups: StrMap<StrMap<RowRecord>>,
    walltime: Map<Seq<char>, Map<Seq<char>, RowRecord>>,
    views: Seq<InstrRowView>,
    baseline: Seq<char>,
)
    requires
        storage::groups_wf(groups),
        are_run_rows(storage::groups_of(groups), walltime, views, baseline),
    ensures
        forall|g: int| 0 <= g < groups.keys().len() ==> counts_named(#[trigger] groups.nth(g)),
{
    let rows = storage::groups_of(groups);
    assert forall|g: int| 0 <= g < groups.keys().len() implies counts_named(
        #[trigger] groups.nth(g),
    ) by {
        groups.lemma_nth(g);
        let inner = groups.nth(g);
        let group = groups.keys()[g];
        assert(rows[group] == inner@);
        assert forall|i: int|
            0 <= i < inner.keys().len() && (#[trigger] inner.nth(i)).instr is Some implies {
            let (subject, workload) = criterion_results::split_id(inner.keys()[i]);
            storage::row_name_spec(subject, workload) == inner.keys()[i]
        } by {
            inner.lemma_nth(i);
            let name = inner.keys()[i];
            assert(storage::has_row(rows, group, name));
            assert(storage::has_row(walltime, group, name));
            assert(rows[group][name].instr == attached(views, baseline, group, name));
        }
    }
}

/// A run that is rendered again from the criterion tree of its first time, with
/// the failed targets and the instructions data that its record carries
/// forward, gets the record that it had: the same rows with the same numbers
/// in both lanes, and the same failure markers. The first collection has one
/// row per benchmark, with no `/` in its subjects, and every row of the record
/// with an instructions ratio has its baseline's row beside it.
pub proof fn law_a_regenerated_record_is_the_same(
    first: RunPlan,
    second: RunPlan,
    repo: RepoConfig,
    settings: Settings,
    store: RepoStore,
    rows: Seq<Row>,
    meta: CommitMeta,
    failed: Seq<String>,
    instr: Option<CollectOutcome>,
    carried_failed: Seq<String>,
    carried: Option<CollectOutcome>,
    before: State,
    later: State,
)
    requires
        pipeline::is_run_plan(first, repo, settings, store, rows, meta, failed, instr, before),
        pipeline::is_carried(first.record, carried_failed, carried),
        pipeline::is_run_plan(
            second,
            repo,
            settings,
            store,
            rows,
            meta,
            carried_failed,
            carried,
            later,
        ),
        are_triples(lane_views(instr)),
        baselines_stored(first.record.rows(), repo.baseline_subject@),
    ensures
        second.record.rows() == first.record.rows(),
        text::views(second.record.failed_targets@) == text::views(first.record.failed_targets@),
        text::views(second.record.instr_failures()) == text::views(first.record.instr_failures()),
{
    let baseline = repo.baseline_subject@;
    let walltime = storage::with_ratios(Map::empty(), first.ratios@);
    let views = lane_views(instr);
    let groups = first.record.groups;
    let stored = storage::stored_counts(groups, groups.keys().len());
    lemma_same_tables(first.ratios@, second.ratios@, rows, baseline, first.ratios@.len());
    assert(first.ratios@.take(first.ratios@.len() as int) =~= first.ratios@);
    assert(second.ratios@.take(second.ratios@.len() as int) =~= second.ratios@);
    lemma_run_rows(first, repo, settings, store, rows, meta, failed, instr, before);
    lemma_counts_named(groups, walltime, views, baseline);
    assert forall|g: int| 0 <= g < groups.keys().len() implies (#[trigger] groups.nth(g)).wf()
        && counts_named(groups.nth(g)) by {
        groups.lemma_nth(g);
    }
    lemma_stored_triples(groups, groups.keys().len());
    assert(lane_views(carried) =~= stored);
    lemma_run_rows(
        second,
        repo,
        settings,
        store,
        rows,
        meta,
        carried_failed,
        carried,
        later,
    );
    let a = first.record.rows();
    let b = second.record.rows();
    assert forall|g: Seq<char>| #[trigger] a.dom().contains(g) implies a[g] == b[g] by {
        assert(walltime.dom().contains(g));
        assert(a[g].dom() == b[g].dom());
        assert forall|n: Seq<char>| #[trigger] a[g].dom().contains(n) implies a[g][n]
            == b[g][n] by {
            assert(storage::has_row(walltime, g, n));
            lemma_reattached(groups, walltime, views, baseline, g, n);
        }
        assert(a[g] =~= b[g]);
    }
    assert(a =~= b);
}

/// Counts that are attached to a record come back: the collection read from it
/// holds the rows that were attached, in some order, and no failed target; there
/// is none where there were no rows. The record held no instructions data
/// before, every row has its walltime row, and there is one row per benchmark,
/// with no `/` in its subject.
pub proof fn law_attached_counts_come_back(
    before: CommitRecord,
    after: CommitRecord,
    rows: Vec<InstrRow>,
    table: Seq<InstrWorkloadRatios>,
    baseline: Seq<char>,
    back: Option<InstrCollection>,
)
    requires
        before.wf(),
        no_counts(before.rows()),
        before.instr_failed_targets is None,
        are_triples(instructions::row_views(rows@)),
        forall|i: int|
            0 <= i < rows@.len() ==> storage::has_row(
                before.rows(),
                (#[trigger] rows@[i]).group@,
                storage::row_name_spec(rows@[i].subject@, rows@[i].workload@),
            ),
        instructions::is_instr_ratio_table(table, rows@, baseline),
        after.wf(),
        after.rows() == storage::with_instr_ratios(before.rows(), table),
        after.same_head(before),
        after.is_collection(back),
    ensures
        match back {
            Some(c) => rows@.len() > 0 && c.failed_targets@.len() == 0 && instructions::row_views(
                c.rows@,
            ).to_multiset() == instructions::row_views(rows@).to_multiset(),
            None => rows@.len() == 0,
        },
{
    let views = instructions::row_views(rows@);
    let walltime = before.rows();
    let all = after.rows();
    let groups = after.groups;
    let stored = storage::stored_counts(groups, groups.keys().len());
    assert(rows.len() == rows@.len());
    lemma_table_same_rows(walltime, table);
    assert forall|g: Seq<char>, n: Seq<char>| #[trigger]
        storage::has_row(walltime, g, n) implies all[g][n] == (RowRecord {
        ns: walltime[g][n].ns,
        ratio_vs_baseline: walltime[g][n].ratio_vs_baseline,
        instr: attached(views, baseline, g, n),
    }) by {
        lemma_attached(walltime, table, rows@, baseline, g, n);
        storage::law_counts_leave_walltime_alone(walltime, table, g, n);
    }
    lemma_counts_named(groups, walltime, views, baseline);
    assert forall|g: int| 0 <= g < groups.keys().len() implies (#[trigger] groups.nth(g)).wf()
        && counts_named(groups.nth(g)) by {
        groups.lemma_nth(g);
    }
    lemma_stored_triples(groups, groups.keys().len());
    assert forall|x: InstrRowView| views.contains(x) implies stored.contains(x) by {
        let i = views.index_of(x);
        assert(views[i] == rows@[i]@);
        let name = storage::row_name_spec(x.subject, x.workload);
        lemma_count_at(views, i);
        storage::law_row_names_split_back(x.subject, x.workload);
        assert(storage::has_row(walltime, x.group, name));
        lemma_stored_at(groups, x.group, x.subject, x.workload);
        let p = lemma_count_from(stored, x.group, x.subject, x.workload);
        assert(stored[p] == x);
    }
    assert forall|x: InstrRowView| stored.contains(x) implies views.contains(x) by {
        let p = stored.index_of(x);
        let name = storage::row_name_spec(x.subject, x.workload);
        lemma_count_at(stored, p);
        assert(!stored[p].subject.contains('/'));
        storage::law_row_names_split_back(x.subject, x.workload);
        lemma_stored_at(groups, x.group, x.subject, x.workload);
        assert(storage::has_row(walltime, x.group, name));
        let i = lemma_count_from(views, x.group, x.subject, x.workload);
        assert(views[i] == x);
    }
    lemma_same_bag(views, stored);
    if rows@.len() > 0 {
        assert(stored.contains(views[0]));
    }
    if stored.len() > 0 {
        assert(views.contains(stored[0]));
    }
}

proof fn lemma_same_bag(a: Seq<InstrRowView>, b: Seq<InstrRowView>)
    requires
        are_triples(a),
        are_triples(b),
        forall|x: InstrRowView| a.contains(x) ==> b.contains(x),
        forall|x: InstrRowView| b.contains(x) ==> a.contains(x),
    ensures
        a.to_multiset() == b.to_multiset(),
{
    assert forall|i: int, j: int| 0 <= i < j < a.len() implies a[i] != a[j] by {
        assert(!is_triple(a[i], a[j].group, a[j].subject, a[j].workload));
    }
    assert forall|i: int, j: int| 0 <= i < j < b.len() implies b[i] != b[j] by {
        assert(!is_triple(b[i], b[j].group, b[j].subject, b[j].workload));
    }
    a.to_multiset_ensures();
    b.to_multiset_ensures();
    assert(a.no_duplicates() && b.no_duplicates());
    a.lemma_multiset_has_no_duplicates();
    b.lemma_multiset_has_no_duplicates();
    assert forall|x: InstrRowView| a.to_multiset().count(x) == b.to_multiset().count(x) by {
        assert(a.contains(x) <==> a.to_multiset().contains(x));
        assert(b.contains(x) <==> b.to_multiset().contains(x));
    }
    assert(a.to_multiset() =~= b.to_multiset());
}

// ---------------------------------------------------------------------------
// The comparison table
// ---------------------------------------------------------------------------

/// Do two collections have the same counts of a workload?
pub open spec fn agree(
    a: Seq<InstrRowView>,
    b: Seq<InstrRowView>,
    group: Seq<char>,
    workload: Seq<char>,
) -> bool {
    forall|s: Seq<char>| #[trigger]
        count_at(a, group, s, workload) == count_at(b, group, s, workload)
}

pub open spec fn subjects_of(rows: Seq<InstrRatioRow>) -> Seq<Seq<char>> {
    rows.map_values(|r: InstrRatioRow| r.subject@)
}

/// Do two workloads have the same subjects, counts and ratios?
pub open spec fn alike_rows(a: Seq<InstrRatioRow>, b: Seq<InstrRatioRow>) -> bool {
    &&& a.len() == b.len()
    &&& forall|j: int| 0 <= j < a.len() ==> alike_row(#[trigger] a[j], #[trigger] b[j])
}

pub open spec fn alike_row(a: InstrRatioRow, b: InstrRatioRow) -> bool {
    a.subject@ == b.subject@ && a.count == b.count && a.ratio_vs_baseline == b.ratio_vs_baseline
}

/// A workload's ratio rows run by subject, and hold its counts.
proof fn lemma_workload_rows(
    rows: Seq<InstrRow>,
    group: Seq<char>,
    workload: Seq<char>,
    baseline: Seq<char>,
)
    requires
        are_triples(instructions::row_views(rows)),
        rows.len() <= usize::MAX,
    ensures
        ({
            let views = instructions::row_views(rows);
            let r = instructions::instr_ratio_rows_spec(rows, group, workload, baseline);
            &&& strmap::increasing(subjects_of(r))
            &&& forall|s: Seq<char>| #[trigger]
                subjects_of(r).contains(s) <==> count_at(views, group, s, workload) is Some
            &&& forall|j: int|
                0 <= j < r.len() ==> count_at(
                    views,
                    group,
                    (#[trigger] r[j]).subject@,
                    workload,
                ) == Some(r[j].count) && r[j].ratio_vs_baseline == criterion_results::ratio_spec(
                    Double::from_nat_spec(r[j].count as nat),
                    criterion_results::usable(baseline_at(views, group, workload, baseline)),
                )
        }),
{
    let views = instructions::row_views(rows);
    let b = criterion_results::usable(
        criterion_results::first_baseline(rows, group, workload, baseline),
    );
    let cells = criterion_results::cells(rows, group, workload, b);
    let sorted = criterion_results::workload_cells(rows, group, workload, baseline);
    let r = instructions::instr_ratio_rows_spec(rows, group, workload, baseline);
    lemma_first_baseline(rows, group, workload, baseline);
    lemma_cells(rows, group, workload, b);
    sorting::lemma_sorted_contains(cells);
    assert(cells.no_duplicates()) by {
        assert forall|p: int, q: int| 0 <= p < cells.len() && 0 <= q < cells.len() && p
            != q implies cells[p] != cells[q] by {
            if p < q {
                assert(cells[p].index < cells[q].index);
            } else {
                assert(cells[q].index < cells[p].index);
            }
        }
    }
    sorting::lemma_sorted_no_duplicates(cells);
    lemma_cells_ordered(cells);
    // Every cell of the sorted list is one of a row of the workload.
    assert forall|j: int| 0 <= j < sorted.len() implies is_cell(
        #[trigger] sorted[j],
        rows,
        group,
        workload,
        b,
    ) && cells.contains(sorted[j]) by {
        assert(sorted.contains(sorted[j]));
        let x = cells.index_of(sorted[j]);
        assert(is_cell(cells[x], rows, group, workload, b));
    }
    let subjects = subjects_of(r);
    assert forall|i: int, j: int| 0 <= i < j < subjects.len() implies text::lex_lt(
        #[trigger] subjects[i],
        #[trigger] subjects[j],
    ) by {
        let (p, q) = (sorted[i], sorted[j]);
        assert(is_cell(p, rows, group, workload, b) && is_cell(q, rows, group, workload, b));
        assert(!q.before(p));
        text::lemma_lex_total(p.subject@, q.subject@);
        if p.subject@ == q.subject@ {
            let (k, l) = (p.index as int, q.index as int);
            assert(views[k] == rows[k]@ && views[l] == rows[l]@);
            if k < l {
                assert(!is_triple(views[k], views[l].group, views[l].subject, views[l].workload));
            } else if l < k {
                assert(!is_triple(views[l], views[k].group, views[k].subject, views[k].workload));
            } else {
                let x = cells.index_of(p);
                let y = cells.index_of(q);
                assert(cells[x].index == cells[y].index);
                if x < y {
                    assert(cells[x].index < cells[y].index);
                } else if y < x {
                    assert(cells[y].index < cells[x].index);
                }
                assert(p == q);
            }
        }
    }
    assert forall|j: int| 0 <= j < r.len() implies count_at(
        views,
        group,
        (#[trigger] r[j]).subject@,
        workload,
    ) == Some(r[j].count) && r[j].ratio_vs_baseline == criterion_results::ratio_spec(
        Double::from_nat_spec(r[j].count as nat),
        criterion_results::usable(baseline_at(views, group, workload, baseline)),
    ) by {
        let c = sorted[j];
        assert(is_cell(c, rows, group, workload, b));
        let k = c.index as int;
        assert(views[k] == rows[k]@);
        lemma_count_at(views, k);
    }
    assert forall|s: Seq<char>| #[trigger] subjects.contains(s) <==> count_at(
        views,
        group,
        s,
        workload,
    ) is Some by {
        if subjects.contains(s) {
            let j = subjects.index_of(s);
            assert(r[j].subject@ == s);
        }
        if count_at(views, group, s, workload) is Some {
            let k = lemma_count_from(views, group, s, workload);
            assert(views[k] == rows[k]@);
            assert(criterion_results::in_workload(rows[k], group, workload));
            let x = choose|x: int| 0 <= x < cells.len() && (#[trigger] cells[x]).index == k;
            assert(is_cell(cells[x], rows, group, workload, b));
            assert(cells.contains(cells[x]));
            assert(sorted.contains(cells[x]));
            let j = sorted.index_of(cells[x]);
            assert(subjects[j] == s);
        }
    }
}

proof fn lemma_cells_ordered(cells: Seq<RatioCell>)
    ensures
        forall|i: int, j: int|
            0 <= i < j < sorting::sorted(cells).len() ==> !(#[trigger] sorting::sorted(
                cells,
            )[j].before(#[trigger] sorting::sorted(cells)[i])),
{
    assert forall|a: RatioCell, b: RatioCell| #[trigger] a.before(b) implies !b.before(a) by {
        text::lemma_lex_asymmetric(a.subject@, b.subject@);
    }
    assert forall|a: RatioCell, b: RatioCell, c: RatioCell|
        !(#[trigger] a.before(b)) && !(#[trigger] b.before(c)) implies !a.before(c) by {
        if a.before(c) {
            text::lemma_lex_total(a.subject@, b.subject@);
            text::lemma_lex_total(b.subject@, c.subject@);
            if a.subject@ != b.subject@ && b.subject@ != c.subject@ {
                text::lemma_lex_transitive(c.subject@, b.subject@, a.subject@);
                text::lemma_lex_asymmetric(a.subject@, c.subject@);
            }
        }
    }
    sorting::lemma_sorted_ordered(cells);
}

/// Collections with the same counts of a workload have the same ratio rows.
proof fn lemma_alike_rows(
    a: Seq<InstrRow>,
    b: Seq<InstrRow>,
    group: Seq<char>,
    workload: Seq<char>,
    baseline: Seq<char>,
)
    requires
        are_triples(instructions::row_views(a)),
        are_triples(instructions::row_views(b)),
        a.len() <= usize::MAX,
        b.len() <= usize::MAX,
        agree(instructions::row_views(a), instructions::row_views(b), group, workload),
    ensures
        alike_rows(
            instructions::instr_ratio_rows_spec(a, group, workload, baseline),
            instructions::instr_ratio_rows_spec(b, group, workload, baseline),
        ),
{
    let (va, vb) = (instructions::row_views(a), instructions::row_views(b));
    let x = instructions::instr_ratio_rows_spec(a, group, workload, baseline);
    let y = instructions::instr_ratio_rows_spec(b, group, workload, baseline);
    lemma_workload_rows(a, group, workload, baseline);
    lemma_workload_rows(b, group, workload, baseline);
    assert forall|s: Seq<char>| subjects_of(x).contains(s) <==> subjects_of(y).contains(s) by {
        assert(count_at(va, group, s, workload) == count_at(vb, group, s, workload));
    }
    strmap::lemma_increasing_unique(subjects_of(x), subjects_of(y));
    assert(count_at(va, group, baseline, workload) == count_at(vb, group, baseline, workload));
    assert(subjects_of(x).len() == x.len() && subjects_of(y).len() == y.len());
    assert forall|j: int| 0 <= j < x.len() implies alike_row(#[trigger] x[j], #[trigger] y[j]) by {
        assert(subjects_of(x)[j] == x[j].subject@ && subjects_of(y)[j] == y[j].subject@);
        assert(count_at(va, group, x[j].subject@, workload) == count_at(
            vb,
            group,
            x[j].subject@,
            workload,
        ));
    }
}

proof fn lemma_found(tables: Seq<InstrWorkloadRatios>, group: Seq<char>, workload: Seq<char>)
    ensures
        match compare::instr_item(tables, group, workload) {
            Some(rows) => exists|i: int|
                0 <= i < tables.len() && (#[trigger] tables[i]).group@ == group
                    && tables[i].workload@ == workload && rows == tables[i].rows@,
            None => forall|i: int|
                0 <= i < tables.len() ==> (#[trigger] tables[i]).group@ != group
                    || tables[i].workload@ != workload,
        },
    decreases tables.len(),
{
    if tables.len() > 0 {
        let front = tables.drop_last();
        lemma_found(front, group, workload);
        let last = tables.len() - 1;
        if tables[last].group@ != group || tables[last].workload@ != workload {
            match compare::instr_item(front, group, workload) {
                Some(rows) => {
                    let i = choose|i: int|
                        0 <= i < front.len() && (#[trigger] front[i]).group@ == group
                            && front[i].workload@ == workload && rows == front[i].rows@;
                    assert(tables[i] == front[i]);
                },
                None => {
                    assert forall|i: int| 0 <= i < tables.len() implies (
                    #[trigger] tables[i]).group@ != group || tables[i].workload@ != workload by {
                        if i < last {
                            assert(front[i] == tables[i]);
                        }
                    }
                },
            }
        } else {
            assert(tables[last].rows@ == compare::instr_item(tables, group, workload)->0);
        }
    }
}

/// A ratio table has a workload where the collection counts it.
proof fn lemma_item(
    table: Seq<InstrWorkloadRatios>,
    rows: Seq<InstrRow>,
    baseline: Seq<char>,
    group: Seq<char>,
    workload: Seq<char>,
)
    requires
        instructions::is_instr_ratio_table(table, rows, baseline),
        are_triples(instructions::row_views(rows)),
    ensures
        match compare::instr_item(table, group, workload) {
            Some(r) => r == instructions::instr_ratio_rows_spec(rows, group, workload, baseline)
                && exists|s: Seq<char>| #[trigger]
                count_at(instructions::row_views(rows), group, s, workload) is Some,
            None => forall|s: Seq<char>| #[trigger]
                count_at(instructions::row_views(rows), group, s, workload) is None,
        },
{
    let views = instructions::row_views(rows);
    let key = seq![group, workload];
    lemma_found(table, group, workload);
    match compare::instr_item(table, group, workload) {
        Some(r) => {
            let i = choose|i: int|
                0 <= i < table.len() && (#[trigger] table[i]).group@ == group
                    && table[i].workload@ == workload && r == table[i].rows@;
            assert(table[i].key() =~= key);
            assert(keyed::has_key(table, key));
            let k = choose|k: int|
                0 <= k < rows.len() && #[trigger] criterion_results::workload_key(rows[k]) == key;
            assert(views[k] == rows[k]@);
            assert(criterion_results::workload_key(rows[k])[0] == rows[k].group@);
            assert(criterion_results::workload_key(rows[k])[1] == rows[k].workload@);
            lemma_count_at(views, k);
            assert(count_at(views, group, views[k].subject, workload) is Some);
        },
        None => {
            assert forall|s: Seq<char>| #[trigger]
                count_at(views, group, s, workload) is None by {
                if count_at(views, group, s, workload) is Some {
                    let k = lemma_count_from(views, group, s, workload);
                    assert(views[k] == rows[k]@);
                    assert(criterion_results::workload_key(rows[k]) =~= key);
                    assert(keyed::has_key(table, key));
                    let i = keyed::key_position(table, key);
                    assert(table[i].key() == key);
                    assert(table[i].key()[0] == table[i].group@);
                    assert(table[i].key()[1] == table[i].workload@);
                }
            }
        },
    }
}

proof fn lemma_alike_cells(a: Seq<InstrRatioRow>, b: Seq<InstrRatioRow>, subject: Seq<char>)
    requires
        alike_rows(a, b),
    ensures
        compare::count_cell(a, subject) == compare::count_cell(b, subject),
    decreases a.len(),
{
    if a.len() > 0 {
        assert(alike_row(a[0], b[0]));
        assert forall|j: int| 0 <= j < a.len() - 1 implies alike_row(
            #[trigger] a.drop_first()[j],
            #[trigger] b.drop_first()[j],
        ) by {
            assert(alike_row(a[j + 1], b[j + 1]));
        }
        lemma_alike_cells(a.drop_first(), b.drop_first(), subject);
    }
}

proof fn lemma_alike_worst(
    a: Seq<InstrRatioRow>,
    b: Seq<InstrRatioRow>,
    headline: Seq<Seq<char>>,
)
    requires
        alike_rows(a, b),
    ensures
        compare::worst_instr_ratio(a, headline) == compare::worst_instr_ratio(b, headline),
    decreases a.len(),
{
    if a.len() > 0 {
        assert(alike_row(a[a.len() - 1], b[b.len() - 1]));
        assert forall|j: int| 0 <= j < a.len() - 1 implies alike_row(
            #[trigger] a.drop_last()[j],
            #[trigger] b.drop_last()[j],
        ) by {
            assert(alike_row(a[j], b[j]));
        }
        lemma_alike_worst(a.drop_last(), b.drop_last(), headline);
    }
}

/// A run's instructions ratio tables.
pub open spec fn lane_tables(ratios: Option<Vec<InstrWorkloadRatios>>) -> Seq<
    InstrWorkloadRatios,
> {
    match ratios {
        Some(t) => t@,
        None => Seq::empty(),
    }
}

/// A run's collected rows.
pub open spec fn lane_input(instr: Option<CollectOutcome>) -> Seq<InstrRow> {
    match pipeline::collected(instr) {
        Some(c) => c.rows@,
        None => Seq::empty(),
    }
}

proof fn lemma_lane_input(
    ratios: Option<Vec<InstrWorkloadRatios>>,
    instr: Option<CollectOutcome>,
    baseline: Seq<char>,
)
    requires
        pipeline::are_instr_ratios(ratios, instr, baseline),
    ensures
        instructions::row_views(lane_input(instr)) == lane_views(instr),
        lane_input(instr).len() <= usize::MAX,
        instructions::is_instr_ratio_table(lane_tables(ratios), lane_input(instr), baseline),
{
    match pipeline::collected(instr) {
        Some(c) => {
            assert(c.rows.len() == c.rows@.len());
        },
        None => {
            assert(instructions::row_views(lane_input(instr)) =~= lane_views(instr));
        },
    }
}

proof fn lemma_alike_sides(
    first: RunPlan,
    instr: Option<CollectOutcome>,
    second: RunPlan,
    carried: Option<CollectOutcome>,
    baseline: Seq<char>,
    group: Seq<char>,
    workload: Seq<char>,
    subjects: Seq<Seq<char>>,
    headline: Seq<Seq<char>>,
)
    requires
        pipeline::are_instr_ratios(first.instr_ratios, instr, baseline),
        pipeline::are_instr_ratios(second.instr_ratios, carried, baseline),
        are_triples(lane_views(instr)),
        are_triples(lane_views(carried)),
        agree(lane_views(instr), lane_views(carried), group, workload),
    ensures
        compare::instr_side(
            compare::instr_tables(first.instr_ratios),
            group,
            workload,
            subjects,
            headline,
        ) == compare::instr_side(
            compare::instr_tables(second.instr_ratios),
            group,
            workload,
            subjects,
            headline,
        ),
{
    let (x, y) = (lane_tables(first.instr_ratios), lane_tables(second.instr_ratios));
    let (a, b) = (lane_input(instr), lane_input(carried));
    let (va, vb) = (lane_views(instr), lane_views(carried));
    lemma_lane_input(first.instr_ratios, instr, baseline);
    lemma_lane_input(second.instr_ratios, carried, baseline);
    lemma_item(x, a, baseline, group, workload);
    lemma_item(y, b, baseline, group, workload);
    let (p, q) = (
        compare::instr_item(x, group, workload),
        compare::instr_item(y, group, workload),
    );
    if p is Some {
        let s = choose|s: Seq<char>| #[trigger] count_at(va, group, s, workload) is Some;
        assert(count_at(va, group, s, workload) == count_at(vb, group, s, workload));
    }
    if q is Some {
        let s = choose|s: Seq<char>| #[trigger] count_at(vb, group, s, workload) is Some;
        assert(count_at(va, group, s, workload) == count_at(vb, group, s, workload));
    }
    if p is Some && q is Some {
        lemma_alike_rows(a, b, group, workload, baseline);
        assert forall|s: Seq<char>| compare::count_cell(p->0, s) == #[trigger] compare::count_cell(
            q->0,
            s,
        ) by {
            lemma_alike_cells(p->0, q->0, s);
        }
        assert(compare::count_columns(p->0, subjects) =~= compare::count_columns(
            q->0,
            subjects,
        ));
        lemma_alike_worst(p->0, q->0, headline);
    }
}

/// Is every count of a run's walltime workloads in its record?
pub open spec fn counts_kept(plan: RunPlan, instr: Option<CollectOutcome>) -> bool {
    forall|i: int, k: int|
        0 <= i < plan.ratios@.len() && 0 <= k < lane_views(instr).len() && (
        #[trigger] plan.ratios@[i]).group@ == (#[trigger] lane_views(instr)[k]).group
            && plan.ratios@[i].workload@ == lane_views(instr)[k].workload ==> storage::has_row(
            plan.record.rows(),
            lane_views(instr)[k].group,
            storage::row_name_spec(lane_views(instr)[k].subject, lane_views(instr)[k].workload),
        )
}

/// What a record carries forward has the counts of a walltime workload.
proof fn lemma_kept(
    plan: RunPlan,
    repo: RepoConfig,
    settings: Settings,
    store: RepoStore,
    rows: Seq<Row>,
    meta: CommitMeta,
    failed: Seq<String>,
    instr: Option<CollectOutcome>,
    before: State,
    i: int,
)
    requires
        pipeline::is_run_plan(plan, repo, settings, store, rows, meta, failed, instr, before),
        are_triples(lane_views(instr)),
        counts_kept(plan, instr),
        0 <= i < plan.ratios@.len(),
    ensures
        ({
            let groups = plan.record.groups;
            let stored = storage::stored_counts(groups, groups.keys().len());
            let wl = plan.ratios@[i];
            are_triples(stored) && agree(lane_views(instr), stored, wl.group@, wl.workload@)
        }),
{
    let baseline = repo.baseline_subject@;
    let walltime = storage::with_ratios(Map::empty(), plan.ratios@);
    let views = lane_views(instr);
    let groups = plan.record.groups;
    let stored = storage::stored_counts(groups, groups.keys().len());
    let kept = plan.record.rows();
    let (g, w) = (plan.ratios@[i].group@, plan.ratios@[i].workload@);
    lemma_run_rows(plan, repo, settings, store, rows, meta, failed, instr, before);
    lemma_counts_named(groups, walltime, views, baseline);
    assert forall|x: int| 0 <= x < groups.keys().len() implies (#[trigger] groups.nth(x)).wf()
        && counts_named(groups.nth(x)) by {
        groups.lemma_nth(x);
    }
    lemma_stored_triples(groups, groups.keys().len());
    assert forall|s: Seq<char>| #[trigger] count_at(views, g, s, w) == count_at(
        stored,
        g,
        s,
        w,
    ) by {
        if s.contains('/') {
            if count_at(views, g, s, w) is Some {
                let k = lemma_count_from(views, g, s, w);
                assert(!views[k].subject.contains('/'));
            }
            if count_at(stored, g, s, w) is Some {
                let k = lemma_count_from(stored, g, s, w);
                assert(!stored[k].subject.contains('/'));
            }
        } else {
            let name = storage::row_name_spec(s, w);
            lemma_stored_at(groups, g, s, w);
            storage::law_row_names_split_back(s, w);
            if count_at(views, g, s, w) is Some {
                let k = lemma_count_from(views, g, s, w);
                assert(plan.ratios@[i].group@ == views[k].group);
                assert(storage::has_row(kept, g, name));
            }
            if storage::has_row(kept, g, name) {
                assert(storage::has_row(walltime, g, name));
                assert(kept[g][name].instr == attached(views, baseline, g, name));
            }
        }
    }
}

/// Two comparison tables that say the same.
pub open spec fn same_table(a: CompareTable, b: CompareTable) -> bool {
    &&& text::views(a.subjects@) == text::views(b.subjects@)
    &&& a.headline_label@ == b.headline_label@
    &&& a.baseline_subject@ == b.baseline_subject@
    &&& a.rows@.len() == b.rows@.len()
    &&& forall|i: int|
        0 <= i < a.rows@.len() ==> same_table_row(#[trigger] a.rows@[i], #[trigger] b.rows@[i])
}

pub open spec fn same_table_row(a: CompareTableRow, b: CompareTableRow) -> bool {
    &&& a.item@ == b.item@
    &&& a.p95_us@ == b.p95_us@
    &&& a.headline_ratio == b.headline_ratio
    &&& match (a.instr, b.instr) {
        (Some(x), Some(y)) => x@ == y@,
        (None, None) => true,
        _ => false,
    }
    &&& a.instr_headline_ratio == b.instr_headline_ratio
}

proof fn lemma_same_workloads(
    a: Seq<WorkloadRatios>,
    b: Seq<WorkloadRatios>,
    rows: Seq<Row>,
    baseline: Seq<char>,
)
    requires
        criterion_results::is_ratio_table(a, rows, baseline),
        criterion_results::is_ratio_table(b, rows, baseline),
    ensures
        a.len() == b.len(),
        forall|i: int|
            0 <= i < a.len() ==> (#[trigger] a[i]).group@ == (#[trigger] b[i]).group@
                && a[i].workload@ == b[i].workload@ && a[i].rows@ == b[i].rows@,
{
    keyed::lemma_same_keys(a, b);
    assert forall|i: int| 0 <= i < a.len() implies (#[trigger] a[i]).group@ == (
    #[trigger] b[i]).group@ && a[i].workload@ == b[i].workload@ && a[i].rows@ == b[i].rows@ by {
        assert(a[i].key() == b[i].key());
        assert(a[i].key()[0] == a[i].group@ && b[i].key()[0] == b[i].group@);
        assert(a[i].key()[1] == a[i].workload@ && b[i].key()[1] == b[i].workload@);
    }
}

/// A run that is rendered again from the criterion tree of its first time, with
/// the instructions data that its record carries forward, gets the comparison
/// table that it had. Every count of the first run that belongs to an item of
/// the table is in its record.
pub proof fn law_a_regenerated_table_is_the_same(
    first: RunPlan,
    second: RunPlan,
    repo: RepoConfig,
    settings: Settings,
    store: RepoStore,
    rows: Seq<Row>,
    meta: CommitMeta,
    failed: Seq<String>,
    instr: Option<CollectOutcome>,
    carried_failed: Seq<String>,
    carried: Option<CollectOutcome>,
    before: State,
    later: State,
)
    requires
        pipeline::is_run_plan(first, repo, settings, store, rows, meta, failed, instr, before),
        pipeline::is_carried(first.record, carried_failed, carried),
        pipeline::is_run_plan(
            second,
            repo,
            settings,
            store,
            rows,
            meta,
            carried_failed,
            carried,
            later,
        ),
        are_triples(lane_views(instr)),
        counts_kept(first, instr),
    ensures
        match (first.table, second.table) {
            (Some(a), Some(b)) => same_table(a, b),
            (None, None) => true,
            _ => false,
        },
{
    let baseline = repo.baseline_subject@;
    let headline = text::views(repo.headline_subjects@);
    let groups = first.record.groups;
    let stored = storage::stored_counts(groups, groups.keys().len());
    lemma_same_workloads(first.ratios@, second.ratios@, rows, baseline);
    assert(lane_views(carried) =~= stored);
    if first.table is Some && second.table is Some {
        let (a, b) = (first.table->0, second.table->0);
        let subjects = text::views(a.subjects@);
        assert forall|s: Seq<char>| subjects.contains(s) <==> text::views(b.subjects@).contains(
            s,
        ) by {
            assert(subjects.contains(s) <==> compare::is_subject(rows, s));
        }
        compare::law_subjects_determine_the_columns(
            subjects,
            text::views(b.subjects@),
            repo.order_spec(),
        );
        assert forall|i: int| 0 <= i < a.rows@.len() implies same_table_row(
            #[trigger] a.rows@[i],
            #[trigger] b.rows@[i],
        ) by {
            let wl = first.ratios@[i];
            lemma_kept(first, repo, settings, store, rows, meta, failed, instr, before, i);
            lemma_alike_sides(
                first,
                instr,
                second,
                carried,
                baseline,
                wl.group@,
                wl.workload@,
                subjects,
                headline,
            );
            assert(second.ratios@[i].group@ == wl.group@);
        }
    }
}

} // verus!
