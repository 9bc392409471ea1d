//! What a stored record holds of a run, and which records are read back.
use crate::criterion_results;
use crate::criterion_results::{RatioRow, WorkloadRatios};
use crate::dates;
use crate::instructions;
use crate::instructions::{InstrCollection, InstrRatioRow, InstrRowView, InstrWorkloadRatios};
use crate::laws::texts;
use crate::paths;
use crate::sorting;
use crate::sorting::Ranked;
use crate::storage;
use crate::storage::{CommitRecord, FlameEntry, InstrRecord, RepoStore, RowRecord, StoredRecord};
use crate::strmap::StrMap;
use crate::text;
use vstd::prelude::*;

verus! {

/// The rows of every group, by name.
pub type Groups = Map<Seq<char>, Map<Seq<char>, RowRecord>>;

/// `subject/workload`, or the subject alone where there is no workload.
pub open spec fn named_as(name: Seq<char>, subject: Seq<char>, workload: Seq<char>) -> bool {
    if workload.len() > 0 {
        name == subject + "/"@ + workload
    } else {
        name == subject
    }
}

/// Is there a row of that name in the group?
pub open spec fn there(groups: Groups, group: Seq<char>, name: Seq<char>) -> bool {
    groups.dom().contains(group) && groups[group].dom().contains(name)
}

// ---------------------------------------------------------------------------
// Walltime rows
// ---------------------------------------------------------------------------

/// Does the stored row hold the numbers of this ratio row?
pub open spec fn stores(
    record: RowRecord,
    name: Seq<char>,
    row: RatioRow,
    workload: Seq<char>,
) -> bool {
    &&& named_as(name, row.subject@, workload)
    &&& record.ns == row.mean_ns
    &&& record.ratio_vs_baseline == row.ratio_vs_baseline
    &&& record.instr is None
}

spec fn stores_some(
    record: RowRecord,
    name: Seq<char>,
    rows: Seq<RatioRow>,
    workload: Seq<char>,
) -> bool {
    exists|j: int| 0 <= j < rows.len() && stores(record, name, #[trigger] rows[j], workload)
}

proof fn lemma_with_rows(
    rows: Map<Seq<char>, RowRecord>,
    ratios: Seq<RatioRow>,
    workload: Seq<char>,
    name: Seq<char>,
)
    ensures
        ({
            let after = storage::with_rows(rows, ratios, workload);
            &&& after.dom().contains(name) ==> (rows.dom().contains(name) && after[name]
                == rows[name]) || stores_some(after[name], name, ratios, workload)
            &&& rows.dom().contains(name) ==> after.dom().contains(name)
            &&& forall|j: int|
                0 <= j < ratios.len() && named_as(name, (#[trigger] ratios[j]).subject@, workload)
                    ==> after.dom().contains(name) && stores_some(
                    after[name],
                    name,
                    ratios,
                    workload,
                )
        }),
    decreases ratios.len(),
{
    if ratios.len() > 0 {
        let front = ratios.drop_last();
        let n = ratios.len() - 1;
        lemma_with_rows(rows, front, workload, name);
        let before = storage::with_rows(rows, front, workload);
        let after = storage::with_rows(rows, ratios, workload);
        let last = storage::row_name_spec(ratios[n].subject@, workload);
        if name == last {
            assert(stores(after[name], name, ratios[n], workload));
        } else if before.dom().contains(name) && stores_some(
            before[name],
            name,
            front,
            workload,
        ) {
            let j = choose|j: int|
                0 <= j < front.len() && stores(before[name], name, #[trigger] front[j], workload);
            assert(ratios[j] == front[j]);
        }
        assert forall|j: int|
            0 <= j < ratios.len() && named_as(
                name,
                (#[trigger] ratios[j]).subject@,
                workload,
            ) implies after.dom().contains(name) && stores_some(
            after[name],
            name,
            ratios,
            workload,
        ) by {
            if j < n {
                assert(front[j] == ratios[j]);
            }
        }
    }
}

spec fn stored_from(
    record: RowRecord,
    group: Seq<char>,
    name: Seq<char>,
    ratios: Seq<WorkloadRatios>,
) -> bool {
    exists|w: int|
        0 <= w < ratios.len() && (#[trigger] ratios[w]).group@ == group && stores_some(
            record,
            name,
            ratios[w].rows@,
            ratios[w].workload@,
        )
}

proof fn lemma_with_ratios(ratios: Seq<WorkloadRatios>, group: Seq<char>, name: Seq<char>)
    ensures
        ({
            let after = storage::with_ratios(Map::empty(), ratios);
            &&& there(after, group, name) ==> stored_from(
                after[group][name],
                group,
                name,
                ratios,
            )
            &&& forall|w: int, j: int|
                0 <= w < ratios.len() && ratios[w].group@ == group && 0 <= j
                    < ratios[w].rows@.len() && named_as(
                    name,
                    (#[trigger] ratios[w].rows@[j]).subject@,
                    ratios[w].workload@,
                ) ==> there(after, group, name)
        }),
    decreases ratios.len(),
{
    let after = storage::with_ratios(Map::empty(), ratios);
    if ratios.len() > 0 {
        let front = ratios.drop_last();
        let n = ratios.len() - 1;
        lemma_with_ratios(front, group, name);
        let before = storage::with_ratios(Map::empty(), front);
        let wl = ratios[n];
        lemma_with_rows(
            storage::group_rows(before, wl.group@),
            wl.rows@,
            wl.workload@,
            name,
        );
        if there(after, group, name) {
            if there(before, group, name) && after[group][name] == before[group][name] {
                let w = choose|w: int|
                    0 <= w < front.len() && (#[trigger] front[w]).group@ == group && stores_some(
                        before[group][name],
                        name,
                        front[w].rows@,
                        front[w].workload@,
                    );
                assert(ratios[w] == front[w]);
            } else {
                assert(wl.group@ == group);
                assert(ratios[n].group@ == group);
            }
        }
        assert forall|w: int, j: int|
            0 <= w < ratios.len() && ratios[w].group@ == group && 0 <= j < ratios[w].rows@.len()
                && named_as(
                name,
                (#[trigger] ratios[w].rows@[j]).subject@,
                ratios[w].workload@,
            ) implies there(after, group, name) by {
            if w < n {
                assert(front[w] == ratios[w]);
                assert(front[w].rows@[j] == ratios[w].rows@[j]);
                assert(there(before, group, name));
            } else {
                assert(wl.rows@[j] == ratios[w].rows@[j]);
            }
        }
    }
}

/// A record's walltime rows are those of the ratio tables: each group's rows,
/// by subject and workload, with their mean and their ratio.
pub proof fn law_records_hold_the_ratio_tables(
    ratios: Seq<WorkloadRatios>,
    group: Seq<char>,
    name: Seq<char>,
)
    ensures
        ({
            let after = storage::with_ratios(Map::empty(), ratios);
            &&& there(after, group, name) <==> exists|w: int, j: int|
                0 <= w < ratios.len() && ratios[w].group@ == group && 0 <= j
                    < ratios[w].rows@.len() && named_as(
                    name,
                    (#[trigger] ratios[w].rows@[j]).subject@,
                    ratios[w].workload@,
                )
            &&& there(after, group, name) ==> exists|w: int, j: int|
                0 <= w < ratios.len() && ratios[w].group@ == group && 0 <= j
                    < ratios[w].rows@.len() && stores(
                    after[group][name],
                    name,
                    #[trigger] ratios[w].rows@[j],
                    ratios[w].workload@,
                )
        }),
{
    lemma_with_ratios(ratios, group, name);
    let after = storage::with_ratios(Map::empty(), ratios);
    if there(after, group, name) {
        let w = choose|w: int|
            0 <= w < ratios.len() && (#[trigger] ratios[w]).group@ == group && stores_some(
                after[group][name],
                name,
                ratios[w].rows@,
                ratios[w].workload@,
            );
        let rows = ratios[w].rows@;
        let j = choose|j: int|
            0 <= j < rows.len() && stores(
                after[group][name],
                name,
                #[trigger] rows[j],
                ratios[w].workload@,
            );
        assert(stores(after[group][name], name, ratios[w].rows@[j], ratios[w].workload@));
    }
}

// ---------------------------------------------------------------------------
// Counts
// ---------------------------------------------------------------------------

/// Does the stored count hold the numbers of this row?
pub open spec fn counts(
    record: Option<InstrRecord>,
    name: Seq<char>,
    row: InstrRatioRow,
    workload: Seq<char>,
) -> bool {
    &&& named_as(name, row.subject@, workload)
    &&& record == Some(InstrRecord { count: row.count, ratio_vs_baseline: row.ratio_vs_baseline })
}

spec fn counts_some(
    record: Option<InstrRecord>,
    name: Seq<char>,
    rows: Seq<InstrRatioRow>,
    workload: Seq<char>,
) -> bool {
    exists|j: int| 0 <= j < rows.len() && counts(record, name, #[trigger] rows[j], workload)
}

proof fn lemma_with_counts(
    groups: Groups,
    in_group: Seq<char>,
    workload: Seq<char>,
    rows: Seq<InstrRatioRow>,
    group: Seq<char>,
    name: Seq<char>,
)
    requires
        there(groups, group, name),
    ensures
        ({
            let after = storage::with_counts(groups, in_group, workload, rows);
            &&& there(after, group, name)
            &&& after[group][name].instr == groups[group][name].instr || (in_group == group
                && counts_some(after[group][name].instr, name, rows, workload))
            &&& forall|j: int|
                0 <= j < rows.len() && in_group == group && named_as(
                    name,
                    (#[trigger] rows[j]).subject@,
                    workload,
                ) ==> counts_some(after[group][name].instr, name, rows, workload)
        }),
    decreases rows.len(),
{
    if rows.len() > 0 {
        let front = rows.drop_last();
        let n = rows.len() - 1;
        lemma_with_counts(groups, in_group, workload, front, group, name);
        let before = storage::with_counts(groups, in_group, workload, front);
        let after = storage::with_counts(groups, in_group, workload, rows);
        let last = storage::row_name_spec(rows[n].subject@, workload);
        if in_group == group && last == name {
            assert(counts(after[group][name].instr, name, rows[n], workload));
        } else if in_group == group && counts_some(
            before[group][name].instr,
            name,
            front,
            workload,
        ) {
            let j = choose|j: int|
                0 <= j < front.len() && counts(
                    before[group][name].instr,
                    name,
                    #[trigger] front[j],
                    workload,
                );
            assert(rows[j] == front[j]);
        }
        assert forall|j: int|
            0 <= j < rows.len() && in_group == group && named_as(
                name,
                (#[trigger] rows[j]).subject@,
                workload,
            ) implies counts_some(after[group][name].instr, name, rows, workload) by {
            if j < n {
                assert(front[j] == rows[j]);
            }
        }
    }
}

spec fn counted_from(
    record: Option<InstrRecord>,
    group: Seq<char>,
    name: Seq<char>,
    ratios: Seq<InstrWorkloadRatios>,
) -> bool {
    exists|w: int|
        0 <= w < ratios.len() && (#[trigger] ratios[w]).group@ == group && counts_some(
            record,
            name,
            ratios[w].rows@,
            ratios[w].workload@,
        )
}

proof fn lemma_with_instr_ratios(
    groups: Groups,
    ratios: Seq<InstrWorkloadRatios>,
    group: Seq<char>,
    name: Seq<char>,
)
    requires
        there(groups, group, name),
    ensures
        ({
            let after = storage::with_instr_ratios(groups, ratios);
            &&& there(after, group, name)
            &&& after[group][name].instr == groups[group][name].instr || counted_from(
                after[group][name].instr,
                group,
                name,
                ratios,
            )
            &&& forall|w: int, j: int|
                0 <= w < ratios.len() && ratios[w].group@ == group && 0 <= j
                    < ratios[w].rows@.len() && named_as(
                    name,
                    (#[trigger] ratios[w].rows@[j]).subject@,
                    ratios[w].workload@,
                ) ==> counted_from(after[group][name].instr, group, name, ratios)
        }),
    decreases ratios.len(),
{
    if ratios.len() > 0 {
        let front = ratios.drop_last();
        let n = ratios.len() - 1;
        lemma_with_instr_ratios(groups, front, group, name);
        let before = storage::with_instr_ratios(groups, front);
        let after = storage::with_instr_ratios(groups, ratios);
        let wl = ratios[n];
        lemma_with_counts(before, wl.group@, wl.workload@, wl.rows@, group, name);
        if after[group][name].instr == before[group][name].instr && counted_from(
            before[group][name].instr,
            group,
            name,
            front,
        ) {
            let w = choose|w: int|
                0 <= w < front.len() && (#[trigger] front[w]).group@ == group && counts_some(
                    before[group][name].instr,
                    name,
                    front[w].rows@,
                    front[w].workload@,
                );
            assert(ratios[w] == front[w]);
            assert(counted_from(after[group][name].instr, group, name, ratios));
        } else if wl.group@ == group && counts_some(
            after[group][name].instr,
            name,
            wl.rows@,
            wl.workload@,
        ) {
            assert(ratios[n].group@ == group);
            assert(counted_from(after[group][name].instr, group, name, ratios));
        }
        assert forall|w: int, j: int|
            0 <= w < ratios.len() && ratios[w].group@ == group && 0 <= j < ratios[w].rows@.len()
                && named_as(
                name,
                (#[trigger] ratios[w].rows@[j]).subject@,
                ratios[w].workload@,
            ) implies counted_from(after[group][name].instr, group, name, ratios) by {
            if w < n {
                assert(front[w] == ratios[w]);
                assert(front[w].rows@[j] == ratios[w].rows@[j]);
                assert(counted_from(before[group][name].instr, group, name, front));
            } else {
                assert(wl.rows@[j] == ratios[w].rows@[j]);
            }
        }
    }
}

/// A stored row that the instructions lane counted holds that count and its
/// ratio; one that it did not count is left as it was.
pub proof fn law_counted_rows_hold_their_count(
    groups: Groups,
    ratios: Seq<InstrWorkloadRatios>,
    group: Seq<char>,
    name: Seq<char>,
)
    requires
        there(groups, group, name),
    ensures
        ({
            let after = storage::with_instr_ratios(groups, ratios);
            let counted = exists|w: int, j: int|
                0 <= w < ratios.len() && ratios[w].group@ == group && 0 <= j
                    < ratios[w].rows@.len() && named_as(
                    name,
                    (#[trigger] ratios[w].rows@[j]).subject@,
                    ratios[w].workload@,
                );
            &&& there(after, group, name)
            &&& !counted ==> after[group][name].instr == groups[group][name].instr
            &&& counted ==> exists|w: int, j: int|
                0 <= w < ratios.len() && ratios[w].group@ == group && 0 <= j
                    < ratios[w].rows@.len() && counts(
                    after[group][name].instr,
                    name,
                    #[trigger] ratios[w].rows@[j],
                    ratios[w].workload@,
                )
        }),
{
    lemma_with_instr_ratios(groups, ratios, group, name);
    let after = storage::with_instr_ratios(groups, ratios);
    if counted_from(after[group][name].instr, group, name, ratios) {
        let w = choose|w: int|
            0 <= w < ratios.len() && (#[trigger] ratios[w]).group@ == group && counts_some(
                after[group][name].instr,
                name,
                ratios[w].rows@,
                ratios[w].workload@,
            );
        let rows = ratios[w].rows@;
        let j = choose|j: int|
            0 <= j < rows.len() && counts(
                after[group][name].instr,
                name,
                #[trigger] rows[j],
                ratios[w].workload@,
            );
        assert(counts(after[group][name].instr, name, ratios[w].rows@[j], ratios[w].workload@));
        assert(named_as(name, ratios[w].rows@[j].subject@, ratios[w].workload@));
    }
}

/// Does this row of the count tables have that key, and no stored row to attach
/// to?
pub open spec fn strays(
    groups: Groups,
    wl: InstrWorkloadRatios,
    j: int,
    key: Seq<char>,
) -> bool {
    exists|name: Seq<char>| #[trigger]
        named_as(name, wl.rows@[j].subject@, wl.workload@) && !there(groups, wl.group@, name)
            && key == wl.group@ + "/"@ + name
}

proof fn lemma_homeless(
    groups: Groups,
    group: Seq<char>,
    workload: Seq<char>,
    rows: Seq<InstrRatioRow>,
    key: Seq<char>,
)
    ensures
        storage::homeless(groups, group, workload, rows).contains(key) <==> exists|j: int|
            0 <= j < rows.len() && !there(
                groups,
                group,
                storage::row_name_spec((#[trigger] rows[j]).subject@, workload),
            ) && key == group + "/"@ + storage::row_name_spec(rows[j].subject@, workload),
    decreases rows.len(),
{
    let all = storage::homeless(groups, group, workload, rows);
    if rows.len() > 0 {
        let front = rows.drop_last();
        let n = rows.len() - 1;
        lemma_homeless(groups, group, workload, front, key);
        let before = storage::homeless(groups, group, workload, front);
        if all.contains(key) {
            let i = all.index_of(key);
            if i < before.len() {
                assert(before[i] == key);
                assert(before.contains(key));
                let j = choose|j: int|
                    0 <= j < front.len() && !there(
                        groups,
                        group,
                        storage::row_name_spec((#[trigger] front[j]).subject@, workload),
                    ) && key == group + "/"@ + storage::row_name_spec(front[j].subject@, workload);
                assert(rows[j] == front[j]);
            } else {
                assert(rows[n] == rows.last());
            }
        }
        if exists|j: int|
            0 <= j < rows.len() && !there(
                groups,
                group,
                storage::row_name_spec((#[trigger] rows[j]).subject@, workload),
            ) && key == group + "/"@ + storage::row_name_spec(rows[j].subject@, workload) {
            let j = choose|j: int|
                0 <= j < rows.len() && !there(
                    groups,
                    group,
                    storage::row_name_spec((#[trigger] rows[j]).subject@, workload),
                ) && key == group + "/"@ + storage::row_name_spec(rows[j].subject@, workload);
            if j < n {
                assert(front[j] == rows[j]);
                assert(before.contains(key));
                let i = before.index_of(key);
                assert(all[i] == before[i]);
            } else {
                assert(all[all.len() - 1] == key);
            }
        }
    } else {
        assert(!all.contains(key));
    }
}

/// The counts that found no row are reported by key: those and no others.
pub proof fn law_counts_without_a_row_are_reported(
    groups: Groups,
    ratios: Seq<InstrWorkloadRatios>,
    key: Seq<char>,
)
    ensures
        storage::all_homeless(groups, ratios).contains(key) <==> exists|w: int, j: int|
            0 <= w < ratios.len() && 0 <= j < ratios[w].rows@.len() && #[trigger] strays(
                groups,
                ratios[w],
                j,
                key,
            ),
    decreases ratios.len(),
{
    let all = storage::all_homeless(groups, ratios);
    if ratios.len() > 0 {
        let front = ratios.drop_last();
        let n = ratios.len() - 1;
        law_counts_without_a_row_are_reported(groups, front, key);
        let before = storage::all_homeless(groups, front);
        let wl = ratios[n];
        let here = storage::homeless(groups, wl.group@, wl.workload@, wl.rows@);
        lemma_homeless(groups, wl.group@, wl.workload@, wl.rows@, key);
        assert(all == before + here);
        if all.contains(key) {
            let i = all.index_of(key);
            if i < before.len() {
                assert(before[i] == key);
                assert(before.contains(key));
                let (w, j) = choose|w: int, j: int|
                    0 <= w < front.len() && 0 <= j < front[w].rows@.len() && #[trigger] strays(
                        groups,
                        front[w],
                        j,
                        key,
                    );
                assert(strays(groups, ratios[w], j, key));
            } else {
                assert(here[i - before.len()] == key);
                assert(here.contains(key));
                let rows = wl.rows@;
                let j = choose|j: int|
                    0 <= j < rows.len() && !there(
                        groups,
                        wl.group@,
                        storage::row_name_spec((#[trigger] rows[j]).subject@, wl.workload@),
                    ) && key == wl.group@ + "/"@ + storage::row_name_spec(
                        rows[j].subject@,
                        wl.workload@,
                    );
                let name = storage::row_name_spec(rows[j].subject@, wl.workload@);
                assert(named_as(name, wl.rows@[j].subject@, wl.workload@));
                assert(strays(groups, ratios[n], j, key));
            }
        }
        if exists|w: int, j: int|
            0 <= w < ratios.len() && 0 <= j < ratios[w].rows@.len() && #[trigger] strays(
                groups,
                ratios[w],
                j,
                key,
            ) {
            let (w, j) = choose|w: int, j: int|
                0 <= w < ratios.len() && 0 <= j < ratios[w].rows@.len() && #[trigger] strays(
                    groups,
                    ratios[w],
                    j,
                    key,
                );
            if w < n {
                assert(strays(groups, front[w], j, key));
                assert(before.contains(key));
                let i = before.index_of(key);
                assert(all[i] == key);
            } else {
                assert(wl.rows@[j] == ratios[w].rows@[j]);
                assert(here.contains(key));
                let i = here.index_of(key);
                assert(all[before.len() + i] == key);
            }
        }
    } else {
        assert(!all.contains(key));
    }
}

// ---------------------------------------------------------------------------
// Carried counts
// ---------------------------------------------------------------------------

/// Does the stored row carry this count?
pub open spec fn carries(
    groups: StrMap<StrMap<RowRecord>>,
    g: int,
    i: int,
    row: InstrRowView,
) -> bool {
    &&& 0 <= g < groups.keys().len()
    &&& 0 <= i < groups.nth(g).keys().len()
    &&& groups.nth(g).nth(i).instr is Some
    &&& row.count == groups.nth(g).nth(i).instr->0.count
    &&& row.group == groups.keys()[g]
    &&& (row.subject, row.workload) == criterion_results::split_id(groups.nth(g).keys()[i])
}

spec fn group_carries(
    group: Seq<char>,
    rows: StrMap<RowRecord>,
    i: int,
    row: InstrRowView,
) -> bool {
    &&& 0 <= i < rows.keys().len()
    &&& rows.nth(i).instr is Some
    &&& row.count == rows.nth(i).instr->0.count
    &&& row.group == group
    &&& (row.subject, row.workload) == criterion_results::split_id(rows.keys()[i])
}

proof fn lemma_group_counts(group: Seq<char>, rows: StrMap<RowRecord>, n: nat, row: InstrRowView)
    requires
        n <= rows.keys().len(),
        storage::group_counts(group, rows, n).contains(row),
    ensures
        exists|i: int| #[trigger] group_carries(group, rows, i, row),
    decreases n,
{
    let all = storage::group_counts(group, rows, n);
    if n > 0 {
        let before = storage::group_counts(group, rows, (n - 1) as nat);
        let k = all.index_of(row);
        if k < before.len() {
            assert(before[k] == row);
            lemma_group_counts(group, rows, (n - 1) as nat, row);
        } else {
            assert(group_carries(group, rows, n - 1, row));
        }
    }
}

/// Every count carried forward is one that a stored row holds.
pub proof fn law_carried_counts_are_stored_ones(
    groups: StrMap<StrMap<RowRecord>>,
    n: nat,
    row: InstrRowView,
)
    requires
        n <= groups.keys().len(),
        storage::stored_counts(groups, n).contains(row),
    ensures
        exists|g: int, i: int| #[trigger] carries(groups, g, i, row),
    decreases n,
{
    let all = storage::stored_counts(groups, n);
    if n > 0 {
        let before = storage::stored_counts(groups, (n - 1) as nat);
        let rows = groups.nth(n - 1);
        let here = storage::group_counts(groups.keys()[n - 1], rows, rows.keys().len());
        let k = all.index_of(row);
        if k < before.len() {
            assert(before[k] == row);
            law_carried_counts_are_stored_ones(groups, (n - 1) as nat, row);
        } else {
            assert(here[k - before.len()] == row);
            lemma_group_counts(groups.keys()[n - 1], rows, rows.keys().len(), row);
            let i = choose|i: int| #[trigger] group_carries(groups.keys()[n - 1], rows, i, row);
            assert(carries(groups, n - 1, i, row));
        }
    }
}

/// A record has instructions data exactly where one of its rows has a count or
/// one of the lane's targets failed.
pub proof fn law_collections_are_there_for_a_reason(record: CommitRecord)
    requires
        record.is_collection(None),
    ensures
        forall|g: int, i: int|
            0 <= g < record.groups.keys().len() && 0 <= i < record.groups.nth(g).keys().len()
                ==> (#[trigger] record.groups.nth(g).nth(i)).instr is None,
        record.instr_failed_targets matches Some(failed) ==> failed@.len() == 0,
{
    let all = storage::stored_counts(record.groups, record.groups.keys().len());
    assert forall|g: int, i: int|
        0 <= g < record.groups.keys().len() && 0 <= i
            < record.groups.nth(g).keys().len() implies (
    #[trigger] record.groups.nth(g).nth(i)).instr is None by {
        if record.groups.nth(g).nth(i).instr is Some {
            storage::lemma_stored_counts_from(
                record.groups,
                record.groups.keys().len(),
                g,
                i,
            );
            assert(all.len() > 0);
        }
    }
}

/// A function id is its subject, with the workload behind a `/` where it has
/// one.
pub proof fn law_function_ids_are_subject_and_workload(id: Seq<char>)
    ensures
        ({
            let (subject, workload) = criterion_results::split_id(id);
            &&& !subject.contains('/')
            &&& if id.contains('/') {
                id == subject + "/"@ + workload
            } else {
                id == subject && workload.len() == 0
            }
        }),
{
    storage::law_subjects_hold_no_slash(id);
    reveal_strlit("/");
    let n = text::span(id, text::except('/'));
    text::lemma_span_props(id, text::except('/'));
    let (subject, workload) = criterion_results::split_id(id);
    if n < id.len() {
        assert(id[n as int] == '/');
        assert(id.contains('/'));
        assert(id =~= subject + "/"@ + workload);
    } else {
        assert(!id.contains('/')) by {
            if id.contains('/') {
                let i = id.index_of('/');
                assert(text::except('/')(id[i]));
            }
        }
        assert(id =~= subject);
    }
}

// ---------------------------------------------------------------------------
// Lists of records
// ---------------------------------------------------------------------------

/// Records in date order: those without a date in front, the others from the
/// earliest instant to the latest.
pub proof fn law_dated_records_run_by_instant(records: Seq<StoredRecord>, i: int, j: int)
    requires
        0 <= i < j < records.len(),
    ensures
        ({
            let (a, b) = (sorting::sorted(records)[i].instant, sorting::sorted(records)[j].instant);
            a is None || (b is Some && a->0 <= b->0)
        }),
        sorting::sorted(records).to_multiset() == records.to_multiset(),
{
    storage::law_records_run_oldest_to_newest(records, i, j);
}

/// The most recent records are the last ones of the list, in its order.
pub proof fn law_the_most_recent_are_the_last(records: Seq<StoredRecord>, n: nat, i: int)
    ensures
        ({
            let r = storage::tail(records, n);
            &&& r.len() == if n < records.len() {
                n
            } else {
                records.len()
            }
            &&& 0 <= i < r.len() ==> r[i] == records[records.len() - r.len() + i]
        }),
{
}

proof fn lemma_stale(entries: Seq<FlameEntry>, cutoff: Seq<char>, name: String)
    ensures
        storage::stale(entries, cutoff).contains(name) <==> exists|i: int|
            0 <= i < entries.len() && (#[trigger] entries[i]).is_dir && entries[i].name == name
                && text::lex_lt(name@, cutoff),
    decreases entries.len(),
{
    let all = storage::stale(entries, cutoff);
    if entries.len() > 0 {
        let front = entries.drop_last();
        let n = entries.len() - 1;
        lemma_stale(front, cutoff, name);
        let before = storage::stale(front, cutoff);
        if all.contains(name) {
            let k = all.index_of(name);
            if k < before.len() {
                assert(before[k] == name);
                assert(before.contains(name));
                let i = choose|i: int|
                    0 <= i < front.len() && (#[trigger] front[i]).is_dir && front[i].name == name
                        && text::lex_lt(name@, cutoff);
                assert(entries[i] == front[i]);
            } else {
                assert(entries[n].name == name);
            }
        }
        if exists|i: int|
            0 <= i < entries.len() && (#[trigger] entries[i]).is_dir && entries[i].name == name
                && text::lex_lt(name@, cutoff) {
            let i = choose|i: int|
                0 <= i < entries.len() && (#[trigger] entries[i]).is_dir && entries[i].name == name
                    && text::lex_lt(name@, cutoff);
            if i < n {
                assert(front[i] == entries[i]);
                assert(before.contains(name));
                let k = before.index_of(name);
                assert(all[k] == before[k]);
            } else {
                assert(all[all.len() - 1] == name);
            }
        }
    } else {
        assert(!all.contains(name));
    }
}

/// What retention drops: the directories whose day lies before the cutoff, and
/// nothing else.
pub proof fn law_retention_drops_the_days_before_the_cutoff(
    entries: Seq<FlameEntry>,
    cutoff: Seq<char>,
    name: String,
)
    ensures
        sorting::sorted(storage::stale(entries, cutoff)).contains(name) <==> exists|i: int|
            0 <= i < entries.len() && (#[trigger] entries[i]).is_dir && entries[i].name == name
                && text::lex_lt(name@, cutoff),
{
    lemma_stale(entries, cutoff, name);
    sorting::lemma_sorted_contains(storage::stale(entries, cutoff));
}

/// Texts compare by their first different character; a text comes before its
/// own continuations.
pub proof fn law_texts_compare_by_their_first_difference(a: Seq<char>, b: Seq<char>, k: int)
    requires
        0 <= k <= a.len(),
        k <= b.len(),
        forall|i: int| 0 <= i < k ==> #[trigger] a[i] == b[i],
    ensures
        k < a.len() && k < b.len() && a[k] != b[k] ==> (text::lex_lt(a, b) <==> (a[k] as int) < (
        b[k] as int)),
        k == a.len() ==> (text::lex_lt(a, b) <==> k < b.len()),
    decreases k,
{
    if k > 0 {
        let (x, y) = (a.drop_first(), b.drop_first());
        assert forall|i: int| 0 <= i < k - 1 implies #[trigger] x[i] == y[i] by {
            assert(x[i] == a[i + 1] && y[i] == b[i + 1]);
            assert(a[i + 1] == b[i + 1]);
        }
        law_texts_compare_by_their_first_difference(x, y, k - 1);
        assert(a[0] == b[0]);
    }
}

/// A date has a day exactly where it has an instant.
pub proof fn law_days_and_instants_come_together(date: Seq<char>)
    ensures
        dates::day_spec(date) is Ok <==> dates::instant_spec(date) is Some,
{
}

/// A commit's directory lies below the store's root, under `commits`; its name
/// starts with the commit's day and ends with its short sha.
pub proof fn law_commits_are_kept_under_their_day(
    store: RepoStore,
    record: CommitRecord,
    day: Seq<char>,
)
    requires
        dates::day_spec(record.date@) == Result::<Seq<char>, Seq<char>>::Ok(day),
        day.len() > 0,
        !day.contains('/'),
    ensures
        ({
            let short = storage::short_spec(record.commit@);
            let dir = store.commit_dir_spec(record);
            &&& dir is Ok
            &&& text::has_suffix(dir->Ok_0, "commits"@ + "/"@ + day + "-"@ + short)
            &&& text::has_prefix(dir->Ok_0, store.root_spec())
            &&& !short.contains('/') ==> paths::file_name_spec(dir->Ok_0) == Some(
                day + "-"@ + short,
            )
        }),
{
    reveal_strlit("-");
    reveal_strlit("/");
    reveal_strlit("commits");
    let short = storage::short_spec(record.commit@);
    let name = day + "-"@ + short;
    let root = store.root_spec();
    let base = store.under("commits"@);
    let dir = store.commit_dir_spec(record)->Ok_0;
    assert(name[0] == day[0] && day.contains(day[0]));
    assert(base.last() == 's');
    assert(dir == base + "/"@ + name);
    let end = "commits"@ + "/"@ + day + "-"@ + short;
    assert(dir.skip(dir.len() - end.len()) =~= end);
    assert(dir.take(root.len() as int) =~= root);
    if !short.contains('/') {
        if name.contains('/') {
            let k = name.index_of('/');
            if k < day.len() {
                assert(day[k] == '/');
            } else if k > day.len() {
                assert(short[k - day.len() - 1] == '/');
            }
        }
        assert(name[day.len() as int] == '-');
        texts::law_joined_names_are_final(base, name);
    }
}

/// What comes back of the instructions lane is what is stored: as many counts as
/// the rows have, in their order, and the failed targets.
pub proof fn law_collections_hold_what_is_stored(record: CommitRecord, c: InstrCollection, i: int)
    requires
        record.is_collection(Some(c)),
        0 <= i < c.rows@.len(),
    ensures
        ({
            let stored = storage::stored_counts(record.groups, record.groups.keys().len());
            &&& stored.len() == c.rows@.len()
            &&& stored[i].group == c.rows@[i].group@ && stored[i].subject == c.rows@[i].subject@
            &&& stored[i].workload == c.rows@[i].workload@ && stored[i].count == c.rows@[i].count
        }),
        record.instr_failed_targets matches Some(failed) ==> c.failed_targets@ == failed@,
        record.instr_failed_targets is None ==> c.failed_targets@.len() == 0,
{
    let views = instructions::row_views(c.rows@);
    assert(views.len() == c.rows@.len());
    assert(views[i] == c.rows@[i]@);
}

} // verus!
