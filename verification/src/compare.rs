//! The per-commit comparison table: one row per test item, one column per
//! implementation, last column = the headline family's worst time ratio
//! against the baseline subject.
use crate::config;
use crate::criterion_results;
use crate::criterion_results::{RatioRow, Row, WorkloadRatios};
use crate::double;
use crate::double::Double;
use crate::instructions::{InstrRatioRow, InstrWorkloadRatios};
use crate::sorting;
use crate::text;
use vstd::prelude::*;

verus! {

/// 0.95 as a double.
pub const P95: u64 = 0x3FEE_6666_6666_6666;

/// Position of the nearest-rank 95th percentile among `n` sorted samples.
pub open spec fn p95_index(n: nat) -> int {
    let scaled = Double::from_nat_spec(n).mul_spec(Double { bits: P95 });
    let rank = double::ceil_spec(scaled.units());
    if rank <= 0 {
        0
    } else if rank > n {
        n - 1
    } else {
        rank - 1
    }
}

pub open spec fn p95_spec(samples: Seq<Double>) -> Double {
    if samples.len() == 0 {
        Double::nan_spec()
    } else {
        sorting::sorted(samples)[p95_index(samples.len())]
    }
}

/// A count scaled by 0.95 is a finite, non-negative double.
proof fn lemma_p95_scaled(n: u64)
    ensures
        ({
            let scaled = Double::from_nat_spec(n as nat).mul_spec(Double { bits: P95 });
            scaled.finite() && !scaled.neg()
        }),
{
    double::lemma_u64_is_finite(n);
    double::lemma_scaled_down_is_finite(Double::from_nat_spec(n as nat), Double { bits: P95 });
}

/// p95 of a sample set (nearest-rank); NaN for an empty one.
pub fn p95(samples: &[Double]) -> (r: Double)
    ensures
        r == p95_spec(samples@),
{
    if samples.len() == 0 {
        return Double { bits: double::QUIET_NAN };
    }
    let mut copy: Vec<Double> = Vec::new();
    let mut i: usize = 0;
    while i < samples.len()
        invariant
            i <= samples@.len(),
            copy@ == samples@.take(i as int),
        decreases samples@.len() - i,
    {
        copy.push(samples[i]);
        assert(samples@.take(i + 1) =~= samples@.take(i as int).push(samples@[i as int]));
        i = i + 1;
    }
    proof {
        assert(samples@.take(samples@.len() as int) =~= samples@);
        sorting::lemma_sorted_multiset(samples@);
        lemma_p95_scaled(samples@.len() as u64);
    }
    let sorted: Vec<Double> = sorting::sort(copy);
    let n: usize = sorted.len();
    let rank: u64 = Double::from_u64(n as u64).times(Double { bits: P95 }).ceil_to_u64();
    let index: usize = if rank == 0 {
        0
    } else if rank > n as u64 {
        n - 1
    } else {
        (rank - 1) as usize
    };
    sorted[index]
}

/// The comparison table.
#[derive(Debug, Clone, PartialEq)]
pub struct CompareTable {
    /// Column order: configured `subject_order` first, then alphabetical.
    pub subjects: Vec<String>,
    pub rows: Vec<CompareTableRow>,
    /// Label of the ratio column, e.g. `rex5, rex5_*`.
    pub headline_label: String,
    /// The subject every ratio is against.
    pub baseline_subject: String,
}

#[derive(Debug, Clone, PartialEq)]
pub struct CompareTableRow {
    /// `group[/workload]`.
    pub item: String,
    /// p95 per-call µs per subject column (none = subject absent).
    pub p95_us: Vec<Option<Double>>,
    /// Worst (max) headline-family time ratio against the baseline.
    pub headline_ratio: Option<Double>,
    /// Instruction count per subject column. Absent when the instructions lane
    /// produced nothing for this item.
    pub instr: Option<Vec<Option<u64>>>,
    /// Worst (max) headline-family instruction-count ratio.
    pub instr_headline_ratio: Option<Double>,
}

// ---------------------------------------------------------------------------
// Column order
// ---------------------------------------------------------------------------

/// Where a subject stands: its place in the configured order, or behind all of
/// those, by name.
pub open spec fn rank_spec(subject: Seq<char>, order: Seq<Seq<char>>) -> (nat, Seq<char>) {
    let p = text::position(order, subject);
    if p < order.len() {
        (p, Seq::empty())
    } else {
        (order.len(), subject)
    }
}

pub open spec fn rank_lt(a: Seq<char>, b: Seq<char>, order: Seq<Seq<char>>) -> bool {
    let (i, x) = rank_spec(a, order);
    let (j, y) = rank_spec(b, order);
    i < j || (i == j && text::lex_lt(x, y))
}

pub fn subject_rank(subject: &str, order: &Vec<String>) -> (r: (usize, String))
    ensures
        (r.0 as nat, r.1@) == rank_spec(subject@, text::views(order@)),
{
    let p: usize = text::position_of(order, subject);
    if p < order.len() {
        (p, String::new())
    } else {
        (order.len(), subject.to_string())
    }
}

fn rank_before(a: &str, b: &str, order: &Vec<String>) -> (r: bool)
    ensures
        r == rank_lt(a@, b@, text::views(order@)),
{
    let (i, x) = subject_rank(a, order);
    let (j, y) = subject_rank(b, order);
    i < j || (i == j && text::less(x.as_str(), y.as_str()))
}

proof fn lemma_position_names(order: Seq<Seq<char>>, s: Seq<char>)
    ensures
        text::position(order, s) < order.len() ==> order[text::position(order, s) as int] == s,
    decreases order.len(),
{
    if order.len() > 0 && order[0] != s {
        lemma_position_names(order.drop_first(), s);
    }
}

proof fn lemma_rank_total(a: Seq<char>, b: Seq<char>, order: Seq<Seq<char>>)
    ensures
        a == b || rank_lt(a, b, order) || rank_lt(b, a, order),
{
    lemma_position_names(order, a);
    lemma_position_names(order, b);
    text::lemma_lex_total(rank_spec(a, order).1, rank_spec(b, order).1);
}

proof fn lemma_rank_transitive(a: Seq<char>, b: Seq<char>, c: Seq<char>, order: Seq<Seq<char>>)
    requires
        rank_lt(a, b, order),
        rank_lt(b, c, order),
    ensures
        rank_lt(a, c, order),
{
    let (i, x) = rank_spec(a, order);
    let (j, y) = rank_spec(b, order);
    let (k, z) = rank_spec(c, order);
    if i == j && j == k {
        text::lemma_lex_transitive(x, y, z);
    }
}

proof fn lemma_rank_irreflexive(a: Seq<char>, order: Seq<Seq<char>>)
    ensures
        !rank_lt(a, a, order),
{
    text::lemma_lex_irreflexive(rank_spec(a, order).1);
}

/// Strictly in column order, hence without duplicates.
pub open spec fn in_column_order(subjects: Seq<Seq<char>>, order: Seq<Seq<char>>) -> bool {
    forall|i: int, j: int|
        0 <= i < j < subjects.len() ==> rank_lt(#[trigger] subjects[i], #[trigger] subjects[j], order)
}

/// The subjects of a table determine its columns.
pub proof fn law_subjects_determine_the_columns(
    a: Seq<Seq<char>>,
    b: Seq<Seq<char>>,
    order: Seq<Seq<char>>,
)
    requires
        in_column_order(a, order),
        in_column_order(b, order),
        forall|s: Seq<char>| a.contains(s) <==> b.contains(s),
    ensures
        a == b,
    decreases a.len(),
{
    if a.len() == 0 {
        if b.len() > 0 {
            assert(b.contains(b[0]));
        }
        assert(a =~= b);
    } else {
        assert(a.contains(a[0]));
        assert(b.contains(b[0]));
        // Both start with the least subject.
        assert(a[0] == b[0]) by {
            let i = a.index_of(b[0]);
            let j = b.index_of(a[0]);
            assert(a[i] == b[0] && b[j] == a[0]);
            if i > 0 && j > 0 {
                assert(rank_lt(a[0], a[i], order));
                assert(rank_lt(b[0], b[j], order));
                lemma_rank_transitive(a[0], b[0], a[0], order);
                lemma_rank_irreflexive(a[0], order);
            }
        }
        let x = a.drop_first();
        let y = b.drop_first();
        assert forall|i: int, j: int| 0 <= i < j < x.len() implies rank_lt(
            #[trigger] x[i],
            #[trigger] x[j],
            order,
        ) by {
            assert(x[i] == a[i + 1] && x[j] == a[j + 1]);
        }
        assert forall|i: int, j: int| 0 <= i < j < y.len() implies rank_lt(
            #[trigger] y[i],
            #[trigger] y[j],
            order,
        ) by {
            assert(y[i] == b[i + 1] && y[j] == b[j + 1]);
        }
        assert forall|s: Seq<char>| x.contains(s) <==> y.contains(s) by {
            lemma_rank_irreflexive(s, order);
            if x.contains(s) {
                let i = x.index_of(s);
                assert(a[i + 1] == s);
                assert(a.contains(s));
                let j = b.index_of(s);
                assert(rank_lt(a[0], a[i + 1], order));
                assert(y[j - 1] == s);
            }
            if y.contains(s) {
                let i = y.index_of(s);
                assert(b[i + 1] == s);
                assert(b.contains(s));
                let j = a.index_of(s);
                assert(rank_lt(b[0], b[i + 1], order));
                assert(x[j - 1] == s);
            }
        }
        law_subjects_determine_the_columns(x, y, order);
        assert(a =~= seq![a[0]] + x);
        assert(b =~= seq![b[0]] + y);
    }
}

/// Does some row have this subject?
pub open spec fn is_subject(rows: Seq<Row>, subject: Seq<char>) -> bool {
    exists|i: int| 0 <= i < rows.len() && (#[trigger] rows[i]).subject@ == subject
}

/// Puts a subject into its column, where it is not there yet.
fn add_column(columns: &mut Vec<String>, subject: &String, order: &Vec<String>)
    requires
        in_column_order(text::views(old(columns)@), text::views(order@)),
    ensures
        in_column_order(text::views(final(columns)@), text::views(order@)),
        forall|s: Seq<char>| #[trigger]
            text::views(final(columns)@).contains(s) <==> text::views(old(columns)@).contains(s)
                || s == subject@,
{
    let ghost before = text::views(columns@);
    let ghost ord = text::views(order@);
    let mut p: usize = 0;
    while p < columns.len() && rank_before(columns[p].as_str(), subject.as_str(), order)
        invariant
            before == text::views(columns@),
            ord == text::views(order@),
            in_column_order(before, ord),
            p <= columns@.len(),
            forall|i: int| 0 <= i < p ==> rank_lt(#[trigger] before[i], subject@, ord),
        decreases columns@.len() - p,
    {
        assert(before[p as int] == columns@[p as int]@);
        p = p + 1;
    }
    if p < columns.len() && text::same(columns[p].as_str(), subject.as_str()) {
        proof {
            assert(before[p as int] == subject@);
        }
        return;
    }
    let ghost old_columns = columns@;
    columns.insert(p, subject.clone());
    proof {
        let after = text::views(columns@);
        assert(after =~= before.insert(p as int, subject@));
        if p < before.len() {
            assert(before[p as int] == old_columns[p as int]@);
            lemma_rank_total(before[p as int], subject@, ord);
        }
        assert forall|i: int| p <= i < before.len() implies rank_lt(
            subject@,
            #[trigger] before[i],
            ord,
        ) by {
            if i > p {
                lemma_rank_transitive(subject@, before[p as int], before[i], ord);
            }
        }
        assert forall|i: int, j: int| 0 <= i < j < after.len() implies rank_lt(
            #[trigger] after[i],
            #[trigger] after[j],
            ord,
        ) by {
            if i < p && j == p {
                assert(after[i] == before[i]);
            } else if i < p && j > p {
                assert(after[i] == before[i] && after[j] == before[j - 1]);
            } else if i == p {
                assert(after[j] == before[j - 1]);
            } else if i > p {
                assert(after[i] == before[i - 1] && after[j] == before[j - 1]);
            }
        }
        assert forall|s: Seq<char>| #[trigger]
            after.contains(s) <==> before.contains(s) || s == subject@ by {
            if before.contains(s) {
                let i = before.index_of(s);
                let j = if i < p { i } else { i + 1 };
                assert(after[j] == s);
            }
            if s == subject@ {
                assert(after[p as int] == s);
            }
            if after.contains(s) {
                let j = after.index_of(s);
                if j != p {
                    let i = if j < p { j } else { j - 1 };
                    assert(before[i] == s);
                }
            }
        }
    }
}

/// The columns of a table: the rows' subjects, in column order.
pub fn columns_of(rows: &[Row], order: &Vec<String>) -> (r: Vec<String>)
    ensures
        in_column_order(text::views(r@), text::views(order@)),
        forall|s: Seq<char>| #[trigger] text::views(r@).contains(s) <==> is_subject(rows@, s),
{
    let mut columns: Vec<String> = Vec::new();
    let mut i: usize = 0;
    while i < rows.len()
        invariant
            i <= rows@.len(),
            in_column_order(text::views(columns@), text::views(order@)),
            forall|s: Seq<char>| #[trigger]
                text::views(columns@).contains(s) <==> is_subject(rows@.take(i as int), s),
        decreases rows@.len() - i,
    {
        let ghost had = text::views(columns@);
        add_column(&mut columns, &rows[i].subject, order);
        proof {
            let now = rows@.take(i + 1);
            let then_rows = rows@.take(i as int);
            assert forall|s: Seq<char>| #[trigger]
                text::views(columns@).contains(s) <==> is_subject(now, s) by {
                assert(had.contains(s) <==> is_subject(then_rows, s));
                if is_subject(then_rows, s) {
                    let j = choose|j: int|
                        0 <= j < then_rows.len() && (#[trigger] then_rows[j]).subject@ == s;
                    assert(now[j].subject@ == s);
                }
                if s == rows@[i as int].subject@ {
                    assert(now[i as int].subject@ == s);
                }
                if is_subject(now, s) {
                    let j = choose|j: int|
                        0 <= j < now.len() && (#[trigger] now[j]).subject@ == s;
                    if j < i {
                        assert(then_rows[j].subject@ == s);
                    }
                }
            }
        }
        i = i + 1;
    }
    assert(rows@.take(rows@.len() as int) =~= rows@);
    columns
}

// ---------------------------------------------------------------------------
// Cells
// ---------------------------------------------------------------------------

/// p95 per-call µs of a subject in a workload: that of the last such row.
pub open spec fn p95_cell(
    rows: Seq<Row>,
    group: Seq<char>,
    workload: Seq<char>,
    subject: Seq<char>,
) -> Option<Double>
    decreases rows.len(),
{
    if rows.len() == 0 {
        None
    } else {
        let r = rows.last();
        if r.group@ == group && r.workload@ == workload && r.subject@ == subject {
            Some(p95_spec(r.samples_ns@).div_spec(Double { bits: double::THOUSAND }))
        } else {
            p95_cell(rows.drop_last(), group, workload, subject)
        }
    }
}

fn p95_of(rows: &[Row], group: &str, workload: &str, subject: &str) -> (r: Option<Double>)
    ensures
        r == p95_cell(rows@, group@, workload@, subject@),
{
    let mut n: usize = rows.len();
    assert(rows@.take(n as int) =~= rows@);
    while n > 0
        invariant
            n <= rows@.len(),
            p95_cell(rows@, group@, workload@, subject@) == p95_cell(
                rows@.take(n as int),
                group@,
                workload@,
                subject@,
            ),
        decreases n,
    {
        let r: &Row = &rows[n - 1];
        proof {
            assert(rows@.take(n as int).last() == rows@[n - 1]);
            assert(rows@.take(n as int).drop_last() =~= rows@.take(n - 1));
        }
        if text::same(r.group.as_str(), group) && text::same(r.workload.as_str(), workload)
            && text::same(r.subject.as_str(), subject) {
            return Some(
                p95(r.samples_ns.as_slice()).over(Double { bits: double::THOUSAND }),
            );
        }
        n = n - 1;
    }
    None
}

/// The worse of a ratio so far and another one.
pub open spec fn worse(so_far: Option<Double>, ratio: Double) -> Option<Double> {
    match so_far {
        Some(w) => Some(w.max_spec(ratio)),
        None => Some(ratio),
    }
}

/// The worst (max) of the headline family's ratios.
pub open spec fn worst_ratio(rows: Seq<RatioRow>, headline: Seq<Seq<char>>) -> Option<Double>
    decreases rows.len(),
{
    if rows.len() == 0 {
        None
    } else {
        let before = worst_ratio(rows.drop_last(), headline);
        match rows.last().ratio_vs_baseline {
            Some(ratio) => if config::any_star_match(headline, rows.last().subject@) {
                worse(before, ratio)
            } else {
                before
            },
            None => before,
        }
    }
}

pub open spec fn worst_instr_ratio(
    rows: Seq<InstrRatioRow>,
    headline: Seq<Seq<char>>,
) -> Option<Double>
    decreases rows.len(),
{
    if rows.len() == 0 {
        None
    } else {
        let before = worst_instr_ratio(rows.drop_last(), headline);
        match rows.last().ratio_vs_baseline {
            Some(ratio) => if config::any_star_match(headline, rows.last().subject@) {
                worse(before, ratio)
            } else {
                before
            },
            None => before,
        }
    }
}

fn worst_of(so_far: Option<Double>, ratio: Double) -> (r: Option<Double>)
    ensures
        r == worse(so_far, ratio),
{
    match so_far {
        Some(w) => Some(w.max(ratio)),
        None => Some(ratio),
    }
}

fn worst_walltime(rows: &Vec<RatioRow>, headline: &Vec<String>) -> (r: Option<Double>)
    ensures
        r == worst_ratio(rows@, text::views(headline@)),
{
    let mut worst: Option<Double> = None;
    let mut i: usize = 0;
    while i < rows.len()
        invariant
            i <= rows@.len(),
            worst == worst_ratio(rows@.take(i as int), text::views(headline@)),
        decreases rows@.len() - i,
    {
        proof {
            assert(rows@.take(i + 1).drop_last() =~= rows@.take(i as int));
            assert(rows@.take(i + 1).last() == rows@[i as int]);
        }
        match rows[i].ratio_vs_baseline {
            Some(ratio) => {
                if config::any_pattern_matches(headline, rows[i].subject.as_str()) {
                    worst = worst_of(worst, ratio);
                }
            },
            None => {},
        }
        i = i + 1;
    }
    assert(rows@.take(rows@.len() as int) =~= rows@);
    worst
}

fn worst_instr(rows: &Vec<InstrRatioRow>, headline: &Vec<String>) -> (r: Option<Double>)
    ensures
        r == worst_instr_ratio(rows@, text::views(headline@)),
{
    let mut worst: Option<Double> = None;
    let mut i: usize = 0;
    while i < rows.len()
        invariant
            i <= rows@.len(),
            worst == worst_instr_ratio(rows@.take(i as int), text::views(headline@)),
        decreases rows@.len() - i,
    {
        proof {
            assert(rows@.take(i + 1).drop_last() =~= rows@.take(i as int));
            assert(rows@.take(i + 1).last() == rows@[i as int]);
        }
        match rows[i].ratio_vs_baseline {
            Some(ratio) => {
                if config::any_pattern_matches(headline, rows[i].subject.as_str()) {
                    worst = worst_of(worst, ratio);
                }
            },
            None => {},
        }
        i = i + 1;
    }
    assert(rows@.take(rows@.len() as int) =~= rows@);
    worst
}

/// The count of the first row with this subject.
pub open spec fn count_cell(rows: Seq<InstrRatioRow>, subject: Seq<char>) -> Option<u64>
    decreases rows.len(),
{
    if rows.len() == 0 {
        None
    } else if rows[0].subject@ == subject {
        Some(rows[0].count)
    } else {
        count_cell(rows.drop_first(), subject)
    }
}

fn count_of(rows: &Vec<InstrRatioRow>, subject: &str) -> (r: Option<u64>)
    ensures
        r == count_cell(rows@, subject@),
{
    let mut i: usize = 0;
    assert(rows@.skip(0) =~= rows@);
    while i < rows.len()
        invariant
            i <= rows@.len(),
            count_cell(rows@, subject@) == count_cell(rows@.skip(i as int), subject@),
        decreases rows@.len() - i,
    {
        assert(rows@.skip(i as int)[0] == rows@[i as int]);
        if text::same(rows[i].subject.as_str(), subject) {
            return Some(rows[i].count);
        }
        proof {
            assert(rows@.skip(i as int).drop_first() =~= rows@.skip(i + 1));
        }
        i = i + 1;
    }
    assert(rows@.skip(i as int) =~= Seq::empty());
    None
}

/// The rows of the last count table for a workload.
pub open spec fn instr_item(
    tables: Seq<InstrWorkloadRatios>,
    group: Seq<char>,
    workload: Seq<char>,
) -> Option<Seq<InstrRatioRow>>
    decreases tables.len(),
{
    if tables.len() == 0 {
        None
    } else if tables.last().group@ == group && tables.last().workload@ == workload {
        Some(tables.last().rows@)
    } else {
        instr_item(tables.drop_last(), group, workload)
    }
}

/// Position of the last count table for a workload.
fn instr_item_at(tables: &Vec<InstrWorkloadRatios>, group: &str, workload: &str) -> (r: Option<usize>)
    ensures
        match r {
            Some(i) => i < tables@.len() && instr_item(tables@, group@, workload@) == Some(
                tables@[i as int].rows@,
            ),
            None => instr_item(tables@, group@, workload@) is None,
        },
{
    let mut n: usize = tables.len();
    assert(tables@.take(n as int) =~= tables@);
    while n > 0
        invariant
            n <= tables@.len(),
            instr_item(tables@, group@, workload@) == instr_item(
                tables@.take(n as int),
                group@,
                workload@,
            ),
        decreases n,
    {
        proof {
            assert(tables@.take(n as int).last() == tables@[n - 1]);
            assert(tables@.take(n as int).drop_last() =~= tables@.take(n - 1));
        }
        if text::same(tables[n - 1].group.as_str(), group) && text::same(
            tables[n - 1].workload.as_str(),
            workload,
        ) {
            return Some(n - 1);
        }
        n = n - 1;
    }
    None
}

// ---------------------------------------------------------------------------
// The table
// ---------------------------------------------------------------------------

/// The walltime columns of an item.
pub open spec fn p95_columns(
    rows: Seq<Row>,
    group: Seq<char>,
    workload: Seq<char>,
    subjects: Seq<Seq<char>>,
) -> Seq<Option<Double>> {
    subjects.map_values(|s: Seq<char>| p95_cell(rows, group, workload, s))
}

/// The count columns of an item.
pub open spec fn count_columns(
    rows: Seq<InstrRatioRow>,
    subjects: Seq<Seq<char>>,
) -> Seq<Option<u64>> {
    subjects.map_values(|s: Seq<char>| count_cell(rows, s))
}

/// The count columns and the worst count ratio of an item, where the
/// instructions lane has one.
pub open spec fn instr_side(
    instr: Option<Seq<InstrWorkloadRatios>>,
    group: Seq<char>,
    workload: Seq<char>,
    subjects: Seq<Seq<char>>,
    headline: Seq<Seq<char>>,
) -> Option<(Seq<Option<u64>>, Option<Double>)> {
    match instr {
        Some(tables) => match instr_item(tables, group, workload) {
            Some(rows) => Some((count_columns(rows, subjects), worst_instr_ratio(rows, headline))),
            None => None,
        },
        None => None,
    }
}

/// Is `row` the table row of a workload?
pub open spec fn is_table_row(
    row: CompareTableRow,
    wl: WorkloadRatios,
    rows: Seq<Row>,
    instr: Option<Seq<InstrWorkloadRatios>>,
    subjects: Seq<Seq<char>>,
    headline: Seq<Seq<char>>,
) -> bool {
    &&& row.item@ == criterion_results::item_spec(wl.group@, wl.workload@)
    &&& row.p95_us@ == p95_columns(rows, wl.group@, wl.workload@, subjects)
    &&& row.headline_ratio == worst_ratio(wl.rows@, headline)
    &&& match instr_side(instr, wl.group@, wl.workload@, subjects, headline) {
        Some((counts, worst)) => (row.instr matches Some(v) && v@ == counts)
            && row.instr_headline_ratio == worst,
        None => row.instr is None && row.instr_headline_ratio is None,
    }
}

pub open spec fn instr_tables(instr: Option<Vec<InstrWorkloadRatios>>) -> Option<
    Seq<InstrWorkloadRatios>,
> {
    match instr {
        Some(v) => Some(v@),
        None => None,
    }
}

fn table_row(
    wl: &WorkloadRatios,
    rows: &[Row],
    instr: &Option<Vec<InstrWorkloadRatios>>,
    subjects: &Vec<String>,
    headline: &Vec<String>,
) -> (row: CompareTableRow)
    ensures
        is_table_row(
            row,
            *wl,
            rows@,
            instr_tables(*instr),
            text::views(subjects@),
            text::views(headline@),
        ),
{
    let ghost names = text::views(subjects@);
    let mut p95_us: Vec<Option<Double>> = Vec::new();
    let mut i: usize = 0;
    while i < subjects.len()
        invariant
            names == text::views(subjects@),
            i <= subjects@.len(),
            p95_us@ == p95_columns(rows@, wl.group@, wl.workload@, names).take(i as int),
        decreases subjects@.len() - i,
    {
        let cell: Option<Double> = p95_of(
            rows,
            wl.group.as_str(),
            wl.workload.as_str(),
            subjects[i].as_str(),
        );
        p95_us.push(cell);
        proof {
            let all = p95_columns(rows@, wl.group@, wl.workload@, names);
            assert(all[i as int] == cell);
            assert(all.take(i + 1) =~= all.take(i as int).push(cell));
        }
        i = i + 1;
    }
    proof {
        let all = p95_columns(rows@, wl.group@, wl.workload@, names);
        assert(all.take(all.len() as int) =~= all);
    }
    let mut counts: Option<Vec<Option<u64>>> = None;
    let mut worst: Option<Double> = None;
    match instr {
        Some(tables) => {
            match instr_item_at(tables, wl.group.as_str(), wl.workload.as_str()) {
                Some(at) => {
                    let item: &InstrWorkloadRatios = &tables[at];
                    let mut column: Vec<Option<u64>> = Vec::new();
                    let mut j: usize = 0;
                    while j < subjects.len()
                        invariant
                            names == text::views(subjects@),
                            j <= subjects@.len(),
                            column@ == count_columns(item.rows@, names).take(j as int),
                        decreases subjects@.len() - j,
                    {
                        let cell: Option<u64> = count_of(&item.rows, subjects[j].as_str());
                        column.push(cell);
                        proof {
                            let all = count_columns(item.rows@, names);
                            assert(all[j as int] == cell);
                            assert(all.take(j + 1) =~= all.take(j as int).push(cell));
                        }
                        j = j + 1;
                    }
                    proof {
                        let all = count_columns(item.rows@, names);
                        assert(all.take(all.len() as int) =~= all);
                    }
                    counts = Some(column);
                    worst = worst_instr(&item.rows, headline);
                },
                None => {},
            }
        },
        None => {},
    }
    CompareTableRow {
        item: criterion_results::item_name(wl.group.as_str(), wl.workload.as_str()),
        p95_us,
        headline_ratio: worst_walltime(&wl.rows, headline),
        instr: counts,
        instr_headline_ratio: worst,
    }
}

/// Is `table` the comparison table: one column per subject, in column order,
/// and one row per workload?
pub open spec fn is_compare_table(
    table: CompareTable,
    rows: Seq<Row>,
    ratios: Seq<WorkloadRatios>,
    instr: Option<Seq<InstrWorkloadRatios>>,
    order: Seq<Seq<char>>,
    headline: Seq<Seq<char>>,
) -> bool {
    let subjects = text::views(table.subjects@);
    &&& in_column_order(subjects, order)
    &&& forall|s: Seq<char>| #[trigger] subjects.contains(s) <==> is_subject(rows, s)
    &&& table.rows@.len() == ratios.len()
    &&& forall|i: int|
        0 <= i < ratios.len() ==> is_table_row(
            #[trigger] table.rows@[i],
            ratios[i],
            rows,
            instr,
            subjects,
            headline,
        )
}

/// Assembles the comparison table from parsed rows and ratio tables.
/// `headline` patterns decide which subjects feed the ratio column;
/// `subject_order` pins the leading columns (unlisted subjects follow
/// alphabetically) and is display-only. `instr_ratios` (none when the lane is
/// off) adds per-subject counts and a headline count ratio to matching items;
/// the column set stays driven by the walltime rows.
pub fn build_compare_table(
    rows: &[Row],
    ratios: &[WorkloadRatios],
    instr_ratios: &Option<Vec<InstrWorkloadRatios>>,
    headline_label: &str,
    baseline_subject: &str,
    subject_order: &Vec<String>,
    headline: &Vec<String>,
) -> (table: CompareTable)
    ensures
        table.headline_label@ == headline_label@,
        table.baseline_subject@ == baseline_subject@,
        is_compare_table(
            table,
            rows@,
            ratios@,
            instr_tables(*instr_ratios),
            text::views(subject_order@),
            text::views(headline@),
        ),
{
    let subjects: Vec<String> = columns_of(rows, subject_order);
    let mut table_rows: Vec<CompareTableRow> = Vec::new();
    let mut i: usize = 0;
    while i < ratios.len()
        invariant
            i <= ratios@.len(),
            table_rows@.len() == i,
            forall|j: int|
                0 <= j < i ==> is_table_row(
                    #[trigger] table_rows@[j],
                    ratios@[j],
                    rows@,
                    instr_tables(*instr_ratios),
                    text::views(subjects@),
                    text::views(headline@),
                ),
        decreases ratios@.len() - i,
    {
        table_rows.push(table_row(&ratios[i], rows, instr_ratios, &subjects, headline));
        i = i + 1;
    }
    CompareTable {
        subjects,
        rows: table_rows,
        headline_label: headline_label.to_string(),
        baseline_subject: baseline_subject.to_string(),
    }
}

} // verus!
