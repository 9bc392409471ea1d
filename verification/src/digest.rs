//! Trend digest: rolls a window of commit records into a summary and trend
//! charts, for the automatic digest and for ad-hoc windows.
use crate::charts::TrendSeries;
use crate::config;
use crate::criterion_results;
use crate::dates;
use crate::double;
use crate::double::Double;
use crate::lane::Lane;
use crate::numerals;
use crate::paths;
use crate::sorting;
use crate::sorting::Ranked;
use crate::state;
use crate::storage;
use crate::storage::{CommitRecord, RepoStore, RowRecord};
use crate::strmap;
use crate::strmap::StrMap;
use crate::text;
use vstd::prelude::*;

verus! {

/// The trend chart stays readable with a bounded series count; the full data
/// always lands in the summary.
pub const TREND_MAX_SERIES: usize = 8;

/// One row's ratio series across a window, with first/last/median precomputed.
#[derive(Debug, Clone, PartialEq)]
pub struct SummaryRow {
    /// Full row key, e.g. `salt_dynamic_gas/rex5_salt/sstore_100`.
    pub row_key: String,
    /// The ratio per commit of the window; none where the row was missing that
    /// run.
    pub ratios: Vec<Option<Double>>,
    pub first: Option<Double>,
    pub last: Option<Double>,
    pub median: Option<Double>,
}

/// The digest's structured source of truth.
#[derive(Debug, Clone, PartialEq)]
pub struct DigestSummary {
    /// Full shas, oldest first.
    pub commits: Vec<String>,
    pub first_commit: String,
    pub last_commit: String,
    /// The scope's rows, sorted by median ratio descending.
    pub rows: Vec<SummaryRow>,
    /// Union of the window's failed bench targets (deduped, sorted).
    pub failed_targets: Vec<String>,
    /// The instructions lane's counterpart to `rows`; absent when no commit of
    /// the window carries an instructions ratio for a row of the scope.
    pub instr_series: Option<Vec<SummaryRow>>,
}

// ---------------------------------------------------------------------------
// Points
// ---------------------------------------------------------------------------

/// A lane's ratio of a stored row.
pub open spec fn lane_ratio(row: RowRecord, lane: Lane) -> Option<Double> {
    match lane {
        Lane::Walltime => row.ratio_vs_baseline,
        Lane::Instructions => match row.instr {
            Some(instr) => instr.ratio_vs_baseline,
            None => None,
        },
    }
}

fn ratio_of(row: &RowRecord, lane: Lane) -> (r: Option<Double>)
    ensures
        r == lane_ratio(*row, lane),
{
    match lane {
        Lane::Walltime => row.ratio_vs_baseline,
        Lane::Instructions => match &row.instr {
            Some(instr) => instr.ratio_vs_baseline,
            None => None,
        },
    }
}

/// Which rows a summary is about: the patterns of their subjects and of their
/// full keys.
pub struct Scope {
    pub subjects: Seq<Seq<char>>,
    pub keys: Seq<Seq<char>>,
}

/// Is a row of a group in scope?
pub open spec fn in_scope(scope: Scope, group: Seq<char>, name: Seq<char>) -> bool {
    config::any_star_match(scope.subjects, criterion_results::split_id(name).0)
        && config::any_star_match(scope.keys, full_key(group, name))
}

/// `group/row`.
pub open spec fn full_key(group: Seq<char>, name: Seq<char>) -> Seq<char> {
    group + "/"@ + name
}

/// The ratios of the first `n` rows of a group that are in scope, by full key.
pub open spec fn group_points(
    group: Seq<char>,
    rows: StrMap<RowRecord>,
    n: nat,
    scope: Scope,
    lane: Lane,
) -> Map<Seq<char>, Double>
    decreases n,
{
    if n == 0 {
        Map::empty()
    } else {
        let before = group_points(group, rows, (n - 1) as nat, scope, lane);
        let name = rows.keys()[n - 1];
        match lane_ratio(rows.nth(n - 1), lane) {
            Some(ratio) => if in_scope(scope, group, name) {
                before.insert(full_key(group, name), ratio)
            } else {
                before
            },
            None => before,
        }
    }
}

/// The ratios of the rows in scope of the first `n` groups, by full key.
pub open spec fn points_upto(
    groups: StrMap<StrMap<RowRecord>>,
    n: nat,
    scope: Scope,
    lane: Lane,
) -> Map<Seq<char>, Double>
    decreases n,
{
    if n == 0 {
        Map::empty()
    } else {
        let rows = groups.nth(n - 1);
        points_upto(groups, (n - 1) as nat, scope, lane).union_prefer_right(
            group_points(groups.keys()[n - 1], rows, rows.keys().len(), scope, lane),
        )
    }
}

/// The ratios of a record's rows in scope, by full key.
pub open spec fn points(record: CommitRecord, scope: Scope, lane: Lane) -> Map<Seq<char>, Double> {
    points_upto(record.groups, record.groups.keys().len(), scope, lane)
}

pub open spec fn scope_of(subjects: Seq<String>, keys: Seq<String>) -> Scope {
    Scope { subjects: text::views(subjects), keys: text::views(keys) }
}

/// The ratios of a record's rows in scope.
fn points_of(record: &CommitRecord, subjects: &Vec<String>, keys: &Vec<String>, lane: Lane) -> (r:
    StrMap<Double>)
    ensures
        r.wf(),
        r@ == points(*record, scope_of(subjects@, keys@), lane),
{
    let ghost scope = scope_of(subjects@, keys@);
    let mut out: StrMap<Double> = StrMap::new();
    let mut g: usize = 0;
    while g < record.groups.len()
        invariant
            scope == scope_of(subjects@, keys@),
            g <= record.groups.keys().len(),
            out.wf(),
            out@ == points_upto(record.groups, g as nat, scope, lane),
        decreases record.groups.keys().len() - g,
    {
        let group: &String = record.groups.key_at(g);
        let rows: &StrMap<RowRecord> = record.groups.value_at(g);
        let ghost before = out@;
        proof {
            assert(before.union_prefer_right(Map::<Seq<char>, Double>::empty()) =~= before);
        }
        let mut i: usize = 0;
        while i < rows.len()
            invariant
                scope == scope_of(subjects@, keys@),
                i <= rows.keys().len(),
                out.wf(),
                out@ == before.union_prefer_right(
                    group_points(group@, *rows, i as nat, scope, lane),
                ),
            decreases rows.keys().len() - i,
        {
            let name: &String = rows.key_at(i);
            let ghost so_far = group_points(group@, *rows, i as nat, scope, lane);
            match ratio_of(rows.value_at(i), lane) {
                Some(ratio) => {
                    let (subject, _) = criterion_results::split_function_id(name.as_str());
                    let key: String = text::cat3(group.as_str(), "/", name.as_str());
                    if config::any_pattern_matches(subjects, subject.as_str())
                        && config::any_pattern_matches(keys, key.as_str()) {
                        out.insert(key, ratio);
                        proof {
                            let k = full_key(group@, name@);
                            assert(before.union_prefer_right(so_far.insert(k, ratio))
                                =~= before.union_prefer_right(so_far).insert(k, ratio));
                        }
                    }
                },
                None => {},
            }
            i = i + 1;
        }
        g = g + 1;
    }
    out
}

// ---------------------------------------------------------------------------
// Series
// ---------------------------------------------------------------------------

/// A row's ratio per record, none where the record lacks it.
pub open spec fn series(
    records: Seq<CommitRecord>,
    key: Seq<char>,
    scope: Scope,
    lane: Lane,
) -> Seq<Option<Double>> {
    Seq::new(
        records.len(),
        |i: int|
            {
                let p = points(records[i], scope, lane);
                if p.dom().contains(key) {
                    Some(p[key])
                } else {
                    None
                }
            },
    )
}

/// Does some record have a ratio for this row?
pub open spec fn has_points(
    records: Seq<CommitRecord>,
    key: Seq<char>,
    scope: Scope,
    lane: Lane,
) -> bool {
    exists|i: int|
        0 <= i < records.len() && (#[trigger] points(records[i], scope, lane)).dom().contains(key)
}

/// The ratios that are there, in order.
pub open spec fn present(ratios: Seq<Option<Double>>) -> Seq<Double>
    decreases ratios.len(),
{
    if ratios.len() == 0 {
        Seq::empty()
    } else {
        match ratios.last() {
            Some(r) => present(ratios.drop_last()).push(r),
            None => present(ratios.drop_last()),
        }
    }
}

/// The median, where there are values.
pub open spec fn median_opt(values: Seq<Double>) -> Option<Double> {
    if values.len() == 0 {
        None
    } else {
        Some(state::median_spec(values))
    }
}

/// Does `row` sum up the series of its key?
pub open spec fn is_summary_row(
    row: SummaryRow,
    records: Seq<CommitRecord>,
    scope: Scope,
    lane: Lane,
) -> bool {
    let ratios = series(records, row.row_key@, scope, lane);
    let there = present(ratios);
    &&& row.ratios@ == ratios
    &&& row.first == (if there.len() == 0 {
        None
    } else {
        Some(there[0])
    })
    &&& row.last == (if there.len() == 0 {
        None
    } else {
        Some(there.last())
    })
    &&& row.median == median_opt(there)
}

/// Where a median stands in the order of a summary; what is no number stands
/// lowest.
pub open spec fn height(median: Option<Double>) -> int {
    match median {
        Some(m) => if m.nan() {
            -0x1_0000_0000_0000_0000
        } else {
            m.order()
        },
        None => -0x2_0000_0000_0000_0000,
    }
}

/// Is `a`'s median above `b`'s?
fn higher(a: Option<Double>, b: Option<Double>) -> (r: bool)
    ensures
        r == (height(a) > height(b)),
{
    match (a, b) {
        (Some(x), Some(y)) => {
            if x.is_nan() {
                false
            } else if y.is_nan() {
                true
            } else {
                y.lt(x)
            }
        },
        (Some(_), None) => true,
        (None, _) => false,
    }
}

impl Ranked for SummaryRow {
    /// By median descending, then by key.
    open spec fn before(self, other: SummaryRow) -> bool {
        height(self.median) > height(other.median) || (height(self.median) == height(other.median)
            && text::lex_lt(self.row_key@, other.row_key@))
    }

    fn comes_before(&self, other: &SummaryRow) -> (r: bool) {
        if higher(self.median, other.median) {
            true
        } else if higher(other.median, self.median) {
            false
        } else {
            text::less(self.row_key.as_str(), other.row_key.as_str())
        }
    }
}

/// Is this a lane's summary table: one row for each key with a point, biggest
/// median first?
pub open spec fn is_table(
    rows: Seq<SummaryRow>,
    records: Seq<CommitRecord>,
    scope: Scope,
    lane: Lane,
) -> bool {
    &&& forall|i: int, j: int|
        0 <= i < j < rows.len() ==> (#[trigger] rows[i]).before(#[trigger] rows[j])
    &&& forall|i: int|
        0 <= i < rows.len() ==> is_summary_row(#[trigger] rows[i], records, scope, lane)
            && has_points(records, rows[i].row_key@, scope, lane)
    &&& forall|key: Seq<char>|
        has_points(records, key, scope, lane) ==> exists|i: int|
            0 <= i < rows.len() && (#[trigger] rows[i]).row_key@ == key
}

/// Stored ratios are numbers.
pub open spec fn is_numeric(record: CommitRecord) -> bool {
    forall|g: int, i: int, lane: Lane|
        0 <= g < record.groups.keys().len() && 0 <= i < record.groups.nth(g).keys().len() ==> (
        match #[trigger] lane_ratio(record.groups.nth(g).nth(i), lane) {
            Some(r) => !r.nan(),
            None => true,
        })
}

pub open spec fn all_numeric(records: Seq<CommitRecord>) -> bool {
    forall|i: int| 0 <= i < records.len() ==> is_numeric(#[trigger] records[i])
}

/// Are a record's ratios numbers?
pub fn numeric(record: &CommitRecord) -> (r: bool)
    ensures
        r == is_numeric(*record),
{
    let mut g: usize = 0;
    while g < record.groups.len()
        invariant
            g <= record.groups.keys().len(),
            forall|h: int, i: int, lane: Lane|
                0 <= h < g && 0 <= i < record.groups.nth(h).keys().len() ==> (
                match #[trigger] lane_ratio(record.groups.nth(h).nth(i), lane) {
                    Some(r) => !r.nan(),
                    None => true,
                }),
        decreases record.groups.keys().len() - g,
    {
        let rows: &StrMap<RowRecord> = record.groups.value_at(g);
        let mut i: usize = 0;
        while i < rows.len()
            invariant
                g < record.groups.keys().len(),
                *rows == record.groups.nth(g as int),
                i <= rows.keys().len(),
                forall|j: int, lane: Lane|
                    0 <= j < i ==> (match #[trigger] lane_ratio(rows.nth(j), lane) {
                        Some(r) => !r.nan(),
                        None => true,
                    }),
            decreases rows.keys().len() - i,
        {
            let row: &RowRecord = rows.value_at(i);
            match ratio_of(row, Lane::Walltime) {
                Some(r) => {
                    if r.is_nan() {
                        assert(lane_ratio(record.groups.nth(g as int).nth(i as int), Lane::Walltime)
                            == Some(r));
                        return false;
                    }
                },
                None => {},
            }
            match ratio_of(row, Lane::Instructions) {
                Some(r) => {
                    if r.is_nan() {
                        assert(lane_ratio(
                            record.groups.nth(g as int).nth(i as int),
                            Lane::Instructions,
                        ) == Some(r));
                        return false;
                    }
                },
                None => {},
            }
            assert forall|j: int, lane: Lane| 0 <= j < i + 1 implies (
            match #[trigger] lane_ratio(rows.nth(j), lane) {
                Some(r) => !r.nan(),
                None => true,
            }) by {
                if j == i {
                    match lane {
                        Lane::Walltime => {},
                        Lane::Instructions => {},
                    }
                }
            }
            i = i + 1;
        }
        g = g + 1;
    }
    true
}

/// Points of numeric records are numbers.
proof fn lemma_group_points_numeric(
    group: Seq<char>,
    rows: StrMap<RowRecord>,
    n: nat,
    scope: Scope,
    lane: Lane,
    key: Seq<char>,
)
    requires
        n <= rows.keys().len(),
        forall|i: int|
            0 <= i < rows.keys().len() ==> (match #[trigger] lane_ratio(rows.nth(i), lane) {
                Some(r) => !r.nan(),
                None => true,
            }),
        group_points(group, rows, n, scope, lane).dom().contains(key),
    ensures
        !group_points(group, rows, n, scope, lane)[key].nan(),
    decreases n,
{
    if n > 0 {
        let before = group_points(group, rows, (n - 1) as nat, scope, lane);
        let seen = lane_ratio(rows.nth(n - 1), lane);
        if before.dom().contains(key) {
            lemma_group_points_numeric(group, rows, (n - 1) as nat, scope, lane, key);
        }
    }
}

proof fn lemma_points_numeric(
    record: CommitRecord,
    n: nat,
    scope: Scope,
    lane: Lane,
    key: Seq<char>,
)
    requires
        is_numeric(record),
        n <= record.groups.keys().len(),
        points_upto(record.groups, n, scope, lane).dom().contains(key),
    ensures
        !points_upto(record.groups, n, scope, lane)[key].nan(),
    decreases n,
{
    if n > 0 {
        let rows = record.groups.nth(n - 1);
        let group = record.groups.keys()[n - 1];
        let last = group_points(group, rows, rows.keys().len(), scope, lane);
        assert forall|i: int| 0 <= i < rows.keys().len() implies (
        match #[trigger] lane_ratio(rows.nth(i), lane) {
            Some(r) => !r.nan(),
            None => true,
        }) by {
            assert(rows.nth(i) == record.groups.nth(n - 1).nth(i));
        }
        if last.dom().contains(key) {
            lemma_group_points_numeric(group, rows, rows.keys().len(), scope, lane, key);
        } else {
            lemma_points_numeric(record, (n - 1) as nat, scope, lane, key);
        }
    }
}

proof fn lemma_series_numeric(
    records: Seq<CommitRecord>,
    key: Seq<char>,
    scope: Scope,
    lane: Lane,
)
    requires
        all_numeric(records),
    ensures
        forall|i: int|
            0 <= i < records.len() ==> (match #[trigger] series(records, key, scope, lane)[i] {
                Some(r) => !r.nan(),
                None => true,
            }),
{
    assert forall|i: int| 0 <= i < records.len() implies (
    match #[trigger] series(records, key, scope, lane)[i] {
        Some(r) => !r.nan(),
        None => true,
    }) by {
        let record = records[i];
        assert(is_numeric(record));
        if points(record, scope, lane).dom().contains(key) {
            lemma_points_numeric(record, record.groups.keys().len(), scope, lane, key);
        }
    }
}

/// Where every ratio that is there is a number, so are the present ones.
pub proof fn lemma_present_numeric(ratios: Seq<Option<Double>>)
    requires
        forall|i: int|
            0 <= i < ratios.len() ==> (match #[trigger] ratios[i] {
                Some(r) => !r.nan(),
                None => true,
            }),
    ensures
        forall|i: int| 0 <= i < present(ratios).len() ==> !(#[trigger] present(ratios)[i]).nan(),
        present(ratios).len() <= ratios.len(),
    decreases ratios.len(),
{
    if ratios.len() > 0 {
        let front = ratios.drop_last();
        assert forall|i: int| 0 <= i < front.len() implies (match #[trigger] front[i] {
            Some(r) => !r.nan(),
            None => true,
        }) by {
            assert(front[i] == ratios[i]);
        }
        lemma_present_numeric(front);
        assert(ratios[ratios.len() - 1] == ratios.last());
    }
}

/// The ratios that are there.
fn present_of(ratios: &Vec<Option<Double>>) -> (r: Vec<Double>)
    ensures
        r@ == present(ratios@),
{
    let mut out: Vec<Double> = Vec::new();
    let mut i: usize = 0;
    while i < ratios.len()
        invariant
            i <= ratios@.len(),
            out@ == present(ratios@.take(i as int)),
        decreases ratios@.len() - i,
    {
        proof {
            assert(ratios@.take(i + 1).drop_last() =~= ratios@.take(i as int));
            assert(ratios@.take(i + 1).last() == ratios@[i as int]);
        }
        match ratios[i] {
            Some(r) => {
                out.push(r);
            },
            None => {},
        }
        i = i + 1;
    }
    assert(ratios@.take(ratios@.len() as int) =~= ratios@);
    out
}

/// The median of a set of numbers; none of an empty one.
fn median_of(values: &Vec<Double>) -> (r: Option<Double>)
    requires
        forall|i: int| 0 <= i < values@.len() ==> !(#[trigger] values@[i]).nan(),
    ensures
        r == median_opt(values@),
{
    if values.len() == 0 {
        None
    } else {
        Some(state::median(values))
    }
}

/// The keys that have a point in one of the first `n` records.
pub open spec fn keys_upto(
    records: Seq<CommitRecord>,
    n: int,
    scope: Scope,
    lane: Lane,
    key: Seq<char>,
) -> bool {
    exists|i: int|
        0 <= i < n && (#[trigger] points(records[i], scope, lane)).dom().contains(key)
}

/// The summary row of a key.
fn summary_row(
    key: String,
    tables: &Vec<StrMap<Double>>,
    records: &[CommitRecord],
    subjects: &Vec<String>,
    keys: &Vec<String>,
    lane: Lane,
) -> (row: SummaryRow)
    requires
        all_numeric(records@),
        tables@.len() == records@.len(),
        forall|i: int|
            0 <= i < records@.len() ==> (#[trigger] tables@[i]).wf() && tables@[i]@ == points(
                records@[i],
                scope_of(subjects@, keys@),
                lane,
            ),
    ensures
        row.row_key@ == key@,
        is_summary_row(row, records@, scope_of(subjects@, keys@), lane),
{
    let ghost scope = scope_of(subjects@, keys@);
    let ghost all = series(records@, key@, scope, lane);
    let mut ratios: Vec<Option<Double>> = Vec::new();
    let mut i: usize = 0;
    while i < tables.len()
        invariant
            i <= tables@.len(),
            tables@.len() == records@.len(),
            all == series(records@, key@, scope, lane),
            forall|j: int|
                0 <= j < records@.len() ==> (#[trigger] tables@[j]).wf() && tables@[j]@ == points(
                    records@[j],
                    scope,
                    lane,
                ),
            ratios@ == all.take(i as int),
        decreases tables@.len() - i,
    {
        let point: Option<Double> = match tables[i].get(key.as_str()) {
            Some(r) => Some(*r),
            None => None,
        };
        ratios.push(point);
        proof {
            assert(tables@[i as int]@ == points(records@[i as int], scope, lane));
            assert(all[i as int] == point);
            assert(all.take(i + 1) =~= all.take(i as int).push(point));
        }
        i = i + 1;
    }
    proof {
        assert(all.take(all.len() as int) =~= all);
        lemma_series_numeric(records@, key@, scope, lane);
        lemma_present_numeric(all);
    }
    let there: Vec<Double> = present_of(&ratios);
    let n: usize = there.len();
    let first: Option<Double> = if n == 0 {
        None
    } else {
        Some(there[0])
    };
    let last: Option<Double> = if n == 0 {
        None
    } else {
        Some(there[n - 1])
    };
    let median: Option<Double> = median_of(&there);
    SummaryRow { row_key: key, ratios, first, last, median }
}

/// One lane's series across the window, one table-ready row per key, biggest
/// median first. A row that never has a value in the window does not appear.
pub fn collect_series(
    records: &[CommitRecord],
    subjects: &Vec<String>,
    keys: &Vec<String>,
    lane: Lane,
) -> (r: Vec<SummaryRow>)
    requires
        all_numeric(records@),
    ensures
        is_table(r@, records@, scope_of(subjects@, keys@), lane),
{
    let ghost scope = scope_of(subjects@, keys@);
    let mut tables: Vec<StrMap<Double>> = Vec::new();
    let mut names: StrMap<bool> = StrMap::new();
    let mut i: usize = 0;
    while i < records.len()
        invariant
            scope == scope_of(subjects@, keys@),
            i <= records@.len(),
            tables@.len() == i,
            forall|j: int|
                0 <= j < i ==> (#[trigger] tables@[j]).wf() && tables@[j]@ == points(
                    records@[j],
                    scope,
                    lane,
                ),
            names.wf(),
            forall|k: Seq<char>| #[trigger]
                names@.dom().contains(k) <==> keys_upto(records@, i as int, scope, lane, k),
        decreases records@.len() - i,
    {
        let table: StrMap<Double> = points_of(&records[i], subjects, keys, lane);
        let ghost had = names@;
        let mut j: usize = 0;
        while j < table.len()
            invariant
                table.wf(),
                j <= table.keys().len(),
                names.wf(),
                forall|k: Seq<char>| #[trigger]
                    names@.dom().contains(k) <==> had.dom().contains(k) || table.keys().take(
                        j as int,
                    ).contains(k),
            decreases table.keys().len() - j,
        {
            names.insert(table.key_at(j).clone(), true);
            proof {
                let now = table.keys().take(j + 1);
                let then_keys = table.keys().take(j as int);
                assert(now =~= then_keys.push(table.keys()[j as int]));
                assert forall|k: Seq<char>| #[trigger]
                    now.contains(k) <==> then_keys.contains(k) || k == table.keys()[j as int] by {
                    if then_keys.contains(k) {
                        let x = then_keys.index_of(k);
                        assert(now[x] == k);
                    }
                    if k == table.keys()[j as int] {
                        assert(now[j as int] == k);
                    }
                    if now.contains(k) {
                        let x = now.index_of(k);
                        if x < j {
                            assert(then_keys[x] == k);
                        }
                    }
                }
            }
            j = j + 1;
        }
        proof {
            assert(table.keys().take(table.keys().len() as int) =~= table.keys());
            assert(forall|k: Seq<char>| #[trigger] table.has(k) <==> table@.dom().contains(k));
            assert forall|k: Seq<char>| #[trigger]
                names@.dom().contains(k) <==> keys_upto(records@, i + 1, scope, lane, k) by {
                assert(had.dom().contains(k) <==> keys_upto(records@, i as int, scope, lane, k));
                assert(table.has(k) <==> table@.dom().contains(k));
                assert(table@ == points(records@[i as int], scope, lane));
                if keys_upto(records@, i as int, scope, lane, k) {
                    let x = choose|x: int|
                        0 <= x < i && (#[trigger] points(
                            records@[x],
                            scope,
                            lane,
                        )).dom().contains(k);
                    assert(points(records@[x], scope, lane).dom().contains(k));
                }
                if keys_upto(records@, i + 1, scope, lane, k) {
                    let x = choose|x: int|
                        0 <= x < i + 1 && (#[trigger] points(
                            records@[x],
                            scope,
                            lane,
                        )).dom().contains(k);
                    if x < i {
                        assert(keys_upto(records@, i as int, scope, lane, k));
                    }
                }
            }
        }
        tables.push(table);
        i = i + 1;
    }
    let mut rows: Vec<SummaryRow> = Vec::new();
    let mut n: usize = 0;
    while n < names.len()
        invariant
            scope == scope_of(subjects@, keys@),
            all_numeric(records@),
            tables@.len() == records@.len(),
            forall|j: int|
                0 <= j < records@.len() ==> (#[trigger] tables@[j]).wf() && tables@[j]@ == points(
                    records@[j],
                    scope,
                    lane,
                ),
            n <= names.keys().len(),
            rows@.len() == n,
            forall|j: int|
                0 <= j < n ==> (#[trigger] rows@[j]).row_key@ == names.keys()[j] && is_summary_row(
                    rows@[j],
                    records@,
                    scope,
                    lane,
                ),
        decreases names.keys().len() - n,
    {
        let row: SummaryRow = summary_row(
            names.key_at(n).clone(),
            &tables,
            records,
            subjects,
            keys,
            lane,
        );
        rows.push(row);
        n = n + 1;
    }
    let ghost listed = rows@;
    let r: Vec<SummaryRow> = sorting::sort(rows);
    proof {
        assert forall|k: Seq<char>|
            names@.dom().contains(k) <==> #[trigger] has_points(records@, k, scope, lane) by {
            assert(keys_upto(records@, records@.len() as int, scope, lane, k) <==> has_points(
                records@,
                k,
                scope,
                lane,
            ));
        }
        lemma_table(r@, listed, names, records@, scope, lane);
    }
    r
}

/// A sorted list of the rows of every key with a point is a table.
proof fn lemma_table(
    rows: Seq<SummaryRow>,
    listed: Seq<SummaryRow>,
    names: StrMap<bool>,
    records: Seq<CommitRecord>,
    scope: Scope,
    lane: Lane,
)
    requires
        rows == sorting::sorted(listed),
        names.wf(),
        listed.len() == names.keys().len(),
        forall|j: int|
            0 <= j < listed.len() ==> (#[trigger] listed[j]).row_key@ == names.keys()[j]
                && is_summary_row(listed[j], records, scope, lane),
        forall|k: Seq<char>|
            names@.dom().contains(k) <==> #[trigger] has_points(records, k, scope, lane),
    ensures
        is_table(rows, records, scope, lane),
{
    assert forall|i: int, j: int|
        0 <= i < listed.len() && 0 <= j < listed.len() && i != j implies listed[i] != listed[j] by {
        if names.keys()[i] == names.keys()[j] {
            strmap::lemma_increasing_distinct(names.keys(), i, j);
        }
    }
    assert(listed.no_duplicates());
    sorting::lemma_sorted_no_duplicates(listed);
    sorting::lemma_sorted_contains(listed);
    lemma_rank_is_total();
    sorting::lemma_sorted_ordered(listed);
    assert forall|i: int| 0 <= i < rows.len() implies is_summary_row(
        #[trigger] rows[i],
        records,
        scope,
        lane,
    ) && has_points(records, rows[i].row_key@, scope, lane) && listed.contains(rows[i]) by {
        assert(rows.contains(rows[i]));
        let x = listed.index_of(rows[i]);
        assert(listed[x] == rows[i]);
        names.lemma_nth(x);
        assert(names@.dom().contains(rows[i].row_key@));
    }
    assert forall|i: int, j: int| 0 <= i < j < rows.len() implies (#[trigger] rows[i]).before(
        #[trigger] rows[j],
    ) by {
        assert(!rows[j].before(rows[i]));
        let x = listed.index_of(rows[i]);
        let y = listed.index_of(rows[j]);
        assert(listed[x] == rows[i] && listed[y] == rows[j]);
        if rows[i].row_key@ == rows[j].row_key@ {
            strmap::lemma_increasing_distinct(names.keys(), x, y);
            assert(rows[i] == rows[j]);
            assert(false);
        }
        text::lemma_lex_total(rows[i].row_key@, rows[j].row_key@);
    }
    assert forall|key: Seq<char>| has_points(records, key, scope, lane) implies exists|i: int|
        0 <= i < rows.len() && (#[trigger] rows[i]).row_key@ == key by {
        assert(names@.dom().contains(key));
        let x = names.position(key);
        assert(names.keys().contains(key));
        assert(names.keys()[x] == key);
        assert(listed.contains(listed[x]));
        let i = rows.index_of(listed[x]);
        assert(rows.contains(listed[x]));
        assert(rows[i].row_key@ == key);
    }
}

/// The order of summary rows is a strict weak order.
proof fn lemma_rank_is_total()
    ensures
        forall|a: SummaryRow, b: SummaryRow| #[trigger] a.before(b) ==> !b.before(a),
        forall|a: SummaryRow, b: SummaryRow, c: SummaryRow|
            !(#[trigger] a.before(b)) && !(#[trigger] b.before(c)) ==> !a.before(c),
{
    assert forall|a: SummaryRow, b: SummaryRow| #[trigger] a.before(b) implies !b.before(a) by {
        if height(a.median) == height(b.median) {
            text::lemma_lex_asymmetric(a.row_key@, b.row_key@);
        }
    }
    assert forall|a: SummaryRow, b: SummaryRow, c: SummaryRow|
        !(#[trigger] a.before(b)) && !(#[trigger] b.before(c)) implies !a.before(c) by {
        if height(a.median) == height(b.median) && height(b.median) == height(c.median) {
            let (x, y, z) = (a.row_key@, b.row_key@, c.row_key@);
            if text::lex_lt(x, z) {
                text::lemma_lex_total(x, y);
                text::lemma_lex_total(y, z);
                text::lemma_lex_irreflexive(x);
                if text::lex_lt(y, x) && text::lex_lt(z, y) {
                    text::lemma_lex_transitive(z, y, x);
                    text::lemma_lex_asymmetric(x, z);
                } else if x == y {
                    text::lemma_lex_asymmetric(x, z);
                } else if y == z {
                    text::lemma_lex_asymmetric(x, z);
                }
            }
        }
    }
}

// ---------------------------------------------------------------------------
// Summaries
// ---------------------------------------------------------------------------

/// The commits of a window.
pub open spec fn commits_of(records: Seq<CommitRecord>) -> Seq<Seq<char>> {
    records.map_values(|r: CommitRecord| r.commit@)
}

/// Did a target fail in some commit of the window?
pub open spec fn some_failed(records: Seq<CommitRecord>, target: Seq<char>) -> bool {
    exists|i: int|
        0 <= i < records.len() && text::views(
            (#[trigger] records[i]).failed_targets@,
        ).contains(target)
}

/// Is this the summary of a window's rows in scope?
pub open spec fn is_summary(s: DigestSummary, records: Seq<CommitRecord>, scope: Scope) -> bool {
    &&& text::views(s.commits@) == commits_of(records)
    &&& s.first_commit@ == (if records.len() == 0 {
        Seq::empty()
    } else {
        records[0].commit@
    })
    &&& s.last_commit@ == (if records.len() == 0 {
        Seq::empty()
    } else {
        records.last().commit@
    })
    &&& is_table(s.rows@, records, scope, Lane::Walltime)
    &&& strmap::increasing(text::views(s.failed_targets@))
    &&& forall|t: Seq<char>| #[trigger]
        text::views(s.failed_targets@).contains(t) <==> some_failed(records, t)
    &&& match s.instr_series {
        Some(rows) => rows@.len() > 0 && is_table(rows@, records, scope, Lane::Instructions),
        None => forall|key: Seq<char>| !has_points(records, key, scope, Lane::Instructions),
    }
}

/// The keys of a map, in order.
fn keys_list(m: &StrMap<bool>) -> (r: Vec<String>)
    ensures
        text::views(r@) == m.keys(),
{
    let mut out: Vec<String> = Vec::new();
    let mut i: usize = 0;
    while i < m.len()
        invariant
            i <= m.keys().len(),
            text::views(out@) == m.keys().take(i as int),
        decreases m.keys().len() - i,
    {
        let k: String = m.key_at(i).clone();
        proof {
            text::lemma_views_push(out@, k);
            assert(m.keys().take(i + 1) =~= m.keys().take(i as int).push(m.keys()[i as int]));
        }
        out.push(k);
        i = i + 1;
    }
    assert(m.keys().take(m.keys().len() as int) =~= m.keys());
    out
}

/// The union of the window's failed targets, deduped and sorted.
fn failed_union(records: &[CommitRecord]) -> (r: Vec<String>)
    ensures
        strmap::increasing(text::views(r@)),
        forall|t: Seq<char>| #[trigger] text::views(r@).contains(t) <==> some_failed(records@, t),
{
    let mut set: StrMap<bool> = StrMap::new();
    let mut i: usize = 0;
    while i < records.len()
        invariant
            i <= records@.len(),
            set.wf(),
            forall|t: Seq<char>| #[trigger]
                set@.dom().contains(t) <==> some_failed(records@.take(i as int), t),
        decreases records@.len() - i,
    {
        let failed: &Vec<String> = &records[i].failed_targets;
        let ghost had = set@;
        let mut j: usize = 0;
        while j < failed.len()
            invariant
                j <= failed@.len(),
                set.wf(),
                forall|t: Seq<char>| #[trigger]
                    set@.dom().contains(t) <==> had.dom().contains(t) || text::views(
                        failed@.take(j as int),
                    ).contains(t),
            decreases failed@.len() - j,
        {
            set.insert(failed[j].clone(), true);
            proof {
                assert(failed@.take(j + 1) =~= failed@.take(j as int).push(failed@[j as int]));
                text::lemma_views_push(failed@.take(j as int), failed@[j as int]);
                let a = text::views(failed@.take(j as int));
                let b = text::views(failed@.take(j + 1));
                assert forall|t: Seq<char>| #[trigger]
                    b.contains(t) <==> a.contains(t) || t == failed@[j as int]@ by {
                    if a.contains(t) {
                        assert(b[a.index_of(t)] == t);
                    }
                    if t == failed@[j as int]@ {
                        assert(b[j as int] == t);
                    }
                    if b.contains(t) && b.index_of(t) < j {
                        assert(a[b.index_of(t)] == t);
                    }
                }
            }
            j = j + 1;
        }
        proof {
            let then_records = records@.take(i as int);
            let now = records@.take(i + 1);
            assert(failed@.take(failed@.len() as int) =~= failed@);
            assert forall|t: Seq<char>| #[trigger]
                set@.dom().contains(t) <==> some_failed(now, t) by {
                assert(had.dom().contains(t) <==> some_failed(then_records, t));
                if some_failed(then_records, t) {
                    let x = choose|x: int|
                        0 <= x < then_records.len() && text::views(
                            (#[trigger] then_records[x]).failed_targets@,
                        ).contains(t);
                    assert(now[x] == then_records[x]);
                }
                if text::views(failed@).contains(t) {
                    assert(now[i as int].failed_targets@ == failed@);
                }
                if some_failed(now, t) {
                    let x = choose|x: int|
                        0 <= x < now.len() && text::views(
                            (#[trigger] now[x]).failed_targets@,
                        ).contains(t);
                    if x < i {
                        assert(now[x] == then_records[x]);
                    }
                }
            }
        }
        i = i + 1;
    }
    let r: Vec<String> = keys_list(&set);
    proof {
        assert(records@.take(records@.len() as int) =~= records@);
        assert forall|t: Seq<char>| #[trigger]
            text::views(r@).contains(t) <==> some_failed(records@, t) by {
            assert(set.has(t) <==> set@.dom().contains(t));
        }
    }
    r
}

/// Sums up the window: the walltime rows in scope plus, when any commit carries
/// instructions data for a row in scope, the instructions series. A row is in
/// scope when its subject matches one of `subjects` and its full key one of
/// `keys`.
pub fn build_summary(
    records: &[CommitRecord],
    subjects: &Vec<String>,
    keys: &Vec<String>,
) -> (s: DigestSummary)
    requires
        all_numeric(records@),
    ensures
        is_summary(s, records@, scope_of(subjects@, keys@)),
{
    let ghost scope = scope_of(subjects@, keys@);
    let mut commits: Vec<String> = Vec::new();
    let mut i: usize = 0;
    while i < records.len()
        invariant
            i <= records@.len(),
            text::views(commits@) == commits_of(records@).take(i as int),
        decreases records@.len() - i,
    {
        let commit: String = records[i].commit.clone();
        proof {
            let all = commits_of(records@);
            text::lemma_views_push(commits@, commit);
            assert(all.take(i + 1) =~= all.take(i as int).push(all[i as int]));
        }
        commits.push(commit);
        i = i + 1;
    }
    proof {
        let all = commits_of(records@);
        assert(all.take(all.len() as int) =~= all);
    }
    let rows: Vec<SummaryRow> = collect_series(records, subjects, keys, Lane::Walltime);
    let instr_rows: Vec<SummaryRow> = collect_series(records, subjects, keys, Lane::Instructions);
    proof {
        if instr_rows@.len() == 0 {
            assert forall|key: Seq<char>| !has_points(
                records@,
                key,
                scope,
                Lane::Instructions,
            ) by {}
        }
    }
    let instr_series: Option<Vec<SummaryRow>> = if instr_rows.len() == 0 {
        None
    } else {
        Some(instr_rows)
    };
    let n: usize = records.len();
    let first_commit: String = if n == 0 {
        String::new()
    } else {
        records[0].commit.clone()
    };
    let last_commit: String = if n == 0 {
        String::new()
    } else {
        records[n - 1].commit.clone()
    };
    DigestSummary {
        commits,
        first_commit,
        last_commit,
        rows,
        failed_targets: failed_union(records),
        instr_series,
    }
}

/// A window whose rows carry no instructions ratio has no instructions series.
pub proof fn law_lane_off_windows_have_no_instr_series(
    s: DigestSummary,
    records: Seq<CommitRecord>,
    scope: Scope,
)
    requires
        is_summary(s, records, scope),
        forall|i: int, g: int, r: int|
            0 <= i < records.len() && 0 <= g < records[i].groups.keys().len() && 0 <= r
                < records[i].groups.nth(g).keys().len() ==> lane_ratio(
                #[trigger] records[i].groups.nth(g).nth(r),
                Lane::Instructions,
            ) is None,
    ensures
        s.instr_series is None,
{
    if s.instr_series is Some {
        let rows = s.instr_series->0@;
        let key = rows[0].row_key@;
        assert(has_points(records, key, scope, Lane::Instructions));
        let i = choose|i: int|
            0 <= i < records.len() && (#[trigger] points(
                records[i],
                scope,
                Lane::Instructions,
            )).dom().contains(key);
        lemma_no_points(records[i], records[i].groups.keys().len(), scope, Lane::Instructions);
    }
}

proof fn lemma_no_points(record: CommitRecord, n: nat, scope: Scope, lane: Lane)
    requires
        n <= record.groups.keys().len(),
        forall|g: int, r: int|
            0 <= g < record.groups.keys().len() && 0 <= r < record.groups.nth(g).keys().len()
                ==> lane_ratio(#[trigger] record.groups.nth(g).nth(r), lane) is None,
    ensures
        points_upto(record.groups, n, scope, lane) == Map::<Seq<char>, Double>::empty(),
    decreases n,
{
    if n > 0 {
        lemma_no_points(record, (n - 1) as nat, scope, lane);
        let rows = record.groups.nth(n - 1);
        lemma_no_group_points(record.groups.keys()[n - 1], rows, rows.keys().len(), scope, lane);
        assert(points_upto(record.groups, n, scope, lane) =~= Map::empty());
    }
}

proof fn lemma_no_group_points(
    group: Seq<char>,
    rows: StrMap<RowRecord>,
    n: nat,
    scope: Scope,
    lane: Lane,
)
    requires
        n <= rows.keys().len(),
        forall|r: int|
            0 <= r < rows.keys().len() ==> lane_ratio(#[trigger] rows.nth(r), lane) is None,
    ensures
        group_points(group, rows, n, scope, lane) == Map::<Seq<char>, Double>::empty(),
    decreases n,
{
    if n > 0 {
        lemma_no_group_points(group, rows, (n - 1) as nat, scope, lane);
        assert(lane_ratio(rows.nth(n - 1), lane) is None);
    }
}

/// Every series has one entry per commit of the window.
pub proof fn law_series_cover_the_window(
    rows: Seq<SummaryRow>,
    records: Seq<CommitRecord>,
    scope: Scope,
    lane: Lane,
    i: int,
)
    requires
        is_table(rows, records, scope, lane),
        0 <= i < rows.len(),
    ensures
        rows[i].ratios@.len() == records.len(),
        rows[i].median is Some,
        rows[i].first is Some,
        rows[i].last is Some,
{
    let row = rows[i];
    let key = row.row_key@;
    let ratios = series(records, key, scope, lane);
    assert(has_points(records, key, scope, lane));
    let x = choose|x: int|
        0 <= x < records.len() && (#[trigger] points(records[x], scope, lane)).dom().contains(key);
    assert(ratios[x] is Some);
    lemma_present_nonempty(ratios, x);
}

proof fn lemma_present_nonempty(ratios: Seq<Option<Double>>, x: int)
    requires
        0 <= x < ratios.len(),
        ratios[x] is Some,
    ensures
        present(ratios).len() > 0,
    decreases ratios.len(),
{
    if ratios.last() is None {
        lemma_present_nonempty(ratios.drop_last(), x);
    }
}

/// Summary rows run from the biggest median to the smallest.
pub proof fn law_rows_run_from_the_biggest_median(
    rows: Seq<SummaryRow>,
    records: Seq<CommitRecord>,
    scope: Scope,
    lane: Lane,
    i: int,
    j: int,
)
    requires
        is_table(rows, records, scope, lane),
        0 <= i < j < rows.len(),
        !rows[i].median->0.nan(),
        !rows[j].median->0.nan(),
    ensures
        rows[j].median->0.le_spec(rows[i].median->0),
{
    law_series_cover_the_window(rows, records, scope, lane, i);
    law_series_cover_the_window(rows, records, scope, lane, j);
    assert(rows[i].before(rows[j]));
}

// ---------------------------------------------------------------------------
// Alert rings
// ---------------------------------------------------------------------------

/// Does a ratio lie more than `pct` percent above the median of what was seen?
pub open spec fn rings(seen: Seq<Double>, ratio: Double, pct: Double) -> bool {
    let m = state::median_spec(seen);
    seen.len() > 0 && Double { bits: 0 }.lt_spec(m) && pct.lt_spec(state::pct_over_spec(ratio, m))
}

/// Which points ring: each is held against the points before it.
pub open spec fn marks(ratios: Seq<Option<Double>>, pct: Double) -> Seq<bool> {
    Seq::new(
        ratios.len(),
        |i: int|
            match ratios[i] {
                Some(r) => rings(present(ratios.take(i)), r, pct),
                None => false,
            },
    )
}

/// Marks the points of a ratio series that sit more than `threshold_pct` above
/// the median of the points before them — the trend chart's red rings. A
/// window-local approximation of the live check, good enough for a visual cue.
pub fn alert_markers(ratios: &Vec<Option<Double>>, threshold_pct: Double) -> (r: Vec<bool>)
    requires
        forall|i: int|
            0 <= i < ratios@.len() ==> (match #[trigger] ratios@[i] {
                Some(r) => !r.nan(),
                None => true,
            }),
    ensures
        r@ == marks(ratios@, threshold_pct),
{
    let mut seen: Vec<Double> = Vec::new();
    let mut out: Vec<bool> = Vec::new();
    let mut i: usize = 0;
    while i < ratios.len()
        invariant
            i <= ratios@.len(),
            forall|j: int|
                0 <= j < ratios@.len() ==> (match #[trigger] ratios@[j] {
                    Some(r) => !r.nan(),
                    None => true,
                }),
            forall|j: int| 0 <= j < seen@.len() ==> !(#[trigger] seen@[j]).nan(),
            seen@ == present(ratios@.take(i as int)),
            out@ == marks(ratios@, threshold_pct).take(i as int),
        decreases ratios@.len() - i,
    {
        proof {
            assert(ratios@.take(i + 1).drop_last() =~= ratios@.take(i as int));
            assert(ratios@.take(i + 1).last() == ratios@[i as int]);
        }
        let ghost all = marks(ratios@, threshold_pct);
        match ratios[i] {
            Some(r) => {
                let alert: bool = match median_of(&seen) {
                    Some(m) => Double { bits: 0 }.lt(m) && threshold_pct.lt(
                        r.minus(m).over(m).times(Double { bits: double::HUNDRED }),
                    ),
                    None => false,
                };
                seen.push(r);
                assert(all[i as int] == alert);
                assert(all.take(i + 1) =~= all.take(i as int).push(alert));
                out.push(alert);
            },
            None => {
                assert(all[i as int] == false);
                assert(all.take(i + 1) =~= all.take(i as int).push(false));
                out.push(false);
            },
        }
        i = i + 1;
    }
    proof {
        let all = marks(ratios@, threshold_pct);
        assert(all.take(all.len() as int) =~= all);
    }
    out
}

/// The first point of a series never rings.
pub proof fn law_first_point_never_rings(ratios: Seq<Option<Double>>, pct: Double, i: int)
    requires
        0 <= i < ratios.len(),
        forall|j: int| 0 <= j < i ==> (#[trigger] ratios[j]) is None,
    ensures
        !marks(ratios, pct)[i],
{
    lemma_nothing_present(ratios.take(i));
}

proof fn lemma_nothing_present(ratios: Seq<Option<Double>>)
    requires
        forall|j: int| 0 <= j < ratios.len() ==> (#[trigger] ratios[j]) is None,
    ensures
        present(ratios).len() == 0,
    decreases ratios.len(),
{
    if ratios.len() > 0 {
        assert(ratios[ratios.len() - 1] is None);
        lemma_nothing_present(ratios.drop_last());
    }
}

/// Whether a point rings depends on the ratios up to it alone: a longer window
/// moves no ring.
pub proof fn law_rings_look_back_only(
    a: Seq<Option<Double>>,
    b: Seq<Option<Double>>,
    pct: Double,
    i: int,
)
    requires
        0 <= i < a.len(),
        i < b.len(),
        a.take(i + 1) == b.take(i + 1),
    ensures
        marks(a, pct)[i] == marks(b, pct)[i],
{
    assert(a.take(i + 1)[i] == a[i] && b.take(i + 1)[i] == b[i]);
    assert(a.take(i) =~= a.take(i + 1).take(i));
    assert(b.take(i) =~= b.take(i + 1).take(i));
}

// ---------------------------------------------------------------------------
// Trend charts
// ---------------------------------------------------------------------------

/// A trend chart to draw.
#[derive(Debug, Clone, PartialEq)]
pub struct TrendChart {
    pub path: String,
    pub title: String,
    /// Names the value axis for the lane.
    pub y_desc: String,
    /// Short shas, oldest first.
    pub commit_labels: Vec<String>,
    pub series: Vec<TrendSeries>,
}

/// The walltime trend chart's y-axis label for `baseline`.
pub fn walltime_y_desc(baseline: &str) -> (r: String)
    ensures
        r@ == "time ratio vs "@ + baseline@ + " — lower is better"@,
{
    text::cat3("time ratio vs ", baseline, " — lower is better")
}

/// The instructions trend chart's y-axis label for `baseline`.
pub fn instr_y_desc(baseline: &str) -> (r: String)
    ensures
        r@ == "instruction ratio vs "@ + baseline@ + " — lower is better"@,
{
    text::cat3("instruction ratio vs ", baseline, " — lower is better")
}

/// The y-axis label of a lane's chart.
pub open spec fn y_desc_spec(lane: Lane, baseline: Seq<char>) -> Seq<char> {
    match lane {
        Lane::Walltime => "time ratio vs "@ + baseline + " — lower is better"@,
        Lane::Instructions => "instruction ratio vs "@ + baseline + " — lower is better"@,
    }
}

pub open spec fn can_shorten_all(records: Seq<CommitRecord>) -> bool {
    forall|i: int| 0 <= i < records.len() ==> storage::can_shorten((#[trigger] records[i]).commit@)
}

/// The short shas of a window.
pub open spec fn labels(records: Seq<CommitRecord>) -> Seq<Seq<char>> {
    records.map_values(|r: CommitRecord| storage::short_spec(r.commit@))
}

/// Is `chart` the chart of a table: its biggest rows, capped, with rings on the
/// points that tripped `pct`?
pub open spec fn is_trend_chart(
    chart: TrendChart,
    records: Seq<CommitRecord>,
    rows: Seq<SummaryRow>,
    pct: Double,
) -> bool {
    &&& text::views(chart.commit_labels@) == labels(records)
    &&& chart.series@.len() == (if rows.len() < TREND_MAX_SERIES {
        rows.len()
    } else {
        TREND_MAX_SERIES as nat
    })
    &&& forall|i: int|
        0 <= i < chart.series@.len() ==> (#[trigger] chart.series@[i]).label@ == rows[i].row_key@
            && chart.series@[i].ratios@ == rows[i].ratios@ && chart.series@[i].alerts@ == marks(
            rows[i].ratios@,
            pct,
        )
}

pub open spec fn rows_numeric(rows: Seq<SummaryRow>) -> bool {
    forall|i: int, j: int|
        0 <= i < rows.len() && 0 <= j < rows[i].ratios@.len() ==> (
        match #[trigger] rows[i].ratios@[j] {
            Some(r) => !r.nan(),
            None => true,
        })
}

/// The chart of one lane's summary rows: the biggest-overhead rows, capped so
/// that it stays readable.
fn trend_chart(
    path: String,
    title: String,
    y_desc: String,
    records: &[CommitRecord],
    rows: &Vec<SummaryRow>,
    threshold_pct: Double,
) -> (chart: TrendChart)
    requires
        can_shorten_all(records@),
        rows_numeric(rows@),
    ensures
        chart.path == path,
        chart.title == title,
        chart.y_desc == y_desc,
        is_trend_chart(chart, records@, rows@, threshold_pct),
{
    let mut commit_labels: Vec<String> = Vec::new();
    let mut i: usize = 0;
    while i < records.len()
        invariant
            i <= records@.len(),
            can_shorten_all(records@),
            text::views(commit_labels@) == labels(records@).take(i as int),
        decreases records@.len() - i,
    {
        let label: String = records[i].short_sha().to_string();
        proof {
            let all = labels(records@);
            text::lemma_views_push(commit_labels@, label);
            assert(all.take(i + 1) =~= all.take(i as int).push(all[i as int]));
        }
        commit_labels.push(label);
        i = i + 1;
    }
    proof {
        let all = labels(records@);
        assert(all.take(all.len() as int) =~= all);
    }
    let mut series: Vec<TrendSeries> = Vec::new();
    let mut j: usize = 0;
    while j < rows.len() && j < TREND_MAX_SERIES
        invariant
            j <= rows@.len(),
            j <= TREND_MAX_SERIES,
            rows_numeric(rows@),
            series@.len() == j,
            forall|k: int|
                0 <= k < j ==> (#[trigger] series@[k]).label@ == rows@[k].row_key@
                    && series@[k].ratios@ == rows@[k].ratios@ && series@[k].alerts@ == marks(
                    rows@[k].ratios@,
                    threshold_pct,
                ),
        decreases rows@.len() - j,
    {
        let row: &SummaryRow = &rows[j];
        assert forall|k: int| 0 <= k < row.ratios@.len() implies (match #[trigger] row.ratios@[k] {
            Some(r) => !r.nan(),
            None => true,
        }) by {
            assert(rows@[j as int].ratios@[k] == row.ratios@[k]);
        }
        let mut ratios: Vec<Option<Double>> = Vec::new();
        let mut k: usize = 0;
        while k < row.ratios.len()
            invariant
                k <= row.ratios@.len(),
                ratios@ == row.ratios@.take(k as int),
            decreases row.ratios@.len() - k,
        {
            let r: Option<Double> = row.ratios[k];
            ratios.push(r);
            assert(row.ratios@.take(k + 1) =~= row.ratios@.take(k as int).push(r));
            k = k + 1;
        }
        assert(row.ratios@.take(row.ratios@.len() as int) =~= row.ratios@);
        let alerts: Vec<bool> = alert_markers(&row.ratios, threshold_pct);
        series.push(TrendSeries { label: row.row_key.clone(), ratios, alerts });
        j = j + 1;
    }
    TrendChart { path, title, y_desc, commit_labels, series }
}

/// The ratios of a table over numeric records are numbers.
proof fn lemma_table_numeric(
    rows: Seq<SummaryRow>,
    records: Seq<CommitRecord>,
    scope: Scope,
    lane: Lane,
)
    requires
        is_table(rows, records, scope, lane),
        all_numeric(records),
    ensures
        rows_numeric(rows),
{
    assert forall|i: int, j: int|
        0 <= i < rows.len() && 0 <= j < rows[i].ratios@.len() implies (
    match #[trigger] rows[i].ratios@[j] {
        Some(r) => !r.nan(),
        None => true,
    }) by {
        let key = rows[i].row_key@;
        assert(is_summary_row(rows[i], records, scope, lane));
        lemma_series_numeric(records, key, scope, lane);
        assert(series(records, key, scope, lane)[j] == rows[i].ratios@[j]);
    }
}

// ---------------------------------------------------------------------------
// The automatic digest
// ---------------------------------------------------------------------------

/// What a digest holds and where it goes: the summary, then its charts.
#[derive(Debug, Clone, PartialEq)]
pub struct DigestOutcome {
    pub dir: String,
    pub summary: DigestSummary,
    /// The walltime chart, and the instructions chart where the window carries
    /// instructions data.
    pub charts: Vec<TrendChart>,
}

/// The scope of the headline family: matching subjects, any key.
pub open spec fn headline_scope(headline: Seq<Seq<char>>) -> Scope {
    Scope { subjects: headline, keys: seq!["*"@] }
}

/// `<repo> headline (<label>) — last <n> commits`.
pub open spec fn digest_title(repo: Seq<char>, label: Seq<char>, n: nat) -> Seq<char> {
    repo + " headline ("@ + label + ") — last "@ + numerals::digits(n, 10) + " commits"@
}

/// Does the window have a row to sum up?
pub open spec fn any_points(records: Seq<CommitRecord>, scope: Scope, lane: Lane) -> bool {
    exists|key: Seq<char>| #[trigger] has_points(records, key, scope, lane)
}

/// Why a digest of these records cannot be had.
pub open spec fn digest_fault(
    records: Seq<CommitRecord>,
    headline_label: Seq<char>,
    scope: Scope,
) -> Option<Seq<char>> {
    if records.len() == 0 {
        Some("digest requested with no commit records"@)
    } else if !any_points(records, scope, Lane::Walltime) {
        Some(
            "digest window has no '"@ + headline_label
                + "' rows with a baseline ratio — nothing to summarize"@,
        )
    } else {
        match dates::day_spec(records.last().date@) {
            Ok(_) => None,
            Err(e) => Some(e),
        }
    }
}

/// Is this the digest of a window?
pub open spec fn is_digest(
    d: DigestOutcome,
    store: RepoStore,
    repo: Seq<char>,
    label: Seq<char>,
    scope: Scope,
    pct: Double,
    instr_pct: Double,
    records: Seq<CommitRecord>,
) -> bool {
    let baseline = records.last().baseline_subject@;
    let title = digest_title(repo, label, records.len());
    let day = dates::day_spec(records.last().date@)->Ok_0;
    &&& is_summary(d.summary, records, scope)
    &&& d.dir@ == paths::join_spec(
        store.under("digests"@),
        storage::window_name(day, records[0].commit@, records.last().commit@),
    )
    &&& d.charts@.len() == (if d.summary.instr_series is Some {
        2nat
    } else {
        1
    })
    &&& d.charts@[0].path@ == paths::join_spec(d.dir@, "trend.png"@)
    &&& d.charts@[0].title@ == title
    &&& d.charts@[0].y_desc@ == y_desc_spec(Lane::Walltime, baseline)
    &&& is_trend_chart(d.charts@[0], records, d.summary.rows@, pct)
    &&& d.summary.instr_series matches Some(rows) ==> {
        &&& d.charts@[1].path@ == paths::join_spec(d.dir@, "instr_trend.png"@)
        &&& d.charts@[1].title@ == title + " — instructions"@
        &&& d.charts@[1].y_desc@ == y_desc_spec(Lane::Instructions, baseline)
        &&& is_trend_chart(d.charts@[1], records, rows@, instr_pct)
    }
}

/// The pattern list that matches everything.
fn everything() -> (r: Vec<String>)
    ensures
        text::views(r@) == seq!["*"@],
{
    let mut all: Vec<String> = Vec::new();
    all.push("*".to_string());
    assert(text::views(all@) =~= seq!["*"@]);
    all
}

/// Lays out the digest of the window's records (oldest first): its directory,
/// its summary and its charts.
pub fn build_digest(
    store: &RepoStore,
    repo_name: &str,
    headline_label: &str,
    headline: &Vec<String>,
    regression_threshold_pct: Double,
    instr_regression_threshold_pct: Double,
    records: &[CommitRecord],
) -> (r: Result<DigestOutcome, String>)
    requires
        all_numeric(records@),
        can_shorten_all(records@),
    ensures
        match r {
            Ok(d) => digest_fault(
                records@,
                headline_label@,
                headline_scope(text::views(headline@)),
            ) is None && is_digest(
                d,
                *store,
                repo_name@,
                headline_label@,
                headline_scope(text::views(headline@)),
                regression_threshold_pct,
                instr_regression_threshold_pct,
                records@,
            ),
            Err(e) => digest_fault(
                records@,
                headline_label@,
                headline_scope(text::views(headline@)),
            ) == Some(e@),
        },
{
    let n: usize = records.len();
    if n == 0 {
        return Err("digest requested with no commit records".to_string());
    }
    let keys: Vec<String> = everything();
    let ghost scope = headline_scope(text::views(headline@));
    let summary: DigestSummary = build_summary(records, headline, &keys);
    assert(scope_of(headline@, keys@) == scope);
    if summary.rows.len() == 0 {
        proof {
            assert forall|key: Seq<char>| !(#[trigger] has_points(
                records@,
                key,
                scope,
                Lane::Walltime,
            )) by {}
        }
        return Err(
            text::cat3(
                "digest window has no '",
                headline_label,
                "' rows with a baseline ratio — nothing to summarize",
            ),
        );
    }
    proof {
        assert(has_points(records@, summary.rows@[0].row_key@, scope, Lane::Walltime));
        lemma_table_numeric(summary.rows@, records@, scope, Lane::Walltime);
        if summary.instr_series is Some {
            lemma_table_numeric(summary.instr_series->0@, records@, scope, Lane::Instructions);
        }
    }
    let last: &CommitRecord = &records[n - 1];
    let day: String = match last.day() {
        Ok(day) => day,
        Err(e) => {
            return Err(e);
        },
    };
    let dir: String = store.digest_dir(
        day.as_str(),
        records[0].commit.as_str(),
        last.commit.as_str(),
    );
    let count: String = numerals::decimal(n as u64);
    let title: String = text::cat6(
        repo_name,
        " headline (",
        headline_label,
        ") — last ",
        count.as_str(),
        " commits",
    );
    let baseline: &str = last.baseline_subject.as_str();
    let mut charts: Vec<TrendChart> = Vec::new();
    charts.push(
        trend_chart(
            paths::join(dir.as_str(), "trend.png"),
            title.clone(),
            walltime_y_desc(baseline),
            records,
            &summary.rows,
            regression_threshold_pct,
        ),
    );
    match &summary.instr_series {
        Some(instr_rows) => {
            charts.push(
                trend_chart(
                    paths::join(dir.as_str(), "instr_trend.png"),
                    text::cat2(title.as_str(), " — instructions"),
                    instr_y_desc(baseline),
                    records,
                    instr_rows,
                    instr_regression_threshold_pct,
                ),
            );
        },
        None => {},
    }
    Ok(DigestOutcome { dir, summary, charts })
}

// ---------------------------------------------------------------------------
// Windows
// ---------------------------------------------------------------------------

/// Position of the first record whose sha starts with `prefix`.
pub open spec fn find_commit(records: Seq<CommitRecord>, prefix: Seq<char>) -> Option<int>
    decreases records.len(),
{
    if records.len() == 0 {
        None
    } else if text::has_prefix(records[0].commit@, prefix) {
        Some(0)
    } else {
        match find_commit(records.drop_first(), prefix) {
            Some(i) => Some(i + 1),
            None => None,
        }
    }
}

/// The bounds of a window (the second one excluded), or why there is none.
pub open spec fn window_spec(
    records: Seq<CommitRecord>,
    last: nat,
    from: Option<Seq<char>>,
    to: Option<Seq<char>>,
) -> Result<(int, int), Seq<char>> {
    if from is None && to is None {
        if last == 0 {
            Err("--last must be >= 1"@)
        } else if records.len() <= last {
            Ok((0, records.len() as int))
        } else {
            Ok((records.len() - last, records.len() as int))
        }
    } else if from is Some && find_commit(records, from->0) is None {
        Err(no_match(from->0))
    } else if to is Some && find_commit(records, to->0) is None {
        Err(no_match(to->0))
    } else {
        let lo = if from is Some {
            find_commit(records, from->0)->0
        } else {
            0
        };
        let hi = if to is Some {
            find_commit(records, to->0)->0
        } else {
            records.len() - 1
        };
        if lo > hi {
            Err("--from is newer than --to (the window runs oldest to newest)"@)
        } else {
            Ok((lo, hi + 1))
        }
    }
}

pub open spec fn no_match(prefix: Seq<char>) -> Seq<char> {
    "no stored commit matches '"@ + prefix + "'"@
}

pub proof fn lemma_find_commit_bound(records: Seq<CommitRecord>, prefix: Seq<char>)
    ensures
        find_commit(records, prefix) matches Some(i) ==> 0 <= i < records.len()
            && text::has_prefix(records[i].commit@, prefix),
    decreases records.len(),
{
    if records.len() > 0 && !text::has_prefix(records[0].commit@, prefix) {
        lemma_find_commit_bound(records.drop_first(), prefix);
    }
}

fn commit_position(records: &Vec<CommitRecord>, prefix: &str) -> (r: Option<usize>)
    ensures
        match r {
            Some(i) => i < records@.len() && find_commit(records@, prefix@) == Some(i as int),
            None => find_commit(records@, prefix@) is None,
        },
{
    let mut i: usize = 0;
    assert(records@.skip(0) =~= records@);
    while i < records.len()
        invariant
            i <= records@.len(),
            find_commit(records@, prefix@) == (match find_commit(
                records@.skip(i as int),
                prefix@,
            ) {
                Some(k) => Some(k + i),
                None => None,
            }),
        decreases records@.len() - i,
    {
        assert(records@.skip(i as int)[0] == records@[i as int]);
        if text::starts_with(records[i].commit.as_str(), prefix) {
            return Some(i);
        }
        assert(records@.skip(i as int).drop_first() =~= records@.skip(i + 1));
        i = i + 1;
    }
    assert(records@.skip(i as int).len() == 0);
    None
}

pub open spec fn str_view(s: Option<&str>) -> Option<Seq<char>> {
    match s {
        Some(s) => Some(s@),
        None => None,
    }
}

/// Cuts a window out of the stored records (oldest first): `from`/`to` are
/// inclusive sha prefixes and take precedence; otherwise the most recent `last`
/// records.
pub fn select_window(
    records: Vec<CommitRecord>,
    last: usize,
    from: Option<&str>,
    to: Option<&str>,
) -> (r: Result<Vec<CommitRecord>, String>)
    ensures
        match r {
            Ok(window) => match window_spec(records@, last as nat, str_view(from), str_view(to)) {
                Ok((lo, hi)) => 0 <= lo <= hi <= records@.len() && window@ == records@.subrange(
                    lo,
                    hi,
                ),
                Err(_) => false,
            },
            Err(e) => window_spec(records@, last as nat, str_view(from), str_view(to)) == Result::<
                (int, int),
                Seq<char>,
            >::Err(e@),
        },
{
    let n: usize = records.len();
    let mut lo: usize = 0;
    let mut hi: usize = n;
    if from.is_none() && to.is_none() {
        if last == 0 {
            return Err("--last must be >= 1".to_string());
        }
        if n > last {
            lo = n - last;
        }
    } else {
        match from {
            Some(prefix) => match commit_position(&records, prefix) {
                Some(i) => {
                    lo = i;
                },
                None => {
                    return Err(text::cat3("no stored commit matches '", prefix, "'"));
                },
            },
            None => {},
        }
        match to {
            Some(prefix) => match commit_position(&records, prefix) {
                Some(i) => {
                    hi = i + 1;
                },
                None => {
                    return Err(text::cat3("no stored commit matches '", prefix, "'"));
                },
            },
            None => {},
        }
        if lo >= hi {
            return Err(
                "--from is newer than --to (the window runs oldest to newest)".to_string(),
            );
        }
    }
    let mut window: Vec<CommitRecord> = records;
    window.truncate(hi);
    let cut: Vec<CommitRecord> = window.split_off(lo);
    assert(cut@ =~= records@.subrange(lo as int, hi as int));
    Ok(cut)
}

// ---------------------------------------------------------------------------
// Ad-hoc trends
// ---------------------------------------------------------------------------

/// What an ad-hoc trend holds and where it goes.
#[derive(Debug, Clone, PartialEq)]
pub struct TrendOutcome {
    pub dir: String,
    /// Row keys that made it into the chosen lane's series, biggest median
    /// first.
    pub rows: Vec<String>,
    /// Full shas of the window, oldest first.
    pub commits: Vec<String>,
    pub summary: DigestSummary,
    pub chart: TrendChart,
}

/// Row/output selection for [`build_adhoc_trend`].
#[derive(Debug, Clone, PartialEq)]
pub struct TrendRequest {
    /// Row keys to chart (exact or trailing `*`); empty = the headline family.
    pub row_patterns: Vec<String>,
    /// Explicit output directory; none = `trends/<day>-<first>..<last>`.
    pub out: Option<String>,
}

/// Row patterns widen the scope to every subject and narrow it by key; without
/// them it is the headline family.
pub open spec fn trend_scope(headline: Seq<Seq<char>>, patterns: Seq<Seq<char>>) -> Scope {
    if patterns.len() == 0 {
        headline_scope(headline)
    } else {
        Scope { subjects: seq!["*"@], keys: patterns }
    }
}

/// What the scope is called in titles and messages.
pub open spec fn scope_name(headline_label: Seq<char>, patterns: Seq<Seq<char>>) -> Seq<char> {
    if patterns.len() == 0 {
        headline_label
    } else {
        text::join_spec(patterns, ", "@)
    }
}

/// Why an ad-hoc trend of these records cannot be had.
pub open spec fn trend_fault(
    records: Seq<CommitRecord>,
    scope: Scope,
    name: Seq<char>,
    metric: Lane,
    out: Option<Seq<char>>,
) -> Option<Seq<char>> {
    if records.len() == 0 {
        Some("no stored commit records in the requested window"@)
    } else if out is None && dates::day_spec(records.last().date@) is Err {
        Some(dates::day_spec(records.last().date@)->Err_0)
    } else if any_points(records, scope, metric) {
        None
    } else {
        match metric {
            Lane::Walltime => Some(
                "no '"@ + name + "' rows with a baseline ratio in the requested window"@,
            ),
            Lane::Instructions => Some(
                "no '"@ + name + "' rows with an instructions ratio in the requested window — "@
                    + "is the instructions lane enabled for these commits?"@,
            ),
        }
    }
}

/// `<repo> (<scope>) — <first>..<last> (<n> commits)`, with the lane named
/// where it is not walltime.
pub open spec fn trend_title(
    repo: Seq<char>,
    name: Seq<char>,
    metric: Lane,
    records: Seq<CommitRecord>,
) -> Seq<char> {
    let lead = match metric {
        Lane::Walltime => ") — "@,
        Lane::Instructions => ") — instructions — "@,
    };
    let window = storage::short_spec(records[0].commit@) + ".."@ + storage::short_spec(
        records.last().commit@,
    ) + " ("@ + numerals::digits(records.len(), 10) + " commits)"@;
    repo + " ("@ + name + lead + window
}

/// The rows of a summary that a lane's chart shows.
pub open spec fn lane_rows(s: DigestSummary, lane: Lane) -> Seq<SummaryRow> {
    match lane {
        Lane::Walltime => s.rows@,
        Lane::Instructions => match s.instr_series {
            Some(rows) => rows@,
            None => Seq::empty(),
        },
    }
}

pub open spec fn row_keys(rows: Seq<SummaryRow>) -> Seq<Seq<char>> {
    rows.map_values(|r: SummaryRow| r.row_key@)
}

/// Is this the ad-hoc trend of a window?
pub open spec fn is_trend(
    t: TrendOutcome,
    store: RepoStore,
    repo: Seq<char>,
    scope: Scope,
    name: Seq<char>,
    pct: Double,
    metric: Lane,
    records: Seq<CommitRecord>,
    out: Option<Seq<char>>,
) -> bool {
    let last = records.last();
    &&& is_summary(t.summary, records, scope)
    &&& t.dir@ == (match out {
        Some(dir) => dir,
        None => paths::join_spec(
            store.under("trends"@),
            storage::window_name(
                dates::day_spec(last.date@)->Ok_0,
                records[0].commit@,
                last.commit@,
            ),
        ),
    })
    &&& text::views(t.commits@) == commits_of(records)
    &&& text::views(t.rows@) == row_keys(lane_rows(t.summary, metric))
    &&& t.chart.path@ == paths::join_spec(
        t.dir@,
        (match metric {
            Lane::Walltime => "trend.png"@,
            Lane::Instructions => "instr_trend.png"@,
        }),
    )
    &&& t.chart.title@ == trend_title(repo, name, metric, records)
    &&& t.chart.y_desc@ == y_desc_spec(metric, last.baseline_subject@)
    &&& is_trend_chart(t.chart, records, lane_rows(t.summary, metric), pct)
}

fn keys_of_rows(rows: &Vec<SummaryRow>) -> (r: Vec<String>)
    ensures
        text::views(r@) == row_keys(rows@),
{
    let mut out: Vec<String> = Vec::new();
    let mut i: usize = 0;
    while i < rows.len()
        invariant
            i <= rows@.len(),
            text::views(out@) == row_keys(rows@).take(i as int),
        decreases rows@.len() - i,
    {
        let k: String = rows[i].row_key.clone();
        proof {
            let all = row_keys(rows@);
            text::lemma_views_push(out@, k);
            assert(all.take(i + 1) =~= all.take(i as int).push(all[i as int]));
        }
        out.push(k);
        i = i + 1;
    }
    proof {
        let all = row_keys(rows@);
        assert(all.take(all.len() as int) =~= all);
    }
    out
}

/// The manual counterpart of the digest: lays out the chart of an arbitrary
/// window of stored records. `metric` picks the lane that drives the
/// empty-window error, the chart and the returned row list; the summary
/// carries both series either way.
pub fn build_adhoc_trend(
    store: &RepoStore,
    repo_name: &str,
    headline_label: &str,
    headline: &Vec<String>,
    regression_threshold_pct: Double,
    instr_regression_threshold_pct: Double,
    metric: Lane,
    records: &[CommitRecord],
    request: &TrendRequest,
) -> (r: Result<TrendOutcome, String>)
    requires
        all_numeric(records@),
        can_shorten_all(records@),
    ensures
        ({
            let patterns = text::views(request.row_patterns@);
            let scope = trend_scope(text::views(headline@), patterns);
            let name = scope_name(headline_label@, patterns);
            let out = text::opt_view(request.out);
            let pct = match metric {
                Lane::Walltime => regression_threshold_pct,
                Lane::Instructions => instr_regression_threshold_pct,
            };
            match r {
                Ok(t) => trend_fault(records@, scope, name, metric, out) is None && is_trend(
                    t,
                    *store,
                    repo_name@,
                    scope,
                    name,
                    pct,
                    metric,
                    records@,
                    out,
                ),
                Err(e) => trend_fault(records@, scope, name, metric, out) == Some(e@),
            }
        }),
{
    let n: usize = records.len();
    if n == 0 {
        return Err("no stored commit records in the requested window".to_string());
    }
    let ghost patterns = text::views(request.row_patterns@);
    let ghost scope = trend_scope(text::views(headline@), patterns);
    let ghost name_spec = scope_name(headline_label@, patterns);
    let all: Vec<String> = everything();
    let whole_family: bool = request.row_patterns.len() == 0;
    let summary: DigestSummary = if whole_family {
        build_summary(records, headline, &all)
    } else {
        build_summary(records, &all, &request.row_patterns)
    };
    assert(is_summary(summary, records@, scope));
    let name: String = if whole_family {
        headline_label.to_string()
    } else {
        text::join(&request.row_patterns, ", ")
    };
    let last: &CommitRecord = &records[n - 1];
    let first_sha: &str = records[0].commit.as_str();
    let last_sha: &str = last.commit.as_str();
    let dir: String = match &request.out {
        Some(dir) => dir.clone(),
        None => match last.day() {
            Ok(day) => store.trend_dir(day.as_str(), first_sha, last_sha),
            Err(e) => {
                return Err(e);
            },
        },
    };
    let count: String = numerals::decimal(n as u64);
    let window: String = text::cat6(
        storage::short_sha(first_sha),
        "..",
        storage::short_sha(last_sha),
        " (",
        count.as_str(),
        " commits)",
    );
    let baseline: &str = last.baseline_subject.as_str();
    match metric {
        Lane::Walltime => {
            if summary.rows.len() == 0 {
                proof {
                    assert forall|key: Seq<char>| !(#[trigger] has_points(
                        records@,
                        key,
                        scope,
                        metric,
                    )) by {}
                }
                return Err(
                    text::cat3(
                        "no '",
                        name.as_str(),
                        "' rows with a baseline ratio in the requested window",
                    ),
                );
            }
            proof {
                assert(has_points(records@, summary.rows@[0].row_key@, scope, metric));
                lemma_table_numeric(summary.rows@, records@, scope, metric);
            }
            let chart: TrendChart = trend_chart(
                paths::join(dir.as_str(), "trend.png"),
                text::cat5(repo_name, " (", name.as_str(), ") — ", window.as_str()),
                walltime_y_desc(baseline),
                records,
                &summary.rows,
                regression_threshold_pct,
            );
            Ok(
                TrendOutcome {
                    dir,
                    rows: keys_of_rows(&summary.rows),
                    commits: text::copy_list(&summary.commits),
                    summary,
                    chart,
                },
            )
        },
        Lane::Instructions => match &summary.instr_series {
            Some(instr_rows) => {
                proof {
                    assert(has_points(records@, instr_rows@[0].row_key@, scope, metric));
                    lemma_table_numeric(instr_rows@, records@, scope, metric);
                }
                let chart: TrendChart = trend_chart(
                    paths::join(dir.as_str(), "instr_trend.png"),
                    text::cat5(
                        repo_name,
                        " (",
                        name.as_str(),
                        ") — instructions — ",
                        window.as_str(),
                    ),
                    instr_y_desc(baseline),
                    records,
                    instr_rows,
                    instr_regression_threshold_pct,
                );
                Ok(
                    TrendOutcome {
                        dir,
                        rows: keys_of_rows(instr_rows),
                        commits: text::copy_list(&summary.commits),
                        summary,
                        chart,
                    },
                )
            },
            None => Err(
                text::cat4(
                    "no '",
                    name.as_str(),
                    "' rows with an instructions ratio in the requested window — ",
                    "is the instructions lane enabled for these commits?",
                ),
            ),
        },
    }
}

} // verus!
