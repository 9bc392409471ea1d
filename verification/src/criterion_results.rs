//! Rows of criterion's result tree: where they lie, what they are keyed by,
//! and their ratios against a baseline subject.
use crate::double::Double;
use crate::keyed;
use crate::keyed::Keyed;
use crate::paths;
use crate::sorting;
use crate::sorting::Ranked;
use crate::text;
use vstd::prelude::*;

verus! {

/// One `(group, subject, workload)` row's summary stats and raw per-sample
/// per-call times (ns), the latter for distribution rendering.
#[derive(Debug, Clone, PartialEq)]
pub struct Row {
    pub group: String,
    pub subject: String,
    pub workload: String,
    pub mean_ns: Double,
    pub std_dev_ns: Double,
    pub samples_ns: Vec<Double>,
}

// ---------------------------------------------------------------------------
// Reading the tree
// ---------------------------------------------------------------------------

/// A directory listing, as deep as it was read.
pub struct DirNode {
    pub name: String,
    pub is_dir: bool,
    pub children: Vec<DirNode>,
}

/// Criterion lays benchmarks out at up to three levels below its directory:
/// `<name>/new` (bare `bench_function`), `<group>/<function>/new`, and
/// `<group>/<function>/<value>/new`.
pub const TREE_DEPTH: usize = 3;

/// The directories under `base` that may hold a benchmark: every directory
/// within `depth` levels but criterion's own `report` ones, each before what
/// lies below it.
pub open spec fn candidates_spec(nodes: Seq<DirNode>, base: Seq<char>, depth: nat) -> Seq<Seq<char>>
    decreases depth, nodes.len(),
{
    if depth == 0 || nodes.len() == 0 {
        Seq::empty()
    } else {
        let node = nodes.last();
        let path = paths::join_spec(base, node.name@);
        candidates_spec(nodes.drop_last(), base, depth) + (if node.is_dir && node.name@
            != "report"@ {
            seq![path] + candidates_spec(node.children@, path, (depth - 1) as nat)
        } else {
            Seq::empty()
        })
    }
}

/// The directories of a criterion tree to look for rows in, in listing order.
pub fn bench_dirs(nodes: &Vec<DirNode>, base: &str, depth: usize) -> (r: Vec<String>)
    ensures
        text::views(r@) == candidates_spec(nodes@, base@, depth as nat),
    decreases depth,
{
    let mut out: Vec<String> = Vec::new();
    if depth == 0 {
        assert(text::views(out@) =~= Seq::empty());
        return out;
    }
    let mut i: usize = 0;
    assert(text::views(out@) =~= candidates_spec(nodes@.take(0), base@, depth as nat));
    while i < nodes.len()
        invariant
            depth > 0,
            i <= nodes@.len(),
            text::views(out@) == candidates_spec(nodes@.take(i as int), base@, depth as nat),
        decreases nodes@.len() - i,
    {
        let ghost before = out@;
        proof {
            assert(nodes@.take(i + 1).drop_last() =~= nodes@.take(i as int));
            assert(nodes@.take(i + 1).last() == nodes@[i as int]);
        }
        let node: &DirNode = &nodes[i];
        if node.is_dir && !text::same(node.name.as_str(), "report") {
            let path: String = paths::join(base, node.name.as_str());
            let mut below: Vec<String> = bench_dirs(&node.children, path.as_str(), depth - 1);
            let ghost lower = below@;
            let ghost path_string = path;
            out.push(path);
            out.append(&mut below);
            proof {
                assert(out@ =~= before.push(path_string) + lower);
                assert(text::views(out@) =~= text::views(before) + (seq![path_string@]
                    + text::views(lower)));
            }
        } else {
            assert(text::views(out@) + Seq::<Seq<char>>::empty() =~= text::views(out@));
        }
        i = i + 1;
    }
    assert(nodes@.take(nodes@.len() as int) =~= nodes@);
    out
}

/// Subject and workload of a `function_id`: what lies before and after its
/// first `/`. An id without one has an empty workload.
pub open spec fn split_id(function_id: Seq<char>) -> (Seq<char>, Seq<char>) {
    match text::split_once_spec(function_id, '/') {
        Some((subject, workload)) => (subject, workload),
        None => (function_id, Seq::empty()),
    }
}

/// Splits criterion's `function_id` (e.g. `"revm_pinned/sstore_100"` or just
/// `"revm_pinned"`) into `(subject, workload)`.
pub fn split_function_id(function_id: &str) -> (r: (String, String))
    ensures
        (r.0@, r.1@) == split_id(function_id@),
{
    match text::split_once(function_id, '/') {
        Some((subject, workload)) => (subject, workload),
        None => (function_id.to_string(), String::new()),
    }
}

/// Subject and workload of a benchmark: a missing function id makes the group
/// double as the subject, and a value is folded into the workload.
pub open spec fn bench_key(
    group_id: Seq<char>,
    function_id: Option<Seq<char>>,
    value_str: Option<Seq<char>>,
) -> (Seq<char>, Seq<char>) {
    let (subject, workload) = match function_id {
        Some(id) => split_id(id),
        None => (group_id, Seq::empty()),
    };
    match value_str {
        Some(value) => (
            subject,
            if workload.len() == 0 {
                value
            } else {
                workload + "/"@ + value
            },
        ),
        None => (subject, workload),
    }
}

/// Per-call times: each sample's time over its iterations, as far as both
/// lists go.
pub open spec fn per_call(iters: Seq<Double>, times: Seq<Double>) -> Seq<Double> {
    let n = if iters.len() <= times.len() {
        iters.len()
    } else {
        times.len()
    };
    Seq::new(n, |i: int| times[i].div_spec(iters[i]))
}

/// What criterion's three files say of one benchmark.
#[derive(Debug, Clone, PartialEq)]
pub struct BenchFiles {
    pub group_id: String,
    /// Missing for bare `bench_function` benches and for
    /// `BenchmarkId::from_parameter` rows.
    pub function_id: Option<String>,
    /// Set for value-parameterized benches (`BenchmarkId::new(f, value)`).
    pub value_str: Option<String>,
    pub mean_ns: Double,
    pub std_dev_ns: Double,
    pub iters: Vec<Double>,
    pub times: Vec<Double>,
}

/// The row of one benchmark.
pub fn row_of(files: BenchFiles) -> (r: Row)
    ensures
        r.group@ == files.group_id@,
        (r.subject@, r.workload@) == bench_key(
            files.group_id@,
            text::opt_view(files.function_id),
            text::opt_view(files.value_str),
        ),
        r.mean_ns == files.mean_ns,
        r.std_dev_ns == files.std_dev_ns,
        r.samples_ns@ == per_call(files.iters@, files.times@),
{
    let (subject, id_workload) = match &files.function_id {
        Some(id) => split_function_id(id.as_str()),
        None => (files.group_id.clone(), String::new()),
    };
    let workload: String = match &files.value_str {
        Some(value) => if id_workload.as_str().is_empty() {
            value.clone()
        } else {
            text::cat3(id_workload.as_str(), "/", value.as_str())
        },
        None => id_workload,
    };
    let n: usize = if files.iters.len() <= files.times.len() {
        files.iters.len()
    } else {
        files.times.len()
    };
    let mut samples: Vec<Double> = Vec::new();
    while samples.len() < n
        invariant
            n <= files.iters@.len(),
            n <= files.times@.len(),
            n == per_call(files.iters@, files.times@).len(),
            samples@.len() <= n,
            samples@ == per_call(files.iters@, files.times@).take(samples@.len() as int),
        decreases n - samples@.len(),
    {
        let i: usize = samples.len();
        samples.push(files.times[i].over(files.iters[i]));
        assert(samples@ =~= per_call(files.iters@, files.times@).take(i + 1));
    }
    assert(samples@ =~= per_call(files.iters@, files.times@));
    Row {
        group: files.group_id,
        subject,
        workload,
        mean_ns: files.mean_ns,
        std_dev_ns: files.std_dev_ns,
        samples_ns: samples,
    }
}

// ---------------------------------------------------------------------------
// Keys
// ---------------------------------------------------------------------------

pub open spec fn row_key_spec(
    group: Seq<char>,
    subject: Seq<char>,
    workload: Seq<char>,
) -> Seq<char> {
    if workload.len() == 0 {
        group + "/"@ + subject
    } else {
        group + "/"@ + subject + "/"@ + workload
    }
}

/// The stable key of a row, e.g. `"salt_dynamic_gas/rex5_salt/sstore_100"`, or
/// `"empty_transaction/revm_pinned"` when the workload is empty.
pub fn row_key(group: &str, subject: &str, workload: &str) -> (r: String)
    ensures
        r@ == row_key_spec(group@, subject@, workload@),
{
    if workload.is_empty() {
        text::cat3(group, "/", subject)
    } else {
        text::cat5(group, "/", subject, "/", workload)
    }
}

/// The item of a workload: `group`, or `group/workload`.
pub open spec fn item_spec(group: Seq<char>, workload: Seq<char>) -> Seq<char> {
    if workload.len() == 0 {
        group
    } else {
        group + "/"@ + workload
    }
}

pub fn item_name(group: &str, workload: &str) -> (r: String)
    ensures
        r@ == item_spec(group@, workload@),
{
    if workload.is_empty() {
        group.to_string()
    } else {
        text::cat3(group, "/", workload)
    }
}

/// The `target/criterion` directory of a repo checkout.
pub fn criterion_dir_for(repo_checkout: &str) -> (r: String)
    ensures
        r@ == paths::join_spec(paths::join_spec(repo_checkout@, "target"@), "criterion"@),
{
    paths::join(paths::join(repo_checkout, "target").as_str(), "criterion")
}

// ---------------------------------------------------------------------------
// Ratios
// ---------------------------------------------------------------------------

/// What a ratio is computed from, in either lane.
pub trait RatioInput: Sized {
    spec fn group_of(self) -> String;

    spec fn subject_of(self) -> String;

    spec fn workload_of(self) -> String;

    spec fn value_of(self) -> Double;

    fn group(&self) -> (r: &String)
        ensures
            *r == self.group_of(),
    ;

    fn subject(&self) -> (r: &String)
        ensures
            *r == self.subject_of(),
    ;

    fn workload(&self) -> (r: &String)
        ensures
            *r == self.workload_of(),
    ;

    fn value(&self) -> (r: Double)
        ensures
            r == self.value_of(),
    ;
}

impl RatioInput for Row {
    open spec fn group_of(self) -> String {
        self.group
    }

    open spec fn subject_of(self) -> String {
        self.subject
    }

    open spec fn workload_of(self) -> String {
        self.workload
    }

    open spec fn value_of(self) -> Double {
        self.mean_ns
    }

    fn group(&self) -> (r: &String) {
        &self.group
    }

    fn subject(&self) -> (r: &String) {
        &self.subject
    }

    fn workload(&self) -> (r: &String) {
        &self.workload
    }

    fn value(&self) -> (r: Double) {
        self.mean_ns
    }
}

/// The `(group, workload)` that rows are compared within.
pub struct WorkloadKey {
    pub group: String,
    pub workload: String,
}

impl Keyed for WorkloadKey {
    open spec fn key(self) -> Seq<Seq<char>> {
        seq![self.group@, self.workload@]
    }

    fn key_before(&self, other: &WorkloadKey) -> (r: bool) {
        proof {
            reveal_with_fuel(keyed::list_lt, 3);
            let (a, b) = (self.key(), other.key());
            assert(a.drop_first() =~= seq![self.workload@]);
            assert(b.drop_first() =~= seq![other.workload@]);
            assert(a.drop_first().drop_first() =~= Seq::empty());
            assert(b.drop_first().drop_first() =~= Seq::empty());
            text::lemma_lex_irreflexive(self.workload@);
        }
        if text::same(self.group.as_str(), other.group.as_str()) {
            text::less(self.workload.as_str(), other.workload.as_str())
        } else {
            text::less(self.group.as_str(), other.group.as_str())
        }
    }
}

/// The key of the workload that a row belongs to.
pub open spec fn workload_key<R: RatioInput>(r: R) -> Seq<Seq<char>> {
    seq![r.group_of()@, r.workload_of()@]
}

pub open spec fn in_workload<R: RatioInput>(r: R, group: Seq<char>, workload: Seq<char>) -> bool {
    r.group_of()@ == group && r.workload_of()@ == workload
}

/// The value of the first row of a workload whose subject is the baseline.
pub open spec fn first_baseline<R: RatioInput>(
    rows: Seq<R>,
    group: Seq<char>,
    workload: Seq<char>,
    baseline: Seq<char>,
) -> Option<Double>
    decreases rows.len(),
{
    if rows.len() == 0 {
        None
    } else {
        match first_baseline(rows.drop_last(), group, workload, baseline) {
            Some(v) => Some(v),
            None => if in_workload(rows.last(), group, workload) && rows.last().subject_of()@
                == baseline {
                Some(rows.last().value_of())
            } else {
                None
            },
        }
    }
}

/// A baseline is usable when it is finite and positive: a degenerate one would
/// poison every ratio, and counts as absent.
pub open spec fn usable(baseline: Option<Double>) -> Option<Double> {
    match baseline {
        Some(v) => if v.finite() && (Double { bits: 0 }).lt_spec(v) {
            Some(v)
        } else {
            None
        },
        None => None,
    }
}

/// `value` over the baseline, where there is one and the quotient is finite.
pub open spec fn ratio_spec(value: Double, baseline: Option<Double>) -> Option<Double> {
    match baseline {
        Some(b) => if value.div_spec(b).finite() {
            Some(value.div_spec(b))
        } else {
            None
        },
        None => None,
    }
}

/// One row's ratio: which row of the input it is, its subject and its ratio.
pub struct RatioCell {
    pub index: usize,
    pub subject: String,
    pub ratio: Option<Double>,
}

impl Ranked for RatioCell {
    open spec fn before(self, other: RatioCell) -> bool {
        text::lex_lt(self.subject@, other.subject@)
    }

    fn comes_before(&self, other: &RatioCell) -> (r: bool) {
        text::less(self.subject.as_str(), other.subject.as_str())
    }
}

/// The ratios of a workload's rows, in input order.
pub open spec fn cells<R: RatioInput>(
    rows: Seq<R>,
    group: Seq<char>,
    workload: Seq<char>,
    baseline: Option<Double>,
) -> Seq<RatioCell>
    decreases rows.len(),
{
    if rows.len() == 0 {
        Seq::empty()
    } else {
        let before = cells(rows.drop_last(), group, workload, baseline);
        if in_workload(rows.last(), group, workload) {
            before.push(
                RatioCell {
                    index: (rows.len() - 1) as usize,
                    subject: rows.last().subject_of(),
                    ratio: ratio_spec(rows.last().value_of(), baseline),
                },
            )
        } else {
            before
        }
    }
}

/// The ratios of a workload's rows against its baseline row, by subject.
pub open spec fn workload_cells<R: RatioInput>(
    rows: Seq<R>,
    group: Seq<char>,
    workload: Seq<char>,
    baseline_subject: Seq<char>,
) -> Seq<RatioCell> {
    sorting::sorted(
        cells(rows, group, workload, usable(first_baseline(rows, group, workload, baseline_subject))),
    )
}

proof fn lemma_cells_finite<R: RatioInput>(
    rows: Seq<R>,
    group: Seq<char>,
    workload: Seq<char>,
    baseline: Option<Double>,
)
    ensures
        forall|i: int|
            0 <= i < cells(rows, group, workload, baseline).len() ==> (match (#[trigger] cells(
                rows,
                group,
                workload,
                baseline,
            )[i]).ratio {
                Some(r) => r.finite(),
                None => true,
            }),
    decreases rows.len(),
{
    if rows.len() > 0 {
        lemma_cells_finite(rows.drop_last(), group, workload, baseline);
        let before = cells(rows.drop_last(), group, workload, baseline);
        let all = cells(rows, group, workload, baseline);
        assert forall|i: int| 0 <= i < all.len() implies (match (#[trigger] all[i]).ratio {
            Some(r) => r.finite(),
            None => true,
        }) by {
            if i < before.len() {
                assert(all[i] == before[i]);
            }
        }
    }
}

/// A ratio is a finite number wherever there is one.
pub proof fn law_ratios_are_finite<R: RatioInput>(
    rows: Seq<R>,
    group: Seq<char>,
    workload: Seq<char>,
    baseline_subject: Seq<char>,
    i: int,
)
    requires
        0 <= i < workload_cells(rows, group, workload, baseline_subject).len(),
    ensures
        workload_cells(rows, group, workload, baseline_subject)[i].ratio matches Some(r)
            ==> r.finite(),
{
    let baseline = usable(first_baseline(rows, group, workload, baseline_subject));
    let unsorted = cells(rows, group, workload, baseline);
    let all = workload_cells(rows, group, workload, baseline_subject);
    lemma_cells_finite(rows, group, workload, baseline);
    sorting::lemma_sorted_contains(unsorted);
    assert(all.contains(all[i]));
    let x = unsorted.index_of(all[i]);
    assert(unsorted[x] == all[i]);
}

proof fn lemma_cells_index<R: RatioInput>(
    rows: Seq<R>,
    group: Seq<char>,
    workload: Seq<char>,
    baseline: Option<Double>,
)
    requires
        rows.len() <= usize::MAX,
    ensures
        forall|i: int|
            0 <= i < cells(rows, group, workload, baseline).len() ==> (#[trigger] cells(
                rows,
                group,
                workload,
                baseline,
            )[i]).index < rows.len(),
    decreases rows.len(),
{
    if rows.len() > 0 {
        lemma_cells_index(rows.drop_last(), group, workload, baseline);
    }
}

/// The workloads of the rows, in order.
pub fn workload_keys<R: RatioInput>(rows: &[R]) -> (r: Vec<WorkloadKey>)
    ensures
        keyed::in_key_order(r@),
        forall|k: Seq<Seq<char>>| #[trigger]
            keyed::has_key(r@, k) <==> exists|i: int|
                0 <= i < rows@.len() && #[trigger] workload_key(rows@[i]) == k,
{
    let mut out: Vec<WorkloadKey> = Vec::new();
    let mut i: usize = 0;
    while i < rows.len()
        invariant
            i <= rows@.len(),
            keyed::in_key_order(out@),
            forall|k: Seq<Seq<char>>| #[trigger]
                keyed::has_key(out@, k) <==> exists|j: int|
                    0 <= j < i && #[trigger] workload_key(rows@[j]) == k,
        decreases rows@.len() - i,
    {
        let ghost before = out@;
        let key = WorkloadKey {
            group: rows[i].group().clone(),
            workload: rows[i].workload().clone(),
        };
        let ghost k0 = workload_key(rows@[i as int]);
        assert(key.key() =~= k0);
        keyed::upsert(&mut out, key);
        proof {
            assert forall|k: Seq<Seq<char>>| #[trigger]
                keyed::has_key(out@, k) <==> exists|j: int|
                    0 <= j < i + 1 && #[trigger] workload_key(rows@[j]) == k by {
                assert(keyed::has_key(out@, k) <==> keyed::by_key(out@).dom().contains(k));
                assert(keyed::has_key(before, k) <==> keyed::by_key(before).dom().contains(k));
                if k == k0 {
                    assert(workload_key(rows@[i as int]) == k);
                }
            }
        }
        i = i + 1;
    }
    out
}

/// One workload's cells, sorted by subject.
fn cells_of<R: RatioInput>(
    rows: &[R],
    group: &str,
    workload: &str,
    baseline_subject: &str,
) -> (r: Vec<RatioCell>)
    ensures
        r@ == workload_cells(rows@, group@, workload@, baseline_subject@),
        forall|i: int| 0 <= i < r@.len() ==> (#[trigger] r@[i]).index < rows@.len(),
{
    let mut found: Option<Double> = None;
    let mut i: usize = 0;
    while i < rows.len()
        invariant
            i <= rows@.len(),
            found == first_baseline(rows@.take(i as int), group@, workload@, baseline_subject@),
        decreases rows@.len() - i,
    {
        proof {
            assert(rows@.take(i + 1).drop_last() =~= rows@.take(i as int));
            assert(rows@.take(i + 1).last() == rows@[i as int]);
        }
        if found.is_none() && text::same(rows[i].group().as_str(), group) && text::same(
            rows[i].workload().as_str(),
            workload,
        ) && text::same(rows[i].subject().as_str(), baseline_subject) {
            found = Some(rows[i].value());
        }
        i = i + 1;
    }
    assert(rows@.take(rows@.len() as int) =~= rows@);
    let baseline: Option<Double> = match found {
        Some(v) => if v.is_finite() && (Double { bits: 0 }).lt(v) {
            Some(v)
        } else {
            None
        },
        None => None,
    };
    let mut out: Vec<RatioCell> = Vec::new();
    let mut j: usize = 0;
    while j < rows.len()
        invariant
            j <= rows@.len(),
            out@ == cells(rows@.take(j as int), group@, workload@, baseline),
        decreases rows@.len() - j,
    {
        proof {
            assert(rows@.take(j + 1).drop_last() =~= rows@.take(j as int));
            assert(rows@.take(j + 1).last() == rows@[j as int]);
        }
        if text::same(rows[j].group().as_str(), group) && text::same(
            rows[j].workload().as_str(),
            workload,
        ) {
            let ratio: Option<Double> = match baseline {
                Some(b) => {
                    let q: Double = rows[j].value().over(b);
                    if q.is_finite() {
                        Some(q)
                    } else {
                        None
                    }
                },
                None => None,
            };
            out.push(RatioCell { index: j, subject: rows[j].subject().clone(), ratio });
        }
        j = j + 1;
    }
    proof {
        lemma_cells_index(rows@, group@, workload@, baseline);
        sorting::lemma_sorted_contains(out@);
    }
    let ghost unsorted = out@;
    let r: Vec<RatioCell> = sorting::sort(out);
    proof {
        assert forall|i: int| 0 <= i < r@.len() implies (#[trigger] r@[i]).index < rows@.len() by {
            assert(r@.contains(r@[i]));
            assert(unsorted.contains(r@[i]));
        }
    }
    r
}

/// One workload's ratios.
pub struct WorkloadCells {
    pub group: String,
    pub workload: String,
    pub cells: Vec<RatioCell>,
}

impl Keyed for WorkloadCells {
    open spec fn key(self) -> Seq<Seq<char>> {
        seq![self.group@, self.workload@]
    }

    fn key_before(&self, other: &WorkloadCells) -> (r: bool) {
        let a = WorkloadKey { group: self.group.clone(), workload: self.workload.clone() };
        let b = WorkloadKey { group: other.group.clone(), workload: other.workload.clone() };
        a.key_before(&b)
    }
}

/// Groups `rows` by `(group, workload)`, in order, and computes each row's
/// ratio against that workload's `baseline_subject` row: the one
/// implementation behind both lanes.
pub fn compute_ratios_by_workload<R: RatioInput>(rows: &[R], baseline_subject: &str) -> (r: Vec<
    WorkloadCells,
>)
    ensures
        keyed::in_key_order(r@),
        forall|k: Seq<Seq<char>>| #[trigger]
            keyed::has_key(r@, k) <==> exists|i: int|
                0 <= i < rows@.len() && #[trigger] workload_key(rows@[i]) == k,
        forall|i: int|
            0 <= i < r@.len() ==> (#[trigger] r@[i]).cells@ == workload_cells(
                rows@,
                r@[i].group@,
                r@[i].workload@,
                baseline_subject@,
            ),
        forall|i: int, j: int|
            0 <= i < r@.len() && 0 <= j < r@[i].cells@.len() ==> (
            #[trigger] r@[i].cells@[j]).index < rows@.len(),
{
    let keys: Vec<WorkloadKey> = workload_keys(rows);
    let mut out: Vec<WorkloadCells> = Vec::new();
    let mut i: usize = 0;
    while i < keys.len()
        invariant
            i <= keys@.len(),
            out@.len() == i,
            forall|j: int| 0 <= j < i ==> #[trigger] out@[j].key() == keys@[j].key(),
            forall|j: int|
                0 <= j < i ==> (#[trigger] out@[j]).cells@ == workload_cells(
                    rows@,
                    out@[j].group@,
                    out@[j].workload@,
                    baseline_subject@,
                ),
            forall|j: int, m: int|
                0 <= j < i && 0 <= m < out@[j].cells@.len() ==> (
                #[trigger] out@[j].cells@[m]).index < rows@.len(),
        decreases keys@.len() - i,
    {
        let key: &WorkloadKey = &keys[i];
        let row_cells: Vec<RatioCell> = cells_of(
            rows,
            key.group.as_str(),
            key.workload.as_str(),
            baseline_subject,
        );
        out.push(
            WorkloadCells {
                group: key.group.clone(),
                workload: key.workload.clone(),
                cells: row_cells,
            },
        );
        i = i + 1;
    }
    proof {
        assert forall|a: int, b: int| 0 <= a < b < out@.len() implies keyed::list_lt(
            #[trigger] out@[a].key(),
            #[trigger] out@[b].key(),
        ) by {
            assert(out@[a].key() == keys@[a].key() && out@[b].key() == keys@[b].key());
        }
        assert forall|k: Seq<Seq<char>>| #[trigger]
            keyed::has_key(out@, k) <==> keyed::has_key(keys@, k) by {
            if keyed::has_key(out@, k) {
                let p = keyed::key_position(out@, k);
                assert(keys@[p].key() == k);
            }
            if keyed::has_key(keys@, k) {
                let p = keyed::key_position(keys@, k);
                assert(out@[p].key() == k);
            }
        }
    }
    out
}

/// One subject's mean and its ratio against the baseline subject for the same
/// `(group, workload)`; no ratio where there is no usable baseline row.
#[derive(Debug, Clone, PartialEq)]
pub struct RatioRow {
    pub subject: String,
    pub mean_ns: Double,
    pub ratio_vs_baseline: Option<Double>,
}

/// One workload's ratio table.
#[derive(Debug, Clone, PartialEq)]
pub struct WorkloadRatios {
    pub group: String,
    pub workload: String,
    pub rows: Vec<RatioRow>,
}

impl Keyed for WorkloadRatios {
    open spec fn key(self) -> Seq<Seq<char>> {
        seq![self.group@, self.workload@]
    }

    fn key_before(&self, other: &WorkloadRatios) -> (r: bool) {
        let a = WorkloadKey { group: self.group.clone(), workload: self.workload.clone() };
        let b = WorkloadKey { group: other.group.clone(), workload: other.workload.clone() };
        a.key_before(&b)
    }
}

/// The ratio rows of one workload, by subject.
pub open spec fn ratio_rows_spec(
    rows: Seq<Row>,
    group: Seq<char>,
    workload: Seq<char>,
    baseline_subject: Seq<char>,
) -> Seq<RatioRow> {
    workload_cells(rows, group, workload, baseline_subject).map_values(
        |c: RatioCell|
            RatioRow {
                subject: c.subject,
                mean_ns: rows[c.index as int].mean_ns,
                ratio_vs_baseline: c.ratio,
            },
    )
}

/// Is `r` the ratio table of the rows: one entry per `(group, workload)` that
/// occurs, in order, each with its ratio rows?
pub open spec fn is_ratio_table(
    r: Seq<WorkloadRatios>,
    rows: Seq<Row>,
    baseline_subject: Seq<char>,
) -> bool {
    &&& keyed::in_key_order(r)
    &&& forall|k: Seq<Seq<char>>| #[trigger]
        keyed::has_key(r, k) <==> exists|i: int|
            0 <= i < rows.len() && #[trigger] workload_key(rows[i]) == k
    &&& forall|i: int|
        0 <= i < r.len() ==> (#[trigger] r[i]).rows@ == ratio_rows_spec(
            rows,
            r[i].group@,
            r[i].workload@,
            baseline_subject,
        )
}

/// Groups `rows` by `(group, workload)` and computes each subject's ratio
/// against that workload's `baseline_subject` row, in deterministic order.
pub fn compute_ratios(rows: &[Row], baseline_subject: &str) -> (r: Vec<WorkloadRatios>)
    ensures
        is_ratio_table(r@, rows@, baseline_subject@),
{
    let tables: Vec<WorkloadCells> = compute_ratios_by_workload(rows, baseline_subject);
    let mut out: Vec<WorkloadRatios> = Vec::new();
    let mut i: usize = 0;
    while i < tables.len()
        invariant
            i <= tables@.len(),
            out@.len() == i,
            forall|a: int| 0 <= a < i ==> #[trigger] out@[a].key() == tables@[a].key(),
            forall|a: int|
                0 <= a < i ==> (#[trigger] out@[a]).rows@ == ratio_rows_spec(
                    rows@,
                    out@[a].group@,
                    out@[a].workload@,
                    baseline_subject@,
                ),
            forall|a: int|
                0 <= a < tables@.len() ==> (#[trigger] tables@[a]).cells@ == workload_cells(
                    rows@,
                    tables@[a].group@,
                    tables@[a].workload@,
                    baseline_subject@,
                ),
            forall|a: int, b: int|
                0 <= a < tables@.len() && 0 <= b < tables@[a].cells@.len() ==> (
                #[trigger] tables@[a].cells@[b]).index < rows@.len(),
        decreases tables@.len() - i,
    {
        let table: &WorkloadCells = &tables[i];
        let ghost spec = ratio_rows_spec(
            rows@,
            table.group@,
            table.workload@,
            baseline_subject@,
        );
        let mut ratio_rows: Vec<RatioRow> = Vec::new();
        let mut j: usize = 0;
        while j < table.cells.len()
            invariant
                j <= table.cells@.len(),
                *table == tables@[i as int],
                i < tables@.len(),
                table.cells@ == workload_cells(
                    rows@,
                    table.group@,
                    table.workload@,
                    baseline_subject@,
                ),
                spec == ratio_rows_spec(rows@, table.group@, table.workload@, baseline_subject@),
                forall|b: int|
                    0 <= b < table.cells@.len() ==> (#[trigger] table.cells@[b]).index
                        < rows@.len(),
                ratio_rows@ == spec.take(j as int),
            decreases table.cells@.len() - j,
        {
            let cell: &RatioCell = &table.cells[j];
            ratio_rows.push(
                RatioRow {
                    subject: cell.subject.clone(),
                    mean_ns: rows[cell.index].mean_ns,
                    ratio_vs_baseline: cell.ratio,
                },
            );
            assert(spec.take(j + 1) =~= spec.take(j as int).push(spec[j as int]));
            j = j + 1;
        }
        assert(spec.take(spec.len() as int) =~= spec);
        out.push(
            WorkloadRatios {
                group: table.group.clone(),
                workload: table.workload.clone(),
                rows: ratio_rows,
            },
        );
        i = i + 1;
    }
    proof {
        assert forall|a: int, b: int| 0 <= a < b < out@.len() implies keyed::list_lt(
            #[trigger] out@[a].key(),
            #[trigger] out@[b].key(),
        ) by {
            assert(out@[a].key() == tables@[a].key() && out@[b].key() == tables@[b].key());
        }
        assert forall|k: Seq<Seq<char>>| #[trigger]
            keyed::has_key(out@, k) <==> keyed::has_key(tables@, k) by {
            if keyed::has_key(out@, k) {
                let p = keyed::key_position(out@, k);
                assert(tables@[p].key() == k);
            }
            if keyed::has_key(tables@, k) {
                let p = keyed::key_position(tables@, k);
                assert(out@[p].key() == k);
            }
        }
    }
    out
}

} // verus!
