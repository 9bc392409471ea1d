//! The stored record of a benched commit, and where a repo's data lies:
//!
//! ```text
//! <data-root>/<repo>/
//!   commits/<YYYYMMDD>-<shortsha>/{raw.json, compare_bars.png, dist_*.png}
//!   digests/<YYYYMMDD>-<shortsha-range>/{summary.json, trend.png}
//!   flame/<YYYYMMDD>/{<workload>.svg, <workload>_diff.svg}
//!   state.json
//! ```
use crate::criterion_results;
use crate::criterion_results::{RatioRow, WorkloadRatios};
use crate::dates;
use crate::double::Double;
use crate::instructions;
use crate::instructions::{
    InstrCollection, InstrRatioRow, InstrRow, InstrRowView, InstrWorkloadRatios,
};
use crate::paths;
use crate::sorting;
use crate::sorting::Ranked;
use crate::strmap::StrMap;
use crate::text;
use vstd::prelude::*;
use vstd::utf8::*;

verus! {

/// One row's instruction-count numbers.
#[derive(Debug, Clone, Copy, PartialEq, Eq, Structural)]
pub struct InstrRecord {
    /// CPU instructions retired (callgrind `Ir`) for one traced iteration.
    pub count: u64,
    /// `count / baseline count` for the same `(group, workload)`.
    pub ratio_vs_baseline: Option<Double>,
}

/// One row's stored numbers.
#[derive(Debug, Clone, Copy, PartialEq, Eq, Structural)]
pub struct RowRecord {
    /// Mean wall-clock per call, nanoseconds.
    pub ns: Double,
    /// `mean_ns / baseline mean_ns` for the same `(group, workload)`; none
    /// when the group/workload has no baseline row.
    pub ratio_vs_baseline: Option<Double>,
    /// Instruction-count numbers; absent when the instructions lane was off or
    /// produced nothing for this row.
    pub instr: Option<InstrRecord>,
}

/// The structured source of truth for one benched commit.
#[derive(Debug, Clone, PartialEq)]
pub struct CommitRecord {
    /// Full commit sha.
    pub commit: String,
    /// Committer date, RFC 3339 — also the sort key for "last N commits".
    pub date: String,
    /// `rustc --version` used for the run.
    pub rustc: String,
    /// The subject every `ratio_vs_baseline` in this record is against.
    pub baseline_subject: String,
    /// Bench targets that failed to compile or run this commit.
    pub failed_targets: Vec<String>,
    /// Bench targets whose instructions-lane build or run failed.
    pub instr_failed_targets: Option<Vec<String>>,
    /// `group -> row ("subject" or "subject/workload") -> numbers`.
    pub groups: StrMap<StrMap<RowRecord>>,
}

/// The rows of every group.
pub open spec fn groups_of(groups: StrMap<StrMap<RowRecord>>) -> Map<
    Seq<char>,
    Map<Seq<char>, RowRecord>,
> {
    groups@.map_values(|m: StrMap<RowRecord>| m@)
}

pub open spec fn groups_wf(groups: StrMap<StrMap<RowRecord>>) -> bool {
    groups.wf() && forall|k: Seq<char>| #[trigger]
        groups@.dom().contains(k) ==> groups@[k].wf()
}

/// Row key inside a group: `subject/workload`, or just `subject` for bare
/// rows.
pub open spec fn row_name_spec(subject: Seq<char>, workload: Seq<char>) -> Seq<char> {
    if workload.len() == 0 {
        subject
    } else {
        subject + "/"@ + workload
    }
}

pub fn row_name(subject: &str, workload: &str) -> (r: String)
    ensures
        r@ == row_name_spec(subject@, workload@),
{
    if workload.is_empty() {
        subject.to_string()
    } else {
        text::cat3(subject, "/", workload)
    }
}

// ---------------------------------------------------------------------------
// Short shas
// ---------------------------------------------------------------------------

/// How many bytes a short sha has.
pub open spec fn short_len(sha: Seq<char>) -> int {
    if encode_utf8(sha).len() < 7 {
        encode_utf8(sha).len() as int
    } else {
        7
    }
}

/// Can the sha be cut there? (Every ASCII text can.)
pub open spec fn can_shorten(sha: Seq<char>) -> bool {
    is_char_boundary(encode_utf8(sha), short_len(sha))
}

/// The text of the first seven bytes.
pub open spec fn short_spec(sha: Seq<char>) -> Seq<char> {
    decode_utf8(encode_utf8(sha).subrange(0, short_len(sha)))
}

/// The first seven bytes of a sha, or all of it.
pub fn short_sha(sha: &str) -> (r: &str)
    requires
        can_shorten(sha@),
    ensures
        r@ == short_spec(sha@),
{
    let total: usize = sha.as_bytes().len();
    let n: usize = if total < 7 { total } else { 7 };
    let (head, _) = sha.split_at(n);
    proof {
        encode_utf8_decode_utf8(head@);
    }
    head
}

/// Is [`short_sha`] defined for this text?
pub fn has_short_sha(sha: &str) -> (r: bool)
    ensures
        r == can_shorten(sha@),
{
    let total: usize = sha.as_bytes().len();
    let n: usize = if total < 7 { total } else { 7 };
    sha.is_char_boundary(n)
}

/// An ASCII sha is cut after its seventh character.
pub proof fn law_short_sha_of_ascii(sha: Seq<char>)
    requires
        is_ascii_chars(sha),
    ensures
        can_shorten(sha),
        short_spec(sha) == if sha.len() <= 7 {
            sha
        } else {
            sha.take(7)
        },
{
    is_ascii_chars_encode_utf8(sha);
    let bytes = encode_utf8(sha);
    let n = short_len(sha);
    let head = sha.take(n);
    assert(is_ascii_chars(head)) by {
        assert forall|i: int| 0 <= i < head.len() implies 0 <= #[trigger] head[i] < 128 by {
            assert(head[i] == sha[i]);
        }
    }
    is_ascii_chars_encode_utf8(head);
    assert(encode_utf8(head) =~= bytes.subrange(0, n));
    encode_utf8_decode_utf8(head);
    encode_utf8_valid_utf8(sha);
    if n < bytes.len() {
        is_char_boundary_iff_not_is_continuation_byte(bytes, n);
        assert(bytes[n] == sha[n] as u8);
        assert(0 <= sha[n] < 128);
    } else {
        is_char_boundary_start_end_of_seq(bytes);
    }
    if sha.len() <= 7 {
        assert(head =~= sha);
    }
}

// ---------------------------------------------------------------------------
// Records
// ---------------------------------------------------------------------------

/// A group's rows with a workload's ratio rows put in.
pub open spec fn with_rows(
    rows: Map<Seq<char>, RowRecord>,
    ratios: Seq<RatioRow>,
    workload: Seq<char>,
) -> Map<Seq<char>, RowRecord>
    decreases ratios.len(),
{
    if ratios.len() == 0 {
        rows
    } else {
        let r = ratios.last();
        with_rows(rows, ratios.drop_last(), workload).insert(
            row_name_spec(r.subject@, workload),
            RowRecord { ns: r.mean_ns, ratio_vs_baseline: r.ratio_vs_baseline, instr: None },
        )
    }
}

/// The rows of a group, empty where there is no such group.
pub open spec fn group_rows(
    groups: Map<Seq<char>, Map<Seq<char>, RowRecord>>,
    group: Seq<char>,
) -> Map<Seq<char>, RowRecord> {
    if groups.dom().contains(group) {
        groups[group]
    } else {
        Map::empty()
    }
}

/// All groups with the ratio tables put in.
pub open spec fn with_ratios(
    groups: Map<Seq<char>, Map<Seq<char>, RowRecord>>,
    ratios: Seq<WorkloadRatios>,
) -> Map<Seq<char>, Map<Seq<char>, RowRecord>>
    decreases ratios.len(),
{
    if ratios.len() == 0 {
        groups
    } else {
        let before = with_ratios(groups, ratios.drop_last());
        let wl = ratios.last();
        before.insert(wl.group@, with_rows(group_rows(before, wl.group@), wl.rows@, wl.workload@))
    }
}

/// Does a group hold a row of this name?
pub open spec fn has_row(
    groups: Map<Seq<char>, Map<Seq<char>, RowRecord>>,
    group: Seq<char>,
    name: Seq<char>,
) -> bool {
    groups.dom().contains(group) && groups[group].dom().contains(name)
}

/// One count attached to its row, where the row exists.
pub open spec fn with_count(
    groups: Map<Seq<char>, Map<Seq<char>, RowRecord>>,
    group: Seq<char>,
    name: Seq<char>,
    instr: InstrRecord,
) -> Map<Seq<char>, Map<Seq<char>, RowRecord>> {
    if has_row(groups, group, name) {
        groups.insert(
            group,
            groups[group].insert(name, RowRecord { instr: Some(instr), ..groups[group][name] }),
        )
    } else {
        groups
    }
}

/// A workload's counts attached to their rows.
pub open spec fn with_counts(
    groups: Map<Seq<char>, Map<Seq<char>, RowRecord>>,
    group: Seq<char>,
    workload: Seq<char>,
    rows: Seq<InstrRatioRow>,
) -> Map<Seq<char>, Map<Seq<char>, RowRecord>>
    decreases rows.len(),
{
    if rows.len() == 0 {
        groups
    } else {
        let r = rows.last();
        with_count(
            with_counts(groups, group, workload, rows.drop_last()),
            group,
            row_name_spec(r.subject@, workload),
            InstrRecord { count: r.count, ratio_vs_baseline: r.ratio_vs_baseline },
        )
    }
}

/// All counts attached to their rows.
pub open spec fn with_instr_ratios(
    groups: Map<Seq<char>, Map<Seq<char>, RowRecord>>,
    ratios: Seq<InstrWorkloadRatios>,
) -> Map<Seq<char>, Map<Seq<char>, RowRecord>>
    decreases ratios.len(),
{
    if ratios.len() == 0 {
        groups
    } else {
        let wl = ratios.last();
        with_counts(
            with_instr_ratios(groups, ratios.drop_last()),
            wl.group@,
            wl.workload@,
            wl.rows@,
        )
    }
}

proof fn lemma_groups_insert(groups: StrMap<StrMap<RowRecord>>, after: StrMap<StrMap<RowRecord>>, k: Seq<char>, rows: StrMap<RowRecord>)
    requires
        groups_wf(groups),
        after.wf(),
        rows.wf(),
        after@ == groups@.remove(k).insert(k, rows),
    ensures
        groups_wf(after),
        groups_of(after) == groups_of(groups).insert(k, rows@),
{
    assert(groups_of(after) =~= groups_of(groups).insert(k, rows@));
}

/// Puts a workload's ratio rows into a group.
fn put_rows(rows: &mut StrMap<RowRecord>, ratios: &Vec<RatioRow>, workload: &str)
    requires
        old(rows).wf(),
    ensures
        final(rows).wf(),
        final(rows)@ == with_rows(old(rows)@, ratios@, workload@),
{
    let ghost before = rows@;
    let mut i: usize = 0;
    while i < ratios.len()
        invariant
            rows.wf(),
            i <= ratios@.len(),
            rows@ == with_rows(before, ratios@.take(i as int), workload@),
        decreases ratios@.len() - i,
    {
        proof {
            assert(ratios@.take(i + 1).drop_last() =~= ratios@.take(i as int));
            assert(ratios@.take(i + 1).last() == ratios@[i as int]);
        }
        let r: &RatioRow = &ratios[i];
        rows.insert(
            row_name(r.subject.as_str(), workload),
            RowRecord { ns: r.mean_ns, ratio_vs_baseline: r.ratio_vs_baseline, instr: None },
        );
        i = i + 1;
    }
    assert(ratios@.take(ratios@.len() as int) =~= ratios@);
}

/// Attaches one count to its row; false where there is no such row.
fn put_count(
    groups: &mut StrMap<StrMap<RowRecord>>,
    group: &str,
    name: &str,
    instr: InstrRecord,
) -> (r: bool)
    requires
        groups_wf(*old(groups)),
    ensures
        groups_wf(*final(groups)),
        groups_of(*final(groups)) == with_count(groups_of(*old(groups)), group@, name@, instr),
        r == has_row(groups_of(*old(groups)), group@, name@),
{
    let ghost before = *groups;
    let found: Option<RowRecord> = match groups.get(group) {
        Some(rows) => match rows.get(name) {
            Some(record) => Some(*record),
            None => None,
        },
        None => None,
    };
    match found {
        None => false,
        Some(record) => {
            match groups.remove(group) {
                None => false,
                Some(mut rows) => {
                    let updated = RowRecord {
                        ns: record.ns,
                        ratio_vs_baseline: record.ratio_vs_baseline,
                        instr: Some(instr),
                    };
                    rows.insert(name.to_string(), updated);
                    let ghost inner = rows;
                    groups.insert(group.to_string(), rows);
                    proof {
                        lemma_groups_insert(before, *groups, group@, inner);
                        assert(groups_of(*groups) =~= with_count(
                            groups_of(before),
                            group@,
                            name@,
                            instr,
                        ));
                    }
                    true
                },
            }
        },
    }
}

/// The counts of a workload that have no row to attach to, as row keys.
pub open spec fn homeless(
    groups: Map<Seq<char>, Map<Seq<char>, RowRecord>>,
    group: Seq<char>,
    workload: Seq<char>,
    rows: Seq<InstrRatioRow>,
) -> Seq<Seq<char>>
    decreases rows.len(),
{
    if rows.len() == 0 {
        Seq::empty()
    } else {
        let before = homeless(groups, group, workload, rows.drop_last());
        let name = row_name_spec(rows.last().subject@, workload);
        if has_row(groups, group, name) {
            before
        } else {
            before.push(group + "/"@ + name)
        }
    }
}

pub open spec fn all_homeless(
    groups: Map<Seq<char>, Map<Seq<char>, RowRecord>>,
    ratios: Seq<InstrWorkloadRatios>,
) -> Seq<Seq<char>>
    decreases ratios.len(),
{
    if ratios.len() == 0 {
        Seq::empty()
    } else {
        let wl = ratios.last();
        all_homeless(groups, ratios.drop_last()) + homeless(
            groups,
            wl.group@,
            wl.workload@,
            wl.rows@,
        )
    }
}

/// Do two collections of groups hold the same rows, whatever their numbers?
pub open spec fn same_rows(
    a: Map<Seq<char>, Map<Seq<char>, RowRecord>>,
    b: Map<Seq<char>, Map<Seq<char>, RowRecord>>,
) -> bool {
    a.dom() == b.dom() && forall|g: Seq<char>| #[trigger]
        a.dom().contains(g) ==> a[g].dom() == b[g].dom()
}

pub proof fn lemma_with_count_same_rows(
    groups: Map<Seq<char>, Map<Seq<char>, RowRecord>>,
    group: Seq<char>,
    name: Seq<char>,
    instr: InstrRecord,
)
    ensures
        same_rows(groups, with_count(groups, group, name, instr)),
{
    let after = with_count(groups, group, name, instr);
    assert(groups.dom() =~= after.dom());
    assert forall|g: Seq<char>| #[trigger] groups.dom().contains(g) implies groups[g].dom()
        == after[g].dom() by {
        assert(groups[g].dom() =~= after[g].dom());
    }
}

impl CommitRecord {
    pub open spec fn wf(self) -> bool {
        groups_wf(self.groups)
    }

    /// The rows of every group.
    pub open spec fn rows(self) -> Map<Seq<char>, Map<Seq<char>, RowRecord>> {
        groups_of(self.groups)
    }

    pub fn new(commit: String, date: String, rustc: String, baseline_subject: String) -> (r: Self)
        ensures
            r.wf(),
            r.commit == commit,
            r.date == date,
            r.rustc == rustc,
            r.baseline_subject == baseline_subject,
            r.failed_targets@.len() == 0,
            r.instr_failed_targets is None,
            r.rows() == Map::<Seq<char>, Map<Seq<char>, RowRecord>>::empty(),
    {
        let r = CommitRecord {
            commit,
            date,
            rustc,
            baseline_subject,
            failed_targets: Vec::new(),
            instr_failed_targets: None,
            groups: StrMap::new(),
        };
        assert(r.rows() =~= Map::empty());
        r
    }

    /// Folds ratio tables into `groups`.
    pub fn add_ratios(&mut self, ratios: &[WorkloadRatios])
        requires
            old(self).wf(),
        ensures
            final(self).wf(),
            final(self).rows() == with_ratios(old(self).rows(), ratios@),
            final(self).same_head(*old(self)),
    {
        let ghost before = self.rows();
        let ghost head = *self;
        let mut i: usize = 0;
        while i < ratios.len()
            invariant
                self.wf(),
                i <= ratios@.len(),
                self.rows() == with_ratios(before, ratios@.take(i as int)),
                self.same_head(head),
            decreases ratios@.len() - i,
        {
            proof {
                assert(ratios@.take(i + 1).drop_last() =~= ratios@.take(i as int));
                assert(ratios@.take(i + 1).last() == ratios@[i as int]);
            }
            let wl: &WorkloadRatios = &ratios[i];
            let ghost groups_before = self.groups;
            let mut rows: StrMap<RowRecord> = match self.groups.remove(wl.group.as_str()) {
                Some(rows) => rows,
                None => StrMap::new(),
            };
            put_rows(&mut rows, &wl.rows, wl.workload.as_str());
            let ghost inner = rows;
            self.groups.insert(wl.group.clone(), rows);
            proof {
                lemma_groups_insert(groups_before, self.groups, wl.group@, inner);
            }
            i = i + 1;
        }
        assert(ratios@.take(ratios@.len() as int) =~= ratios@);
    }

    /// Everything but the groups is the same.
    pub open spec fn same_head(self, other: CommitRecord) -> bool {
        &&& self.commit == other.commit
        &&& self.date == other.date
        &&& self.rustc == other.rustc
        &&& self.baseline_subject == other.baseline_subject
        &&& self.failed_targets == other.failed_targets
        &&& self.instr_failed_targets == other.instr_failed_targets
    }

    /// Attaches the instructions lane's counts and ratios to existing rows. A
    /// count whose row the walltime lane did not produce has no row to attach
    /// to and is not recorded; the keys of those come back.
    pub fn add_instr_ratios(&mut self, ratios: &[InstrWorkloadRatios]) -> (skipped: Vec<String>)
        requires
            old(self).wf(),
        ensures
            final(self).wf(),
            final(self).rows() == with_instr_ratios(old(self).rows(), ratios@),
            final(self).same_head(*old(self)),
            text::views(skipped@) == all_homeless(old(self).rows(), ratios@),
    {
        let ghost before = self.rows();
        let ghost head = *self;
        let mut skipped: Vec<String> = Vec::new();
        let mut i: usize = 0;
        proof {
            assert(text::views(skipped@) =~= all_homeless(before, ratios@.take(0)));
        }
        while i < ratios.len()
            invariant
                self.wf(),
                i <= ratios@.len(),
                self.rows() == with_instr_ratios(before, ratios@.take(i as int)),
                self.same_head(head),
                same_rows(before, self.rows()),
                text::views(skipped@) == all_homeless(before, ratios@.take(i as int)),
            decreases ratios@.len() - i,
        {
            proof {
                assert(ratios@.take(i + 1).drop_last() =~= ratios@.take(i as int));
                assert(ratios@.take(i + 1).last() == ratios@[i as int]);
            }
            let wl: &InstrWorkloadRatios = &ratios[i];
            let ghost outer = self.rows();
            let ghost noted = text::views(skipped@);
            let mut j: usize = 0;
            proof {
                assert(noted + homeless(before, wl.group@, wl.workload@, wl.rows@.take(0))
                    =~= noted);
            }
            while j < wl.rows.len()
                invariant
                    self.wf(),
                    j <= wl.rows@.len(),
                    self.rows() == with_counts(
                        outer,
                        wl.group@,
                        wl.workload@,
                        wl.rows@.take(j as int),
                    ),
                    self.same_head(head),
                    same_rows(before, self.rows()),
                    text::views(skipped@) == noted + homeless(
                        before,
                        wl.group@,
                        wl.workload@,
                        wl.rows@.take(j as int),
                    ),
                decreases wl.rows@.len() - j,
            {
                proof {
                    assert(wl.rows@.take(j + 1).drop_last() =~= wl.rows@.take(j as int));
                    assert(wl.rows@.take(j + 1).last() == wl.rows@[j as int]);
                }
                let r: &InstrRatioRow = &wl.rows[j];
                let name: String = row_name(r.subject.as_str(), wl.workload.as_str());
                let instr = InstrRecord {
                    count: r.count,
                    ratio_vs_baseline: r.ratio_vs_baseline,
                };
                let ghost current = self.rows();
                let found: bool = put_count(
                    &mut self.groups,
                    wl.group.as_str(),
                    name.as_str(),
                    instr,
                );
                proof {
                    lemma_with_count_same_rows(current, wl.group@, name@, instr);
                }
                if !found {
                    let key: String = text::cat3(wl.group.as_str(), "/", name.as_str());
                    let ghost had = text::views(skipped@);
                    text::add_word(&mut skipped, key.as_str());
                    assert(text::views(skipped@) =~= noted + homeless(
                        before,
                        wl.group@,
                        wl.workload@,
                        wl.rows@.take(j + 1),
                    ));
                }
                j = j + 1;
            }
            assert(wl.rows@.take(wl.rows@.len() as int) =~= wl.rows@);
            i = i + 1;
        }
        assert(ratios@.take(ratios@.len() as int) =~= ratios@);
        skipped
    }

    pub fn short_sha(&self) -> (r: &str)
        requires
            can_shorten(self.commit@),
        ensures
            r@ == short_spec(self.commit@),
    {
        short_sha(self.commit.as_str())
    }

    /// `YYYYMMDD` taken from `date`.
    pub fn day(&self) -> (r: Result<String, String>)
        ensures
            match r {
                Ok(day) => dates::day_spec(self.date@) == Result::<Seq<char>, Seq<char>>::Ok(day@),
                Err(e) => dates::day_spec(self.date@) == Result::<Seq<char>, Seq<char>>::Err(e@),
            },
    {
        dates::day_of(self.date.as_str())
    }
}

// ---------------------------------------------------------------------------
// Carrying counts forward
// ---------------------------------------------------------------------------

/// The counts of the first `n` rows of a group, in row order.
pub open spec fn group_counts(
    group: Seq<char>,
    rows: StrMap<RowRecord>,
    n: nat,
) -> Seq<InstrRowView>
    decreases n,
{
    if n == 0 {
        Seq::empty()
    } else {
        let before = group_counts(group, rows, (n - 1) as nat);
        match rows.nth(n - 1).instr {
            Some(instr) => {
                let (subject, workload) = criterion_results::split_id(rows.keys()[n - 1]);
                before.push(InstrRowView { group, subject, workload, count: instr.count })
            },
            None => before,
        }
    }
}

/// The counts of the first `n` groups, in group order.
pub open spec fn stored_counts(groups: StrMap<StrMap<RowRecord>>, n: nat) -> Seq<InstrRowView>
    decreases n,
{
    if n == 0 {
        Seq::empty()
    } else {
        let rows = groups.nth(n - 1);
        stored_counts(groups, (n - 1) as nat) + group_counts(
            groups.keys()[n - 1],
            rows,
            rows.keys().len(),
        )
    }
}

/// The counts of a group, appended to `out`.
fn push_group_counts(out: &mut Vec<InstrRow>, group: &str, rows: &StrMap<RowRecord>)
    ensures
        instructions::row_views(final(out)@) == instructions::row_views(old(out)@) + group_counts(
            group@,
            *rows,
            rows.keys().len(),
        ),
{
    let ghost before = instructions::row_views(out@);
    let mut i: usize = 0;
    proof {
        assert(before + group_counts(group@, *rows, 0) =~= before);
    }
    while i < rows.len()
        invariant
            i <= rows.keys().len(),
            instructions::row_views(out@) == before + group_counts(group@, *rows, i as nat),
        decreases rows.keys().len() - i,
    {
        let record: RowRecord = *rows.value_at(i);
        match record.instr {
            Some(instr) => {
                let (subject, workload) = criterion_results::split_function_id(
                    rows.key_at(i).as_str(),
                );
                let row = InstrRow {
                    group: group.to_string(),
                    subject,
                    workload,
                    count: instr.count,
                };
                let ghost had = out@;
                let ghost row_view = row@;
                out.push(row);
                assert(instructions::row_views(out@) =~= instructions::row_views(had).push(
                    row_view,
                ));
                assert(instructions::row_views(out@) =~= before + group_counts(
                    group@,
                    *rows,
                    (i + 1) as nat,
                ));
            },
            None => {},
        }
        i = i + 1;
    }
}

impl CommitRecord {
    /// The failed instructions targets, none counting as an empty list.
    pub open spec fn instr_failures(self) -> Seq<String> {
        match self.instr_failed_targets {
            Some(failed) => failed@,
            None => Seq::empty(),
        }
    }

    /// Is `r` what the record holds of the instructions lane: the counts of its
    /// rows and the failed targets, none where it has neither?
    pub open spec fn is_collection(self, r: Option<InstrCollection>) -> bool {
        let stored = stored_counts(self.groups, self.groups.keys().len());
        match r {
            Some(c) => instructions::row_views(c.rows@) == stored && c.failed_targets@
                == self.instr_failures() && (c.rows@.len() > 0 || c.failed_targets@.len() > 0),
            None => stored.len() == 0 && self.instr_failures().len() == 0,
        }
    }

    /// Reconstructs the instructions collection embedded in this record's
    /// rows, the source for a regeneration that never re-collects the lane.
    /// None when the record carries no instructions data at all.
    pub fn instr_collection(&self) -> (r: Option<InstrCollection>)
        ensures
            self.is_collection(r),
    {
        let mut rows: Vec<InstrRow> = Vec::new();
        let mut i: usize = 0;
        proof {
            assert(instructions::row_views(rows@) =~= Seq::empty());
        }
        while i < self.groups.len()
            invariant
                i <= self.groups.keys().len(),
                instructions::row_views(rows@) == stored_counts(self.groups, i as nat),
            decreases self.groups.keys().len() - i,
        {
            push_group_counts(
                &mut rows,
                self.groups.key_at(i).as_str(),
                self.groups.value_at(i),
            );
            i = i + 1;
        }
        let failed_targets: Vec<String> = match &self.instr_failed_targets {
            Some(failed) => text::copy_list(failed),
            None => Vec::new(),
        };
        assert(instructions::row_views(rows@).len() == rows@.len());
        if rows.len() == 0 && failed_targets.len() == 0 {
            return None;
        }
        Some(InstrCollection { rows, failed_targets })
    }
}

/// The name that a row is stored under splits back into its subject and
/// workload, as long as the subject holds no `/`.
pub proof fn law_row_names_split_back(subject: Seq<char>, workload: Seq<char>)
    requires
        !subject.contains('/'),
    ensures
        criterion_results::split_id(row_name_spec(subject, workload)) == (subject, workload),
{
    reveal_strlit("/");
    let name = row_name_spec(subject, workload);
    assert forall|j: int| 0 <= j < subject.len() implies text::except('/')(#[trigger] name[j]) by {
        assert(name[j] == subject[j]);
        assert(subject.contains(subject[j]));
    }
    if workload.len() > 0 {
        assert(name[subject.len() as int] == '/');
    }
    text::lemma_span_is(name, text::except('/'), subject.len());
    assert(name.take(subject.len() as int) =~= subject);
    if workload.len() > 0 {
        assert(name.skip(subject.len() as int + 1) =~= workload);
    } else {
        assert(workload =~= Seq::empty());
    }
}

/// A subject derived from a function id never holds a `/`.
pub proof fn law_subjects_hold_no_slash(function_id: Seq<char>)
    ensures
        !criterion_results::split_id(function_id).0.contains('/'),
{
    let n = text::span(function_id, text::except('/'));
    text::lemma_span_props(function_id, text::except('/'));
    let subject = criterion_results::split_id(function_id).0;
    assert forall|i: int| 0 <= i < subject.len() implies subject[i] != '/' by {
        assert(text::except('/')(function_id[i]));
        assert(subject[i] == function_id[i]);
    }
}

proof fn lemma_group_counts_from(group: Seq<char>, rows: StrMap<RowRecord>, n: nat, i: int)
    requires
        0 <= i < n <= rows.keys().len(),
        rows.nth(i).instr is Some,
    ensures
        ({
            let (subject, workload) = criterion_results::split_id(rows.keys()[i]);
            group_counts(group, rows, n).contains(
                InstrRowView { group, subject, workload, count: rows.nth(i).instr->0.count },
            )
        }),
    decreases n,
{
    let (subject, workload) = criterion_results::split_id(rows.keys()[i]);
    let x = InstrRowView { group, subject, workload, count: rows.nth(i).instr->0.count };
    let all = group_counts(group, rows, n);
    let before = group_counts(group, rows, (n - 1) as nat);
    if i == n - 1 {
        assert(all[before.len() as int] == x);
    } else {
        lemma_group_counts_from(group, rows, (n - 1) as nat, i);
        let p = before.index_of(x);
        assert(all[p] == x);
    }
}

pub proof fn lemma_stored_counts_from(groups: StrMap<StrMap<RowRecord>>, n: nat, g: int, i: int)
    requires
        0 <= g < n <= groups.keys().len(),
        0 <= i < groups.nth(g).keys().len(),
        groups.nth(g).nth(i).instr is Some,
    ensures
        ({
            let rows = groups.nth(g);
            let (subject, workload) = criterion_results::split_id(rows.keys()[i]);
            stored_counts(groups, n).contains(
                InstrRowView {
                    group: groups.keys()[g],
                    subject,
                    workload,
                    count: rows.nth(i).instr->0.count,
                },
            )
        }),
    decreases n,
{
    let rows = groups.nth(g);
    let (subject, workload) = criterion_results::split_id(rows.keys()[i]);
    let x = InstrRowView {
        group: groups.keys()[g],
        subject,
        workload,
        count: rows.nth(i).instr->0.count,
    };
    let before = stored_counts(groups, (n - 1) as nat);
    let last = group_counts(
        groups.keys()[n - 1],
        groups.nth(n - 1),
        groups.nth(n - 1).keys().len(),
    );
    let all = before + last;
    if g == n - 1 {
        lemma_group_counts_from(groups.keys()[g], rows, rows.keys().len(), i);
        let p = last.index_of(x);
        assert(all[before.len() + p] == x);
    } else {
        lemma_stored_counts_from(groups, (n - 1) as nat, g, i);
        let p = before.index_of(x);
        assert(all[p] == x);
    }
}

/// Every count that a record holds is carried forward, under the triple that
/// its row was stored under.
pub proof fn law_every_stored_count_is_carried(
    record: CommitRecord,
    group: Seq<char>,
    subject: Seq<char>,
    workload: Seq<char>,
)
    requires
        record.wf(),
        !subject.contains('/'),
        has_row(record.rows(), group, row_name_spec(subject, workload)),
        record.rows()[group][row_name_spec(subject, workload)].instr is Some,
    ensures
        stored_counts(record.groups, record.groups.keys().len()).contains(
            InstrRowView {
                group,
                subject,
                workload,
                count: record.rows()[group][row_name_spec(subject, workload)].instr->0.count,
            },
        ),
{
    let name = row_name_spec(subject, workload);
    let g = record.groups.position(group);
    assert(record.groups.has(group));
    assert(record.groups.keys()[g] == group);
    record.groups.lemma_nth(g);
    let rows = record.groups.nth(g);
    assert(rows.has(name));
    let i = rows.position(name);
    assert(rows.keys()[i] == name);
    rows.lemma_nth(i);
    law_row_names_split_back(subject, workload);
    lemma_stored_counts_from(record.groups, record.groups.keys().len(), g, i);
}

/// Attaching counts touches nothing else: the same groups and rows, with the
/// same walltime numbers.
pub proof fn law_counts_leave_walltime_alone(
    groups: Map<Seq<char>, Map<Seq<char>, RowRecord>>,
    ratios: Seq<InstrWorkloadRatios>,
    group: Seq<char>,
    name: Seq<char>,
)
    ensures
        ({
            let after = with_instr_ratios(groups, ratios);
            has_row(after, group, name) == has_row(groups, group, name) && (has_row(
                groups,
                group,
                name,
            ) ==> after[group][name].ns == groups[group][name].ns
                && after[group][name].ratio_vs_baseline == groups[group][name].ratio_vs_baseline)
        }),
    decreases ratios.len(),
{
    if ratios.len() > 0 {
        law_counts_leave_walltime_alone(groups, ratios.drop_last(), group, name);
        let wl = ratios.last();
        lemma_with_counts_walltime(
            with_instr_ratios(groups, ratios.drop_last()),
            wl.group@,
            wl.workload@,
            wl.rows@,
            group,
            name,
        );
    }
}

pub proof fn lemma_with_counts_walltime(
    groups: Map<Seq<char>, Map<Seq<char>, RowRecord>>,
    in_group: Seq<char>,
    workload: Seq<char>,
    rows: Seq<InstrRatioRow>,
    group: Seq<char>,
    name: Seq<char>,
)
    ensures
        ({
            let after = with_counts(groups, in_group, workload, rows);
            has_row(after, group, name) == has_row(groups, group, name) && (has_row(
                groups,
                group,
                name,
            ) ==> after[group][name].ns == groups[group][name].ns
                && after[group][name].ratio_vs_baseline == groups[group][name].ratio_vs_baseline)
        }),
    decreases rows.len(),
{
    if rows.len() > 0 {
        lemma_with_counts_walltime(groups, in_group, workload, rows.drop_last(), group, name);
    }
}

// ---------------------------------------------------------------------------
// Where things lie
// ---------------------------------------------------------------------------

/// All paths for one tracked repo under the data root.
#[derive(Debug, Clone, PartialEq, Eq)]
pub struct RepoStore {
    root: String,
}

/// `<day>-<first>..<last>`, both shas shortened.
pub open spec fn window_name(day: Seq<char>, first: Seq<char>, last: Seq<char>) -> Seq<char> {
    day + "-"@ + short_spec(first) + ".."@ + short_spec(last)
}

impl RepoStore {
    pub closed spec fn root_spec(self) -> Seq<char> {
        self.root@
    }

    pub open spec fn under(self, part: Seq<char>) -> Seq<char> {
        paths::join_spec(self.root_spec(), part)
    }

    pub fn new(data_root: &str, repo_name: &str) -> (r: RepoStore)
        ensures
            r.root_spec() == paths::join_spec(data_root@, repo_name@),
    {
        RepoStore { root: paths::join(data_root, repo_name) }
    }

    pub fn root(&self) -> (r: &str)
        ensures
            r@ == self.root_spec(),
    {
        self.root.as_str()
    }

    pub fn state_path(&self) -> (r: String)
        ensures
            r@ == self.under("state.json"@),
    {
        paths::join(self.root.as_str(), "state.json")
    }

    pub fn commits_dir(&self) -> (r: String)
        ensures
            r@ == self.under("commits"@),
    {
        paths::join(self.root.as_str(), "commits")
    }

    /// The directory of a commit: `commits/<day>-<shortsha>`.
    pub open spec fn commit_dir_spec(self, record: CommitRecord) -> Result<Seq<char>, Seq<char>> {
        match dates::day_spec(record.date@) {
            Ok(day) => Ok(
                paths::join_spec(
                    self.under("commits"@),
                    day + "-"@ + short_spec(record.commit@),
                ),
            ),
            Err(e) => Err(e),
        }
    }

    pub fn commit_dir(&self, record: &CommitRecord) -> (r: Result<String, String>)
        requires
            can_shorten(record.commit@),
        ensures
            match r {
                Ok(dir) => self.commit_dir_spec(*record) == Result::<Seq<char>, Seq<char>>::Ok(dir@),
                Err(e) => self.commit_dir_spec(*record) == Result::<Seq<char>, Seq<char>>::Err(e@),
            },
    {
        match record.day() {
            Ok(day) => {
                let name: String = text::cat3(day.as_str(), "-", record.short_sha());
                Ok(paths::join(self.commits_dir().as_str(), name.as_str()))
            },
            Err(e) => Err(e),
        }
    }

    fn window_dir(&self, kind: &str, day: &str, first_sha: &str, last_sha: &str) -> (r: String)
        requires
            can_shorten(first_sha@),
            can_shorten(last_sha@),
        ensures
            r@ == paths::join_spec(self.under(kind@), window_name(day@, first_sha@, last_sha@)),
    {
        let name: String = text::cat5(day, "-", short_sha(first_sha), "..", short_sha(last_sha));
        paths::join(paths::join(self.root.as_str(), kind).as_str(), name.as_str())
    }

    pub fn digest_dir(&self, day: &str, first_sha: &str, last_sha: &str) -> (r: String)
        requires
            can_shorten(first_sha@),
            can_shorten(last_sha@),
        ensures
            r@ == paths::join_spec(
                self.under("digests"@),
                window_name(day@, first_sha@, last_sha@),
            ),
    {
        self.window_dir("digests", day, first_sha, last_sha)
    }

    /// Ad-hoc window dir: same naming scheme as digests, under `trends/` so the
    /// automatic digests stay untouched.
    pub fn trend_dir(&self, day: &str, first_sha: &str, last_sha: &str) -> (r: String)
        requires
            can_shorten(first_sha@),
            can_shorten(last_sha@),
        ensures
            r@ == paths::join_spec(self.under("trends"@), window_name(day@, first_sha@, last_sha@)),
    {
        self.window_dir("trends", day, first_sha, last_sha)
    }

    pub fn flame_dir(&self, day: &str) -> (r: String)
        ensures
            r@ == paths::join_spec(self.under("flame"@), day@),
    {
        paths::join(paths::join(self.root.as_str(), "flame").as_str(), day)
    }
}

// ---------------------------------------------------------------------------
// Listing records
// ---------------------------------------------------------------------------

/// A record as it was found on disk, with the instant of its date.
#[derive(Debug, Clone, PartialEq)]
pub struct StoredRecord {
    pub dir: String,
    pub record: CommitRecord,
    /// None where the record's date cannot be read.
    pub instant: Option<i128>,
}

/// Dated records follow undated ones, in order of their instants.
pub open spec fn earlier(a: Option<i128>, b: Option<i128>) -> bool {
    match (a, b) {
        (None, Some(_)) => true,
        (Some(x), Some(y)) => x < y,
        _ => false,
    }
}

impl Ranked for StoredRecord {
    open spec fn before(self, other: StoredRecord) -> bool {
        earlier(self.instant, other.instant)
    }

    fn comes_before(&self, other: &StoredRecord) -> (r: bool) {
        match (self.instant, other.instant) {
            (None, Some(_)) => true,
            (Some(x), Some(y)) => x < y,
            _ => false,
        }
    }
}

/// A record with the instant that its date stands for.
pub fn stored_record(dir: String, record: CommitRecord) -> (r: StoredRecord)
    ensures
        r.dir == dir,
        r.record == record,
        r.instant == dates::instant_spec(record.date@),
{
    let instant: Option<i128> = dates::instant_of(record.date.as_str());
    StoredRecord { dir, record, instant }
}

/// Stored records by date, oldest first.
pub fn in_date_order(records: Vec<StoredRecord>) -> (r: Vec<StoredRecord>)
    ensures
        r@ == sorting::sorted(records@),
{
    sorting::sort(records)
}

/// The last `n` of a list.
pub open spec fn tail<T>(s: Seq<T>, n: nat) -> Seq<T> {
    if s.len() <= n {
        s
    } else {
        s.skip(s.len() - n)
    }
}

/// The most recent `n` of records in date order, oldest first.
pub fn most_recent(records: Vec<StoredRecord>, n: usize) -> (r: Vec<StoredRecord>)
    ensures
        r@ == tail(records@, n as nat),
{
    let total: usize = records.len();
    if total <= n {
        return records;
    }
    let mut all: Vec<StoredRecord> = records;
    let r: Vec<StoredRecord> = all.split_off(total - n);
    assert(r@ =~= tail(records@, n as nat));
    r
}

/// Recent records come out oldest first: no record is dated before an earlier
/// one in the list.
pub proof fn law_records_run_oldest_to_newest(records: Seq<StoredRecord>, i: int, j: int)
    requires
        0 <= i < j < records.len(),
    ensures
        !earlier(sorting::sorted(records)[j].instant, sorting::sorted(records)[i].instant),
        sorting::sorted(records).to_multiset() == records.to_multiset(),
{
    sorting::lemma_sorted_multiset(records);
    assert forall|a: StoredRecord, b: StoredRecord| #[trigger] a.before(b) implies !b.before(a) by {}
    assert forall|a: StoredRecord, b: StoredRecord, c: StoredRecord|
        !(#[trigger] a.before(b)) && !(#[trigger] b.before(c)) implies !a.before(c) by {}
    sorting::lemma_sorted_ordered(records);
    let s = sorting::sorted(records);
    assert(!s[j].before(s[i]));
}

// ---------------------------------------------------------------------------
// Retention
// ---------------------------------------------------------------------------

/// An entry of the `flame/` directory.
#[derive(Debug, Clone, PartialEq, Eq)]
pub struct FlameEntry {
    pub name: String,
    pub is_dir: bool,
}

/// The names of the directories that come before the cutoff day.
pub open spec fn stale(entries: Seq<FlameEntry>, cutoff: Seq<char>) -> Seq<String>
    decreases entries.len(),
{
    if entries.len() == 0 {
        Seq::empty()
    } else {
        let e = entries.last();
        let before = stale(entries.drop_last(), cutoff);
        if e.is_dir && text::lex_lt(e.name@, cutoff) {
            before.push(e.name)
        } else {
            before
        }
    }
}

/// Are these the `flame/<day>` directories older than `keep_days` days before
/// `today`, by name?
pub open spec fn are_stale(
    r: Result<Vec<String>, String>,
    entries: Seq<FlameEntry>,
    today: Seq<char>,
    keep_days: int,
) -> bool {
    match r {
        Ok(names) => dates::cutoff_spec(today, keep_days) matches Ok(cutoff) && names@
            == sorting::sorted(stale(entries, cutoff)),
        Err(e) => dates::cutoff_spec(today, keep_days) == Result::<Seq<char>, Seq<char>>::Err(e@),
    }
}

/// Which `flame/<day>` directories are past retention, by name: those older
/// than `keep_days` days before `today`.
pub fn stale_flame_dirs(entries: &Vec<FlameEntry>, today: &str, keep_days: u32) -> (r: Result<
    Vec<String>,
    String,
>)
    requires
        dates::reaches(today@, keep_days as int),
    ensures
        are_stale(r, entries@, today@, keep_days as int),
{
    let cutoff: String = match dates::cutoff_day(today, keep_days) {
        Ok(cutoff) => cutoff,
        Err(e) => return Err(e),
    };
    Ok(names_before(entries, cutoff.as_str()))
}

/// [`stale_flame_dirs`], where the calendar reaches the cutoff day.
pub fn prune_flame_dirs(entries: &Vec<FlameEntry>, today: &str, keep_days: u32) -> (r: Option<
    Result<Vec<String>, String>,
>)
    ensures
        match r {
            Some(names) => dates::reaches(today@, keep_days as int) && are_stale(
                names,
                entries@,
                today@,
                keep_days as int,
            ),
            None => !dates::reaches(today@, keep_days as int),
        },
{
    if dates::has_cutoff(today, keep_days) {
        Some(stale_flame_dirs(entries, today, keep_days))
    } else {
        None
    }
}

/// The directories that come before a given cutoff day, by name.
pub fn names_before(entries: &Vec<FlameEntry>, cutoff: &str) -> (r: Vec<String>)
    ensures
        r@ == sorting::sorted(stale(entries@, cutoff@)),
{
    let mut out: Vec<String> = Vec::new();
    let mut i: usize = 0;
    while i < entries.len()
        invariant
            i <= entries@.len(),
            out@ == stale(entries@.take(i as int), cutoff@),
        decreases entries@.len() - i,
    {
        proof {
            assert(entries@.take(i + 1).drop_last() =~= entries@.take(i as int));
            assert(entries@.take(i + 1).last() == entries@[i as int]);
        }
        if entries[i].is_dir && text::less(entries[i].name.as_str(), cutoff) {
            out.push(entries[i].name.clone());
        }
        i = i + 1;
    }
    assert(entries@.take(entries@.len() as int) =~= entries@);
    sorting::sort(out)
}

} // verus!
