//! The instructions lane: deterministic CPU instruction counts (`Ir`) per
//! benchmark, parsed from callgrind text profiles.
//!
//! Strictly additive beside the walltime lane: a lane failure never fails the
//! run unless the repo asks for it via `require_instructions`.
use crate::criterion_results;
use crate::criterion_results::{RatioCell, RatioInput, WorkloadCells, WorkloadKey};
use crate::double::Double;
use crate::keyed;
use crate::keyed::Keyed;
use crate::numerals;
use crate::paths;
use crate::sorting;
use crate::text;
use vstd::prelude::*;

verus! {

/// One benchmark's instruction count, keyed exactly like the walltime lane's
/// rows.
#[derive(Debug, Clone, PartialEq, Eq)]
pub struct InstrRow {
    pub group: String,
    pub subject: String,
    pub workload: String,
    /// Total `Ir` (instructions retired) for the traced benchmark part.
    pub count: u64,
}

/// What an instruction row says.
pub struct InstrRowView {
    pub group: Seq<char>,
    pub subject: Seq<char>,
    pub workload: Seq<char>,
    pub count: u64,
}

impl View for InstrRow {
    type V = InstrRowView;

    open spec fn view(&self) -> InstrRowView {
        InstrRowView {
            group: self.group@,
            subject: self.subject@,
            workload: self.workload@,
            count: self.count,
        }
    }
}

pub open spec fn row_views(rows: Seq<InstrRow>) -> Seq<InstrRowView> {
    rows.map_values(|r: InstrRow| r@)
}

proof fn lemma_row_views_push(rows: Seq<InstrRow>, x: InstrRow)
    ensures
        row_views(rows.push(x)) == row_views(rows).push(x@),
{
    assert(row_views(rows.push(x)) =~= row_views(rows).push(x@));
}

/// Everything one lane run produced: parsed rows plus the bench targets whose
/// build, run or parse failed (marked, not fatal).
#[derive(Debug, Clone, PartialEq, Eq)]
pub struct InstrCollection {
    pub rows: Vec<InstrRow>,
    pub failed_targets: Vec<String>,
}

impl Default for InstrCollection {
    fn default() -> (r: InstrCollection)
        ensures
            r.rows@.len() == 0,
            r.failed_targets@.len() == 0,
    {
        InstrCollection { rows: Vec::new(), failed_targets: Vec::new() }
    }
}

/// What a lane run came back with: a collection (possibly with per-target
/// failures inside), or a whole-lane skip carrying the human-readable reason.
/// The reason is data because `require_instructions` turns it into the run's
/// error message.
#[derive(Debug, Clone, PartialEq, Eq)]
pub enum CollectOutcome {
    Collected(InstrCollection),
    Skipped(String),
}

// ---------------------------------------------------------------------------
// Callgrind-text parsing
// ---------------------------------------------------------------------------

/// How far a profile was parsed: the current part's client-request payload,
/// the most recent `events:` columns, the parts found and the anomalies met.
pub struct ParseView {
    pub pending: Option<Seq<char>>,
    pub columns: Seq<Seq<char>>,
    pub parts: Seq<(Seq<char>, u64)>,
    pub warnings: Seq<Seq<char>>,
}

struct ParseState {
    pending: Option<String>,
    columns: Vec<String>,
    parts: Vec<(String, u64)>,
    warnings: Vec<String>,
}

pub open spec fn part_views(parts: Seq<(String, u64)>) -> Seq<(Seq<char>, u64)> {
    parts.map_values(|p: (String, u64)| (p.0@, p.1))
}

impl ParseState {
    spec fn view(&self) -> ParseView {
        ParseView {
            pending: text::opt_view(self.pending),
            columns: text::views(self.columns@),
            parts: part_views(self.parts@),
            warnings: text::views(self.warnings@),
        }
    }
}

pub open spec fn start_of_profile() -> ParseView {
    ParseView {
        pending: None,
        columns: Seq::empty(),
        parts: Seq::empty(),
        warnings: Seq::empty(),
    }
}

pub open spec fn no_column_warning(payload: Seq<char>) -> Seq<char> {
    "instructions lane: part '"@ + payload + "' has no Ir column — skipped"@
}

pub open spec fn malformed_warning(payload: Seq<char>, source: Seq<char>) -> Seq<char> {
    "instructions lane: malformed totals for part '"@ + payload + "' in "@ + source
        + " — skipped"@
}

pub open spec fn short_warning(
    payload: Seq<char>,
    source: Seq<char>,
    fields: nat,
    column: nat,
) -> Seq<char> {
    "instructions lane: totals for part '"@ + payload + "' in "@ + source + " has "@
        + numerals::digits(fields, 10) + " field(s), too few to reach the Ir column (index "@
        + numerals::digits(column, 10) + ") — skipped"@
}

/// Are all of these unsigned numbers?
pub open spec fn all_numbers(fields: Seq<Seq<char>>) -> bool {
    forall|i: int|
        0 <= i < fields.len() ==> numerals::parse_u64_spec(#[trigger] fields[i]) is Some
}

/// What a `totals:` line does: the pending payload is spent, and becomes a
/// part where the line gives its `Ir` count.
pub open spec fn totals_step(st: ParseView, values: Seq<char>, source: Seq<char>) -> ParseView {
    match st.pending {
        None => st,
        Some(payload) => {
            let spent = ParseView { pending: None, ..st };
            let column = text::position(st.columns, "Ir"@);
            let fields = text::words(values);
            if column >= st.columns.len() {
                ParseView { warnings: st.warnings.push(no_column_warning(payload)), ..spent }
            } else if !all_numbers(fields) {
                ParseView {
                    warnings: st.warnings.push(malformed_warning(payload, source)),
                    ..spent
                }
            } else if column >= fields.len() {
                ParseView {
                    warnings: st.warnings.push(
                        short_warning(payload, source, fields.len(), column),
                    ),
                    ..spent
                }
            } else {
                ParseView {
                    parts: st.parts.push(
                        (payload, numerals::parse_u64_spec(fields[column as int])->0),
                    ),
                    ..spent
                }
            }
        },
    }
}

/// What one line of a profile does.
pub open spec fn line_step(st: ParseView, line: Seq<char>, source: Seq<char>) -> ParseView {
    let request = "desc: Trigger: Client Request:"@;
    let trigger = "desc: Trigger:"@;
    let events = "events:"@;
    let totals = "totals:"@;
    if text::has_prefix(line, request) {
        ParseView { pending: Some(text::trim_spec(line.skip(request.len() as int))), ..st }
    } else if text::has_prefix(line, trigger) {
        ParseView { pending: None, ..st }
    } else if text::has_prefix(line, events) {
        ParseView { columns: text::words(line.skip(events.len() as int)), ..st }
    } else if text::has_prefix(line, totals) {
        totals_step(st, line.skip(totals.len() as int), source)
    } else {
        st
    }
}

pub open spec fn profile_after(lines: Seq<Seq<char>>, source: Seq<char>) -> ParseView
    decreases lines.len(),
{
    if lines.len() == 0 {
        start_of_profile()
    } else {
        line_step(profile_after(lines.drop_last(), source), lines.last(), source)
    }
}

/// The numbers of a line, where all of its fields are numbers.
fn numbers_of(fields: &Vec<String>) -> (r: Option<Vec<u64>>)
    ensures
        match r {
            Some(v) => all_numbers(text::views(fields@)) && v@.len() == fields@.len() && forall|
                i: int,
            |
                0 <= i < v@.len() ==> numerals::parse_u64_spec(fields@[i]@) == Some(#[trigger] v@[i]),
            None => !all_numbers(text::views(fields@)),
        },
{
    let mut out: Vec<u64> = Vec::new();
    let mut i: usize = 0;
    while i < fields.len()
        invariant
            i <= fields@.len(),
            out@.len() == i,
            forall|j: int|
                0 <= j < i ==> numerals::parse_u64_spec(fields@[j]@) == Some(#[trigger] out@[j]),
        decreases fields@.len() - i,
    {
        match numerals::parse_u64(fields[i].as_str()) {
            Some(n) => out.push(n),
            None => {
                assert(numerals::parse_u64_spec(text::views(fields@)[i as int]) is None);
                return None;
            },
        }
        i = i + 1;
    }
    proof {
        assert forall|j: int| 0 <= j < fields@.len() implies numerals::parse_u64_spec(
            #[trigger] text::views(fields@)[j],
        ) is Some by {
            assert(numerals::parse_u64_spec(fields@[j]@) == Some(out@[j]));
        }
    }
    Some(out)
}

impl ParseState {
    fn totals(&mut self, values: &str, source: &str)
        ensures
            final(self).view() == totals_step(old(self).view(), values@, source@),
    {
        let ghost before = self.view();
        let payload: String = match self.pending.take() {
            Some(p) => p,
            None => {
                assert(self.view().parts =~= before.parts);
                return;
            },
        };
        let column: usize = text::position_of(&self.columns, "Ir");
        if column >= self.columns.len() {
            let warning: String = text::cat3(
                "instructions lane: part '",
                payload.as_str(),
                "' has no Ir column — skipped",
            );
            let ghost had = self.warnings@;
            self.warnings.push(warning);
            proof {
                text::lemma_views_push(had, warning);
            }
            return;
        }
        let fields: Vec<String> = text::split_whitespace(values);
        match numbers_of(&fields) {
            None => {
                let warning: String = text::cat5(
                    "instructions lane: malformed totals for part '",
                    payload.as_str(),
                    "' in ",
                    source,
                    " — skipped",
                );
                let ghost had = self.warnings@;
                self.warnings.push(warning);
                proof {
                    text::lemma_views_push(had, warning);
                }
            },
            Some(numbers) => {
                if column >= numbers.len() {
                    let mut warning: String = text::cat5(
                        "instructions lane: totals for part '",
                        payload.as_str(),
                        "' in ",
                        source,
                        " has ",
                    );
                    warning.append(numerals::decimal(numbers.len() as u64).as_str());
                    warning.append(" field(s), too few to reach the Ir column (index ");
                    warning.append(numerals::decimal(column as u64).as_str());
                    warning.append(") — skipped");
                    let ghost had = self.warnings@;
                    self.warnings.push(warning);
                    proof {
                        text::lemma_views_push(had, warning);
                    }
                } else {
                    let ghost had = self.parts@;
                    self.parts.push((payload, numbers[column]));
                    proof {
                        assert(numerals::parse_u64_spec(fields@[column as int]@) == Some(
                            numbers@[column as int],
                        ));
                        assert(text::views(fields@)[column as int] == fields@[column as int]@);
                        assert(part_views(self.parts@) =~= part_views(had).push(
                            (payload@, numbers@[column as int]),
                        ));
                    }
                }
            },
        }
    }

    fn line(&mut self, line: &str, source: &str)
        ensures
            final(self).view() == line_step(old(self).view(), line@, source@),
    {
        match text::strip_prefix(line, "desc: Trigger: Client Request:") {
            Some(payload) => {
                self.pending = Some(text::trim(payload.as_str()));
                return;
            },
            None => {},
        }
        if text::starts_with(line, "desc: Trigger:") {
            self.pending = None;
            return;
        }
        match text::strip_prefix(line, "events:") {
            Some(names) => {
                self.columns = text::split_whitespace(names.as_str());
                return;
            },
            None => {},
        }
        match text::strip_prefix(line, "totals:") {
            Some(values) => {
                self.totals(values.as_str(), source);
            },
            None => {},
        }
    }
}

/// What a profile's text parses to.
pub struct ProfileParts {
    pub parts: Vec<(String, u64)>,
    pub warnings: Vec<String>,
}

/// Extracts `(client-request payload, Ir)` pairs from one callgrind text
/// profile. The `events:` line names the columns of the following `totals:`
/// line; callgrind omits trailing zero-valued columns, so a short totals line
/// is normal as long as it still reaches the `Ir` column. A part whose totals
/// cannot be read, or do not reach that column, is skipped with a warning
/// naming `source`, never recorded as 0. Parts triggered by anything other than
/// a client request carry no payload and are skipped.
pub fn parse_callgrind_parts(profile: &str, source: &str) -> (r: ProfileParts)
    ensures
        part_views(r.parts@) == profile_after(text::lines_spec(profile@), source@).parts,
        text::views(r.warnings@) == profile_after(text::lines_spec(profile@), source@).warnings,
{
    let lines: Vec<String> = text::lines(profile);
    let ghost all = text::views(lines@);
    let mut st = ParseState {
        pending: None,
        columns: Vec::new(),
        parts: Vec::new(),
        warnings: Vec::new(),
    };
    proof {
        assert(st.view().columns =~= Seq::empty());
        assert(st.view().parts =~= Seq::empty());
        assert(st.view().warnings =~= Seq::empty());
    }
    let mut i: usize = 0;
    while i < lines.len()
        invariant
            all == text::views(lines@),
            i <= lines@.len(),
            st.view() == profile_after(all.take(i as int), source@),
        decreases lines@.len() - i,
    {
        proof {
            assert(all.take(i + 1).drop_last() =~= all.take(i as int));
            assert(all.take(i + 1).last() == lines@[i as int]@);
        }
        st.line(lines[i].as_str(), source);
        i = i + 1;
    }
    assert(all.take(lines@.len() as int) =~= all);
    ProfileParts { parts: st.parts, warnings: st.warnings }
}

/// The triple of a bench URI: group and bench id are its last two `::`
/// segments (of at least three), and the bench id splits at its first `/`.
pub open spec fn triple_spec(uri: Seq<char>) -> Option<(Seq<char>, Seq<char>, Seq<char>)> {
    let segments = text::split_str_spec(uri, "::"@);
    if segments.len() < 3 {
        None
    } else {
        let (subject, workload) = criterion_results::split_id(segments[segments.len() - 1]);
        Some((segments[segments.len() - 2], subject, workload))
    }
}

/// Maps a CodSpeed bench URI to the same `(group, subject, workload)` triple
/// that the walltime lane derives from the criterion tree, so both lanes
/// produce identical row keys for the same benchmark. None for payloads that
/// are not bench URIs (CodSpeed's metadata travels the same channel).
pub fn uri_to_triple(uri: &str) -> (r: Option<(String, String, String)>)
    ensures
        match r {
            Some((g, s, w)) => triple_spec(uri@) == Some((g@, s@, w@)),
            None => triple_spec(uri@) is None,
        },
{
    proof {
        reveal_strlit("::");
    }
    let segments: Vec<String> = text::split_str(uri, "::");
    let n: usize = segments.len();
    let ghost all = text::views(segments@);
    if n < 3 {
        return None;
    }
    let group: String = segments[n - 2].clone();
    let (subject, workload) = criterion_results::split_function_id(segments[n - 1].as_str());
    proof {
        assert(all[n - 1] == segments@[n - 1]@);
        assert(all[n - 2] == segments@[n - 2]@);
    }
    Some((group, subject, workload))
}

/// What follows `prefix` on the first line that starts with it.
pub open spec fn first_with_prefix(
    lines: Seq<Seq<char>>,
    prefix: Seq<char>,
) -> Option<Seq<char>>
    decreases lines.len(),
{
    if lines.len() == 0 {
        None
    } else if text::has_prefix(lines[0], prefix) {
        Some(lines[0].skip(prefix.len() as int))
    } else {
        first_with_prefix(lines.drop_first(), prefix)
    }
}

/// The profile's creator, where its first `creator:` line names something
/// other than callgrind.
pub open spec fn foreign_creator(profile: Seq<char>) -> Option<Seq<char>> {
    match first_with_prefix(text::lines_spec(profile), "creator:"@) {
        Some(rest) => if text::has_prefix(text::trim_spec(rest), "callgrind-"@) {
            None
        } else {
            Some(text::trim_spec(rest))
        },
        None => None,
    }
}

/// A profile's `creator:` line names the tool that wrote it. Only the
/// callgrind text format can be read; another creator is returned so that the
/// caller can skip the whole file rather than mis-parse it. A callgrind
/// creator, or no creator line at all, gives none.
pub fn non_callgrind_creator(profile: &str) -> (r: Option<String>)
    ensures
        text::opt_view(r) == foreign_creator(profile@),
{
    let lines: Vec<String> = text::lines(profile);
    let ghost all = text::views(lines@);
    let mut i: usize = 0;
    proof {
        assert(all.skip(0) =~= all);
    }
    while i < lines.len()
        invariant
            all == text::views(lines@),
            all == text::lines_spec(profile@),
            i <= lines@.len(),
            first_with_prefix(all, "creator:"@) == first_with_prefix(
                all.skip(i as int),
                "creator:"@,
            ),
        decreases lines@.len() - i,
    {
        assert(all.skip(i as int)[0] == lines@[i as int]@);
        match text::strip_prefix(lines[i].as_str(), "creator:") {
            Some(rest) => {
                let creator: String = text::trim(rest.as_str());
                if text::starts_with(creator.as_str(), "callgrind-") {
                    return None;
                }
                return Some(creator);
            },
            None => {},
        }
        proof {
            assert(all.skip(i as int).drop_first() =~= all.skip(i + 1));
        }
        i = i + 1;
    }
    proof {
        assert(all.skip(i as int) =~= Seq::empty());
    }
    None
}

/// The rows of the parts that are benchmarks.
pub open spec fn bench_rows(parts: Seq<(Seq<char>, u64)>) -> Seq<InstrRowView>
    decreases parts.len(),
{
    if parts.len() == 0 {
        Seq::empty()
    } else {
        let before = bench_rows(parts.drop_last());
        match triple_spec(parts.last().0) {
            Some((group, subject, workload)) => before.push(
                InstrRowView { group, subject, workload, count: parts.last().1 },
            ),
            None => before,
        }
    }
}

/// The rows of a profile: none where another tool wrote it.
pub open spec fn profile_rows(profile: Seq<char>, source: Seq<char>) -> Seq<InstrRowView> {
    if foreign_creator(profile) is Some {
        Seq::empty()
    } else {
        bench_rows(profile_after(text::lines_spec(profile), source).parts)
    }
}

/// The anomalies met in a profile.
pub open spec fn profile_warnings(profile: Seq<char>, source: Seq<char>) -> Seq<Seq<char>> {
    match foreign_creator(profile) {
        Some(creator) => seq![
            "instructions lane: "@ + source + " was written by '"@ + creator
                + "', not callgrind — file skipped (profile-format drift?)"@,
        ],
        None => profile_after(text::lines_spec(profile), source).warnings,
    }
}

/// A parsed profile.
pub struct Profile {
    pub rows: Vec<InstrRow>,
    pub warnings: Vec<String>,
}

/// Parses one callgrind text profile into keyed rows, skipping non-bench parts
/// (metadata, program termination), with a warning per anomaly. A whole file
/// whose creator is not callgrind is skipped.
pub fn parse_callgrind_profile(profile: &str, source: &str) -> (r: Profile)
    ensures
        row_views(r.rows@) == profile_rows(profile@, source@),
        text::views(r.warnings@) == profile_warnings(profile@, source@),
{
    match non_callgrind_creator(profile) {
        Some(creator) => {
            let mut warnings: Vec<String> = Vec::new();
            let warning: String = text::cat5(
                "instructions lane: ",
                source,
                " was written by '",
                creator.as_str(),
                "', not callgrind — file skipped (profile-format drift?)",
            );
            let ghost message = warning@;
            warnings.push(warning);
            let rows: Vec<InstrRow> = Vec::new();
            proof {
                assert(text::views(warnings@) =~= seq![message]);
                assert(row_views(rows@) =~= Seq::empty());
            }
            Profile { rows, warnings }
        },
        None => {
            let parsed: ProfileParts = parse_callgrind_parts(profile, source);
            let parts: Vec<(String, u64)> = parsed.parts;
            let ghost all = part_views(parts@);
            let mut rows: Vec<InstrRow> = Vec::new();
            let mut i: usize = 0;
            proof {
                assert(row_views(rows@) =~= bench_rows(all.take(0)));
            }
            while i < parts.len()
                invariant
                    all == part_views(parts@),
                    i <= parts@.len(),
                    row_views(rows@) == bench_rows(all.take(i as int)),
                decreases parts@.len() - i,
            {
                proof {
                    assert(all.take(i + 1).drop_last() =~= all.take(i as int));
                    assert(all.take(i + 1).last() == (parts@[i as int].0@, parts@[i as int].1));
                }
                match uri_to_triple(parts[i].0.as_str()) {
                    Some((group, subject, workload)) => {
                        let ghost had = rows@;
                        let row = InstrRow { group, subject, workload, count: parts[i].1 };
                        let ghost row_view = row@;
                        rows.push(row);
                        proof {
                            lemma_row_views_push(had, row);
                        }
                    },
                    None => {},
                }
                i = i + 1;
            }
            assert(all.take(parts@.len() as int) =~= all);
            Profile { rows, warnings: parsed.warnings }
        },
    }
}

/// The rows of one callgrind text profile: see [`parse_callgrind_profile`].
pub fn parse_callgrind_rows(profile: &str, source: &str) -> (r: Vec<InstrRow>)
    ensures
        row_views(r@) == profile_rows(profile@, source@),
{
    parse_callgrind_profile(profile, source).rows
}

// ---------------------------------------------------------------------------
// Folding rows
// ---------------------------------------------------------------------------

impl Keyed for InstrRow {
    open spec fn key(self) -> Seq<Seq<char>> {
        seq![self.group@, self.subject@, self.workload@]
    }

    fn key_before(&self, other: &InstrRow) -> (r: bool) {
        proof {
            reveal_with_fuel(keyed::list_lt, 4);
            let (a, b) = (self.key(), other.key());
            assert(a.drop_first() =~= seq![self.subject@, self.workload@]);
            assert(b.drop_first() =~= seq![other.subject@, other.workload@]);
            assert(a.drop_first().drop_first() =~= seq![self.workload@]);
            assert(b.drop_first().drop_first() =~= seq![other.workload@]);
            assert(a.drop_first().drop_first().drop_first() =~= Seq::empty());
            assert(b.drop_first().drop_first().drop_first() =~= Seq::empty());
            text::lemma_lex_irreflexive(self.workload@);
        }
        if !text::same(self.group.as_str(), other.group.as_str()) {
            text::less(self.group.as_str(), other.group.as_str())
        } else if !text::same(self.subject.as_str(), other.subject.as_str()) {
            text::less(self.subject.as_str(), other.subject.as_str())
        } else {
            text::less(self.workload.as_str(), other.workload.as_str())
        }
    }
}

pub open spec fn triple_key(r: InstrRowView) -> Seq<Seq<char>> {
    seq![r.group, r.subject, r.workload]
}

/// The count of every benchmark, the last of those that share a key winning.
pub open spec fn latest_counts(rows: Seq<InstrRowView>) -> Map<Seq<Seq<char>>, u64>
    decreases rows.len(),
{
    if rows.len() == 0 {
        Map::empty()
    } else {
        latest_counts(rows.drop_last()).insert(triple_key(rows.last()), rows.last().count)
    }
}

/// In a list with one row per key, every row's count is the key's count.
proof fn lemma_counts_of_ordered(rows: Seq<InstrRow>)
    requires
        keyed::in_key_order(rows),
    ensures
        latest_counts(row_views(rows)).dom() =~= keyed::by_key(rows).dom(),
        forall|k: Seq<Seq<char>>|
            keyed::by_key(rows).dom().contains(k) ==> #[trigger] latest_counts(
                row_views(rows),
            )[k] == keyed::by_key(rows)[k].count,
    decreases rows.len(),
{
    let views = row_views(rows);
    if rows.len() == 0 {
        assert(views =~= Seq::empty());
    } else {
        let before = rows.drop_last();
        let x = rows.last();
        assert(row_views(before) =~= views.drop_last());
        assert(triple_key(views.last()) =~= x.key());
        assert forall|i: int, j: int| 0 <= i < j < before.len() implies keyed::list_lt(
            #[trigger] before[i].key(),
            #[trigger] before[j].key(),
        ) by {
            assert(before[i] == rows[i] && before[j] == rows[j]);
        }
        lemma_counts_of_ordered(before);
        assert forall|k: Seq<Seq<char>>|
            (#[trigger] keyed::has_key(rows, k) <==> keyed::has_key(before, k) || k == x.key()) && (
            keyed::has_key(rows, k) ==> latest_counts(views)[k] == keyed::by_key(
                rows,
            )[k].count) by {
            if keyed::has_key(before, k) {
                let i = keyed::key_position(before, k);
                assert(rows[i].key() == k);
                keyed::lemma_position_is(rows, i);
                keyed::lemma_position_is(before, i);
                if k == x.key() {
                    assert(keyed::list_lt(rows[i].key(), rows[rows.len() - 1].key()));
                    keyed::lemma_list_irreflexive(k);
                }
            }
            if k == x.key() {
                keyed::lemma_position_is(rows, rows.len() - 1);
            }
            if keyed::has_key(rows, k) {
                let i = keyed::key_position(rows, k);
                if i < before.len() {
                    assert(before[i].key() == k);
                } else {
                    assert(rows[i].key() == x.key());
                }
            }
        }
        assert forall|k: Seq<Seq<char>>|
            latest_counts(views).dom().contains(k) <==> keyed::by_key(rows).dom().contains(k) by {
            assert(keyed::has_key(rows, k) <==> keyed::by_key(rows).dom().contains(k));
            assert(keyed::has_key(before, k) <==> keyed::by_key(before).dom().contains(k));
        }
        assert(latest_counts(views).dom() =~= keyed::by_key(rows).dom());
        assert forall|k: Seq<Seq<char>>|
            keyed::by_key(rows).dom().contains(k) implies #[trigger] latest_counts(views)[k]
            == keyed::by_key(rows)[k].count by {
            assert(keyed::has_key(rows, k));
        }
    }
}

/// Folds rows into one list with a row per `(group, subject, workload)`, in
/// order, later occurrences winning.
pub fn dedupe_rows(rows: Vec<InstrRow>) -> (r: Vec<InstrRow>)
    ensures
        keyed::in_key_order(r@),
        latest_counts(row_views(r@)) == latest_counts(row_views(rows@)),
{
    let ghost all = rows@;
    let ghost views = row_views(all);
    let mut out: Vec<InstrRow> = Vec::new();
    let mut i: usize = 0;
    proof {
        assert(row_views(out@) =~= views.take(0));
    }
    while i < rows.len()
        invariant
            all == rows@,
            views == row_views(all),
            i <= rows@.len(),
            keyed::in_key_order(out@),
            latest_counts(row_views(out@)) == latest_counts(views.take(i as int)),
        decreases rows@.len() - i,
    {
        let x = InstrRow {
            group: rows[i].group.clone(),
            subject: rows[i].subject.clone(),
            workload: rows[i].workload.clone(),
            count: rows[i].count,
        };
        let ghost before = out@;
        proof {
            lemma_counts_of_ordered(before);
            assert(views.take(i + 1).drop_last() =~= views.take(i as int));
            assert(views.take(i + 1).last() == all[i as int]@);
            assert(triple_key(all[i as int]@) =~= x.key());
        }
        keyed::upsert(&mut out, x);
        proof {
            lemma_counts_of_ordered(out@);
            let a = latest_counts(row_views(out@));
            let b = latest_counts(views.take(i + 1));
            assert forall|k: Seq<Seq<char>>| a.dom().contains(k) implies a[k] == b[k] by {
                assert(keyed::by_key(out@).dom().contains(k));
                if k != x.key() {
                    assert(keyed::by_key(before).dom().contains(k));
                    assert(latest_counts(row_views(before))[k] == keyed::by_key(before)[k].count);
                }
            }
            assert(a =~= b);
        }
        i = i + 1;
    }
    assert(views.take(rows@.len() as int) =~= views);
    out
}

/// Does a file name end in `.out`, with something before it?
pub open spec fn is_profile_name(name: Seq<char>) -> bool {
    match text::rsplit_once_spec(name, '.') {
        Some((stem, extension)) => stem.len() > 0 && extension == "out"@,
        None => false,
    }
}

/// The names among `names` that are profiles, in the order given.
pub open spec fn profile_names(names: Seq<String>) -> Seq<String>
    decreases names.len(),
{
    if names.len() == 0 {
        Seq::empty()
    } else if is_profile_name(names.last()@) {
        profile_names(names.drop_last()).push(names.last())
    } else {
        profile_names(names.drop_last())
    }
}

/// Which files of a profile folder to read, and in which order: the `*.out`
/// ones, by name.
pub fn profile_files(names: &Vec<String>) -> (r: Vec<String>)
    ensures
        r@ == sorting::sorted(profile_names(names@)),
{
    let mut out: Vec<String> = Vec::new();
    let mut i: usize = 0;
    while i < names.len()
        invariant
            i <= names@.len(),
            out@ == profile_names(names@.take(i as int)),
        decreases names@.len() - i,
    {
        proof {
            assert(names@.take(i + 1).drop_last() =~= names@.take(i as int));
            assert(names@.take(i + 1).last() == names@[i as int]);
        }
        match text::rsplit_once(names[i].as_str(), '.') {
            Some((stem, extension)) => {
                if !stem.as_str().is_empty() && text::same(extension.as_str(), "out") {
                    out.push(names[i].clone());
                }
            },
            None => {},
        }
        i = i + 1;
    }
    assert(names@.take(names@.len() as int) =~= names@);
    sorting::sort(out)
}

/// One profile file, read.
pub struct ProfileText {
    pub source: String,
    pub text: String,
}

/// The rows of all profiles, one after the other.
pub open spec fn all_profile_rows(files: Seq<ProfileText>) -> Seq<InstrRowView>
    decreases files.len(),
{
    if files.len() == 0 {
        Seq::empty()
    } else {
        all_profile_rows(files.drop_last()) + profile_rows(
            files.last().text@,
            files.last().source@,
        )
    }
}

pub open spec fn all_profile_warnings(files: Seq<ProfileText>) -> Seq<Seq<char>>
    decreases files.len(),
{
    if files.len() == 0 {
        Seq::empty()
    } else {
        all_profile_warnings(files.drop_last()) + profile_warnings(
            files.last().text@,
            files.last().source@,
        )
    }
}

/// Parses every profile of a folder and folds the parts into one deduplicated
/// row list. The runner traces child processes too; only bench-binary
/// processes hold benchmark parts, so most files contribute nothing.
pub fn fold_profiles(files: &Vec<ProfileText>) -> (r: Profile)
    ensures
        keyed::in_key_order(r.rows@),
        latest_counts(row_views(r.rows@)) == latest_counts(all_profile_rows(files@)),
        text::views(r.warnings@) == all_profile_warnings(files@),
{
    let mut rows: Vec<InstrRow> = Vec::new();
    let mut warnings: Vec<String> = Vec::new();
    let mut i: usize = 0;
    proof {
        assert(row_views(rows@) =~= all_profile_rows(files@.take(0)));
        assert(text::views(warnings@) =~= all_profile_warnings(files@.take(0)));
    }
    while i < files.len()
        invariant
            i <= files@.len(),
            row_views(rows@) == all_profile_rows(files@.take(i as int)),
            text::views(warnings@) == all_profile_warnings(files@.take(i as int)),
        decreases files@.len() - i,
    {
        proof {
            assert(files@.take(i + 1).drop_last() =~= files@.take(i as int));
            assert(files@.take(i + 1).last() == files@[i as int]);
        }
        let parsed: Profile = parse_callgrind_profile(
            files[i].text.as_str(),
            files[i].source.as_str(),
        );
        let mut more: Vec<InstrRow> = parsed.rows;
        let mut notes: Vec<String> = parsed.warnings;
        let ghost (had, add) = (rows@, more@);
        let ghost (had_notes, add_notes) = (warnings@, notes@);
        rows.append(&mut more);
        warnings.append(&mut notes);
        proof {
            assert(row_views(rows@) =~= row_views(had) + row_views(add));
            assert(text::views(warnings@) =~= text::views(had_notes) + text::views(add_notes));
        }
        i = i + 1;
    }
    assert(files@.take(files@.len() as int) =~= files@);
    Profile { rows: dedupe_rows(rows), warnings }
}

// ---------------------------------------------------------------------------
// Ratios
// ---------------------------------------------------------------------------

/// One subject's instruction count and its ratio against the baseline
/// subject's count for the same `(group, workload)`.
#[derive(Debug, Clone, PartialEq)]
pub struct InstrRatioRow {
    pub subject: String,
    pub count: u64,
    pub ratio_vs_baseline: Option<Double>,
}

#[derive(Debug, Clone, PartialEq)]
pub struct InstrWorkloadRatios {
    pub group: String,
    pub workload: String,
    pub rows: Vec<InstrRatioRow>,
}

impl Keyed for InstrWorkloadRatios {
    open spec fn key(self) -> Seq<Seq<char>> {
        seq![self.group@, self.workload@]
    }

    fn key_before(&self, other: &InstrWorkloadRatios) -> (r: bool) {
        let a = WorkloadKey { group: self.group.clone(), workload: self.workload.clone() };
        let b = WorkloadKey { group: other.group.clone(), workload: other.workload.clone() };
        a.key_before(&b)
    }
}

impl RatioInput for InstrRow {
    open spec fn group_of(self) -> String {
        self.group
    }

    open spec fn subject_of(self) -> String {
        self.subject
    }

    open spec fn workload_of(self) -> String {
        self.workload
    }

    open spec fn value_of(self) -> Double {
        Double::from_nat_spec(self.count as nat)
    }

    fn group(&self) -> (r: &String) {
        &self.group
    }

    fn subject(&self) -> (r: &String) {
        &self.subject
    }

    fn workload(&self) -> (r: &String) {
        &self.workload
    }

    fn value(&self) -> (r: Double) {
        Double::from_u64(self.count)
    }
}

/// The count ratio rows of one workload, by subject.
pub open spec fn instr_ratio_rows_spec(
    rows: Seq<InstrRow>,
    group: Seq<char>,
    workload: Seq<char>,
    baseline_subject: Seq<char>,
) -> Seq<InstrRatioRow> {
    criterion_results::workload_cells(rows, group, workload, baseline_subject).map_values(
        |c: RatioCell|
            InstrRatioRow {
                subject: c.subject,
                count: rows[c.index as int].count,
                ratio_vs_baseline: c.ratio,
            },
    )
}

/// Is `r` the count ratio table of the rows?
pub open spec fn is_instr_ratio_table(
    r: Seq<InstrWorkloadRatios>,
    rows: Seq<InstrRow>,
    baseline_subject: Seq<char>,
) -> bool {
    &&& keyed::in_key_order(r)
    &&& forall|k: Seq<Seq<char>>| #[trigger]
        keyed::has_key(r, k) <==> exists|i: int|
            0 <= i < rows.len() && #[trigger] criterion_results::workload_key(rows[i]) == k
    &&& forall|i: int|
        0 <= i < r.len() ==> (#[trigger] r[i]).rows@ == instr_ratio_rows_spec(
            rows,
            r[i].group@,
            r[i].workload@,
            baseline_subject,
        )
}

/// Groups `rows` by `(group, workload)` and computes each subject's count
/// ratio against that workload's `baseline_subject` row: the counts twin of
/// `criterion_results::compute_ratios`, with the same order and the same
/// degenerate-baseline guard.
pub fn compute_instr_ratios(rows: &[InstrRow], baseline_subject: &str) -> (r: Vec<
    InstrWorkloadRatios,
>)
    ensures
        is_instr_ratio_table(r@, rows@, baseline_subject@),
{
    let tables: Vec<WorkloadCells> = criterion_results::compute_ratios_by_workload(
        rows,
        baseline_subject,
    );
    let mut out: Vec<InstrWorkloadRatios> = Vec::new();
    let mut i: usize = 0;
    while i < tables.len()
        invariant
            i <= tables@.len(),
            out@.len() == i,
            forall|a: int| 0 <= a < i ==> #[trigger] out@[a].key() == tables@[a].key(),
            forall|a: int|
                0 <= a < i ==> (#[trigger] out@[a]).rows@ == instr_ratio_rows_spec(
                    rows@,
                    out@[a].group@,
                    out@[a].workload@,
                    baseline_subject@,
                ),
            forall|a: int|
                0 <= a < tables@.len() ==> (#[trigger] tables@[a]).cells@
                    == criterion_results::workload_cells(
                    rows@,
                    tables@[a].group@,
                    tables@[a].workload@,
                    baseline_subject@,
                ),
            forall|a: int, b: int|
                0 <= a < tables@.len() && 0 <= b < tables@[a].cells@.len() ==> (
                #[trigger] tables@[a].cells@[b]).index < rows@.len(),
        decreases tables@.len() - i,
    {
        let table: &WorkloadCells = &tables[i];
        let ghost spec = instr_ratio_rows_spec(
            rows@,
            table.group@,
            table.workload@,
            baseline_subject@,
        );
        let mut ratio_rows: Vec<InstrRatioRow> = Vec::new();
        let mut j: usize = 0;
        while j < table.cells.len()
            invariant
                j <= table.cells@.len(),
                table.cells@ == criterion_results::workload_cells(
                    rows@,
                    table.group@,
                    table.workload@,
                    baseline_subject@,
                ),
                spec == instr_ratio_rows_spec(
                    rows@,
                    table.group@,
                    table.workload@,
                    baseline_subject@,
                ),
                forall|b: int|
                    0 <= b < table.cells@.len() ==> (#[trigger] table.cells@[b]).index
                        < rows@.len(),
                ratio_rows@ == spec.take(j as int),
            decreases table.cells@.len() - j,
        {
            let cell: &RatioCell = &table.cells[j];
            ratio_rows.push(
                InstrRatioRow {
                    subject: cell.subject.clone(),
                    count: rows[cell.index].count,
                    ratio_vs_baseline: cell.ratio,
                },
            );
            assert(spec.take(j + 1) =~= spec.take(j as int).push(spec[j as int]));
            j = j + 1;
        }
        assert(spec.take(spec.len() as int) =~= spec);
        out.push(
            InstrWorkloadRatios {
                group: table.group.clone(),
                workload: table.workload.clone(),
                rows: ratio_rows,
            },
        );
        i = i + 1;
    }
    proof {
        assert forall|a: int, b: int| 0 <= a < b < out@.len() implies keyed::list_lt(
            #[trigger] out@[a].key(),
            #[trigger] out@[b].key(),
        ) by {
            assert(out@[a].key() == tables@[a].key() && out@[b].key() == tables@[b].key());
        }
        assert forall|k: Seq<Seq<char>>| #[trigger]
            keyed::has_key(out@, k) <==> keyed::has_key(tables@, k) by {
            if keyed::has_key(out@, k) {
                let p = keyed::key_position(out@, k);
                assert(tables@[p].key() == k);
            }
            if keyed::has_key(tables@, k) {
                let p = keyed::key_position(tables@, k);
                assert(out@[p].key() == k);
            }
        }
    }
    out
}

// ---------------------------------------------------------------------------
// Collection: what to do next, and what came of it
// ---------------------------------------------------------------------------

/// Does some line, trimmed, equal `wanted`?
pub open spec fn has_line(s: Seq<char>, wanted: Seq<char>) -> bool {
    exists|i: int|
        0 <= i < text::lines_spec(s).len() && text::trim_spec(
            #[trigger] text::lines_spec(s)[i],
        ) == wanted
}

pub open spec fn lock_has_spec(lock_text: Seq<char>, pkg: Seq<char>) -> bool {
    has_line(lock_text, "name = \""@ + pkg + "\""@)
}

/// Does a `Cargo.lock`'s text resolve a `[[package]]` named `pkg`? Cargo
/// writes each package's name on its own `name = "<pkg>"` line.
pub fn lock_has_package(lock_text: &str, pkg: &str) -> (r: bool)
    ensures
        r == lock_has_spec(lock_text@, pkg@),
{
    let needle: String = text::cat3("name = \"", pkg, "\"");
    let lines: Vec<String> = text::lines(lock_text);
    let ghost all = text::lines_spec(lock_text@);
    let mut i: usize = 0;
    while i < lines.len()
        invariant
            all == text::lines_spec(lock_text@),
            all == text::views(lines@),
            needle@ == "name = \""@ + pkg@ + "\""@,
            i <= lines@.len(),
            forall|j: int| 0 <= j < i ==> text::trim_spec(#[trigger] all[j]) != needle@,
        decreases lines@.len() - i,
    {
        assert(all[i as int] == lines@[i as int]@);
        if text::same(text::trim(lines[i].as_str()).as_str(), needle.as_str()) {
            return true;
        }
        i = i + 1;
    }
    false
}

/// The bench harness without which the instrumented build has nothing to
/// trace.
pub open spec fn compat_dep() -> Seq<char> {
    "codspeed-criterion-compat"@
}

/// Why a checkout cannot be traced, judging by its lock file.
pub open spec fn compat_fault(
    lock_path: Seq<char>,
    lock: Result<Seq<char>, Seq<char>>,
) -> Option<Seq<char>> {
    match lock {
        Err(e) => Some("cannot read "@ + lock_path + " ("@ + e + ")"@),
        Ok(lock_text) => if lock_has_spec(lock_text, compat_dep()) {
            None
        } else {
            Some(
                compat_dep() + " not in "@ + lock_path
                    + " (bench harness dep absent; is the CodSpeed bench branch merged?)"@,
            )
        },
    }
}

pub open spec fn lock_view(lock: Result<String, String>) -> Result<Seq<char>, Seq<char>> {
    match lock {
        Ok(t) => Ok(t@),
        Err(e) => Err(e@),
    }
}

/// Checks that the tracked checkout's own lock file resolves the bench
/// harness, so that an unmerged bench branch skips the lane gracefully. An
/// unreadable lock file counts as an absent dependency. The error is the skip
/// reason.
pub fn compat_dep_check(lock_path: &str, lock: &Result<String, String>) -> (r: Result<(), String>)
    ensures
        match r {
            Ok(_) => compat_fault(lock_path@, lock_view(*lock)) is None,
            Err(reason) => compat_fault(lock_path@, lock_view(*lock)) == Some(reason@),
        },
{
    match lock {
        Err(e) => Err(text::cat5("cannot read ", lock_path, " (", e.as_str(), ")")),
        Ok(lock_text) => {
            if lock_has_package(lock_text.as_str(), "codspeed-criterion-compat") {
                Ok(())
            } else {
                Err(
                    text::cat4(
                        "codspeed-criterion-compat",
                        " not in ",
                        lock_path,
                        " (bench harness dep absent; is the CodSpeed bench branch merged?)",
                    ),
                )
            }
        },
    }
}

/// A version token without the one `v` that may lead it.
pub open spec fn after_v(token: Seq<char>) -> Seq<char> {
    if token.len() > 0 && token[0] == 'v' {
        token.skip(1)
    } else {
        token
    }
}

fn skip_v(token: &str) -> (r: String)
    ensures
        r@ == after_v(token@),
{
    proof {
        reveal_strlit("v");
        if token@.len() > 0 && token@[0] == 'v' {
            assert(token@.take(1) =~= "v"@);
        }
        if text::has_prefix(token@, "v"@) {
            assert("v"@[0] == token@.take(1)[0]);
        }
    }
    match text::strip_prefix(token, "v") {
        Some(rest) => rest,
        None => token.to_string(),
    }
}

/// Does a token look like a version: a digit first, after an optional `v`?
pub open spec fn version_shaped(token: Seq<char>) -> bool {
    let rest = after_v(token);
    rest.len() > 0 && numerals::is_digit(rest[0])
}

/// The first token that looks like a version.
pub open spec fn version_token(tokens: Seq<Seq<char>>) -> Option<Seq<char>>
    decreases tokens.len(),
{
    if tokens.len() == 0 {
        None
    } else if version_shaped(tokens[0]) {
        Some(tokens[0])
    } else {
        version_token(tokens.drop_first())
    }
}

/// The version token of a `--version` line like `cargo-codspeed 5.0.1`: the
/// first whitespace-separated token whose first character (after an optional
/// leading `v`) is a digit.
pub fn find_version_token(output: &str) -> (r: Option<String>)
    ensures
        text::opt_view(r) == version_token(text::words(output@)),
{
    let tokens: Vec<String> = text::split_whitespace(output);
    let ghost all = text::views(tokens@);
    let mut i: usize = 0;
    proof {
        assert(all.skip(0) =~= all);
    }
    while i < tokens.len()
        invariant
            all == text::views(tokens@),
            all == text::words(output@),
            i <= tokens@.len(),
            version_token(all) == version_token(all.skip(i as int)),
        decreases tokens@.len() - i,
    {
        assert(all.skip(i as int)[0] == tokens@[i as int]@);
        let rest: Vec<char> = text::chars_of(skip_v(tokens[i].as_str()).as_str());
        if rest.len() > 0 {
            let n: u32 = text::code(rest[0]);
            if 48 <= n && n <= 57 {
                return Some(tokens[i].clone());
            }
        }
        proof {
            assert(all.skip(i as int).drop_first() =~= all.skip(i + 1));
        }
        i = i + 1;
    }
    proof {
        assert(all.skip(i as int) =~= Seq::empty());
    }
    None
}

pub open spec fn major_spec(token: Seq<char>) -> Option<u64> {
    let rest = after_v(token);
    numerals::parse_u64_spec(text::split_spec(rest, '.')[0])
}

/// The integer major version of a version token (`5` from `5.0.1`, `6` from
/// `v6.2.0`), or none if it does not lead with an integer.
pub fn major_version(token: &str) -> (r: Option<u64>)
    ensures
        r == major_spec(token@),
{
    let rest: String = skip_v(token);
    let parts: Vec<String> = text::split(rest.as_str(), '.');
    assert(text::views(parts@)[0] == parts@[0]@);
    numerals::parse_u64(parts[0].as_str())
}

/// What came of running a tool's `--version`.
#[derive(Debug, Clone, PartialEq, Eq)]
pub enum Probe {
    /// It could not be run.
    Failed(String),
    /// It ran; `status` says how it exited.
    Ran { stdout: String, stderr: String, success: bool, status: String },
}

/// A tool's version, or why it is not usable: usable is what prints a version
/// banner (even on a failing exit, and on either stream), or prints anything
/// on a successful one.
pub open spec fn probe_spec(what: Seq<char>, probe: Probe) -> Result<Seq<char>, Seq<char>> {
    match probe {
        Probe::Failed(e) => Err(what + " not usable: "@ + e@),
        Probe::Ran { stdout, stderr, success, status } => {
            let combined = text::trim_spec(
                text::trim_spec(stdout@) + " "@ + text::trim_spec(stderr@),
            );
            match version_token(text::words(combined)) {
                Some(token) => Ok(token),
                None => if success && combined.len() > 0 {
                    Ok(combined)
                } else {
                    Err(
                        what + " not usable: `--version` exited "@ + status@
                            + " without a version banner"@,
                    )
                },
            }
        },
    }
}

pub fn judge_probe(what: &str, probe: &Probe) -> (r: Result<String, String>)
    ensures
        match r {
            Ok(version) => probe_spec(what@, *probe) == Result::<Seq<char>, Seq<char>>::Ok(version@),
            Err(reason) => probe_spec(what@, *probe) == Result::<Seq<char>, Seq<char>>::Err(reason@),
        },
{
    match probe {
        Probe::Failed(e) => Err(text::cat3(what, " not usable: ", e.as_str())),
        Probe::Ran { stdout, stderr, success, status } => {
            let joined: String = text::cat3(
                text::trim(stdout.as_str()).as_str(),
                " ",
                text::trim(stderr.as_str()).as_str(),
            );
            let combined: String = text::trim(joined.as_str());
            match find_version_token(combined.as_str()) {
                Some(token) => Ok(token),
                None => {
                    if *success && !combined.as_str().is_empty() {
                        Ok(combined)
                    } else {
                        Err(
                            text::cat4(
                                what,
                                " not usable: `--version` exited ",
                                status.as_str(),
                                " without a version banner",
                            ),
                        )
                    }
                },
            }
        },
    }
}

/// The versions of both host tools, or why the first unusable one is not.
pub open spec fn preflight_spec(
    codspeed: Probe,
    cargo_codspeed: Probe,
) -> Result<(Seq<char>, Seq<char>), Seq<char>> {
    match probe_spec("codspeed CLI"@, codspeed) {
        Err(reason) => Err(reason),
        Ok(first) => match probe_spec("cargo-codspeed"@, cargo_codspeed) {
            Err(reason) => Err(reason),
            Ok(second) => Ok((first, second)),
        },
    }
}

/// Judges the two host-provisioned tools, which are never installed from here.
/// The error is the skip reason.
pub fn preflight(codspeed: &Probe, cargo_codspeed: &Probe) -> (r: Result<(String, String), String>)
    ensures
        match r {
            Ok((a, b)) => preflight_spec(*codspeed, *cargo_codspeed) == Result::<
                (Seq<char>, Seq<char>),
                Seq<char>,
            >::Ok((a@, b@)),
            Err(reason) => preflight_spec(*codspeed, *cargo_codspeed) == Result::<
                (Seq<char>, Seq<char>),
                Seq<char>,
            >::Err(reason@),
        },
{
    match judge_probe("codspeed CLI", codspeed) {
        Err(reason) => Err(reason),
        Ok(first) => match judge_probe("cargo-codspeed", cargo_codspeed) {
            Err(reason) => Err(reason),
            Ok(second) => Ok((first, second)),
        },
    }
}

/// The callgrind format that the parser was validated against.
pub const VALIDATED_MAJOR: u64 = 5;

pub open spec fn version_notes_spec(
    codspeed: Seq<char>,
    cargo_codspeed: Seq<char>,
) -> Seq<Seq<char>> {
    let seen = "instructions lane: codspeed "@ + codspeed + ", cargo-codspeed "@ + cargo_codspeed;
    if major_spec(cargo_codspeed) == Some(VALIDATED_MAJOR) {
        seq![seen]
    } else {
        seq![
            seen,
            "instructions lane: warning — cargo-codspeed "@ + cargo_codspeed
                + " is not a 5.x release; callgrind parsing was validated against the 5.x profile format and may break"@,
        ]
    }
}

/// What to tell about the host tools: their versions, and a warning (counts
/// are still attempted) when cargo-codspeed's major is not the validated one.
pub fn version_notes(codspeed: &str, cargo_codspeed: &str) -> (r: Vec<String>)
    ensures
        text::views(r@) == version_notes_spec(codspeed@, cargo_codspeed@),
{
    let mut notes: Vec<String> = Vec::new();
    let seen: String = text::cat4(
        "instructions lane: codspeed ",
        codspeed,
        ", cargo-codspeed ",
        cargo_codspeed,
    );
    text::add_word(&mut notes, seen.as_str());
    let validated: bool = match major_version(cargo_codspeed) {
        Some(major) => major == VALIDATED_MAJOR,
        None => false,
    };
    if !validated {
        let warning: String = text::cat3(
            "instructions lane: warning — cargo-codspeed ",
            cargo_codspeed,
            " is not a 5.x release; callgrind parsing was validated against the 5.x profile format and may break",
        );
        text::add_word(&mut notes, warning.as_str());
    }
    assert(text::views(notes@) =~= version_notes_spec(codspeed@, cargo_codspeed@));
    notes
}

/// What to collect, and from where.
#[derive(Debug, Clone, PartialEq, Eq)]
pub struct CollectRequest {
    pub checkout: String,
    pub package: String,
    pub bench_targets: Vec<String>,
    pub bench_filter: Option<String>,
    pub profile_root: String,
    /// Host OS, as `std::env::consts::OS` names it.
    pub os: String,
}

/// What the collection has just learned.
#[derive(Debug, PartialEq, Eq)]
pub enum CollectEvent {
    Start,
    /// The checkout's lock file, or why it could not be read.
    Lock(Result<String, String>),
    /// What came of running `codspeed --version` and `cargo codspeed --version`.
    Probes(Probe, Probe),
}

/// What the collection does next.
#[derive(Debug, Clone, PartialEq, Eq)]
pub enum CollectAction {
    /// Read the lock file at this path.
    ReadLock(String),
    /// Run both version probes.
    RunProbes,
    /// Build and run every target, after printing these notes.
    RunTargets(Vec<String>),
    /// Skip the lane for this reason.
    Skip(String),
}

pub open spec fn lock_path_spec(req: CollectRequest) -> Seq<char> {
    paths::join_spec(req.checkout@, "Cargo.lock"@)
}

/// The next action: first the host OS is checked, then the checkout's lock
/// file, then the tools; each failure skips the lane with its reason.
pub open spec fn action_is(req: CollectRequest, event: CollectEvent, action: CollectAction) -> bool {
    match event {
        CollectEvent::Start => if req.os@ == "linux"@ {
            action matches CollectAction::ReadLock(path) && path@ == lock_path_spec(req)
        } else {
            action matches CollectAction::Skip(reason) && reason@ == "skipped on "@ + req.os@
                + " (CodSpeed simulation mode needs Linux/valgrind)"@
        },
        CollectEvent::Lock(lock) => match compat_fault(lock_path_spec(req), lock_view(lock)) {
            None => action is RunProbes,
            Some(fault) => action matches CollectAction::Skip(reason) && reason@ == fault,
        },
        CollectEvent::Probes(a, b) => match preflight_spec(a, b) {
            Ok((x, y)) => action matches CollectAction::RunTargets(notes) && text::views(notes@)
                == version_notes_spec(x, y),
            Err(fault) => action matches CollectAction::Skip(reason) && reason@ == fault,
        },
    }
}

/// Decides the next step of a lane run from what it has just learned.
pub fn next_action(req: &CollectRequest, event: &CollectEvent) -> (action: CollectAction)
    ensures
        action_is(*req, *event, action),
{
    match event {
        CollectEvent::Start => {
            if text::same(req.os.as_str(), "linux") {
                CollectAction::ReadLock(paths::join(req.checkout.as_str(), "Cargo.lock"))
            } else {
                CollectAction::Skip(
                    text::cat3(
                        "skipped on ",
                        req.os.as_str(),
                        " (CodSpeed simulation mode needs Linux/valgrind)",
                    ),
                )
            }
        },
        CollectEvent::Lock(lock) => {
            let path: String = paths::join(req.checkout.as_str(), "Cargo.lock");
            match compat_dep_check(path.as_str(), lock) {
                Ok(_) => CollectAction::RunProbes,
                Err(reason) => CollectAction::Skip(reason),
            }
        },
        CollectEvent::Probes(codspeed, cargo_codspeed) => match preflight(
            codspeed,
            cargo_codspeed,
        ) {
            Ok((a, b)) => CollectAction::RunTargets(version_notes(a.as_str(), b.as_str())),
            Err(reason) => CollectAction::Skip(reason),
        },
    }
}

/// The rows of the targets that were collected, one after the other.
pub open spec fn collected_rows(results: Seq<Option<Vec<InstrRow>>>) -> Seq<InstrRowView>
    decreases results.len(),
{
    if results.len() == 0 {
        Seq::empty()
    } else {
        let before = collected_rows(results.drop_last());
        match results.last() {
            Some(rows) => before + row_views(rows@),
            None => before,
        }
    }
}

/// The targets without a result.
pub open spec fn failed_of(
    targets: Seq<String>,
    results: Seq<Option<Vec<InstrRow>>>,
) -> Seq<String>
    decreases results.len(),
{
    if results.len() == 0 || targets.len() < results.len() {
        Seq::empty()
    } else {
        let before = failed_of(targets, results.drop_last());
        if results.last() is None {
            before.push(targets[results.len() - 1])
        } else {
            before
        }
    }
}

/// Puts the per-target results (none = that target failed) together.
pub fn assemble_collection(
    targets: &Vec<String>,
    results: &Vec<Option<Vec<InstrRow>>>,
) -> (r: InstrCollection)
    requires
        targets@.len() == results@.len(),
    ensures
        keyed::in_key_order(r.rows@),
        latest_counts(row_views(r.rows@)) == latest_counts(collected_rows(results@)),
        r.failed_targets@ == failed_of(targets@, results@),
{
    let mut rows: Vec<InstrRow> = Vec::new();
    let mut failed: Vec<String> = Vec::new();
    let mut i: usize = 0;
    proof {
        assert(row_views(rows@) =~= collected_rows(results@.take(0)));
    }
    while i < results.len()
        invariant
            targets@.len() == results@.len(),
            i <= results@.len(),
            row_views(rows@) == collected_rows(results@.take(i as int)),
            failed@ == failed_of(targets@, results@.take(i as int)),
        decreases results@.len() - i,
    {
        proof {
            assert(results@.take(i + 1).drop_last() =~= results@.take(i as int));
            assert(results@.take(i + 1).last() == results@[i as int]);
        }
        match &results[i] {
            Some(more) => {
                let mut copied: Vec<InstrRow> = copy_rows(more);
                let ghost (had, add) = (rows@, copied@);
                rows.append(&mut copied);
                assert(row_views(rows@) =~= row_views(had) + row_views(add));
            },
            None => {
                failed.push(targets[i].clone());
            },
        }
        i = i + 1;
    }
    assert(results@.take(results@.len() as int) =~= results@);
    InstrCollection { rows: dedupe_rows(rows), failed_targets: failed }
}

/// A copy of a row list.
pub fn copy_rows(rows: &Vec<InstrRow>) -> (r: Vec<InstrRow>)
    ensures
        r@ == rows@,
{
    let mut out: Vec<InstrRow> = Vec::new();
    let mut i: usize = 0;
    while i < rows.len()
        invariant
            i <= rows@.len(),
            out@ == rows@.take(i as int),
        decreases rows@.len() - i,
    {
        out.push(
            InstrRow {
                group: rows[i].group.clone(),
                subject: rows[i].subject.clone(),
                workload: rows[i].workload.clone(),
                count: rows[i].count,
            },
        );
        assert(rows@.take(i + 1) =~= rows@.take(i as int).push(rows@[i as int]));
        i = i + 1;
    }
    assert(rows@.take(rows@.len() as int) =~= rows@);
    out
}

/// Arguments of the instrumented build of one target (`cargo ...`).
pub fn build_args(package: &str, target: &str) -> (r: Vec<String>)
    ensures
        text::views(r@) == seq!["codspeed"@, "build"@, "-p"@, package@, "--bench"@, target@],
{
    let mut args: Vec<String> = Vec::new();
    text::add_word(&mut args, "codspeed");
    text::add_word(&mut args, "build");
    text::add_word(&mut args, "-p");
    text::add_word(&mut args, package);
    text::add_word(&mut args, "--bench");
    text::add_word(&mut args, target);
    assert(text::views(args@) =~= seq![
        "codspeed"@,
        "build"@,
        "-p"@,
        package@,
        "--bench"@,
        target@,
    ]);
    args
}

/// Arguments of the offline simulation run (`codspeed ...`).
pub open spec fn run_args_spec(profile_dir: Seq<char>, filter: Option<Seq<char>>) -> Seq<Seq<char>> {
    let fixed = seq![
        "run"@,
        "--skip-upload"@,
        "--mode"@,
        "simulation"@,
        "--profile-folder"@,
        profile_dir,
        "--"@,
        "cargo"@,
        "codspeed"@,
        "run"@,
    ];
    match filter {
        Some(f) => fixed.push(f),
        None => fixed,
    }
}

pub fn run_args(profile_dir: &str, bench_filter: &Option<String>) -> (r: Vec<String>)
    ensures
        text::views(r@) == run_args_spec(profile_dir@, text::opt_view(*bench_filter)),
{
    let mut args: Vec<String> = Vec::new();
    text::add_word(&mut args, "run");
    text::add_word(&mut args, "--skip-upload");
    text::add_word(&mut args, "--mode");
    text::add_word(&mut args, "simulation");
    text::add_word(&mut args, "--profile-folder");
    text::add_word(&mut args, profile_dir);
    text::add_word(&mut args, "--");
    text::add_word(&mut args, "cargo");
    text::add_word(&mut args, "codspeed");
    text::add_word(&mut args, "run");
    match bench_filter {
        Some(f) => text::add_word(&mut args, f.as_str()),
        None => {},
    }
    assert(text::views(args@) =~= run_args_spec(profile_dir@, text::opt_view(*bench_filter)));
    args
}

// ---------------------------------------------------------------------------
// Laws
// ---------------------------------------------------------------------------

/// Both lanes key a grouped benchmark alike: the bench URI of a benchmark
/// (`<anything>::<group>::<function id>`, or `<function id>/<value>` for a
/// parameterized one) maps to the row key that criterion's own files give.
/// A parameterized benchmark's function id must not end at its first `/`.
pub proof fn law_row_keys_agree_across_lanes(
    group: Seq<char>,
    function_id: Seq<char>,
    value: Option<Seq<char>>,
    uri: Seq<char>,
)
    requires
        ({
            let bench_id = match value {
                Some(v) => function_id + "/"@ + v,
                None => function_id,
            };
            let segments = text::split_str_spec(uri, "::"@);
            segments.len() >= 3 && segments[segments.len() - 2] == group
                && segments[segments.len() - 1] == bench_id
        }),
        value is Some ==> (text::split_once_spec(function_id, '/') matches Some((_, w)) ==> w.len()
            > 0),
    ensures
        ({
            let (subject, workload) = criterion_results::bench_key(group, Some(function_id), value);
            triple_spec(uri) == Some((group, subject, workload))
        }),
{
    match value {
        Some(v) => {
            let id = function_id + "/"@ + v;
            let n = text::span(function_id, text::except('/'));
            reveal_strlit("/");
            text::lemma_span_props(function_id, text::except('/'));
            assert forall|j: int| 0 <= j < n implies text::except('/')(#[trigger] id[j]) by {
                assert(id[j] == function_id[j]);
                assert(text::except('/')(function_id[j]));
            }
            assert(id[n as int] == '/') by {
                if n < function_id.len() {
                    assert(id[n as int] == function_id[n as int]);
                }
            }
            text::lemma_span_is(id, text::except('/'), n);
            if n < function_id.len() {
                assert(id.take(n as int) =~= function_id.take(n as int));
                assert(id.skip(n as int + 1) =~= function_id.skip(n as int + 1) + "/"@ + v);
            } else {
                assert(id.take(n as int) =~= function_id);
                assert(id.skip(n as int + 1) =~= v);
            }
        },
        None => {},
    }
}

/// A count is never invented: whatever follows a client request, a part is
/// recorded with the number that its `Ir` column holds, or not at all.
pub proof fn law_counts_come_from_the_ir_column(st: ParseView, values: Seq<char>, source: Seq<char>)
    ensures
        ({
            let after = totals_step(st, values, source);
            let column = text::position(st.columns, "Ir"@);
            after.parts == st.parts || (st.pending is Some && column < st.columns.len() && column
                < text::words(values).len() && after.parts == st.parts.push(
                (
                    st.pending->0,
                    numerals::parse_u64_spec(text::words(values)[column as int])->0,
                ),
            ))
        }),
{
}

} // verus!
