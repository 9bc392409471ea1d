//! The standalone measurement of a caller's checkout: walltime and/or
//! instruction counts of every row, as one document.
use crate::criterion_results;
use crate::criterion_results::Row;
use crate::double::Double;
use crate::instructions::{CollectOutcome, InstrRow};
use crate::numerals;
use crate::paths;
use crate::strmap::StrMap;
use crate::text;
use vstd::prelude::*;
use vstd::utf8::*;

verus! {

/// Inputs of one measurement.
#[derive(Debug, Clone, PartialEq, Eq)]
pub struct MeasureRequest {
    /// An existing checkout; the caller owns it, and no git command runs.
    pub checkout: String,
    pub package: String,
    pub bench_targets: Vec<String>,
    pub instructions: bool,
    pub walltime: bool,
    /// Only benchmarks that this matches, in both lanes.
    pub bench_filter: Option<String>,
    /// Host OS, as `std::env::consts::OS` names it.
    pub os: String,
}

/// The metrics of one row; none where that lane has no value for it.
#[derive(Debug, Clone, Copy, PartialEq, Eq)]
pub struct MeasureRow {
    pub ns: Option<Double>,
    pub instr_count: Option<u64>,
}

/// Where a measurement comes from.
#[derive(Debug, Clone, PartialEq, Eq)]
pub struct MeasureMeta {
    /// What `rustc -V` says.
    pub rustc: String,
    /// See [`profile_fingerprint`].
    pub profile_fingerprint: String,
}

/// The whole document.
#[derive(Debug, Clone, PartialEq, Eq)]
pub struct MeasureOutput {
    /// Row keys → metrics.
    pub rows: StrMap<MeasureRow>,
    pub meta: MeasureMeta,
}

// ---------------------------------------------------------------------------
// The request
// ---------------------------------------------------------------------------

pub open spec fn request_fault(req: MeasureRequest, checkout_is_dir: bool) -> Option<Seq<char>> {
    if !req.instructions && !req.walltime {
        Some("at least one of --instructions / --walltime is required"@)
    } else if req.bench_targets@.len() == 0 {
        Some("at least one --bench-target is required"@)
    } else if !checkout_is_dir {
        Some("checkout is not a directory: "@ + req.checkout@)
    } else {
        None
    }
}

/// Checks the shape of a request before any work.
pub fn validate_request(req: &MeasureRequest, checkout_is_dir: bool) -> (r: Result<(), String>)
    ensures
        match r {
            Ok(_) => request_fault(*req, checkout_is_dir) is None,
            Err(e) => request_fault(*req, checkout_is_dir) == Some(e@),
        },
{
    if !req.instructions && !req.walltime {
        Err("at least one of --instructions / --walltime is required".to_string())
    } else if req.bench_targets.len() == 0 {
        Err("at least one --bench-target is required".to_string())
    } else if !checkout_is_dir {
        Err(text::cat2("checkout is not a directory: ", req.checkout.as_str()))
    } else {
        Ok(())
    }
}

// ---------------------------------------------------------------------------
// The document
// ---------------------------------------------------------------------------

/// The mean of the last walltime row with this key.
pub open spec fn ns_of(rows: Seq<Row>, key: Seq<char>) -> Option<Double>
    decreases rows.len(),
{
    if rows.len() == 0 {
        None
    } else {
        let r = rows.last();
        if criterion_results::row_key_spec(r.group@, r.subject@, r.workload@) == key {
            Some(r.mean_ns)
        } else {
            ns_of(rows.drop_last(), key)
        }
    }
}

/// The count of the last instruction row with this key.
pub open spec fn count_of(rows: Seq<InstrRow>, key: Seq<char>) -> Option<u64>
    decreases rows.len(),
{
    if rows.len() == 0 {
        None
    } else {
        let r = rows.last();
        if criterion_results::row_key_spec(r.group@, r.subject@, r.workload@) == key {
            Some(r.count)
        } else {
            count_of(rows.drop_last(), key)
        }
    }
}

pub open spec fn walltime_rows(walltime: Option<&[Row]>) -> Seq<Row> {
    match walltime {
        Some(rows) => rows@,
        None => Seq::empty(),
    }
}

pub open spec fn instr_rows(instructions: Option<&[InstrRow]>) -> Seq<InstrRow> {
    match instructions {
        Some(rows) => rows@,
        None => Seq::empty(),
    }
}

/// The map has exactly the rows that a lane measured, with what each lane says
/// of them.
pub open spec fn is_merged(
    merged: Map<Seq<char>, MeasureRow>,
    walltime: Seq<Row>,
    instructions: Seq<InstrRow>,
) -> bool {
    forall|key: Seq<char>|
        #![trigger merged.dom().contains(key)]
        {
            &&& merged.dom().contains(key) <==> (ns_of(walltime, key) is Some || count_of(
                instructions,
                key,
            ) is Some)
            &&& merged.dom().contains(key) ==> merged[key].ns == ns_of(walltime, key)
                && merged[key].instr_count == count_of(instructions, key)
        }
}

/// Puts the document together from what the lanes collected.
pub fn assemble(
    walltime: Option<&[Row]>,
    instructions: Option<&[InstrRow]>,
    rustc: &str,
    profile_fingerprint: &str,
) -> (r: MeasureOutput)
    ensures
        r.rows.wf(),
        is_merged(r.rows@, walltime_rows(walltime), instr_rows(instructions)),
        r.meta.rustc@ == rustc@,
        r.meta.profile_fingerprint@ == profile_fingerprint@,
{
    let ghost wt = walltime_rows(walltime);
    let ghost ins = instr_rows(instructions);
    let mut rows: StrMap<MeasureRow> = StrMap::new();
    match walltime {
        Some(all) => {
            let mut i: usize = 0;
            while i < all.len()
                invariant
                    i <= all@.len(),
                    wt == all@,
                    rows.wf(),
                    is_merged(rows@, wt.take(i as int), Seq::empty()),
                decreases all@.len() - i,
            {
                let row: &Row = &all[i];
                let key: String = criterion_results::row_key(
                    row.group.as_str(),
                    row.subject.as_str(),
                    row.workload.as_str(),
                );
                proof {
                    let next = wt.take(i + 1);
                    assert(next.drop_last() =~= wt.take(i as int));
                    assert(next.last() == *row);
                }
                rows.insert(key, MeasureRow { ns: Some(row.mean_ns), instr_count: None });
                i = i + 1;
            }
            assert(wt.take(all@.len() as int) =~= wt);
        },
        None => {},
    }
    assert(is_merged(rows@, wt, Seq::empty()));
    match instructions {
        Some(all) => {
            let mut i: usize = 0;
            assert(ins.take(0) =~= Seq::empty());
            while i < all.len()
                invariant
                    i <= all@.len(),
                    ins == all@,
                    rows.wf(),
                    is_merged(rows@, wt, ins.take(i as int)),
                decreases all@.len() - i,
            {
                let row: &InstrRow = &all[i];
                let key: String = criterion_results::row_key(
                    row.group.as_str(),
                    row.subject.as_str(),
                    row.workload.as_str(),
                );
                proof {
                    let next = ins.take(i + 1);
                    assert(next.drop_last() =~= ins.take(i as int));
                    assert(next.last() == *row);
                    assert(rows@.dom().contains(key@) <==> rows.has(key@));
                }
                let ns: Option<Double> = match rows.get(key.as_str()) {
                    Some(known) => known.ns,
                    None => None,
                };
                rows.insert(key, MeasureRow { ns, instr_count: Some(row.count) });
                i = i + 1;
            }
            assert(ins.take(all@.len() as int) =~= ins);
        },
        None => {},
    }
    MeasureOutput {
        rows,
        meta: MeasureMeta {
            rustc: rustc.to_string(),
            profile_fingerprint: profile_fingerprint.to_string(),
        },
    }
}

/// A lane that did not run leaves no values in the document, and a row that
/// neither lane measured is not in it.
pub proof fn law_absent_lanes_leave_no_values(
    merged: Map<Seq<char>, MeasureRow>,
    walltime: Seq<Row>,
    instructions: Seq<InstrRow>,
    key: Seq<char>,
)
    requires
        is_merged(merged, walltime, instructions),
        merged.dom().contains(key),
    ensures
        walltime.len() == 0 ==> merged[key].ns is None && merged[key].instr_count is Some,
        instructions.len() == 0 ==> merged[key].instr_count is None && merged[key].ns is Some,
        merged[key].ns is Some || merged[key].instr_count is Some,
{
}

// ---------------------------------------------------------------------------
// The profile fingerprint
// ---------------------------------------------------------------------------

/// What is open at a place in a TOML text: brackets of arrays and inline
/// tables, and the quotes of a string, which may run over lines (`true`) or
/// not.
pub struct Lex {
    pub open: Seq<char>,
    pub quote: Option<(char, bool)>,
}

/// Nothing is open.
pub open spec fn idle() -> Lex {
    Lex { open: Seq::empty(), quote: None }
}

/// Do three of these quotes stand at `i`?
pub open spec fn three_at(s: Seq<char>, q: char, i: int) -> bool {
    i + 2 < s.len() && s[i] == q && s[i + 1] == q && s[i + 2] == q
}

/// Where the three quotes at `i` that close a string end: the string may hold
/// one or two quotes right before them.
pub open spec fn closed_at(s: Seq<char>, q: char, i: int) -> int {
    if i + 3 >= s.len() || s[i + 3] != q {
        i + 3
    } else if i + 4 >= s.len() || s[i + 4] != q {
        i + 4
    } else {
        i + 5
    }
}

/// A line read from `i` on: where its comment starts (or where it ends), and
/// what is open behind it. A backslash takes the next character along in double
/// quotes.
pub open spec fn scanned(s: Seq<char>, i: int, lex: Lex) -> (int, Lex)
    decreases s.len() + 1 - i,
{
    if i >= s.len() {
        (
            s.len() as int,
            Lex {
                quote: match lex.quote {
                    Some((q, true)) => Some((q, true)),
                    _ => None,
                },
                ..lex
            },
        )
    } else {
        let c = s[i];
        match lex.quote {
            None => if c == '#' {
                (i, lex)
            } else if c == '"' || c == '\'' {
                if three_at(s, c, i) {
                    scanned(s, i + 3, Lex { quote: Some((c, true)), ..lex })
                } else {
                    scanned(s, i + 1, Lex { quote: Some((c, false)), ..lex })
                }
            } else if c == '[' || c == '{' {
                scanned(s, i + 1, Lex { open: lex.open.push(c), ..lex })
            } else if (c == ']' || c == '}') && lex.open.len() > 0 {
                scanned(s, i + 1, Lex { open: lex.open.drop_last(), ..lex })
            } else {
                scanned(s, i + 1, lex)
            },
            Some((q, long)) => if q == '"' && c == '\\' {
                scanned(s, i + 2, lex)
            } else if long && three_at(s, q, i) {
                scanned(s, closed_at(s, q, i), Lex { quote: None, ..lex })
            } else if !long && c == q {
                scanned(s, i + 1, Lex { quote: None, ..lex })
            } else {
                scanned(s, i + 1, lex)
            },
        }
    }
}

/// What is open behind a line.
pub open spec fn lex_after(line: Seq<char>, lex: Lex) -> Lex {
    scanned(line, 0, lex).1
}

/// A line without the comment at its end, trimmed.
pub open spec fn uncommented(line: Seq<char>) -> Seq<char> {
    text::trim_spec(line.take(scanned(line, 0, idle()).0))
}

/// Is a line a table header: in brackets, with nothing but a comment behind it,
/// where no array, inline table or string is open?
pub open spec fn is_header(line: Seq<char>, lex: Lex) -> bool {
    let t = uncommented(line);
    lex == idle() && text::has_prefix(t, "["@) && text::has_suffix(t, "]"@)
}

/// How many lines stand before the next table header.
pub open spec fn body_len(lines: Seq<Seq<char>>, lex: Lex) -> nat
    decreases lines.len(),
{
    if lines.len() == 0 || is_header(lines[0], lex) {
        0
    } else {
        1 + body_len(lines.drop_first(), lex_after(lines[0], lex))
    }
}

/// How many lines stand before the first one that is this header.
pub open spec fn header_at(lines: Seq<Seq<char>>, header: Seq<char>, lex: Lex) -> nat
    decreases lines.len(),
{
    if lines.len() == 0 || (lex == idle() && uncommented(lines[0]) == header) {
        0
    } else {
        1 + header_at(lines.drop_first(), header, lex_after(lines[0], lex))
    }
}

/// A text without the newlines at its end.
pub open spec fn without_newlines(s: Seq<char>) -> Seq<char>
    decreases s.len(),
{
    if s.len() > 0 && s.last() == '\n' {
        without_newlines(s.drop_last())
    } else {
        s
    }
}

/// The body of a TOML table: the text behind its header line, up to the next
/// header, without the newlines at its end. Empty where there is no such table.
pub open spec fn section_spec(source: Seq<char>, section: Seq<char>) -> Seq<char> {
    let lines = text::lines_spec(source);
    let at = header_at(lines, "["@ + section + "]"@, idle());
    if at >= lines.len() {
        Seq::empty()
    } else {
        let rest = lines.skip(at as int + 1);
        without_newlines(text::join_spec(rest.take(body_len(rest, idle()) as int), "\n"@))
    }
}

fn strip_newlines(s: &str) -> (r: String)
    ensures
        r@ == without_newlines(s@),
    decreases s@.len(),
{
    match text::strip_suffix(s, "\n") {
        Some(front) => {
            proof {
                reveal_strlit("\n");
                assert(s@.skip(s@.len() - 1)[0] == "\n"@[0]);
                assert(front@ =~= s@.drop_last());
            }
            strip_newlines(front.as_str())
        },
        None => {
            proof {
                reveal_strlit("\n");
                if s@.len() > 0 && s@.last() == '\n' {
                    assert(s@.skip(s@.len() - 1) =~= "\n"@);
                    assert(text::has_suffix(s@, "\n"@));
                }
            }
            s.to_string()
        },
    }
}

/// What is open while a TOML text is read line by line.
struct Reader {
    open: Vec<char>,
    quote: Option<(char, bool)>,
}

impl View for Reader {
    type V = Lex;

    closed spec fn view(&self) -> Lex {
        Lex { open: self.open@, quote: self.quote }
    }
}

fn is_three_at(s: &Vec<char>, q: char, i: usize) -> (r: bool)
    requires
        i < s@.len(),
    ensures
        r == three_at(s@, q, i as int),
{
    s.len() - i > 2 && s[i] == q && s[i + 1] == q && s[i + 2] == q
}

fn find_closed(s: &Vec<char>, q: char, i: usize) -> (r: usize)
    requires
        three_at(s@, q, i as int),
    ensures
        r == closed_at(s@, q, i as int),
        i < r <= s@.len(),
{
    if s.len() - i == 3 || s[i + 3] != q {
        i + 3
    } else if s.len() - i == 4 || s[i + 4] != q {
        i + 4
    } else {
        i + 5
    }
}

impl Reader {
    fn idle() -> (r: Reader)
        ensures
            r@ == idle(),
    {
        let r = Reader { open: Vec::new(), quote: None };
        assert(r@.open =~= Seq::empty());
        r
    }

    fn is_idle(&self) -> (r: bool)
        ensures
            r == (self@ == idle()),
    {
        let r: bool = self.open.len() == 0 && self.quote.is_none();
        proof {
            if r {
                assert(self@.open =~= Seq::empty());
            } else if self@ == idle() {
                assert(self@.open.len() == 0);
            }
        }
        r
    }

    /// Reads a line; returns where its comment starts.
    fn read(&mut self, s: &Vec<char>) -> (r: usize)
        ensures
            scanned(s@, 0, old(self)@) == (r as int, final(self)@),
            r <= s@.len(),
    {
        let n: usize = s.len();
        let mut i: usize = 0;
        while i < n
            invariant
                i <= n,
                n == s@.len(),
                scanned(s@, 0, old(self)@) == scanned(s@, i as int, self@),
            decreases n - i,
        {
            let c: char = s[i];
            match self.quote {
                None => {
                    if c == '#' {
                        return i;
                    }
                    if c == '"' || c == '\'' {
                        let long: bool = is_three_at(s, c, i);
                        self.quote = Some((c, long));
                        i = if long {
                            i + 3
                        } else {
                            i + 1
                        };
                    } else {
                        if c == '[' || c == '{' {
                            self.open.push(c);
                        } else if (c == ']' || c == '}') && self.open.len() > 0 {
                            self.open.pop();
                        }
                        i = i + 1;
                    }
                },
                Some((q, long)) => {
                    if q == '"' && c == '\\' {
                        if n - i == 1 {
                            assert(scanned(s@, i + 2, self@) == scanned(s@, i + 1, self@));
                            i = i + 1;
                        } else {
                            i = i + 2;
                        }
                    } else if long && is_three_at(s, q, i) {
                        self.quote = None;
                        i = find_closed(s, q, i);
                    } else {
                        if !long && c == q {
                            self.quote = None;
                        }
                        i = i + 1;
                    }
                },
            }
        }
        if let Some((_, false)) = self.quote {
            self.quote = None;
        }
        n
    }
}

fn without_comment(line: &str) -> (r: String)
    ensures
        r@ == uncommented(line@),
{
    let v: Vec<char> = text::chars_of(line);
    let mut reader: Reader = Reader::idle();
    let end: usize = reader.read(&v);
    let bare: String = text::slice(&v, 0, end);
    assert(bare@ =~= line@.take(end as int));
    text::trim(bare.as_str())
}

fn is_table_header(line: &str, reader: &Reader) -> (r: bool)
    ensures
        r == is_header(line@, reader@),
{
    let t: String = without_comment(line);
    reader.is_idle() && text::starts_with(t.as_str(), "[") && text::ends_with(t.as_str(), "]")
}

/// The body of a TOML table named `section`, without its header. Empty when the
/// table is absent.
pub fn extract_toml_section(source: &str, section: &str) -> (r: String)
    ensures
        r@ == section_spec(source@, section@),
{
    let header: String = text::cat3("[", section, "]");
    let lines: Vec<String> = text::lines(source);
    let n: usize = lines.len();
    let ghost all = text::lines_spec(source@);
    let mut at: usize = 0;
    assert(all.skip(0) =~= all);
    let mut found: bool = false;
    let mut reader: Reader = Reader::idle();
    while at < n && !found
        invariant
            at <= n,
            n == lines@.len(),
            text::views(lines@) == all,
            found ==> at < n && reader@ == idle() && uncommented(all[at as int]) == header@,
            header_at(all, header@, idle()) == at + header_at(
                all.skip(at as int),
                header@,
                reader@,
            ),
        decreases n - at + (if found { 0int } else { 1int }),
    {
        assert(all.skip(at as int)[0] == lines@[at as int]@);
        let t: String = without_comment(lines[at].as_str());
        if reader.is_idle() && text::same(t.as_str(), header.as_str()) {
            found = true;
        } else {
            reader.read(&text::chars_of(lines[at].as_str()));
            assert(all.skip(at as int).drop_first() =~= all.skip(at + 1));
            at = at + 1;
        }
    }
    if !found {
        assert(all.skip(at as int).len() == 0);
        return String::new();
    }
    assert(all.skip(at as int)[0] == all[at as int]);
    let ghost rest = all.skip(at + 1);
    let mut body: Vec<String> = Vec::new();
    let mut i: usize = at + 1;
    assert(text::views(body@) =~= rest.take(0));
    assert(rest.skip(0) =~= rest);
    let mut ended: bool = false;
    while i < n && !ended
        invariant
            at < i <= n,
            n == lines@.len(),
            text::views(lines@) == all,
            rest == all.skip(at + 1),
            text::views(body@) == rest.take(i - at - 1),
            body_len(rest, idle()) == i - at - 1 + body_len(rest.skip(i - at - 1), reader@),
            ended ==> i < n && is_header(all[i as int], reader@),
        decreases n - i + (if ended { 0int } else { 1int }),
    {
        assert(rest.skip(i - at - 1)[0] == lines@[i as int]@);
        if is_table_header(lines[i].as_str(), &reader) {
            ended = true;
        } else {
            reader.read(&text::chars_of(lines[i].as_str()));
            let ghost before = body@;
            body.push(lines[i].clone());
            proof {
                assert(text::views(body@) =~= text::views(before).push(lines@[i as int]@));
                assert(rest.take(i - at) =~= rest.take(i - at - 1).push(rest[i - at - 1]));
                assert(rest.skip(i - at - 1).drop_first() =~= rest.skip(i - at));
            }
            i = i + 1;
        }
    }
    proof {
        if ended {
            assert(rest.skip(i - at - 1)[0] == all[i as int]);
        } else {
            assert(rest.skip(i - at - 1).len() == 0);
        }
    }
    strip_newlines(text::join(&body, "\n").as_str())
}

/// What is open before line `i`.
pub open spec fn lex_at(lines: Seq<Seq<char>>, lex: Lex, i: nat) -> Lex
    decreases i,
{
    if i == 0 || lines.len() == 0 {
        lex
    } else {
        lex_at(lines.drop_first(), lex_after(lines[0], lex), (i - 1) as nat)
    }
}

/// A table's body runs up to the next header, and holds none: no line of it is
/// one where it stands.
pub proof fn law_bodies_end_at_the_next_header(lines: Seq<Seq<char>>, lex: Lex, i: nat)
    requires
        i <= body_len(lines, lex),
    ensures
        body_len(lines, lex) <= lines.len(),
        i < body_len(lines, lex) ==> !is_header(lines[i as int], lex_at(lines, lex, i)),
        i == body_len(lines, lex) && i < lines.len() ==> is_header(
            lines[i as int],
            lex_at(lines, lex, i),
        ),
    decreases lines.len(),
{
    if body_len(lines, lex) > 0 {
        let rest = lines.drop_first();
        let next = lex_after(lines[0], lex);
        if i > 0 {
            law_bodies_end_at_the_next_header(rest, next, (i - 1) as nat);
            if i < lines.len() {
                assert(rest[i - 1] == lines[i as int]);
            }
        } else {
            law_bodies_end_at_the_next_header(rest, next, 0);
        }
    }
}

pub const FNV_OFFSET: u64 = 0xcbf2_9ce4_8422_2325;

pub const FNV_PRIME: u64 = 0x0000_0100_0000_01b3;

/// FNV-1a, 64 bits: each byte is mixed in, then the hash is multiplied by the
/// prime, modulo the word size.
pub open spec fn fnv1a64_spec(data: Seq<u8>) -> u64
    decreases data.len(),
{
    if data.len() == 0 {
        FNV_OFFSET
    } else {
        let mixed: u64 = fnv1a64_spec(data.drop_last()) ^ (data.last() as u64);
        ((mixed * FNV_PRIME) % 0x1_0000_0000_0000_0000) as u64
    }
}

/// A stable, dependency-free hash for the fingerprint.
pub fn fnv1a64(data: &[u8]) -> (r: u64)
    ensures
        r == fnv1a64_spec(data@),
{
    let mut hash: u64 = FNV_OFFSET;
    let mut i: usize = 0;
    while i < data.len()
        invariant
            i <= data@.len(),
            hash == fnv1a64_spec(data@.take(i as int)),
        decreases data@.len() - i,
    {
        proof {
            assert(data@.take(i + 1).drop_last() =~= data@.take(i as int));
            assert(data@.take(i + 1).last() == data@[i as int]);
        }
        hash = hash ^ (data[i] as u64);
        hash = hash.wrapping_mul(FNV_PRIME);
        i = i + 1;
    }
    assert(data@.take(data@.len() as int) =~= data@);
    hash
}

fn add_bytes(out: &mut Vec<u8>, s: &str)
    ensures
        final(out)@ == old(out)@ + encode_utf8(s@),
{
    let bytes: &[u8] = s.as_bytes();
    let n: usize = bytes.len();
    let ghost before = out@;
    let mut i: usize = 0;
    while i < n
        invariant
            i <= n,
            n == bytes@.len(),
            bytes@ == encode_utf8(s@),
            out@ == before + bytes@.take(i as int),
        decreases n - i,
    {
        out.push(bytes[i]);
        assert(bytes@.take(i + 1) =~= bytes@.take(i as int).push(bytes@[i as int]));
        i = i + 1;
    }
    assert(bytes@.take(n as int) =~= bytes@);
}

/// The fingerprint of a toolchain and of the profiles in a `Cargo.toml`:
/// `rustc`, a bar, and the hash of the release section, a zero byte and the
/// bench section, in sixteen hex digits.
pub open spec fn fingerprint_spec(cargo_toml: Seq<char>, rustc: Seq<char>) -> Seq<char> {
    let hashed = encode_utf8(section_spec(cargo_toml, "profile.release"@)).push(0)
        + encode_utf8(section_spec(cargo_toml, "profile.bench"@));
    rustc + "|"@ + numerals::zero_padded(numerals::digits(fnv1a64_spec(hashed) as nat, 16), 16)
}

/// The profile fingerprint of a checkout, from the text of its root
/// `Cargo.toml` (empty where it has none) and what `rustc -V` says.
pub fn profile_fingerprint(cargo_toml: &str, rustc: &str) -> (r: String)
    ensures
        r@ == fingerprint_spec(cargo_toml@, rustc@),
{
    let release: String = extract_toml_section(cargo_toml, "profile.release");
    let bench: String = extract_toml_section(cargo_toml, "profile.bench");
    let mut bytes: Vec<u8> = Vec::new();
    add_bytes(&mut bytes, release.as_str());
    bytes.push(0);
    add_bytes(&mut bytes, bench.as_str());
    proof {
        let hashed = encode_utf8(section_spec(cargo_toml@, "profile.release"@)).push(0)
            + encode_utf8(section_spec(cargo_toml@, "profile.bench"@));
        assert(bytes@ =~= hashed);
    }
    let hash: u64 = fnv1a64(bytes.as_slice());
    let hex: String = numerals::padded_hex(hash, 16);
    text::cat3(rustc, "|", hex.as_str())
}

/// Two `Cargo.toml`s with the same profile sections have the same fingerprint
/// under one toolchain: nothing else of the file counts.
pub proof fn law_fingerprint_sees_only_the_profiles(a: Seq<char>, b: Seq<char>, rustc: Seq<char>)
    requires
        section_spec(a, "profile.release"@) == section_spec(b, "profile.release"@),
        section_spec(a, "profile.bench"@) == section_spec(b, "profile.bench"@),
    ensures
        fingerprint_spec(a, rustc) == fingerprint_spec(b, rustc),
{
}

// ---------------------------------------------------------------------------
// The lanes
// ---------------------------------------------------------------------------

pub open spec fn walltime_fault(
    targets: nat,
    failed: nat,
    tree_exists: bool,
    criterion_dir: Seq<char>,
) -> Option<Seq<char>> {
    if failed == targets {
        Some(
            "all "@ + numerals::digits(targets, 10)
                + " walltime bench target(s) failed — no data to report"@,
        )
    } else if !tree_exists {
        Some("walltime benches finished but no criterion tree at "@ + criterion_dir)
    } else {
        None
    }
}

/// Did the walltime benches leave anything to scan?
pub fn run_walltime(
    req: &MeasureRequest,
    failed: &Vec<String>,
    tree_exists: bool,
    criterion_dir: &str,
) -> (r: Result<(), String>)
    ensures
        match r {
            Ok(_) => walltime_fault(
                req.bench_targets@.len(),
                failed@.len(),
                tree_exists,
                criterion_dir@,
            ) is None,
            Err(e) => walltime_fault(
                req.bench_targets@.len(),
                failed@.len(),
                tree_exists,
                criterion_dir@,
            ) == Some(e@),
        },
{
    if failed.len() == req.bench_targets.len() {
        let count: String = numerals::decimal(req.bench_targets.len() as u64);
        Err(
            text::cat3(
                "all ",
                count.as_str(),
                " walltime bench target(s) failed — no data to report",
            ),
        )
    } else if !tree_exists {
        Err(text::cat2("walltime benches finished but no criterion tree at ", criterion_dir))
    } else {
        Ok(())
    }
}

/// Where the instructions lane keeps its profiles: under the checkout's
/// `target/`, so that measurements of different checkouts do not collide.
pub fn profile_root(checkout: &str) -> (r: String)
    ensures
        r@ == paths::join_spec(
            paths::join_spec(checkout@, "target"@),
            "_measure_instr_profiles"@,
        ),
{
    let target: String = paths::join(checkout, "target");
    paths::join(target.as_str(), "_measure_instr_profiles")
}

pub open spec fn lane_fault(outcome: CollectOutcome) -> Option<Seq<char>> {
    match outcome {
        CollectOutcome::Skipped(reason) => Some("--instructions failed: "@ + reason@),
        CollectOutcome::Collected(c) => if c.failed_targets@.len() > 0 {
            Some(
                "--instructions: "@ + numerals::digits(c.failed_targets@.len(), 10)
                    + " target(s) failed: "@ + text::join_spec(
                    text::views(c.failed_targets@),
                    ", "@,
                ),
            )
        } else {
            None
        },
    }
}

/// The rows of the instructions lane. The measurement asked for it, so a skip
/// or a failed target is an error.
pub fn run_instructions(outcome: CollectOutcome) -> (r: Result<Vec<InstrRow>, String>)
    ensures
        match r {
            Ok(rows) => {
                &&& lane_fault(outcome) is None
                &&& outcome matches CollectOutcome::Collected(c)
                &&& rows == c.rows
            },
            Err(e) => lane_fault(outcome) == Some(e@),
        },
{
    match outcome {
        CollectOutcome::Skipped(reason) => Err(
            text::cat2("--instructions failed: ", reason.as_str()),
        ),
        CollectOutcome::Collected(c) => {
            if c.failed_targets.len() > 0 {
                let count: String = numerals::decimal(c.failed_targets.len() as u64);
                let names: String = text::join(&c.failed_targets, ", ");
                Err(
                    text::cat4(
                        "--instructions: ",
                        count.as_str(),
                        " target(s) failed: ",
                        names.as_str(),
                    ),
                )
            } else {
                Ok(c.rows)
            }
        },
    }
}

/// The instruction rows of a measurement's outcome.
pub open spec fn outcome_rows(instructions: Option<CollectOutcome>) -> Seq<InstrRow> {
    match instructions {
        Some(CollectOutcome::Collected(c)) => c.rows@,
        _ => Seq::empty(),
    }
}

pub open spec fn measure_fault(instructions: Option<CollectOutcome>) -> Option<Seq<char>> {
    match instructions {
        Some(outcome) => lane_fault(outcome),
        None => None,
    }
}

/// The document of a measurement, from what the requested lanes came back with
/// (none = that lane was not asked for).
pub fn measure(
    walltime: Option<&[Row]>,
    instructions: Option<CollectOutcome>,
    cargo_toml: &str,
    rustc: &str,
) -> (r: Result<MeasureOutput, String>)
    ensures
        match r {
            Ok(out) => {
                &&& measure_fault(instructions) is None
                &&& out.rows.wf()
                &&& is_merged(out.rows@, walltime_rows(walltime), outcome_rows(instructions))
                &&& out.meta.rustc@ == rustc@
                &&& out.meta.profile_fingerprint@ == fingerprint_spec(cargo_toml@, rustc@)
            },
            Err(e) => measure_fault(instructions) == Some(e@),
        },
{
    let fingerprint: String = profile_fingerprint(cargo_toml, rustc);
    match instructions {
        Some(outcome) => match run_instructions(outcome) {
            Ok(rows) => Ok(
                assemble(walltime, Some(rows.as_slice()), rustc, fingerprint.as_str()),
            ),
            Err(e) => Err(e),
        },
        None => Ok(assemble(walltime, None, rustc, fingerprint.as_str())),
    }
}

} // verus!
