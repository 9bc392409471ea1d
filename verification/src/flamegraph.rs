//! Nightly flame graphs: what to profile and render, folding and demangling of
//! the profiler's output, and the SVGs.
use crate::config::{FlameWorkloadPair, FlamegraphConfig, RepoConfig};
use crate::json;
use crate::json::{Json, JsonView};
use crate::numerals;
use crate::paths;
use crate::text;
use vstd::multiset::Multiset;
use vstd::prelude::*;
use vstd::utf8::*;

verus! {

/// Everything a flame-graph run produced. Archive-only: nothing is posted.
#[derive(Debug, Clone, PartialEq, Eq)]
pub struct FlamegraphOutcome {
    /// The sha that was profiled (branch HEAD at checkout time).
    pub sha: String,
    pub flame_dir: String,
    /// `flame/<day>` directories removed by retention pruning.
    pub pruned: Vec<String>,
}

/// Benchmark id → safe file stem.
pub fn workload_file_stem(benchmark_id: &str) -> (r: String)
    ensures
        r@ == text::replace_spec(benchmark_id@, '/', '_'),
{
    text::replace(benchmark_id, '/', '_')
}

/// A file stem holds no path separator.
pub proof fn law_file_stems_hold_no_separator(id: Seq<char>, i: int)
    requires
        0 <= i < id.len(),
    ensures
        text::replace_spec(id, '/', '_').len() == id.len(),
        text::replace_spec(id, '/', '_')[i] != '/',
{
}

// ---------------------------------------------------------------------------
// Counts of folded text
// ---------------------------------------------------------------------------

/// What a run of digits counts: its value, as far as 64 bits go.
pub open spec fn counted(run: nat) -> nat {
    if run <= u64::MAX {
        run
    } else {
        0
    }
}

/// Is `open` the value of a run of digits, as far as it is counted?
spec fn is_open(open: u128, run: nat) -> bool {
    if run <= u64::MAX {
        open == run
    } else {
        open == 0x1_0000_0000_0000_0000
    }
}

/// A run of digits, one digit longer.
fn one_more(open: u128, digit: u8) -> (r: u128)
    requires
        48 <= digit <= 57,
        open <= 0x1_0000_0000_0000_0000,
    ensures
        forall|run: nat| #[trigger]
            is_open(open, run) ==> is_open(r, run * 10 + (digit - 48) as nat),
        r <= 0x1_0000_0000_0000_0000,
{
    let next: u128 = open * 10 + (digit - 48) as u128;
    if next > 0xffff_ffff_ffff_ffff {
        0x1_0000_0000_0000_0000
    } else {
        next
    }
}

/// What is read of a folded text so far: the counts of its finished lines, the
/// numbers in the last two words with digits of the open line, and the open
/// word, whose last run of digits may be open too.
pub struct Tally {
    pub lines: nat,
    pub older: nat,
    pub newer: nat,
    pub word: nat,
    pub run: nat,
    pub digits: bool,
}

/// A word ends: it is the newer of two where it has digits.
pub open spec fn word_ended(t: Tally) -> Tally {
    let value = t.word + counted(t.run);
    if t.digits {
        Tally { older: t.newer, newer: value, word: 0, run: 0, digits: false, ..t }
    } else {
        Tally { word: 0, run: 0, ..t }
    }
}

pub open spec fn tally_after(bytes: Seq<u8>) -> Tally
    decreases bytes.len(),
{
    if bytes.len() == 0 {
        Tally { lines: 0, older: 0, newer: 0, word: 0, run: 0, digits: false }
    } else {
        let t = tally_after(bytes.drop_last());
        let b = bytes.last();
        if 48 <= b <= 57 {
            Tally { run: t.run * 10 + (b - 48) as nat, digits: true, ..t }
        } else if b == 32 {
            word_ended(t)
        } else if b == 10 {
            let end = word_ended(t);
            Tally { lines: end.lines + end.older + end.newer, older: 0, newer: 0, ..end }
        } else {
            Tally { word: t.word + counted(t.run), run: 0, ..t }
        }
    }
}

/// The sum of the counts of a folded text: over all lines, the numbers in the
/// last two words that have digits. A line has one count, or two where it
/// compares.
pub open spec fn count_sum(bytes: Seq<u8>) -> nat {
    let end = word_ended(tally_after(bytes));
    end.lines + end.older + end.newer
}

/// The counts of a folded text add up, 150 times over, to no more than a signed
/// machine word holds: neither sums nor color scales can overflow.
pub open spec fn countable(bytes: Seq<u8>) -> bool {
    150 * count_sum(bytes) <= isize::MAX
}

/// The sum of the counts of a folded text.
fn add_counts(bytes: &[u8]) -> (r: u128)
    ensures
        r == count_sum(bytes@),
{
    let mut lines: u128 = 0;
    let mut older: u128 = 0;
    let mut newer: u128 = 0;
    let mut word: u128 = 0;
    let mut open: u128 = 0;
    let mut digits: bool = false;
    let mut i: usize = 0;
    while i < bytes.len()
        invariant
            i <= bytes@.len(),
            is_open(open, tally_after(bytes@.take(i as int)).run),
            tally_after(bytes@.take(i as int)) == (Tally {
                lines: lines as nat,
                older: older as nat,
                newer: newer as nat,
                word: word as nat,
                digits,
                ..tally_after(bytes@.take(i as int))
            }),
            !digits ==> open == 0 && word == 0,
            lines + older + newer + word <= i * 0xffff_ffff_ffff_ffff,
        decreases bytes@.len() - i,
    {
        let b: u8 = bytes[i];
        proof {
            assert(bytes@.take(i + 1).drop_last() =~= bytes@.take(i as int));
            assert(bytes@.take(i + 1).last() == b);
            assert((i + 1) * 0xffff_ffff_ffff_ffff == i * 0xffff_ffff_ffff_ffff
                + 0xffff_ffff_ffff_ffff);
            assert(i * 0xffff_ffff_ffff_ffff <= 0xffff_ffff_ffff_ffff * 0xffff_ffff_ffff_ffff)
                by (nonlinear_arith)
                requires
                    i <= 0xffff_ffff_ffff_ffff,
            ;
        }
        let value: u128 = if open <= 0xffff_ffff_ffff_ffff {
            word + open
        } else {
            word
        };
        if b >= 48 && b <= 57 {
            open = one_more(open, b);
            digits = true;
        } else if b == 32 || b == 10 {
            if digits {
                older = newer;
                newer = value;
            }
            word = 0;
            open = 0;
            digits = false;
            if b == 10 {
                lines = lines + older + newer;
                older = 0;
                newer = 0;
            }
        } else {
            word = value;
            open = 0;
        }
        i = i + 1;
    }
    proof {
        assert(bytes@.take(bytes@.len() as int) =~= bytes@);
        assert(i * 0xffff_ffff_ffff_ffff <= 0xffff_ffff_ffff_ffff * 0xffff_ffff_ffff_ffff)
            by (nonlinear_arith)
            requires
                i <= 0xffff_ffff_ffff_ffff,
        ;
    }
    if digits {
        let value: u128 = if open <= 0xffff_ffff_ffff_ffff {
            word + open
        } else {
            word
        };
        lines + newer + value
    } else {
        lines + older + newer
    }
}

/// Can the counts of a folded text be added up?
pub fn is_countable(folded: &[u8]) -> (r: bool)
    ensures
        r == countable(folded@),
{
    add_counts(folded) <= (isize::MAX as u128) / 150
}

/// Can the counts of two folded texts be added up together?
pub fn are_countable(before: &[u8], after: &[u8]) -> (r: bool)
    ensures
        r == (150 * (count_sum(before@) + count_sum(after@)) <= isize::MAX),
{
    let most: u128 = (isize::MAX as u128) / 150;
    let first: u128 = add_counts(before);
    first <= most && add_counts(after) <= most - first
}

// ---------------------------------------------------------------------------
// Folding
// ---------------------------------------------------------------------------

/// Where the line that starts at `at` ends: at its newline, or at the end of
/// the text.
pub open spec fn line_end(bytes: Seq<u8>, at: int) -> int
    decreases bytes.len() - at,
{
    if at < 0 || at >= bytes.len() || bytes[at] == 10 {
        at
    } else {
        line_end(bytes, at + 1)
    }
}

pub proof fn lemma_line_end(bytes: Seq<u8>, at: int)
    ensures
        at <= line_end(bytes, at),
        at <= bytes.len() ==> line_end(bytes, at) <= bytes.len(),
    decreases bytes.len() - at,
{
    if 0 <= at < bytes.len() && bytes[at] != 10 {
        lemma_line_end(bytes, at + 1);
    }
}

/// How many digits and slashes stand right before `j`.
pub open spec fn id_before(line: Seq<char>, j: int) -> nat
    decreases j,
{
    if 0 < j <= line.len() && '/' <= line[j - 1] <= '9' {
        id_before(line, j - 1) + 1
    } else {
        0
    }
}

/// Does a process id end before `j`: digits (and slashes) between spaces?
pub open spec fn id_ends(line: Seq<char>, j: int) -> bool {
    let n = id_before(line, j);
    0 <= j < line.len() && line[j] == ' ' && n > 0 && j - n - 1 >= 0 && line[j - n - 1] == ' '
}

/// Does a line hold a process id?
pub open spec fn has_id(line: Seq<char>) -> bool {
    exists|j: int| #[trigger] id_ends(line, j)
}

/// Does a line name an event: a process id, and a colon somewhere behind it?
pub open spec fn names_event(line: Seq<char>) -> bool {
    exists|j: int, k: int| #[trigger]
        id_ends(line, j) && j < k < line.len() && (#[trigger] line[k]) == ':'
}

/// Is no line blank?
pub open spec fn no_blank(lines: Seq<Seq<char>>) -> bool {
    forall|i: int| 0 <= i < lines.len() ==> text::trim_end_spec(#[trigger] lines[i]).len() > 0
}

/// Does the first stack of `perf script` output have an event? Comments and
/// lines without a process id are passed over. Nothing is asked where no blank
/// line ends the stack.
pub open spec fn starts_with_event(lines: Seq<Seq<char>>) -> bool
    decreases lines.len(),
{
    if lines.len() == 0 {
        true
    } else {
        let line = text::trim_end_spec(lines[0]);
        let rest = lines.drop_first();
        if line.len() == 0 {
            false
        } else if line[0] != '#' && has_id(line) {
            names_event(line) || no_blank(rest)
        } else {
            starts_with_event(rest)
        }
    }
}

/// Where the first process id of a line ends, from `j` on; the line's length
/// where there is none.
pub open spec fn id_end(line: Seq<char>, j: int) -> int
    decreases line.len() - j,
{
    if j >= line.len() {
        line.len() as int
    } else if id_ends(line, j) {
        j
    } else {
        id_end(line, j + 1)
    }
}

/// The period that stands before the name of an event, between the first two
/// colons behind the process id; one where none is given.
pub open spec fn stated_period(behind_id: Seq<char>) -> nat {
    let parts = text::split_spec(behind_id, ':');
    if parts.len() < 2 {
        1
    } else {
        let words = text::split_spec(parts[1], ' ');
        if words.len() < 2 {
            1
        } else {
            match numerals::parse_u64_spec(words[words.len() - 2]) {
                Some(n) => n as nat,
                None => 1,
            }
        }
    }
}

/// What the event of a line counts: nothing where the line is a comment, or
/// has no process id.
pub open spec fn period_of(line: Seq<char>) -> nat {
    let l = text::trim_end_spec(line);
    let end = id_end(l, 0);
    if end >= l.len() || l[0] == '#' {
        0
    } else {
        stated_period(l.skip(end + 1))
    }
}

/// The sum of the periods of all events.
pub open spec fn period_sum(lines: Seq<Seq<char>>) -> nat
    decreases lines.len(),
{
    if lines.len() == 0 {
        0
    } else {
        period_sum(lines.drop_last()) + period_of(lines.last())
    }
}

/// How far back from its end the collapsers look at a symbol: the length of the
/// hash that Rust symbols end in.
pub const HASH_LENGTH: usize = 17;

/// Does the end of a symbol, as far back as the collapsers look, start inside a
/// character?
pub open spec fn is_cut(symbol: Seq<char>) -> bool {
    let bytes = encode_utf8(symbol);
    bytes.len() >= HASH_LENGTH && 0x80 <= bytes[bytes.len() - HASH_LENGTH] < 0xc0
}

pub open spec fn is_hex(c: char) -> bool {
    '0' <= c <= '9' || 'a' <= c <= 'f' || 'A' <= c <= 'F'
}

pub open spec fn hexes() -> spec_fn(char) -> bool {
    |c: char| is_hex(c)
}

/// A symbol without the offset (`+0x…`) at its end.
pub open spec fn without_offset(symbol: Seq<char>) -> Seq<char> {
    let k = symbol.len() - text::span_back(symbol, hexes());
    if text::has_suffix(symbol.take(k), "+0x"@) {
        symbol.take(k - 3)
    } else {
        symbol
    }
}

/// The symbol of a stack line of `perf script`: what stands between the address
/// and the module in brackets, without its offset. Comments have none.
pub open spec fn perf_symbol(line: Seq<char>) -> Option<Seq<char>> {
    if text::has_prefix(line, "#"@) {
        None
    } else {
        match text::split_once_spec(text::trim_spec(line), ' ') {
            Some((_, rest)) => match text::rsplit_once_spec(rest, ' ') {
                Some((symbol, module)) => if text::has_prefix(module, "("@) && text::has_suffix(
                    module,
                    ")"@,
                ) {
                    Some(without_offset(text::trim_spec(symbol)))
                } else {
                    None
                },
                None => None,
            },
            None => None,
        }
    }
}

/// What a line of a call graph is indented with.
pub open spec fn indents() -> spec_fn(char) -> bool {
    |c: char| c == ' ' || c == '+' || c == '|' || c == ':' || c == '!'
}

/// The symbol of a call-graph line of `sample`: what stands between the sample
/// count and the first bracket.
pub open spec fn sample_symbol(line: Seq<char>) -> Option<Seq<char>> {
    let l = text::trim_end_spec(line);
    if !text::has_prefix(l, "    "@) {
        None
    } else {
        let graph = l.skip(4);
        let entry = graph.skip(text::span(graph, indents()) as int);
        match text::split_once_spec(text::trim_spec(entry), ' ') {
            Some((count, rest)) => if numerals::parse_u64_spec(text::trim_end_spec(count)) is Some {
                match text::split_once_spec(rest, '(') {
                    Some((symbol, _)) => Some(text::trim_end_spec(symbol)),
                    None => Some(text::trim_end_spec(rest)),
                }
            } else {
                None
            },
            None => None,
        }
    }
}

pub open spec fn symbol_of(profiler: Profiler, line: Seq<char>) -> Option<Seq<char>> {
    match profiler {
        Profiler::Perf => perf_symbol(line),
        Profiler::Sample => sample_symbol(line),
    }
}

/// Is the symbol of no line cut inside a character?
pub open spec fn uncut(lines: Seq<Seq<char>>, profiler: Profiler) -> bool {
    forall|i: int|
        0 <= i < lines.len() ==> (match symbol_of(profiler, #[trigger] lines[i]) {
            Some(symbol) => !is_cut(symbol),
            None => true,
        })
}

/// Output of `perf script` whose first stack has an event, whose symbols are
/// not cut, and whose periods can be added up.
pub open spec fn foldable(perf_script: Seq<u8>) -> bool {
    let lines = text::lines_spec(text::lossy_text(perf_script));
    &&& period_sum(lines) <= u64::MAX
    &&& uncut(lines, Profiler::Perf)
    &&& starts_with_event(lines)
}

/// Output of `sample` whose symbols are not cut.
pub open spec fn sample_foldable(sample_output: Seq<u8>) -> bool {
    uncut(text::lines_spec(text::lossy_text(sample_output)), Profiler::Sample)
}

fn cuts(symbol: &str) -> (r: bool)
    ensures
        r == is_cut(symbol@),
{
    let bytes: &[u8] = symbol.as_bytes();
    let n: usize = bytes.len();
    n >= HASH_LENGTH && bytes[n - HASH_LENGTH] >= 0x80 && bytes[n - HASH_LENGTH] < 0xc0
}

fn strip_offset(symbol: &str) -> (r: String)
    ensures
        r@ == without_offset(symbol@),
{
    let v: Vec<char> = text::chars_of(symbol);
    let mut k: usize = v.len();
    while k > 0 && (('0' <= v[k - 1] && v[k - 1] <= '9') || ('a' <= v[k - 1] && v[k - 1] <= 'f') || (
    'A' <= v[k - 1] && v[k - 1] <= 'F'))
        invariant
            k <= v@.len(),
            v@ == symbol@,
            forall|j: int| k <= j < v@.len() ==> is_hex(#[trigger] v@[j]),
        decreases k,
    {
        k = k - 1;
    }
    proof {
        reveal_strlit("+0x");
        assert forall|j: int| v@.len() - (v@.len() - k) <= j < v@.len() implies hexes()(
            #[trigger] v@[j],
        ) by {}
        text::lemma_span_back_is(v@, hexes(), (v@.len() - k) as nat);
    }
    let front: String = text::slice(&v, 0, k);
    assert(front@ =~= symbol@.take(k as int));
    match text::strip_suffix(front.as_str(), "+0x") {
        Some(name) => {
            assert(name@ =~= symbol@.take(k - 3));
            name
        },
        None => symbol.to_string(),
    }
}

fn read_perf_symbol(line: &str) -> (r: Option<String>)
    ensures
        text::opt_view(r) == perf_symbol(line@),
{
    if text::starts_with(line, "#") {
        return None;
    }
    match text::split_once(text::trim(line).as_str(), ' ') {
        Some((_, rest)) => match text::rsplit_once(rest.as_str(), ' ') {
            Some((symbol, module)) => {
                if text::starts_with(module.as_str(), "(") && text::ends_with(
                    module.as_str(),
                    ")",
                ) {
                    Some(strip_offset(text::trim(symbol.as_str()).as_str()))
                } else {
                    None
                }
            },
            None => None,
        },
        None => None,
    }
}

fn is_indent(c: char) -> (r: bool)
    ensures
        r == indents()(c),
{
    c == ' ' || c == '+' || c == '|' || c == ':' || c == '!'
}

/// The characters of `s` without trailing whitespace, as a text.
fn trimmed_end(s: &str) -> (r: String)
    ensures
        r@ == text::trim_end_spec(s@),
{
    let v: Vec<char> = text::trim_end(s);
    let r: String = text::slice(&v, 0, v.len());
    assert(r@ =~= v@);
    r
}

fn read_sample_symbol(line: &str) -> (r: Option<String>)
    ensures
        text::opt_view(r) == sample_symbol(line@),
{
    let l: String = trimmed_end(line);
    let graph: String = match text::strip_prefix(l.as_str(), "    ") {
        Some(graph) => graph,
        None => {
            return None;
        },
    };
    proof {
        reveal_strlit("    ");
    }
    let v: Vec<char> = text::chars_of(graph.as_str());
    let mut k: usize = 0;
    while k < v.len() && is_indent(v[k])
        invariant
            k <= v@.len(),
            v@ == graph@,
            forall|j: int| 0 <= j < k ==> indents()(#[trigger] v@[j]),
        decreases v@.len() - k,
    {
        k = k + 1;
    }
    proof {
        text::lemma_span_is(v@, indents(), k as nat);
    }
    let entry: String = text::slice(&v, k, v.len());
    assert(entry@ =~= graph@.skip(k as int));
    match text::split_once(text::trim(entry.as_str()).as_str(), ' ') {
        Some((count, rest)) => {
            if numerals::parse_u64(trimmed_end(count.as_str()).as_str()).is_some() {
                match text::split_once(rest.as_str(), '(') {
                    Some((symbol, _)) => Some(trimmed_end(symbol.as_str())),
                    None => Some(trimmed_end(rest.as_str())),
                }
            } else {
                None
            }
        },
        None => None,
    }
}

fn is_uncut(lines: &Vec<String>, profiler: Profiler) -> (r: bool)
    ensures
        r == uncut(text::views(lines@), profiler),
{
    let ghost all = text::views(lines@);
    let mut i: usize = 0;
    while i < lines.len()
        invariant
            i <= lines@.len(),
            all == text::views(lines@),
            forall|j: int|
                0 <= j < i ==> (match symbol_of(profiler, #[trigger] all[j]) {
                    Some(symbol) => !is_cut(symbol),
                    None => true,
                }),
        decreases lines@.len() - i,
    {
        let symbol: Option<String> = match profiler {
            Profiler::Perf => read_perf_symbol(lines[i].as_str()),
            Profiler::Sample => read_sample_symbol(lines[i].as_str()),
        };
        assert(all[i as int] == lines@[i as int]@);
        assert(text::opt_view(symbol) == symbol_of(profiler, all[i as int]));
        if let Some(symbol) = symbol {
            if cuts(symbol.as_str()) {
                return false;
            }
        }
        i = i + 1;
    }
    true
}

/// How many digits and slashes stand right before `j`.
fn count_id(line: &Vec<char>, j: usize) -> (r: usize)
    requires
        j <= line@.len(),
    ensures
        r == id_before(line@, j as int),
        r <= j,
{
    let mut n: usize = 0;
    while n < j && '/' <= line[j - n - 1] && line[j - n - 1] <= '9'
        invariant
            n <= j <= line@.len(),
            id_before(line@, j as int) == n + id_before(line@, j - n),
        decreases j - n,
    {
        n = n + 1;
    }
    n
}

fn find_id_end(line: &Vec<char>) -> (r: usize)
    ensures
        r == id_end(line@, 0),
        r <= line@.len(),
{
    let mut k: usize = 0;
    while k < line.len()
        invariant
            k <= line@.len(),
            id_end(line@, 0) == id_end(line@, k as int),
        decreases line@.len() - k,
    {
        let back: usize = count_id(line, k);
        if line[k] == ' ' && back > 0 && back < k && line[k - back - 1] == ' ' {
            assert(id_ends(line@, k as int));
            return k;
        }
        k = k + 1;
    }
    k
}

fn read_stated_period(behind_id: &str) -> (r: u64)
    ensures
        r == stated_period(behind_id@),
{
    let parts: Vec<String> = text::split(behind_id, ':');
    if parts.len() < 2 {
        return 1;
    }
    assert(text::views(parts@)[1] == parts@[1]@);
    let words: Vec<String> = text::split(parts[1].as_str(), ' ');
    if words.len() < 2 {
        return 1;
    }
    assert(text::views(words@)[words@.len() - 2] == words@[words@.len() - 2]@);
    match numerals::parse_u64(words[words.len() - 2].as_str()) {
        Some(n) => n,
        None => 1,
    }
}

fn read_period(line: &str) -> (r: u64)
    ensures
        r == period_of(line@),
{
    let l: Vec<char> = text::trim_end(line);
    let end: usize = find_id_end(&l);
    if end >= l.len() || l[0] == '#' {
        return 0;
    }
    let behind_id: String = text::slice(&l, end + 1, l.len());
    assert(behind_id@ =~= l@.skip(end + 1));
    read_stated_period(behind_id.as_str())
}

proof fn lemma_periods_grow(lines: Seq<Seq<char>>, n: int)
    requires
        0 <= n <= lines.len(),
    ensures
        period_sum(lines.take(n)) <= period_sum(lines),
    decreases lines.len() - n,
{
    if n < lines.len() {
        let next = lines.take(n + 1);
        assert(next.drop_last() =~= lines.take(n));
        lemma_periods_grow(lines, n + 1);
    } else {
        assert(lines.take(n) =~= lines);
    }
}

/// Can the periods of all events be added up?
fn periods_fit(lines: &Vec<String>) -> (r: bool)
    ensures
        r == (period_sum(text::views(lines@)) <= u64::MAX),
{
    let ghost all = text::views(lines@);
    let mut sum: u64 = 0;
    let mut i: usize = 0;
    while i < lines.len()
        invariant
            i <= lines@.len(),
            all == text::views(lines@),
            sum == period_sum(all.take(i as int)),
        decreases lines@.len() - i,
    {
        let period: u64 = read_period(lines[i].as_str());
        proof {
            assert(all.take(i + 1).drop_last() =~= all.take(i as int));
            assert(all.take(i + 1).last() == lines@[i as int]@);
            lemma_periods_grow(all, i + 1);
        }
        if period > u64::MAX - sum {
            return false;
        }
        sum = sum + period;
        i = i + 1;
    }
    assert(all.take(all.len() as int) =~= all);
    true
}

/// Whether a line holds a process id, and whether it names an event.
fn read_event(line: &Vec<char>) -> (r: (bool, bool))
    ensures
        r.0 == has_id(line@),
        r.1 == names_event(line@),
{
    let n: usize = line.len();
    let mut found: bool = false;
    let mut named: bool = false;
    let mut k: usize = 0;
    while k < n
        invariant
            k <= n,
            n == line@.len(),
            found == exists|j: int| 0 <= j < k && #[trigger] id_ends(line@, j),
            named == exists|j: int, c: int| #[trigger]
                id_ends(line@, j) && j < c < k && (#[trigger] line@[c]) == ':',
        decreases n - k,
    {
        let ghost before = named;
        if found && line[k] == ':' {
            proof {
                let j = choose|j: int| 0 <= j < k && #[trigger] id_ends(line@, j);
                assert(id_ends(line@, j) && j < k && line@[k as int] == ':');
            }
            named = true;
        }
        proof {
            if before {
                let (j, c) = choose|j: int, c: int| #[trigger]
                    id_ends(line@, j) && j < c < k && (#[trigger] line@[c]) == ':';
                assert(id_ends(line@, j) && j < c < k + 1 && line@[c] == ':');
            }
        }
        let back: usize = count_id(line, k);
        if line[k] == ' ' && back > 0 && back < k && line[k - back - 1] == ' ' {
            assert(id_ends(line@, k as int));
            found = true;
        } else {
            assert(!id_ends(line@, k as int));
        }
        k = k + 1;
    }
    (found, named)
}

/// Is no line from `from` on blank?
fn has_no_blank(lines: &Vec<String>, from: usize) -> (r: bool)
    requires
        from <= lines@.len(),
    ensures
        r == no_blank(text::views(lines@).skip(from as int)),
{
    let ghost all = text::views(lines@).skip(from as int);
    let mut i: usize = from;
    while i < lines.len()
        invariant
            from <= i <= lines@.len(),
            all == text::views(lines@).skip(from as int),
            forall|k: int|
                0 <= k < i - from ==> text::trim_end_spec(#[trigger] all[k]).len() > 0,
        decreases lines@.len() - i,
    {
        let line: Vec<char> = text::trim_end(lines[i].as_str());
        assert(all[i - from] == lines@[i as int]@);
        if line.len() == 0 {
            return false;
        }
        i = i + 1;
    }
    true
}

fn has_first_event(lines: &Vec<String>) -> (r: bool)
    ensures
        r == starts_with_event(text::views(lines@)),
{
    let ghost all = text::views(lines@);
    let mut i: usize = 0;
    assert(all.skip(0) =~= all);
    while i < lines.len()
        invariant
            i <= lines@.len(),
            all == text::views(lines@),
            starts_with_event(all) == starts_with_event(all.skip(i as int)),
        decreases lines@.len() - i,
    {
        let line: Vec<char> = text::trim_end(lines[i].as_str());
        proof {
            assert(all.skip(i as int)[0] == lines@[i as int]@);
            assert(all.skip(i as int).drop_first() =~= all.skip(i + 1));
        }
        if line.len() == 0 {
            return false;
        }
        let (id, event) = read_event(&line);
        if line[0] != '#' && id {
            return event || has_no_blank(lines, i + 1);
        }
        i = i + 1;
    }
    true
}

/// Can output of `perf script` be folded?
pub fn is_foldable(perf_script: &[u8]) -> (r: bool)
    ensures
        r == foldable(perf_script@),
{
    let lines: Vec<String> = text::lines(text::read_lossy(perf_script).as_str());
    periods_fit(&lines) && is_uncut(&lines, Profiler::Perf) && has_first_event(&lines)
}

/// Can output of `sample` be folded?
pub fn is_sample_foldable(sample_output: &[u8]) -> (r: bool)
    ensures
        r == sample_foldable(sample_output@),
{
    let lines: Vec<String> = text::lines(text::read_lossy(sample_output).as_str());
    is_uncut(&lines, Profiler::Sample)
}

fn copy_range(bytes: &[u8], from: usize, to: usize) -> (r: Vec<u8>)
    requires
        from <= to <= bytes@.len(),
    ensures
        r@ == bytes@.subrange(from as int, to as int),
{
    let mut out: Vec<u8> = Vec::new();
    let mut i: usize = from;
    while i < to
        invariant
            from <= i <= to <= bytes@.len(),
            out@ == bytes@.subrange(from as int, i as int),
        decreases to - i,
    {
        out.push(bytes[i]);
        assert(bytes@.subrange(from as int, i + 1) =~= bytes@.subrange(from as int, i as int).push(
            bytes@[i as int],
        ));
        i = i + 1;
    }
    out
}

/// What inferno folds output of `perf script` into, or the message of its
/// error.
pub uninterp spec fn perf_folded(perf_script: Seq<u8>) -> Result<Seq<u8>, Seq<char>>;

/// Calls `inferno::collapse::perf::Folder::collapse` with default options. The
/// folded stacks come out sorted, so they are a function of the input. The
/// collapser panics where a first stack ends without an event, where it looks
/// for a hash at the end of a symbol and cuts a character, and where periods
/// overflow 64 bits: such input is left out. Symbols and periods are those of
/// every line that has the form of a stack line or holds a process id, whether
/// or not the collapser keeps it.
#[verifier::external_body]
fn fold_perf(perf_script: &[u8]) -> (r: Result<Vec<u8>, String>)
    requires
        foldable(perf_script@),
    ensures
        match r {
            Ok(folded) => perf_folded(perf_script@) == Result::<Seq<u8>, Seq<char>>::Ok(folded@),
            Err(e) => perf_folded(perf_script@) == Result::<Seq<u8>, Seq<char>>::Err(e@),
        },
{
    let options = inferno::collapse::perf::Options::default();
    let mut folder = inferno::collapse::perf::Folder::from(options);
    let mut folded = Vec::new();
    match inferno::collapse::Collapse::collapse(&mut folder, perf_script, &mut folded) {
        Ok(()) => Ok(folded),
        Err(e) => Err(e.to_string()),
    }
}

/// What inferno folds output of macOS `sample` into, or the message of its
/// error.
pub uninterp spec fn sample_folded(sample_output: Seq<u8>) -> Result<Seq<u8>, Seq<char>>;

/// Calls `inferno::collapse::sample::Folder::collapse` with default options.
/// The folded stacks come out sorted, so they are a function of the input. The
/// collapser panics where it looks for a hash at the end of a symbol and cuts a
/// character: such input is left out, wherever in it the call-graph line stands.
#[verifier::external_body]
fn fold_sample(sample_output: &[u8]) -> (r: Result<Vec<u8>, String>)
    requires
        sample_foldable(sample_output@),
    ensures
        match r {
            Ok(folded) => sample_folded(sample_output@) == Result::<Seq<u8>, Seq<char>>::Ok(
                folded@,
            ),
            Err(e) => sample_folded(sample_output@) == Result::<Seq<u8>, Seq<char>>::Err(e@),
        },
{
    let options = inferno::collapse::sample::Options::default();
    let mut folder = inferno::collapse::sample::Folder::from(options);
    let mut folded = Vec::new();
    match inferno::collapse::Collapse::collapse(&mut folder, sample_output, &mut folded) {
        Ok(()) => Ok(folded),
        Err(e) => Err(e.to_string()),
    }
}

/// A collapser's result as this library reports it.
pub open spec fn fold_report(
    lead: Seq<char>,
    folded: Result<Seq<u8>, Seq<char>>,
) -> Result<Seq<u8>, Seq<char>> {
    match folded {
        Ok(f) => Ok(f),
        Err(e) => Err(lead + e),
    }
}

pub open spec fn fold_view(r: Result<Vec<u8>, String>) -> Result<Seq<u8>, Seq<char>> {
    match r {
        Ok(f) => Ok(f@),
        Err(e) => Err(e@),
    }
}

/// Folds raw `perf script` output into collapsed stack lines.
pub fn collapse_perf_script(perf_script: &[u8]) -> (r: Result<Vec<u8>, String>)
    requires
        foldable(perf_script@),
    ensures
        fold_view(r) == fold_report(
            "collapsing perf script output: "@,
            perf_folded(perf_script@),
        ),
{
    match fold_perf(perf_script) {
        Ok(folded) => Ok(folded),
        Err(e) => Err(text::cat2("collapsing perf script output: ", e.as_str())),
    }
}

/// Folds macOS `sample` call-tree output into collapsed stack lines.
pub fn collapse_sample_output(sample_output: &[u8]) -> (r: Result<Vec<u8>, String>)
    requires
        sample_foldable(sample_output@),
    ensures
        fold_view(r) == fold_report("collapsing sample output: "@, sample_folded(sample_output@)),
{
    match fold_sample(sample_output) {
        Ok(folded) => Ok(folded),
        Err(e) => Err(text::cat2("collapsing sample output: ", e.as_str())),
    }
}

// ---------------------------------------------------------------------------
// Demangling
// ---------------------------------------------------------------------------

/// The readable name of a mangled Rust symbol, without its trailing hash; none
/// of a symbol that is not one.
pub uninterp spec fn rust_name(symbol: Seq<char>) -> Option<Seq<char>>;

/// Calls `rustc_demangle::try_demangle` and writes what it found with its
/// alternate `Display`, which leaves the trailing hash out. The name is a
/// function of the symbol.
#[verifier::external_body]
fn demangle_symbol(symbol: &str) -> (r: Option<String>)
    ensures
        text::opt_view(r) == rust_name(symbol@),
{
    match rustc_demangle::try_demangle(symbol) {
        Ok(name) => Some(format!("{name:#}")),
        Err(_) => None,
    }
}

/// A frame's symbol: what stands behind the last backquote, where macOS frames
/// have their module.
pub open spec fn symbol_spec(frame: Seq<char>) -> Seq<char> {
    match text::rsplit_once_spec(frame, '`') {
        Some((_, symbol)) => symbol,
        None => frame,
    }
}

pub fn frame_symbol(frame: &str) -> (r: String)
    ensures
        r@ == symbol_spec(frame@),
{
    match text::rsplit_once(frame, '`') {
        Some((_, symbol)) => symbol,
        None => frame.to_string(),
    }
}

/// A frame with its symbol's readable name, where it has one; the module
/// prefix stays.
pub open spec fn renamed_spec(frame: Seq<char>, name: Option<Seq<char>>) -> Seq<char> {
    match name {
        Some(name) => match text::rsplit_once_spec(frame, '`') {
            Some((module, _)) => module + "`"@ + name,
            None => name,
        },
        None => frame,
    }
}

pub fn rename_frame(frame: &str, name: &Option<String>) -> (r: String)
    ensures
        r@ == renamed_spec(frame@, text::opt_view(*name)),
{
    match name {
        Some(name) => match text::rsplit_once(frame, '`') {
            Some((module, _)) => text::cat3(module.as_str(), "`", name.as_str()),
            None => name.clone(),
        },
        None => frame.to_string(),
    }
}

/// A frame, demangled.
pub open spec fn frame_spec(frame: Seq<char>) -> Seq<char> {
    renamed_spec(frame, rust_name(symbol_spec(frame)))
}

/// A collapsed line with its frames demangled; a line without a count stays as
/// it is.
pub open spec fn line_spec(line: Seq<char>) -> Seq<char> {
    match text::rsplit_once_spec(line, ' ') {
        Some((stack, count)) => text::join_spec(
            text::split_spec(stack, ';').map_values(|f: Seq<char>| frame_spec(f)),
            ";"@,
        ) + " "@ + count,
        None => line,
    }
}

/// Lines, each with its newline.
pub open spec fn lines_text(lines: Seq<Seq<char>>) -> Seq<char>
    decreases lines.len(),
{
    if lines.len() == 0 {
        Seq::empty()
    } else {
        lines_text(lines.drop_last()) + lines.last() + "\n"@
    }
}

/// A text of collapsed lines, demangled.
pub open spec fn demangled_spec(folded: Seq<char>) -> Seq<char> {
    lines_text(text::lines_spec(folded).map_values(|l: Seq<char>| line_spec(l)))
}

fn demangle_line(line: &str) -> (r: String)
    ensures
        r@ == line_spec(line@),
{
    match text::rsplit_once(line, ' ') {
        Some((stack, count)) => {
            let frames: Vec<String> = text::split(stack.as_str(), ';');
            let ghost all = text::split_spec(stack@, ';').map_values(
                |f: Seq<char>| frame_spec(f),
            );
            let mut out: Vec<String> = Vec::new();
            let mut i: usize = 0;
            while i < frames.len()
                invariant
                    i <= frames@.len(),
                    text::views(frames@) == text::split_spec(stack@, ';'),
                    all == text::split_spec(stack@, ';').map_values(
                        |f: Seq<char>| frame_spec(f),
                    ),
                    text::views(out@) == all.take(i as int),
                decreases frames@.len() - i,
            {
                let symbol: String = frame_symbol(frames[i].as_str());
                let name: Option<String> = demangle_symbol(symbol.as_str());
                let frame: String = rename_frame(frames[i].as_str(), &name);
                proof {
                    assert(text::views(frames@)[i as int] == frames@[i as int]@);
                    assert(all[i as int] == frame@);
                    text::lemma_views_push(out@, frame);
                    assert(all.take(i + 1) =~= all.take(i as int).push(frame@));
                }
                out.push(frame);
                i = i + 1;
            }
            assert(all.take(all.len() as int) =~= all);
            let joined: String = text::join(&out, ";");
            text::cat3(joined.as_str(), " ", count.as_str())
        },
        None => line.to_string(),
    }
}

/// Demangles every Rust symbol in collapsed stack lines (`f1;f2 count`).
/// Frames that are not mangled pass through untouched.
pub fn demangle_text(folded: &str) -> (r: String)
    ensures
        r@ == demangled_spec(folded@),
{
    let lines: Vec<String> = text::lines(folded);
    let ghost all = text::lines_spec(folded@).map_values(|l: Seq<char>| line_spec(l));
    let mut out: String = String::new();
    let mut i: usize = 0;
    while i < lines.len()
        invariant
            i <= lines@.len(),
            text::views(lines@) == text::lines_spec(folded@),
            all == text::lines_spec(folded@).map_values(|l: Seq<char>| line_spec(l)),
            out@ == lines_text(all.take(i as int)),
        decreases lines@.len() - i,
    {
        let line: String = demangle_line(lines[i].as_str());
        proof {
            assert(text::views(lines@)[i as int] == lines@[i as int]@);
            assert(all[i as int] == line@);
            assert(all.take(i + 1).drop_last() =~= all.take(i as int));
            assert(all.take(i + 1).last() == line@);
        }
        out = text::cat3(out.as_str(), line.as_str(), "\n");
        i = i + 1;
    }
    assert(all.take(all.len() as int) =~= all);
    out
}

/// [`demangle_text`] on bytes.
pub fn demangle_folded(folded: &[u8]) -> (r: Vec<u8>)
    ensures
        r@ == encode_utf8(demangled_spec(text::lossy_text(folded@))),
        valid_utf8(folded@) ==> r@ == encode_utf8(demangled_spec(decode_utf8(folded@))),
{
    let read: String = text::read_lossy(folded);
    let out: String = demangle_text(read.as_str());
    let bytes: &[u8] = out.as_str().as_bytes();
    copy_range(bytes, 0, bytes.len())
}

// ---------------------------------------------------------------------------
// SVGs
// ---------------------------------------------------------------------------

/// The lines of a text from position `at` on, newlines left out, in no order.
pub open spec fn lines_from(bytes: Seq<u8>, at: int) -> Multiset<Seq<u8>>
    decreases bytes.len() + 1 - at,
    via lines_from_end
{
    if at < 0 || at >= bytes.len() {
        Multiset::empty()
    } else {
        let end = line_end(bytes, at);
        lines_from(bytes, end + 1).insert(bytes.subrange(at, end))
    }
}

#[via_fn]
proof fn lines_from_end(bytes: Seq<u8>, at: int) {
    lemma_line_end(bytes, at);
}

/// The lines of a text, in no order.
pub open spec fn line_bag(bytes: Seq<u8>) -> Multiset<Seq<u8>> {
    lines_from(bytes, 0)
}

/// What stands before the color of a frame.
pub open spec fn color_mark() -> Seq<u8> {
    encode_utf8("fill=\"rgb("@)
}

/// A drawing from position `at` on, with the colors of its frames left out:
/// nothing stands between a color's mark and its closing bracket.
pub open spec fn uncolored_from(svg: Seq<u8>, at: int, inside: bool) -> Seq<u8>
    decreases svg.len() - at,
{
    let mark = color_mark();
    if at < 0 || at >= svg.len() {
        Seq::empty()
    } else if inside {
        if svg[at] == 41 {
            seq![svg[at]] + uncolored_from(svg, at + 1, false)
        } else {
            uncolored_from(svg, at + 1, true)
        }
    } else if mark.len() > 0 && at + mark.len() <= svg.len() && svg.subrange(
        at,
        at + mark.len(),
    ) == mark {
        mark + uncolored_from(svg, at + mark.len(), true)
    } else {
        seq![svg[at]] + uncolored_from(svg, at + 1, false)
    }
}

/// A drawing with the colors of its frames left out.
pub open spec fn uncolored(svg: Seq<u8>) -> Seq<u8> {
    uncolored_from(svg, 0, false)
}

/// Is a line a stack with its counts before and after?
pub open spec fn is_comparison(line: Seq<u8>, stack: Seq<char>, before: u64, after: u64) -> bool {
    &&& stack.len() > 0
    &&& !text::white(stack.last())
    &&& line == encode_utf8(
        stack + " "@ + numerals::digits(before as nat, 10) + " "@ + numerals::digits(
            after as nat,
            10,
        ),
    )
}

/// Does every line compare two counts of a stack?
pub open spec fn all_compare(lines: Multiset<Seq<u8>>) -> bool {
    forall|line: Seq<u8>| #[trigger]
        lines.contains(line) ==> exists|stack: Seq<char>, before: u64, after: u64|
            is_comparison(line, stack, before, after)
}

/// What the lines of a drawing settle of it: all, where every line compares two
/// counts, as the colors then tell how much a frame grew or shrank; else all
/// but the colors of its frames.
pub open spec fn settled(svg: Seq<u8>, lines: Multiset<Seq<u8>>) -> Seq<u8> {
    if all_compare(lines) {
        svg
    } else {
        uncolored(svg)
    }
}

/// The flame graph that inferno draws of folded lines under a title, as far as
/// the lines settle it; or the message of its error.
pub uninterp spec fn flame_drawing(title: Seq<char>, lines: Multiset<Seq<u8>>) -> Result<
    Seq<u8>,
    Seq<char>,
>;

/// Letters, digits, and a few marks that XML has no use for.
pub open spec fn plain_title(title: Seq<char>) -> bool {
    forall|i: int|
        0 <= i < title.len() ==> {
            let c = #[trigger] title[i];
            ('a' <= c <= 'z') || ('A' <= c <= 'Z') || ('0' <= c <= '9') || c == '_' || c == '/'
                || c == '-' || c == ' '
        }
}

/// Do the bytes of `part` stand somewhere in `bytes`?
pub open spec fn holds_bytes(bytes: Seq<u8>, part: Seq<u8>) -> bool {
    exists|i: int|
        0 <= i && i + part.len() <= bytes.len() && #[trigger] bytes.subrange(i, i + part.len())
            == part
}

/// Calls `inferno::flamegraph::from_reader` with the title, counts called
/// samples, and default options otherwise, into memory. It sorts the lines
/// before it draws them, so what comes out is a function of the title and of
/// the lines, whatever their order. Where every line has two counts, a frame's
/// color is computed from their difference. Of other lines the colors of the
/// frames are left unsaid, as they come from a generator that each thread
/// advances. A drawing carries a plain title as it is.
#[verifier::external_body]
fn draw_flames(title: &str, folded: &[u8]) -> (r: Result<Vec<u8>, String>)
    requires
        countable(folded@),
    ensures
        match r {
            Ok(svg) => flame_drawing(title@, line_bag(folded@)) == Result::<
                Seq<u8>,
                Seq<char>,
            >::Ok(settled(svg@, line_bag(folded@))) && (plain_title(title@) ==> holds_bytes(
                svg@,
                encode_utf8(title@),
            )),
            Err(e) => flame_drawing(title@, line_bag(folded@)) == Result::<
                Seq<u8>,
                Seq<char>,
            >::Err(e@),
        },
{
    let mut options = inferno::flamegraph::Options::default();
    options.title = title.to_string();
    options.count_name = "samples".to_string();
    let mut svg = Vec::new();
    match inferno::flamegraph::from_reader(&mut options, folded, &mut svg) {
        Ok(()) => Ok(svg),
        Err(e) => Err(e.to_string()),
    }
}

/// The lines that inferno compares two folded texts in: each stack with its
/// count before and after.
pub uninterp spec fn diff_lines(before: Seq<u8>, after: Seq<u8>) -> Multiset<Seq<u8>>;

/// Does something stand before the last space of every line that has one: the
/// stack before its count?
pub open spec fn names_stacks(folded: Seq<u8>) -> bool {
    let lines = text::lines_spec(text::lossy_text(folded));
    forall|i: int|
        0 <= i < lines.len() ==> (match text::rsplit_once_spec(#[trigger] lines[i], ' ') {
            Some((stack, _)) => text::trim_end_spec(stack).len() > 0,
            None => true,
        })
}

/// Calls `inferno::differential::from_readers` with default options, in memory,
/// where it cannot fail. Which lines come out is a function of the two texts;
/// their order is that of a hash map. Each line of the result is a stack, with
/// no whitespace at its end, and two counts, which are sums of counts of the
/// two texts; a stack is empty only where one of the texts has an empty one.
#[verifier::external_body]
fn compare_folded(before: &[u8], after: &[u8]) -> (r: Result<Vec<u8>, String>)
    requires
        countable(before@),
        countable(after@),
    ensures
        r is Ok,
        line_bag(r->Ok_0@) == diff_lines(before@, after@),
        count_sum(r->Ok_0@) <= count_sum(before@) + count_sum(after@),
        names_stacks(before@) && names_stacks(after@) ==> all_compare(line_bag(r->Ok_0@)),
{
    let options = inferno::differential::Options::default();
    let mut folded = Vec::new();
    match inferno::differential::from_readers(options, before, after, &mut folded) {
        Ok(()) => Ok(folded),
        Err(e) => Err(e.to_string()),
    }
}

/// Is `r` what drawing the lines under the title gives, with `what` said before
/// an error?
pub open spec fn is_drawing(
    r: Result<Vec<u8>, String>,
    title: Seq<char>,
    lines: Multiset<Seq<u8>>,
    what: Seq<char>,
) -> bool {
    match r {
        Ok(svg) => flame_drawing(title, lines) == Result::<Seq<u8>, Seq<char>>::Ok(
            settled(svg@, lines),
        ) && (plain_title(title) ==> holds_bytes(svg@, encode_utf8(title))),
        Err(e) => flame_drawing(title, lines) matches Err(m) && e@ == what + m,
    }
}

/// Renders collapsed stacks into a flame-graph SVG; `out` names it in errors.
pub fn render_flamegraph_svg(title: &str, folded: &[u8], out: &str) -> (r: Result<Vec<u8>, String>)
    requires
        countable(folded@),
    ensures
        is_drawing(r, title@, line_bag(folded@), "rendering flame graph "@ + out@ + ": "@),
{
    match draw_flames(title, folded) {
        Ok(svg) => Ok(svg),
        Err(e) => Err(text::cat4("rendering flame graph ", out, ": ", e.as_str())),
    }
}

/// Renders a differential flame graph (feature vs baseline) from two collapsed
/// stacks: red = grew vs baseline, blue = shrank. What is drawn has the lines
/// that compare the two; its colors too are settled by them, where no stack is
/// empty.
pub fn render_differential_svg(
    title: &str,
    baseline_folded: &[u8],
    feature_folded: &[u8],
    out: &str,
) -> (r: Result<Vec<u8>, String>)
    requires
        150 * (count_sum(baseline_folded@) + count_sum(feature_folded@)) <= isize::MAX,
    ensures
        is_drawing(
            r,
            title@,
            diff_lines(baseline_folded@, feature_folded@),
            "rendering differential "@ + out@ + ": "@,
        ),
        names_stacks(baseline_folded@) && names_stacks(feature_folded@) ==> all_compare(
            diff_lines(baseline_folded@, feature_folded@),
        ),
{
    let diff: Vec<u8> = match compare_folded(baseline_folded, feature_folded) {
        Ok(diff) => diff,
        Err(e) => {
            return Err(text::cat2("differential folding: ", e.as_str()));
        },
    };
    match draw_flames(title, diff.as_slice()) {
        Ok(svg) => Ok(svg),
        Err(e) => Err(text::cat4("rendering differential ", out, ": ", e.as_str())),
    }
}

/// A differential is drawn alike each time, down to the colors of its frames.
pub proof fn law_differentials_are_drawn_alike(
    a: Vec<u8>,
    b: Vec<u8>,
    title: Seq<char>,
    lines: Multiset<Seq<u8>>,
    what_a: Seq<char>,
    what_b: Seq<char>,
)
    requires
        all_compare(lines),
        is_drawing(Ok(a), title, lines, what_a),
        is_drawing(Ok(b), title, lines, what_b),
    ensures
        a@ == b@,
{
}

// ---------------------------------------------------------------------------
// The bench binary
// ---------------------------------------------------------------------------

/// The cargo arguments that build a bench target without running it.
pub fn build_bench_binary(package: &str, bench_target: &str) -> (r: Vec<String>)
    ensures
        text::views(r@) == seq![
            "bench"@,
            "-p"@,
            package@,
            "--bench"@,
            bench_target@,
            "--profile"@,
            "profiling"@,
            "--no-run"@,
            "--message-format=json"@,
        ],
{
    let mut args: Vec<String> = Vec::new();
    text::add_word(&mut args, "bench");
    text::add_word(&mut args, "-p");
    text::add_word(&mut args, package);
    text::add_word(&mut args, "--bench");
    text::add_word(&mut args, bench_target);
    text::add_word(&mut args, "--profile");
    text::add_word(&mut args, "profiling");
    text::add_word(&mut args, "--no-run");
    text::add_word(&mut args, "--message-format=json");
    args
}

/// Is a value a list that holds this text?
pub open spec fn lists(j: Option<JsonView>, word: Seq<char>) -> bool {
    j matches Some(JsonView::List(items)) && items.contains(JsonView::Text(word))
}

/// The executable that a cargo message reports for a bench target.
pub open spec fn artifact_spec(msg: JsonView, bench_target: Seq<char>) -> Option<Seq<char>> {
    let reason = json::text_of(json::get_spec(msg, "reason"@));
    match json::get_spec(msg, "target"@) {
        Some(target) => if reason == Some("compiler-artifact"@) && lists(
            json::get_spec(target, "kind"@),
            "bench"@,
        ) && json::text_of(json::get_spec(target, "name"@)) == Some(bench_target) {
            json::text_of(json::get_spec(msg, "executable"@))
        } else {
            None
        },
        None => None,
    }
}

/// Does one of the values hold this text?
fn lists_word(items: &Vec<Json>, word: &str) -> (r: bool)
    ensures
        r == json::list_view(items@).contains(JsonView::Text(word@)),
{
    let ghost all = json::list_view(items@);
    proof {
        json::lemma_list_view_len(items@);
    }
    let mut i: usize = 0;
    while i < items.len()
        invariant
            i <= items@.len(),
            all == json::list_view(items@),
            all.len() == items@.len(),
            forall|k: int| 0 <= k < i ==> #[trigger] all[k] != JsonView::Text(word@),
        decreases items@.len() - i,
    {
        proof {
            json::lemma_list_view_index(items@, i as int);
        }
        match items[i].as_str() {
            Some(s) => {
                if text::same(s, word) {
                    assert(all[i as int] == JsonView::Text(word@));
                    return true;
                }
            },
            None => {},
        }
        i = i + 1;
    }
    false
}

/// The executable that a cargo message reports for a bench target.
pub fn bench_artifact(msg: &Json, bench_target: &str) -> (r: Option<String>)
    ensures
        text::opt_view(r) == artifact_spec(json::json_view(*msg), bench_target@),
{
    match msg.get_str("reason") {
        Some(reason) => {
            if !text::same(reason, "compiler-artifact") {
                return None;
            }
        },
        None => {
            return None;
        },
    }
    match msg.get("target") {
        Some(target) => {
            let is_bench: bool = match target.get("kind") {
                Some(Json::List(items)) => lists_word(items, "bench"),
                _ => false,
            };
            let named: bool = match target.get_str("name") {
                Some(name) => text::same(name, bench_target),
                None => false,
            };
            if is_bench && named {
                match msg.get_str("executable") {
                    Some(exe) => Some(exe.to_string()),
                    None => None,
                }
            } else {
                None
            }
        },
        None => None,
    }
}

/// The executable that a line of cargo's output reports.
pub open spec fn line_artifact(line: Seq<char>, bench_target: Seq<char>) -> Option<Seq<char>> {
    match json::parsed(line) {
        Ok(msg) => artifact_spec(msg, bench_target),
        Err(_) => None,
    }
}

/// The executable that the first line to report one reports.
pub open spec fn executable_spec(lines: Seq<Seq<char>>, bench_target: Seq<char>) -> Option<
    Seq<char>,
>
    decreases lines.len(),
{
    if lines.len() == 0 {
        None
    } else {
        match line_artifact(lines[0], bench_target) {
            Some(exe) => Some(exe),
            None => executable_spec(lines.drop_first(), bench_target),
        }
    }
}

/// Extracts the bench executable path from `--message-format=json` output.
pub fn find_bench_executable(cargo_json_lines: &str, bench_target: &str) -> (r: Option<String>)
    ensures
        text::opt_view(r) == executable_spec(text::lines_spec(cargo_json_lines@), bench_target@),
{
    let lines: Vec<String> = text::lines(cargo_json_lines);
    let ghost all = text::lines_spec(cargo_json_lines@);
    assert(all.skip(0) =~= all);
    let mut i: usize = 0;
    while i < lines.len()
        invariant
            i <= lines@.len(),
            all == text::lines_spec(cargo_json_lines@),
            text::views(lines@) == all,
            executable_spec(all, bench_target@) == executable_spec(
                all.skip(i as int),
                bench_target@,
            ),
        decreases lines@.len() - i,
    {
        assert(text::views(lines@)[i as int] == lines@[i as int]@);
        assert(all.skip(i as int)[0] == all[i as int]);
        match json::parse(lines[i].as_str()) {
            Ok(msg) => {
                match bench_artifact(&msg, bench_target) {
                    Some(exe) => {
                        return Some(exe);
                    },
                    None => {},
                }
            },
            Err(_) => {},
        }
        assert(all.skip(i as int).drop_first() =~= all.skip(i + 1));
        i = i + 1;
    }
    assert(all.skip(i as int).len() == 0);
    None
}

pub open spec fn built_spec(found: Option<Seq<char>>, bench_target: Seq<char>) -> Result<
    Seq<char>,
    Seq<char>,
> {
    match found {
        Some(exe) => Ok(exe),
        None => Err("no executable for bench target '"@ + bench_target + "' in cargo output"@),
    }
}

pub open spec fn said(r: Result<String, String>) -> Result<Seq<char>, Seq<char>> {
    match r {
        Ok(s) => Ok(s@),
        Err(e) => Err(e@),
    }
}

/// The bench binary that cargo's output names.
pub fn built_binary(cargo_stdout: &[u8], bench_target: &str) -> (r: Result<String, String>)
    ensures
        said(r) == built_spec(
            executable_spec(text::lines_spec(text::lossy_text(cargo_stdout@)), bench_target@),
            bench_target@,
        ),
{
    let read: String = text::read_lossy(cargo_stdout);
    match find_bench_executable(read.as_str(), bench_target) {
        Some(exe) => Ok(exe),
        None => Err(
            text::cat3("no executable for bench target '", bench_target, "' in cargo output"),
        ),
    }
}

// ---------------------------------------------------------------------------
// Benchmark ids
// ---------------------------------------------------------------------------

/// The id that a line of criterion's `--list` names: what stands before its
/// `: benchmark`.
pub open spec fn listed_id(line: Seq<char>) -> Seq<char> {
    let suffix = ": benchmark"@;
    text::trim_spec(
        if text::has_suffix(line, suffix) {
            line.take(line.len() - suffix.len())
        } else {
            line
        },
    )
}

/// Does a listing name a benchmark?
pub open spec fn is_listed(listing: Seq<char>, id: Seq<char>) -> bool {
    text::lines_spec(listing).map_values(|l: Seq<char>| listed_id(l)).contains(id)
}

pub open spec fn id_report(listed: bool, id: Seq<char>, bench_bin: Seq<char>) -> Option<
    Seq<char>,
> {
    if listed {
        None
    } else {
        Some(
            "benchmark id '"@ + id + "' not found in `--list` output of "@ + bench_bin
                + " — check the id's row/variant order"@,
        )
    }
}

pub open spec fn fault(r: Result<(), String>) -> Option<Seq<char>> {
    match r {
        Ok(_) => None,
        Err(e) => Some(e@),
    }
}

/// Asserts that the exact benchmark id exists in criterion's listing (lines of
/// `<id>: benchmark`), catching typos and row/variant-order mistakes before a
/// long profiling run.
pub fn verify_benchmark_id(listing: &str, bench_bin: &str, benchmark_id: &str) -> (r: Result<
    (),
    String,
>)
    ensures
        fault(r) == id_report(
            is_listed(listing@, benchmark_id@),
            benchmark_id@,
            bench_bin@,
        ),
{
    let lines: Vec<String> = text::lines(listing);
    let ghost ids = text::lines_spec(listing@).map_values(|l: Seq<char>| listed_id(l));
    let mut i: usize = 0;
    while i < lines.len()
        invariant
            i <= lines@.len(),
            text::views(lines@) == text::lines_spec(listing@),
            ids == text::lines_spec(listing@).map_values(|l: Seq<char>| listed_id(l)),
            forall|k: int| 0 <= k < i ==> #[trigger] ids[k] != benchmark_id@,
        decreases lines@.len() - i,
    {
        assert(text::views(lines@)[i as int] == lines@[i as int]@);
        let bare: String = match text::strip_suffix(lines[i].as_str(), ": benchmark") {
            Some(front) => front,
            None => lines[i].clone(),
        };
        let id: String = text::trim(bare.as_str());
        assert(ids[i as int] == id@);
        if text::same(id.as_str(), benchmark_id) {
            return Ok(());
        }
        i = i + 1;
    }
    assert(ids.len() == lines@.len());
    Err(
        text::cat5(
            "benchmark id '",
            benchmark_id,
            "' not found in `--list` output of ",
            bench_bin,
            " — check the id's row/variant order",
        ),
    )
}

/// [`verify_benchmark_id`] on the output of the bench binary.
pub fn verify_listed(list_stdout: &[u8], bench_bin: &str, benchmark_id: &str) -> (r: Result<
    (),
    String,
>)
    ensures
        fault(r) == id_report(
            is_listed(text::lossy_text(list_stdout@), benchmark_id@),
            benchmark_id@,
            bench_bin@,
        ),
{
    let listing: String = text::read_lossy(list_stdout);
    verify_benchmark_id(listing.as_str(), bench_bin, benchmark_id)
}

// ---------------------------------------------------------------------------
// Profiling
// ---------------------------------------------------------------------------

/// The platform's profiler.
#[derive(Debug, Clone, Copy, PartialEq, Eq, Structural)]
pub enum Profiler {
    /// Linux: `perf record`, then `perf script`.
    Perf,
    /// macOS: the built-in `sample` tool.
    Sample,
}

/// The profiler of an operating system.
pub fn profiler_for(os: &str) -> (r: Result<Profiler, String>)
    ensures
        match r {
            Ok(p) => (p == Profiler::Perf && os@ == "linux"@) || (p == Profiler::Sample && os@
                == "macos"@ && os@ != "linux"@),
            Err(e) => os@ != "linux"@ && os@ != "macos"@ && e@
                == "flamegraph profiling is not supported on "@ + os@,
        },
{
    if text::same(os, "linux") {
        Ok(Profiler::Perf)
    } else if text::same(os, "macos") {
        Ok(Profiler::Sample)
    } else {
        Err(text::cat2("flamegraph profiling is not supported on ", os))
    }
}

/// Can a profiler's output be folded?
pub open spec fn profile_foldable(profiler: Profiler, output: Seq<u8>) -> bool {
    match profiler {
        Profiler::Perf => foldable(output),
        Profiler::Sample => sample_foldable(output),
    }
}

pub fn is_profile_foldable(profiler: Profiler, output: &[u8]) -> (r: bool)
    ensures
        r == profile_foldable(profiler, output@),
{
    match profiler {
        Profiler::Perf => is_foldable(output),
        Profiler::Sample => is_sample_foldable(output),
    }
}

/// A profile's collapsed stacks, before their symbols are demangled.
pub open spec fn collapsed(profiler: Profiler, output: Seq<u8>) -> Result<Seq<u8>, Seq<char>> {
    match profiler {
        Profiler::Perf => fold_report("collapsing perf script output: "@, perf_folded(output)),
        Profiler::Sample => fold_report("collapsing sample output: "@, sample_folded(output)),
    }
}

/// A profile's collapsed stacks, demangled.
pub open spec fn profiled(profiler: Profiler, output: Seq<u8>) -> Result<Seq<u8>, Seq<char>> {
    match collapsed(profiler, output) {
        Ok(folded) => Ok(encode_utf8(demangled_spec(text::lossy_text(folded)))),
        Err(e) => Err(e),
    }
}

/// A profiler's output as demangled collapsed stacks.
pub fn profile_workload(profiler: Profiler, output: &[u8]) -> (r: Result<Vec<u8>, String>)
    requires
        profile_foldable(profiler, output@),
    ensures
        fold_view(r) == profiled(profiler, output@),
{
    let folded: Result<Vec<u8>, String> = match profiler {
        Profiler::Perf => collapse_perf_script(output),
        Profiler::Sample => collapse_sample_output(output),
    };
    match folded {
        Ok(folded) => Ok(demangle_folded(folded.as_slice())),
        Err(e) => Err(e),
    }
}

/// [`profile_workload`], where the output can be folded.
pub fn checked_profile(profiler: Profiler, output: &[u8]) -> (r: Option<Result<Vec<u8>, String>>)
    ensures
        match r {
            Some(folded) => profile_foldable(profiler, output@) && fold_view(folded) == profiled(
                profiler,
                output@,
            ),
            None => !profile_foldable(profiler, output@),
        },
{
    if is_profile_foldable(profiler, output) {
        Some(profile_workload(profiler, output))
    } else {
        None
    }
}

/// The bench binary's arguments for profiling exactly one benchmark, so that
/// variant rows like `.../x8` are not swept in.
pub open spec fn exact_args_spec(profile_secs: u64, benchmark_id: Seq<char>) -> Seq<Seq<char>> {
    seq![
        "--bench"@,
        "--exact"@,
        "--profile-time"@,
        numerals::digits(profile_secs as nat, 10),
        benchmark_id,
    ]
}

pub fn exact_args(profile_secs: u64, benchmark_id: &str) -> (r: Vec<String>)
    ensures
        text::views(r@) == exact_args_spec(profile_secs, benchmark_id@),
{
    let mut args: Vec<String> = Vec::new();
    let secs: String = numerals::decimal(profile_secs);
    text::add_word(&mut args, "--bench");
    text::add_word(&mut args, "--exact");
    text::add_word(&mut args, "--profile-time");
    text::add_word(&mut args, secs.as_str());
    text::add_word(&mut args, benchmark_id);
    args
}

/// The arguments of `perf record` around the bench binary.
pub fn profile_with_perf(
    bench_bin: &str,
    benchmark_id: &str,
    profile_secs: u64,
    perf_data: &str,
) -> (r: Vec<String>)
    ensures
        text::views(r@) == seq![
            "record"@,
            "-g"@,
            "--call-graph"@,
            "dwarf,16384"@,
            "-o"@,
            perf_data@,
            "--"@,
            bench_bin@,
        ] + exact_args_spec(profile_secs, benchmark_id@),
{
    let mut args: Vec<String> = Vec::new();
    let secs: String = numerals::decimal(profile_secs);
    text::add_word(&mut args, "record");
    text::add_word(&mut args, "-g");
    text::add_word(&mut args, "--call-graph");
    text::add_word(&mut args, "dwarf,16384");
    text::add_word(&mut args, "-o");
    text::add_word(&mut args, perf_data);
    text::add_word(&mut args, "--");
    text::add_word(&mut args, bench_bin);
    text::add_word(&mut args, "--bench");
    text::add_word(&mut args, "--exact");
    text::add_word(&mut args, "--profile-time");
    text::add_word(&mut args, secs.as_str());
    text::add_word(&mut args, benchmark_id);
    args
}

/// The arguments of `perf script` on what `perf record` wrote.
pub fn perf_script_args(perf_data: &str) -> (r: Vec<String>)
    ensures
        text::views(r@) == seq!["script"@, "-i"@, perf_data@],
{
    let mut args: Vec<String> = Vec::new();
    text::add_word(&mut args, "script");
    text::add_word(&mut args, "-i");
    text::add_word(&mut args, perf_data);
    args
}

/// The arguments of macOS `sample` on a running bench.
pub fn profile_with_sample(pid: u32, profile_secs: u64, sample_file: &str) -> (r: Vec<String>)
    ensures
        text::views(r@) == seq![
            numerals::digits(pid as nat, 10),
            numerals::digits(profile_secs as nat, 10),
            "-mayDie"@,
            "-f"@,
            sample_file@,
        ],
{
    let mut args: Vec<String> = Vec::new();
    let process: String = numerals::decimal(pid as u64);
    let secs: String = numerals::decimal(profile_secs);
    text::add_word(&mut args, process.as_str());
    text::add_word(&mut args, secs.as_str());
    text::add_word(&mut args, "-mayDie");
    text::add_word(&mut args, "-f");
    text::add_word(&mut args, sample_file);
    args
}

/// The scratch file that a profiler writes for a benchmark.
pub fn scratch_file(profiler: Profiler, benchmark_id: &str) -> (r: String)
    ensures
        r@ == text::replace_spec(benchmark_id@, '/', '_') + match profiler {
            Profiler::Perf => ".perf.data"@,
            Profiler::Sample => ".sample.txt"@,
        },
{
    let stem: String = workload_file_stem(benchmark_id);
    match profiler {
        Profiler::Perf => text::cat2(stem.as_str(), ".perf.data"),
        Profiler::Sample => text::cat2(stem.as_str(), ".sample.txt"),
    }
}

// ---------------------------------------------------------------------------
// The nightly run
// ---------------------------------------------------------------------------

/// The ids of the pairs, in order.
pub open spec fn pair_ids(pairs: Seq<FlameWorkloadPair>) -> Seq<Seq<char>>
    decreases pairs.len(),
{
    if pairs.len() == 0 {
        Seq::empty()
    } else {
        pair_ids(pairs.drop_last()).push(pairs.last().baseline@).push(pairs.last().feature@)
    }
}

/// A list without repetitions: each entry where it comes first.
pub open spec fn firsts(list: Seq<Seq<char>>) -> Seq<Seq<char>>
    decreases list.len(),
{
    if list.len() == 0 {
        Seq::empty()
    } else {
        let front = firsts(list.drop_last());
        if front.contains(list.last()) {
            front
        } else {
            front.push(list.last())
        }
    }
}

/// The first feature that an earlier pair has too.
pub open spec fn repeated_feature(pairs: Seq<FlameWorkloadPair>) -> Option<Seq<char>>
    decreases pairs.len(),
{
    if pairs.len() == 0 {
        None
    } else {
        let front = pairs.drop_last();
        match repeated_feature(front) {
            Some(f) => Some(f),
            None => if exists|j: int|
                0 <= j < front.len() && (#[trigger] front[j]).feature@ == pairs.last().feature@ {
                Some(pairs.last().feature@)
            } else {
                None
            },
        }
    }
}

/// One benchmark to profile, and the flame graph to render of it; its id is
/// the title.
#[derive(Debug, Clone, PartialEq, Eq)]
pub struct FlameJob {
    pub id: String,
    pub svg: String,
}

/// One differential flame graph to render from two profiles.
#[derive(Debug, Clone, PartialEq, Eq)]
pub struct DiffJob {
    pub baseline: String,
    pub feature: String,
    pub title: String,
    pub svg: String,
}

/// Everything that a nightly run profiles and renders.
#[derive(Debug, Clone, PartialEq, Eq)]
pub struct FlamePlan {
    pub profiles: Vec<FlameJob>,
    pub diffs: Vec<DiffJob>,
}

pub open spec fn svg_path(dir: Seq<char>, id: Seq<char>, ending: Seq<char>) -> Seq<char> {
    paths::join_spec(dir, text::replace_spec(id, '/', '_') + ending)
}

pub open spec fn is_flame_job(job: FlameJob, id: Seq<char>, dir: Seq<char>) -> bool {
    job.id@ == id && job.svg@ == svg_path(dir, id, ".svg"@)
}

pub open spec fn is_diff_job(job: DiffJob, pair: FlameWorkloadPair, dir: Seq<char>) -> bool {
    &&& job.baseline@ == pair.baseline@
    &&& job.feature@ == pair.feature@
    &&& job.title@ == pair.feature@ + " vs "@ + pair.baseline@
    &&& job.svg@ == svg_path(dir, pair.feature@, "_diff.svg"@)
}

/// Each id of the pairs is profiled and rendered once, where it comes first; each
/// pair gets its differential.
pub open spec fn is_flame_plan(
    plan: FlamePlan,
    pairs: Seq<FlameWorkloadPair>,
    dir: Seq<char>,
) -> bool {
    let ids = firsts(pair_ids(pairs));
    &&& plan.profiles@.len() == ids.len()
    &&& forall|i: int|
        0 <= i < ids.len() ==> is_flame_job(#[trigger] plan.profiles@[i], ids[i], dir)
    &&& plan.diffs@.len() == pairs.len()
    &&& forall|i: int|
        0 <= i < pairs.len() ==> is_diff_job(#[trigger] plan.diffs@[i], pairs[i], dir)
}

/// Does this repo have flame graphs to make?
pub fn flame_settings(repo: &RepoConfig) -> (r: Result<&FlamegraphConfig, String>)
    ensures
        match r {
            Ok(c) => repo.flamegraph == Some(*c) && c.workloads@.len() > 0,
            Err(e) => match repo.flamegraph {
                None => e@ == "repo '"@ + repo.name@ + "' has no [repos.flamegraph] config"@,
                Some(c) => c.workloads@.len() == 0 && e@ == "repo '"@ + repo.name@
                    + "' has an empty flamegraph workload list"@,
            },
        },
{
    match &repo.flamegraph {
        None => Err(
            text::cat3("repo '", repo.name.as_str(), "' has no [repos.flamegraph] config"),
        ),
        Some(c) => if c.workloads.len() == 0 {
            Err(
                text::cat3("repo '", repo.name.as_str(), "' has an empty flamegraph workload list"),
            )
        } else {
            Ok(c)
        },
    }
}

/// Does one of the first `n` pairs have this feature?
fn has_feature(pairs: &Vec<FlameWorkloadPair>, n: usize, feature: &str) -> (r: bool)
    requires
        n <= pairs@.len(),
    ensures
        r == exists|j: int| 0 <= j < n && (#[trigger] pairs@[j]).feature@ == feature@,
{
    let mut j: usize = 0;
    while j < n
        invariant
            j <= n <= pairs@.len(),
            forall|k: int| 0 <= k < j ==> (#[trigger] pairs@[k]).feature@ != feature@,
        decreases n - j,
    {
        if text::same(pairs[j].feature.as_str(), feature) {
            assert(pairs@[j as int].feature@ == feature@);
            return true;
        }
        j = j + 1;
    }
    false
}

proof fn lemma_repeated_take(pairs: Seq<FlameWorkloadPair>, n: int)
    requires
        0 <= n <= pairs.len(),
        repeated_feature(pairs.take(n)) is Some,
    ensures
        repeated_feature(pairs) == repeated_feature(pairs.take(n)),
    decreases pairs.len() - n,
{
    if n < pairs.len() {
        assert(pairs.take(n + 1).drop_last() =~= pairs.take(n));
        lemma_repeated_take(pairs, n + 1);
    } else {
        assert(pairs.take(n) =~= pairs);
    }
}

/// The ids of flame jobs, in order.
pub open spec fn job_ids(jobs: Seq<FlameJob>) -> Seq<Seq<char>> {
    Seq::new(jobs.len(), |i: int| jobs[i].id@)
}

/// Adds a job for an id that has none yet.
fn add_job(jobs: &mut Vec<FlameJob>, id: &str, dir: &str, Ghost(list): Ghost<Seq<Seq<char>>>)
    requires
        job_ids(old(jobs)@) == firsts(list),
        forall|i: int|
            0 <= i < old(jobs)@.len() ==> is_flame_job(
                #[trigger] old(jobs)@[i],
                firsts(list)[i],
                dir@,
            ),
    ensures
        job_ids(final(jobs)@) == firsts(list.push(id@)),
        forall|i: int|
            0 <= i < final(jobs)@.len() ==> is_flame_job(
                #[trigger] final(jobs)@[i],
                firsts(list.push(id@))[i],
                dir@,
            ),
{
    let ghost before = jobs@;
    assert(list.push(id@).drop_last() =~= list);
    let mut i: usize = 0;
    while i < jobs.len()
        invariant
            i <= jobs@.len(),
            jobs@ == before,
            job_ids(before) == firsts(list),
            forall|k: int| 0 <= k < i ==> #[trigger] firsts(list)[k] != id@,
            list.push(id@).drop_last() == list,
            forall|i: int|
                0 <= i < before.len() ==> is_flame_job(
                    #[trigger] before[i],
                    firsts(list)[i],
                    dir@,
                ),
        decreases jobs@.len() - i,
    {
        assert(job_ids(before)[i as int] == jobs@[i as int].id@);
        if text::same(jobs[i].id.as_str(), id) {
            assert(firsts(list).contains(id@));
            return ;
        }
        i = i + 1;
    }
    assert(job_ids(before).len() == before.len());
    assert(!firsts(list).contains(id@));
    let stem: String = workload_file_stem(id);
    let name: String = text::cat2(stem.as_str(), ".svg");
    let svg: String = paths::join(dir, name.as_str());
    jobs.push(FlameJob { id: id.to_string(), svg });
    assert(job_ids(jobs@) =~= firsts(list).push(id@));
}

/// Plans a nightly run: what to profile, and which flame graphs and
/// differentials to render into `flame_dir`. A feature in two pairs would
/// overwrite its own differential with another comparison, so it is refused.
pub fn run_flamegraph_pipeline(settings: &FlamegraphConfig, flame_dir: &str) -> (r: Result<
    FlamePlan,
    String,
>)
    ensures
        match r {
            Ok(plan) => repeated_feature(settings.workloads@) is None && is_flame_plan(
                plan,
                settings.workloads@,
                flame_dir@,
            ),
            Err(e) => repeated_feature(settings.workloads@) matches Some(f) && e@
                == "flamegraph workload feature '"@ + f + "' appears in more than one pair"@,
        },
{
    let pairs: &Vec<FlameWorkloadPair> = &settings.workloads;
    let n: usize = pairs.len();
    let mut i: usize = 0;
    while i < n
        invariant
            i <= n,
            n == pairs@.len(),
            pairs@ == settings.workloads@,
            repeated_feature(pairs@.take(i as int)) is None,
        decreases n - i,
    {
        let repeated: bool = has_feature(pairs, i, pairs[i].feature.as_str());
        proof {
            let next = pairs@.take(i + 1);
            assert(next.drop_last() =~= pairs@.take(i as int));
            assert(next.last() == pairs@[i as int]);
            if repeated {
                let j = choose|j: int|
                    0 <= j < i && (#[trigger] pairs@[j]).feature@ == pairs@[i as int].feature@;
                assert(pairs@.take(i as int)[j].feature@ == pairs@[i as int].feature@);
                lemma_repeated_take(pairs@, i + 1);
            } else {
                assert forall|j: int| 0 <= j < i implies (#[trigger] pairs@.take(
                    i as int,
                )[j]).feature@ != pairs@[i as int].feature@ by {
                    assert(pairs@.take(i as int)[j] == pairs@[j]);
                }
            }
        }
        if repeated {
            return Err(
                text::cat3(
                    "flamegraph workload feature '",
                    pairs[i].feature.as_str(),
                    "' appears in more than one pair",
                ),
            );
        }
        i = i + 1;
    }
    assert(pairs@.take(n as int) =~= pairs@);
    let mut profiles: Vec<FlameJob> = Vec::new();
    let mut diffs: Vec<DiffJob> = Vec::new();
    let mut k: usize = 0;
    assert(job_ids(profiles@) =~= firsts(pair_ids(pairs@.take(0))));
    while k < n
        invariant
            k <= n,
            n == pairs@.len(),
            job_ids(profiles@) == firsts(pair_ids(pairs@.take(k as int))),
            forall|i: int|
                0 <= i < profiles@.len() ==> is_flame_job(
                    #[trigger] profiles@[i],
                    firsts(pair_ids(pairs@.take(k as int)))[i],
                    flame_dir@,
                ),
            diffs@.len() == k,
            forall|i: int|
                0 <= i < k ==> is_diff_job(#[trigger] diffs@[i], pairs@[i], flame_dir@),
        decreases n - k,
    {
        let pair: &FlameWorkloadPair = &pairs[k];
        let ghost list = pair_ids(pairs@.take(k as int));
        assert(pairs@.take(k + 1).drop_last() =~= pairs@.take(k as int));
        add_job(&mut profiles, pair.baseline.as_str(), flame_dir, Ghost(list));
        add_job(
            &mut profiles,
            pair.feature.as_str(),
            flame_dir,
            Ghost(list.push(pair.baseline@)),
        );
        let stem: String = workload_file_stem(pair.feature.as_str());
        let name: String = text::cat2(stem.as_str(), "_diff.svg");
        diffs.push(
            DiffJob {
                baseline: pair.baseline.clone(),
                feature: pair.feature.clone(),
                title: text::cat3(pair.feature.as_str(), " vs ", pair.baseline.as_str()),
                svg: paths::join(flame_dir, name.as_str()),
            },
        );
        k = k + 1;
    }
    assert(pairs@.take(n as int) =~= pairs@);
    assert(job_ids(profiles@).len() == profiles@.len());
    Ok(FlamePlan { profiles, diffs })
}

proof fn lemma_firsts(list: Seq<Seq<char>>)
    ensures
        firsts(list).no_duplicates(),
        forall|x: Seq<char>| #[trigger] firsts(list).contains(x) <==> list.contains(x),
    decreases list.len(),
{
    if list.len() > 0 {
        let front = list.drop_last();
        lemma_firsts(front);
        assert forall|x: Seq<char>| #[trigger] firsts(list).contains(x) <==> list.contains(x) by {
            assert(list =~= front.push(list.last()));
            if firsts(front).contains(list.last()) {
                assert(front.contains(list.last()));
                if list.contains(x) && x != list.last() {
                    let i = list.index_of(x);
                    assert(front[i] == x);
                }
                if front.contains(x) {
                    let i = front.index_of(x);
                    assert(list[i] == x);
                }
            } else {
                if firsts(list).contains(x) && x != list.last() {
                    let i = firsts(list).index_of(x);
                    assert(firsts(front)[i] == x);
                    assert(firsts(front).contains(x));
                    assert(front.contains(x));
                    let j = front.index_of(x);
                    assert(list[j] == x);
                }
                if list.contains(x) {
                    if x == list.last() {
                        assert(firsts(list).last() == x);
                    } else {
                        let i = list.index_of(x);
                        assert(front[i] == x);
                        assert(firsts(front).contains(x));
                        let j = firsts(front).index_of(x);
                        assert(firsts(list)[j] == x);
                    }
                }
            }
        }
    }
}

proof fn lemma_pair_ids(pairs: Seq<FlameWorkloadPair>, i: int)
    requires
        0 <= i < pairs.len(),
    ensures
        pair_ids(pairs).contains(pairs[i].baseline@),
        pair_ids(pairs).contains(pairs[i].feature@),
    decreases pairs.len(),
{
    let front = pair_ids(pairs.drop_last());
    let all = pair_ids(pairs);
    if i == pairs.len() - 1 {
        assert(all[front.len() as int] == pairs[i].baseline@);
        assert(all.last() == pairs[i].feature@);
    } else {
        lemma_pair_ids(pairs.drop_last(), i);
        let a = front.index_of(pairs[i].baseline@);
        let b = front.index_of(pairs[i].feature@);
        assert(all[a] == pairs[i].baseline@);
        assert(all[b] == pairs[i].feature@);
    }
}

/// A plan profiles no id twice — a baseline that several pairs share is not
/// profiled again for each — and both sides of every pair are profiled, so that
/// its differential has what it compares.
pub proof fn law_every_side_is_profiled_once(
    plan: FlamePlan,
    pairs: Seq<FlameWorkloadPair>,
    dir: Seq<char>,
)
    requires
        is_flame_plan(plan, pairs, dir),
    ensures
        job_ids(plan.profiles@).no_duplicates(),
        forall|i: int|
            0 <= i < pairs.len() ==> job_ids(plan.profiles@).contains(
                (#[trigger] pairs[i]).baseline@,
            ) && job_ids(plan.profiles@).contains(pairs[i].feature@),
{
    let ids = firsts(pair_ids(pairs));
    assert(job_ids(plan.profiles@) =~= ids);
    lemma_firsts(pair_ids(pairs));
    assert forall|i: int| 0 <= i < pairs.len() implies ids.contains((#[trigger] pairs[i]).baseline@)
        && ids.contains(pairs[i].feature@) by {
        lemma_pair_ids(pairs, i);
    }
}

/// The pairs of a run have features of their own: no two differentials compare
/// the same feature.
pub proof fn law_differentials_have_their_own_feature(
    pairs: Seq<FlameWorkloadPair>,
    i: int,
    j: int,
)
    requires
        repeated_feature(pairs) is None,
        0 <= i < j < pairs.len(),
    ensures
        pairs[i].feature@ != pairs[j].feature@,
    decreases pairs.len(),
{
    let front = pairs.drop_last();
    if j < pairs.len() - 1 {
        law_differentials_have_their_own_feature(front, i, j);
        assert(front[i] == pairs[i] && front[j] == pairs[j]);
    } else {
        assert(front[i].feature@ == pairs[i].feature@);
    }
}

} // verus!
