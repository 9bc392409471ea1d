//! What the profiler's output is turned into, and the steps around it.
use crate::canary;
use crate::config::FlameWorkloadPair;
use crate::flamegraph;
use crate::flamegraph::FlamePlan;
use crate::git;
use crate::git::{CheckoutStep, Retry, Revision};
use crate::json;
use crate::json::JsonView;
use crate::laws::texts;
use crate::numerals;
use crate::paths;
use crate::subprocess;
use crate::text;
use vstd::prelude::*;

verus! {

// ---------------------------------------------------------------------------
// Demangling
// ---------------------------------------------------------------------------

/// The last of the character in a text, and what is around it.
pub open spec fn last_apart(s: Seq<char>, c: char, front: Seq<char>, back: Seq<char>) -> bool {
    s == front + seq![c] + back && !back.contains(c)
}

proof fn lemma_rsplit(s: Seq<char>, c: char)
    ensures
        match text::rsplit_once_spec(s, c) {
            Some((front, back)) => last_apart(s, c, front, back),
            None => !s.contains(c),
        },
    decreases s.len(),
{
    if s.len() > 0 {
        let before = s.drop_last();
        lemma_rsplit(before, c);
        if s.last() == c {
            assert(!text::except(c)(s.last()));
            assert(text::span_back(s, text::except(c)) == 0);
            assert(s.take(s.len() - 1) + seq![c] + s.skip(s.len() as int) =~= s);
        } else {
            assert(text::except(c)(s.last()));
            let n = text::span_back(before, text::except(c));
            assert(text::span_back(s, text::except(c)) == n + 1);
            match text::rsplit_once_spec(before, c) {
                Some((front, back)) => {
                    assert(s.take(s.len() - (n + 1) - 1) =~= front);
                    assert(s.skip(s.len() - (n + 1)) =~= back.push(s.last()));
                    assert(s =~= before.push(s.last()));
                    assert(s =~= front + seq![c] + back.push(s.last()));
                    assert(!back.push(s.last()).contains(c)) by {
                        if back.push(s.last()).contains(c) {
                            let i = back.push(s.last()).index_of(c);
                            if i < back.len() {
                                assert(back[i] == c);
                            }
                        }
                    }
                },
                None => {
                    assert(!s.contains(c)) by {
                        if s.contains(c) {
                            let i = s.index_of(c);
                            if i < before.len() {
                                assert(before[i] == c);
                            }
                        }
                    }
                },
            }
        }
    }
}

/// A demangled frame keeps its module: only what stands behind the last
/// backquote is replaced.
pub proof fn law_demangling_keeps_the_module(frame: Seq<char>, name: Option<Seq<char>>)
    ensures
        name is None ==> flamegraph::renamed_spec(frame, name) == frame,
        name is Some && !frame.contains('`') ==> flamegraph::renamed_spec(frame, name) == name->0
            && flamegraph::symbol_spec(frame) == frame,
        name is Some && frame.contains('`') ==> exists|module: Seq<char>| #[trigger]
            last_apart(frame, '`', module, flamegraph::symbol_spec(frame))
                && flamegraph::renamed_spec(frame, name) == module + seq!['`'] + name->0,
{
    lemma_rsplit(frame, '`');
    reveal_strlit("`");
    assert("`"@ =~= seq!['`']);
    match text::rsplit_once_spec(frame, '`') {
        Some((module, symbol)) => {
            assert(last_apart(frame, '`', module, symbol));
            assert((module + seq!['`'] + symbol)[module.len() as int] == '`');
            assert(frame.contains('`'));
            assert(last_apart(frame, '`', module, flamegraph::symbol_spec(frame)));
        },
        None => {},
    }
}

/// A demangled line keeps its count, and as many frames as it had; a line whose
/// frames have no other name is left as it is.
pub proof fn law_demangling_keeps_the_count(line: Seq<char>)
    ensures
        !line.contains(' ') ==> flamegraph::line_spec(line) == line,
        line.contains(' ') ==> exists|stack: Seq<char>, count: Seq<char>| #[trigger]
            last_apart(line, ' ', stack, count) && is_suffix(
                flamegraph::line_spec(line),
                seq![' '] + count,
            ),
        (forall|f: Seq<char>| #[trigger] flamegraph::frame_spec(f) == f) ==> flamegraph::line_spec(
            line,
        ) == line,
{
    lemma_rsplit(line, ' ');
    reveal_strlit(" ");
    reveal_strlit(";");
    assert(" "@ =~= seq![' ']);
    assert(";"@ =~= seq![';']);
    match text::rsplit_once_spec(line, ' ') {
        Some((stack, count)) => {
            assert(last_apart(line, ' ', stack, count));
            assert((stack + seq![' '] + count)[stack.len() as int] == ' ');
            assert(line.contains(' '));
            let frames = text::split_spec(stack, ';');
            let renamed = frames.map_values(|f: Seq<char>| flamegraph::frame_spec(f));
            let joined = text::join_spec(renamed, ";"@);
            let all = flamegraph::line_spec(line);
            assert(all == joined + " "@ + count);
            assert(all =~= joined + (seq![' '] + count));
            assert(all.skip(joined.len() as int) =~= seq![' '] + count);
            assert(is_suffix(all, seq![' '] + count));
            if forall|f: Seq<char>| #[trigger] flamegraph::frame_spec(f) == f {
                assert(renamed =~= frames);
                texts::law_pieces_join_back(stack, ';');
            }
        },
        None => {},
    }
}

pub open spec fn is_suffix(s: Seq<char>, tail: Seq<char>) -> bool {
    tail.len() <= s.len() && s.skip(s.len() - tail.len()) == tail
}

// ---------------------------------------------------------------------------
// Cargo's messages
// ---------------------------------------------------------------------------

/// The executable is that of the first message that reports one for the
/// target.
pub proof fn law_the_first_report_names_the_binary(
    lines: Seq<Seq<char>>,
    target: Seq<char>,
    i: int,
)
    requires
        0 <= i < lines.len(),
        flamegraph::line_artifact(lines[i], target) is Some,
        forall|j: int| 0 <= j < i ==> flamegraph::line_artifact(#[trigger] lines[j], target) is None,
    ensures
        flamegraph::executable_spec(lines, target) == flamegraph::line_artifact(lines[i], target),
    decreases lines.len(),
{
    if i > 0 {
        assert(flamegraph::line_artifact(lines[0], target) is None);
        let rest = lines.drop_first();
        assert(rest[i - 1] == lines[i]);
        assert forall|j: int| 0 <= j < i - 1 implies flamegraph::line_artifact(
            #[trigger] rest[j],
            target,
        ) is None by {
            assert(rest[j] == lines[j + 1]);
        }
        law_the_first_report_names_the_binary(rest, target, i - 1);
    }
}

/// There is no executable where no message reports one.
pub proof fn law_no_report_names_no_binary(lines: Seq<Seq<char>>, target: Seq<char>)
    requires
        forall|j: int|
            0 <= j < lines.len() ==> flamegraph::line_artifact(#[trigger] lines[j], target) is None,
    ensures
        flamegraph::executable_spec(lines, target) is None,
    decreases lines.len(),
{
    if lines.len() > 0 {
        assert(flamegraph::line_artifact(lines[0], target) is None);
        let rest = lines.drop_first();
        assert forall|j: int| 0 <= j < rest.len() implies flamegraph::line_artifact(
            #[trigger] rest[j],
            target,
        ) is None by {
            assert(rest[j] == lines[j + 1]);
        }
        law_no_report_names_no_binary(rest, target);
    }
}

/// A message reports an executable only where it is about an artifact of that
/// very target, built as a bench.
pub proof fn law_reports_are_about_the_bench_target(msg: JsonView, target: Seq<char>)
    requires
        flamegraph::artifact_spec(msg, target) is Some,
    ensures
        json::get_spec(msg, "executable"@) == Some(
            JsonView::Text(flamegraph::artifact_spec(msg, target)->0),
        ),
        json::get_spec(msg, "reason"@) == Some(JsonView::Text("compiler-artifact"@)),
        json::get_spec(msg, "target"@) is Some,
        json::get_spec(json::get_spec(msg, "target"@)->0, "name"@) == Some(JsonView::Text(target)),
        json::get_spec(json::get_spec(msg, "target"@)->0, "kind"@) is Some,
        json::get_spec(json::get_spec(msg, "target"@)->0, "kind"@)->0 is List,
        json::get_spec(json::get_spec(msg, "target"@)->0, "kind"@)->0->List_0.contains(
            JsonView::Text("bench"@),
        ),
{
}

// ---------------------------------------------------------------------------
// Plans
// ---------------------------------------------------------------------------

/// Each differential of a plan compares the two sides of its pair, baseline
/// against feature, in the order of the pairs.
pub proof fn law_differentials_compare_their_pair(
    plan: FlamePlan,
    pairs: Seq<FlameWorkloadPair>,
    dir: Seq<char>,
    i: int,
)
    requires
        flamegraph::is_flame_plan(plan, pairs, dir),
        0 <= i < pairs.len(),
    ensures
        plan.diffs@.len() == pairs.len(),
        plan.diffs@[i].baseline@ == pairs[i].baseline@,
        plan.diffs@[i].feature@ == pairs[i].feature@,
        plan.diffs@[i].title@ == pairs[i].feature@ + " vs "@ + pairs[i].baseline@,
{
    assert(flamegraph::is_diff_job(plan.diffs@[i], pairs[i], dir));
}

proof fn lemma_firsts_from(list: Seq<Seq<char>>, s: Seq<char>)
    requires
        flamegraph::firsts(list).contains(s),
    ensures
        list.contains(s),
    decreases list.len(),
{
    if list.len() > 0 {
        let front = list.drop_last();
        let before = flamegraph::firsts(front);
        let all = flamegraph::firsts(list);
        let k = all.index_of(s);
        if k < before.len() {
            assert(before[k] == s);
            lemma_firsts_from(front, s);
            let i = front.index_of(s);
            assert(list[i] == s);
        } else {
            assert(list[list.len() - 1] == s);
        }
    }
}

proof fn lemma_pair_ids_from(pairs: Seq<FlameWorkloadPair>, s: Seq<char>)
    requires
        flamegraph::pair_ids(pairs).contains(s),
    ensures
        exists|i: int|
            0 <= i < pairs.len() && ((#[trigger] pairs[i]).baseline@ == s || pairs[i].feature@
                == s),
    decreases pairs.len(),
{
    if pairs.len() > 0 {
        let front = pairs.drop_last();
        let n = pairs.len() - 1;
        let before = flamegraph::pair_ids(front);
        let all = flamegraph::pair_ids(pairs);
        let k = all.index_of(s);
        if k < before.len() {
            assert(before[k] == s);
            lemma_pair_ids_from(front, s);
            let i = choose|i: int|
                0 <= i < front.len() && ((#[trigger] front[i]).baseline@ == s || front[i].feature@
                    == s);
            assert(pairs[i] == front[i]);
        } else {
            assert(pairs[n].baseline@ == s || pairs[n].feature@ == s);
        }
    }
}

/// Nothing is profiled but the sides of the pairs.
pub proof fn law_only_sides_of_pairs_are_profiled(
    plan: FlamePlan,
    pairs: Seq<FlameWorkloadPair>,
    dir: Seq<char>,
    k: int,
)
    requires
        flamegraph::is_flame_plan(plan, pairs, dir),
        0 <= k < plan.profiles@.len(),
    ensures
        exists|i: int|
            0 <= i < pairs.len() && ((#[trigger] pairs[i]).baseline@ == plan.profiles@[k].id@
                || pairs[i].feature@ == plan.profiles@[k].id@),
{
    let ids = flamegraph::firsts(flamegraph::pair_ids(pairs));
    assert(flamegraph::is_flame_job(plan.profiles@[k], ids[k], dir));
    assert(ids.contains(ids[k]));
    lemma_firsts_from(flamegraph::pair_ids(pairs), ids[k]);
    lemma_pair_ids_from(pairs, ids[k]);
}

// ---------------------------------------------------------------------------
// Retries and checkouts
// ---------------------------------------------------------------------------

/// An attempt that succeeds is the last one; a failed one is followed by
/// another after its own wait, as long as there are waits left.
pub proof fn law_failed_attempts_wait_their_turn(attempt: nat, succeeded: bool, waits: Seq<u64>)
    ensures
        git::retry_spec(attempt, succeeded, waits) is Done <==> succeeded,
        git::retry_spec(attempt, succeeded, waits) is GiveUp <==> !succeeded && attempt
            >= waits.len(),
        git::retry_spec(attempt, succeeded, waits) matches Retry::Wait(secs) ==> !succeeded
            && attempt < waits.len() && secs == waits[attempt as int],
{
}

/// A failed step fails the checkout, but for a commit that the branch did not
/// bring: that is fetched by itself. A step that succeeds never fails it.
pub proof fn law_checkouts_fail_with_their_steps(
    step: CheckoutStep,
    succeeded: bool,
    commit: bool,
)
    requires
        !(step is Done),
        !(step is Failed),
    ensures
        ({
            let next = git::next_step_spec(step, succeeded, commit);
            &&& next is Failed <==> !succeeded && !(step is Checkout && commit)
            &&& next is FetchCommit <==> !succeeded && step is Checkout && commit
            &&& next is Done <==> succeeded && step is Submodules
            &&& next is Submodules <==> succeeded && (step is Checkout || step is CheckoutFetched)
            &&& next is Checkout <==> succeeded && step is FetchBranch
            &&& next is CheckoutFetched <==> succeeded && step is FetchCommit
        }),
{
}

// ---------------------------------------------------------------------------
// Canaries
// ---------------------------------------------------------------------------

/// The sum of squares in closed form.
pub proof fn law_squares_add_up(n: nat)
    ensures
        6 * canary::squares_below(n) == n * (n - 1) * (2 * n - 1),
    decreases n,
{
    if n > 0 {
        let m = (n - 1) as nat;
        law_squares_add_up(m);
        assert(((n - 1) * (n - 1)) as nat == m * m) by (nonlinear_arith)
            requires
                m == n - 1,
        ;
        assert(m * (m - 1) * (2 * m - 1) + 6 * (m * m) == n * (n - 1) * (2 * n - 1))
            by (nonlinear_arith)
            requires
                n == m + 1,
        ;
    } else {
        assert(0 * (0 - 1) * (2 * 0 - 1) == 0);
    }
}

/// Neighbouring Fibonacci numbers: the product of the outer two of three is the
/// square of the middle one, give or take one.
pub proof fn law_fibonacci_neighbours(n: nat)
    ensures
        ({
            let a = canary::fib_number(n) as int;
            let b = canary::fib_number(n + 1) as int;
            let c = canary::fib_number(n + 2) as int;
            a * c - b * b == if n % 2 == 0 {
                -1int
            } else {
                1
            }
        }),
    decreases n,
{
    reveal_with_fuel(canary::fib_number, 4);
    if n > 0 {
        let m = (n - 1) as nat;
        law_fibonacci_neighbours(m);
        let a = canary::fib_number(m) as int;
        let b = canary::fib_number(n) as int;
        let c = canary::fib_number(n + 1) as int;
        let d = canary::fib_number(n + 2) as int;
        assert(m + 1 == n && m + 2 == n + 1);
        assert(c == a + b && d == b + c);
        assert(b * d - c * c == -(a * c - b * b)) by (nonlinear_arith)
            requires
                c == a + b,
                d == b + c,
        ;
    } else {
        let (a, b, c) = (
            canary::fib_number(0) as int,
            canary::fib_number(1) as int,
            canary::fib_number(2) as int,
        );
        assert(a == 0 && b == 1 && c == 1);
        assert(a * c - b * b == -1) by (nonlinear_arith)
            requires
                a == 0,
                b == 1,
                c == 1,
        ;
    }
}

/// A fetch names what it brings; a checkout is forced and detached, onto the
/// commit or onto what was fetched; credentials go only with the steps that talk
/// to the remote.
pub proof fn law_steps_name_what_they_bring(
    cred: Seq<Seq<char>>,
    branch: Seq<char>,
    revision: Revision,
)
    ensures
        ({
            let name = match revision {
                Revision::Commit(sha) => sha@,
                Revision::BranchHead => "FETCH_HEAD"@,
            };
            let fetch = git::step_args_spec(CheckoutStep::FetchBranch, cred, branch, revision);
            let direct = git::step_args_spec(CheckoutStep::FetchCommit, cred, branch, revision);
            let out = git::step_args_spec(CheckoutStep::Checkout, cred, branch, revision);
            let again = git::step_args_spec(CheckoutStep::CheckoutFetched, cred, branch, revision);
            &&& fetch.take(cred.len() as int) == cred && fetch.last() == branch
            &&& direct.take(cred.len() as int) == cred && direct.last() == name
            &&& out == again && out.last() == name && out.contains("--force"@) && out.contains(
                "--detach"@,
            )
            &&& out.len() == 4
        }),
{
    let fetch = git::step_args_spec(CheckoutStep::FetchBranch, cred, branch, revision);
    let direct = git::step_args_spec(CheckoutStep::FetchCommit, cred, branch, revision);
    let out = git::step_args_spec(CheckoutStep::Checkout, cred, branch, revision);
    assert(fetch.take(cred.len() as int) =~= cred);
    assert(direct.take(cred.len() as int) =~= cred);
    assert(out[1] == "--force"@ && out[2] == "--detach"@);
}

/// The id of a listed benchmark is what stands before the listing's ending.
pub proof fn law_listed_ids_stand_before_the_ending(listing: Seq<char>, id: Seq<char>, i: int)
    requires
        0 <= i < text::lines_spec(listing).len(),
        text::lines_spec(listing)[i] == id + ": benchmark"@,
        text::trim_spec(id) == id,
    ensures
        flamegraph::is_listed(listing, id),
{
    let line = text::lines_spec(listing)[i];
    let ending = ": benchmark"@;
    assert(line.skip(line.len() - ending.len()) =~= ending);
    assert(line.take(line.len() - ending.len()) =~= id);
    assert(flamegraph::listed_id(line) == id);
    let ids = text::lines_spec(listing).map_values(|l: Seq<char>| flamegraph::listed_id(l));
    assert(ids[i] == id);
}

/// A command's output is what it wrote to stdout, without the blanks around it,
/// exactly where it succeeded.
pub proof fn law_failed_commands_give_no_output(
    what: Seq<char>,
    success: bool,
    status: Seq<char>,
    stdout: Seq<u8>,
    stderr: Seq<u8>,
)
    ensures
        subprocess::output_spec(what, success, status, stdout, stderr) is Ok <==> success,
        success ==> subprocess::output_spec(what, success, status, stdout, stderr)->Ok_0
            == text::trim_spec(text::lossy_text(stdout)),
{
}

/// An object's field is the first of its name.
pub proof fn law_fields_are_found_by_name(fields: Seq<(Seq<char>, JsonView)>, i: int)
    requires
        0 <= i < fields.len(),
        forall|j: int| 0 <= j < i ==> (#[trigger] fields[j]).0 != fields[i].0,
    ensures
        json::get_spec(JsonView::Object(fields), fields[i].0) == Some(fields[i].1),
{
    lemma_field(fields, i);
}

proof fn lemma_field(fields: Seq<(Seq<char>, JsonView)>, i: int)
    requires
        0 <= i < fields.len(),
        forall|j: int| 0 <= j < i ==> (#[trigger] fields[j]).0 != fields[i].0,
    ensures
        json::field_of(fields, fields[i].0) == Some(fields[i].1),
    decreases fields.len(),
{
    if i > 0 {
        assert(fields[0].0 != fields[i].0);
        let rest = fields.drop_first();
        assert(rest[i - 1] == fields[i]);
        assert forall|j: int| 0 <= j < i - 1 implies (#[trigger] rest[j]).0 != rest[i - 1].0 by {
            assert(rest[j] == fields[j + 1]);
        }
        lemma_field(rest, i - 1);
    }
}

/// A profile is of one benchmark alone, for the given time.
pub proof fn law_profiles_are_of_one_benchmark(secs: u64, id: Seq<char>)
    ensures
        ({
            let args = flamegraph::exact_args_spec(secs, id);
            &&& args.contains("--exact"@)
            &&& args.last() == id
            &&& args[2] == "--profile-time"@
            &&& numerals::digits_value(args[3]) == secs
        }),
{
    let args = flamegraph::exact_args_spec(secs, id);
    assert(args[1] == "--exact"@);
    texts::law_decimals_read_back(secs as nat);
}

/// What is written in a line of collapsed stacks counts: a line adds the numbers
/// in its last two words that have digits.
pub proof fn law_lines_add_their_counts(bytes: Seq<u8>, line: Seq<u8>)
    requires
        bytes.len() == 0 || bytes.last() == 10,
        forall|i: int| 0 <= i < line.len() ==> #[trigger] line[i] != 10,
    ensures
        flamegraph::count_sum(bytes + line) == flamegraph::count_sum(bytes) + flamegraph::count_sum(
            line,
        ),
{
    lemma_fresh(bytes);
    lemma_tally(bytes, line);
}

proof fn lemma_fresh(bytes: Seq<u8>)
    requires
        bytes.len() == 0 || bytes.last() == 10,
    ensures
        ({
            let t = flamegraph::tally_after(bytes);
            t.older == 0 && t.newer == 0 && t.word == 0 && t.run == 0 && !t.digits
                && flamegraph::count_sum(bytes) == t.lines
        }),
{
}

proof fn lemma_tally(bytes: Seq<u8>, line: Seq<u8>)
    requires
        bytes.len() == 0 || bytes.last() == 10,
        forall|i: int| 0 <= i < line.len() ==> #[trigger] line[i] != 10,
    ensures
        ({
            let all = flamegraph::tally_after(bytes + line);
            let own = flamegraph::tally_after(line);
            &&& own.lines == 0
            &&& all.lines == flamegraph::tally_after(bytes).lines
            &&& all.older == own.older && all.newer == own.newer && all.word == own.word
            &&& all.run == own.run && all.digits == own.digits
        }),
    decreases line.len(),
{
    lemma_fresh(bytes);
    if line.len() == 0 {
        assert(bytes + line =~= bytes);
    } else {
        let front = line.drop_last();
        assert forall|i: int| 0 <= i < front.len() implies #[trigger] front[i] != 10 by {
            assert(front[i] == line[i]);
        }
        lemma_tally(bytes, front);
        assert((bytes + line).drop_last() =~= bytes + front);
        assert((bytes + line).last() == line.last());
        assert(line[line.len() - 1] != 10);
    }
}

/// A flame graph's file is named by its benchmark, and a differential's by the
/// one that is compared with the baseline.
pub proof fn law_flame_files_are_named_by_their_benchmark(
    plan: FlamePlan,
    pairs: Seq<FlameWorkloadPair>,
    dir: Seq<char>,
    i: int,
)
    requires
        flamegraph::is_flame_plan(plan, pairs, dir),
    ensures
        0 <= i < plan.profiles@.len() ==> paths::file_name_spec(plan.profiles@[i].svg@) == Some(
            text::replace_spec(plan.profiles@[i].id@, '/', '_') + ".svg"@,
        ),
        0 <= i < pairs.len() ==> paths::file_name_spec(plan.diffs@[i].svg@) == Some(
            text::replace_spec(pairs[i].feature@, '/', '_') + "_diff.svg"@,
        ),
{
    let ids = flamegraph::firsts(flamegraph::pair_ids(pairs));
    if 0 <= i < plan.profiles@.len() {
        assert(flamegraph::is_flame_job(plan.profiles@[i], ids[i], dir));
        reveal_strlit(".svg");
        lemma_file_name(dir, ids[i], ".svg"@);
    }
    if 0 <= i < pairs.len() {
        assert(flamegraph::is_diff_job(plan.diffs@[i], pairs[i], dir));
        reveal_strlit("_diff.svg");
        lemma_file_name(dir, pairs[i].feature@, "_diff.svg"@);
    }
}

proof fn lemma_file_name(dir: Seq<char>, id: Seq<char>, ending: Seq<char>)
    requires
        ending.len() > 2,
        !ending.contains('/'),
    ensures
        paths::file_name_spec(flamegraph::svg_path(dir, id, ending)) == Some(
            text::replace_spec(id, '/', '_') + ending,
        ),
{
    let stem = text::replace_spec(id, '/', '_');
    let name = stem + ending;
    if name.contains('/') {
        let k = name.index_of('/');
        if k < stem.len() {
            flamegraph::law_file_stems_hold_no_separator(id, k);
        } else {
            assert(ending[k - stem.len()] == '/');
        }
    }
    texts::law_joined_names_are_final(dir, name);
}

/// A digit behind a number weighs one, and the number tenfold.
pub proof fn law_counts_are_read_digit_by_digit(digits: Seq<u8>, b: u8)
    requires
        forall|i: int| 0 <= i < digits.len() ==> 48 <= #[trigger] digits[i] <= 57,
        48 <= b <= 57,
        flamegraph::tally_after(digits.push(b)).run <= u64::MAX,
    ensures
        flamegraph::count_sum(digits.push(b)) == 10 * flamegraph::count_sum(digits) + (b - 48),
{
    let all = digits.push(b);
    assert(all.drop_last() =~= digits);
    assert(all.last() == b);
    lemma_digits(digits);
    lemma_digits(digits.push(b));
}

proof fn lemma_digits(digits: Seq<u8>)
    requires
        forall|i: int| 0 <= i < digits.len() ==> 48 <= #[trigger] digits[i] <= 57,
    ensures
        ({
            let t = flamegraph::tally_after(digits);
            t.lines == 0 && t.older == 0 && t.newer == 0 && t.word == 0 && (t.digits
                <==> digits.len() > 0) && (digits.len() == 0 ==> t.run == 0)
        }),
    decreases digits.len(),
{
    if digits.len() > 0 {
        let front = digits.drop_last();
        assert forall|i: int| 0 <= i < front.len() implies 48 <= #[trigger] front[i] <= 57 by {
            assert(front[i] == digits[i]);
        }
        lemma_digits(front);
        assert(48 <= digits[digits.len() - 1] <= 57);
    }
}

/// The fields of an object keep their names, values and order.
pub proof fn law_objects_show_their_fields(fields: Seq<(String, json::Json)>, i: int)
    requires
        0 <= i < fields.len(),
    ensures
        json::fields_view(fields).len() == fields.len(),
        json::fields_view(fields)[i] == (fields[i].0@, json::json_view(fields[i].1)),
    decreases fields.len(),
{
    let front = fields.drop_last();
    let n = fields.len() - 1;
    if front.len() > 0 {
        law_objects_show_their_fields(front, if i < n { i } else { 0 });
        if i < n {
            assert(front[i] == fields[i]);
        }
    } else {
        assert(json::fields_view(front).len() == 0);
    }
}

/// The items of a list keep their order.
pub proof fn law_lists_show_their_items(items: Seq<json::Json>, i: int)
    requires
        0 <= i < items.len(),
    ensures
        json::list_view(items).len() == items.len(),
        json::list_view(items)[i] == json::json_view(items[i]),
    decreases items.len(),
{
    let front = items.drop_last();
    let n = items.len() - 1;
    if front.len() > 0 {
        law_lists_show_their_items(front, if i < n { i } else { 0 });
        if i < n {
            assert(front[i] == items[i]);
        }
    } else {
        assert(json::list_view(front).len() == 0);
    }
}

} // verus!
