//! What is made of settings, benchmark files, measurements and profiles.
use crate::config;
use crate::config::{RepoConfig, Settings, Tuning};
use crate::criterion_results;
use crate::criterion_results::{DirNode, Row};
use crate::dates;
use crate::double::Double;
use crate::instructions;
use crate::instructions::{CollectOutcome, InstrRow, InstrRowView, ParseView, Probe};
use crate::lane::Lane;
use crate::laws::runs;
use crate::laws::texts;
use crate::measure;
use crate::measure::{Lex, MeasureRequest, MeasureRow};
use crate::numerals;
use crate::paths;
use crate::pipeline;
use crate::text;
use vstd::prelude::*;
use vstd::utf8::*;

verus! {

// ---------------------------------------------------------------------------
// Settings
// ---------------------------------------------------------------------------

/// A knob set for the repo wins; else the default does; else the built-in
/// value: ten percent, two for instructions, twenty runs, ten commits.
pub proof fn law_repo_knobs_win_over_defaults(repo: Tuning, defaults: Tuning)
    ensures
        ({
            let s = Settings::resolved(repo, defaults);
            &&& repo.regression_threshold_pct is Some ==> s.regression_threshold_pct
                == repo.regression_threshold_pct->0
            &&& repo.regression_threshold_pct is None && defaults.regression_threshold_pct is Some
                ==> s.regression_threshold_pct == defaults.regression_threshold_pct->0
            &&& repo.regression_threshold_pct is None && defaults.regression_threshold_pct is None
                ==> s.regression_threshold_pct.bits == 0x4024_0000_0000_0000
            &&& repo.recovery_threshold_pct is Some ==> s.recovery_threshold_pct
                == repo.recovery_threshold_pct->0
            &&& repo.recovery_threshold_pct is None && defaults.recovery_threshold_pct is Some
                ==> s.recovery_threshold_pct == defaults.recovery_threshold_pct->0
            &&& repo.instr_regression_threshold_pct is Some ==> s.instr_regression_threshold_pct
                == repo.instr_regression_threshold_pct->0
            &&& repo.instr_regression_threshold_pct is None
                && defaults.instr_regression_threshold_pct is Some
                ==> s.instr_regression_threshold_pct == defaults.instr_regression_threshold_pct->0
            &&& repo.instr_regression_threshold_pct is None
                && defaults.instr_regression_threshold_pct is None
                ==> s.instr_regression_threshold_pct.bits == 0x4000_0000_0000_0000
            &&& repo.instr_recovery_threshold_pct is Some ==> s.instr_recovery_threshold_pct
                == repo.instr_recovery_threshold_pct->0
            &&& repo.instr_recovery_threshold_pct is None
                && defaults.instr_recovery_threshold_pct is Some
                ==> s.instr_recovery_threshold_pct == defaults.instr_recovery_threshold_pct->0
            &&& repo.rolling_window is Some ==> s.rolling_window == repo.rolling_window->0
            &&& repo.rolling_window is None && defaults.rolling_window is Some ==> s.rolling_window
                == defaults.rolling_window->0
            &&& repo.rolling_window is None && defaults.rolling_window is None ==> s.rolling_window
                == 20
            &&& repo.digest_batch_size is Some ==> s.digest_batch_size == repo.digest_batch_size->0
            &&& repo.digest_batch_size is None && defaults.digest_batch_size is Some
                ==> s.digest_batch_size == defaults.digest_batch_size->0
            &&& repo.digest_batch_size is None && defaults.digest_batch_size is None
                ==> s.digest_batch_size == 10
            &&& repo.bench_profile is Some ==> s.bench_profile == repo.bench_profile
            &&& repo.bench_profile is None ==> s.bench_profile == defaults.bench_profile
        }),
{
}

/// Without a recovery threshold of its own a lane recovers where it regresses.
pub proof fn law_recovery_defaults_to_regression(repo: Tuning, defaults: Tuning)
    ensures
        ({
            let s = Settings::resolved(repo, defaults);
            &&& repo.recovery_threshold_pct is None && defaults.recovery_threshold_pct is None
                ==> s.recovery_threshold_pct == s.regression_threshold_pct
            &&& repo.instr_recovery_threshold_pct is None
                && defaults.instr_recovery_threshold_pct is None
                ==> s.instr_recovery_threshold_pct == s.instr_regression_threshold_pct
        }),
{
}

/// Settings are accepted exactly where each lane's thresholds are above zero
/// with recovery at most at regression, and neither the window nor the batch is
/// empty.
pub proof fn law_accepted_settings_can_alert(s: Settings)
    requires
        !s.regression_threshold_pct.nan(),
        !s.recovery_threshold_pct.nan(),
        !s.instr_regression_threshold_pct.nan(),
        !s.instr_recovery_threshold_pct.nan(),
    ensures
        ({
            let zero = Double { bits: 0 };
            s.fault() is None <==> {
                &&& zero.lt_spec(s.recovery_threshold_pct)
                &&& s.recovery_threshold_pct.le_spec(s.regression_threshold_pct)
                &&& zero.lt_spec(s.instr_recovery_threshold_pct)
                &&& s.instr_recovery_threshold_pct.le_spec(s.instr_regression_threshold_pct)
                &&& s.rolling_window >= 1
                &&& s.digest_batch_size >= 1
            }
        }),
{
}

/// Each lane goes by its own thresholds.
pub proof fn law_lanes_go_by_their_own_thresholds(s: Settings)
    ensures
        s.thresholds_spec(Lane::Walltime).regression_pct == s.regression_threshold_pct,
        s.thresholds_spec(Lane::Walltime).recovery_pct == s.recovery_threshold_pct,
        s.thresholds_spec(Lane::Instructions).regression_pct == s.instr_regression_threshold_pct,
        s.thresholds_spec(Lane::Instructions).recovery_pct == s.instr_recovery_threshold_pct,
{
}

// ---------------------------------------------------------------------------
// Benchmark files
// ---------------------------------------------------------------------------

/// A sample is its time over its iterations; there are as many as both lists
/// hold.
pub proof fn law_samples_are_times_per_iteration(iters: Seq<Double>, times: Seq<Double>, i: int)
    ensures
        ({
            let s = criterion_results::per_call(iters, times);
            &&& s.len() <= iters.len() && s.len() <= times.len()
            &&& s.len() == iters.len() || s.len() == times.len()
            &&& 0 <= i < s.len() ==> s[i] == times[i].div_spec(iters[i])
        }),
{
}

/// A benchmark without a function id is its group's only subject; a value ends
/// the workload.
pub proof fn law_benchmarks_are_keyed_by_their_ids(
    group: Seq<char>,
    id: Option<Seq<char>>,
    value: Option<Seq<char>>,
)
    ensures
        ({
            let (subject, workload) = criterion_results::bench_key(group, id, value);
            &&& id is None ==> subject == group
            &&& id matches Some(f) ==> subject == criterion_results::split_id(f).0
            &&& value is None && id is None ==> workload.len() == 0
            &&& value is None && id is Some ==> workload == criterion_results::split_id(id->0).1
            &&& value is Some && (id is None || criterion_results::split_id(id->0).1.len() == 0)
                ==> workload == value->0
            &&& value is Some && id is Some && criterion_results::split_id(id->0).1.len() > 0
                ==> workload == criterion_results::split_id(id->0).1 + "/"@ + value->0
        }),
{
}

// ---------------------------------------------------------------------------
// Measurements
// ---------------------------------------------------------------------------

/// Is this the last of the rows with that key?
pub open spec fn last_measured(rows: Seq<Row>, k: int, key: Seq<char>) -> bool {
    &&& 0 <= k < rows.len()
    &&& runs::keyed_as(key, rows[k].group@, rows[k].subject@, rows[k].workload@)
    &&& forall|j: int|
        k < j < rows.len() ==> !runs::keyed_as(
            key,
            (#[trigger] rows[j]).group@,
            rows[j].subject@,
            rows[j].workload@,
        )
}

/// Is this the last of the counts with that key?
pub open spec fn last_counted(rows: Seq<InstrRow>, k: int, key: Seq<char>) -> bool {
    &&& 0 <= k < rows.len()
    &&& runs::keyed_as(key, rows[k].group@, rows[k].subject@, rows[k].workload@)
    &&& forall|j: int|
        k < j < rows.len() ==> !runs::keyed_as(
            key,
            (#[trigger] rows[j]).group@,
            rows[j].subject@,
            rows[j].workload@,
        )
}

proof fn lemma_ns(rows: Seq<Row>, key: Seq<char>)
    ensures
        measure::ns_of(rows, key) is Some ==> exists|k: int| #[trigger]
            last_measured(rows, k, key) && measure::ns_of(rows, key) == Some(rows[k].mean_ns),
        measure::ns_of(rows, key) is None ==> forall|k: int|
            0 <= k < rows.len() ==> !runs::keyed_as(
                key,
                (#[trigger] rows[k]).group@,
                rows[k].subject@,
                rows[k].workload@,
            ),
    decreases rows.len(),
{
    if rows.len() > 0 {
        let n = rows.len() - 1;
        let front = rows.drop_last();
        lemma_ns(front, key);
        if runs::keyed_as(key, rows[n].group@, rows[n].subject@, rows[n].workload@) {
            assert(last_measured(rows, n, key));
        } else if measure::ns_of(front, key) is Some {
            let k = choose|k: int| #[trigger]
                last_measured(front, k, key) && measure::ns_of(front, key) == Some(
                    front[k].mean_ns,
                );
            assert forall|j: int| k < j < rows.len() implies !runs::keyed_as(
                key,
                (#[trigger] rows[j]).group@,
                rows[j].subject@,
                rows[j].workload@,
            ) by {
                if j < n {
                    assert(front[j] == rows[j]);
                }
            }
            assert(last_measured(rows, k, key));
        } else {
            assert forall|k: int| 0 <= k < rows.len() implies !runs::keyed_as(
                key,
                (#[trigger] rows[k]).group@,
                rows[k].subject@,
                rows[k].workload@,
            ) by {
                if k < n {
                    assert(front[k] == rows[k]);
                }
            }
        }
    }
}

proof fn lemma_count(rows: Seq<InstrRow>, key: Seq<char>)
    ensures
        measure::count_of(rows, key) is Some ==> exists|k: int| #[trigger]
            last_counted(rows, k, key) && measure::count_of(rows, key) == Some(rows[k].count),
        measure::count_of(rows, key) is None ==> forall|k: int|
            0 <= k < rows.len() ==> !runs::keyed_as(
                key,
                (#[trigger] rows[k]).group@,
                rows[k].subject@,
                rows[k].workload@,
            ),
    decreases rows.len(),
{
    if rows.len() > 0 {
        let n = rows.len() - 1;
        let front = rows.drop_last();
        lemma_count(front, key);
        if runs::keyed_as(key, rows[n].group@, rows[n].subject@, rows[n].workload@) {
            assert(last_counted(rows, n, key));
        } else if measure::count_of(front, key) is Some {
            let k = choose|k: int| #[trigger]
                last_counted(front, k, key) && measure::count_of(front, key) == Some(
                    front[k].count,
                );
            assert forall|j: int| k < j < rows.len() implies !runs::keyed_as(
                key,
                (#[trigger] rows[j]).group@,
                rows[j].subject@,
                rows[j].workload@,
            ) by {
                if j < n {
                    assert(front[j] == rows[j]);
                }
            }
            assert(last_counted(rows, k, key));
        } else {
            assert forall|k: int| 0 <= k < rows.len() implies !runs::keyed_as(
                key,
                (#[trigger] rows[k]).group@,
                rows[k].subject@,
                rows[k].workload@,
            ) by {
                if k < n {
                    assert(front[k] == rows[k]);
                }
            }
        }
    }
}

/// A measured row holds the mean of the last walltime row and the count of the
/// last counted row of its key; a key is there exactly where one of the lanes
/// has a row of it.
pub proof fn law_measurements_hold_what_the_lanes_saw(
    merged: Map<Seq<char>, MeasureRow>,
    walltime: Seq<Row>,
    counts: Seq<InstrRow>,
    key: Seq<char>,
)
    requires
        measure::is_merged(merged, walltime, counts),
    ensures
        ({
            let timed = exists|k: int| #[trigger] last_measured(walltime, k, key);
            let counted = exists|k: int| #[trigger] last_counted(counts, k, key);
            &&& merged.dom().contains(key) <==> timed || counted
            &&& forall|k: int| #[trigger]
                last_measured(walltime, k, key) ==> merged[key].ns == Some(walltime[k].mean_ns)
            &&& forall|k: int| #[trigger]
                last_counted(counts, k, key) ==> merged[key].instr_count == Some(counts[k].count)
            &&& merged.dom().contains(key) && !timed ==> merged[key].ns is None
            &&& merged.dom().contains(key) && !counted ==> merged[key].instr_count is None
        }),
{
    lemma_ns(walltime, key);
    lemma_count(counts, key);
    assert(merged.dom().contains(key) <==> (measure::ns_of(walltime, key) is Some
        || measure::count_of(counts, key) is Some));
    assert forall|k: int| #[trigger] last_measured(walltime, k, key) implies measure::ns_of(
        walltime,
        key,
    ) == Some(walltime[k].mean_ns) by {
        assert(runs::keyed_as(
            key,
            walltime[k].group@,
            walltime[k].subject@,
            walltime[k].workload@,
        ));
        let m = choose|m: int| #[trigger]
            last_measured(walltime, m, key) && measure::ns_of(walltime, key) == Some(
                walltime[m].mean_ns,
            );
        if m < k {
            assert(!runs::keyed_as(
                key,
                walltime[k].group@,
                walltime[k].subject@,
                walltime[k].workload@,
            ));
        }
        if k < m {
            assert(!runs::keyed_as(
                key,
                walltime[m].group@,
                walltime[m].subject@,
                walltime[m].workload@,
            ));
        }
    }
    assert forall|k: int| #[trigger] last_counted(counts, k, key) implies measure::count_of(
        counts,
        key,
    ) == Some(counts[k].count) by {
        assert(runs::keyed_as(key, counts[k].group@, counts[k].subject@, counts[k].workload@));
        let m = choose|m: int| #[trigger]
            last_counted(counts, m, key) && measure::count_of(counts, key) == Some(
                counts[m].count,
            );
        if m < k {
            assert(!runs::keyed_as(
                key,
                counts[k].group@,
                counts[k].subject@,
                counts[k].workload@,
            ));
        }
        if k < m {
            assert(!runs::keyed_as(
                key,
                counts[m].group@,
                counts[m].subject@,
                counts[m].workload@,
            ));
        }
    }
}

/// A measurement is turned down exactly where it asks for no lane, names no
/// target, or has no checkout to work in.
pub proof fn law_requests_need_a_lane_a_target_and_a_checkout(req: MeasureRequest, is_dir: bool)
    ensures
        measure::request_fault(req, is_dir) is None <==> (req.instructions || req.walltime)
            && req.bench_targets@.len() > 0 && is_dir,
{
}

/// The walltime benches leave data where one target at least ran and the tree
/// is there; the instructions lane does where it was collected without a failed
/// target.
pub proof fn law_lanes_leave_data_or_fail(
    targets: nat,
    failed: nat,
    tree_exists: bool,
    dir: Seq<char>,
    outcome: CollectOutcome,
)
    ensures
        measure::walltime_fault(targets, failed, tree_exists, dir) is None <==> failed != targets
            && tree_exists,
        measure::lane_fault(outcome) is None <==> (outcome matches CollectOutcome::Collected(c)
            && c.failed_targets@.len() == 0),
{
}

/// The hash takes in one byte at a time: the byte is mixed into the low bits,
/// and the whole is multiplied by the prime, modulo the word.
pub proof fn law_hashes_take_in_byte_by_byte(data: Seq<u8>, b: u8)
    ensures
        measure::fnv1a64_spec(Seq::empty()) == 0xcbf2_9ce4_8422_2325,
        measure::fnv1a64_spec(data.push(b)) as int == ((measure::fnv1a64_spec(data) ^ (b as u64))
            * 0x100_0000_01b3) % 0x1_0000_0000_0000_0000,
{
    assert(data.push(b).drop_last() =~= data);
}

// ---------------------------------------------------------------------------
// Profiles
// ---------------------------------------------------------------------------

/// Is this the last of the rows of that benchmark?
pub open spec fn last_of(
    rows: Seq<InstrRowView>,
    k: int,
    group: Seq<char>,
    subject: Seq<char>,
    workload: Seq<char>,
) -> bool {
    &&& 0 <= k < rows.len()
    &&& rows[k].group == group && rows[k].subject == subject && rows[k].workload == workload
    &&& forall|j: int|
        k < j < rows.len() ==> !((#[trigger] rows[j]).group == group && rows[j].subject == subject
            && rows[j].workload == workload)
}

/// Of several counts of one benchmark the last one stands.
pub proof fn law_the_last_count_stands(
    rows: Seq<InstrRowView>,
    k: int,
    group: Seq<char>,
    subject: Seq<char>,
    workload: Seq<char>,
)
    requires
        last_of(rows, k, group, subject, workload),
    ensures
        instructions::latest_counts(rows).dom().contains(seq![group, subject, workload]),
        instructions::latest_counts(rows)[seq![group, subject, workload]] == rows[k].count,
    decreases rows.len(),
{
    let n = rows.len() - 1;
    let front = rows.drop_last();
    let key = seq![group, subject, workload];
    if k < n {
        assert(front[k] == rows[k]);
        assert forall|j: int| k < j < front.len() implies !((#[trigger] front[j]).group == group
            && front[j].subject == subject && front[j].workload == workload) by {
            assert(front[j] == rows[j]);
        }
        law_the_last_count_stands(front, k, group, subject, workload);
        let last = instructions::triple_key(rows[n]);
        assert(last != key) by {
            assert(!(rows[n].group == group && rows[n].subject == subject && rows[n].workload
                == workload));
            if last == key {
                assert(last[0] == key[0] && last[1] == key[1] && last[2] == key[2]);
            }
        }
    } else {
        assert(instructions::triple_key(rows[n]) =~= key);
    }
}

/// Only benchmarks that were counted have a count.
pub proof fn law_counts_are_of_counted_benchmarks(
    rows: Seq<InstrRowView>,
    group: Seq<char>,
    subject: Seq<char>,
    workload: Seq<char>,
)
    requires
        instructions::latest_counts(rows).dom().contains(seq![group, subject, workload]),
    ensures
        exists|k: int| #[trigger] last_of(rows, k, group, subject, workload),
    decreases rows.len(),
{
    let key = seq![group, subject, workload];
    if rows.len() > 0 {
        let n = rows.len() - 1;
        let front = rows.drop_last();
        let last = instructions::triple_key(rows[n]);
        if last == key {
            assert(last[0] == key[0] && last[1] == key[1] && last[2] == key[2]);
            assert(last_of(rows, n, group, subject, workload));
        } else {
            law_counts_are_of_counted_benchmarks(front, group, subject, workload);
            let k = choose|k: int| #[trigger] last_of(front, k, group, subject, workload);
            assert forall|j: int| k < j < rows.len() implies !((#[trigger] rows[j]).group == group
                && rows[j].subject == subject && rows[j].workload == workload) by {
                if j < n {
                    assert(front[j] == rows[j]);
                } else if rows[j].group == group && rows[j].subject == subject
                    && rows[j].workload == workload {
                    assert(last =~= key);
                }
            }
            assert(last_of(rows, k, group, subject, workload));
        }
    }
}

/// Every row of a profile is one of its parts that names a benchmark, with that
/// part's count; and every such part has its row.
pub proof fn law_profile_rows_are_its_benchmarks(
    parts: Seq<(Seq<char>, u64)>,
    row: InstrRowView,
)
    ensures
        instructions::bench_rows(parts).contains(row) <==> exists|i: int|
            0 <= i < parts.len() && instructions::triple_spec((#[trigger] parts[i]).0) == Some(
                (row.group, row.subject, row.workload),
            ) && parts[i].1 == row.count,
    decreases parts.len(),
{
    let all = instructions::bench_rows(parts);
    if parts.len() > 0 {
        let n = parts.len() - 1;
        let front = parts.drop_last();
        let before = instructions::bench_rows(front);
        law_profile_rows_are_its_benchmarks(front, row);
        if all.contains(row) {
            let j = all.index_of(row);
            if j < before.len() {
                assert(before[j] == row);
                assert(before.contains(row));
                let i = choose|i: int|
                    0 <= i < front.len() && instructions::triple_spec((#[trigger] front[i]).0)
                        == Some((row.group, row.subject, row.workload)) && front[i].1 == row.count;
                assert(parts[i] == front[i]);
            } else {
                assert(parts[n] == parts.last());
            }
        }
        if exists|i: int|
            0 <= i < parts.len() && instructions::triple_spec((#[trigger] parts[i]).0) == Some(
                (row.group, row.subject, row.workload),
            ) && parts[i].1 == row.count {
            let i = choose|i: int|
                0 <= i < parts.len() && instructions::triple_spec((#[trigger] parts[i]).0) == Some(
                    (row.group, row.subject, row.workload),
                ) && parts[i].1 == row.count;
            if i < n {
                assert(front[i] == parts[i]);
                assert(before.contains(row));
                let j = before.index_of(row);
                assert(all[j] == before[j]);
            } else {
                assert(all[all.len() - 1] == row);
            }
        }
    } else {
        assert(!all.contains(row));
    }
}

/// A totals line is read only behind a client request, and spends it; a request
/// is forgotten at any other trigger; no other line adds a part.
pub proof fn law_totals_belong_to_the_last_request(
    st: ParseView,
    line: Seq<char>,
    source: Seq<char>,
)
    ensures
        ({
            let after = instructions::line_step(st, line, source);
            let request = text::has_prefix(line, "desc: Trigger: Client Request:"@);
            let trigger = text::has_prefix(line, "desc: Trigger:"@);
            let events = text::has_prefix(line, "events:"@);
            let totals = text::has_prefix(line, "totals:"@) && !request && !trigger && !events;
            &&& request ==> after.pending is Some && after.parts == st.parts
            &&& trigger && !request ==> after.pending is None && after.parts == st.parts
            &&& totals ==> after.pending is None
            &&& totals && st.pending is None ==> after == st
            &&& after.parts != st.parts ==> totals && st.pending is Some && after.parts.len()
                == st.parts.len() + 1 && after.parts.last().0 == st.pending->0
            &&& !request && !trigger && !totals ==> after.pending == st.pending
            &&& !events || request || trigger ==> after.columns == st.columns
        }),
{
}

/// A profile is turned down exactly where its first creator line names another
/// tool than callgrind.
pub proof fn law_the_first_creator_line_decides(
    lines: Seq<Seq<char>>,
    prefix: Seq<char>,
    i: int,
)
    requires
        0 <= i < lines.len(),
        prefix.is_prefix_of(lines[i]),
        forall|j: int| 0 <= j < i ==> !prefix.is_prefix_of(#[trigger] lines[j]),
    ensures
        instructions::first_with_prefix(lines, prefix) == Some(lines[i].skip(prefix.len() as int)),
    decreases lines.len(),
{
    assert(lines[0].take(prefix.len() as int) =~= lines[0].subrange(0, prefix.len() as int)
        || prefix.len() > lines[0].len());
    if i > 0 {
        assert(!prefix.is_prefix_of(lines[0]));
        let rest = lines.drop_first();
        assert(rest[i - 1] == lines[i]);
        assert forall|j: int| 0 <= j < i - 1 implies !prefix.is_prefix_of(#[trigger] rest[j]) by {
            assert(rest[j] == lines[j + 1]);
        }
        law_the_first_creator_line_decides(rest, prefix, i - 1);
    }
}

/// The failed targets of a collection are those without a result.
pub proof fn law_targets_without_a_result_failed(
    targets: Seq<String>,
    results: Seq<Option<Vec<InstrRow>>>,
    t: String,
)
    requires
        results.len() <= targets.len(),
    ensures
        instructions::failed_of(targets, results).contains(t) <==> exists|i: int|
            0 <= i < results.len() && (#[trigger] results[i]) is None && targets[i] == t,
    decreases results.len(),
{
    let all = instructions::failed_of(targets, results);
    if results.len() > 0 {
        let n = results.len() - 1;
        let front = results.drop_last();
        let before = instructions::failed_of(targets, front);
        law_targets_without_a_result_failed(targets, front, t);
        if all.contains(t) {
            let j = all.index_of(t);
            if j < before.len() {
                assert(before[j] == t);
                assert(before.contains(t));
                let i = choose|i: int|
                    0 <= i < front.len() && (#[trigger] front[i]) is None && targets[i] == t;
                assert(results[i] == front[i]);
            } else {
                assert(results[n] is None);
            }
        }
        if exists|i: int|
            0 <= i < results.len() && (#[trigger] results[i]) is None && targets[i] == t {
            let i = choose|i: int|
                0 <= i < results.len() && (#[trigger] results[i]) is None && targets[i] == t;
            if i < n {
                assert(front[i] == results[i]);
                assert(before.contains(t));
                let j = before.index_of(t);
                assert(all[j] == before[j]);
            } else {
                assert(all[all.len() - 1] == t);
            }
        }
    } else {
        assert(!all.contains(t));
    }
}

/// Does a token look like a version: a digit, or a `v` and a digit, in front?
pub open spec fn leads_with_a_digit(token: Seq<char>) -> bool {
    ||| token.len() > 0 && '0' <= token[0] && token[0] <= '9'
    ||| token.len() > 1 && token[0] == 'v' && '0' <= token[1] && token[1] <= '9'
}

/// A tool's version is the first word that looks like one.
pub proof fn law_the_first_version_word_counts(words: Seq<Seq<char>>)
    ensures
        match instructions::version_token(words) {
            Some(token) => exists|i: int|
                0 <= i < words.len() && #[trigger] words[i] == token && leads_with_a_digit(token)
                    && forall|j: int| 0 <= j < i ==> !leads_with_a_digit(#[trigger] words[j]),
            None => forall|j: int| 0 <= j < words.len() ==> !leads_with_a_digit(#[trigger] words[j]),
        },
    decreases words.len(),
{
    if words.len() > 0 && !instructions::version_shaped(words[0]) {
        let rest = words.drop_first();
        law_the_first_version_word_counts(rest);
        match instructions::version_token(rest) {
            Some(token) => {
                let i = choose|i: int|
                    0 <= i < rest.len() && #[trigger] rest[i] == token && leads_with_a_digit(token)
                        && forall|j: int| 0 <= j < i ==> !leads_with_a_digit(#[trigger] rest[j]);
                assert(words[i + 1] == token);
                assert forall|j: int| 0 <= j < i + 1 implies !leads_with_a_digit(
                    #[trigger] words[j],
                ) by {
                    if j > 0 {
                        assert(rest[j - 1] == words[j]);
                    }
                }
            },
            None => {
                assert forall|j: int| 0 <= j < words.len() implies !leads_with_a_digit(
                    #[trigger] words[j],
                ) by {
                    if j > 0 {
                        assert(rest[j - 1] == words[j]);
                    }
                }
            },
        }
    }
}

/// A tool that could not be run is not usable; one that ran is where it printed
/// a version, or where it succeeded and printed anything.
pub proof fn law_usable_tools_print_something(what: Seq<char>, probe: Probe)
    ensures
        match probe {
            Probe::Failed(e) => instructions::probe_spec(what, probe) == Result::<
                Seq<char>,
                Seq<char>,
            >::Err(what + " not usable: "@ + e@),
            Probe::Ran { stdout, stderr, success, .. } => {
                let said = text::trim_spec(
                    text::trim_spec(stdout@) + " "@ + text::trim_spec(stderr@),
                );
                let version = instructions::version_token(text::words(said));
                &&& instructions::probe_spec(what, probe) is Ok <==> version is Some || (success
                    && said.len() > 0)
                &&& version matches Some(v) ==> instructions::probe_spec(what, probe) == Result::<
                    Seq<char>,
                    Seq<char>,
                >::Ok(v)
            },
        },
{
}

// ---------------------------------------------------------------------------
// Trees
// ---------------------------------------------------------------------------

/// Is this a directory that may hold benchmarks?
pub open spec fn is_bench_dir(node: DirNode) -> bool {
    node.is_dir && node.name@ != "report"@
}

/// The places to look for benchmarks: every directory but the reports, and the
/// places below it, as deep as the tree goes; nothing else.
pub proof fn law_benchmarks_are_looked_for_everywhere(
    nodes: Seq<DirNode>,
    base: Seq<char>,
    depth: nat,
    path: Seq<char>,
)
    requires
        depth > 0,
    ensures
        criterion_results::candidates_spec(nodes, base, depth).contains(path) <==> exists|i: int|
            0 <= i < nodes.len() && is_bench_dir(#[trigger] nodes[i]) && (path
                == paths::join_spec(base, nodes[i].name@) || criterion_results::candidates_spec(
                nodes[i].children@,
                paths::join_spec(base, nodes[i].name@),
                (depth - 1) as nat,
            ).contains(path)),
        criterion_results::candidates_spec(nodes, base, 0).len() == 0,
    decreases nodes.len(),
{
    let all = criterion_results::candidates_spec(nodes, base, depth);
    if nodes.len() > 0 {
        let front = nodes.drop_last();
        let n = nodes.len() - 1;
        law_benchmarks_are_looked_for_everywhere(front, base, depth, path);
        let before = criterion_results::candidates_spec(front, base, depth);
        let node = nodes[n];
        let here = paths::join_spec(base, node.name@);
        let below = criterion_results::candidates_spec(node.children@, here, (depth - 1) as nat);
        let added = if is_bench_dir(node) {
            seq![here] + below
        } else {
            Seq::empty()
        };
        assert(all == before + added);
        if all.contains(path) {
            let k = all.index_of(path);
            if k < before.len() {
                assert(before[k] == path);
                assert(before.contains(path));
                let i = choose|i: int|
                    0 <= i < front.len() && is_bench_dir(#[trigger] front[i]) && (path
                        == paths::join_spec(base, front[i].name@)
                        || criterion_results::candidates_spec(
                        front[i].children@,
                        paths::join_spec(base, front[i].name@),
                        (depth - 1) as nat,
                    ).contains(path));
                assert(nodes[i] == front[i]);
            } else {
                assert(added[k - before.len()] == path);
                if k > before.len() {
                    assert(below[k - before.len() - 1] == path);
                }
                assert(is_bench_dir(nodes[n]));
            }
        }
        if exists|i: int|
            0 <= i < nodes.len() && is_bench_dir(#[trigger] nodes[i]) && (path == paths::join_spec(
                base,
                nodes[i].name@,
            ) || criterion_results::candidates_spec(
                nodes[i].children@,
                paths::join_spec(base, nodes[i].name@),
                (depth - 1) as nat,
            ).contains(path)) {
            let i = choose|i: int|
                0 <= i < nodes.len() && is_bench_dir(#[trigger] nodes[i]) && (path
                    == paths::join_spec(base, nodes[i].name@) || criterion_results::candidates_spec(
                    nodes[i].children@,
                    paths::join_spec(base, nodes[i].name@),
                    (depth - 1) as nat,
                ).contains(path));
            if i < n {
                assert(front[i] == nodes[i]);
                assert(before.contains(path));
                let k = before.index_of(path);
                assert(all[k] == path);
            } else if path == here {
                assert(added[0] == path);
                assert(all[before.len() as int] == path);
            } else {
                let k = below.index_of(path);
                assert(below[k] == path);
                assert(added[k + 1] == path);
                assert(all[before.len() + k + 1] == path);
            }
        }
    } else {
        assert(!all.contains(path));
    }
}

// ---------------------------------------------------------------------------
// Repos, fingerprints and days
// ---------------------------------------------------------------------------

/// A repo's package is its own name where none is given, and its columns start
/// with the baseline where no order is.
pub proof fn law_repos_fall_back_on_their_name(repo: RepoConfig)
    ensures
        repo.package is None ==> repo.package_spec() == repo.name@,
        repo.package matches Some(p) ==> repo.package_spec() == p@,
        repo.subject_order is None ==> repo.order_spec().len() == 1 && repo.order_spec()[0]
            == repo.baseline_subject@,
        repo.subject_order matches Some(order) ==> repo.order_spec().len() == order@.len()
            && forall|i: int|
            0 <= i < order@.len() ==> repo.order_spec()[i] == (#[trigger] order@[i])@,
        forall|s: Seq<char>| #[trigger]
            repo.headline_spec(s) <==> config::any_star_match(
                text::views(repo.headline_subjects@),
                s,
            ),
{
}

/// A fingerprint is the compiler's name and the hash of both profile sections,
/// the release one in front, with a zero byte between them, in hexadecimal.
pub proof fn law_fingerprints_hash_both_profiles(
    cargo_toml: Seq<char>,
    rustc: Seq<char>,
    release: Seq<u8>,
    bench: Seq<u8>,
)
    requires
        release == encode_utf8(measure::section_spec(cargo_toml, "profile.release"@)),
        bench == encode_utf8(measure::section_spec(cargo_toml, "profile.bench"@)),
    ensures
        ({
            let hash = numerals::digits(measure::fnv1a64_spec(release + seq![0u8] + bench) as nat, 16);
            let f = measure::fingerprint_spec(cargo_toml, rustc);
            &&& f.len() >= rustc.len() + 17
            &&& f.take(rustc.len() as int) == rustc
            &&& f[rustc.len() as int] == '|'
            &&& f.skip(f.len() - hash.len()) == hash
        }),
{
    reveal_strlit("|");
    let mixed = release + seq![0u8] + bench;
    assert(release.push(0u8) + bench =~= mixed);
    let hash = numerals::digits(measure::fnv1a64_spec(mixed) as nat, 16);
    let padded = numerals::zero_padded(hash, 16);
    let f = measure::fingerprint_spec(cargo_toml, rustc);
    assert(f == rustc + "|"@ + padded);
    assert(f.take(rustc.len() as int) =~= rustc);
    assert(padded.skip(padded.len() - hash.len()) =~= hash);
    assert(f.skip(f.len() - hash.len()) =~= hash);
}

/// The cutoff day lies as many days before today as are kept.
pub proof fn law_the_cutoff_lies_the_kept_days_back(today: Seq<char>, keep_days: int, n: i32)
    requires
        dates::parsed_day(today, "[year][month][day]"@) == Result::<i32, Seq<char>>::Ok(n),
        dates::reaches(today, keep_days),
        0 <= keep_days <= u32::MAX,
    ensures
        dates::calendar_day((n - keep_days) as i32) matches Some((y, m, d))
            && dates::cutoff_spec(today, keep_days) == Result::<Seq<char>, Seq<char>>::Ok(
            dates::day_text_spec(y as int, m as int, d as int),
        ),
{
}

/// A day is written with the year in front, then the month, then the day, the
/// latter two with two digits each.
pub proof fn law_days_are_written_year_first(year: int, month: int, day: int)
    requires
        0 <= year <= 9999,
        0 <= month <= 99,
        0 <= day <= 99,
    ensures
        ({
            let t = dates::day_text_spec(year, month, day);
            &&& t.len() == 8
            &&& numerals::digits_value(t.take(4)) == year
            &&& numerals::digits_value(t.subrange(4, 6)) == month
            &&& numerals::digits_value(t.skip(6)) == day
        }),
{
    let (y, m, d) = (
        numerals::padded_int(year, 4),
        numerals::padded_int(month, 2),
        numerals::padded_int(day, 2),
    );
    lemma_padded(year as nat, 4);
    lemma_padded(month as nat, 2);
    lemma_padded(day as nat, 2);
    let t = dates::day_text_spec(year, month, day);
    assert(t.take(4) =~= y);
    assert(t.subrange(4, 6) =~= m);
    assert(t.skip(6) =~= d);
}

proof fn lemma_padded(n: nat, width: nat)
    requires
        width == 2 && n <= 99 || width == 4 && n <= 9999,
    ensures
        numerals::zero_padded(numerals::digits(n, 10), width).len() == width,
        numerals::digits_value(numerals::zero_padded(numerals::digits(n, 10), width)) == n,
{
    texts::law_decimals_read_back(n);
    reveal_with_fuel(numerals::digits, 5);
    let s = numerals::digits(n, 10);
    assert(s.len() <= width);
    let zeros = Seq::new((width - s.len()) as nat, |i: int| '0');
    lemma_leading_zeros(zeros, s);
}

proof fn lemma_leading_zeros(zeros: Seq<char>, s: Seq<char>)
    requires
        forall|i: int| 0 <= i < zeros.len() ==> #[trigger] zeros[i] == '0',
    ensures
        numerals::digits_value(zeros + s) == numerals::digits_value(s),
    decreases zeros.len() + s.len(),
{
    let all = zeros + s;
    if s.len() > 0 {
        assert(all.drop_last() =~= zeros + s.drop_last());
        assert(all.last() == s.last());
        lemma_leading_zeros(zeros, s.drop_last());
    } else if zeros.len() > 0 {
        assert(all =~= zeros);
        let front = zeros.drop_last();
        assert forall|i: int| 0 <= i < front.len() implies #[trigger] front[i] == '0' by {
            assert(front[i] == zeros[i]);
        }
        lemma_leading_zeros(front, Seq::empty());
        assert(front + Seq::<char>::empty() =~= front);
        assert(zeros[zeros.len() - 1] == '0');
    } else {
        assert(all =~= s);
    }
}

// ---------------------------------------------------------------------------
// Tools and arguments
// ---------------------------------------------------------------------------

/// The targets of the instructions lane are run exactly where the host is Linux,
/// the lock file names the bench harness on a line of its own, and both tools
/// are usable.
pub proof fn law_the_lane_runs_where_nothing_is_missing(
    req: instructions::CollectRequest,
    event: instructions::CollectEvent,
    action: instructions::CollectAction,
)
    requires
        instructions::action_is(req, event, action),
    ensures
        match event {
            instructions::CollectEvent::Start => !(action is Skip) <==> req.os@ == "linux"@,
            instructions::CollectEvent::Lock(lock) => !(action is Skip) <==> lock is Ok
                && names_the_harness(lock->Ok_0@),
            instructions::CollectEvent::Probes(a, b) => !(action is Skip) <==> instructions::probe_spec(
                "codspeed CLI"@,
                a,
            ) is Ok && instructions::probe_spec("cargo-codspeed"@, b) is Ok,
        },
        !(action is Skip) ==> (event is Start <==> action is ReadLock) && (event is Lock
            <==> action is RunProbes) && (event is Probes <==> action is RunTargets),
{
    if let instructions::CollectEvent::Lock(Ok(lock)) = event {
        let wanted = "name = \""@ + "codspeed-criterion-compat"@ + "\""@;
        let lines = text::lines_spec(lock@);
        if names_the_harness(lock@) {
            let i = choose|i: int|
                0 <= i < lines.len() && text::trim_spec(#[trigger] lines[i]) == wanted;
            assert(text::trim_spec(lines[i]) == wanted);
        }
    }
}

/// Does a line of a lock file name the bench harness as a package?
pub open spec fn names_the_harness(lock: Seq<char>) -> bool {
    exists|i: int|
        0 <= i < text::lines_spec(lock).len() && text::trim_spec(
            #[trigger] text::lines_spec(lock)[i],
        ) == "name = \""@ + "codspeed-criterion-compat"@ + "\""@
}

/// The versions are noted, with a second note exactly where the first number of
/// the cargo subcommand's version is another one than five, whether or not a
/// `v` leads it.
pub proof fn law_other_majors_are_warned_of(codspeed: Seq<char>, number: Seq<char>, rest: Seq<char>)
    requires
        !number.contains('.'),
        number.len() > 0 ==> number[0] != 'v',
    ensures
        ({
            let version = number + "."@ + rest;
            let plain = instructions::version_notes_spec(codspeed, version);
            let led = instructions::version_notes_spec(codspeed, "v"@ + version);
            &&& 1 <= plain.len() <= 2
            &&& plain.len() == 1 <==> numerals::parse_u64_spec(number) == Some(5u64)
            &&& plain.len() == led.len()
        }),
{
    reveal_strlit(".");
    reveal_strlit("v");
    let version = number + "."@ + rest;
    assert(("v"@ + version).skip(1) =~= version);
    assert(version[0] != 'v') by {
        if number.len() == 0 {
            assert(version[0] == '.');
        }
    }
    assert forall|j: int| 0 <= j < number.len() implies text::except('.')(
        #[trigger] version[j],
    ) by {
        assert(number.contains(number[j]));
    }
    text::lemma_span_is(version, text::except('.'), number.len());
    assert(version.take(number.len() as int) =~= number);
    assert(text::split_spec(version, '.')[0] == number);
}

/// A bench run names its package, its target and, where they are given, its
/// profile and, at the end, its filter.
pub proof fn law_bench_runs_name_their_target(
    package: Seq<char>,
    target: Seq<char>,
    profile: Option<Seq<char>>,
    filter: Option<Seq<char>>,
)
    ensures
        ({
            let args = pipeline::bench_args_spec(package, target, profile, filter);
            &&& args[0] == "bench"@
            &&& args[1] == "-p"@ && args[2] == package
            &&& args[3] == "--bench"@ && args[4] == target
            &&& profile matches Some(p) ==> args[5] == "--profile"@ && args[6] == p
            &&& filter matches Some(f) ==> args.last() == f
            &&& args.len() == 8 + (if profile is Some {
                2int
            } else {
                0int
            }) + (if filter is Some {
                1int
            } else {
                0int
            })
        }),
{
}

/// A traced run keeps its results to itself, in the folder given for them; the
/// filter stands at the end.
pub proof fn law_traced_runs_upload_nothing(dir: Seq<char>, filter: Option<Seq<char>>)
    ensures
        ({
            let args = instructions::run_args_spec(dir, filter);
            &&& args[1] == "--skip-upload"@
            &&& args[4] == "--profile-folder"@ && args[5] == dir
            &&& filter matches Some(f) ==> args.last() == f && args.len() == 11
            &&& filter is None ==> args.len() == 10
        }),
{
    let args = instructions::run_args_spec(dir, filter);
    assert(args[1] == "--skip-upload"@);
    assert(args[4] == "--profile-folder"@);
}

// ---------------------------------------------------------------------------
// Tables
// ---------------------------------------------------------------------------

/// No quote, comment or bracket opens or closes in a text.
pub open spec fn is_plain(s: Seq<char>) -> bool {
    forall|i: int|
        0 <= i < s.len() ==> (#[trigger] s[i]) != '#' && s[i] != '"' && s[i] != '\'' && s[i] != '['
            && s[i] != ']' && s[i] != '{' && s[i] != '}'
}

proof fn lemma_passed_over(s: Seq<char>, i: int, end: int, lex: Lex)
    requires
        0 <= i <= end <= s.len(),
        is_plain(s.subrange(i, end)),
        lex.quote is None,
    ensures
        measure::scanned(s, i, lex) == measure::scanned(s, end, lex),
    decreases end - i,
{
    if i < end {
        let part = s.subrange(i, end);
        let rest = s.subrange(i + 1, end);
        assert(part[0] == s[i]);
        assert forall|k: int| 0 <= k < rest.len() implies (#[trigger] rest[k]) != '#' && rest[k]
            != '"' && rest[k] != '\'' && rest[k] != '[' && rest[k] != ']' && rest[k] != '{'
            && rest[k] != '}' by {
            assert(rest[k] == part[k + 1]);
        }
        lemma_passed_over(s, i + 1, end, lex);
    }
}

/// A comment behind a plain line, whatever it holds, changes neither what the
/// line says nor what is open behind it.
pub proof fn law_comments_say_nothing(line: Seq<char>, comment: Seq<char>, lex: Lex)
    requires
        is_plain(line),
        lex.quote is None,
    ensures
        measure::uncommented(line + "#"@ + comment) == text::trim_spec(line),
        measure::uncommented(line) == text::trim_spec(line),
        measure::lex_after(line + "#"@ + comment, lex) == lex,
        measure::lex_after(line, lex) == lex,
{
    reveal_strlit("#");
    let all = line + "#"@ + comment;
    let n = line.len() as int;
    assert(all.subrange(0, n) =~= line);
    assert(line.subrange(0, n) =~= line);
    lemma_passed_over(all, 0, n, measure::idle());
    lemma_passed_over(all, 0, n, lex);
    lemma_passed_over(line, 0, n, measure::idle());
    lemma_passed_over(line, 0, n, lex);
    assert(all[n] == '#');
    assert(all.take(n) =~= line);
    assert(line.take(n) =~= line);
}

/// The header line of a table.
pub open spec fn header_line(name: Seq<char>) -> Seq<char> {
    seq!['['] + name + seq![']']
}

/// A plain name in brackets is a header where nothing is open, opens nothing
/// itself, and is none inside an array or a string.
pub proof fn law_headers_are_names_in_brackets(name: Seq<char>, lex: Lex)
    requires
        is_plain(name),
        text::trim_spec(header_line(name)) == header_line(name),
    ensures
        measure::uncommented(header_line(name)) == header_line(name),
        measure::is_header(header_line(name), lex) <==> lex == measure::idle(),
        measure::lex_after(header_line(name), measure::idle()) == measure::idle(),
{
    reveal_strlit("[");
    reveal_strlit("]");
    let line = header_line(name);
    let n = line.len() as int;
    let idle = measure::idle();
    let inside = Lex { open: idle.open.push('['), ..idle };
    assert(line.subrange(1, n - 1) =~= name);
    assert(line[0] == '[' && line[n - 1] == ']');
    assert(measure::scanned(line, 0, idle) == measure::scanned(line, 1, inside));
    lemma_passed_over(line, 1, n - 1, inside);
    assert(inside.open.drop_last() =~= idle.open);
    assert(measure::scanned(line, n - 1, inside) == measure::scanned(line, n, idle));
    assert(line.take(n) =~= line);
    assert(line.take(1) =~= "["@);
    assert(line.skip(n - 1) =~= "]"@);
}

/// Lines that neither open nor close anything.
pub open spec fn all_plain(lines: Seq<Seq<char>>) -> bool {
    forall|i: int| 0 <= i < lines.len() ==> is_plain(#[trigger] lines[i])
}

/// A table's body is what stands between its header and the next one, without
/// the newlines at its end.
pub proof fn law_bodies_stand_between_headers(
    source: Seq<char>,
    before: Seq<Seq<char>>,
    name: Seq<char>,
    body: Seq<Seq<char>>,
    behind: Seq<Seq<char>>,
    next: Seq<char>,
)
    requires
        is_plain(name),
        is_plain(next),
        text::trim_spec(header_line(name)) == header_line(name),
        text::trim_spec(header_line(next)) == header_line(next),
        all_plain(before),
        all_plain(body),
        behind.len() > 0 ==> behind[0] == header_line(next),
        text::lines_spec(source) == before + seq![header_line(name)] + body + behind,
    ensures
        ({
            let joined = text::join_spec(body, "\n"@);
            let section = measure::section_spec(source, name);
            &&& text::has_prefix(joined, section)
            &&& section.len() > 0 ==> section.last() != '\n'
            &&& forall|i: int| section.len() <= i < joined.len() ==> #[trigger] joined[i] == '\n'
        }),
{
    reveal_strlit("[");
    reveal_strlit("]");
    let idle = measure::idle();
    let header = header_line(name);
    let lines = text::lines_spec(source);
    assert("["@ + name + "]"@ =~= header);
    law_headers_are_names_in_brackets(name, idle);
    law_headers_are_names_in_brackets(next, idle);
    let rest = seq![header] + body + behind;
    assert(lines =~= before + rest);
    assert(rest[0] == header);
    lemma_headers_behind(before, rest, header);
    let tail = body + behind;
    assert(lines.skip(before.len() as int + 1) =~= tail);
    lemma_body_runs(body, behind);
    assert(tail.take(body.len() as int) =~= body);
    lemma_without_newlines(text::join_spec(body, "\n"@));
}

proof fn lemma_plain_line(line: Seq<char>, name: Seq<char>)
    requires
        is_plain(line),
    ensures
        measure::uncommented(line) != header_line(name),
        !measure::is_header(line, measure::idle()),
        measure::lex_after(line, measure::idle()) == measure::idle(),
{
    reveal_strlit("[");
    law_comments_say_nothing(line, Seq::empty(), measure::idle());
    texts::law_trimming_cuts_the_blanks(line);
    let t = text::trim_spec(line);
    let (a, b) = choose|a: Seq<char>, b: Seq<char>|
        texts::blank(a) && texts::blank(b) && #[trigger] texts::cut_from(t, line, a, b);
    assert(line == a + t + b);
    if t.len() > 0 {
        assert(line[a.len() as int] == t[0]);
        assert(t[0] != '[');
        if text::has_prefix(t, "["@) {
            assert(t.take(1)[0] == t[0]);
        }
    }
    assert(header_line(name)[0] == '[');
}

proof fn lemma_headers_behind(before: Seq<Seq<char>>, rest: Seq<Seq<char>>, header: Seq<char>)
    requires
        all_plain(before),
        rest.len() > 0,
        rest[0] == header,
        exists|name: Seq<char>| header == #[trigger] header_line(name),
        measure::uncommented(header) == header,
    ensures
        measure::header_at(before + rest, header, measure::idle()) == before.len(),
    decreases before.len(),
{
    let all = before + rest;
    if before.len() == 0 {
        assert(all =~= rest);
    } else {
        let name = choose|name: Seq<char>| header == #[trigger] header_line(name);
        assert(all[0] == before[0]);
        assert(is_plain(before[0]));
        lemma_plain_line(before[0], name);
        let front = before.drop_first();
        assert forall|i: int| 0 <= i < front.len() implies is_plain(#[trigger] front[i]) by {
            assert(front[i] == before[i + 1]);
        }
        lemma_headers_behind(front, rest, header);
        assert(all.drop_first() =~= front + rest);
    }
}

proof fn lemma_body_runs(body: Seq<Seq<char>>, behind: Seq<Seq<char>>)
    requires
        all_plain(body),
        behind.len() > 0 ==> measure::is_header(behind[0], measure::idle()),
    ensures
        measure::body_len(body + behind, measure::idle()) == body.len(),
    decreases body.len(),
{
    let all = body + behind;
    if body.len() == 0 {
        assert(all =~= behind);
    } else {
        assert(all[0] == body[0]);
        assert(is_plain(body[0]));
        lemma_plain_line(body[0], Seq::empty());
        let front = body.drop_first();
        assert forall|i: int| 0 <= i < front.len() implies is_plain(#[trigger] front[i]) by {
            assert(front[i] == body[i + 1]);
        }
        lemma_body_runs(front, behind);
        assert(all.drop_first() =~= front + behind);
    }
}

proof fn lemma_without_newlines(s: Seq<char>)
    ensures
        ({
            let t = measure::without_newlines(s);
            &&& text::has_prefix(s, t)
            &&& t.len() > 0 ==> t.last() != '\n'
            &&& forall|i: int| t.len() <= i < s.len() ==> #[trigger] s[i] == '\n'
        }),
    decreases s.len(),
{
    if s.len() > 0 && s.last() == '\n' {
        let front = s.drop_last();
        lemma_without_newlines(front);
        let t = measure::without_newlines(front);
        assert(s.take(t.len() as int) =~= front.take(t.len() as int));
        assert forall|i: int| t.len() <= i < s.len() implies #[trigger] s[i] == '\n' by {
            if i < front.len() {
                assert(front[i] == s[i]);
            }
        }
    } else {
        assert(s.take(s.len() as int) =~= s);
    }
}

/// What stands in quotes opens, closes and comments nothing, whatever it holds.
pub proof fn law_quotes_hide_what_they_hold(
    lead: Seq<char>,
    q: char,
    inner: Seq<char>,
    rest: Seq<char>,
    lex: Lex,
)
    requires
        is_plain(lead),
        is_plain(rest),
        q == '"' || q == '\'',
        inner.len() > 0,
        forall|i: int| 0 <= i < inner.len() ==> (#[trigger] inner[i]) != q && inner[i] != '\\',
        lex.quote is None,
    ensures
        ({
            let line = lead + seq![q] + inner + seq![q] + rest;
            &&& measure::lex_after(line, lex) == lex
            &&& measure::uncommented(line) == text::trim_spec(line)
        }),
{
    let line = lead + seq![q] + inner + seq![q] + rest;
    lemma_quoted(lead, q, inner, rest, lex);
    lemma_quoted(lead, q, inner, rest, measure::idle());
    assert(line.take(line.len() as int) =~= line);
}

proof fn lemma_quoted(lead: Seq<char>, q: char, inner: Seq<char>, rest: Seq<char>, lex: Lex)
    requires
        is_plain(lead),
        is_plain(rest),
        q == '"' || q == '\'',
        inner.len() > 0,
        forall|i: int| 0 <= i < inner.len() ==> (#[trigger] inner[i]) != q && inner[i] != '\\',
        lex.quote is None,
    ensures
        ({
            let line = lead + seq![q] + inner + seq![q] + rest;
            measure::scanned(line, 0, lex) == (line.len() as int, lex)
        }),
{
    let line = lead + seq![q] + inner + seq![q] + rest;
    let n = lead.len() as int;
    let m = n + 1 + inner.len();
    let open = Lex { quote: Some((q, false)), ..lex };
    assert(line.subrange(0, n) =~= lead);
    lemma_passed_over(line, 0, n, lex);
    assert(line[n] == q && line[n + 1] == inner[0] && line[m] == q);
    assert(measure::scanned(line, n, lex) == measure::scanned(line, n + 1, open));
    lemma_inside(line, n + 1, m, q, lex);
    assert(Lex { quote: None, ..open } == lex);
    assert(measure::scanned(line, m, open) == measure::scanned(line, m + 1, lex));
    assert(line.subrange(m + 1, line.len() as int) =~= rest);
    lemma_passed_over(line, m + 1, line.len() as int, lex);
}

proof fn lemma_inside(s: Seq<char>, i: int, end: int, q: char, lex: Lex)
    requires
        0 <= i <= end < s.len(),
        forall|k: int| i <= k < end ==> (#[trigger] s[k]) != q && s[k] != '\\',
    ensures
        measure::scanned(s, i, Lex { quote: Some((q, false)), ..lex }) == measure::scanned(
            s,
            end,
            Lex { quote: Some((q, false)), ..lex },
        ),
    decreases end - i,
{
    if i < end {
        lemma_inside(s, i + 1, end, q, lex);
    }
}

/// A totals line counts only where every word of it is a number, and then it
/// does where it has the column.
pub proof fn law_totals_are_numbers(st: ParseView, values: Seq<char>, source: Seq<char>, i: int)
    requires
        st.pending is Some,
        text::position(st.columns, "Ir"@) < st.columns.len(),
    ensures
        ({
            let words = text::words(values);
            let column = text::position(st.columns, "Ir"@);
            let after = instructions::totals_step(st, values, source);
            &&& 0 <= i < words.len() && numerals::parse_u64_spec(words[i]) is None ==> after.parts
                == st.parts && after.warnings.len() == st.warnings.len() + 1
            &&& column < words.len() && (forall|k: int|
                0 <= k < words.len() ==> numerals::parse_u64_spec(#[trigger] words[k]) is Some)
                ==> after.warnings == st.warnings && after.parts.len() == st.parts.len() + 1
        }),
{
}

/// Profiles are the files whose name ends in `.out`, with something before it.
pub proof fn law_profiles_end_in_out(names: Seq<String>, i: int, stem: Seq<char>)
    requires
        0 <= i < names.len(),
        stem.len() > 0,
        names[i]@ == stem + ".out"@,
    ensures
        instructions::profile_names(names).contains(names[i]),
    decreases names.len(),
{
    reveal_strlit(".out");
    reveal_strlit("out");
    let name = names[i]@;
    let n = names.len() - 1;
    let front = names.drop_last();
    let before = instructions::profile_names(front);
    let all = instructions::profile_names(names);
    if i == n {
        assert(text::except('.')('o') && text::except('.')('u') && text::except('.')('t'));
        text::lemma_span_back_is(name, text::except('.'), 3);
        assert(name.take(name.len() - 4) =~= stem);
        assert(name.skip(name.len() - 3) =~= "out"@);
        assert(all == before.push(names[n]));
        assert(all[before.len() as int] == names[n]);
    } else {
        assert(front[i] == names[i]);
        law_profiles_end_in_out(front, i, stem);
        let k = before.index_of(names[i]);
        assert(before[k] == names[i]);
        assert(all[k] == before[k]);
    }
}

/// Nothing else is a profile.
pub proof fn law_other_files_are_no_profiles(names: Seq<String>, name: String)
    requires
        instructions::profile_names(names).contains(name),
    ensures
        names.contains(name),
        name@.len() > 4,
        name@.skip(name@.len() - 4) == ".out"@,
    decreases names.len(),
{
    reveal_strlit(".out");
    reveal_strlit("out");
    let all = instructions::profile_names(names);
    let k = all.index_of(name);
    if names.len() > 0 {
        let front = names.drop_last();
        let n = names.len() - 1;
        let before = instructions::profile_names(front);
        if k < before.len() {
            assert(before[k] == name);
            assert(before.contains(name));
            law_other_files_are_no_profiles(front, name);
            let j = front.index_of(name);
            assert(names[j] == name);
        } else {
            assert(names[n] == name);
            let s = name@;
            let (stem, end) = text::rsplit_once_spec(s, '.')->0;
            texts::law_cuts_are_at_the_first_or_the_last_mark(s, '.');
            assert(s == stem.push('.') + "out"@);
            assert(s.skip(s.len() - 4) =~= ".out"@);
        }
    }
}

/// A traced benchmark belongs to the group named before its id; the id splits at
/// its first slash. Fewer than three segments name none.
pub proof fn law_traced_ids_end_in_group_and_id(
    uri: Seq<char>,
    lead: Seq<Seq<char>>,
    group: Seq<char>,
    subject: Seq<char>,
    workload: Seq<char>,
)
    requires
        text::split_str_spec(uri, "::"@) == lead.push(group).push(
            subject + seq!['/'] + workload,
        ),
        !subject.contains('/'),
    ensures
        lead.len() > 0 ==> instructions::triple_spec(uri) == Some((group, subject, workload)),
        lead.len() == 0 ==> instructions::triple_spec(uri) is None,
{
    let id = subject + seq!['/'] + workload;
    let segments = text::split_str_spec(uri, "::"@);
    assert(segments[segments.len() - 1] == id);
    assert(segments[segments.len() - 2] == group);
    assert forall|j: int| 0 <= j < subject.len() implies text::except('/')(#[trigger] id[j]) by {
        assert(subject.contains(subject[j]));
    }
    assert(id[subject.len() as int] == '/');
    text::lemma_span_is(id, text::except('/'), subject.len());
    assert(id.take(subject.len() as int) =~= subject);
    assert(id.skip(subject.len() as int + 1) =~= workload);
}

/// A totals line is read from behind its mark on, and an events line too; a
/// request is what stands behind its own.
pub proof fn law_lines_are_read_from_behind_their_mark(
    st: ParseView,
    rest: Seq<char>,
    source: Seq<char>,
)
    ensures
        instructions::line_step(st, "totals:"@ + rest, source) == instructions::totals_step(
            st,
            rest,
            source,
        ),
        instructions::line_step(st, "events:"@ + rest, source).columns == text::words(rest),
        instructions::line_step(st, "desc: Trigger: Client Request:"@ + rest, source).pending
            == Some(text::trim_spec(rest)),
{
    reveal_strlit("totals:");
    reveal_strlit("events:");
    reveal_strlit("desc: Trigger: Client Request:");
    reveal_strlit("desc: Trigger:");
    lemma_marked("totals:"@, rest);
    lemma_marked("events:"@, rest);
    lemma_marked("desc: Trigger: Client Request:"@, rest);
    lemma_other_mark("totals:"@, rest, "desc: Trigger: Client Request:"@);
    lemma_other_mark("totals:"@, rest, "desc: Trigger:"@);
    lemma_other_mark("totals:"@, rest, "events:"@);
    lemma_other_mark("events:"@, rest, "desc: Trigger: Client Request:"@);
    lemma_other_mark("events:"@, rest, "desc: Trigger:"@);
}

proof fn lemma_marked(mark: Seq<char>, rest: Seq<char>)
    ensures
        text::has_prefix(mark + rest, mark),
        (mark + rest).skip(mark.len() as int) == rest,
{
    assert((mark + rest).take(mark.len() as int) =~= mark);
    assert((mark + rest).skip(mark.len() as int) =~= rest);
}

proof fn lemma_other_mark(mark: Seq<char>, rest: Seq<char>, other: Seq<char>)
    requires
        mark.len() > 0,
        other.len() > 0,
        mark[0] != other[0],
    ensures
        !text::has_prefix(mark + rest, other),
{
    if text::has_prefix(mark + rest, other) {
        assert((mark + rest).take(other.len() as int)[0] == mark[0]);
    }
}

/// The versions of the tools, as their probes gave them, are what is noted
/// before the targets run.
pub proof fn law_the_probed_versions_are_noted(
    req: instructions::CollectRequest,
    a: Probe,
    b: Probe,
    notes: Vec<String>,
)
    requires
        instructions::action_is(
            req,
            instructions::CollectEvent::Probes(a, b),
            instructions::CollectAction::RunTargets(notes),
        ),
    ensures
        notes@.len() > 0,
        notes@[0]@ == "instructions lane: codspeed "@ + instructions::probe_spec(
            "codspeed CLI"@,
            a,
        )->Ok_0 + ", cargo-codspeed "@ + instructions::probe_spec("cargo-codspeed"@, b)->Ok_0,
{
    let noted = text::views(notes@);
    let (x, y) = instructions::preflight_spec(a, b)->Ok_0;
    let all = instructions::version_notes_spec(x, y);
    assert(noted == all);
    assert(all.len() > 0);
    assert(noted.len() == notes@.len());
    assert(noted[0] == notes@[0]@);
}

} // verus!
