//! Git checkout management for tracked repos: what to run, in which order, and
//! when to try again.
use crate::numerals;
use crate::paths;
use crate::text;
use vstd::prelude::*;

verus! {

/// Commit-level metadata stored with a run.
#[derive(Debug, Clone, PartialEq, Eq)]
pub struct CommitMeta {
    /// Full commit sha.
    pub sha: String,
    /// Committer date, RFC 3339.
    pub date: String,
    /// `rustc --version` output.
    pub rustc: String,
}

// ---------------------------------------------------------------------------
// Retries
// ---------------------------------------------------------------------------

/// What follows an attempt at a network operation.
#[derive(Debug, Clone, Copy, PartialEq, Eq, Structural)]
pub enum Retry {
    /// It succeeded.
    Done,
    /// It failed: wait this many seconds and try again.
    Wait(u64),
    /// It failed, and every retry is used up.
    GiveUp,
}

pub open spec fn retry_spec(attempt: nat, succeeded: bool, backoff: Seq<u64>) -> Retry {
    if succeeded {
        Retry::Done
    } else if attempt < backoff.len() {
        Retry::Wait(backoff[attempt as int])
    } else {
        Retry::GiveUp
    }
}

/// Decides after an attempt (counted from 0) at an operation that talks to the
/// network: transient failures to reach the remote should not fail an entire
/// run. `backoff_secs` has one entry per retry.
pub fn with_network_retry(attempt: usize, succeeded: bool, backoff_secs: &Vec<u64>) -> (r: Retry)
    ensures
        r == retry_spec(attempt as nat, succeeded, backoff_secs@),
{
    if succeeded {
        Retry::Done
    } else if attempt < backoff_secs.len() {
        Retry::Wait(backoff_secs[attempt])
    } else {
        Retry::GiveUp
    }
}

/// How many attempts are made at an operation whose attempts come out like
/// this (a missing outcome is a failure).
pub open spec fn attempts_made(outcomes: Seq<bool>, backoff: Seq<u64>, attempt: nat) -> nat
    decreases backoff.len() - attempt,
{
    let ok = attempt < outcomes.len() && outcomes[attempt as int];
    match retry_spec(attempt, ok, backoff) {
        Retry::Wait(_) => if attempt < backoff.len() {
            attempts_made(outcomes, backoff, attempt + 1)
        } else {
            attempt + 1
        },
        _ => attempt + 1,
    }
}

/// An operation that never succeeds is tried once and once more per retry.
pub proof fn law_retries_give_up(outcomes: Seq<bool>, backoff: Seq<u64>, attempt: nat)
    requires
        attempt <= backoff.len(),
        forall|i: int| 0 <= i < outcomes.len() ==> !(#[trigger] outcomes[i]),
    ensures
        attempts_made(outcomes, backoff, attempt) == backoff.len() + 1,
    decreases backoff.len() - attempt,
{
    if attempt < backoff.len() {
        law_retries_give_up(outcomes, backoff, attempt + 1);
    }
}

/// The first success ends the attempts.
pub proof fn law_first_success_ends_the_attempts(
    outcomes: Seq<bool>,
    backoff: Seq<u64>,
    attempt: nat,
    first: nat,
)
    requires
        attempt <= first <= backoff.len(),
        first < outcomes.len(),
        outcomes[first as int],
        forall|i: int| attempt <= i < first ==> !(#[trigger] outcomes[i]),
    ensures
        attempts_made(outcomes, backoff, attempt) == first + 1,
    decreases first - attempt,
{
    if attempt < first {
        law_first_success_ends_the_attempts(outcomes, backoff, attempt + 1, first);
    }
}

/// Default backoff for git network operations: two retries.
pub fn git_retry_backoff_secs() -> (r: Vec<u64>)
    ensures
        r@ == seq![5u64, 15],
{
    let r: Vec<u64> = vec![5, 15];
    assert(r@ =~= seq![5u64, 15]);
    r
}

/// The log line of a failed attempt (counted from 0) that is tried again.
pub fn retry_message(what: &str, attempt: usize, retries: usize, wait: u64, error: &str) -> (r:
    String)
    requires
        attempt < retries,
        retries < usize::MAX,
    ensures
        r@ == what@ + " failed (attempt "@ + numerals::digits((attempt + 1) as nat, 10) + "/"@
            + numerals::digits((retries + 1) as nat, 10) + ", retrying in "@ + numerals::digits(
            wait as nat,
            10,
        ) + "s): "@ + error@,
{
    let head: String = text::cat5(
        what,
        " failed (attempt ",
        numerals::decimal((attempt + 1) as u64).as_str(),
        "/",
        numerals::decimal((retries + 1) as u64).as_str(),
    );
    text::cat5(
        head.as_str(),
        ", retrying in ",
        numerals::decimal(wait).as_str(),
        "s): ",
        error,
    )
}

// ---------------------------------------------------------------------------
// Credentials
// ---------------------------------------------------------------------------

/// The helper snippet that feeds the token from the environment to git: the
/// token itself never appears among the arguments.
pub open spec fn helper_setting() -> Seq<char> {
    "credential.helper="@
        + "!f() { echo username=x-access-token; echo \"password=${GITHUB_TOKEN}\"; }; f"@
}

pub open spec fn credential_spec(clone_url: Seq<char>, has_token: bool) -> Seq<Seq<char>> {
    if text::has_prefix(clone_url, "https://"@) && has_token {
        seq!["-c"@, helper_setting()]
    } else {
        Seq::empty()
    }
}

/// The arguments that give git access to an https remote with the token of the
/// environment; none without one, so that git falls back to anonymous access.
pub fn credential_args_for(clone_url: &str, has_token: bool) -> (r: Vec<String>)
    ensures
        text::views(r@) == credential_spec(clone_url@, has_token),
{
    let mut args: Vec<String> = Vec::new();
    if text::starts_with(clone_url, "https://") && has_token {
        text::add_word(&mut args, "-c");
        let setting: String = text::cat2(
            "credential.helper=",
            "!f() { echo username=x-access-token; echo \"password=${GITHUB_TOKEN}\"; }; f",
        );
        text::add_word(&mut args, setting.as_str());
        assert(text::views(args@) =~= seq!["-c"@, helper_setting()]);
    } else {
        assert(text::views(args@) =~= Seq::empty());
    }
    args
}

/// A remote that is not https gets no credentials, token or not.
pub proof fn law_credentials_are_for_https_with_a_token(clone_url: Seq<char>, has_token: bool)
    ensures
        credential_spec(clone_url, has_token).len() > 0 <==> has_token && text::has_prefix(
            clone_url,
            "https://"@,
        ),
{
}

// ---------------------------------------------------------------------------
// Checkouts
// ---------------------------------------------------------------------------

/// Where a repo is checked out.
pub fn checkout_dir(work_root: &str, repo_name: &str) -> (r: String)
    ensures
        r@ == paths::join_spec(work_root@, repo_name@),
{
    paths::join(work_root, repo_name)
}

/// What to do about a checkout directory.
#[derive(Debug, Clone, Copy, PartialEq, Eq, Structural)]
pub enum CheckoutDir {
    /// It is a checkout: keep it.
    Reuse,
    /// Nothing is there: clone.
    Clone,
    /// A leftover without `.git` from an interrupted clone: remove it, then
    /// clone.
    RemoveAndClone,
}

/// Reuses a checkout; a leftover of an interrupted first clone is removed
/// instead of wedging every subsequent run.
pub fn ensure_checkout(has_git: bool, exists: bool) -> (r: CheckoutDir)
    ensures
        r == (if has_git {
            CheckoutDir::Reuse
        } else if exists {
            CheckoutDir::RemoveAndClone
        } else {
            CheckoutDir::Clone
        }),
{
    if has_git {
        CheckoutDir::Reuse
    } else if exists {
        CheckoutDir::RemoveAndClone
    } else {
        CheckoutDir::Clone
    }
}

/// What is checked out.
#[derive(Debug, Clone, PartialEq, Eq)]
pub enum Revision {
    /// A commit, by its sha.
    Commit(String),
    /// The tracked branch as it was just fetched.
    BranchHead,
}

/// The steps of a checkout.
#[derive(Debug, Clone, Copy, PartialEq, Eq, Structural)]
pub enum CheckoutStep {
    FetchBranch,
    Checkout,
    /// The branch fetch did not make the commit reachable: fetch it directly.
    FetchCommit,
    CheckoutFetched,
    Submodules,
    Done,
    Failed,
}

pub open spec fn next_step_spec(step: CheckoutStep, succeeded: bool, commit: bool) -> CheckoutStep {
    match step {
        CheckoutStep::FetchBranch => if succeeded {
            CheckoutStep::Checkout
        } else {
            CheckoutStep::Failed
        },
        CheckoutStep::Checkout => if succeeded {
            CheckoutStep::Submodules
        } else if commit {
            CheckoutStep::FetchCommit
        } else {
            CheckoutStep::Failed
        },
        CheckoutStep::FetchCommit => if succeeded {
            CheckoutStep::CheckoutFetched
        } else {
            CheckoutStep::Failed
        },
        CheckoutStep::CheckoutFetched => if succeeded {
            CheckoutStep::Submodules
        } else {
            CheckoutStep::Failed
        },
        CheckoutStep::Submodules => if succeeded {
            CheckoutStep::Done
        } else {
            CheckoutStep::Failed
        },
        CheckoutStep::Done => CheckoutStep::Done,
        CheckoutStep::Failed => CheckoutStep::Failed,
    }
}

/// What follows a step. A commit that the branch fetch did not make reachable
/// (a force-pushed branch) is fetched directly, once.
pub fn checkout_commit(step: CheckoutStep, succeeded: bool, revision: &Revision) -> (r:
    CheckoutStep)
    ensures
        r == next_step_spec(step, succeeded, *revision is Commit),
{
    match step {
        CheckoutStep::FetchBranch => if succeeded {
            CheckoutStep::Checkout
        } else {
            CheckoutStep::Failed
        },
        CheckoutStep::Checkout => if succeeded {
            CheckoutStep::Submodules
        } else {
            match revision {
                Revision::Commit(_) => CheckoutStep::FetchCommit,
                Revision::BranchHead => CheckoutStep::Failed,
            }
        },
        CheckoutStep::FetchCommit => if succeeded {
            CheckoutStep::CheckoutFetched
        } else {
            CheckoutStep::Failed
        },
        CheckoutStep::CheckoutFetched => if succeeded {
            CheckoutStep::Submodules
        } else {
            CheckoutStep::Failed
        },
        CheckoutStep::Submodules => if succeeded {
            CheckoutStep::Done
        } else {
            CheckoutStep::Failed
        },
        CheckoutStep::Done => CheckoutStep::Done,
        CheckoutStep::Failed => CheckoutStep::Failed,
    }
}

/// The step reached after these outcomes.
pub open spec fn after_steps(outcomes: Seq<bool>, commit: bool) -> CheckoutStep
    decreases outcomes.len(),
{
    if outcomes.len() == 0 {
        CheckoutStep::FetchBranch
    } else {
        next_step_spec(after_steps(outcomes.drop_last(), commit), outcomes.last(), commit)
    }
}

/// A checkout ends within five steps, whatever comes of them.
pub proof fn law_checkouts_end(outcomes: Seq<bool>, commit: bool)
    requires
        outcomes.len() >= 5,
    ensures
        after_steps(outcomes, commit) is Done || after_steps(outcomes, commit) is Failed,
    decreases outcomes.len(),
{
    if outcomes.len() > 5 {
        law_checkouts_end(outcomes.drop_last(), commit);
    } else {
        reveal_with_fuel(after_steps, 6);
    }
}

/// A checkout that is done has its submodules updated last.
pub proof fn law_submodules_are_updated_before_done(outcomes: Seq<bool>, commit: bool)
    requires
        outcomes.len() > 0,
        after_steps(outcomes, commit) is Done,
        !(after_steps(outcomes.drop_last(), commit) is Done),
    ensures
        after_steps(outcomes.drop_last(), commit) is Submodules,
        outcomes.last(),
{
}

pub open spec fn revision_name(revision: Revision) -> Seq<char> {
    match revision {
        Revision::Commit(sha) => sha@,
        Revision::BranchHead => "FETCH_HEAD"@,
    }
}

/// The git arguments of a step, credentials first where it talks to the
/// network.
pub open spec fn step_args_spec(
    step: CheckoutStep,
    cred: Seq<Seq<char>>,
    branch: Seq<char>,
    revision: Revision,
) -> Seq<Seq<char>> {
    match step {
        CheckoutStep::FetchBranch => cred + seq!["fetch"@, "origin"@, branch],
        CheckoutStep::FetchCommit => cred + seq!["fetch"@, "origin"@, revision_name(revision)],
        CheckoutStep::Checkout | CheckoutStep::CheckoutFetched => seq![
            "checkout"@,
            "--force"@,
            "--detach"@,
            revision_name(revision),
        ],
        CheckoutStep::Submodules => cred + seq![
            "submodule"@,
            "update"@,
            "--init"@,
            "--recursive"@,
        ],
        CheckoutStep::Done | CheckoutStep::Failed => Seq::empty(),
    }
}

/// The git arguments of a step. The checkout is forced, so that tracked files
/// rewritten by a previous run cannot wedge it.
pub fn step_args(step: CheckoutStep, cred: &Vec<String>, branch: &str, revision: &Revision) -> (r:
    Vec<String>)
    ensures
        text::views(r@) == step_args_spec(step, text::views(cred@), branch@, *revision),
{
    let name: &str = match revision {
        Revision::Commit(sha) => sha.as_str(),
        Revision::BranchHead => "FETCH_HEAD",
    };
    match step {
        CheckoutStep::FetchBranch => {
            let mut args: Vec<String> = text::copy_list(cred);
            text::add_word(&mut args, "fetch");
            text::add_word(&mut args, "origin");
            text::add_word(&mut args, branch);
            assert(text::views(args@) =~= text::views(cred@) + seq!["fetch"@, "origin"@, branch@]);
            args
        },
        CheckoutStep::FetchCommit => {
            let mut args: Vec<String> = text::copy_list(cred);
            text::add_word(&mut args, "fetch");
            text::add_word(&mut args, "origin");
            text::add_word(&mut args, name);
            assert(text::views(args@) =~= text::views(cred@) + seq!["fetch"@, "origin"@, name@]);
            args
        },
        CheckoutStep::Checkout | CheckoutStep::CheckoutFetched => {
            let mut args: Vec<String> = Vec::new();
            text::add_word(&mut args, "checkout");
            text::add_word(&mut args, "--force");
            text::add_word(&mut args, "--detach");
            text::add_word(&mut args, name);
            assert(text::views(args@) =~= seq!["checkout"@, "--force"@, "--detach"@, name@]);
            args
        },
        CheckoutStep::Submodules => update_submodules(cred),
        CheckoutStep::Done | CheckoutStep::Failed => {
            let args: Vec<String> = Vec::new();
            assert(text::views(args@) =~= Seq::empty());
            args
        },
    }
}

/// The git arguments that update a checkout's submodules.
pub fn update_submodules(cred: &Vec<String>) -> (r: Vec<String>)
    ensures
        text::views(r@) == text::views(cred@) + seq![
            "submodule"@,
            "update"@,
            "--init"@,
            "--recursive"@,
        ],
{
    let mut args: Vec<String> = text::copy_list(cred);
    text::add_word(&mut args, "submodule");
    text::add_word(&mut args, "update");
    text::add_word(&mut args, "--init");
    text::add_word(&mut args, "--recursive");
    assert(text::views(args@) =~= text::views(cred@) + seq![
        "submodule"@,
        "update"@,
        "--init"@,
        "--recursive"@,
    ]);
    args
}

/// The git arguments that clone a repo, submodules included.
pub fn clone_args(cred: &Vec<String>, clone_url: &str, checkout: &str) -> (r: Vec<String>)
    ensures
        text::views(r@) == text::views(cred@) + seq![
            "clone"@,
            "--recursive"@,
            clone_url@,
            checkout@,
        ],
{
    let mut args: Vec<String> = text::copy_list(cred);
    text::add_word(&mut args, "clone");
    text::add_word(&mut args, "--recursive");
    text::add_word(&mut args, clone_url);
    text::add_word(&mut args, checkout);
    assert(text::views(args@) =~= text::views(cred@) + seq![
        "clone"@,
        "--recursive"@,
        clone_url@,
        checkout@,
    ]);
    args
}

/// The git arguments that print a checkout's current HEAD sha.
pub fn head_sha() -> (r: Vec<String>)
    ensures
        text::views(r@) == seq!["rev-parse"@, "HEAD"@],
{
    let mut args: Vec<String> = Vec::new();
    text::add_word(&mut args, "rev-parse");
    text::add_word(&mut args, "HEAD");
    assert(text::views(args@) =~= seq!["rev-parse"@, "HEAD"@]);
    args
}

/// The git arguments that print a commit's committer date.
pub fn date_args(sha: &str) -> (r: Vec<String>)
    ensures
        text::views(r@) == seq!["show"@, "-s"@, "--format=%cI"@, sha@],
{
    let mut args: Vec<String> = Vec::new();
    text::add_word(&mut args, "show");
    text::add_word(&mut args, "-s");
    text::add_word(&mut args, "--format=%cI");
    text::add_word(&mut args, sha);
    assert(text::views(args@) =~= seq!["show"@, "-s"@, "--format=%cI"@, sha@]);
    args
}

/// Commit metadata from what git and rustc printed.
pub fn commit_meta(sha: &str, date: &str, rustc: &str) -> (r: CommitMeta)
    ensures
        r.sha@ == sha@,
        r.date@ == text::trim_spec(date@),
        r.rustc@ == text::trim_spec(rustc@),
{
    CommitMeta { sha: sha.to_string(), date: text::trim(date), rustc: text::trim(rustc) }
}

} // verus!
