use mega_bench_reporter::git::{
    checkout_commit, checkout_dir, clone_args, commit_meta, credential_args_for, date_args,
    ensure_checkout, git_retry_backoff_secs, head_sha, retry_message, step_args,
    update_submodules, with_network_retry, CheckoutDir, CheckoutStep, Retry, Revision,
};

/// Runs an operation whose `k`-th try succeeds as `outcomes[k]` says; returns
/// how many tries there were, and whether the last one succeeded.
fn attempts(outcomes: &[bool], backoff: &Vec<u64>) -> (usize, bool) {
    let mut attempt = 0;
    loop {
        let ok = outcomes[attempt];
        match with_network_retry(attempt, ok, backoff) {
            Retry::Done => return (attempt + 1, true),
            Retry::GiveUp => return (attempt + 1, false),
            Retry::Wait(secs) => assert_eq!(secs, backoff[attempt]),
        }
        attempt += 1;
    }
}

#[test]
fn test_with_network_retry_retries_then_succeeds() {
    assert_eq!(attempts(&[false, false, true], &vec![0, 0]), (3, true));
}

#[test]
fn test_with_network_retry_gives_up_after_backoff_exhausted() {
    // One initial try + one retry.
    assert_eq!(attempts(&[false, false, true], &vec![0]), (2, false));
}

#[test]
fn test_credential_args_only_for_https_with_token() {
    let https = "https://github.com/megaeth-labs/mega-evm.git";
    let ssh = "git@github.com:megaeth-labs/mega-evm.git";
    assert_eq!(credential_args_for(https, true).len(), 2);
    assert!(credential_args_for(https, false).is_empty());
    assert!(credential_args_for(ssh, true).is_empty());
    assert!(credential_args_for(ssh, false).is_empty());
    // The token itself must never appear in argv — only the helper snippet
    // that reads it from the environment.
    assert!(credential_args_for(https, true).iter().all(|a| !a.contains("ghp_")));
}

#[test]
fn retries_wait_five_then_fifteen_seconds() {
    let backoff = git_retry_backoff_secs();
    assert_eq!(backoff, vec![5, 15]);
    assert_eq!(with_network_retry(0, false, &backoff), Retry::Wait(5));
    assert_eq!(with_network_retry(1, false, &backoff), Retry::Wait(15));
    assert_eq!(with_network_retry(2, false, &backoff), Retry::GiveUp);
    assert_eq!(with_network_retry(2, true, &backoff), Retry::Done);
    assert!(retry_message("git fetch", 0, 2, 5, "timeout").contains("git fetch"));
}

#[test]
fn a_partial_clone_is_removed_first() {
    assert_eq!(ensure_checkout(true, true), CheckoutDir::Reuse);
    assert_eq!(ensure_checkout(false, true), CheckoutDir::RemoveAndClone);
    assert_eq!(ensure_checkout(false, false), CheckoutDir::Clone);
    assert_eq!(checkout_dir("/work", "mega-evm"), "/work/mega-evm");
    assert_eq!(
        clone_args(&vec!["-c".to_string(), "x".to_string()], "https://h/r.git", "/work/r"),
        vec!["-c", "x", "clone", "--recursive", "https://h/r.git", "/work/r"]
    );
}

/// The steps of a checkout whose operations all succeed but those in `failing`.
fn steps(revision: &Revision, failing: &[CheckoutStep]) -> Vec<CheckoutStep> {
    let mut seen = Vec::new();
    let mut step = CheckoutStep::FetchBranch;
    while !matches!(step, CheckoutStep::Done | CheckoutStep::Failed) {
        seen.push(step);
        step = checkout_commit(step, !failing.contains(&step), revision);
    }
    seen.push(step);
    seen
}

#[test]
fn a_commit_off_the_branch_is_fetched_by_sha() {
    let commit = Revision::Commit("abc".to_string());
    assert_eq!(
        steps(&commit, &[]),
        vec![
            CheckoutStep::FetchBranch,
            CheckoutStep::Checkout,
            CheckoutStep::Submodules,
            CheckoutStep::Done
        ]
    );
    assert_eq!(
        steps(&commit, &[CheckoutStep::Checkout]),
        vec![
            CheckoutStep::FetchBranch,
            CheckoutStep::Checkout,
            CheckoutStep::FetchCommit,
            CheckoutStep::CheckoutFetched,
            CheckoutStep::Submodules,
            CheckoutStep::Done
        ]
    );
    // A branch head has no sha to fall back on.
    assert_eq!(
        steps(&Revision::BranchHead, &[CheckoutStep::Checkout]).last(),
        Some(&CheckoutStep::Failed)
    );
    assert_eq!(steps(&commit, &[CheckoutStep::FetchBranch]).last(), Some(&CheckoutStep::Failed));
}

#[test]
fn git_arguments_name_what_they_act_on() {
    let cred = Vec::new();
    let commit = Revision::Commit("abc".to_string());
    assert_eq!(
        step_args(CheckoutStep::FetchBranch, &cred, "main", &commit),
        vec!["fetch", "origin", "main"]
    );
    assert!(step_args(CheckoutStep::Checkout, &cred, "main", &commit)
        .contains(&"abc".to_string()));
    assert!(update_submodules(&cred).contains(&"--recursive".to_string()));
    assert_eq!(head_sha(), vec!["rev-parse", "HEAD"]);
    assert!(date_args("abc").contains(&"abc".to_string()));
    let meta = commit_meta("abc", "2026-07-02T10:00:00Z", "rustc 1.86.0");
    assert_eq!(meta.sha, "abc");
    assert_eq!(meta.date, "2026-07-02T10:00:00Z");
    assert_eq!(meta.rustc, "rustc 1.86.0");
}
