use mega_bench_reporter::subprocess::run_cmd;

#[test]
fn test_run_cmd_captures_stdout() {
    let out = run_cmd("echo", true, "exit status: 0", b"hello\n", b"").unwrap();
    assert_eq!(out, "hello");
}

#[test]
fn test_run_cmd_nonzero_exit_is_error_with_context() {
    let err = run_cmd("false-cmd", false, "exit status: 1", b"", b"oh no\n").unwrap_err();
    assert!(err.contains("false-cmd failed"));
    assert_eq!(err, "false-cmd failed (exit status: 1):\noh no\n");
}

#[test]
fn output_that_is_not_utf8_is_still_read() {
    let out = run_cmd("x", true, "exit status: 0", b" a\xffb ", b"").unwrap();
    assert_eq!(out, "a\u{fffd}b");
}
