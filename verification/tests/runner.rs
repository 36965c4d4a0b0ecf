use ansisnap::runner::{stderr_lines, RunOutput, SIGNAL_EXIT};

#[test]
fn stderr_lines_strips_escapes_and_cr_overwrites() {
    let lines = stderr_lines(b"\x1b[31mwarn:\x1b[0m thing\nprogress 1%\rprogress 99%\rdone\n");
    assert_eq!(lines, vec!["warn: thing", "done"]);
    let lines = stderr_lines(b"one\r\ntwo\r\n");
    assert_eq!(lines, vec!["one", "two"]);
    let lines = stderr_lines(b"msg\n\n\n");
    assert_eq!(lines, vec!["msg"]);
}

#[test]
fn stderr_tabs_trailing_blanks_and_unterminated_last_line() {
    assert_eq!(stderr_lines(b"a\tb   \n  \nlast  "), vec!["a b", "", "last"]);
    assert_eq!(stderr_lines(b"x\r\ty"), vec![" y"]);
    assert_eq!(stderr_lines(b""), Vec::<String>::new());
    assert_eq!(stderr_lines(b"\n\n"), Vec::<String>::new());
    assert_eq!(stderr_lines(b"\x1b[2Kok\x07\n"), vec!["ok"]);
}

#[test]
fn run_output_holds_what_was_captured() {
    let out = RunOutput { stdout: b"o".to_vec(), stderr: vec![], exit: SIGNAL_EXIT };
    assert_eq!(out.exit, -1);
    assert_eq!(out.stdout, b"o");
}
