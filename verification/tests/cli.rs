use ansisnap::cli::{capture, validate_name, Cmd, Opts, DEFAULT_COLS, DEFAULT_DIR, DEFAULT_ROWS};
use ansisnap::runner::RunOutput;
use std::path::PathBuf;

fn parse(args: &[&str]) -> Result<Opts, String> {
    let v: Vec<String> = args.iter().map(|s| s.to_string()).collect();
    Opts::parse(&v)
}

#[test]
fn no_args_means_help_and_version_flag_wins_anywhere() {
    assert_eq!(parse(&[]).unwrap().command, Cmd::Help);
    assert_eq!(parse(&["--version"]).unwrap().command, Cmd::Version);
    assert_eq!(parse(&["check", "-V"]).unwrap().command, Cmd::Version);
}

#[test]
fn record_splits_child_command_at_double_dash() {
    let o = parse(&[
        "record",
        "--cols",
        "40",
        "demo",
        "--",
        "ls",
        "--color=always",
    ])
    .unwrap();
    assert_eq!(o.command, Cmd::Record);
    assert_eq!(o.cols, 40);
    assert_eq!(o.positional, vec!["demo"]);
    assert_eq!(o.child_cmd, vec!["ls", "--color=always"]);
}

#[test]
fn flags_after_double_dash_belong_to_the_child() {
    let o = parse(&["record", "x", "--", "tool", "--update"]).unwrap();
    assert!(!o.update);
    assert_eq!(o.child_cmd, vec!["tool", "--update"]);
}

#[test]
fn unknown_command_option_and_stray_double_dash_are_usage_errors() {
    assert!(parse(&["explode"]).is_err());
    assert!(parse(&["check", "--frobnicate"]).is_err());
    assert!(parse(&["check", "--", "x"]).is_err());
}

#[test]
fn dimension_flags_are_validated() {
    assert!(parse(&["render", "--cols", "0"]).is_err());
    assert!(parse(&["render", "--cols", "1001"]).is_err());
    assert!(parse(&["render", "--cols", "abc"]).is_err());
    assert!(parse(&["render", "--cols"]).is_err());
    assert_eq!(parse(&["render", "--rows", "3"]).unwrap().rows, 3);
}

#[test]
fn defaults_are_80_by_24_in_dot_ansisnap() {
    let o = parse(&["check"]).unwrap();
    assert_eq!((o.cols, o.rows), (DEFAULT_COLS, DEFAULT_ROWS));
    assert_eq!(PathBuf::from(&o.dir), PathBuf::from(DEFAULT_DIR));
}

#[test]
fn name_validation_blocks_path_escapes() {
    assert!(validate_name("demo").is_ok());
    assert!(validate_name("demo-2.color_x").is_ok());
    assert!(validate_name("../evil").is_err());
    assert!(validate_name(".hidden").is_err());
    assert!(validate_name("a/b").is_err());
    assert!(validate_name("").is_err());
    assert!(validate_name("-flag").is_err());
}

#[test]
fn usage_error_messages_are_exact() {
    assert_eq!(parse(&["explode"]).unwrap_err(), "unknown command `explode` (see --help)");
    assert_eq!(parse(&["check", "--frobnicate"]).unwrap_err(), "unknown option `--frobnicate` (see --help)");
    assert_eq!(parse(&["check", "--", "x"]).unwrap_err(), "`--` is only used by `record`");
    assert_eq!(parse(&["render", "--cols"]).unwrap_err(), "--cols needs a value");
    assert_eq!(parse(&["render", "--rows", "abc"]).unwrap_err(), "--rows needs a number, got `abc`");
    assert_eq!(parse(&["render", "--rows", "0"]).unwrap_err(), "--rows must be between 1 and 1000");
    assert_eq!(parse(&["list", "--dir"]).unwrap_err(), "--dir needs a value");
    assert_eq!(
        validate_name("a/b").unwrap_err(),
        "invalid snapshot name `a/b` (use letters, digits, `.`, `_`, `-`; must start with a letter or digit)"
    );
}

#[test]
fn every_option_is_read() {
    let o = parse(&["render", "--dir", "snaps", "--styles", "--update", "-", "f.bin", "-h", "--rows", "+7"]).unwrap();
    assert_eq!(o.command, Cmd::Help);
    assert_eq!(o.dir, "snaps");
    assert!(o.styles && o.update);
    assert_eq!(o.positional, vec!["-", "f.bin"]);
    assert_eq!(o.rows, 7);
    assert!(o.child_cmd.is_empty());
    let o = parse(&["record", "n", "--"]).unwrap();
    assert!(o.child_cmd.is_empty());
    for (word, cmd) in [
        ("record", Cmd::Record),
        ("check", Cmd::Check),
        ("render", Cmd::Render),
        ("diff", Cmd::Diff),
        ("list", Cmd::List),
        ("help", Cmd::Help),
        ("-h", Cmd::Help),
        ("--help", Cmd::Help),
        ("version", Cmd::Version),
        ("-V", Cmd::Version),
    ] {
        assert_eq!(parse(&[word]).unwrap().command, cmd);
    }
}

#[test]
fn capture_renders_stdout_and_strips_stderr() {
    let out = RunOutput {
        stdout: b"\x1b[1mhi\x1b[0m\r\nthere".to_vec(),
        stderr: b"warn\rWARN\n\n".to_vec(),
        exit: 4,
    };
    let cmd = vec!["sh".to_string(), "-c".to_string()];
    let s = capture(&cmd, &out, 8, 3);
    assert_eq!(s.cmd, cmd);
    assert_eq!(s.exit, 4);
    assert_eq!((s.frame.cols, s.frame.rows), (8, 3));
    assert_eq!(s.frame.lines, vec!["hi", "there", ""]);
    assert_eq!(s.frame.spans.len(), 1);
    assert_eq!(s.stderr, vec!["WARN"]);
}
