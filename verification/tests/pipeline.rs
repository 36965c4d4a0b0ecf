// The library-level steps behind the command-line workflows.

use ansisnap::cli::capture;
use ansisnap::differ::{diff_frames, diff_snapshots, render_report};
use ansisnap::runner::RunOutput;
use ansisnap::screen::Screen;
use ansisnap::snapshot::{encode_cmd, Frame, Snapshot};

fn render(cols: usize, rows: usize, bytes: &[u8]) -> Frame {
    let mut s = Screen::new(cols, rows);
    s.feed_bytes(bytes);
    Frame::from_screen(&s)
}

#[test]
fn progress_bar_collapses_to_its_final_line() {
    let f = render(80, 24, b"downloading 1%\rdownloading 62%\rdownloading 100%\r\x1b[2Kdone: 4 files\n");
    assert_eq!(f.used_rows(), 1);
    assert_eq!(f.lines[0], "done: 4 files");
}

#[test]
fn reverse_video_span_is_listed_by_row_and_columns() {
    let f = render(20, 24, b"\x1b[7m INS \x1b[0m ready\n");
    assert_eq!(f.lines[0], " INS  ready");
    assert_eq!(f.spans.len(), 1);
    let s = &f.spans[0];
    assert_eq!(
        format!("r{} c{}-c{} {}", s.row, s.start, s.end, s.style.to_text()),
        "r0 c0-c4 reverse"
    );
}

#[test]
fn same_screen_from_different_bytes_and_a_changed_word() {
    let a = render(80, 24, b"\x1b[1;31merror:\x1b[0m nope\n");
    let b = render(80, 24, b"XXXXXX nope\r\x1b[31m\x1b[1merror:\x1b[22m\x1b[39m\n");
    assert!(diff_frames(&a, &b).is_empty());
    let c = render(80, 24, b"\x1b[1;31merror:\x1b[0m yep\n");
    let d = diff_frames(&a, &c);
    assert!(render_report(&d, "  ").contains("row 0 text differs"));
}

#[test]
fn alternate_screen_frame_does_not_leak_into_the_capture() {
    let out = RunOutput {
        stdout: b"\x1b[?1049h\x1b[2J\x1b[1;1H+----+\x1b[2;1H|body|\x1b[3;1H+----+\x1b[?1049lsession closed\n".to_vec(),
        stderr: vec![],
        exit: 0,
    };
    let cmd = vec!["sh".to_string(), "tui.sh".to_string()];
    let snap = capture(&cmd, &out, 80, 24);
    let text = snap.to_text();
    assert!(text.contains("|session closed"));
    assert!(!text.contains("|body|"));
    let again = capture(&cmd, &out, 80, 24);
    assert!(diff_snapshots(&snap, &again).is_empty());
}

#[test]
fn recorded_snapshot_reads_back_and_lists_its_command() {
    let out = RunOutput { stdout: b"hi\n".to_vec(), stderr: vec![], exit: 0 };
    let cmd = vec!["sh".to_string(), "-c".to_string(), "echo hi".to_string()];
    let snap = capture(&cmd, &out, 40, 10);
    let back = Snapshot::parse(&snap.to_text()).unwrap();
    assert_eq!(back, snap);
    assert_eq!((back.frame.cols, back.frame.rows, back.exit), (40, 10, 0));
    assert_eq!(encode_cmd(&back.cmd), r#"["sh","-c","echo hi"]"#);
}

#[test]
fn corrupted_exit_header_is_reported_at_line_four() {
    let out = RunOutput { stdout: b"x\n".to_vec(), stderr: vec![], exit: 0 };
    let snap = capture(&["sh".to_string()], &out, 80, 24);
    let text = snap.to_text().replace("exit: ", "exit code: ");
    let e = Snapshot::parse(&text).unwrap_err();
    assert!(e.to_text().contains("line 4"));
}

#[test]
fn a_changed_exit_code_and_stderr_are_reported() {
    let ok = RunOutput { stdout: vec![], stderr: vec![], exit: 0 };
    let bad = RunOutput { stdout: vec![], stderr: b"boom\n".to_vec(), exit: 3 };
    let cmd = vec!["sh".to_string(), "e.sh".to_string()];
    let a = capture(&cmd, &ok, 80, 24);
    let b = capture(&cmd, &bad, 80, 24);
    let report = render_report(&diff_snapshots(&a, &b), "");
    assert!(report.contains("exit code: expected 0, actual 3"));
    assert!(report.contains("stderr differs"));
    assert!(report.contains("|boom"));
}
