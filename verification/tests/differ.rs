use ansisnap::differ::{caret_line, diff_frames, diff_snapshots, render_report, Difference};
use ansisnap::screen::Screen;
use ansisnap::snapshot::{Frame, Snapshot, Span};
use ansisnap::style::{Color, Style};

fn frame(cols: usize, rows: usize, input: &[u8]) -> Frame {
    let mut s = Screen::new(cols, rows);
    s.feed_bytes(input);
    Frame::from_screen(&s)
}

fn snap(frame: Frame, exit: i32, stderr: &[&str]) -> Snapshot {
    Snapshot {
        cmd: vec!["true".into()],
        exit,
        frame,
        stderr: stderr.iter().map(|s| s.to_string()).collect(),
    }
}

#[test]
fn identical_frames_produce_no_diffs() {
    let a = frame(20, 3, b"\x1b[32mok\x1b[0m done");
    let b = frame(20, 3, b"\x1b[32mok\x1b[0m done");
    assert!(diff_frames(&a, &b).is_empty());
}

#[test]
fn different_escape_bytes_same_screen_is_equal() {
    let a = frame(20, 2, b"\x1b[1;31mred\x1b[0m");
    let b = frame(20, 2, b"\x1b[31m\x1b[1mred\x1b[m\x1b[0m");
    let c = frame(20, 2, b"XXX\r\x1b[2K\x1b[31;1mred\x1b[39;22m");
    assert!(diff_frames(&a, &b).is_empty());
    assert!(diff_frames(&a, &c).is_empty());
}

#[test]
fn text_change_is_reported_with_row_number() {
    let a = frame(20, 3, b"one\r\ntwo");
    let b = frame(20, 3, b"one\r\ntwx");
    let d = diff_frames(&a, &b);
    assert_eq!(d.len(), 1);
    match &d[0] {
        Difference::RowText { row, .. } => assert_eq!(*row, 1),
        other => panic!("expected RowText, got {other:?}"),
    }
}

#[test]
fn style_only_change_is_its_own_difference_kind() {
    let a = frame(20, 1, b"\x1b[32mPASS\x1b[0m");
    let b = frame(20, 1, b"\x1b[31mPASS\x1b[0m");
    let d = diff_frames(&a, &b);
    assert_eq!(d.len(), 1);
    assert!(matches!(d[0], Difference::RowStyle { row: 0, .. }));
}

#[test]
fn text_change_suppresses_style_noise_on_that_row() {
    let a = frame(20, 1, b"\x1b[32mPASS\x1b[0m");
    let b = frame(20, 1, b"\x1b[31mFAIL\x1b[0m");
    let d = diff_frames(&a, &b);
    assert_eq!(d.len(), 1, "one RowText, no extra RowStyle");
    assert!(matches!(d[0], Difference::RowText { .. }));
}

#[test]
fn dims_mismatch_short_circuits() {
    let a = frame(20, 3, b"x");
    let b = frame(10, 3, b"x");
    let d = diff_frames(&a, &b);
    assert_eq!(d.len(), 1);
    assert!(matches!(d[0], Difference::Dims { .. }));
}

#[test]
fn caret_marks_differing_columns_display_width_aware() {
    assert_eq!(caret_line("hello world", "hello wurld"), "       ^");
    assert_eq!(caret_line("abc", "abcd"), "   ^");
    assert_eq!(caret_line("abcd", "abc"), "   ^");
    assert_eq!(caret_line("same", "same"), "");
    assert_eq!(caret_line("字ab", "字ax"), "   ^");
}

#[test]
fn exit_code_and_stderr_diffs() {
    let f = frame(10, 1, b"hi");
    let a = snap(f.clone(), 0, &["w1"]);
    let b = snap(f, 3, &["w1", "w2"]);
    let d = diff_snapshots(&a, &b);
    assert_eq!(d.len(), 2);
    assert!(matches!(
        d[0],
        Difference::ExitCode {
            expected: 0,
            actual: 3
        }
    ));
    assert!(matches!(d[1], Difference::Stderr { .. }));
}

#[test]
fn report_renders_all_difference_kinds() {
    let f = frame(10, 1, b"\x1b[31mhi\x1b[0m");
    let g = frame(10, 1, b"\x1b[32mhi\x1b[0m");
    let mut diffs = diff_frames(&f, &g);
    diffs.push(Difference::ExitCode {
        expected: 0,
        actual: 1,
    });
    diffs.push(Difference::Stderr {
        expected: vec![],
        actual: vec!["boom".into()],
    });
    let report = render_report(&diffs, "  ");
    assert!(report.contains("styles differ"));
    assert!(report.contains("fg=red"));
    assert!(report.contains("fg=green"));
    assert!(report.contains("exit code: expected 0, actual 1"));
    assert!(report.contains("line 0: actual   |boom"));
}

#[test]
fn report_text_is_exact_for_each_kind() {
    let diffs = vec![
        Difference::Dims { expected: (80, 24), actual: (40, 10) },
        Difference::RowText { row: 2, expected: "alpha".into(), actual: "aloha".into() },
        Difference::RowStyle {
            row: 0,
            expected: vec![Span { row: 0, start: 0, end: 3, style: Style { attrs: 1, fg: Color::Named(2), bg: Color::Default } }],
            actual: vec![],
        },
        Difference::ExitCode { expected: -1, actual: 2 },
        Difference::Stderr { expected: vec!["a".into(), "b".into()], actual: vec!["a".into()] },
    ];
    let want = "> terminal size: expected 80x24, actual 40x10\n\
> row 2 text differs:\n\
>   expected |alpha\n\
>   actual   |aloha\n\
>               ^\n\
> row 0 styles differ (text identical):\n\
>   expected c0-c3 bold,fg=green\n\
>   actual   (plain)\n\
> exit code: expected -1, actual 2\n\
> stderr differs (2 line(s) expected, 1 actual):\n\
>   line 1: expected |b\n\
>   line 1: actual   (absent)\n";
    assert_eq!(render_report(&diffs, "> "), want);
    assert_eq!(render_report(&[], "> "), "");
}

#[test]
fn spans_of_several_rows_are_compared_per_row() {
    let a = frame(10, 3, b"\x1b[1ma\x1b[0m\r\nb\r\n\x1b[4mc\x1b[0m");
    let b = frame(10, 3, b"\x1b[1ma\x1b[0m\r\nb\r\n\x1b[3mc\x1b[0m");
    let d = diff_frames(&a, &b);
    assert_eq!(d.len(), 1);
    match &d[0] {
        Difference::RowStyle { row, expected, actual } => {
            assert_eq!(*row, 2);
            assert_eq!(expected.len(), 1);
            assert_eq!(actual.len(), 1);
            assert_eq!(expected[0].row, 2);
        }
        other => panic!("expected RowStyle, got {other:?}"),
    }
    let report = render_report(&d, "");
    assert_eq!(
        report,
        "row 2 styles differ (text identical):\n  expected c0-c0 underline\n  actual   c0-c0 italic\n"
    );
}

#[test]
fn identical_snapshots_have_no_differences() {
    let f = frame(10, 2, b"\x1b[7mhi\x1b[0m");
    let a = snap(f.clone(), 1, &["x", "y"]);
    let b = snap(f, 1, &["x", "y"]);
    assert!(diff_snapshots(&a, &b).is_empty());
}

#[test]
fn empty_diff_means_equal_frames() {
    let inputs: [&[u8]; 4] = [
        b"\x1b[1;31mred\x1b[0m",
        b"\x1b[31m\x1b[1mred\x1b[m",
        b"\x1b[32mred\x1b[0m",
        b"re\x1b[1md",
    ];
    for x in inputs {
        for y in inputs {
            let a = frame(12, 2, x);
            let b = frame(12, 2, y);
            assert_eq!(diff_frames(&a, &b).is_empty(), a == b);
        }
    }
}

#[test]
fn differences_clone_to_equal_values() {
    let diffs = vec![
        Difference::Dims { expected: (1, 2), actual: (3, 4) },
        Difference::RowText { row: 0, expected: "a".into(), actual: "b".into() },
        Difference::RowStyle { row: 1, expected: vec![], actual: vec![] },
        Difference::ExitCode { expected: 0, actual: 1 },
        Difference::Stderr { expected: vec!["x".into()], actual: vec![] },
    ];
    for d in &diffs {
        assert_eq!(&d.clone(), d);
    }
}
