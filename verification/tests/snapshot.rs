use ansisnap::screen::Screen;
use ansisnap::snapshot::{decode_cmd, encode_cmd, plural, Frame, Snapshot, Span};
use ansisnap::style::{attr, Color, Style};

fn sample() -> Snapshot {
    let mut screen = Screen::new(20, 4);
    screen.feed_bytes(b"\x1b[1;32mPASS\x1b[0m all good\r\ntail  ");
    Snapshot {
        cmd: vec!["sh".into(), "-c".into(), "echo \"q\"\ttab".into()],
        exit: 0,
        frame: Frame::from_screen(&screen),
        stderr: vec!["warn: thing".into()],
    }
}

#[test]
fn roundtrip_preserves_everything() {
    let mut snap = sample();
    snap.exit = 3;
    let text = snap.to_text();
    let parsed = Snapshot::parse(&text).unwrap();
    assert_eq!(parsed, snap);
}

#[test]
fn serialized_form_is_reviewable() {
    let text = sample().to_text();
    assert!(text.starts_with("ansisnap snapshot v1\n"));
    assert!(text.contains("term: 20x4\n"));
    assert!(text.contains("|PASS all good\n"));
    assert!(text.contains("r0 c0-c3 bold,fg=green\n"));
    assert!(text.contains("--- stderr: 1 line ---\n|warn: thing\n"));
}

#[test]
fn section_counts_pluralize_and_parse_accepts_both_forms() {
    let text = sample().to_text();
    assert!(text.contains("--- styles: 1 span ---\n"));
    let legacy = text
        .replace("--- styles: 1 span ---", "--- styles: 1 spans ---")
        .replace("--- stderr: 1 line ---", "--- stderr: 1 lines ---");
    assert_eq!(Snapshot::parse(&legacy).unwrap(), sample());
    let bad = text.replace("--- styles: 1 span ---", "--- styles: 1 spam ---");
    assert!(Snapshot::parse(&bad).is_err());
}

#[test]
fn trailing_spaces_are_trimmed_from_rows() {
    let text = sample().to_text();
    assert!(text.contains("\n|tail\n"), "no trailing blanks on rows");
}

#[test]
fn cmd_encoding_escapes_quotes_tabs_and_controls() {
    let cmd: Vec<String> = vec!["a\"b".into(), "c\\d".into(), "e\nf".into(), "\u{1}".into()];
    let enc = encode_cmd(&cmd);
    assert_eq!(enc, r#"["a\"b","c\\d","e\nf","\u0001"]"#);
    assert_eq!(decode_cmd(&enc).unwrap(), cmd);
}

#[test]
fn decode_cmd_rejects_malformed_input() {
    assert!(decode_cmd("not an array").is_err());
    assert!(decode_cmd("[]").is_err());
    assert!(decode_cmd(r#"["a" "b"]"#).is_err());
    assert!(decode_cmd(r#"["unterminated]"#).is_err());
    assert!(decode_cmd(r#"["bad\q"]"#).is_err());
}

#[test]
fn parse_error_is_positioned() {
    let mut text = sample().to_text();
    text = text.replace("--- styles:", "--- stylez:");
    let e = Snapshot::parse(&text).unwrap_err();
    assert_eq!(e.line, 10);
    assert!(e.to_text().contains("styles"));
}

#[test]
fn wrong_magic_and_missing_row_prefix_are_rejected() {
    let e = Snapshot::parse("other snapshot v1\n").unwrap_err();
    assert_eq!(e.line, 1);
    let text = sample().to_text().replace("|PASS", "PASS");
    let e = Snapshot::parse(&text).unwrap_err();
    assert!(e.to_text().contains("start with `|`"));
}

#[test]
fn too_wide_row_is_rejected_counting_wide_chars_double() {
    let mut snap = sample();
    snap.frame.lines[0] = "x".repeat(21);
    let e = Snapshot::parse(&snap.to_text()).unwrap_err();
    assert!(e.to_text().contains("wider than declared"));
    snap.frame.lines[0] = "字".repeat(11);
    assert!(Snapshot::parse(&snap.to_text()).is_err());
    snap.frame.lines[0] = "字".repeat(10);
    assert!(Snapshot::parse(&snap.to_text()).is_ok());
}

#[test]
fn out_of_bounds_span_is_rejected() {
    let mut snap = sample();
    snap.frame.spans[0].end = 25;
    let e = Snapshot::parse(&snap.to_text()).unwrap_err();
    assert!(e.to_text().contains("out of bounds"));
}

#[test]
fn used_rows_ignores_trailing_blank_rows() {
    let snap = sample();
    assert_eq!(snap.frame.rows, 4);
    assert_eq!(snap.frame.used_rows(), 2);
}

#[test]
fn styled_blank_row_counts_as_used() {
    let mut screen = Screen::new(10, 3);
    screen.feed_bytes(b"x\x1b[3;1H\x1b[44m   \x1b[0m");
    let frame = Frame::from_screen(&screen);
    assert_eq!(frame.lines[2], "");
    assert_eq!(frame.used_rows(), 3);
    assert_eq!(frame.spans.last().unwrap().style.bg, Color::Named(4));
    let _ = attr::BOLD;
}

#[test]
fn full_text_form_is_exact() {
    let snap = sample();
    let want = "ansisnap snapshot v1\n\
cmd: [\"sh\",\"-c\",\"echo \\\"q\\\"\\ttab\"]\n\
term: 20x4\n\
exit: 0\n\
--- screen: 4 rows x 20 cols ---\n\
|PASS all good\n\
|tail\n\
|\n\
|\n\
--- styles: 1 span ---\n\
r0 c0-c3 bold,fg=green\n\
--- stderr: 1 line ---\n\
|warn: thing\n";
    assert_eq!(snap.to_text(), want);
}

#[test]
fn parse_errors_name_their_line_and_reason() {
    let good = sample().to_text();
    let cases: Vec<(String, usize, &str)> = vec![
        (String::new(), 1, "empty file"),
        ("ansisnap snapshot v1\n".to_string(), 2, "missing cmd header"),
        ("ansisnap snapshot v1\ncmd [\"a\"]\n".to_string(), 2, "expected `cmd: [...]`"),
        ("ansisnap snapshot v1\ncmd: []\n".to_string(), 2, "cmd array is empty"),
        ("ansisnap snapshot v1\ncmd: [\"a\"]\n".to_string(), 3, "missing term header"),
        ("ansisnap snapshot v1\ncmd: [\"a\"]\nterm: 0x4\n".to_string(), 3, "bad terminal dimensions"),
        ("ansisnap snapshot v1\ncmd: [\"a\"]\nterm 2x4\n".to_string(), 3, "expected `term: <cols>x<rows>`"),
        ("ansisnap snapshot v1\ncmd: [\"a\"]\nterm: 2x4\n".to_string(), 4, "missing exit header"),
        ("ansisnap snapshot v1\ncmd: [\"a\"]\nterm: 2x4\nexit: x\n".to_string(), 4, "expected `exit: <code>`"),
        ("ansisnap snapshot v1\ncmd: [\"a\"]\nterm: 2x4\nexit: 1\n".to_string(), 5, "missing screen section"),
        ("ansisnap snapshot v1\ncmd: [\"a\"]\nterm: 2x4\nexit: 1\nscreen\n".to_string(), 5, "expected `--- screen: ... ---`"),
        ("ansisnap snapshot v1\ncmd: [\"a\"]\nterm: 2x2\nexit: 1\n--- screen:\n|a\n".to_string(), 5, "screen section shorter than declared rows"),
        ("ansisnap snapshot v1\ncmd: [\"a\"]\nterm: 2x1\nexit: 1\n--- screen:\n|a\n".to_string(), 5, "missing styles section"),
        ("ansisnap snapshot v1\ncmd: [\"a\"]\nterm: 2x1\nexit: 1\n--- screen:\n|a\n--- styles: 1 span ---\n".to_string(), 7, "styles section shorter than declared count"),
        ("ansisnap snapshot v1\ncmd: [\"a\"]\nterm: 2x1\nexit: 1\n--- screen:\n|a\n--- styles: 1 span ---\nr0 c0-c1 nope\n".to_string(), 8, "unknown style `nope`"),
        ("ansisnap snapshot v1\ncmd: [\"a\"]\nterm: 2x1\nexit: 1\n--- screen:\n|a\n--- styles: 1 span ---\nr0 c0 bold\n".to_string(), 8, "bad style span `r0 c0 bold`"),
        ("ansisnap snapshot v1\ncmd: [\"a\"]\nterm: 2x1\nexit: 1\n--- screen:\n|a\n--- styles: 0 spans ---\n".to_string(), 7, "missing stderr section"),
        ("ansisnap snapshot v1\ncmd: [\"a\"]\nterm: 2x1\nexit: 1\n--- screen:\n|a\n--- styles: 0 spans ---\n--- stderr: 1 line ---\n".to_string(), 8, "stderr section shorter than declared count"),
        ("ansisnap snapshot v1\ncmd: [\"a\"]\nterm: 2x1\nexit: 1\n--- screen:\n|a\n--- styles: 0 spans ---\n--- stderr: 1 line ---\nx\n".to_string(), 9, "stderr line must start with `|`"),
        ("ansisnap snapshot v1\ncmd: [\"a\"]\nterm: 2x1\nexit: 1\n--- screen:\n|a\n--- styles: 0 spans ---\n--- stderr: 0 lines ---\nmore\n".to_string(), 9, "trailing content after stderr section"),
        ("ansisnap snapshot v1\ncmd: [\"a\"]\nterm: 2x1\nexit: 1\n--- screen:\n|a\n--- styles: x spans ---\n".to_string(), 7, "expected `--- styles: N spans ---`"),
        ("ansisnap snapshot v1\ncmd: [\"a\"]\nterm: 2x1\nexit: 1\n--- screen:\n|a\n--- styles: 0 spans ---\n--- stderr: 0 linez ---\n".to_string(), 8, "expected `--- stderr: N lines ---`"),
        (good.replace("ansisnap", "ansisnip"), 1, "not an ansisnap v1 snapshot"),
    ];
    for (text, line, msg) in cases {
        let e = Snapshot::parse(&text).unwrap_err();
        assert_eq!((e.line, e.msg.as_str()), (line, msg), "{text:?}");
        assert_eq!(e.to_text(), format!("line {line}: {msg}"));
    }
}

#[test]
fn minimal_snapshot_parses_and_an_empty_line_may_follow() {
    let text = "ansisnap snapshot v1\ncmd: [\"a\"]\nterm: 2x1\nexit: -7\n--- screen:\n|a\n--- styles: 0 spans ---\n--- stderr: 0 lines ---\n\nignored\n";
    let s = Snapshot::parse(text).unwrap();
    assert_eq!(s.exit, -7);
    assert_eq!(s.cmd, vec!["a".to_string()]);
    assert_eq!((s.frame.cols, s.frame.rows), (2, 1));
    assert_eq!(s.frame.lines, vec!["a".to_string()]);
    assert!(s.frame.spans.is_empty() && s.stderr.is_empty());
    let crlf = text.replace('\n', "\r\n");
    assert_eq!(Snapshot::parse(&crlf).unwrap(), s);
}

#[test]
fn span_bounds_are_checked_against_the_screen() {
    let head = "ansisnap snapshot v1\ncmd: [\"a\"]\nterm: 3x2\nexit: 0\n--- screen:\n|\n|\n--- styles: 1 span ---\n";
    for (span, ok) in [
        ("r1 c0-c2 bold", true),
        ("r2 c0-c2 bold", false),
        ("r0 c0-c3 bold", false),
        ("r0 c2-c1 bold", false),
    ] {
        let text = format!("{head}{span}\n--- stderr: 0 lines ---\n");
        let r = Snapshot::parse(&text);
        assert_eq!(r.is_ok(), ok, "{span}");
        if !ok {
            assert_eq!(r.unwrap_err().msg, format!("style span out of bounds `{span}`"));
        }
    }
}

#[test]
fn decode_cmd_messages_and_escapes() {
    assert_eq!(decode_cmd("[\"a\\u0041\",\"\\t\"]").unwrap(), vec!["aA".to_string(), "\t".to_string()]);
    assert_eq!(decode_cmd("[]").unwrap_err(), "cmd array is empty");
    assert_eq!(decode_cmd("x").unwrap_err(), "cmd must be a [\"...\"] array");
    assert_eq!(decode_cmd("[x]").unwrap_err(), "unexpected `x` in cmd array");
    assert_eq!(decode_cmd("[\"a\" \"b\"]").unwrap_err(), "expected `,` between cmd args, got ` `");
    assert_eq!(decode_cmd("[\"a\",x]").unwrap_err(), "expected string after `,`, got Some('x')");
    assert_eq!(decode_cmd("[\"a\",]").unwrap_err(), "expected string after `,`, got None");
    assert_eq!(decode_cmd("[\"a\\q\"]").unwrap_err(), "bad escape Some('q')");
    assert_eq!(decode_cmd("[\"a\\").unwrap_err(), "cmd must be a [\"...\"] array");
    assert_eq!(decode_cmd("[\"a\\]").unwrap_err(), "bad escape None");
    assert_eq!(decode_cmd("[\"\\uzz\"]").unwrap_err(), "bad \\u escape `zz\"`");
    assert_eq!(decode_cmd("[\"\\ud800\"]").unwrap_err(), "bad \\u code point");
    assert_eq!(decode_cmd("[\"abc]").unwrap_err(), "unterminated string in cmd array");
}

#[test]
fn encode_decode_roundtrip_on_awkward_arguments() {
    let cmds: Vec<Vec<String>> = vec![
        vec!["".into()],
        vec!["]".into(), "[".into(), ",".into()],
        vec!["\u{0}\u{1f}\r\u{7f}é字\\\"".into()],
        vec!["a b".into(), "\n\t".into()],
    ];
    for cmd in cmds {
        assert_eq!(decode_cmd(&encode_cmd(&cmd)).unwrap(), cmd);
    }
    assert_eq!(encode_cmd(&[]), "[]");
}

#[test]
fn roundtrip_of_a_hand_built_snapshot() {
    let s = Snapshot {
        cmd: vec!["prog".into(), "--x=\"1\"".into()],
        exit: i32::MIN,
        frame: Frame {
            cols: 4,
            rows: 2,
            lines: vec!["字ab".into(), "".into()],
            spans: vec![
                Span { row: 0, start: 0, end: 1, style: Style { attrs: 255, fg: Color::Rgb(1, 2, 3), bg: Color::Named(15) } },
                Span { row: 1, start: 3, end: 3, style: Style { attrs: 0, fg: Color::Default, bg: Color::Indexed(99) } },
            ],
        },
        stderr: vec!["".into(), " x ".into()],
    };
    assert_eq!(Snapshot::parse(&s.to_text()).unwrap(), s);
}

#[test]
fn plural_picks_the_noun() {
    assert_eq!(plural(1, "span", "spans"), "span");
    assert_eq!(plural(0, "span", "spans"), "spans");
    assert_eq!(plural(2, "line", "lines"), "lines");
}

#[test]
fn used_rows_of_an_empty_frame_is_zero() {
    let f = Frame::from_screen(&Screen::new(5, 3));
    assert_eq!(f.lines, vec!["", "", ""]);
    assert!(f.spans.is_empty());
    assert_eq!(f.used_rows(), 0);
}
