use ansisnap::parser::{Action, Param, Parser};

fn csi(actions: &[Action]) -> Vec<&Action> {
    actions
        .iter()
        .filter(|a| matches!(a, Action::Csi { .. }))
        .collect()
}

#[test]
fn plain_text_prints_and_bel_is_dropped() {
    let a = Parser::parse(b"hi");
    assert_eq!(a, vec![Action::Print('h'), Action::Print('i')]);
    let a = Parser::parse(b"a\x07\r\nb");
    assert_eq!(
        a,
        vec![
            Action::Print('a'),
            Action::Control(b'\r'),
            Action::Control(b'\n'),
            Action::Print('b'),
        ]
    );
}

#[test]
fn csi_params_are_decoded_with_empty_defaulting_to_zero() {
    let a = Parser::parse(b"\x1b[2;5H");
    match &a[0] {
        Action::Csi {
            params, final_byte, ..
        } => {
            assert_eq!(*final_byte, 'H');
            assert_eq!(params[0].value(), 2);
            assert_eq!(params[1].value(), 5);
        }
        other => panic!("expected CSI, got {other:?}"),
    }
    let a = Parser::parse(b"\x1b[;5H");
    match &a[0] {
        Action::Csi { params, .. } => {
            assert_eq!(params[0].value(), 0);
            assert_eq!(params[1].value(), 5);
        }
        other => panic!("expected CSI, got {other:?}"),
    }
}

#[test]
fn colon_subparams_stay_grouped() {
    let a = Parser::parse(b"\x1b[38:2:255:128:0m");
    match &a[0] {
        Action::Csi { params, .. } => {
            assert_eq!(params.len(), 1);
            assert_eq!(params[0].0, vec![38, 2, 255, 128, 0]);
        }
        other => panic!("expected CSI, got {other:?}"),
    }
}

#[test]
fn private_marker_is_captured() {
    let a = Parser::parse(b"\x1b[?25l");
    match &a[0] {
        Action::Csi {
            private,
            params,
            final_byte,
            ..
        } => {
            assert_eq!(*private, Some('?'));
            assert_eq!(params[0].value(), 25);
            assert_eq!(*final_byte, 'l');
        }
        other => panic!("expected CSI, got {other:?}"),
    }
}

#[test]
fn sequence_split_across_feeds_is_reassembled() {
    let mut p = Parser::new();
    let mut out = Vec::new();
    p.feed(b"\x1b[3", &mut out);
    assert!(out.is_empty(), "incomplete CSI must not emit anything");
    p.feed(b"1mA", &mut out);
    assert_eq!(csi(&out).len(), 1);
    assert_eq!(*out.last().unwrap(), Action::Print('A'));
}

#[test]
fn utf8_split_across_feeds_and_invalid_utf8() {
    let mut p = Parser::new();
    let mut out = Vec::new();
    let bytes = "é".as_bytes();
    p.feed(&bytes[..1], &mut out);
    assert!(out.is_empty());
    p.feed(&bytes[1..], &mut out);
    assert_eq!(out, vec![Action::Print('é')]);
    let a = Parser::parse(&[0xc3, b'x']);
    assert_eq!(a, vec![Action::Print('\u{fffd}'), Action::Print('x')]);
}

#[test]
fn osc_terminated_by_bel_or_st() {
    let a = Parser::parse(b"\x1b]0;my title\x07after");
    assert_eq!(a[0], Action::Osc("0;my title".into()));
    assert_eq!(a[1], Action::Print('a'));
    let a = Parser::parse(b"\x1b]2;t\x1b\\x");
    assert_eq!(a[0], Action::Osc("2;t".into()));
    assert_eq!(a[1], Action::Print('x'));
}

#[test]
fn dcs_is_consumed_silently() {
    let a = Parser::parse(b"\x1bPq#0\x1b\\ok");
    assert_eq!(a, vec![Action::Print('o'), Action::Print('k')]);
}

#[test]
fn esc_dispatch_with_intermediate() {
    let a = Parser::parse(b"\x1b(Bz");
    assert_eq!(
        a,
        vec![
            Action::Esc {
                intermediate: Some('('),
                final_byte: 'B'
            },
            Action::Print('z'),
        ]
    );
}

#[test]
fn esc_inside_csi_restarts_the_sequence() {
    let a = Parser::parse(b"\x1b[12\x1b[31mX");
    let c = csi(&a);
    assert_eq!(c.len(), 1);
    match c[0] {
        Action::Csi {
            params, final_byte, ..
        } => {
            assert_eq!(*final_byte, 'm');
            assert_eq!(params[0].value(), 31);
        }
        other => panic!("expected CSI, got {other:?}"),
    }
    let a = Parser::parse(b"\x1b[99999999999999999999A");
    match &a[0] {
        Action::Csi { params, .. } => assert_eq!(params[0].value(), u16::MAX),
        other => panic!("expected CSI, got {other:?}"),
    }
}

// Feeding a stream in pieces gives the same actions as feeding it whole.
#[test]
fn chunked_feeding_matches_one_shot_parse() {
    let input: &[u8] = "a\x1b[1;31mé\x1b]0;t\x07b\x1bPq\x1b\\c\x1b(Bd\r\n日".as_bytes();
    let whole = Parser::parse(input);
    for cut in 0..=input.len() {
        let mut p = Parser::new();
        let mut out = Vec::new();
        p.feed(&input[..cut], &mut out);
        p.feed(&input[cut..], &mut out);
        assert_eq!(out, whole, "split at {cut}");
    }
}

#[test]
fn param_value_defaults_to_zero_and_default_parser_is_new() {
    assert_eq!(Param(vec![]).value(), 0);
    assert_eq!(Param(vec![7, 9]).value(), 7);
    let mut p = Parser::default();
    let mut out = Vec::new();
    p.feed(b"x", &mut out);
    assert_eq!(out, vec![Action::Print('x')]);
}

#[test]
fn overlong_osc_is_cut_and_csi_params_are_capped() {
    let mut input = b"\x1b]".to_vec();
    input.extend(std::iter::repeat(b'a').take(5000));
    input.push(0x07);
    let a = Parser::parse(&input);
    match &a[0] {
        Action::Osc(s) => assert_eq!(s.len(), 4096),
        other => panic!("expected OSC, got {other:?}"),
    }
    let mut csi_in = b"\x1b[".to_vec();
    for _ in 0..40 {
        csi_in.extend_from_slice(b"1;");
    }
    csi_in.push(b'm');
    let a = Parser::parse(&csi_in);
    match &a[0] {
        Action::Csi { params, .. } => assert_eq!(params.len(), 32),
        other => panic!("expected CSI, got {other:?}"),
    }
}
