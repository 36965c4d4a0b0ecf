use ansisnap::parser::Param;
use ansisnap::style::{attr, Color, Style};

fn sgr(style: &mut Style, params: &[&[u16]]) {
    let p: Vec<Param> = params.iter().map(|v| Param(v.to_vec())).collect();
    style.apply_sgr(&p);
}

#[test]
fn basic_attributes_set_clear_and_empty_sgr_resets() {
    let mut s = Style::default();
    sgr(&mut s, &[&[1], &[4]]);
    assert_eq!(s.attrs, attr::BOLD | attr::UNDERLINE);
    sgr(&mut s, &[&[22], &[24]]);
    assert!(s.is_default());
    let mut s = Style {
        attrs: attr::BOLD,
        fg: Color::Named(1),
        bg: Color::Default,
    };
    s.apply_sgr(&[]);
    assert!(s.is_default());
}

#[test]
fn named_and_bright_colors() {
    let mut s = Style::default();
    sgr(&mut s, &[&[31], &[42]]);
    assert_eq!(s.fg, Color::Named(1));
    assert_eq!(s.bg, Color::Named(2));
    sgr(&mut s, &[&[91], &[102]]);
    assert_eq!(s.fg, Color::Named(9));
    assert_eq!(s.bg, Color::Named(10));
}

#[test]
fn indexed_color_semicolon_form_consumes_following_params() {
    let mut s = Style::default();
    sgr(&mut s, &[&[38], &[5], &[196], &[1]]);
    assert_eq!(s.fg, Color::Indexed(196));
    assert_ne!(s.attrs & attr::BOLD, 0);
}

#[test]
fn truecolor_semicolon_and_colon_forms() {
    let mut s = Style::default();
    sgr(&mut s, &[&[48], &[2], &[10], &[20], &[30]]);
    assert_eq!(s.bg, Color::Rgb(10, 20, 30));
    sgr(&mut s, &[&[38, 2, 255, 128, 0]]);
    assert_eq!(s.fg, Color::Rgb(255, 128, 0));
    sgr(&mut s, &[&[38, 2, 0, 255, 100, 0]]);
    assert_eq!(s.fg, Color::Rgb(255, 100, 0));
}

#[test]
fn low_palette_indices_normalize_to_named() {
    let mut a = Style::default();
    let mut b = Style::default();
    sgr(&mut a, &[&[38], &[5], &[1]]);
    sgr(&mut b, &[&[31]]);
    assert_eq!(a, b);
}

#[test]
fn truncated_and_unknown_sgr_codes_are_ignored() {
    let mut s = Style::default();
    sgr(&mut s, &[&[38], &[2], &[10]]);
    assert_eq!(s.fg, Color::Default);
    sgr(&mut s, &[&[73], &[31]]);
    assert_eq!(s.fg, Color::Named(1));
    assert_eq!(s.attrs & attr::BOLD, 0);
}

#[test]
fn display_is_stable_ordered_and_roundtrips() {
    let s = Style {
        attrs: attr::UNDERLINE | attr::BOLD,
        fg: Color::Named(9),
        bg: Color::Indexed(17),
    };
    assert_eq!(s.to_text(), "bold,underline,fg=bright-red,bg=idx17");
    assert_eq!(Style::default().to_text(), "plain");
    let cases = [
        Style::default(),
        Style {
            attrs: attr::BOLD | attr::STRIKE,
            fg: Color::Rgb(1, 2, 3),
            bg: Color::Named(0),
        },
        Style {
            attrs: attr::REVERSE,
            fg: Color::Indexed(200),
            bg: Color::Named(15),
        },
    ];
    for s in cases {
        let text = s.to_text();
        let parsed = if text == "plain" {
            Style::default()
        } else {
            Style::parse(&text).unwrap()
        };
        assert_eq!(parsed, s, "roundtrip failed for {text}");
    }
}

#[test]
fn color_parse_rejects_garbage() {
    assert_eq!(Color::parse("chartreuse"), None);
    assert_eq!(Color::parse("#12345"), None);
    assert_eq!(Color::parse("idx999"), None);
}

#[test]
fn every_produced_color_reads_back() {
    let mut colors = vec![Color::Default];
    for n in 0..16u8 {
        colors.push(Color::Named(n));
    }
    for i in 16..=255u8 {
        colors.push(Color::Indexed(i));
    }
    colors.push(Color::Rgb(0, 0, 0));
    colors.push(Color::Rgb(255, 128, 7));
    colors.push(Color::Rgb(0xab, 0xcd, 0xef));
    for c in colors {
        assert_eq!(Color::parse(&c.to_text()), Some(c), "{}", c.to_text());
    }
}

#[test]
fn color_texts_and_parse_forms() {
    assert_eq!(Color::Named(3).to_text(), "yellow");
    assert_eq!(Color::Named(14).to_text(), "bright-cyan");
    assert_eq!(Color::Indexed(208).to_text(), "idx208");
    assert_eq!(Color::Rgb(255, 136, 0).to_text(), "#ff8800");
    assert_eq!(Color::parse("idx3"), Some(Color::Named(3)));
    assert_eq!(Color::parse("#FF8800"), Some(Color::Rgb(255, 136, 0)));
    assert_eq!(Color::parse("bright-black"), Some(Color::Named(8)));
    assert_eq!(Color::parse("default"), Some(Color::Default));
    assert_eq!(Color::parse("#+f8800"), Some(Color::Rgb(0x0f, 0x88, 0x00)));
    assert_eq!(Color::parse("bright-"), None);
    assert_eq!(Color::normalize_index(7), Color::Named(7));
    assert_eq!(Color::normalize_index(16), Color::Indexed(16));
    assert_eq!(Color::default(), Color::Default);
}

#[test]
fn every_attribute_combination_reads_back() {
    for attrs in 1..256u16 {
        let s = Style {
            attrs,
            fg: Color::Named(2),
            bg: Color::Rgb(9, 8, 7),
        };
        assert_eq!(Style::parse(&s.to_text()), Some(s));
    }
}

#[test]
fn style_parse_trims_pieces_and_skips_empty_ones() {
    let s = Style::parse(" bold , ,fg=red,").unwrap();
    assert_eq!(s.attrs, attr::BOLD);
    assert_eq!(s.fg, Color::Named(1));
    assert_eq!(Style::parse("plain"), None);
    assert_eq!(Style::parse("fg=nope"), None);
    assert_eq!(Style::parse(""), Some(Style::default()));
}

#[test]
fn sgr_attribute_codes_and_resets() {
    let mut s = Style::default();
    sgr(&mut s, &[&[1], &[2], &[3], &[4], &[5], &[7], &[8], &[9]]);
    assert_eq!(s.attrs, 255);
    sgr(&mut s, &[&[22], &[23], &[24], &[25], &[27], &[28], &[29]]);
    assert_eq!(s.attrs, 0);
    sgr(&mut s, &[&[31], &[41], &[39], &[49]]);
    assert!(s.is_default());
    sgr(&mut s, &[&[97], &[107]]);
    assert_eq!((s.fg, s.bg), (Color::Named(15), Color::Named(15)));
    sgr(&mut s, &[&[0]]);
    assert!(s.is_default());
}

#[test]
fn low_palette_indices_equal_named_codes_in_both_forms() {
    for n in 0..16u16 {
        let code = if n < 8 { 30 + n } else { 90 + n - 8 };
        for (ext, named) in [(38u16, code), (48u16, code + 10)] {
            let mut semi = Style::default();
            sgr(&mut semi, &[&[ext], &[5], &[n]]);
            let mut colon = Style::default();
            sgr(&mut colon, &[&[ext, 5, n]]);
            let mut plain = Style::default();
            sgr(&mut plain, &[&[named]]);
            assert_eq!(semi, plain);
            assert_eq!(colon, plain);
        }
    }
}
