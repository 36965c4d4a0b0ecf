use ansisnap::parser::Parser;
use ansisnap::screen::{char_width, Cell, Screen};
use ansisnap::style::{attr, Color, Style};

fn screen(cols: usize, rows: usize, input: &[u8]) -> Screen {
    let mut s = Screen::new(cols, rows);
    s.feed_bytes(input);
    s
}

fn text(s: &Screen) -> Vec<String> {
    (0..s.rows()).map(|r| s.row_text(r)).collect()
}

#[test]
fn plain_lines_land_on_rows() {
    let s = screen(10, 3, b"one\r\ntwo");
    assert_eq!(text(&s), vec!["one", "two", ""]);
}

#[test]
fn bare_lf_implies_carriage_return_like_onlcr() {
    let s = screen(10, 3, b"ab\ncd");
    assert_eq!(text(&s), vec!["ab", "cd", ""]);
    let s = screen(10, 3, b"ab\x1bDcd");
    assert_eq!(text(&s), vec!["ab", "  cd", ""]);
}

#[test]
fn carriage_return_overwrites_in_place() {
    let s = screen(
        20,
        2,
        b"downloading 10%\rdownloading 99%\rdone.          \r\n",
    );
    assert_eq!(s.row_text(0), "done.");
}

#[test]
fn autowrap_flows_to_next_line() {
    let s = screen(5, 3, b"abcdefg");
    assert_eq!(text(&s), vec!["abcde", "fg", ""]);
}

#[test]
fn deferred_wrap_and_autowrap_off() {
    let mut s = screen(5, 3, b"abcde\rX");
    assert_eq!(s.row_text(0), "Xbcde");
    s.feed_bytes(b"\x1b[?7l");
    assert_eq!(s.cursor().0, 0);
    let s = screen(5, 2, b"\x1b[?7labcdefgh");
    assert_eq!(text(&s), vec!["abcdh", ""]);
}

#[test]
fn scroll_when_bottom_row_overflows() {
    let s = screen(10, 2, b"one\r\ntwo\r\nthree");
    assert_eq!(text(&s), vec!["two", "three"]);
}

#[test]
fn cup_moves_and_clamps() {
    let mut s = screen(10, 5, b"\x1b[3;4Hx");
    assert_eq!(s.row_text(2), "   x");
    s.feed_bytes(b"\x1b[99;99Hy");
    assert_eq!(s.cell(4, 9).ch, 'y');
}

#[test]
fn relative_cursor_moves() {
    let s = screen(10, 5, b"\x1b[3;3Ho\x1b[A\x1b[2Du\x1b[B\x1b[Bd");
    assert_eq!(s.row_text(1), " u");
    assert_eq!(s.row_text(2), "  o");
    assert_eq!(s.row_text(3), "  d");
}

#[test]
fn erase_line_variants() {
    let s = screen(10, 3, b"abcdefghij\x1b[1;5H\x1b[K");
    assert_eq!(s.row_text(0), "abcd");
    let s = screen(10, 3, b"abcdefghij\x1b[1;5H\x1b[1K");
    assert_eq!(s.row_text(0), "     fghij");
    let s = screen(10, 3, b"abcdefghij\x1b[2K");
    assert_eq!(s.row_text(0), "");
}

#[test]
fn erase_display_below_and_above() {
    let s = screen(5, 3, b"aaaaa\r\nbbbbb\r\nccccc\x1b[2;3H\x1b[J");
    assert_eq!(text(&s), vec!["aaaaa", "bb", ""]);
    let s = screen(5, 3, b"aaaaa\r\nbbbbb\r\nccccc\x1b[2;3H\x1b[1J");
    assert_eq!(text(&s), vec!["", "   bb", "ccccc"]);
    let mut s = screen(5, 3, b"aaaaa\r\nbbbbb\x1b[2J");
    assert_eq!(text(&s), vec!["", "", ""]);
    assert_eq!(s.cursor(), (1, 4));
    s.feed_bytes(b"z");
    assert_eq!(s.row_text(1), "    z");
}

#[test]
fn erase_chars_ech() {
    let s = screen(10, 1, b"abcdefghij\x1b[1;3H\x1b[4X");
    assert_eq!(s.row_text(0), "ab    ghij");
}

#[test]
fn insert_and_delete_chars() {
    let s = screen(10, 1, b"abcdef\x1b[1;3H\x1b[2@");
    assert_eq!(s.row_text(0), "ab  cdef");
    let s = screen(10, 1, b"abcdef\x1b[1;3H\x1b[2P");
    assert_eq!(s.row_text(0), "abef");
}

#[test]
fn insert_and_delete_lines() {
    let s = screen(5, 4, b"a\r\nb\r\nc\r\nd\x1b[2;1H\x1b[L");
    assert_eq!(text(&s), vec!["a", "", "b", "c"]);
    let s = screen(5, 4, b"a\r\nb\r\nc\r\nd\x1b[2;1H\x1b[M");
    assert_eq!(text(&s), vec!["a", "c", "d", ""]);
}

#[test]
fn reverse_index_scrolls_at_top() {
    let s = screen(5, 3, b"a\r\nb\r\nc\x1b[1;1H\x1bMx");
    assert_eq!(text(&s), vec!["x", "a", "b"]);
}

#[test]
fn scroll_region_confines_scrolling() {
    let s = screen(6, 4, b"head\x1b[2;3r\x1b[2;1Hl1\r\nl2\r\nl3\r\nl4");
    assert_eq!(s.row_text(0), "head");
    assert_eq!(text(&s), vec!["head", "l3", "l4", ""]);
}

#[test]
fn styled_print_records_pen() {
    let s = screen(10, 1, b"\x1b[1;31mhi\x1b[0m!");
    let bold_red = Style {
        attrs: attr::BOLD,
        fg: Color::Named(1),
        bg: Color::Default,
    };
    assert_eq!(s.cell(0, 0).style, bold_red);
    assert_eq!(s.cell(0, 1).style, bold_red);
    assert!(s.cell(0, 2).style.is_default());
}

#[test]
fn style_spans_merge_adjacent_cells() {
    let s = screen(10, 1, b"\x1b[32mok\x1b[0m go \x1b[32mon\x1b[0m");
    let spans = s.row_style_spans(0);
    assert_eq!(spans.len(), 2);
    assert_eq!((spans[0].0, spans[0].1), (0, 1));
    assert_eq!((spans[1].0, spans[1].1), (6, 7));
}

#[test]
fn save_restore_cursor_and_pen() {
    let s = screen(10, 2, b"\x1b[31m\x1b7\x1b[2;5H\x1b[34mB\x1b8A");
    assert_eq!(s.cell(0, 0).ch, 'A');
    assert_eq!(s.cell(0, 0).style.fg, Color::Named(1));
    assert_eq!(s.cell(1, 4).style.fg, Color::Named(4));
}

#[test]
fn alternate_screen_shows_then_restores_main_content() {
    let s = screen(10, 2, b"main\x1b[?1049hTUI");
    assert_eq!(text(&s), vec!["TUI", ""]);
    let s = screen(10, 2, b"main\x1b[?1049htui-frame\x1b[?1049l");
    assert_eq!(text(&s), vec!["main", ""]);
    assert_eq!(s.cursor(), (0, 4));
}

#[test]
fn full_reset_clears_everything() {
    let s = screen(6, 2, b"\x1b[31mhello\x1b[2;3r\x1bcx");
    assert_eq!(text(&s), vec!["x", ""]);
    assert!(s.cell(0, 0).style.is_default());
}

#[test]
fn tabs_hit_eight_column_stops_and_backspace_never_erases() {
    let s = screen(20, 1, b"a\tb\tc");
    assert_eq!(s.row_text(0), "a       b       c");
    let s = screen(10, 1, b"ab\x08X");
    assert_eq!(s.row_text(0), "aX");
}

#[test]
fn wide_char_occupies_two_cells() {
    let s = screen(10, 1, "日本".as_bytes());
    assert_eq!(s.row_text(0), "日本");
    assert_eq!(s.cell(0, 0).width, 2);
    assert_eq!(s.cell(0, 1).width, 0);
    assert_eq!(s.cursor(), (0, 4));
}

#[test]
fn wide_char_at_last_column_wraps_early() {
    let s = screen(6, 2, "abcde字".as_bytes());
    assert_eq!(text(&s), vec!["abcde", "字"]);
}

#[test]
fn overwriting_half_a_wide_char_blanks_the_other_half() {
    let s = screen(10, 1, "字\x1b[1;1HX".as_bytes());
    assert_eq!(s.row_text(0), "X");
    assert_eq!(s.cell(0, 1).ch, ' ');
    assert_eq!(s.cell(0, 1).width, 1);
}

#[test]
fn cursor_up_stops_at_scroll_region_top() {
    let s = screen(6, 4, b"\x1b[2;3r\x1b[3;1H\x1b[9Ax");
    assert_eq!(s.cursor().0, 1);
    assert_eq!(s.row_text(1), "x");
}

#[test]
fn combining_marks_are_dropped_not_printed() {
    let s = screen(10, 1, "e\u{0301}!".as_bytes());
    assert_eq!(s.row_text(0), "e!");
}

#[test]
fn sizes_are_clamped_to_one_through_a_thousand() {
    let s = Screen::new(0, 5000);
    assert_eq!((s.cols(), s.rows()), (1, 1000));
    assert_eq!(s.cursor(), (0, 0));
    assert!(s.cell(0, 0).is_blank());
}

#[test]
fn blank_cell_and_widths() {
    let c = Cell::blank();
    assert!(c.is_blank());
    assert_eq!((c.ch, c.width), (' ', 1));
    assert!(c.style.is_default());
    assert_eq!(char_width('a'), 1);
    assert_eq!(char_width('字'), 2);
    assert_eq!(char_width('\u{0301}'), 0);
    assert_eq!(char_width('😀'), 2);
}

// Applying actions one at a time, checking each first, gives the same
// screen as feeding the bytes.
#[test]
fn apply_one_by_one_matches_feed_bytes() {
    let input = "ab\x1b[2;3Hc\x1b[31m字\x1b[1K\r\nxyz\x1b[?1049hq".as_bytes();
    let fed = screen(8, 3, input);
    let mut s = Screen::new(8, 3);
    for a in Parser::parse(input) {
        assert!(s.can_apply(&a));
        s.apply(&a);
    }
    assert_eq!(text(&s), text(&fed));
    assert_eq!(s.cursor(), fed.cursor());
}

#[test]
fn wide_char_cannot_be_applied_on_a_one_column_screen() {
    let s = Screen::new(1, 2);
    let wide = Parser::parse("字".as_bytes());
    assert!(!s.can_apply(&wide[0]));
    let narrow = Parser::parse(b"a");
    assert!(s.can_apply(&narrow[0]));
}
