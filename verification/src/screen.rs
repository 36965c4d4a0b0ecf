//! The terminal emulator: a fixed-size cell grid that applies parsed actions.
//!
//! This is the piece that makes ansisnap different from byte-level snapshot
//! tools: `\r`-overdrawn progress bars, cursor-addressed TUI frames and
//! erase-line repaints all collapse into the *final visible screen*, which is
//! what a human would actually see and what a test should assert on.
//!
//! Implemented VT/xterm subset: cursor movement (CUP/CUU/CUD/CUF/CUB/CNL/CPL/
//! CHA/VPA), erases (ED/EL/ECH), edits (ICH/DCH/IL/DL), scrolling (IND/RI/NEL/
//! SU/SD, DECSTBM scroll regions), SGR styling, autowrap with deferred wrap,
//! tab stops, save/restore cursor, and the alternate screen buffer.
//!
//! The grid is one row-major sequence of `rows * cols` cells. The effect of
//! every action is specified by [`apply_spec`] on the abstract [`TermView`].

use vstd::prelude::*;
use crate::parser::{Action, ActionView, Param, Parser, param_value, params_view, parse_spec};
use crate::style::{Style, default_style, sgr_spec};
use crate::text::{string_of, trim_end_space_chars, trim_end_spaces};

verus! {

/// One grid cell. `width == 0` marks the continuation cell of a wide
/// character; `width == 2` marks its head.
#[derive(Debug, Clone, Copy, PartialEq, Eq, Structural)]
pub struct Cell {
    pub ch: char,
    pub style: Style,
    pub width: u8,
}

/// An empty cell in the default style.
pub open spec fn blank_cell() -> Cell {
    Cell { ch: ' ', style: default_style(), width: 1 }
}

impl Cell {
    pub fn blank() -> (c: Cell)
        ensures
            c == blank_cell(),
    {
        Cell { ch: ' ', style: Style::default(), width: 1 }
    }

    pub fn is_blank(&self) -> (r: bool)
        ensures
            r == (self.ch == ' ' && self.style == default_style()),
    {
        self.ch == ' ' && self.style.is_default()
    }
}

/// Display width of a character on a terminal: 0 for combining marks and
/// zero-width characters, 2 for East Asian wide characters (CJK, Hangul,
/// kana, fullwidth forms, emoji), 1 otherwise.
pub open spec fn char_width_spec(c: char) -> u8 {
    let u = c as u32;
    if (0x0300 <= u <= 0x036f) || (0x1ab0 <= u <= 0x1aff) || (0x20d0 <= u <= 0x20ff) || (0x200b <= u
        <= 0x200f) || (0xfe00 <= u <= 0xfe0f) || (0xfe20 <= u <= 0xfe2f) || u == 0xfeff {
        0
    } else if (0x1100 <= u <= 0x115f) || (0x2e80 <= u <= 0x303e) || (0x3041 <= u <= 0x33ff) || (0x3400
        <= u <= 0x4dbf) || (0x4e00 <= u <= 0x9fff) || (0xa000 <= u <= 0xa4cf) || (0xac00 <= u
        <= 0xd7a3) || (0xf900 <= u <= 0xfaff) || (0xfe30 <= u <= 0xfe4f) || (0xff00 <= u <= 0xff60)
        || (0xffe0 <= u <= 0xffe6) || (0x1f300 <= u <= 0x1f64f) || (0x1f680 <= u <= 0x1f6ff) || (
    0x1f900 <= u <= 0x1f9ff) || (0x20000 <= u <= 0x2fffd) || (0x30000 <= u <= 0x3fffd) {
        2
    } else {
        1
    }
}

/// Display width of a character on a terminal: 0 (combining/zero-width),
/// 1, or 2 (East Asian wide).
pub fn char_width(c: char) -> (w: u8)
    ensures
        w == char_width_spec(c),
{
    let u = c as u32;
    if (0x0300 <= u && u <= 0x036f) || (0x1ab0 <= u && u <= 0x1aff) || (0x20d0 <= u && u <= 0x20ff)
        || (0x200b <= u && u <= 0x200f) || (0xfe00 <= u && u <= 0xfe0f) || (0xfe20 <= u && u
        <= 0xfe2f) || u == 0xfeff {
        return 0;
    }
    if (0x1100 <= u && u <= 0x115f) || (0x2e80 <= u && u <= 0x303e) || (0x3041 <= u && u <= 0x33ff)
        || (0x3400 <= u && u <= 0x4dbf) || (0x4e00 <= u && u <= 0x9fff) || (0xa000 <= u && u
        <= 0xa4cf) || (0xac00 <= u && u <= 0xd7a3) || (0xf900 <= u && u <= 0xfaff) || (0xfe30 <= u
        && u <= 0xfe4f) || (0xff00 <= u && u <= 0xff60) || (0xffe0 <= u && u <= 0xffe6) || (0x1f300
        <= u && u <= 0x1f64f) || (0x1f680 <= u && u <= 0x1f6ff) || (0x1f900 <= u && u <= 0x1f9ff)
        || (0x20000 <= u && u <= 0x2fffd) || (0x30000 <= u && u <= 0x3fffd) {
        return 2;
    }
    1
}

/// A saved cursor position and pen (`ESC 7` / `CSI s`).
#[derive(Debug, Clone, Copy)]
pub struct SavedCursor {
    pub row: usize,
    pub col: usize,
    pub pen: Style,
}

/// The main screen while the alternate screen is shown.
pub struct AltView {
    pub grid: Seq<Cell>,
    pub row: nat,
    pub col: nat,
    pub pen: Style,
}

/// The abstract state of a [`Screen`]. `grid` is row-major: the cell at
/// `(r, c)` is `grid[r * cols + c]`.
pub struct TermView {
    pub cols: nat,
    pub rows: nat,
    pub grid: Seq<Cell>,
    pub row: nat,
    pub col: nat,
    pub pen: Style,
    /// Deferred wrap: after printing in the last column the cursor parks on
    /// that column and only wraps when the next glyph arrives.
    pub wrap_pending: bool,
    pub autowrap: bool,
    /// Scroll region, both rows inclusive.
    pub top: nat,
    pub bottom: nat,
    pub saved: Option<SavedCursor>,
    pub alt: Option<AltView>,
}

/// Reachable screen states: sizes within 1–1000, cursor on the grid,
/// scroll region inside the screen.
pub open spec fn term_wf(t: TermView) -> bool {
    &&& 1 <= t.cols <= 1000
    &&& 1 <= t.rows <= 1000
    &&& t.grid.len() == t.rows * t.cols
    &&& t.row < t.rows
    &&& t.col < t.cols
    &&& t.top <= t.bottom < t.rows
    &&& (t.alt matches Some(a) ==> a.grid.len() == t.rows * t.cols && a.row < t.rows && a.col
        < t.cols)
}

/// Cells `start .. end` blanked.
pub open spec fn blank_span(g: Seq<Cell>, start: nat, end: nat) -> Seq<Cell> {
    Seq::new(g.len(), |i: int| if start <= i < end { blank_cell() } else { g[i] })
}

/// Cells `start .. end` moved `m` places towards `start`; the cells freed at
/// the end are blanked.
pub open spec fn shift_left(g: Seq<Cell>, start: nat, end: nat, m: nat) -> Seq<Cell> {
    Seq::new(
        g.len(),
        |i: int|
            if start <= i < end {
                if i + m < end {
                    g[i + m]
                } else {
                    blank_cell()
                }
            } else {
                g[i]
            },
    )
}

/// Cells `start .. end` moved `m` places towards `end`; the cells freed at
/// the start are blanked.
pub open spec fn shift_right(g: Seq<Cell>, start: nat, end: nat, m: nat) -> Seq<Cell> {
    Seq::new(
        g.len(),
        |i: int|
            if start <= i < end {
                if i >= start + m {
                    g[i - m]
                } else {
                    blank_cell()
                }
            } else {
                g[i]
            },
    )
}

pub open spec fn min_nat(a: nat, b: nat) -> nat {
    if a < b {
        a
    } else {
        b
    }
}

pub open spec fn max_nat(a: nat, b: nat) -> nat {
    if a > b {
        a
    } else {
        b
    }
}

pub open spec fn sat_sub(a: nat, b: nat) -> nat {
    if a > b {
        (a - b) as nat
    } else {
        0
    }
}

/// A fresh screen of the given (already clamped) size.
pub open spec fn new_term(cols: nat, rows: nat) -> TermView {
    TermView {
        cols,
        rows,
        grid: Seq::new(rows * cols, |i: int| blank_cell()),
        row: 0,
        col: 0,
        pen: default_style(),
        wrap_pending: false,
        autowrap: true,
        top: 0,
        bottom: (rows - 1) as nat,
        saved: None,
        alt: None,
    }
}

/// `n` clamped to 1–1000.
pub open spec fn clamp_dim(n: nat) -> nat {
    if n < 1 {
        1
    } else if n > 1000 {
        1000
    } else {
        n
    }
}

pub open spec fn set_at(t: TermView, i: int, cell: Cell) -> TermView {
    TermView { grid: t.grid.update(i, cell), ..t }
}

/// If `(r, c)` holds part of a wide character, both halves are blanked.
pub open spec fn clear_wide_at(t: TermView, r: nat, c: nat) -> TermView {
    if c >= t.cols {
        t
    } else {
        let i = (r * t.cols + c) as int;
        let cell = t.grid[i];
        if cell.width == 2 && c + 1 < t.cols {
            set_at(t, i + 1, blank_cell())
        } else if cell.width == 0 && c > 0 {
            set_at(t, i - 1, blank_cell())
        } else {
            t
        }
    }
}

/// Rows `top ..= t.bottom` scrolled up by `n` (at most the region height).
pub open spec fn scroll_up_region(t: TermView, top: nat, n: nat) -> TermView {
    let k = min_nat(n, (t.bottom - top + 1) as nat);
    TermView {
        grid: shift_left(t.grid, top * t.cols, (t.bottom + 1) * t.cols, k * t.cols),
        ..t
    }
}

/// Rows `top ..= t.bottom` scrolled down by `n` (at most the region height).
pub open spec fn scroll_down_region(t: TermView, top: nat, n: nat) -> TermView {
    let k = min_nat(n, (t.bottom - top + 1) as nat);
    TermView {
        grid: shift_right(t.grid, top * t.cols, (t.bottom + 1) * t.cols, k * t.cols),
        ..t
    }
}

/// Cursor down one row, scrolling the region when on its bottom row.
pub open spec fn line_feed(t: TermView) -> TermView {
    let t1 = if t.row == t.bottom {
        scroll_up_region(t, t.top, 1)
    } else if t.row + 1 < t.rows {
        TermView { row: t.row + 1, ..t }
    } else {
        t
    };
    TermView { wrap_pending: false, ..t1 }
}

/// Cursor up one row, scrolling the region down when on its top row.
pub open spec fn reverse_line_feed(t: TermView) -> TermView {
    let t1 = if t.row == t.top {
        scroll_down_region(t, t.top, 1)
    } else {
        TermView { row: sat_sub(t.row, 1), ..t }
    };
    TermView { wrap_pending: false, ..t1 }
}

/// A pending wrap is resolved before the next glyph.
pub open spec fn print_wrap(t: TermView) -> TermView {
    if t.wrap_pending {
        if t.autowrap {
            line_feed(TermView { col: 0, wrap_pending: false, ..t })
        } else {
            TermView { col: (t.cols - 1) as nat, wrap_pending: false, ..t }
        }
    } else {
        t
    }
}

/// Writing a glyph of width `w` (1 or 2) at the cursor.
pub open spec fn print_write(t: TermView, c: char, w: nat) -> TermView {
    let r = t.row;
    let col = t.col;
    let i = (r * t.cols + col) as int;
    let t2 = clear_wide_at(t, r, col);
    let t3 = if w == 2 {
        clear_wide_at(t2, r, col + 1)
    } else {
        t2
    };
    let t4 = set_at(t3, i, Cell { ch: c, style: t.pen, width: w as u8 });
    let t5 = if w == 2 {
        set_at(t4, i + 1, Cell { ch: ' ', style: t.pen, width: 0 })
    } else {
        t4
    };
    if col + w >= t.cols {
        TermView { col: (t.cols - 1) as nat, wrap_pending: true, ..t5 }
    } else {
        TermView { col: col + w, ..t5 }
    }
}

/// A wide glyph's second half must land inside the grid.
pub open spec fn write_defined(t: TermView, w: nat) -> bool {
    w == 2 ==> t.row * t.cols + t.col + 1 < t.rows * t.cols
}

/// Printing a character. Zero-width characters are dropped; a wide
/// character that does not fit on the line wraps early (or is dropped with
/// autowrap off).
pub open spec fn print_spec(t: TermView, c: char) -> TermView {
    let w = char_width_spec(c) as nat;
    if w == 0 {
        t
    } else {
        let t1 = print_wrap(t);
        if w == 2 && t1.col + 2 > t1.cols {
            if t1.autowrap {
                print_write(line_feed(TermView { col: 0, ..t1 }), c, w)
            } else {
                t1
            }
        } else {
            print_write(t1, c, w)
        }
    }
}

/// Printing is defined unless a wide glyph's second half would fall past
/// the last cell (possible only on a one-column screen).
pub open spec fn print_defined(t: TermView, c: char) -> bool {
    let w = char_width_spec(c) as nat;
    w == 0 || {
        let t1 = print_wrap(t);
        if w == 2 && t1.col + 2 > t1.cols {
            t1.autowrap ==> write_defined(line_feed(TermView { col: 0, ..t1 }), w)
        } else {
            write_defined(t1, w)
        }
    }
}

/// C0 controls. LF, VT and FF also return the carriage (captures come
/// through a pipe, where the tty's ONLCR translation is absent).
pub open spec fn control_spec(t: TermView, b: u8) -> TermView {
    if b == 0x0a || b == 0x0b || b == 0x0c {
        TermView { col: 0, ..line_feed(t) }
    } else if b == 0x0d {
        TermView { col: 0, wrap_pending: false, ..t }
    } else if b == 0x08 {
        TermView { col: sat_sub(t.col, 1), wrap_pending: false, ..t }
    } else if b == 0x09 {
        TermView { col: min_nat((t.col / 8 + 1) * 8, (t.cols - 1) as nat), wrap_pending: false, ..t }
    } else {
        t
    }
}

pub open spec fn save_cursor_spec(t: TermView) -> TermView {
    TermView { saved: Some(SavedCursor { row: t.row as usize, col: t.col as usize, pen: t.pen }), ..t }
}

pub open spec fn restore_cursor_spec(t: TermView) -> TermView {
    match t.saved {
        Some(s) => TermView {
            row: min_nat(s.row as nat, (t.rows - 1) as nat),
            col: min_nat(s.col as nat, (t.cols - 1) as nat),
            pen: s.pen,
            wrap_pending: false,
            ..t
        },
        None => TermView { row: 0, col: 0, pen: default_style(), wrap_pending: false, ..t },
    }
}

/// Non-CSI escapes: IND, NEL, RI, save/restore cursor, full reset.
pub open spec fn esc_spec(t: TermView, intermediate: Option<char>, f: char) -> TermView {
    if intermediate is Some {
        t
    } else if f == 'D' {
        line_feed(t)
    } else if f == 'E' {
        TermView { col: 0, ..line_feed(t) }
    } else if f == 'M' {
        reverse_line_feed(t)
    } else if f == '7' {
        save_cursor_spec(t)
    } else if f == '8' {
        restore_cursor_spec(t)
    } else if f == 'c' {
        new_term(t.cols, t.rows)
    } else {
        t
    }
}

pub open spec fn enter_alt_spec(t: TermView) -> TermView {
    if t.alt is Some {
        t
    } else {
        TermView {
            alt: Some(AltView { grid: t.grid, row: t.row, col: t.col, pen: t.pen }),
            grid: Seq::new(t.rows * t.cols, |i: int| blank_cell()),
            row: 0,
            col: 0,
            wrap_pending: false,
            ..t
        }
    }
}

pub open spec fn leave_alt_spec(t: TermView) -> TermView {
    match t.alt {
        Some(m) => TermView {
            grid: m.grid,
            row: m.row,
            col: m.col,
            pen: m.pen,
            wrap_pending: false,
            alt: None,
            ..t
        },
        None => t,
    }
}

/// One DEC private mode parameter.
pub open spec fn dec_one(t: TermView, v: u16, f: char) -> TermView {
    if v == 7 && f == 'h' {
        TermView { autowrap: true, ..t }
    } else if v == 7 && f == 'l' {
        TermView { autowrap: false, ..t }
    } else if (v == 47 || v == 1047 || v == 1049) && f == 'h' {
        enter_alt_spec(t)
    } else if (v == 47 || v == 1047 || v == 1049) && f == 'l' {
        leave_alt_spec(t)
    } else {
        t
    }
}

/// DEC private modes (`CSI ? ... h/l`), parameters in order.
pub open spec fn dec_private_spec(t: TermView, ps: Seq<Seq<u16>>, f: char) -> TermView
    decreases ps.len(),
{
    if ps.len() == 0 {
        t
    } else {
        dec_one(dec_private_spec(t, ps.drop_last(), f), param_value(ps.last()), f)
    }
}

pub open spec fn erase_line_spec(t: TermView, mode: nat) -> TermView {
    if mode > 2 {
        t
    } else {
        let from = if mode == 1 || mode == 2 {
            0
        } else {
            t.col
        };
        let to = if mode == 1 {
            t.col
        } else {
            (t.cols - 1) as nat
        };
        let t1 = clear_wide_at(clear_wide_at(t, t.row, from), t.row, to);
        TermView {
            grid: blank_span(t1.grid, t.row * t.cols + from, t.row * t.cols + to + 1),
            ..t1
        }
    }
}

pub open spec fn erase_display_spec(t: TermView, mode: nat) -> TermView {
    if mode == 0 {
        let t1 = erase_line_spec(t, 0);
        TermView { grid: blank_span(t1.grid, (t.row + 1) * t.cols, t.rows * t.cols), ..t1 }
    } else if mode == 1 {
        let t1 = erase_line_spec(t, 1);
        TermView { grid: blank_span(t1.grid, 0, t.row * t.cols), ..t1 }
    } else if mode == 2 || mode == 3 {
        TermView { grid: blank_span(t.grid, 0, t.rows * t.cols), ..t }
    } else {
        t
    }
}

pub open spec fn erase_chars_spec(t: TermView, n: nat) -> TermView {
    let end = min_nat(t.col + n, t.cols);
    let t1 = clear_wide_at(t, t.row, t.col);
    let t2 = if end > 0 {
        clear_wide_at(t1, t.row, (end - 1) as nat)
    } else {
        t1
    };
    TermView { grid: blank_span(t2.grid, t.row * t.cols + t.col, t.row * t.cols + end), ..t2 }
}

pub open spec fn insert_lines_spec(t: TermView, n: nat) -> TermView {
    if t.row < t.top || t.row > t.bottom {
        t
    } else {
        TermView { col: 0, ..scroll_down_region(t, t.row, n) }
    }
}

pub open spec fn delete_lines_spec(t: TermView, n: nat) -> TermView {
    if t.row < t.top || t.row > t.bottom {
        t
    } else {
        TermView { col: 0, ..scroll_up_region(t, t.row, n) }
    }
}

pub open spec fn delete_chars_spec(t: TermView, n: nat) -> TermView {
    let k = min_nat(n, (t.cols - t.col) as nat);
    let t1 = clear_wide_at(t, t.row, t.col);
    TermView {
        grid: shift_left(t1.grid, t.row * t.cols + t.col, t.row * t.cols + t.cols, k),
        ..t1
    }
}

pub open spec fn insert_chars_spec(t: TermView, n: nat) -> TermView {
    let k = min_nat(n, (t.cols - t.col) as nat);
    let t1 = clear_wide_at(t, t.row, t.col);
    TermView {
        grid: shift_right(t1.grid, t.row * t.cols + t.col, t.row * t.cols + t.cols, k),
        ..t1
    }
}

/// DECSTBM with 1-based bounds (0 = default); an invalid region is ignored.
pub open spec fn set_scroll_region_spec(t: TermView, top: nat, bottom: nat) -> TermView {
    let top2 = (max_nat(top, 1) - 1) as nat;
    let bottom2 = ((if bottom == 0 {
        t.rows
    } else {
        bottom
    }) - 1) as nat;
    if top2 < bottom2 && bottom2 < t.rows {
        TermView { top: top2, bottom: bottom2, row: 0, col: 0, ..t }
    } else {
        t
    }
}

/// Parameter `i` as a number, 0 when absent.
pub open spec fn csi_p(ps: Seq<Seq<u16>>, i: int) -> nat {
    if 0 <= i < ps.len() {
        param_value(ps[i]) as nat
    } else {
        0
    }
}

/// Parameter `i` as a count: at least 1.
pub open spec fn csi_n(ps: Seq<Seq<u16>>, i: int) -> nat {
    max_nat(csi_p(ps, i), 1)
}

/// Cursor-up cannot leave the scroll region if it started inside it.
pub open spec fn top_bound(t: TermView) -> nat {
    if t.row >= t.top {
        t.top
    } else {
        0
    }
}

pub open spec fn bottom_bound(t: TermView) -> nat {
    if t.row <= t.bottom {
        t.bottom
    } else {
        (t.rows - 1) as nat
    }
}

/// A plain CSI sequence, by final byte.
pub open spec fn csi_dispatch(t: TermView, ps: Seq<Seq<u16>>, f: char) -> TermView {
    let n = csi_n(ps, 0);
    if f == 'A' {
        TermView { row: max_nat(sat_sub(t.row, n), top_bound(t)), ..t }
    } else if f == 'B' {
        TermView { row: min_nat(t.row + n, bottom_bound(t)), ..t }
    } else if f == 'C' {
        TermView { col: min_nat(t.col + n, (t.cols - 1) as nat), ..t }
    } else if f == 'D' {
        TermView { col: sat_sub(t.col, n), ..t }
    } else if f == 'E' {
        TermView { row: min_nat(t.row + n, bottom_bound(t)), col: 0, ..t }
    } else if f == 'F' {
        TermView { row: max_nat(sat_sub(t.row, n), top_bound(t)), col: 0, ..t }
    } else if f == 'G' {
        TermView { col: min_nat((n - 1) as nat, (t.cols - 1) as nat), ..t }
    } else if f == 'H' || f == 'f' {
        TermView {
            row: min_nat((n - 1) as nat, (t.rows - 1) as nat),
            col: min_nat((csi_n(ps, 1) - 1) as nat, (t.cols - 1) as nat),
            ..t
        }
    } else if f == 'd' {
        TermView { row: min_nat((n - 1) as nat, (t.rows - 1) as nat), ..t }
    } else if f == 'J' {
        erase_display_spec(t, csi_p(ps, 0))
    } else if f == 'K' {
        erase_line_spec(t, csi_p(ps, 0))
    } else if f == 'L' {
        insert_lines_spec(t, n)
    } else if f == 'M' {
        delete_lines_spec(t, n)
    } else if f == 'P' {
        delete_chars_spec(t, n)
    } else if f == '@' {
        insert_chars_spec(t, n)
    } else if f == 'X' {
        erase_chars_spec(t, n)
    } else if f == 'S' {
        scroll_up_region(t, t.top, n)
    } else if f == 'T' {
        scroll_down_region(t, t.top, n)
    } else if f == 'm' {
        TermView { pen: sgr_spec(t.pen, ps), ..t }
    } else if f == 'r' {
        set_scroll_region_spec(t, csi_p(ps, 0), csi_p(ps, 1))
    } else if f == 's' {
        save_cursor_spec(t)
    } else if f == 'u' {
        restore_cursor_spec(t)
    } else {
        t
    }
}

/// CSI sequences: with an intermediate byte or a private marker other than
/// `?` they have no effect; every plain one clears a pending wrap.
pub open spec fn csi_spec(
    t: TermView,
    private: Option<char>,
    ps: Seq<Seq<u16>>,
    intermediate: Option<char>,
    f: char,
) -> TermView {
    if intermediate is Some {
        t
    } else if private == Some('?') {
        dec_private_spec(t, ps, f)
    } else if private is Some {
        t
    } else {
        csi_dispatch(TermView { wrap_pending: false, ..t }, ps, f)
    }
}

/// The effect of one action on the screen. OSC strings never reach it.
pub open spec fn apply_spec(t: TermView, a: ActionView) -> TermView {
    match a {
        ActionView::Print(c) => print_spec(t, c),
        ActionView::Control(b) => control_spec(t, b),
        ActionView::Csi { private, params, intermediate, final_byte } => csi_spec(
            t,
            private,
            params,
            intermediate,
            final_byte,
        ),
        ActionView::Esc { intermediate, final_byte } => esc_spec(t, intermediate, final_byte),
        ActionView::Osc(_) => t,
    }
}

/// An action is applicable unless it prints a wide glyph that cannot fit.
pub open spec fn apply_defined(t: TermView, a: ActionView) -> bool {
    match a {
        ActionView::Print(c) => print_defined(t, c),
        _ => true,
    }
}

/// A sequence of actions applied in order.
pub open spec fn feed_spec(t: TermView, acts: Seq<ActionView>) -> TermView
    decreases acts.len(),
{
    if acts.len() == 0 {
        t
    } else {
        apply_spec(feed_spec(t, acts.drop_last()), acts.last())
    }
}

/// Every action of the sequence is applicable in turn.
pub open spec fn feed_defined(t: TermView, acts: Seq<ActionView>) -> bool
    decreases acts.len(),
{
    if acts.len() == 0 {
        true
    } else {
        feed_defined(t, acts.drop_last()) && apply_defined(feed_spec(t, acts.drop_last()), acts.last())
    }
}

/// The characters a row shows: each cell's character except wide-char
/// continuation cells.
pub open spec fn visible_chars(cells: Seq<Cell>) -> Seq<char>
    decreases cells.len(),
{
    if cells.len() == 0 {
        seq![]
    } else if cells.last().width != 0 {
        visible_chars(cells.drop_last()).push(cells.last().ch)
    } else {
        visible_chars(cells.drop_last())
    }
}

/// The cells of row `r`.
pub open spec fn row_cells(t: TermView, r: int) -> Seq<Cell> {
    t.grid.subrange(r * t.cols, r * t.cols + t.cols)
}

/// The visible text of a row, trailing blanks trimmed.
pub open spec fn row_text_spec(t: TermView, r: int) -> Seq<char> {
    trim_end_spaces(visible_chars(row_cells(t, r)))
}

/// `spans` are exactly the maximal runs of one non-default style in
/// `styles`, left to right: `(start, end inclusive, style)`.
pub open spec fn style_runs(styles: Seq<Style>, spans: Seq<(usize, usize, Style)>) -> bool {
    &&& forall|k: int|
        0 <= k < spans.len() ==> {
            let (s, e, st) = #[trigger] spans[k];
            &&& s <= e < styles.len()
            &&& st != default_style()
            &&& (forall|j: int| s <= j <= e ==> styles[j] == st)
            &&& (s == 0 || styles[s - 1] != st)
            &&& (e + 1 == styles.len() || styles[e + 1] != st)
        }
    &&& forall|k: int| 0 <= k < spans.len() - 1 ==> (#[trigger] spans[k]).1 < spans[k + 1].0
    &&& forall|j: int|
        0 <= j < styles.len() && styles[j] != default_style() ==> exists|k: int|
            0 <= k < spans.len() && (#[trigger] spans[k]).0 <= j <= spans[k].1
}

/// The styles of row `r`.
pub open spec fn row_styles(t: TermView, r: int) -> Seq<Style> {
    row_cells(t, r).map_values(|c: Cell| c.style)
}

pub proof fn lemma_index(rows: nat, cols: nat, r: nat, c: nat)
    requires
        r < rows,
        c < cols,
    ensures
        r * cols + c < rows * cols,
        r * cols + cols <= rows * cols,
        (r + 1) * cols == r * cols + cols,
        0 <= r * cols,
{
    assert(r * cols + cols <= rows * cols) by (nonlinear_arith)
        requires
            r < rows,
    ;
    assert((r + 1) * cols == r * cols + cols) by (nonlinear_arith);
}

pub proof fn lemma_grid_size(rows: nat, cols: nat)
    requires
        rows <= 1000,
        cols <= 1000,
    ensures
        rows * cols <= 1_000_000,
{
    assert(rows * cols <= 1_000_000) by (nonlinear_arith)
        requires
            rows <= 1000,
            cols <= 1000,
    ;
}

pub proof fn lemma_rows_le(rows: nat, cols: nat, r: nat)
    requires
        r <= rows,
    ensures
        r * cols <= rows * cols,
{
    assert(r * cols <= rows * cols) by (nonlinear_arith)
        requires
            r <= rows,
    ;
}

#[derive(Debug, Clone)]
struct AltState {
    grid: Vec<Cell>,
    cur_row: usize,
    cur_col: usize,
    pen: Style,
}

/// A fixed-size terminal screen.
pub struct Screen {
    cols: usize,
    rows: usize,
    grid: Vec<Cell>,
    cur_row: usize,
    cur_col: usize,
    pen: Style,
    wrap_pending: bool,
    autowrap: bool,
    scroll_top: usize,
    scroll_bottom: usize,
    saved: Option<SavedCursor>,
    alt: Option<AltState>,
}

closed spec fn alt_view(a: Option<AltState>) -> Option<AltView> {
    match a {
        Some(s) => Some(AltView { grid: s.grid@, row: s.cur_row as nat, col: s.cur_col as nat, pen: s.pen }),
        None => None,
    }
}

impl View for Screen {
    type V = TermView;

    closed spec fn view(&self) -> TermView {
        TermView {
            cols: self.cols as nat,
            rows: self.rows as nat,
            grid: self.grid@,
            row: self.cur_row as nat,
            col: self.cur_col as nat,
            pen: self.pen,
            wrap_pending: self.wrap_pending,
            autowrap: self.autowrap,
            top: self.scroll_top as nat,
            bottom: self.scroll_bottom as nat,
            saved: self.saved,
            alt: alt_view(self.alt),
        }
    }
}

fn blank_cells(n: usize) -> (v: Vec<Cell>)
    ensures
        v@ == Seq::new(n as nat, |i: int| blank_cell()),
{
    let mut v: Vec<Cell> = Vec::new();
    let mut i: usize = 0;
    while i < n
        invariant
            i <= n,
            v@ == Seq::new(i as nat, |j: int| blank_cell()),
        decreases n - i,
    {
        v.push(Cell::blank());
        i += 1;
        assert(v@ =~= Seq::new(i as nat, |j: int| blank_cell()));
    }
    v
}

impl Screen {
    /// The screen's state is reachable: see [`term_wf`].
    pub closed spec fn wf(&self) -> bool {
        term_wf(self@)
    }

    /// A blank screen; both sizes are clamped to 1–1000.
    pub fn new(cols: usize, rows: usize) -> (s: Screen)
        ensures
            s.wf(),
            s@ == new_term(clamp_dim(cols as nat), clamp_dim(rows as nat)),
    {
        let cols = if cols < 1 {
            1
        } else if cols > 1000 {
            1000
        } else {
            cols
        };
        let rows = if rows < 1 {
            1
        } else if rows > 1000 {
            1000
        } else {
            rows
        };
        assert(rows * cols <= 1000 * 1000) by (nonlinear_arith)
            requires
                rows <= 1000,
                cols <= 1000,
        ;
        assert(rows * cols >= 1) by (nonlinear_arith)
            requires
                rows >= 1,
                cols >= 1,
        ;
        let s = Screen {
            cols,
            rows,
            grid: blank_cells(rows * cols),
            cur_row: 0,
            cur_col: 0,
            pen: Style::default(),
            wrap_pending: false,
            autowrap: true,
            scroll_top: 0,
            scroll_bottom: rows - 1,
            saved: None,
            alt: None,
        };
        s
    }

    pub fn cols(&self) -> (n: usize)
        ensures
            n == self@.cols,
    {
        self.cols
    }

    pub fn rows(&self) -> (n: usize)
        ensures
            n == self@.rows,
    {
        self.rows
    }

    pub fn cursor(&self) -> (rc: (usize, usize))
        ensures
            rc.0 == self@.row,
            rc.1 == self@.col,
    {
        (self.cur_row, self.cur_col)
    }

    /// The cell at row-major position `row * cols + col` (in the grid for
    /// any `row < rows`, `col < cols`).
    pub fn cell(&self, row: usize, col: usize) -> (c: &Cell)
        requires
            self.wf(),
            row * self@.cols + col < self@.grid.len(),
        ensures
            *c == self@.grid[row * self@.cols + col],
    {
        proof {
            lemma_grid_size(self@.rows, self@.cols);
        }
        &self.grid[row * self.cols + col]
    }

    /// The visible text of one row, trailing blanks trimmed. Wide-char
    /// continuation cells contribute nothing (the head char covers them).
    pub fn row_text(&self, row: usize) -> (s: String)
        requires
            self.wf(),
            row < self@.rows,
        ensures
            s@ == row_text_spec(self@, row as int),
    {
        proof {
            lemma_index(self@.rows, self@.cols, row as nat, 0);
            lemma_grid_size(self@.rows, self@.cols);
        }
        let base = row * self.cols;
        let ghost cells = row_cells(self@, row as int);
        let mut v: Vec<char> = Vec::new();
        let mut col: usize = 0;
        while col < self.cols
            invariant
                self.wf(),
                row < self@.rows,
                base == row * self@.cols,
                base + self@.cols <= self@.grid.len(),
                self@.grid.len() <= 1_000_000,
                cells == row_cells(self@, row as int),
                col <= self.cols,
                v@ == visible_chars(cells.take(col as int)),
            decreases self.cols - col,
        {
            let c = self.grid[base + col];
            assert(cells.take(col + 1).drop_last() == cells.take(col as int));
            assert(cells.take(col + 1).last() == c);
            if c.width != 0 {
                v.push(c.ch);
            }
            col += 1;
        }
        assert(cells.take(self.cols as int) == cells);
        let t = trim_end_space_chars(v.as_slice());
        string_of(t.as_slice())
    }

    /// Contiguous non-default style runs of one row: `(start_col, end_col
    /// inclusive, style)`.
    pub fn row_style_spans(&self, row: usize) -> (spans: Vec<(usize, usize, Style)>)
        requires
            self.wf(),
            row < self@.rows,
        ensures
            style_runs(row_styles(self@, row as int), spans@),
    {
        proof {
            lemma_index(self@.rows, self@.cols, row as nat, 0);
            lemma_grid_size(self@.rows, self@.cols);
        }
        let base = row * self.cols;
        let ghost styles = row_styles(self@, row as int);
        let mut spans: Vec<(usize, usize, Style)> = Vec::new();
        let mut start: usize = 0;
        let mut cur: Style = self.grid[base].style;
        let mut col: usize = 1;
        proof {
            lemma_spans_start(styles);
        }
        while col < self.cols
            invariant
                self.wf(),
                row < self@.rows,
                base == row * self@.cols,
                base + self@.cols <= self@.grid.len(),
                self@.grid.len() <= 1_000_000,
                styles == row_styles(self@, row as int),
                styles.len() == self.cols,
                1 <= col <= self.cols,
                start < col,
                forall|j: int| start <= j < col ==> styles[j] == cur,
                start == 0 || styles[start - 1] != cur,
                spans_complete(styles, spans@, start as int),
            decreases self.cols - col,
        {
            let st = self.grid[base + col].style;
            assert(styles[col as int] == st);
            if st != cur {
                proof {
                    lemma_close_run(styles, spans@, start as int, col as int, cur);
                }
                if !cur.is_default() {
                    spans.push((start, col - 1, cur));
                }
                start = col;
                cur = st;
            }
            col += 1;
        }
        proof {
            lemma_close_run(styles, spans@, start as int, self.cols as int, cur);
        }
        if !cur.is_default() {
            spans.push((start, self.cols - 1, cur));
        }
        spans
    }
}


impl Screen {
    fn set_cell_at(&mut self, i: usize, cell: Cell)
        requires
            old(self).wf(),
            i < old(self)@.grid.len(),
        ensures
            final(self).wf(),
            final(self)@ == set_at(old(self)@, i as int, cell),
    {
        self.grid.set(i, cell);
    }

    /// If (row, col) holds part of a wide char, blank both halves.
    fn clear_wide_at(&mut self, row: usize, col: usize)
        requires
            old(self).wf(),
            row < old(self)@.rows,
        ensures
            final(self).wf(),
            final(self)@ == clear_wide_at(old(self)@, row as nat, col as nat),
    {
        if col >= self.cols {
            return;
        }
        proof {
            lemma_index(self@.rows, self@.cols, row as nat, col as nat);
            lemma_grid_size(self@.rows, self@.cols);
        }
        let i = row * self.cols + col;
        let cell = self.grid[i];
        if cell.width == 2 && col + 1 < self.cols {
            self.set_cell_at(i + 1, Cell::blank());
        } else if cell.width == 0 && col > 0 {
            self.set_cell_at(i - 1, Cell::blank());
        }
    }

    /// Cells `start .. end` blanked.
    fn blank_range(&mut self, start: usize, end: usize)
        requires
            old(self).wf(),
            start <= end <= old(self)@.grid.len(),
        ensures
            final(self).wf(),
            final(self)@ == (TermView { grid: blank_span(old(self)@.grid, start as nat, end as nat), ..old(self)@ }),
    {
        let ghost g0 = self@.grid;
        let mut i = start;
        while i < end
            invariant
                self.wf(),
                start <= i <= end <= self@.grid.len(),
                self@ == (TermView { grid: self@.grid, ..old(self)@ }),
                self@.grid.len() == g0.len(),
                forall|j: int| 0 <= j < self@.grid.len() ==> self@.grid[j] == (if start <= j < i {
                    blank_cell()
                } else {
                    g0[j]
                }),
            decreases end - i,
        {
            self.grid.set(i, Cell::blank());
            i += 1;
        }
        assert(self@.grid =~= blank_span(g0, start as nat, end as nat));
    }

    /// Cells `start .. end` moved `m` places left, blanks shifted in.
    fn shift_left_range(&mut self, start: usize, end: usize, m: usize)
        requires
            old(self).wf(),
            start <= end <= old(self)@.grid.len(),
            m <= old(self)@.grid.len(),
        ensures
            final(self).wf(),
            final(self)@ == (TermView { grid: shift_left(old(self)@.grid, start as nat, end as nat, m as nat), ..old(self)@ }),
    {
        let ghost g0 = self@.grid;
        proof {
            lemma_grid_size(self@.rows, self@.cols);
        }
        let mut i = start;
        while i < end
            invariant
                self.wf(),
                start <= i <= end <= self@.grid.len(),
                self@.grid.len() <= 1_000_000,
                m <= self@.grid.len(),
                self@ == (TermView { grid: self@.grid, ..old(self)@ }),
                self@.grid.len() == g0.len(),
                forall|j: int| 0 <= j < self@.grid.len() ==> self@.grid[j] == (if start <= j < i {
                    shift_left(g0, start as nat, end as nat, m as nat)[j]
                } else {
                    g0[j]
                }),
            decreases end - i,
        {
            let v = if i + m < end {
                self.grid[i + m]
            } else {
                Cell::blank()
            };
            self.grid.set(i, v);
            i += 1;
        }
        assert(self@.grid =~= shift_left(g0, start as nat, end as nat, m as nat));
    }

    /// Cells `start .. end` moved `m` places right, blanks shifted in.
    fn shift_right_range(&mut self, start: usize, end: usize, m: usize)
        requires
            old(self).wf(),
            start <= end <= old(self)@.grid.len(),
            m <= old(self)@.grid.len(),
        ensures
            final(self).wf(),
            final(self)@ == (TermView { grid: shift_right(old(self)@.grid, start as nat, end as nat, m as nat), ..old(self)@ }),
    {
        let ghost g0 = self@.grid;
        proof {
            lemma_grid_size(self@.rows, self@.cols);
        }
        let mut i = end;
        while i > start
            invariant
                self.wf(),
                start <= i <= end <= self@.grid.len(),
                self@.grid.len() <= 1_000_000,
                m <= self@.grid.len(),
                self@ == (TermView { grid: self@.grid, ..old(self)@ }),
                self@.grid.len() == g0.len(),
                forall|j: int| 0 <= j < self@.grid.len() ==> self@.grid[j] == (if i <= j < end {
                    shift_right(g0, start as nat, end as nat, m as nat)[j]
                } else {
                    g0[j]
                }),
            decreases i - start,
        {
            let j = i - 1;
            let v = if j >= start + m {
                self.grid[j - m]
            } else {
                Cell::blank()
            };
            self.grid.set(j, v);
            i -= 1;
        }
        assert(self@.grid =~= shift_right(g0, start as nat, end as nat, m as nat));
    }

    fn scroll_up_from(&mut self, top: usize, n: usize)
        requires
            old(self).wf(),
            top <= old(self)@.bottom,
        ensures
            final(self).wf(),
            final(self)@ == scroll_up_region(old(self)@, top as nat, n as nat),
    {
        let h = self.scroll_bottom - top + 1;
        let k = if n < h {
            n
        } else {
            h
        };
        proof {
            lemma_index(self@.rows, self@.cols, self@.bottom, 0);
            lemma_rows_le(self@.rows, self@.cols, top as nat);
            lemma_rows_le((self@.bottom + 1) as nat, self@.cols, top as nat);
            lemma_rows_le(self@.rows, self@.cols, k as nat);
            lemma_grid_size(self@.rows, self@.cols);
        }
        self.shift_left_range(top * self.cols, (self.scroll_bottom + 1) * self.cols, k * self.cols);
    }

    fn scroll_down_from(&mut self, top: usize, n: usize)
        requires
            old(self).wf(),
            top <= old(self)@.bottom,
        ensures
            final(self).wf(),
            final(self)@ == scroll_down_region(old(self)@, top as nat, n as nat),
    {
        let h = self.scroll_bottom - top + 1;
        let k = if n < h {
            n
        } else {
            h
        };
        proof {
            lemma_index(self@.rows, self@.cols, self@.bottom, 0);
            lemma_rows_le(self@.rows, self@.cols, top as nat);
            lemma_rows_le((self@.bottom + 1) as nat, self@.cols, top as nat);
            lemma_rows_le(self@.rows, self@.cols, k as nat);
            lemma_grid_size(self@.rows, self@.cols);
        }
        self.shift_right_range(top * self.cols, (self.scroll_bottom + 1) * self.cols, k * self.cols);
    }

    fn line_feed(&mut self)
        requires
            old(self).wf(),
        ensures
            final(self).wf(),
            final(self)@ == line_feed(old(self)@),
    {
        if self.cur_row == self.scroll_bottom {
            self.scroll_up_from(self.scroll_top, 1);
        } else if self.cur_row + 1 < self.rows {
            self.cur_row += 1;
        }
        self.wrap_pending = false;
    }

    fn reverse_line_feed(&mut self)
        requires
            old(self).wf(),
        ensures
            final(self).wf(),
            final(self)@ == reverse_line_feed(old(self)@),
    {
        if self.cur_row == self.scroll_top {
            self.scroll_down_from(self.scroll_top, 1);
        } else {
            self.cur_row = if self.cur_row > 0 {
                self.cur_row - 1
            } else {
                0
            };
        }
        self.wrap_pending = false;
    }

    fn print_write(&mut self, c: char, w: u8)
        requires
            old(self).wf(),
            w == 1 || w == 2,
            write_defined(old(self)@, w as nat),
        ensures
            final(self).wf(),
            final(self)@ == print_write(old(self)@, c, w as nat),
    {
        let row = self.cur_row;
        let col = self.cur_col;
        proof {
            lemma_index(self@.rows, self@.cols, row as nat, col as nat);
            lemma_grid_size(self@.rows, self@.cols);
        }
        let i = row * self.cols + col;
        let pen = self.pen;
        self.clear_wide_at(row, col);
        if w == 2 {
            self.clear_wide_at(row, col + 1);
        }
        self.set_cell_at(i, Cell { ch: c, style: pen, width: w });
        if w == 2 {
            self.set_cell_at(i + 1, Cell { ch: ' ', style: pen, width: 0 });
        }
        if col + (w as usize) >= self.cols {
            self.cur_col = self.cols - 1;
            self.wrap_pending = true;
        } else {
            self.cur_col = col + w as usize;
        }
    }

    fn print(&mut self, c: char)
        requires
            old(self).wf(),
            print_defined(old(self)@, c),
        ensures
            final(self).wf(),
            final(self)@ == print_spec(old(self)@, c),
    {
        let w = char_width(c);
        if w == 0 {
            return;
        }
        if self.wrap_pending {
            if self.autowrap {
                self.wrap_pending = false;
                self.cur_col = 0;
                self.line_feed();
            } else {
                self.cur_col = self.cols - 1;
                self.wrap_pending = false;
            }
        }
        if w == 2 && self.cur_col + 2 > self.cols {
            if self.autowrap {
                self.cur_col = 0;
                self.line_feed();
            } else {
                return;
            }
        }
        self.print_write(c, w);
    }

    fn control(&mut self, b: u8)
        requires
            old(self).wf(),
        ensures
            final(self).wf(),
            final(self)@ == control_spec(old(self)@, b),
    {
        if b == 0x0a || b == 0x0b || b == 0x0c {
            self.line_feed();
            self.cur_col = 0;
        } else if b == 0x0d {
            self.cur_col = 0;
            self.wrap_pending = false;
        } else if b == 0x08 {
            self.cur_col = if self.cur_col > 0 {
                self.cur_col - 1
            } else {
                0
            };
            self.wrap_pending = false;
        } else if b == 0x09 {
            let next = (self.cur_col / 8 + 1) * 8;
            self.cur_col = if next < self.cols - 1 {
                next
            } else {
                self.cols - 1
            };
            self.wrap_pending = false;
        }
    }

    fn save_cursor(&mut self)
        requires
            old(self).wf(),
        ensures
            final(self).wf(),
            final(self)@ == save_cursor_spec(old(self)@),
    {
        self.saved = Some(SavedCursor { row: self.cur_row, col: self.cur_col, pen: self.pen });
    }

    fn restore_cursor(&mut self)
        requires
            old(self).wf(),
        ensures
            final(self).wf(),
            final(self)@ == restore_cursor_spec(old(self)@),
    {
        match self.saved {
            Some(s) => {
                self.cur_row = if s.row < self.rows - 1 {
                    s.row
                } else {
                    self.rows - 1
                };
                self.cur_col = if s.col < self.cols - 1 {
                    s.col
                } else {
                    self.cols - 1
                };
                self.pen = s.pen;
            },
            None => {
                self.cur_row = 0;
                self.cur_col = 0;
                self.pen = Style::default();
            },
        }
        self.wrap_pending = false;
    }

    fn full_reset(&mut self)
        requires
            old(self).wf(),
        ensures
            final(self).wf(),
            final(self)@ == new_term(old(self)@.cols, old(self)@.rows),
    {
        let cols = self.cols;
        let rows = self.rows;
        *self = Screen::new(cols, rows);
    }

    fn esc(&mut self, intermediate: Option<char>, final_byte: char)
        requires
            old(self).wf(),
        ensures
            final(self).wf(),
            final(self)@ == esc_spec(old(self)@, intermediate, final_byte),
    {
        if intermediate.is_some() {
            return;
        }
        if final_byte == 'D' {
            self.line_feed();
        } else if final_byte == 'E' {
            self.line_feed();
            self.cur_col = 0;
        } else if final_byte == 'M' {
            self.reverse_line_feed();
        } else if final_byte == '7' {
            self.save_cursor();
        } else if final_byte == '8' {
            self.restore_cursor();
        } else if final_byte == 'c' {
            self.full_reset();
        }
    }

    fn enter_alt(&mut self)
        requires
            old(self).wf(),
        ensures
            final(self).wf(),
            final(self)@ == enter_alt_spec(old(self)@),
    {
        if self.alt.is_some() {
            return;
        }
        proof {
            lemma_grid_size(self@.rows, self@.cols);
        }
        let mut grid = blank_cells(self.cols * self.rows);
        assert(self.cols * self.rows == self.rows * self.cols) by (nonlinear_arith);
        std::mem::swap(&mut grid, &mut self.grid);
        self.alt = Some(AltState { grid, cur_row: self.cur_row, cur_col: self.cur_col, pen: self.pen });
        self.cur_row = 0;
        self.cur_col = 0;
        self.wrap_pending = false;
        assert(self@.grid =~= Seq::new(old(self)@.rows * old(self)@.cols, |i: int| blank_cell()));
    }

    fn leave_alt(&mut self)
        requires
            old(self).wf(),
        ensures
            final(self).wf(),
            final(self)@ == leave_alt_spec(old(self)@),
    {
        let mut alt: Option<AltState> = None;
        std::mem::swap(&mut alt, &mut self.alt);
        match alt {
            Some(main) => {
                self.grid = main.grid;
                self.cur_row = main.cur_row;
                self.cur_col = main.cur_col;
                self.pen = main.pen;
                self.wrap_pending = false;
            },
            None => {},
        }
    }

    fn dec_private(&mut self, params: &[Param], final_byte: char)
        requires
            old(self).wf(),
        ensures
            final(self).wf(),
            final(self)@ == dec_private_spec(old(self)@, params_view(params@), final_byte),
    {
        let ghost ps = params_view(params@);
        let mut i: usize = 0;
        while i < params.len()
            invariant
                self.wf(),
                i <= params.len(),
                ps == params_view(params@),
                self@ == dec_private_spec(old(self)@, ps.take(i as int), final_byte),
            decreases params.len() - i,
        {
            let v = params[i].value();
            assert(ps.take(i + 1).drop_last() == ps.take(i as int));
            assert(ps.take(i + 1).last() == params@[i as int]@);
            if v == 7 && final_byte == 'h' {
                self.autowrap = true;
            } else if v == 7 && final_byte == 'l' {
                self.autowrap = false;
            } else if (v == 47 || v == 1047 || v == 1049) && final_byte == 'h' {
                self.enter_alt();
            } else if (v == 47 || v == 1047 || v == 1049) && final_byte == 'l' {
                self.leave_alt();
            }
            i += 1;
        }
        assert(ps.take(params.len() as int) == ps);
    }

    fn erase_line(&mut self, mode: usize)
        requires
            old(self).wf(),
        ensures
            final(self).wf(),
            final(self)@ == erase_line_spec(old(self)@, mode as nat),
    {
        if mode > 2 {
            return;
        }
        let from = if mode == 1 || mode == 2 {
            0
        } else {
            self.cur_col
        };
        let to = if mode == 1 {
            self.cur_col
        } else {
            self.cols - 1
        };
        let row = self.cur_row;
        proof {
            lemma_index(self@.rows, self@.cols, row as nat, to as nat);
            lemma_grid_size(self@.rows, self@.cols);
        }
        self.clear_wide_at(row, from);
        self.clear_wide_at(row, to);
        self.blank_range(row * self.cols + from, row * self.cols + to + 1);
    }

    fn erase_display(&mut self, mode: usize)
        requires
            old(self).wf(),
        ensures
            final(self).wf(),
            final(self)@ == erase_display_spec(old(self)@, mode as nat),
    {
        proof {
            lemma_index(self@.rows, self@.cols, self@.row, 0);
            lemma_grid_size(self@.rows, self@.cols);
        }
        if mode == 0 {
            let row = self.cur_row;
            self.erase_line(0);
            self.blank_range((row + 1) * self.cols, self.rows * self.cols);
        } else if mode == 1 {
            let row = self.cur_row;
            self.erase_line(1);
            self.blank_range(0, row * self.cols);
        } else if mode == 2 || mode == 3 {
            self.blank_range(0, self.rows * self.cols);
        }
    }

    fn erase_chars(&mut self, n: usize)
        requires
            old(self).wf(),
            n <= 0xffff,
        ensures
            final(self).wf(),
            final(self)@ == erase_chars_spec(old(self)@, n as nat),
    {
        let row = self.cur_row;
        let col = self.cur_col;
        let end = if col + n < self.cols {
            col + n
        } else {
            self.cols
        };
        proof {
            lemma_index(self@.rows, self@.cols, row as nat, col as nat);
            lemma_grid_size(self@.rows, self@.cols);
        }
        self.clear_wide_at(row, col);
        if end > 0 {
            self.clear_wide_at(row, end - 1);
        }
        self.blank_range(row * self.cols + col, row * self.cols + end);
    }

    fn insert_lines(&mut self, n: usize)
        requires
            old(self).wf(),
        ensures
            final(self).wf(),
            final(self)@ == insert_lines_spec(old(self)@, n as nat),
    {
        if self.cur_row < self.scroll_top || self.cur_row > self.scroll_bottom {
            return;
        }
        self.scroll_down_from(self.cur_row, n);
        self.cur_col = 0;
    }

    fn delete_lines(&mut self, n: usize)
        requires
            old(self).wf(),
        ensures
            final(self).wf(),
            final(self)@ == delete_lines_spec(old(self)@, n as nat),
    {
        if self.cur_row < self.scroll_top || self.cur_row > self.scroll_bottom {
            return;
        }
        self.scroll_up_from(self.cur_row, n);
        self.cur_col = 0;
    }

    fn delete_chars(&mut self, n: usize)
        requires
            old(self).wf(),
        ensures
            final(self).wf(),
            final(self)@ == delete_chars_spec(old(self)@, n as nat),
    {
        let row = self.cur_row;
        let col = self.cur_col;
        let k = if n < self.cols - col {
            n
        } else {
            self.cols - col
        };
        proof {
            lemma_index(self@.rows, self@.cols, row as nat, col as nat);
            lemma_grid_size(self@.rows, self@.cols);
        }
        self.clear_wide_at(row, col);
        self.shift_left_range(row * self.cols + col, row * self.cols + self.cols, k);
    }

    fn insert_chars(&mut self, n: usize)
        requires
            old(self).wf(),
        ensures
            final(self).wf(),
            final(self)@ == insert_chars_spec(old(self)@, n as nat),
    {
        let row = self.cur_row;
        let col = self.cur_col;
        let k = if n < self.cols - col {
            n
        } else {
            self.cols - col
        };
        proof {
            lemma_index(self@.rows, self@.cols, row as nat, col as nat);
            lemma_grid_size(self@.rows, self@.cols);
        }
        self.clear_wide_at(row, col);
        self.shift_right_range(row * self.cols + col, row * self.cols + self.cols, k);
    }

    fn set_scroll_region(&mut self, top: usize, bottom: usize)
        requires
            old(self).wf(),
        ensures
            final(self).wf(),
            final(self)@ == set_scroll_region_spec(old(self)@, top as nat, bottom as nat),
    {
        let top = if top > 1 {
            top
        } else {
            1
        } - 1;
        let bottom = if bottom == 0 {
            self.rows
        } else {
            bottom
        } - 1;
        if top < bottom && bottom < self.rows {
            self.scroll_top = top;
            self.scroll_bottom = bottom;
            self.cur_row = 0;
            self.cur_col = 0;
        }
    }
}

/// Parameter `i` of a CSI sequence, 0 when absent.
fn csi_param(params: &[Param], i: usize) -> (v: usize)
    ensures
        v == csi_p(params_view(params@), i as int),
        v <= 0xffff,
{
    if i < params.len() {
        params[i].value() as usize
    } else {
        0
    }
}

/// Parameter `i` of a CSI sequence as a count, at least 1.
fn csi_count(params: &[Param], i: usize) -> (v: usize)
    ensures
        v == csi_n(params_view(params@), i as int),
        1 <= v <= 0xffff,
{
    let p = csi_param(params, i);
    if p > 1 {
        p
    } else {
        1
    }
}

impl Screen {
    fn csi(&mut self, private: Option<char>, params: &[Param], intermediate: Option<char>, final_byte: char)
        requires
            old(self).wf(),
        ensures
            final(self).wf(),
            final(self)@ == csi_spec(old(self)@, private, params_view(params@), intermediate, final_byte),
    {
        if intermediate.is_some() {
            return;
        }
        match private {
            Some(m) => {
                if m == '?' {
                    self.dec_private(params, final_byte);
                }
                return;
            },
            None => {},
        }
        let n = csi_count(params, 0);
        self.wrap_pending = false;
        let top_bound = if self.cur_row >= self.scroll_top {
            self.scroll_top
        } else {
            0
        };
        let bottom_bound = if self.cur_row <= self.scroll_bottom {
            self.scroll_bottom
        } else {
            self.rows - 1
        };
        if final_byte == 'A' {
            let r = if self.cur_row > n {
                self.cur_row - n
            } else {
                0
            };
            self.cur_row = if r > top_bound {
                r
            } else {
                top_bound
            };
        } else if final_byte == 'B' {
            self.cur_row = if self.cur_row + n < bottom_bound {
                self.cur_row + n
            } else {
                bottom_bound
            };
        } else if final_byte == 'C' {
            self.cur_col = if self.cur_col + n < self.cols - 1 {
                self.cur_col + n
            } else {
                self.cols - 1
            };
        } else if final_byte == 'D' {
            self.cur_col = if self.cur_col > n {
                self.cur_col - n
            } else {
                0
            };
        } else if final_byte == 'E' {
            self.cur_row = if self.cur_row + n < bottom_bound {
                self.cur_row + n
            } else {
                bottom_bound
            };
            self.cur_col = 0;
        } else if final_byte == 'F' {
            let r = if self.cur_row > n {
                self.cur_row - n
            } else {
                0
            };
            self.cur_row = if r > top_bound {
                r
            } else {
                top_bound
            };
            self.cur_col = 0;
        } else if final_byte == 'G' {
            self.cur_col = if n - 1 < self.cols - 1 {
                n - 1
            } else {
                self.cols - 1
            };
        } else if final_byte == 'H' || final_byte == 'f' {
            let m = csi_count(params, 1);
            self.cur_row = if n - 1 < self.rows - 1 {
                n - 1
            } else {
                self.rows - 1
            };
            self.cur_col = if m - 1 < self.cols - 1 {
                m - 1
            } else {
                self.cols - 1
            };
        } else if final_byte == 'd' {
            self.cur_row = if n - 1 < self.rows - 1 {
                n - 1
            } else {
                self.rows - 1
            };
        } else if final_byte == 'J' {
            self.erase_display(csi_param(params, 0));
        } else if final_byte == 'K' {
            self.erase_line(csi_param(params, 0));
        } else if final_byte == 'L' {
            self.insert_lines(n);
        } else if final_byte == 'M' {
            self.delete_lines(n);
        } else if final_byte == 'P' {
            self.delete_chars(n);
        } else if final_byte == '@' {
            self.insert_chars(n);
        } else if final_byte == 'X' {
            self.erase_chars(n);
        } else if final_byte == 'S' {
            self.scroll_up_from(self.scroll_top, n);
        } else if final_byte == 'T' {
            self.scroll_down_from(self.scroll_top, n);
        } else if final_byte == 'm' {
            self.pen.apply_sgr(params);
        } else if final_byte == 'r' {
            self.set_scroll_region(csi_param(params, 0), csi_param(params, 1));
        } else if final_byte == 's' {
            self.save_cursor();
        } else if final_byte == 'u' {
            self.restore_cursor();
        }
    }

    /// Whether [`Screen::apply`] is defined for this action in the current
    /// state (see [`apply_defined`]).
    pub fn can_apply(&self, action: &Action) -> (r: bool)
        requires
            self.wf(),
        ensures
            r == apply_defined(self@, action@),
    {
        match action {
            Action::Print(c) => {
                let w = char_width(*c);
                if w != 2 {
                    return true;
                }
                // Cursor after a pending wrap is resolved.
                let (mut row, mut col) = (self.cur_row, self.cur_col);
                if self.wrap_pending {
                    if self.autowrap {
                        col = 0;
                        if row != self.scroll_bottom && row + 1 < self.rows {
                            row = row + 1;
                        }
                    } else {
                        col = self.cols - 1;
                    }
                }
                if col + 2 > self.cols {
                    if !self.autowrap {
                        return true;
                    }
                    col = 0;
                    if row != self.scroll_bottom && row + 1 < self.rows {
                        row = row + 1;
                    }
                }
                proof {
                    lemma_index(self@.rows, self@.cols, row as nat, col as nat);
                    lemma_grid_size(self@.rows, self@.cols);
                }
                row * self.cols + col + 1 < self.rows * self.cols
            },
            _ => true,
        }
    }

    /// Apply one decoded action.
    pub fn apply(&mut self, action: &Action)
        requires
            old(self).wf(),
            apply_defined(old(self)@, action@),
        ensures
            final(self).wf(),
            final(self)@ == apply_spec(old(self)@, action@),
    {
        match action {
            Action::Print(c) => self.print(*c),
            Action::Control(b) => self.control(*b),
            Action::Csi { private, params, intermediate, final_byte } => self.csi(
                *private,
                params.as_slice(),
                *intermediate,
                *final_byte,
            ),
            Action::Esc { intermediate, final_byte } => self.esc(*intermediate, *final_byte),
            Action::Osc(_) => {},
        }
    }

    /// Parse and apply a complete byte buffer.
    pub fn feed_bytes(&mut self, bytes: &[u8])
        requires
            old(self).wf(),
            feed_defined(old(self)@, parse_spec(bytes@)),
        ensures
            final(self).wf(),
            final(self)@ == feed_spec(old(self)@, parse_spec(bytes@)),
    {
        let actions = Parser::parse(bytes);
        let ghost acts = parse_spec(bytes@);
        let mut i: usize = 0;
        while i < actions.len()
            invariant
                self.wf(),
                i <= actions.len(),
                acts.len() == actions.len(),
                forall|j: int| 0 <= j < acts.len() ==> acts[j] == actions@[j]@,
                feed_defined(old(self)@, acts),
                self@ == feed_spec(old(self)@, acts.take(i as int)),
            decreases actions.len() - i,
        {
            proof {
                lemma_feed_prefix(old(self)@, acts, i + 1);
                assert(acts.take(i + 1).drop_last() == acts.take(i as int));
                assert(acts.take(i + 1).last() == acts[i as int]);
            }
            self.apply(&actions[i]);
            i += 1;
        }
        assert(acts.take(actions.len() as int) == acts);
    }
}

/// Applying actions in two batches is applying them all: the screen after
/// `a` then `b` is the screen after `a + b`, and `a + b` is applicable
/// exactly when `a` is and `b` is from where `a` left the screen.
pub proof fn lemma_feed_split(t: TermView, a: Seq<ActionView>, b: Seq<ActionView>)
    ensures
        feed_spec(t, a + b) == feed_spec(feed_spec(t, a), b),
        feed_defined(t, a + b) == (feed_defined(t, a) && feed_defined(feed_spec(t, a), b)),
    decreases b.len(),
{
    if b.len() == 0 {
        assert(a + b =~= a);
    } else {
        lemma_feed_split(t, a, b.drop_last());
        assert((a + b).drop_last() =~= a + b.drop_last());
        assert((a + b).last() == b.last());
    }
}

/// Every prefix of an applicable action sequence is applicable.
pub proof fn lemma_feed_prefix(t: TermView, acts: Seq<ActionView>, k: int)
    requires
        0 <= k <= acts.len(),
        feed_defined(t, acts),
    ensures
        feed_defined(t, acts.take(k)),
    decreases acts.len(),
{
    if k < acts.len() {
        assert(acts.drop_last().take(k) == acts.take(k));
        lemma_feed_prefix(t, acts.drop_last(), k);
    } else {
        assert(acts.take(k) == acts);
    }
}

/// `spans` are the maximal non-default runs of `styles` that end before
/// `upto`, which starts a new run.
#[verifier::opaque]
pub open spec fn spans_complete(styles: Seq<Style>, spans: Seq<(usize, usize, Style)>, upto: int) -> bool {
    &&& forall|k: int|
        0 <= k < spans.len() ==> {
            let (s, e, st) = #[trigger] spans[k];
            &&& s <= e < upto
            &&& st != default_style()
            &&& (forall|j: int| s <= j <= e ==> styles[j] == st)
            &&& (s == 0 || styles[s - 1] != st)
            &&& (styles[e + 1] != st)
        }
    &&& forall|k: int| 0 <= k < spans.len() - 1 ==> (#[trigger] spans[k]).1 < spans[k + 1].0
    &&& forall|j: int|
        0 <= j < upto && styles[j] != default_style() ==> exists|k: int|
            0 <= k < spans.len() && (#[trigger] spans[k]).0 <= j <= spans[k].1
}

/// Closing the run `start .. end` of style `cur` keeps the spans complete
/// up to `end`.
proof fn lemma_close_run(
    styles: Seq<Style>,
    spans: Seq<(usize, usize, Style)>,
    start: int,
    end: int,
    cur: Style,
)
    requires
        0 <= start < end <= styles.len(),
        end <= usize::MAX,
        forall|j: int| start <= j < end ==> styles[j] == cur,
        start == 0 || styles[start - 1] != cur,
        end == styles.len() || styles[end] != cur,
        spans_complete(styles, spans, start),
    ensures
        ({
            let spans2 = if cur != default_style() {
                spans.push((start as usize, (end - 1) as usize, cur))
            } else {
                spans
            };
            end < styles.len() ==> spans_complete(styles, spans2, end)
        }),
        ({
            let spans2 = if cur != default_style() {
                spans.push((start as usize, (end - 1) as usize, cur))
            } else {
                spans
            };
            end == styles.len() ==> style_runs(styles, spans2)
        }),
{
    reveal(spans_complete);
    let spans2 = if cur != default_style() {
        spans.push((start as usize, (end - 1) as usize, cur))
    } else {
        spans
    };
    assert forall|j: int| 0 <= j < end && styles[j] != default_style() implies exists|k: int|
        0 <= k < spans2.len() && (#[trigger] spans2[k]).0 <= j <= spans2[k].1 by {
        if j < start {
            let k = choose|k: int| 0 <= k < spans.len() && (#[trigger] spans[k]).0 <= j <= spans[k].1;
            assert(spans2[k] == spans[k]);
        } else {
            assert(styles[j] == cur);
            assert(spans2[spans2.len() - 1] == (start as usize, (end - 1) as usize, cur));
        }
    }
    if spans.len() > 0 {
        let last = spans[spans.len() - 1];
        assert(last.1 < start);
    }
}

proof fn lemma_spans_start(styles: Seq<Style>)
    ensures
        spans_complete(styles, seq![], 0),
{
    reveal(spans_complete);
}

/// Runs are ordered: every run ends before any later run starts.
proof fn lemma_runs_sorted(styles: Seq<Style>, a: Seq<(usize, usize, Style)>, i: int, j: int)
    requires
        style_runs(styles, a),
        0 <= i < j < a.len(),
    ensures
        a[i].1 < a[j].0,
    decreases j - i,
{
    assert(a[i].1 < a[i + 1].0);
    if i + 1 < j {
        lemma_runs_sorted(styles, a, i + 1, j);
        let (s1, e1, st1) = a[i + 1];
        assert(s1 <= e1);
    }
}

/// Each run of one valid list is a run of any other.
proof fn lemma_run_in_other(
    styles: Seq<Style>,
    a: Seq<(usize, usize, Style)>,
    b: Seq<(usize, usize, Style)>,
    k: int,
) -> (m: int)
    requires
        style_runs(styles, a),
        style_runs(styles, b),
        0 <= k < a.len(),
    ensures
        0 <= m < b.len(),
        b[m] == a[k],
{
    let (s, e, st) = a[k];
    assert(styles[s as int] == st);
    let m = choose|m: int| 0 <= m < b.len() && (#[trigger] b[m]).0 <= s <= b[m].1;
    let (s2, e2, st2) = b[m];
    assert(styles[s as int] == st2);
    if s2 < s {
        assert(styles[s - 1] == st2);
    }
    if e2 < e {
        assert(styles[e2 + 1] == st);
    }
    if e < e2 {
        assert(styles[e + 1] == st2);
    }
    m
}

/// The first `k` runs of two valid lists agree.
proof fn lemma_runs_prefix(
    styles: Seq<Style>,
    a: Seq<(usize, usize, Style)>,
    b: Seq<(usize, usize, Style)>,
    k: int,
)
    requires
        style_runs(styles, a),
        style_runs(styles, b),
        0 <= k <= a.len(),
        k <= b.len(),
    ensures
        forall|j: int| 0 <= j < k ==> a[j] == b[j],
    decreases k,
{
    if k > 0 {
        let k0 = k - 1;
        lemma_runs_prefix(styles, a, b, k0);
        let m = lemma_run_in_other(styles, a, b, k0);
        if m < k0 {
            lemma_runs_sorted(styles, a, m, k0);
            let (sm, em, stm) = a[m];
            assert(sm <= em);
        } else if m > k0 {
            let m2 = lemma_run_in_other(styles, b, a, k0);
            if m2 < k0 {
                lemma_runs_sorted(styles, b, m2, k0);
                let (sx, ex, stx) = b[m2];
                assert(sx <= ex);
            } else if m2 > k0 {
                lemma_runs_sorted(styles, a, k0, m2);
                lemma_runs_sorted(styles, b, k0, m);
                let (sa, ea, sta) = a[k0];
                assert(sa <= ea);
                let (sb, eb, stb) = b[k0];
                assert(sb <= eb);
            }
        }
    }
}

/// Two lists that are both the maximal runs of one row are the same list.
pub proof fn lemma_style_runs_unique(
    styles: Seq<Style>,
    a: Seq<(usize, usize, Style)>,
    b: Seq<(usize, usize, Style)>,
)
    requires
        style_runs(styles, a),
        style_runs(styles, b),
    ensures
        a == b,
{
    let n: int = if a.len() <= b.len() {
        a.len() as int
    } else {
        b.len() as int
    };
    lemma_runs_prefix(styles, a, b, n);
    if a.len() > b.len() {
        let m = lemma_run_in_other(styles, a, b, n);
        lemma_runs_sorted(styles, a, m, n);
        let (sm, em, stm) = a[m];
        assert(sm <= em);
    } else if b.len() > a.len() {
        let m = lemma_run_in_other(styles, b, a, n);
        lemma_runs_sorted(styles, b, m, n);
        let (sm, em, stm) = b[m];
        assert(sm <= em);
    }
    assert(a =~= b);
}

// ---------------------------------------------------------------------------
// Cursor movement, stated on the numbers.
// ---------------------------------------------------------------------------

/// A CSI sequence without private marker or intermediate byte.
pub open spec fn plain_csi(ps: Seq<Seq<u16>>, f: char) -> ActionView {
    ActionView::Csi { private: None, params: ps, intermediate: None, final_byte: f }
}

/// The count a cursor sequence reads from parameter `i`: its number, and 1
/// when it is absent or 0.
pub open spec fn move_count(ps: Seq<Seq<u16>>, i: int) -> int {
    let v: int = if 0 <= i < ps.len() && ps[i].len() > 0 {
        ps[i][0] as int
    } else {
        0
    };
    if v == 0 {
        1
    } else {
        v
    }
}

/// The smaller of two integers.
pub open spec fn lesser(a: int, b: int) -> int {
    if a <= b {
        a
    } else {
        b
    }
}

/// The larger of two integers.
pub open spec fn greater(a: int, b: int) -> int {
    if a >= b {
        a
    } else {
        b
    }
}

/// Cursor movement (CUU, CUD, CUF, CUB, CNL, CPL, CHA, CUP, VPA) moves the
/// cursor by or to its count, clamped to the screen; up and down stop at
/// the scroll region's edge when the cursor starts inside it. The cells,
/// the pen and the scroll region do not change, and a pending wrap is
/// cancelled.
pub proof fn lemma_cursor_moves(t: TermView, ps: Seq<Seq<u16>>, f: char)
    requires
        term_wf(t),
        f == 'A' || f == 'B' || f == 'C' || f == 'D' || f == 'E' || f == 'F' || f == 'G' || f == 'H'
            || f == 'f' || f == 'd',
    ensures
        ({
            let u = apply_spec(t, plain_csi(ps, f));
            let n = move_count(ps, 0);
            let up_stop: int = if t.row >= t.top { t.top as int } else { 0 };
            let down_stop: int = if t.row <= t.bottom { t.bottom as int } else { t.rows - 1 };
            &&& u.grid == t.grid
            &&& u.pen == t.pen
            &&& u.top == t.top && u.bottom == t.bottom
            &&& !u.wrap_pending
            &&& (f == 'A' ==> u.row == greater(t.row - n, up_stop) && u.col == t.col)
            &&& (f == 'B' ==> u.row == lesser(t.row + n, down_stop) && u.col == t.col)
            &&& (f == 'C' ==> u.col == lesser(t.col + n, t.cols - 1) && u.row == t.row)
            &&& (f == 'D' ==> u.col == greater(t.col - n, 0) && u.row == t.row)
            &&& (f == 'E' ==> u.row == lesser(t.row + n, down_stop) && u.col == 0)
            &&& (f == 'F' ==> u.row == greater(t.row - n, up_stop) && u.col == 0)
            &&& (f == 'G' ==> u.col == lesser(n - 1, t.cols - 1) && u.row == t.row)
            &&& ((f == 'H' || f == 'f') ==> u.row == lesser(n - 1, t.rows - 1) && u.col == lesser(
                move_count(ps, 1) - 1,
                t.cols - 1,
            ))
            &&& (f == 'd' ==> u.row == lesser(n - 1, t.rows - 1) && u.col == t.col)
        }),
{
    assert(csi_p(ps, 0) as int == (if 0 < ps.len() && ps[0].len() > 0 { ps[0][0] as int } else { 0 }));
    assert(csi_p(ps, 1) as int == (if 1 < ps.len() && ps[1].len() > 0 { ps[1][0] as int } else { 0 }));
}

// ---------------------------------------------------------------------------
// Controls and scrolling, cell by cell.
// ---------------------------------------------------------------------------

/// The cell at row `r`, column `c` of a grid `cols` wide.
pub open spec fn cell_rc(g: Seq<Cell>, cols: nat, r: int, c: int) -> Cell {
    g[r * cols + c]
}

proof fn lemma_row_bounds(r: int, c: int, cols: int, a: int)
    requires
        0 <= c < cols,
        0 <= r,
        0 <= a,
    ensures
        (a * cols <= r * cols + c) == (a <= r),
        (r * cols + c < a * cols) == (r < a),
        (r * cols + c) + cols == (r + 1) * cols + c,
        (r * cols + c) - cols == (r - 1) * cols + c,
{
    if a <= r {
        assert(a * cols <= r * cols) by (nonlinear_arith)
            requires
                a <= r,
                0 <= cols,
        ;
    } else {
        assert((r + 1) * cols <= a * cols) by (nonlinear_arith)
            requires
                r + 1 <= a,
                0 <= cols,
        ;
    }
    assert((r + 1) * cols == r * cols + cols) by (nonlinear_arith);
    assert((r - 1) * cols == r * cols - cols) by (nonlinear_arith);
}

/// Scrolling rows `top ..= bottom` up by `n`: each row of the region takes
/// the row `k` below it (`k` = `n` capped at the region height), the last
/// `k` rows of the region become blank, and rows outside are unchanged.
pub proof fn lemma_scroll_up_cells(t: TermView, top: nat, n: nat)
    requires
        term_wf(t),
        top <= t.bottom,
    ensures
        ({
            let u = scroll_up_region(t, top, n);
            let k: int = lesser(n as int, t.bottom - top + 1);
            &&& u == TermView { grid: u.grid, ..t }
            &&& u.grid.len() == t.grid.len()
            &&& forall|r: int, c: int|
                0 <= r < t.rows && 0 <= c < t.cols ==> #[trigger] cell_rc(u.grid, t.cols, r, c) == if top
                    <= r <= t.bottom {
                    if r + k <= t.bottom {
                        cell_rc(t.grid, t.cols, r + k, c)
                    } else {
                        blank_cell()
                    }
                } else {
                    cell_rc(t.grid, t.cols, r, c)
                }
        }),
{
    let u = scroll_up_region(t, top, n);
    let k: int = lesser(n as int, t.bottom - top + 1);
    assert forall|r: int, c: int| 0 <= r < t.rows && 0 <= c < t.cols implies #[trigger] cell_rc(
        u.grid,
        t.cols,
        r,
        c,
    ) == if top <= r <= t.bottom {
        if r + k <= t.bottom {
            cell_rc(t.grid, t.cols, r + k, c)
        } else {
            blank_cell()
        }
    } else {
        cell_rc(t.grid, t.cols, r, c)
    } by {
        let cols = t.cols as int;
        lemma_row_bounds(r, c, cols, top as int);
        lemma_row_bounds(r, c, cols, (t.bottom + 1) as int);
        lemma_row_bounds(r, c, cols, t.rows as int);
        lemma_row_bounds(r + k, c, cols, (t.bottom + 1) as int);
        assert(k * cols + (r * cols + c) == (r + k) * cols + c) by (nonlinear_arith);
        assert(0 <= k * cols) by (nonlinear_arith)
            requires
                0 <= k,
                0 <= cols,
        ;
    }
}

/// Scrolling rows `top ..= bottom` down by `n`: each row of the region
/// takes the row `k` above it, the first `k` rows of the region become
/// blank, and rows outside are unchanged.
pub proof fn lemma_scroll_down_cells(t: TermView, top: nat, n: nat)
    requires
        term_wf(t),
        top <= t.bottom,
    ensures
        ({
            let u = scroll_down_region(t, top, n);
            let k: int = lesser(n as int, t.bottom - top + 1);
            &&& u == TermView { grid: u.grid, ..t }
            &&& u.grid.len() == t.grid.len()
            &&& forall|r: int, c: int|
                0 <= r < t.rows && 0 <= c < t.cols ==> #[trigger] cell_rc(u.grid, t.cols, r, c) == if top
                    <= r <= t.bottom {
                    if r - k >= top {
                        cell_rc(t.grid, t.cols, r - k, c)
                    } else {
                        blank_cell()
                    }
                } else {
                    cell_rc(t.grid, t.cols, r, c)
                }
        }),
{
    let u = scroll_down_region(t, top, n);
    let k: int = lesser(n as int, t.bottom - top + 1);
    assert forall|r: int, c: int| 0 <= r < t.rows && 0 <= c < t.cols implies #[trigger] cell_rc(
        u.grid,
        t.cols,
        r,
        c,
    ) == if top <= r <= t.bottom {
        if r - k >= top {
            cell_rc(t.grid, t.cols, r - k, c)
        } else {
            blank_cell()
        }
    } else {
        cell_rc(t.grid, t.cols, r, c)
    } by {
        let cols = t.cols as int;
        lemma_row_bounds(r, c, cols, top as int);
        lemma_row_bounds(r, c, cols, (t.bottom + 1) as int);
        lemma_row_bounds(r, c, cols, t.rows as int);
        lemma_row_bounds(r, c, cols, top + k);
        if r - k >= 0 {
            lemma_row_bounds(r - k, c, cols, 0);
        }
        assert((r * cols + c) - k * cols == (r - k) * cols + c) by (nonlinear_arith);
        assert((top + k) * cols == top * cols + k * cols) by (nonlinear_arith);
        assert(0 <= k * cols) by (nonlinear_arith)
            requires
                0 <= k,
                0 <= cols,
        ;
    }
}

/// The grid after scrolling rows `top ..= bottom` up by `k`, cell by cell.
pub open spec fn scrolled_up(t: TermView, u: Seq<Cell>, top: int, k: int) -> bool {
    forall|r: int, c: int|
        0 <= r < t.rows && 0 <= c < t.cols ==> #[trigger] cell_rc(u, t.cols, r, c) == if top <= r
            <= t.bottom {
            if r + k <= t.bottom {
                cell_rc(t.grid, t.cols, r + k, c)
            } else {
                blank_cell()
            }
        } else {
            cell_rc(t.grid, t.cols, r, c)
        }
}

/// The grid after scrolling rows `top ..= bottom` down by `k`, cell by cell.
pub open spec fn scrolled_down(t: TermView, u: Seq<Cell>, top: int, k: int) -> bool {
    forall|r: int, c: int|
        0 <= r < t.rows && 0 <= c < t.cols ==> #[trigger] cell_rc(u, t.cols, r, c) == if top <= r
            <= t.bottom {
            if r - k >= top {
                cell_rc(t.grid, t.cols, r - k, c)
            } else {
                blank_cell()
            }
        } else {
            cell_rc(t.grid, t.cols, r, c)
        }
}

/// The C0 controls: CR returns to column 0; BS steps one column left,
/// stopping at 0; HT jumps to the next multiple of 8, stopping at the last
/// column; LF, VT and FF go to column 0 of the next row, and on the scroll
/// region's bottom row scroll the region up one row instead; every other
/// control changes nothing. None of them changes the pen.
pub proof fn lemma_controls(t: TermView, b: u8)
    requires
        term_wf(t),
    ensures
        ({
            let u = apply_spec(t, ActionView::Control(b));
            &&& u.pen == t.pen
            &&& b == 13 ==> u == TermView { col: 0, wrap_pending: false, ..t }
            &&& b == 8 ==> u == TermView { col: greater(t.col - 1, 0) as nat, wrap_pending: false, ..t }
            &&& b == 9 ==> u == TermView {
                col: lesser(((t.col / 8 + 1) * 8) as int, t.cols - 1) as nat,
                wrap_pending: false,
                ..t
            }
            &&& (b == 10 || b == 11 || b == 12) ==> {
                &&& u.col == 0
                &&& !u.wrap_pending
                &&& t.row != t.bottom ==> u == TermView {
                    row: lesser((t.row + 1) as int, t.rows - 1) as nat,
                    col: 0,
                    wrap_pending: false,
                    ..t
                }
                &&& t.row == t.bottom ==> u == TermView { grid: u.grid, col: 0, wrap_pending: false, ..t }
                    && scrolled_up(t, u.grid, t.top as int, 1)
            }
            &&& !(b == 8 || b == 9 || b == 10 || b == 11 || b == 12 || b == 13) ==> u == t
        }),
{
    if b == 10 || b == 11 || b == 12 {
        if t.row == t.bottom {
            lemma_scroll_up_cells(t, t.top, 1);
        }
    }
}

/// Scrolling and line editing: `CSI n S` / `CSI n T` scroll the whole
/// region up / down by `n` (at least 1); `CSI n L` / `CSI n M` insert /
/// delete `n` lines at the cursor row inside the region (moving to column
/// 0) and do nothing outside it; `ESC M` on the region's top row scrolls it
/// down one row, elsewhere moves up one row (stopping at row 0).
pub proof fn lemma_scrolling(t: TermView, ps: Seq<Seq<u16>>)
    requires
        term_wf(t),
    ensures
        ({
            let n = move_count(ps, 0);
            let h = t.bottom - t.top + 1;
            let s_up = apply_spec(t, plain_csi(ps, 'S'));
            let s_down = apply_spec(t, plain_csi(ps, 'T'));
            let il = apply_spec(t, plain_csi(ps, 'L'));
            let dl = apply_spec(t, plain_csi(ps, 'M'));
            let ri = apply_spec(t, ActionView::Esc { intermediate: None, final_byte: 'M' });
            let inside = t.top <= t.row <= t.bottom;
            &&& s_up == TermView { grid: s_up.grid, wrap_pending: false, ..t }
            &&& scrolled_up(t, s_up.grid, t.top as int, lesser(n, h))
            &&& s_down == TermView { grid: s_down.grid, wrap_pending: false, ..t }
            &&& scrolled_down(t, s_down.grid, t.top as int, lesser(n, h))
            &&& inside ==> il == TermView { grid: il.grid, col: 0, wrap_pending: false, ..t }
                && scrolled_down(t, il.grid, t.row as int, lesser(n, t.bottom - t.row + 1))
            &&& !inside ==> il == TermView { wrap_pending: false, ..t }
            &&& inside ==> dl == TermView { grid: dl.grid, col: 0, wrap_pending: false, ..t }
                && scrolled_up(t, dl.grid, t.row as int, lesser(n, t.bottom - t.row + 1))
            &&& !inside ==> dl == TermView { wrap_pending: false, ..t }
            &&& t.row == t.top ==> ri == TermView { grid: ri.grid, wrap_pending: false, ..t }
                && scrolled_down(t, ri.grid, t.top as int, 1)
            &&& t.row != t.top ==> ri == TermView { row: greater(t.row - 1, 0) as nat, wrap_pending: false, ..t }
        }),
{
    let t0 = TermView { wrap_pending: false, ..t };
    let n = csi_n(ps, 0);
    assert(csi_p(ps, 0) as int == (if 0 < ps.len() && ps[0].len() > 0 { ps[0][0] as int } else { 0 }));
    assert(n as int == move_count(ps, 0));
    lemma_scroll_up_cells(t, t.top, n);
    lemma_scroll_down_cells(t, t.top, n);
    assert(scroll_up_region(t0, t.top, n).grid == scroll_up_region(t, t.top, n).grid);
    assert(scroll_down_region(t0, t.top, n).grid == scroll_down_region(t, t.top, n).grid);
    if t.top <= t.row <= t.bottom {
        lemma_scroll_down_cells(t, t.row, n);
        lemma_scroll_up_cells(t, t.row, n);
        assert(scroll_up_region(t0, t.row, n).grid == scroll_up_region(t, t.row, n).grid);
        assert(scroll_down_region(t0, t.row, n).grid == scroll_down_region(t, t.row, n).grid);
    }
    lemma_scroll_down_cells(t, t.top, 1);
}

proof fn lemma_index_inj(r1: int, c1: int, r2: int, c2: int, cols: int)
    requires
        0 <= c1 < cols,
        0 <= c2 < cols,
        0 <= r1,
        0 <= r2,
        r1 * cols + c1 == r2 * cols + c2,
    ensures
        r1 == r2 && c1 == c2,
{
    if r1 < r2 {
        assert(r1 * cols + cols <= r2 * cols) by (nonlinear_arith)
            requires
                r1 + 1 <= r2,
                0 <= cols,
        ;
    } else if r2 < r1 {
        assert(r2 * cols + cols <= r1 * cols) by (nonlinear_arith)
            requires
                r2 + 1 <= r1,
                0 <= cols,
        ;
    }
}

/// Printing a character: a zero-width one changes nothing; a one-column
/// one (with no wrap pending) is written with the pen at the cursor, the
/// cursor moves one column right or, on the last column, stays and waits
/// to wrap; a two-column one that fits writes its head and a continuation
/// cell. No cell of another row, and none two or more columns away on the
/// cursor row, changes.
pub proof fn lemma_print(t: TermView, c: char)
    requires
        term_wf(t),
        !t.wrap_pending,
    ensures
        ({
            let u = apply_spec(t, ActionView::Print(c));
            let w = char_width_spec(c);
            &&& w == 0 ==> u == t
            &&& w == 1 ==> {
                &&& cell_rc(u.grid, t.cols, t.row as int, t.col as int) == Cell { ch: c, style: t.pen, width: 1 }
                &&& u.row == t.row
                &&& t.col + 1 < t.cols ==> u.col == t.col + 1 && !u.wrap_pending
                &&& t.col + 1 >= t.cols ==> u.col == t.col && u.wrap_pending
            }
            &&& (w == 2 && t.col + 2 <= t.cols) ==> {
                &&& cell_rc(u.grid, t.cols, t.row as int, t.col as int) == Cell { ch: c, style: t.pen, width: 2 }
                &&& cell_rc(u.grid, t.cols, t.row as int, (t.col + 1) as int) == Cell { ch: ' ', style: t.pen, width: 0 }
                &&& u.row == t.row
                &&& t.col + 2 < t.cols ==> u.col == t.col + 2 && !u.wrap_pending
                &&& t.col + 2 >= t.cols ==> u.col == t.cols - 1 && u.wrap_pending
            }
            &&& (w == 1 || (w == 2 && t.col + 2 <= t.cols)) ==> {
                &&& u.pen == t.pen
                &&& u.grid.len() == t.grid.len()
                &&& forall|r: int, k: int|
                    0 <= r < t.rows && 0 <= k < t.cols && (r != t.row || k < t.col - 1 || k > t.col + w)
                        ==> #[trigger] cell_rc(u.grid, t.cols, r, k) == cell_rc(t.grid, t.cols, r, k)
            }
        }),
{
    let w = char_width_spec(c) as nat;
    if w == 1 || (w == 2 && t.col + 2 <= t.cols) {
        let cols = t.cols as int;
        let i = t.row * cols + t.col;
        lemma_index(t.rows, t.cols, t.row, t.col);
        if w == 2 {
            lemma_index(t.rows, t.cols, t.row, t.col + 1);
            assert(t.row * cols + (t.col + 1) == i + 1);
        }
        let u = apply_spec(t, ActionView::Print(c));
        assert forall|r: int, k: int|
            0 <= r < t.rows && 0 <= k < t.cols && (r != t.row || k < t.col - 1 || k > t.col + w)
                implies #[trigger] cell_rc(u.grid, t.cols, r, k) == cell_rc(t.grid, t.cols, r, k) by {
            let j = r * cols + k;
            lemma_index(t.rows, t.cols, r as nat, k as nat);
            if j == i {
                lemma_index_inj(r, k, t.row as int, t.col as int, cols);
            }
            if j == i + 1 && t.col + 1 < cols {
                lemma_index_inj(r, k, t.row as int, (t.col + 1) as int, cols);
            }
            if j == i - 1 && t.col > 0 {
                lemma_index_inj(r, k, t.row as int, t.col - 1, cols);
            }
            if j == i + 2 && t.col + 2 < cols {
                lemma_index_inj(r, k, t.row as int, (t.col + 2) as int, cols);
            }
        }
    }
}

/// Parameter `i`'s number as a CSI reads it: 0 when absent.
pub open spec fn param_number(ps: Seq<Seq<u16>>, i: int) -> int {
    if 0 <= i < ps.len() && ps[i].len() > 0 {
        ps[i][0] as int
    } else {
        0
    }
}

/// Cells `from ..= to` of `row` are blank in `u`; the cursor, the pen and
/// the size are those of `t`.
pub open spec fn blanked_in_row(t: TermView, u: TermView, row: int, from: int, to: int) -> bool {
    forall|k: int| from <= k <= to && 0 <= k < t.cols ==> #[trigger] cell_rc(u.grid, t.cols, row, k) == blank_cell()
}

/// Cells of rows other than `row`, and cells of `row` two or more columns
/// outside `from ..= to`, are those of `t`, save rows `lo .. hi` (which
/// the caller states separately).
pub open spec fn untouched_except(t: TermView, u: TermView, row: int, from: int, to: int, lo: int, hi: int) -> bool {
    forall|r: int, k: int|
        0 <= r < t.rows && 0 <= k < t.cols && !(lo <= r < hi) && (r != row || k < from - 1 || k > to + 1)
            ==> #[trigger] cell_rc(u.grid, t.cols, r, k) == cell_rc(t.grid, t.cols, r, k)
}

proof fn lemma_erase_line_cells(t: TermView, mode: nat)
    requires
        term_wf(t),
        mode <= 2,
    ensures
        ({
            let u = erase_line_spec(t, mode);
            let from: int = if mode == 0 { t.col as int } else { 0 };
            let to: int = if mode == 1 { t.col as int } else { t.cols - 1 };
            &&& u == TermView { grid: u.grid, ..t }
            &&& u.grid.len() == t.grid.len()
            &&& blanked_in_row(t, u, t.row as int, from, to)
            &&& untouched_except(t, u, t.row as int, from, to, 0, 0)
        }),
{
    let u = erase_line_spec(t, mode);
    let cols = t.cols as int;
    let from: int = if mode == 0 { t.col as int } else { 0 };
    let to: int = if mode == 1 { t.col as int } else { t.cols - 1 };
    lemma_index(t.rows, t.cols, t.row, from as nat);
    lemma_index(t.rows, t.cols, t.row, to as nat);
    let base = t.row * cols;
    assert forall|k: int| from <= k <= to && 0 <= k < t.cols implies #[trigger] cell_rc(
        u.grid,
        t.cols,
        t.row as int,
        k,
    ) == blank_cell() by {
        lemma_index(t.rows, t.cols, t.row, k as nat);
    }
    assert forall|r: int, k: int|
        0 <= r < t.rows && 0 <= k < t.cols && !(0 <= r < 0) && (r != t.row || k < from - 1 || k > to + 1)
            implies #[trigger] cell_rc(u.grid, t.cols, r, k) == cell_rc(t.grid, t.cols, r, k) by {
        let j = r * cols + k;
        lemma_index(t.rows, t.cols, r as nat, k as nat);
        lemma_row_bounds(r, k, cols, t.row as int);
        lemma_row_bounds(r, k, cols, (t.row + 1) as int);
        if from > 0 && j == base + from - 1 {
            lemma_index_inj(r, k, t.row as int, from - 1, cols);
        }
        if from + 1 < cols && j == base + from + 1 {
            lemma_index_inj(r, k, t.row as int, from + 1, cols);
        }
        if to > 0 && j == base + to - 1 {
            lemma_index_inj(r, k, t.row as int, to - 1, cols);
        }
        if to + 1 < cols && j == base + to + 1 {
            lemma_index_inj(r, k, t.row as int, to + 1, cols);
        }
        if base + from <= j < base + to + 1 {
            lemma_index_inj(r, k, t.row as int, j - base, cols);
        }
    }
}

/// Erasing: `CSI K` blanks the cursor row from the cursor to its end, `CSI
/// 1 K` from its start to the cursor, `CSI 2 K` all of it; `CSI J` does the
/// same as `CSI K` and blanks every row below, `CSI 1 J` as `CSI 1 K` and
/// every row above, `CSI 2 J` (or `3`) the whole screen. Nothing else moves:
/// other rows keep their cells, as do cells of the cursor row two or more
/// columns outside the erased span (the column next to it may lose the
/// other half of a wide character), and the cursor and pen stay.
pub proof fn lemma_erase(t: TermView, ps: Seq<Seq<u16>>)
    requires
        term_wf(t),
    ensures
        ({
            let m = param_number(ps, 0);
            let from: int = if m == 0 { t.col as int } else { 0 };
            let to: int = if m == 1 { t.col as int } else { t.cols - 1 };
            let el = apply_spec(t, plain_csi(ps, 'K'));
            let ed = apply_spec(t, plain_csi(ps, 'J'));
            let row = t.row as int;
            &&& m <= 2 ==> el == TermView { grid: el.grid, wrap_pending: false, ..t }
                && blanked_in_row(t, el, row, from, to) && untouched_except(t, el, row, from, to, 0, 0)
            &&& m > 2 ==> el == TermView { wrap_pending: false, ..t }
            &&& m <= 1 ==> {
                let lo: int = if m == 0 { row + 1 } else { 0 };
                let hi: int = if m == 0 { t.rows as int } else { row };
                &&& ed == TermView { grid: ed.grid, wrap_pending: false, ..t }
                &&& blanked_in_row(t, ed, row, from, to)
                &&& forall|r: int, k: int|
                    lo <= r < hi && 0 <= k < t.cols ==> #[trigger] cell_rc(ed.grid, t.cols, r, k) == blank_cell()
                &&& untouched_except(t, ed, row, from, to, lo, hi)
            }
            &&& (m == 2 || m == 3) ==> ed == TermView { grid: ed.grid, wrap_pending: false, ..t }
                && forall|r: int, k: int|
                0 <= r < t.rows && 0 <= k < t.cols ==> #[trigger] cell_rc(ed.grid, t.cols, r, k) == blank_cell()
            &&& m > 3 ==> ed == TermView { wrap_pending: false, ..t }
        }),
{
    let t0 = TermView { wrap_pending: false, ..t };
    let m = param_number(ps, 0);
    assert(csi_p(ps, 0) as int == m);
    let cols = t.cols as int;
    let row = t.row as int;
    if m <= 2 {
        lemma_erase_line_cells(t0, m as nat);
    }
    let ed = apply_spec(t, plain_csi(ps, 'J'));
    if m <= 1 {
        let lo: int = if m == 0 { row + 1 } else { 0 };
        let hi: int = if m == 0 { t.rows as int } else { row };
        let t1 = erase_line_spec(t0, m as nat);
        assert(ed.grid == blank_span(t1.grid, (lo * cols) as nat, (hi * cols) as nat)) by {
            assert((t.row + 1) * t.cols == (row + 1) * cols);
        }
        assert forall|r: int, k: int| 0 <= r < t.rows && 0 <= k < t.cols implies #[trigger] cell_rc(
            ed.grid,
            t.cols,
            r,
            k,
        ) == if lo <= r < hi {
            blank_cell()
        } else {
            cell_rc(t1.grid, t.cols, r, k)
        } by {
            lemma_index(t.rows, t.cols, r as nat, k as nat);
            lemma_row_bounds(r, k, cols, lo);
            lemma_row_bounds(r, k, cols, hi);
        }
    }
    if m == 2 || m == 3 {
        assert forall|r: int, k: int| 0 <= r < t.rows && 0 <= k < t.cols implies #[trigger] cell_rc(
            ed.grid,
            t.cols,
            r,
            k,
        ) == blank_cell() by {
            lemma_index(t.rows, t.cols, r as nat, k as nat);
        }
    }
}

proof fn lemma_clear_wide_cells(t: TermView, r: nat, c: nat)
    requires
        term_wf(t),
        r < t.rows,
        c < t.cols,
    ensures
        ({
            let u = clear_wide_at(t, r, c);
            &&& u == TermView { grid: u.grid, ..t }
            &&& u.grid.len() == t.grid.len()
            &&& forall|rr: int, k: int|
                0 <= rr < t.rows && 0 <= k < t.cols && (rr != r || (k != c - 1 && k != c + 1)) ==> #[trigger] cell_rc(
                    u.grid,
                    t.cols,
                    rr,
                    k,
                ) == cell_rc(t.grid, t.cols, rr, k)
        }),
{
    let u = clear_wide_at(t, r, c);
    let cols = t.cols as int;
    let i = r * cols + c;
    lemma_index(t.rows, t.cols, r, c);
    assert forall|rr: int, k: int|
        0 <= rr < t.rows && 0 <= k < t.cols && (rr != r || (k != c - 1 && k != c + 1)) implies #[trigger] cell_rc(
            u.grid,
            t.cols,
            rr,
            k,
        ) == cell_rc(t.grid, t.cols, rr, k) by {
        lemma_index(t.rows, t.cols, rr as nat, k as nat);
        let j = rr * cols + k;
        if j == i + 1 && c + 1 < cols {
            lemma_index_inj(rr, k, r as int, (c + 1) as int, cols);
        }
        if j == i - 1 && c > 0 {
            lemma_index_inj(rr, k, r as int, c - 1, cols);
        }
    }
}

/// Character editing on the cursor row, with `n` the count (at least 1)
/// and `k` = `n` capped at the columns left: `CSI n P` moves the cells
/// right of the deleted ones `k` columns left and blanks the freed end of
/// the row; `CSI n @` moves the cells from the cursor on `k` columns right
/// (dropping those pushed past the edge) and blanks the `k` cells at the
/// cursor; `CSI n X` blanks `n` cells from the cursor, up to the edge.
/// Other rows keep their cells and the cursor stays. (The column next to
/// the cursor may lose the other half of a wide character first.)
pub proof fn lemma_edit_chars(t: TermView, ps: Seq<Seq<u16>>)
    requires
        term_wf(t),
    ensures
        ({
            let n = move_count(ps, 0);
            let k = lesser(n, t.cols - t.col);
            let col = t.col as int;
            let row = t.row as int;
            let dch = apply_spec(t, plain_csi(ps, 'P'));
            let ich = apply_spec(t, plain_csi(ps, '@'));
            let ech = apply_spec(t, plain_csi(ps, 'X'));
            &&& dch == TermView { grid: dch.grid, wrap_pending: false, ..t }
            &&& ich == TermView { grid: ich.grid, wrap_pending: false, ..t }
            &&& ech == TermView { grid: ech.grid, wrap_pending: false, ..t }
            &&& forall|p: int|
                col <= p < t.cols ==> #[trigger] cell_rc(dch.grid, t.cols, row, p) == if p + k < t.cols {
                    if p + k != col + 1 && p + k != col - 1 {
                        cell_rc(t.grid, t.cols, row, p + k)
                    } else {
                        cell_rc(dch.grid, t.cols, row, p)
                    }
                } else {
                    blank_cell()
                }
            &&& forall|p: int|
                col <= p < t.cols ==> #[trigger] cell_rc(ich.grid, t.cols, row, p) == if p >= col + k {
                    if p - k != col + 1 && p - k != col - 1 {
                        cell_rc(t.grid, t.cols, row, p - k)
                    } else {
                        cell_rc(ich.grid, t.cols, row, p)
                    }
                } else {
                    blank_cell()
                }
            &&& forall|p: int|
                col <= p < lesser(col + n, t.cols as int) ==> #[trigger] cell_rc(ech.grid, t.cols, row, p)
                    == blank_cell()
            &&& forall|r: int, q: int|
                0 <= r < t.rows && 0 <= q < t.cols && r != row ==> cell_rc(dch.grid, t.cols, r, q)
                    == cell_rc(t.grid, t.cols, r, q) && cell_rc(ich.grid, t.cols, r, q) == cell_rc(
                    t.grid,
                    t.cols,
                    r,
                    q,
                ) && #[trigger] cell_rc(ech.grid, t.cols, r, q) == cell_rc(t.grid, t.cols, r, q)
        }),
{
    let t0 = TermView { wrap_pending: false, ..t };
    let nn = csi_n(ps, 0);
    assert(csi_p(ps, 0) as int == (if 0 < ps.len() && ps[0].len() > 0 { ps[0][0] as int } else { 0 }));
    assert(nn as int == move_count(ps, 0));
    let cols = t.cols as int;
    let row = t.row as int;
    let col = t.col as int;
    let base = row * cols;
    lemma_index(t.rows, t.cols, t.row, t.col);
    lemma_index(t.rows, t.cols, t.row, 0);
    lemma_clear_wide_cells(t0, t.row, t.col);
    let t1 = clear_wide_at(t0, t.row, t.col);
    let kk = min_nat(nn, (t.cols - t.col) as nat);
    let dch = apply_spec(t, plain_csi(ps, 'P'));
    let ich = apply_spec(t, plain_csi(ps, '@'));
    let ech = apply_spec(t, plain_csi(ps, 'X'));
    assert(dch.grid == shift_left(t1.grid, (base + col) as nat, (base + cols) as nat, kk));
    assert(ich.grid == shift_right(t1.grid, (base + col) as nat, (base + cols) as nat, kk));
    let end = min_nat(t.col + nn, t.cols);
    let t2 = if end > 0 { clear_wide_at(t1, t.row, (end - 1) as nat) } else { t1 };
    if end > 0 {
        lemma_clear_wide_cells(t1, t.row, (end - 1) as nat);
    }
    assert(ech.grid == blank_span(t2.grid, (base + col) as nat, (base + end) as nat));
    assert forall|p: int| col <= p < t.cols implies #[trigger] cell_rc(dch.grid, t.cols, row, p) == if p + kk < t.cols {
        if p + kk != col + 1 && p + kk != col - 1 {
            cell_rc(t.grid, t.cols, row, p + kk)
        } else {
            cell_rc(dch.grid, t.cols, row, p)
        }
    } else {
        blank_cell()
    } by {
        lemma_index(t.rows, t.cols, t.row, p as nat);
        if p + kk < t.cols {
            lemma_index(t.rows, t.cols, t.row, (p + kk) as nat);
        }
    }
    assert forall|p: int| col <= p < t.cols implies #[trigger] cell_rc(ich.grid, t.cols, row, p) == if p >= col + kk {
        if p - kk != col + 1 && p - kk != col - 1 {
            cell_rc(t.grid, t.cols, row, p - kk)
        } else {
            cell_rc(ich.grid, t.cols, row, p)
        }
    } else {
        blank_cell()
    } by {
        lemma_index(t.rows, t.cols, t.row, p as nat);
        if p >= col + kk {
            lemma_index(t.rows, t.cols, t.row, (p - kk) as nat);
        }
    }
    assert forall|p: int| col <= p < lesser(col + nn, t.cols as int) implies #[trigger] cell_rc(
        ech.grid,
        t.cols,
        row,
        p,
    ) == blank_cell() by {
        lemma_index(t.rows, t.cols, t.row, p as nat);
    }
    assert forall|r: int, q: int| 0 <= r < t.rows && 0 <= q < t.cols && r != row implies cell_rc(
        dch.grid,
        t.cols,
        r,
        q,
    ) == cell_rc(t.grid, t.cols, r, q) && cell_rc(ich.grid, t.cols, r, q) == cell_rc(t.grid, t.cols, r, q)
        && #[trigger] cell_rc(ech.grid, t.cols, r, q) == cell_rc(t.grid, t.cols, r, q) by {
        lemma_index(t.rows, t.cols, r as nat, q as nat);
        lemma_row_bounds(r, q, cols, row);
        lemma_row_bounds(r, q, cols, row + 1);
        assert(base + cols == (row + 1) * cols) by (nonlinear_arith)
            requires
                base == row * cols,
        ;
    }
}

// ---------------------------------------------------------------------------
// The alternate screen and the saved cursor.
// ---------------------------------------------------------------------------

/// A DEC private mode parameter naming the alternate screen (47, 1047 or
/// 1049).
pub open spec fn screen_mode(p: Seq<u16>) -> bool {
    let v = if p.len() > 0 {
        p[0]
    } else {
        0u16
    };
    v == 47 || v == 1047 || v == 1049
}

/// An action that switches screens or resets the terminal: a DEC private
/// mode sequence naming mode 47, 1047 or 1049, or `ESC c`.
pub open spec fn switches_screen(a: ActionView) -> bool {
    match a {
        ActionView::Csi { private, params, intermediate, final_byte } => private == Some('?')
            && intermediate is None && exists|i: int| 0 <= i < params.len() && screen_mode(#[trigger] params[i]),
        ActionView::Esc { intermediate, final_byte } => intermediate is None && final_byte == 'c',
        _ => false,
    }
}

proof fn lemma_dec_private_keeps(t: TermView, ps: Seq<Seq<u16>>, f: char)
    requires
        forall|i: int| 0 <= i < ps.len() ==> !screen_mode(#[trigger] ps[i]),
    ensures
        dec_private_spec(t, ps, f).alt == t.alt,
        dec_private_spec(t, ps, f).saved == t.saved,
    decreases ps.len(),
{
    if ps.len() > 0 {
        let d = ps.drop_last();
        assert forall|i: int| 0 <= i < d.len() implies !screen_mode(#[trigger] d[i]) by {
            assert(d[i] == ps[i]);
        }
        lemma_dec_private_keeps(t, d, f);
        assert(ps.last() == ps[ps.len() - 1]);
        assert(!screen_mode(ps[ps.len() - 1]));
    }
}

proof fn lemma_line_feed_keeps(t: TermView)
    ensures
        line_feed(t).alt == t.alt,
        reverse_line_feed(t).alt == t.alt,
{
}

proof fn lemma_print_keeps_alt(t: TermView, c: char)
    ensures
        print_spec(t, c).alt == t.alt,
{
    let t1 = print_wrap(t);
    lemma_line_feed_keeps(TermView { col: 0, wrap_pending: false, ..t });
    assert(t1.alt == t.alt);
    lemma_line_feed_keeps(TermView { col: 0, ..t1 });
    let w = char_width_spec(c) as nat;
    assert(print_write(t1, c, w).alt == t1.alt);
    assert(print_write(line_feed(TermView { col: 0, ..t1 }), c, w).alt == t.alt);
}

proof fn lemma_csi_keeps_alt(t: TermView, ps: Seq<Seq<u16>>, f: char)
    ensures
        csi_dispatch(t, ps, f).alt == t.alt,
{
    let n = csi_n(ps, 0);
    if f == 'J' {
        assert(erase_line_spec(t, 0).alt == t.alt);
        assert(erase_line_spec(t, 1).alt == t.alt);
        assert(erase_display_spec(t, csi_p(ps, 0)).alt == t.alt);
    } else if f == 'K' {
        assert(erase_line_spec(t, csi_p(ps, 0)).alt == t.alt);
    } else if f == 'L' {
        assert(insert_lines_spec(t, n).alt == t.alt);
    } else if f == 'M' {
        assert(delete_lines_spec(t, n).alt == t.alt);
    } else if f == 'P' {
        assert(delete_chars_spec(t, n).alt == t.alt);
    } else if f == '@' {
        assert(insert_chars_spec(t, n).alt == t.alt);
    } else if f == 'X' {
        assert(erase_chars_spec(t, n).alt == t.alt);
    } else if f == 'r' {
        assert(set_scroll_region_spec(t, csi_p(ps, 0), csi_p(ps, 1)).alt == t.alt);
    } else if f == 's' || f == 'u' {
        assert(save_cursor_spec(t).alt == t.alt);
        assert(restore_cursor_spec(t).alt == t.alt);
    }
}

/// Every action but a screen switch leaves the saved main screen alone.
pub proof fn lemma_apply_keeps_alt(t: TermView, a: ActionView)
    requires
        !switches_screen(a),
    ensures
        apply_spec(t, a).alt == t.alt,
{
    match a {
        ActionView::Print(c) => {
            lemma_print_keeps_alt(t, c);
        },
        ActionView::Control(b) => {
            lemma_line_feed_keeps(t);
        },
        ActionView::Csi { private, params, intermediate, final_byte } => {
            if intermediate is None {
                if private == Some('?') {
                    lemma_dec_private_keeps(t, params, final_byte);
                } else if private is None {
                    lemma_csi_keeps_alt(TermView { wrap_pending: false, ..t }, params, final_byte);
                }
            }
        },
        ActionView::Esc { intermediate, final_byte } => {
            lemma_line_feed_keeps(t);
            assert(save_cursor_spec(t).alt == t.alt);
            assert(restore_cursor_spec(t).alt == t.alt);
        },
        ActionView::Osc(_) => {},
    }
}

proof fn lemma_feed_keeps_alt(t: TermView, acts: Seq<ActionView>)
    requires
        forall|i: int| 0 <= i < acts.len() ==> !switches_screen(#[trigger] acts[i]),
    ensures
        feed_spec(t, acts).alt == t.alt,
    decreases acts.len(),
{
    if acts.len() > 0 {
        let d = acts.drop_last();
        assert forall|i: int| 0 <= i < d.len() implies !switches_screen(#[trigger] d[i]) by {
            assert(d[i] == acts[i]);
        }
        lemma_feed_keeps_alt(t, d);
        assert(!switches_screen(acts[acts.len() - 1]));
        lemma_apply_keeps_alt(feed_spec(t, d), acts.last());
    }
}

/// The alternate screen: `CSI ? 1049 h` shows a blank screen with the
/// cursor home; whatever is then drawn on it (any actions that do not
/// switch screens), `CSI ? 1049 l` brings back the main screen's cells,
/// cursor and pen exactly as they were.
pub proof fn lemma_alternate_screen(t: TermView, acts: Seq<ActionView>)
    requires
        term_wf(t),
        t.alt is None,
        forall|i: int| 0 <= i < acts.len() ==> !switches_screen(#[trigger] acts[i]),
    ensures
        ({
            let enter = ActionView::Csi { private: Some('?'), params: seq![seq![1049u16]], intermediate: None, final_byte: 'h' };
            let leave = ActionView::Csi { private: Some('?'), params: seq![seq![1049u16]], intermediate: None, final_byte: 'l' };
            let shown = apply_spec(t, enter);
            let back = apply_spec(feed_spec(shown, acts), leave);
            &&& shown.row == 0 && shown.col == 0
            &&& forall|i: int| 0 <= i < t.grid.len() ==> #[trigger] shown.grid[i] == blank_cell()
            &&& shown.grid.len() == t.grid.len()
            &&& back.grid == t.grid
            &&& back.row == t.row && back.col == t.col
            &&& back.pen == t.pen
            &&& back.alt is None
        }),
{
    let enter = ActionView::Csi { private: Some('?'), params: seq![seq![1049u16]], intermediate: None, final_byte: 'h' };
    let ps = seq![seq![1049u16]];
    assert(ps.drop_last() =~= Seq::<Seq<u16>>::empty());
    assert(param_value(ps.last()) == 1049);
    assert(dec_private_spec(t, ps.drop_last(), 'h') == t);
    assert(dec_private_spec(t, ps, 'h') == enter_alt_spec(t));
    let shown = apply_spec(t, enter);
    assert(shown == enter_alt_spec(t));
    lemma_feed_keeps_alt(shown, acts);
    let mid = feed_spec(shown, acts);
    assert(mid.alt == Some(AltView { grid: t.grid, row: t.row, col: t.col, pen: t.pen }));
    assert(dec_private_spec(mid, ps.drop_last(), 'l') == mid);
    assert(dec_private_spec(mid, ps, 'l') == leave_alt_spec(mid));
}

/// Saving and restoring the cursor (`ESC 7` / `ESC 8`, `CSI s` / `CSI u`)
/// gives back the cursor position and the pen, and touches no cell.
pub proof fn lemma_save_restore(t: TermView)
    requires
        term_wf(t),
    ensures
        ({
            let a = apply_spec(apply_spec(t, ActionView::Esc { intermediate: None, final_byte: '7' }), ActionView::Esc { intermediate: None, final_byte: '8' });
            let b = apply_spec(apply_spec(t, plain_csi(seq![], 's')), plain_csi(seq![], 'u'));
            &&& a.row == t.row && a.col == t.col && a.pen == t.pen && a.grid == t.grid
            &&& b.row == t.row && b.col == t.col && b.pen == t.pen && b.grid == t.grid
        }),
{
}

/// Display widths by class: printable ASCII and Latin text take one
/// column; combining diacritics (U+0300–U+036F) none; CJK ideographs
/// (U+4E00–U+9FFF), Hangul syllables (U+AC00–U+D7A3), kana (U+3041–U+33FF)
/// and fullwidth forms (U+FF00–U+FF60) two.
pub proof fn lemma_char_width_classes(c: char)
    ensures
        (0x20 <= c as u32 <= 0x7e || 0xa0 <= c as u32 <= 0x2ff) ==> char_width_spec(c) == 1,
        (0x300 <= c as u32 <= 0x36f) ==> char_width_spec(c) == 0,
        (0x4e00 <= c as u32 <= 0x9fff || 0xac00 <= c as u32 <= 0xd7a3 || 0x3041 <= c as u32 <= 0x33ff
            || 0xff00 <= c as u32 <= 0xff60) ==> char_width_spec(c) == 2,
{
}

} // verus!
