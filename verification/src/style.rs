//! Cell styles and SGR (Select Graphic Rendition) handling.
//!
//! A [`Style`] is what a cell *looks like*: attribute flags plus foreground
//! and background color. Styles serialize to a short, stable, human-readable
//! form (`bold,fg=red`) that appears verbatim in snapshot files and diffs, so
//! a style regression reads like English instead of `\x1b[1;31m`.

pub mod attr;
pub mod roundtrip;

use vstd::prelude::*;
use crate::parser::{Param, param_value, params_view};
use crate::text::{
    chars_of, dec_text, digit_char, eq_str, join_strings, join_with, lemma_utf8_len_ge,
    parse_unsigned, push_decimal, push_str, split_chars, split_on, string_from, strings_view,
    strip_prefix, strip_prefix_str, trim_chars, trim_ws, unsigned_value, utf8_len, utf8_len_of,
};

verus! {

/// Terminal color as the application requested it — palette indices are
/// never resolved to RGB, because snapshots must not depend on anyone's
/// theme.
#[derive(Debug, Clone, Copy, PartialEq, Eq, Hash, Structural)]
pub enum Color {
    Default,
    /// The classic 16 colors: 0–7 normal, 8–15 bright.
    Named(u8),
    /// 256-color palette index (16–255; 0–15 normalize to `Named`).
    Indexed(u8),
    /// 24-bit truecolor.
    Rgb(u8, u8, u8),
}

impl Default for Color {
    fn default() -> (c: Color)
        ensures
            c == Color::Default,
    {
        Color::Default
    }
}

/// The names of the eight base colors.
pub open spec fn color_name(n: nat) -> Seq<char> {
    if n == 0 {
        "black"@
    } else if n == 1 {
        "red"@
    } else if n == 2 {
        "green"@
    } else if n == 3 {
        "yellow"@
    } else if n == 4 {
        "blue"@
    } else if n == 5 {
        "magenta"@
    } else if n == 6 {
        "cyan"@
    } else {
        "white"@
    }
}

/// Position of a base color name.
pub open spec fn name_index(s: Seq<char>) -> Option<nat> {
    if s == color_name(0) {
        Some(0)
    } else if s == color_name(1) {
        Some(1)
    } else if s == color_name(2) {
        Some(2)
    } else if s == color_name(3) {
        Some(3)
    } else if s == color_name(4) {
        Some(4)
    } else if s == color_name(5) {
        Some(5)
    } else if s == color_name(6) {
        Some(6)
    } else if s == color_name(7) {
        Some(7)
    } else {
        None
    }
}

/// Palette indices 0–15 are the named colors.
pub open spec fn normalize_index(i: u8) -> Color {
    if i < 16 {
        Color::Named(i)
    } else {
        Color::Indexed(i)
    }
}

/// The color of a 24-bit value.
pub open spec fn rgb_of(v: u32) -> Color {
    Color::Rgb((v >> 16) as u8, (v >> 8) as u8, v as u8)
}

/// A lowercase hexadecimal digit.
pub open spec fn hex_char(d: nat) -> char {
    if d < 10 {
        digit_char(d)
    } else {
        ('a' as u32 + (d - 10)) as char
    }
}

/// Two lowercase hexadecimal digits.
pub open spec fn hex2(b: u8) -> Seq<char> {
    seq![hex_char((b / 16) as nat), hex_char((b % 16) as nat)]
}

/// The display form of a color.
pub open spec fn color_text(c: Color) -> Seq<char> {
    match c {
        Color::Default => "default"@,
        Color::Named(n) => if n < 8 {
            color_name(n as nat)
        } else {
            "bright-"@ + color_name((n % 8) as nat)
        },
        Color::Indexed(i) => "idx"@ + dec_text(i as nat),
        Color::Rgb(r, g, b) => "#"@ + hex2(r) + hex2(g) + hex2(b),
    }
}

/// What [`Color::parse`] reads from a display form.
pub open spec fn color_parse_spec(s: Seq<char>) -> Option<Color> {
    if s == "default"@ {
        Some(Color::Default)
    } else if s.len() > 0 && s[0] == '#' {
        let hex = s.skip(1);
        if utf8_len(hex) == 6 {
            match unsigned_value(hex, 16) {
                Some(v) => if v <= 0xffff_ffff {
                    Some(rgb_of(v as u32))
                } else {
                    None
                },
                None => None,
            }
        } else {
            None
        }
    } else if strip_prefix(s, "idx"@) is Some {
        match unsigned_value(strip_prefix(s, "idx"@).unwrap(), 10) {
            Some(v) => if v <= 255 {
                Some(normalize_index(v as u8))
            } else {
                None
            },
            None => None,
        }
    } else if strip_prefix(s, "bright-"@) is Some {
        match name_index(strip_prefix(s, "bright-"@).unwrap()) {
            Some(n) => Some(Color::Named((n + 8) as u8)),
            None => None,
        }
    } else {
        match name_index(s) {
            Some(n) => Some(Color::Named(n as u8)),
            None => None,
        }
    }
}

fn color_name_str(n: u8) -> (s: &'static str)
    ensures
        s@ == color_name(n as nat),
{
    if n == 0 {
        "black"
    } else if n == 1 {
        "red"
    } else if n == 2 {
        "green"
    } else if n == 3 {
        "yellow"
    } else if n == 4 {
        "blue"
    } else if n == 5 {
        "magenta"
    } else if n == 6 {
        "cyan"
    } else {
        "white"
    }
}

fn name_index_of(s: &[char]) -> (r: Option<u8>)
    ensures
        r matches Some(n) ==> name_index(s@) == Some(n as nat),
        r is None ==> name_index(s@) is None,
{
    let mut n: u8 = 0;
    while n < 8
        invariant
            n <= 8,
            forall|k: nat| k < n ==> s@ != #[trigger] color_name(k),
        decreases 8 - n,
    {
        if eq_str(s, color_name_str(n)) {
            return Some(n);
        }
        n += 1;
    }
    assert(s@ != color_name(0) && s@ != color_name(1) && s@ != color_name(2) && s@ != color_name(3));
    assert(s@ != color_name(4) && s@ != color_name(5) && s@ != color_name(6) && s@ != color_name(7));
    None
}

pub(crate) fn push_hex2(s: &mut String, b: u8)
    ensures
        final(s)@ == old(s)@ + hex2(b),
{
    let hi = hex_digit(b / 16);
    let lo = hex_digit(b % 16);
    s.push(hi);
    s.push(lo);
    assert(old(s)@.push(hi).push(lo) == old(s)@ + hex2(b));
}

fn hex_digit(d: u8) -> (c: char)
    requires
        d < 16,
    ensures
        c == hex_char(d as nat),
{
    let code: u32 = if d < 10 {
        '0' as u32 + d as u32
    } else {
        'a' as u32 + (d as u32 - 10)
    };
    match char::from_u32(code) {
        Some(c) => {
            proof {
                vstd::utf8::char_u32_cast(c, code);
            }
            c
        },
        None => '0',
    }
}

impl Color {
    /// Parse the display form back. Used by the snapshot reader.
    pub fn parse(s: &str) -> (r: Option<Color>)
        ensures
            r == color_parse_spec(s@),
    {
        let cs = chars_of(s);
        Self::parse_chars(cs.as_slice())
    }

    /// [`Color::parse`] on a character sequence.
    pub fn parse_chars(s: &[char]) -> (r: Option<Color>)
        ensures
            r == color_parse_spec(s@),
    {
        if eq_str(s, "default") {
            return Some(Color::Default);
        }
        if s.len() > 0 && s[0] == '#' {
            let hex = crate::text::skip_chars(s, 1);
            if hex.len() > 6 {
                proof {
                    lemma_utf8_len_ge(hex@);
                }
                return None;
            }
            if utf8_len_of(hex.as_slice()) != 6 {
                return None;
            }
            return match parse_unsigned(hex.as_slice(), 16, 0xffff_ffff) {
                Some(v) => {
                    let v32 = v as u32;
                    Some(Color::Rgb((v32 >> 16) as u8, (v32 >> 8) as u8, v32 as u8))
                },
                None => None,
            };
        }
        match strip_prefix_str(s, "idx") {
            Some(rest) => {
                return match parse_unsigned(rest.as_slice(), 10, 255) {
                    Some(v) => Some(Self::normalize_index(v as u8)),
                    None => None,
                };
            },
            None => {},
        }
        match strip_prefix_str(s, "bright-") {
            Some(rest) => {
                return match name_index_of(rest.as_slice()) {
                    Some(n) => Some(Color::Named(n + 8)),
                    None => None,
                };
            },
            None => {},
        }
        match name_index_of(s) {
            Some(n) => Some(Color::Named(n)),
            None => None,
        }
    }

    pub fn normalize_index(i: u8) -> (c: Color)
        ensures
            c == normalize_index(i),
    {
        if i < 16 {
            Color::Named(i)
        } else {
            Color::Indexed(i)
        }
    }

    /// The display form: `default`, `red`, `bright-red`, `idx208`, `#ff8800`.
    pub fn to_text(&self) -> (s: String)
        ensures
            s@ == color_text(*self),
    {
        match *self {
            Color::Default => string_from("default"),
            Color::Named(n) => {
                if n < 8 {
                    string_from(color_name_str(n))
                } else {
                    let mut s = string_from("bright-");
                    push_str(&mut s, color_name_str(n % 8));
                    s
                }
            },
            Color::Indexed(i) => {
                let mut s = string_from("idx");
                push_decimal(&mut s, i as u64);
                s
            },
            Color::Rgb(r, g, b) => {
                let mut s = string_from("#");
                push_hex2(&mut s, r);
                push_hex2(&mut s, g);
                push_hex2(&mut s, b);
                s
            },
        }
    }
}

/// The style of a plain cell.
pub open spec fn default_style() -> Style {
    Style { attrs: 0, fg: Color::Default, bg: Color::Default }
}

/// What one cell looks like.
#[derive(Debug, Clone, Copy, PartialEq, Eq, Hash, Structural)]
pub struct Style {
    pub attrs: u16,
    pub fg: Color,
    pub bg: Color,
}

impl Default for Style {
    fn default() -> (s: Style)
        ensures
            s == default_style(),
    {
        Style { attrs: 0, fg: Color::Default, bg: Color::Default }
    }
}

/// Flag `flag` switched on or off.
pub open spec fn set_flag(st: Style, flag: u16, on: bool) -> Style {
    if on {
        Style { attrs: st.attrs | flag, ..st }
    } else {
        Style { attrs: st.attrs & !flag, ..st }
    }
}

/// One plain (non-extended) SGR code applied to a pen.
pub open spec fn sgr_one(st: Style, v: u16) -> Style {
    if v == 0 {
        default_style()
    } else if v == 1 {
        set_flag(st, attr::BOLD, true)
    } else if v == 2 {
        set_flag(st, attr::DIM, true)
    } else if v == 3 {
        set_flag(st, attr::ITALIC, true)
    } else if v == 4 {
        set_flag(st, attr::UNDERLINE, true)
    } else if v == 5 || v == 6 {
        set_flag(st, attr::BLINK, true)
    } else if v == 7 {
        set_flag(st, attr::REVERSE, true)
    } else if v == 8 {
        set_flag(st, attr::HIDDEN, true)
    } else if v == 9 {
        set_flag(st, attr::STRIKE, true)
    } else if v == 21 || v == 22 {
        set_flag(set_flag(st, attr::BOLD, false), attr::DIM, false)
    } else if v == 23 {
        set_flag(st, attr::ITALIC, false)
    } else if v == 24 {
        set_flag(st, attr::UNDERLINE, false)
    } else if v == 25 {
        set_flag(st, attr::BLINK, false)
    } else if v == 27 {
        set_flag(st, attr::REVERSE, false)
    } else if v == 28 {
        set_flag(st, attr::HIDDEN, false)
    } else if v == 29 {
        set_flag(st, attr::STRIKE, false)
    } else if 30 <= v <= 37 {
        Style { fg: Color::Named((v - 30) as u8), ..st }
    } else if v == 39 {
        Style { fg: Color::Default, ..st }
    } else if 40 <= v <= 47 {
        Style { bg: Color::Named((v - 40) as u8), ..st }
    } else if v == 49 {
        Style { bg: Color::Default, ..st }
    } else if 90 <= v <= 97 {
        Style { fg: Color::Named((v - 90 + 8) as u8), ..st }
    } else if 100 <= v <= 107 {
        Style { bg: Color::Named((v - 100 + 8) as u8), ..st }
    } else {
        st
    }
}

/// The color of an extended-color payload (`5;idx` or `2;r;g;b`).
pub open spec fn decode_extended(v: Seq<u16>) -> Option<Color> {
    if v.len() == 0 {
        None
    } else if v[0] == 5 {
        if v.len() >= 2 {
            Some(normalize_index(v[1] as u8))
        } else {
            None
        }
    } else if v[0] == 2 {
        if v.len() >= 4 {
            Some(Color::Rgb(v[1] as u8, v[2] as u8, v[3] as u8))
        } else {
            None
        }
    } else {
        None
    }
}

/// The primary values of the parameters after position `i`.
pub open spec fn values_after(ps: Seq<Seq<u16>>, i: int) -> Seq<u16> {
    ps.skip(i + 1).map_values(|p: Seq<u16>| param_value(p))
}

/// An extended color (`38`/`48`) at position `i`: the color it sets, if
/// any, and how many following parameters it consumes. The colon form
/// (`38:5:196`, one grouped parameter) consumes none; the semicolon form
/// (`38;5;196`) consumes the following parameters it reads.
pub open spec fn extended_spec(ps: Seq<Seq<u16>>, i: int) -> (Option<Color>, nat) {
    let sub = ps[i];
    if sub.len() > 1 {
        if sub[1] == 2 && sub.len() >= 6 {
            (decode_extended(seq![2u16, sub[3], sub[4], sub[5]]), 0)
        } else {
            (decode_extended(sub.skip(1)), 0)
        }
    } else {
        let rest = values_after(ps, i);
        let used: nat = if rest.len() > 0 && rest[0] == 5 {
            if rest.len() < 2 {
                rest.len()
            } else {
                2
            }
        } else if rest.len() > 0 && rest[0] == 2 {
            if rest.len() < 4 {
                rest.len()
            } else {
                4
            }
        } else {
            0
        };
        (decode_extended(rest), used)
    }
}

/// The SGR parameters from position `i` on applied to a pen.
pub open spec fn sgr_from(st: Style, ps: Seq<Seq<u16>>, i: nat) -> Style
    decreases ps.len() - i,
    when i <= ps.len()
{
    if i >= ps.len() {
        st
    } else {
        let v = param_value(ps[i as int]);
        if v == 38 || v == 48 {
            let (c, used) = extended_spec(ps, i as int);
            let st2 = match c {
                Some(c) => if v == 38 {
                    Style { fg: c, ..st }
                } else {
                    Style { bg: c, ..st }
                },
                None => st,
            };
            sgr_from(st2, ps, i + used + 1)
        } else {
            sgr_from(sgr_one(st, v), ps, i + 1)
        }
    }
}

/// A whole SGR parameter list applied to a pen; an empty list resets it.
pub open spec fn sgr_spec(st: Style, ps: Seq<Seq<u16>>) -> Style {
    if ps.len() == 0 {
        default_style()
    } else {
        sgr_from(st, ps, 0)
    }
}

/// The attribute flag at position `k` of the display order.
pub open spec fn attr_flag(k: nat) -> u16 {
    if k == 0 {
        attr::BOLD
    } else if k == 1 {
        attr::DIM
    } else if k == 2 {
        attr::ITALIC
    } else if k == 3 {
        attr::UNDERLINE
    } else if k == 4 {
        attr::BLINK
    } else if k == 5 {
        attr::REVERSE
    } else if k == 6 {
        attr::HIDDEN
    } else {
        attr::STRIKE
    }
}

/// The attribute name at position `k` of the display order.
pub open spec fn attr_name(k: nat) -> Seq<char> {
    if k == 0 {
        "bold"@
    } else if k == 1 {
        "dim"@
    } else if k == 2 {
        "italic"@
    } else if k == 3 {
        "underline"@
    } else if k == 4 {
        "blink"@
    } else if k == 5 {
        "reverse"@
    } else if k == 6 {
        "hidden"@
    } else {
        "strike"@
    }
}

/// Position of an attribute name.
pub open spec fn attr_index(s: Seq<char>) -> Option<nat> {
    if s == attr_name(0) {
        Some(0)
    } else if s == attr_name(1) {
        Some(1)
    } else if s == attr_name(2) {
        Some(2)
    } else if s == attr_name(3) {
        Some(3)
    } else if s == attr_name(4) {
        Some(4)
    } else if s == attr_name(5) {
        Some(5)
    } else if s == attr_name(6) {
        Some(6)
    } else if s == attr_name(7) {
        Some(7)
    } else {
        None
    }
}

/// Names of the attributes among the first `k` that are set.
pub open spec fn attr_parts(attrs: u16, k: nat) -> Seq<Seq<char>>
    decreases k,
{
    if k == 0 {
        seq![]
    } else {
        let r = attr_parts(attrs, (k - 1) as nat);
        if attrs & attr_flag((k - 1) as nat) != 0 {
            r.push(attr_name((k - 1) as nat))
        } else {
            r
        }
    }
}

/// The comma-separated pieces of a style's display form.
pub open spec fn style_parts(st: Style) -> Seq<Seq<char>> {
    attr_parts(st.attrs, 8) + (if st.fg != Color::Default {
        seq!["fg="@ + color_text(st.fg)]
    } else {
        seq![]
    }) + (if st.bg != Color::Default {
        seq!["bg="@ + color_text(st.bg)]
    } else {
        seq![]
    })
}

/// The display form of a style: attributes in fixed order, then `fg=`,
/// then `bg=`, comma-joined; `plain` for the default style.
pub open spec fn style_text(st: Style) -> Seq<char> {
    if style_parts(st).len() == 0 {
        "plain"@
    } else {
        join_with(style_parts(st), ","@)
    }
}

/// One comma-separated piece of a display form applied to a style.
pub open spec fn style_piece(st: Style, part: Seq<char>) -> Option<Style> {
    if part.len() == 0 {
        Some(st)
    } else if strip_prefix(part, "fg="@) is Some {
        match color_parse_spec(strip_prefix(part, "fg="@).unwrap()) {
            Some(c) => Some(Style { fg: c, ..st }),
            None => None,
        }
    } else if strip_prefix(part, "bg="@) is Some {
        match color_parse_spec(strip_prefix(part, "bg="@).unwrap()) {
            Some(c) => Some(Style { bg: c, ..st }),
            None => None,
        }
    } else {
        match attr_index(part) {
            Some(k) => Some(Style { attrs: st.attrs | attr_flag(k), ..st }),
            None => None,
        }
    }
}

/// The pieces applied in order, each trimmed, starting from the default
/// style; `None` as soon as one is not understood.
pub open spec fn style_pieces(parts: Seq<Seq<char>>) -> Option<Style>
    decreases parts.len(),
{
    if parts.len() == 0 {
        Some(default_style())
    } else {
        match style_pieces(parts.drop_last()) {
            Some(st) => style_piece(st, trim_ws(parts.last())),
            None => None,
        }
    }
}

proof fn lemma_style_pieces_none(parts: Seq<Seq<char>>, k: int)
    requires
        0 <= k <= parts.len(),
        style_pieces(parts.take(k)) is None,
    ensures
        style_pieces(parts) is None,
    decreases parts.len(),
{
    if k < parts.len() {
        assert(parts.drop_last().take(k) == parts.take(k));
        lemma_style_pieces_none(parts.drop_last(), k);
    } else {
        assert(parts.take(k) == parts);
    }
}

/// What [`Style::parse`] reads from a display form.
pub open spec fn style_parse_spec(s: Seq<char>) -> Option<Style> {
    style_pieces(split_on(s, ','))
}

fn attr_entry(k: u8) -> (r: (u16, &'static str))
    requires
        k < 8,
    ensures
        r.0 == attr_flag(k as nat),
        r.1@ == attr_name(k as nat),
{
    if k == 0 {
        (attr::BOLD, "bold")
    } else if k == 1 {
        (attr::DIM, "dim")
    } else if k == 2 {
        (attr::ITALIC, "italic")
    } else if k == 3 {
        (attr::UNDERLINE, "underline")
    } else if k == 4 {
        (attr::BLINK, "blink")
    } else if k == 5 {
        (attr::REVERSE, "reverse")
    } else if k == 6 {
        (attr::HIDDEN, "hidden")
    } else {
        (attr::STRIKE, "strike")
    }
}

fn attr_index_of(s: &[char]) -> (r: Option<u16>)
    ensures
        r matches Some(f) ==> attr_index(s@) is Some && f == attr_flag(attr_index(s@).unwrap()),
        r is None ==> attr_index(s@) is None,
{
    let mut k: u8 = 0;
    while k < 8
        invariant
            k <= 8,
            forall|j: nat| j < k ==> s@ != #[trigger] attr_name(j),
        decreases 8 - k,
    {
        let (flag, name) = attr_entry(k);
        if eq_str(s, name) {
            return Some(flag);
        }
        k += 1;
    }
    assert(s@ != attr_name(0) && s@ != attr_name(1) && s@ != attr_name(2) && s@ != attr_name(3));
    assert(s@ != attr_name(4) && s@ != attr_name(5) && s@ != attr_name(6) && s@ != attr_name(7));
    None
}

fn decode_extended_exec(v: &[u16]) -> (c: Option<Color>)
    ensures
        c == decode_extended(v@),
{
    if v.len() == 0 {
        None
    } else if v[0] == 5 {
        if v.len() >= 2 {
            Some(Color::normalize_index(v[1] as u8))
        } else {
            None
        }
    } else if v[0] == 2 {
        if v.len() >= 4 {
            Some(Color::Rgb(v[1] as u8, v[2] as u8, v[3] as u8))
        } else {
            None
        }
    } else {
        None
    }
}

impl Style {
    pub fn is_default(&self) -> (r: bool)
        ensures
            r == (*self == default_style()),
    {
        *self == Style::default()
    }

    fn set(&mut self, flag: u16, on: bool)
        ensures
            *final(self) == set_flag(*old(self), flag, on),
    {
        if on {
            self.attrs = self.attrs | flag;
        } else {
            self.attrs = self.attrs & !flag;
        }
    }

    fn sgr_one(&mut self, v: u16)
        ensures
            *final(self) == sgr_one(*old(self), v),
    {
        if v == 0 {
            *self = Style::default();
        } else if v == 1 {
            self.set(attr::BOLD, true);
        } else if v == 2 {
            self.set(attr::DIM, true);
        } else if v == 3 {
            self.set(attr::ITALIC, true);
        } else if v == 4 {
            self.set(attr::UNDERLINE, true);
        } else if v == 5 || v == 6 {
            self.set(attr::BLINK, true);
        } else if v == 7 {
            self.set(attr::REVERSE, true);
        } else if v == 8 {
            self.set(attr::HIDDEN, true);
        } else if v == 9 {
            self.set(attr::STRIKE, true);
        } else if v == 21 || v == 22 {
            self.set(attr::BOLD, false);
            self.set(attr::DIM, false);
        } else if v == 23 {
            self.set(attr::ITALIC, false);
        } else if v == 24 {
            self.set(attr::UNDERLINE, false);
        } else if v == 25 {
            self.set(attr::BLINK, false);
        } else if v == 27 {
            self.set(attr::REVERSE, false);
        } else if v == 28 {
            self.set(attr::HIDDEN, false);
        } else if v == 29 {
            self.set(attr::STRIKE, false);
        } else if 30 <= v && v <= 37 {
            self.fg = Color::Named((v - 30) as u8);
        } else if v == 39 {
            self.fg = Color::Default;
        } else if 40 <= v && v <= 47 {
            self.bg = Color::Named((v - 40) as u8);
        } else if v == 49 {
            self.bg = Color::Default;
        } else if 90 <= v && v <= 97 {
            self.fg = Color::Named((v - 90 + 8) as u8);
        } else if 100 <= v && v <= 107 {
            self.bg = Color::Named((v - 100 + 8) as u8);
        }
    }

    /// Apply one SGR parameter list (the payload of a `CSI ... m`) to this
    /// style, mutating it the way a terminal's "current pen" mutates.
    pub fn apply_sgr(&mut self, params: &[Param])
        ensures
            *final(self) == sgr_spec(*old(self), params_view(params@)),
    {
        let ghost ps = params_view(params@);
        if params.len() == 0 {
            *self = Style::default();
            return;
        }
        let mut i: usize = 0;
        while i < params.len()
            invariant
                i <= params.len(),
                ps == params_view(params@),
                ps.len() > 0,
                sgr_from(*self, ps, i as nat) == sgr_spec(*old(self), ps),
            decreases params.len() - i,
        {
            let v = params[i].value();
            assert(ps[i as int] == params@[i as int]@);
            if v == 38 || v == 48 {
                let used = self.extended_color(params, i, v == 38);
                i = i + used + 1;
            } else {
                self.sgr_one(v);
                i += 1;
            }
        }
    }

    /// Handle `38`/`48` extended colors in both the colon form
    /// (`38:5:196` — one grouped param) and the semicolon form
    /// (`38;5;196` — consumes following params). Returns how many *extra*
    /// params were consumed.
    fn extended_color(&mut self, params: &[Param], i: usize, is_fg: bool) -> (used: usize)
        requires
            i < params.len(),
        ensures
            used == extended_spec(params_view(params@), i as int).1,
            i + used < params.len(),
            *final(self) == match extended_spec(params_view(params@), i as int).0 {
                Some(c) => if is_fg {
                    Style { fg: c, ..*old(self) }
                } else {
                    Style { bg: c, ..*old(self) }
                },
                None => *old(self),
            },
    {
        let ghost ps = params_view(params@);
        let sub = &params[i].0;
        assert(sub@ == ps[i as int]);
        let color: Option<Color>;
        let consumed: usize;
        if sub.len() > 1 {
            if sub[1] == 2 && sub.len() >= 6 {
                let rgb: Vec<u16> = vec![2u16, sub[3], sub[4], sub[5]];
                assert(rgb@ =~= seq![2u16, sub@[3], sub@[4], sub@[5]]);
                color = decode_extended_exec(rgb.as_slice());
            } else {
                let mut rest: Vec<u16> = Vec::new();
                let mut j: usize = 1;
                while j < sub.len()
                    invariant
                        1 <= j <= sub.len(),
                        rest@ == sub@.subrange(1, j as int),
                    decreases sub.len() - j,
                {
                    rest.push(sub[j]);
                    j += 1;
                    assert(rest@ =~= sub@.subrange(1, j as int));
                }
                assert(rest@ =~= sub@.skip(1));
                color = decode_extended_exec(rest.as_slice());
            }
            consumed = 0;
        } else {
            let mut rest: Vec<u16> = Vec::new();
            let mut j: usize = i + 1;
            while j < params.len()
                invariant
                    i + 1 <= j <= params.len(),
                    ps == params_view(params@),
                    rest@ == ps.subrange(i + 1, j as int).map_values(|p: Seq<u16>| param_value(p)),
                decreases params.len() - j,
            {
                let v = params[j].value();
                assert(ps[j as int] == params@[j as int]@);
                rest.push(v);
                j += 1;
                assert(rest@ =~= ps.subrange(i + 1, j as int).map_values(
                    |p: Seq<u16>| param_value(p),
                ));
            }
            assert(rest@ =~= values_after(ps, i as int));
            color = decode_extended_exec(rest.as_slice());
            consumed = if rest.len() > 0 && rest[0] == 5 {
                if rest.len() < 2 {
                    rest.len()
                } else {
                    2
                }
            } else if rest.len() > 0 && rest[0] == 2 {
                if rest.len() < 4 {
                    rest.len()
                } else {
                    4
                }
            } else {
                0
            };
        }
        match color {
            Some(c) => {
                if is_fg {
                    self.fg = c;
                } else {
                    self.bg = c;
                }
            },
            None => {},
        }
        consumed
    }

    /// Parse the display form (`bold,underline,fg=red,bg=idx17`).
    pub fn parse(s: &str) -> (r: Option<Style>)
        ensures
            r == style_parse_spec(s@),
    {
        let cs = chars_of(s);
        Self::parse_chars(cs.as_slice())
    }

    /// [`Style::parse`] on a character sequence.
    pub fn parse_chars(s: &[char]) -> (r: Option<Style>)
        ensures
            r == style_parse_spec(s@),
    {
        let parts = split_chars(s, ',');
        let ghost pv = parts@.map_values(|p: Vec<char>| p@);
        let mut style = Style::default();
        let mut i: usize = 0;
        while i < parts.len()
            invariant
                i <= parts.len(),
                pv == parts@.map_values(|p: Vec<char>| p@),
                pv == split_on(s@, ','),
                style_pieces(pv.take(i as int)) == Some(style),
            decreases parts.len() - i,
        {
            assert(pv.take(i + 1).drop_last() == pv.take(i as int));
            assert(pv.take(i + 1).last() == parts@[i as int]@);
            let part = trim_chars(parts[i].as_slice());
            assert(style_pieces(pv.take(i + 1)) == style_piece(style, part@));
            if part.len() == 0 {
            } else {
                match strip_prefix_str(part.as_slice(), "fg=") {
                    Some(c) => {
                        match Color::parse_chars(c.as_slice()) {
                            Some(c) => style.fg = c,
                            None => {
                                proof {
                                    lemma_style_pieces_none(pv, i + 1);
                                }
                                return None;
                            },
                        }
                    },
                    None => {
                        match strip_prefix_str(part.as_slice(), "bg=") {
                            Some(c) => {
                                match Color::parse_chars(c.as_slice()) {
                                    Some(c) => style.bg = c,
                                    None => {
                                        proof {
                                            lemma_style_pieces_none(pv, i + 1);
                                        }
                                        return None;
                                    },
                                }
                            },
                            None => {
                                match attr_index_of(part.as_slice()) {
                                    Some(flag) => style.attrs = style.attrs | flag,
                                    None => {
                                        proof {
                                            lemma_style_pieces_none(pv, i + 1);
                                        }
                                        return None;
                                    },
                                }
                            },
                        }
                    },
                }
            }
            i += 1;
        }
        assert(pv.take(parts.len() as int) == pv);
        Some(style)
    }

    /// The display form (`bold,underline,fg=bright-red,bg=idx17`, or
    /// `plain` for the default style).
    pub fn to_text(&self) -> (s: String)
        ensures
            s@ == style_text(*self),
    {
        let mut parts: Vec<String> = Vec::new();
        let mut k: u8 = 0;
        while k < 8
            invariant
                k <= 8,
                strings_view(parts@) == attr_parts(self.attrs, k as nat),
            decreases 8 - k,
        {
            let (flag, name) = attr_entry(k);
            if self.attrs & flag != 0 {
                let ghost before = strings_view(parts@);
                parts.push(string_from(name));
                assert(strings_view(parts@) =~= before.push(name@));
            }
            k += 1;
        }
        let ghost ap = strings_view(parts@);
        if self.fg != Color::Default {
            let mut s = string_from("fg=");
            let t = self.fg.to_text();
            push_str(&mut s, t.as_str());
            parts.push(s);
        }
        let ghost fp = strings_view(parts@);
        if self.bg != Color::Default {
            let mut s = string_from("bg=");
            let t = self.bg.to_text();
            push_str(&mut s, t.as_str());
            parts.push(s);
        }
        assert(strings_view(parts@) =~= style_parts(*self));
        if parts.len() == 0 {
            string_from("plain")
        } else {
            join_strings(&parts, ",")
        }
    }
}

/// The SGR code that names palette color `n < 16` (`30`–`37`, `90`–`97`;
/// add 10 for the background).
pub open spec fn named_sgr_code(n: u16, fg: bool) -> u16 {
    let base: int = if n < 8 {
        30 + n
    } else {
        90 + (n - 8)
    };
    (if fg {
        base
    } else {
        base + 10
    }) as u16
}

/// Palette indices 0–15 are the named colors: `38;5;n` (or `48;5;n`), in
/// either the semicolon or the colon form, styles a cell exactly as the
/// named color's own code does.
pub proof fn lemma_low_palette_is_named(st: Style, n: u16, fg: bool)
    requires
        n < 16,
    ensures
        sgr_spec(st, seq![seq![if fg { 38u16 } else { 48u16 }], seq![5u16], seq![n]]) == sgr_spec(
            st,
            seq![seq![named_sgr_code(n, fg)]],
        ),
        sgr_spec(st, seq![seq![if fg { 38u16 } else { 48u16 }, 5u16, n]]) == sgr_spec(
            st,
            seq![seq![named_sgr_code(n, fg)]],
        ),
{
    let x: u16 = if fg {
        38
    } else {
        48
    };
    let ps = seq![seq![x], seq![5u16], seq![n]];
    assert(param_value(seq![x]) == x);
    assert(values_after(ps, 0) =~= seq![5u16, n]);
    assert(extended_spec(ps, 0) == (Some(Color::Named(n as u8)), 2nat));
    let qs = seq![seq![x, 5u16, n]];
    assert(param_value(seq![x, 5u16, n]) == x);
    assert(seq![x, 5u16, n].skip(1) =~= seq![5u16, n]);
    assert(extended_spec(qs, 0) == (Some(Color::Named(n as u8)), 0nat));
    let code = named_sgr_code(n, fg);
    assert(param_value(seq![code]) == code);
    let want = if fg {
        Style { fg: Color::Named(n as u8), ..st }
    } else {
        Style { bg: Color::Named(n as u8), ..st }
    };
    assert(sgr_from(want, ps, 3) == want);
    assert(sgr_from(want, qs, 1) == want);
    assert(sgr_one(st, code) == want);
    assert(sgr_from(want, seq![seq![code]], 1) == want);
}

// ---------------------------------------------------------------------------
// Extended colors consume exactly their own parameters.
// ---------------------------------------------------------------------------

/// Parameters in front of a list do not change how its tail is applied.
proof fn lemma_sgr_from_shift(st: Style, a: Seq<Seq<u16>>, b: Seq<Seq<u16>>, j: nat)
    requires
        j <= b.len(),
    ensures
        sgr_from(st, a + b, a.len() + j) == sgr_from(st, b, j),
    decreases b.len() - j,
{
    let ab = a + b;
    let i = a.len() + j;
    if j < b.len() {
        assert(ab[i as int] == b[j as int]);
        let v = param_value(b[j as int]);
        if v == 38 || v == 48 {
            assert(ab.skip((i + 1) as int) =~= b.skip((j + 1) as int));
            assert(values_after(ab, i as int) =~= values_after(b, j as int));
            assert(extended_spec(ab, i as int) == extended_spec(b, j as int));
            let (c, used) = extended_spec(b, j as int);
            let st2 = match c {
                Some(c) => if v == 38 {
                    Style { fg: c, ..st }
                } else {
                    Style { bg: c, ..st }
                },
                None => st,
            };
            lemma_sgr_from_shift(st2, a, b, j + used + 1);
        } else {
            lemma_sgr_from_shift(sgr_one(st, v), a, b, j + 1);
        }
    }
}

/// A pen with its foreground (`38`) or background (`48`) set to `c`.
pub open spec fn with_color(st: Style, which: u16, c: Color) -> Style {
    if which == 38 {
        Style { fg: c, ..st }
    } else {
        Style { bg: c, ..st }
    }
}

/// What a parameter list applies after a leading group has set `st`: the
/// pen itself when nothing follows, else the rest applied to it.
pub open spec fn then_rest(st: Style, rest: Seq<Seq<u16>>) -> Style {
    if rest.len() == 0 {
        st
    } else {
        sgr_spec(st, rest)
    }
}

/// The 256-color palette entry `i`: 0–15 are the named colors.
pub open spec fn palette(i: u16) -> Color {
    if (i as u8) < 16 {
        Color::Named(i as u8)
    } else {
        Color::Indexed(i as u8)
    }
}

/// An extended color group sets the foreground (`38`) or background (`48`)
/// and consumes exactly its own parameters, whatever follows: `;2;r;g;b`
/// (four following parameters), `;5;i` (two), and the grouped colon forms
/// `:2:r:g:b`, `:2:cs:r:g:b` (colorspace skipped) and `:5:i` (none).
pub proof fn lemma_extended_color_groups(
    st: Style,
    which: u16,
    r: u16,
    g: u16,
    b: u16,
    cs: u16,
    rest: Seq<Seq<u16>>,
)
    requires
        which == 38 || which == 48,
    ensures
        sgr_spec(st, seq![seq![which], seq![2u16], seq![r], seq![g], seq![b]] + rest) == then_rest(
            with_color(st, which, Color::Rgb(r as u8, g as u8, b as u8)),
            rest,
        ),
        sgr_spec(st, seq![seq![which], seq![5u16], seq![r]] + rest) == then_rest(
            with_color(st, which, palette(r)),
            rest,
        ),
        sgr_spec(st, seq![seq![which, 2u16, r, g, b]] + rest) == then_rest(
            with_color(st, which, Color::Rgb(r as u8, g as u8, b as u8)),
            rest,
        ),
        sgr_spec(st, seq![seq![which, 2u16, cs, r, g, b]] + rest) == then_rest(
            with_color(st, which, Color::Rgb(r as u8, g as u8, b as u8)),
            rest,
        ),
        sgr_spec(st, seq![seq![which, 5u16, r]] + rest) == then_rest(
            with_color(st, which, palette(r)),
            rest,
        ),
{
    let rgb = Color::Rgb(r as u8, g as u8, b as u8);
    // `;2;r;g;b`
    let a1 = seq![seq![which], seq![2u16], seq![r], seq![g], seq![b]];
    let p1 = a1 + rest;
    assert(p1[0] == seq![which]);
    assert(param_value(seq![which]) == which);
    assert(values_after(p1, 0).take(4) =~= seq![2u16, r, g, b]);
    assert(extended_spec(p1, 0) == (Some(rgb), 4nat));
    lemma_sgr_from_shift(with_color(st, which, rgb), a1, rest, 0);
    assert(sgr_from(with_color(st, which, rgb), rest, 0) == then_rest(with_color(st, which, rgb), rest));
    // `;5;i`
    let a2 = seq![seq![which], seq![5u16], seq![r]];
    let p2 = a2 + rest;
    assert(p2[0] == seq![which]);
    assert(values_after(p2, 0).take(2) =~= seq![5u16, r]);
    assert(extended_spec(p2, 0) == (Some(palette(r)), 2nat));
    lemma_sgr_from_shift(with_color(st, which, palette(r)), a2, rest, 0);
    // `:2:r:g:b`
    let g3 = seq![which, 2u16, r, g, b];
    let a3 = seq![g3];
    let p3 = a3 + rest;
    assert(p3[0] == g3);
    assert(param_value(g3) == which);
    assert(g3.skip(1) =~= seq![2u16, r, g, b]);
    assert(extended_spec(p3, 0) == (Some(rgb), 0nat));
    lemma_sgr_from_shift(with_color(st, which, rgb), a3, rest, 0);
    // `:2:cs:r:g:b`
    let g4 = seq![which, 2u16, cs, r, g, b];
    let a4 = seq![g4];
    let p4 = a4 + rest;
    assert(p4[0] == g4);
    assert(param_value(g4) == which);
    assert(extended_spec(p4, 0) == (Some(rgb), 0nat));
    lemma_sgr_from_shift(with_color(st, which, rgb), a4, rest, 0);
    // `:5:i`
    let g5 = seq![which, 5u16, r];
    let a5 = seq![g5];
    let p5 = a5 + rest;
    assert(p5[0] == g5);
    assert(param_value(g5) == which);
    assert(g5.skip(1) =~= seq![5u16, r]);
    assert(extended_spec(p5, 0) == (Some(palette(r)), 0nat));
    lemma_sgr_from_shift(with_color(st, which, palette(r)), a5, rest, 0);
}

/// A plain SGR code applies on its own and then the rest of the list
/// applies to the result: parameters are applied one after another.
pub proof fn lemma_sgr_sequential(st: Style, v: u16, rest: Seq<Seq<u16>>)
    requires
        v != 38 && v != 48,
    ensures
        sgr_spec(st, seq![seq![v]] + rest) == then_rest(sgr_spec(st, seq![seq![v]]), rest),
{
    let a = seq![seq![v]];
    assert((a + rest)[0] == seq![v]);
    assert(param_value(seq![v]) == v);
    lemma_sgr_from_shift(sgr_one(st, v), a, rest, 0);
    assert(sgr_from(sgr_one(st, v), a, 1) == sgr_one(st, v));
}

/// What one plain SGR code does, on the numbers: 0 resets; 1–9 set an
/// attribute (5 and 6 both blink); 22 clears bold and dim, 23–29 clear
/// their attribute; 30–37 / 40–47 pick a base color, 90–97 / 100–107 a
/// bright one; 39 / 49 restore the default color; anything else changes
/// nothing.
pub proof fn lemma_sgr_codes(st: Style, v: u16)
    requires
        v != 38 && v != 48,
    ensures
        ({
            let r = sgr_spec(st, seq![seq![v]]);
            &&& v == 0 ==> r == Style { attrs: 0, fg: Color::Default, bg: Color::Default }
            &&& v == 1 ==> r == Style { attrs: st.attrs | 1, ..st }
            &&& v == 2 ==> r == Style { attrs: st.attrs | 2, ..st }
            &&& v == 3 ==> r == Style { attrs: st.attrs | 4, ..st }
            &&& v == 4 ==> r == Style { attrs: st.attrs | 8, ..st }
            &&& (v == 5 || v == 6) ==> r == Style { attrs: st.attrs | 16, ..st }
            &&& v == 7 ==> r == Style { attrs: st.attrs | 32, ..st }
            &&& v == 8 ==> r == Style { attrs: st.attrs | 64, ..st }
            &&& v == 9 ==> r == Style { attrs: st.attrs | 128, ..st }
            &&& (v == 21 || v == 22) ==> r == Style { attrs: st.attrs & !1u16 & !2u16, ..st }
            &&& v == 23 ==> r == Style { attrs: st.attrs & !4u16, ..st }
            &&& v == 24 ==> r == Style { attrs: st.attrs & !8u16, ..st }
            &&& v == 25 ==> r == Style { attrs: st.attrs & !16u16, ..st }
            &&& v == 27 ==> r == Style { attrs: st.attrs & !32u16, ..st }
            &&& v == 28 ==> r == Style { attrs: st.attrs & !64u16, ..st }
            &&& v == 29 ==> r == Style { attrs: st.attrs & !128u16, ..st }
            &&& 30 <= v <= 37 ==> r == Style { fg: Color::Named((v - 30) as u8), ..st }
            &&& v == 39 ==> r == Style { fg: Color::Default, ..st }
            &&& 40 <= v <= 47 ==> r == Style { bg: Color::Named((v - 40) as u8), ..st }
            &&& v == 49 ==> r == Style { bg: Color::Default, ..st }
            &&& 90 <= v <= 97 ==> r == Style { fg: Color::Named((v - 82) as u8), ..st }
            &&& 100 <= v <= 107 ==> r == Style { bg: Color::Named((v - 92) as u8), ..st }
            &&& (v == 10 || v == 26 || (50 <= v <= 89) || (108 <= v)) ==> r == st
        }),
{
    assert(param_value(seq![v]) == v);
    assert(sgr_from(sgr_one(st, v), seq![seq![v]], 1) == sgr_one(st, v));
}

} // verus!
