//! The display forms of colors and styles read back as the values they were
//! made from.

use vstd::prelude::*;
use crate::style::{
    Color, Style, attr_flag, attr_index, attr_name, attr_parts, color_name, color_parse_spec,
    color_text, default_style, hex2, hex_char, name_index, normalize_index, rgb_of, style_parse_spec,
    style_parts, style_piece, style_pieces, style_text,
};
use crate::text::{
    dec_text, digit_char, digits_value, is_ws, join_with, lemma_dec_text_digits,
    lemma_dec_text_unsigned, lemma_split_join, radix_digit, split_on, strip_prefix, trim_end_ws,
    trim_start_ws, trim_ws, unsigned_value, utf8_len, no_breaks, lemma_no_breaks_cat,
    lemma_no_breaks_join,
};

verus! {

/// A color as the emulator produces it: palette indices below 16 are
/// always named.
pub open spec fn color_ok(c: Color) -> bool {
    match c {
        Color::Named(n) => n < 16,
        Color::Indexed(i) => i >= 16,
        _ => true,
    }
}

proof fn lemma_names()
    ensures
        forall|n: nat| n < 8 ==> name_index(#[trigger] color_name(n)) == Some(n),
        forall|n: nat|
            n < 8 ==> {
                &&& (#[trigger] color_name(n)).len() > 1
                &&& color_name(n)[0] != '#'
                &&& color_name(n)[0] != 'i'
                &&& color_name(n) != "default"@
                &&& strip_prefix(color_name(n), "bright-"@) is None
            },
{
    reveal_strlit("black");
    reveal_strlit("red");
    reveal_strlit("green");
    reveal_strlit("yellow");
    reveal_strlit("blue");
    reveal_strlit("magenta");
    reveal_strlit("cyan");
    reveal_strlit("white");
    reveal_strlit("default");
    reveal_strlit("bright-");
    assert(color_name(0).len() == 5 && color_name(1).len() == 3 && color_name(2).len() == 5);
    assert(color_name(3).len() == 6 && color_name(4).len() == 4 && color_name(5).len() == 7);
    assert(color_name(6).len() == 4 && color_name(7).len() == 5);
    assert(color_name(0)[0] == 'b' && color_name(2)[0] == 'g' && color_name(7)[0] == 'w');
    assert(color_name(4)[0] == 'b' && color_name(6)[0] == 'c');
    assert(color_name(1) != color_name(0));
    assert(color_name(2) != color_name(0));
    assert(color_name(2) != color_name(1));
    assert(color_name(3) != color_name(0));
    assert(color_name(3) != color_name(1));
    assert(color_name(3) != color_name(2));
    assert(color_name(4) != color_name(0) && color_name(4) != color_name(1));
    assert(color_name(4) != color_name(2) && color_name(4) != color_name(3));
    assert(color_name(5) != color_name(0) && color_name(5) != color_name(1));
    assert(color_name(5) != color_name(2) && color_name(5) != color_name(3));
    assert(color_name(5) != color_name(4));
    assert(color_name(6) != color_name(0) && color_name(6) != color_name(1));
    assert(color_name(6) != color_name(2) && color_name(6) != color_name(3));
    assert(color_name(6) != color_name(4) && color_name(6) != color_name(5));
    assert(color_name(7) != color_name(0) && color_name(7) != color_name(1));
    assert(color_name(7) != color_name(2) && color_name(7) != color_name(3));
    assert(color_name(7) != color_name(4) && color_name(7) != color_name(5));
    assert(color_name(7) != color_name(6));
    assert forall|n: nat| n < 8 implies {
        &&& (#[trigger] color_name(n)).len() > 1
        &&& color_name(n)[0] != '#'
        &&& color_name(n)[0] != 'i'
        &&& color_name(n) != "default"@
        &&& strip_prefix(color_name(n), "bright-"@) is None
    } by {
        let s = color_name(n);
        assert(s.len() >= 7 ==> s.take(7)[1] != "bright-"@[1] || s.take(7)[0] != "bright-"@[0]);
        assert(s != "default"@ || s[0] != "default"@[0]);
    }
}

pub proof fn lemma_hex_digit(d: nat)
    requires
        d < 16,
    ensures
        radix_digit(hex_char(d), 16) == Some(d),
        (hex_char(d) as u32) < 0x80,
        plain_char(hex_char(d)),
{
    if d < 10 {
        assert((('0' as u32 + d) as char) as u32 == '0' as u32 + d);
    } else {
        assert((('a' as u32 + (d - 10)) as char) as u32 == 'a' as u32 + (d - 10));
    }
}

/// Two more hex digits multiply the value by 256 and add the byte.
proof fn lemma_digits_hex2(s: Seq<char>, b: u8, v: nat)
    requires
        digits_value(s, 16) == Some(v),
    ensures
        digits_value(s + hex2(b), 16) == Some(v * 256 + b as nat),
{
    let h1 = hex_char((b / 16) as nat);
    let h2 = hex_char((b % 16) as nat);
    lemma_hex_digit((b / 16) as nat);
    lemma_hex_digit((b % 16) as nat);
    let t = s + hex2(b);
    assert(t.drop_last() =~= s.push(h1));
    assert(s.push(h1).drop_last() =~= s);
    assert(s.push(h1).last() == h1);
    assert(t.last() == h2);
    assert(digits_value(s.push(h1), 16) == Some(v * 16 + (b / 16) as nat));
    assert(digits_value(t, 16) == Some((v * 16 + (b / 16) as nat) * 16 + (b % 16) as nat));
    assert((v * 16 + (b / 16) as nat) * 16 + (b % 16) as nat == v * 256 + b as nat) by (nonlinear_arith)
        requires
            (b / 16) as nat * 16 + (b % 16) as nat == b as nat,
    ;
}

proof fn lemma_utf8_ascii(s: Seq<char>)
    requires
        forall|i: int| 0 <= i < s.len() ==> (#[trigger] s[i] as u32) < 0x80,
    ensures
        utf8_len(s) == s.len(),
    decreases s.len(),
{
    if s.len() > 0 {
        lemma_utf8_ascii(s.drop_last());
        assert(s.last() == s[s.len() - 1]);
    }
}

/// The display form of every color the emulator produces parses back to
/// that color.
pub proof fn lemma_color_roundtrip(c: Color)
    requires
        color_ok(c),
    ensures
        color_parse_spec(color_text(c)) == Some(c),
{
    lemma_names();
    reveal_strlit("default");
    reveal_strlit("bright-");
    reveal_strlit("idx");
    reveal_strlit("#");
    match c {
        Color::Default => {
            assert(color_text(c) == "default"@);
            assert(color_parse_spec(color_text(c)) == Some(c));
        },
        Color::Named(n) => {
            if n < 8 {
                let s = color_name(n as nat);
                assert(s.len() > 1);
                assert(s.len() >= 3 ==> s.take(3)[0] != "idx"@[0]);
                assert(name_index(s) == Some(n as nat));
            } else {
                let s = "bright-"@ + color_name((n % 8) as nat);
                assert(s[0] == 'b');
                assert(s.take(7) =~= "bright-"@);
                assert(s.skip(7) =~= color_name((n % 8) as nat));
                assert(s != "default"@ || s[0] != "default"@[0]);
                assert(s.len() >= 3 ==> s.take(3)[0] != "idx"@[0]);
            }
            assert(color_parse_spec(color_text(c)) == Some(c));
        },
        Color::Indexed(i) => {
            let s = "idx"@ + dec_text(i as nat);
            assert(s[0] == 'i');
            assert(s != "default"@ || s[0] != "default"@[0]);
            assert(s.take(3) =~= "idx"@);
            assert(s.skip(3) =~= dec_text(i as nat));
            lemma_dec_text_unsigned(i as nat);
            assert(color_parse_spec(color_text(c)) == Some(c));
        },
        Color::Rgb(r, g, b) => {
            let hex = hex2(r) + hex2(g) + hex2(b);
            let s = "#"@ + hex;
            assert(color_text(c) =~= s);
            assert(s[0] == '#');
            assert(s != "default"@ || s[0] != "default"@[0]);
            assert(s.skip(1) =~= hex);
            assert(digits_value(Seq::<char>::empty(), 16) == Some(0nat));
            assert(Seq::<char>::empty() + hex2(r) =~= hex2(r));
            lemma_digits_hex2(Seq::<char>::empty(), r, 0);
            lemma_digits_hex2(hex2(r), g, r as nat);
            lemma_digits_hex2(hex2(r) + hex2(g), b, r as nat * 256 + g as nat);
            let v: nat = (r as nat * 256 + g as nat) * 256 + b as nat;
            lemma_hex_digit((r / 16) as nat);
            lemma_hex_digit((r % 16) as nat);
            lemma_hex_digit((g / 16) as nat);
            lemma_hex_digit((g % 16) as nat);
            lemma_hex_digit((b / 16) as nat);
            lemma_hex_digit((b % 16) as nat);
            lemma_utf8_ascii(hex);
            assert(hex[0] != '+');
            let w: u32 = v as u32;
            assert(w == (r as u32) * 65536 + (g as u32) * 256 + (b as u32));
            assert(((w >> 16) as u8 == r && (w >> 8) as u8 == g && w as u8 == b)) by (bit_vector)
                requires
                    w == (r as u32) * 65536 + (g as u32) * 256 + (b as u32),
            ;
            assert(hex.len() == 6);
            assert(utf8_len(hex) == 6);
            assert(digits_value(hex, 16) == Some(v));
            assert(unsigned_value(hex, 16) == Some(v));
            assert(v <= 0xffff_ffff);
            assert(rgb_of(w) == c);
            assert(color_parse_spec(color_text(c)) == Some(c));
        },
    }
}

/// Characters of the display form of a color.
pub open spec fn plain_char(c: char) -> bool {
    ('a' <= c <= 'z') || ('0' <= c <= '9') || c == '-' || c == '#'
}

proof fn lemma_color_chars(c: Color)
    ensures
        color_text(c).len() > 0,
        forall|i: int| 0 <= i < color_text(c).len() ==> plain_char(#[trigger] color_text(c)[i]),
{
    reveal_strlit("black");
    reveal_strlit("red");
    reveal_strlit("green");
    reveal_strlit("yellow");
    reveal_strlit("blue");
    reveal_strlit("magenta");
    reveal_strlit("cyan");
    reveal_strlit("white");
    reveal_strlit("default");
    reveal_strlit("bright-");
    reveal_strlit("idx");
    reveal_strlit("#");
    assert forall|n: nat, i: int| 0 <= i < color_name(n).len() implies plain_char(
        #[trigger] color_name(n)[i],
    ) by {
        if n == 0 {
        } else if n == 1 {
        } else if n == 2 {
        } else if n == 3 {
        } else if n == 4 {
        } else if n == 5 {
        } else if n == 6 {
        } else {
        }
    }
    match c {
        Color::Default => {},
        Color::Named(n) => {
            if n >= 8 {
                let t = "bright-"@ + color_name((n % 8) as nat);
                assert forall|i: int| 0 <= i < t.len() implies plain_char(#[trigger] t[i]) by {
                    if i >= 7 {
                        assert(t[i] == color_name((n % 8) as nat)[i - 7]);
                    }
                }
            } else {
                assert(color_name(n as nat).len() > 0);
            }
        },
        Color::Indexed(i) => {
            lemma_dec_text_digits(i as nat);
            let t = "idx"@ + dec_text(i as nat);
            assert forall|j: int| 0 <= j < t.len() implies plain_char(#[trigger] t[j]) by {
                if j >= 3 {
                    assert(t[j] == dec_text(i as nat)[j - 3]);
                }
            }
        },
        Color::Rgb(r, g, b) => {
            lemma_hex_digit((r / 16) as nat);
            lemma_hex_digit((r % 16) as nat);
            lemma_hex_digit((g / 16) as nat);
            lemma_hex_digit((g % 16) as nat);
            lemma_hex_digit((b / 16) as nat);
            lemma_hex_digit((b % 16) as nat);
            let t = color_text(c);
            assert(t =~= seq![
                '#',
                hex_char((r / 16) as nat),
                hex_char((r % 16) as nat),
                hex_char((g / 16) as nat),
                hex_char((g % 16) as nat),
                hex_char((b / 16) as nat),
                hex_char((b % 16) as nat),
            ]);
        },
    }
}

/// A piece whose ends are not whitespace is unchanged by trimming.
proof fn lemma_trim_plain(p: Seq<char>)
    requires
        p.len() > 0,
        !is_ws(p[0]),
        !is_ws(p.last()),
    ensures
        trim_ws(p) == p,
{
}

/// The attribute bits `0 .. k`.
pub open spec fn low_bits(k: nat) -> u16 {
    if k == 0 {
        0
    } else if k == 1 {
        1
    } else if k == 2 {
        3
    } else if k == 3 {
        7
    } else if k == 4 {
        15
    } else if k == 5 {
        31
    } else if k == 6 {
        63
    } else if k == 7 {
        127
    } else {
        255
    }
}

proof fn lemma_low_bits(a: u16, k: nat)
    requires
        1 <= k <= 8,
    ensures
        (a & attr_flag((k - 1) as nat) != 0) ==> ((a & low_bits((k - 1) as nat)) | attr_flag((k - 1) as nat)) == a & low_bits(k),
        (a & attr_flag((k - 1) as nat) == 0) ==> (a & low_bits((k - 1) as nat)) == a & low_bits(k),
{
    let m = low_bits((k - 1) as nat);
    let f = attr_flag((k - 1) as nat);
    let m2 = low_bits(k);
    assert(m | f == m2) by {
        if k == 1 {
            assert(0u16 | 1u16 == 1u16) by (bit_vector);
        } else if k == 2 {
            assert(1u16 | 2u16 == 3u16) by (bit_vector);
        } else if k == 3 {
            assert(3u16 | 4u16 == 7u16) by (bit_vector);
        } else if k == 4 {
            assert(7u16 | 8u16 == 15u16) by (bit_vector);
        } else if k == 5 {
            assert(15u16 | 16u16 == 31u16) by (bit_vector);
        } else if k == 6 {
            assert(31u16 | 32u16 == 63u16) by (bit_vector);
        } else if k == 7 {
            assert(63u16 | 64u16 == 127u16) by (bit_vector);
        } else {
            assert(127u16 | 128u16 == 255u16) by (bit_vector);
        }
    }
    assert(f == 1 || f == 2 || f == 4 || f == 8 || f == 16 || f == 32 || f == 64 || f == 128);
    assert(((a & f) != 0 ==> ((a & m) | f) == (a & (m | f))) && ((a & f) == 0 ==> (a & m) == (a
        & (m | f)))) by (bit_vector)
        requires
            f == 1 || f == 2 || f == 4 || f == 8 || f == 16 || f == 32 || f == 64 || f == 128,
    ;
}

proof fn lemma_attr_names()
    ensures
        forall|k: nat| k < 8 ==> attr_index(#[trigger] attr_name(k)) == Some(k),
        forall|k: nat|
            k < 8 ==> {
                &&& (#[trigger] attr_name(k)).len() > 2
                &&& 'a' <= attr_name(k)[0] <= 'z'
                &&& 'a' <= attr_name(k).last() <= 'z'
                &&& attr_name(k)[0] != 'f'
                &&& !(attr_name(k)[0] == 'b' && attr_name(k)[1] == 'g')
                &&& forall|i: int| 0 <= i < attr_name(k).len() ==> 'a' <= #[trigger] attr_name(k)[i] <= 'z'
            },
{
    reveal_strlit("bold");
    reveal_strlit("dim");
    reveal_strlit("italic");
    reveal_strlit("underline");
    reveal_strlit("blink");
    reveal_strlit("reverse");
    reveal_strlit("hidden");
    reveal_strlit("strike");
    assert(attr_name(0).len() == 4 && attr_name(1).len() == 3 && attr_name(2).len() == 6);
    assert(attr_name(3).len() == 9 && attr_name(4).len() == 5 && attr_name(5).len() == 7);
    assert(attr_name(6).len() == 6 && attr_name(7).len() == 6);
    assert(attr_name(2)[0] == 'i' && attr_name(6)[0] == 'h' && attr_name(7)[0] == 's');
    assert(attr_name(2) != attr_name(6) && attr_name(2) != attr_name(7) && attr_name(6) != attr_name(7));
    assert forall|k: nat| k < 8 implies {
        &&& (#[trigger] attr_name(k)).len() > 2
        &&& 'a' <= attr_name(k)[0] <= 'z'
        &&& 'a' <= attr_name(k).last() <= 'z'
        &&& attr_name(k)[0] != 'f'
        &&& !(attr_name(k)[0] == 'b' && attr_name(k)[1] == 'g')
        &&& forall|i: int| 0 <= i < attr_name(k).len() ==> 'a' <= #[trigger] attr_name(k)[i] <= 'z'
    } by {
        if k == 0 {
        } else if k == 1 {
        } else if k == 2 {
        } else if k == 3 {
        } else if k == 4 {
        } else if k == 5 {
        } else if k == 6 {
        } else {
        }
    }
}

/// The attribute names of `a` among the first `k`, read back, give the bits
/// `0 .. k` of `a`.
proof fn lemma_attr_pieces(a: u16, k: nat)
    requires
        k <= 8,
    ensures
        style_pieces(attr_parts(a, k)) == Some(Style { attrs: a & low_bits(k), ..default_style() }),
    decreases k,
{
    if k == 0 {
        assert(a & 0u16 == 0u16) by (bit_vector);
    } else {
        lemma_attr_pieces(a, (k - 1) as nat);
        lemma_low_bits(a, k);
        let r = attr_parts(a, (k - 1) as nat);
        if a & attr_flag((k - 1) as nat) != 0 {
            let name = attr_name((k - 1) as nat);
            lemma_attr_names();
            reveal_strlit("fg=");
            reveal_strlit("bg=");
            assert(r.push(name).drop_last() =~= r);
            lemma_trim_plain(name);
            assert(strip_prefix(name, "fg="@) is None) by {
                assert(name.take(3)[0] == name[0]);
            }
            assert(strip_prefix(name, "bg="@) is None) by {
                assert(name.take(3)[0] == name[0]);
                assert(name.take(3)[1] == name[1]);
            }
        }
    }
}

/// A `fg=`/`bg=` piece read back sets that color.
proof fn lemma_color_piece(st: Style, c: Color, is_fg: bool)
    requires
        color_ok(c),
    ensures
        style_piece(st, trim_ws((if is_fg { "fg="@ } else { "bg="@ }) + color_text(c))) == Some(
            if is_fg {
                Style { fg: c, ..st }
            } else {
                Style { bg: c, ..st }
            },
        ),
{
    reveal_strlit("fg=");
    reveal_strlit("bg=");
    let head = if is_fg {
        "fg="@
    } else {
        "bg="@
    };
    let p = head + color_text(c);
    lemma_color_chars(c);
    lemma_color_roundtrip(c);
    assert(p[0] == head[0]);
    assert(p.last() == color_text(c).last());
    assert(plain_char(color_text(c)[color_text(c).len() - 1]));
    lemma_trim_plain(p);
    assert(p.take(3) =~= head);
    assert(p.skip(3) =~= color_text(c));
    if !is_fg {
        assert(p.take(3)[0] != "fg="@[0]);
    }
}

/// The display form of every non-default style the emulator produces
/// (known attribute bits, palette indices below 16 named) parses back to
/// that style.
pub proof fn lemma_style_roundtrip(st: Style)
    requires
        st.attrs < 256,
        color_ok(st.fg),
        color_ok(st.bg),
        st != default_style(),
    ensures
        style_parse_spec(style_text(st)) == Some(st),
{
    let a = st.attrs;
    let ap = attr_parts(a, 8);
    lemma_attr_pieces(a, 8);
    assert(a & 255u16 == a) by (bit_vector)
        requires
            a < 256,
    ;
    let fp: Seq<Seq<char>> = if st.fg != Color::Default {
        seq!["fg="@ + color_text(st.fg)]
    } else {
        seq![]
    };
    let bp: Seq<Seq<char>> = if st.bg != Color::Default {
        seq!["bg="@ + color_text(st.bg)]
    } else {
        seq![]
    };
    let parts = style_parts(st);
    assert(parts == ap + fp + bp);
    // Not the default style, so at least one piece.
    if ap.len() == 0 {
        assert(style_pieces(ap) == Some(default_style()));
    }
    assert(parts.len() > 0);
    // No piece holds a comma.
    reveal_strlit(",");
    reveal_strlit("fg=");
    reveal_strlit("bg=");
    lemma_color_chars(st.fg);
    lemma_color_chars(st.bg);
    lemma_attr_names();
    assert(forall|k: int, i: int| 0 <= k < parts.len() && 0 <= i < parts[k].len() ==> parts[k][i] != ',') by {
        assert forall|k: int, i: int| 0 <= k < parts.len() && 0 <= i < parts[k].len() implies parts[k][i] != ',' by {
            if k < ap.len() {
                lemma_attr_parts_names(a, 8, k);
            } else if k < ap.len() + fp.len() {
                let p = "fg="@ + color_text(st.fg);
                assert(parts[k] == p);
                if i >= 3 {
                    assert(p[i] == color_text(st.fg)[i - 3]);
                }
            } else {
                let p = "bg="@ + color_text(st.bg);
                assert(parts[k] == p);
                if i >= 3 {
                    assert(p[i] == color_text(st.bg)[i - 3]);
                }
            }
        }
    }
    assert(","@ =~= seq![',']);
    lemma_split_join(parts, ',');
    // The pieces read back in order.
    let s_attrs = Style { attrs: a, ..default_style() };
    assert(style_pieces(ap) == Some(s_attrs));
    let s_fg = Style { fg: st.fg, ..s_attrs };
    assert(style_pieces(ap + fp) == Some(s_fg)) by {
        if st.fg != Color::Default {
            assert((ap + fp).drop_last() =~= ap);
            lemma_color_piece(s_attrs, st.fg, true);
        } else {
            assert(ap + fp =~= ap);
        }
    }
    assert(style_pieces(ap + fp + bp) == Some(st)) by {
        if st.bg != Color::Default {
            assert((ap + fp + bp).drop_last() =~= ap + fp);
            lemma_color_piece(s_fg, st.bg, false);
        } else {
            assert(ap + fp + bp =~= ap + fp);
        }
    }
}

/// Every attribute piece is an attribute name.
proof fn lemma_attr_parts_names(a: u16, k: nat, j: int)
    requires
        k <= 8,
        0 <= j < attr_parts(a, k).len(),
    ensures
        exists|n: nat| n < 8 && attr_parts(a, k)[j] == attr_name(n),
    decreases k,
{
    if k > 0 {
        let r = attr_parts(a, (k - 1) as nat);
        if j < r.len() {
            lemma_attr_parts_names(a, (k - 1) as nat, j);
        } else {
            assert(attr_parts(a, k)[j] == attr_name((k - 1) as nat));
        }
    }
}

/// A style as the emulator produces it in a span: not the default, only
/// known attribute bits, palette indices below 16 named.
pub open spec fn style_ok(st: Style) -> bool {
    &&& st.attrs < 256
    &&& color_ok(st.fg)
    &&& color_ok(st.bg)
    &&& st != default_style()
}

/// The display form of a style is one line of text.
pub proof fn lemma_style_text_plain(st: Style)
    ensures
        no_breaks(style_text(st)),
        style_text(st).len() > 0,
{
    reveal_strlit("plain");
    reveal_strlit(",");
    reveal_strlit("fg=");
    reveal_strlit("bg=");
    let parts = style_parts(st);
    if parts.len() == 0 {
        return;
    }
    lemma_attr_names();
    lemma_color_chars(st.fg);
    lemma_color_chars(st.bg);
    assert forall|k: int| 0 <= k < parts.len() implies no_breaks(#[trigger] parts[k]) by {
        let ap = attr_parts(st.attrs, 8);
        if k < ap.len() {
            lemma_attr_parts_names(st.attrs, 8, k);
            let n = choose|n: nat| n < 8 && ap[k] == attr_name(n);
            assert(forall|i: int| 0 <= i < attr_name(n).len() ==> 'a' <= #[trigger] attr_name(n)[i] <= 'z');
        } else {
            let c = if k == ap.len() && st.fg != Color::Default {
                st.fg
            } else {
                st.bg
            };
            let head = if k == ap.len() && st.fg != Color::Default {
                "fg="@
            } else {
                "bg="@
            };
            assert(parts[k] == head + color_text(c));
            assert forall|i: int| 0 <= i < (head + color_text(c)).len() implies #[trigger] (head
                + color_text(c))[i] != '\n' && (head + color_text(c))[i] != '\r' by {
                if i >= 3 {
                    assert((head + color_text(c))[i] == color_text(c)[i - 3]);
                    assert(plain_char(color_text(c)[i - 3]));
                }
            }
        }
    }
    assert(no_breaks(","@));
    lemma_no_breaks_join(parts, ","@);
    assert(parts[0].len() > 0) by {
        let ap = attr_parts(st.attrs, 8);
        if ap.len() > 0 {
            lemma_attr_parts_names(st.attrs, 8, 0);
        }
    }
    lemma_join_len(parts, ","@);
}

proof fn lemma_join_len(parts: Seq<Seq<char>>, sep: Seq<char>)
    requires
        parts.len() > 0,
        parts[0].len() > 0,
    ensures
        join_with(parts, sep).len() > 0,
    decreases parts.len(),
{
    if parts.len() > 1 {
        lemma_join_len(parts.drop_last(), sep);
    }
}

} // verus!
