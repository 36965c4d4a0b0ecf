//! The `.snap` file format: a reviewable, diffable text serialization of a
//! rendered screen.
//!
//! A snapshot reads well in a pull request (`|`-prefixed rows, styles as
//! English words), parses back losslessly, and fails with a *positioned*
//! error on corruption instead of comparing garbage. The format is
//! versioned by its first line so future revisions stay detectable.

pub mod roundtrip;

use vstd::prelude::*;
use crate::screen::{
    Screen, TermView, char_width, char_width_spec, lemma_style_runs_unique, row_styles, row_text_spec,
    style_runs,
};
use crate::style::{Style, hex2, push_hex2, style_parse_spec, style_text};
use crate::text::{
    chars_of, dec_text, eq_str, int_text, join_with, lines_of, parse_i32, parse_unsigned,
    parse_usize, push_decimal, push_int, push_str, signed_value, split_once, split_once_str,
    starts_with_str, string_from, string_of, strings_view, strip_prefix, strip_prefix_str,
    strip_suffix, strip_suffix_str, sub_chars, text_lines, unlines, unlines_of, unsigned_value,
    usize_value,
};

verus! {

/// A contiguous run of one non-default style on one row.
#[derive(Debug, Clone, Copy, PartialEq, Eq, Structural)]
pub struct Span {
    pub row: usize,
    pub start: usize,
    /// Inclusive end column.
    pub end: usize,
    pub style: Style,
}

// ---------------------------------------------------------------------------
// The command line: a JSON-style string array.
// ---------------------------------------------------------------------------

/// `Debug` formatting of an optional character (`Some('x')`, `None`).
pub uninterp spec fn debug_option_char(o: Option<char>) -> Seq<char>;

/// Formats `o` with `{:?}`, std's `Debug` for `Option<char>`. Its text is
/// named, not stated: the escaping rules of `char`'s `Debug` are std's.
#[verifier::external_body]
fn option_char_debug(o: Option<char>) -> (s: String)
    ensures
        s@ == debug_option_char(o),
{
    format!("{:?}", o)
}

/// The escaped form of one character inside a quoted command argument.
pub open spec fn escape_char(c: char) -> Seq<char> {
    if c == '\\' {
        seq!['\\', '\\']
    } else if c == '"' {
        seq!['\\', '"']
    } else if c == '\n' {
        seq!['\\', 'n']
    } else if c == '\t' {
        seq!['\\', 't']
    } else if (c as u32) < 0x20 {
        seq!['\\', 'u', '0', '0'] + hex2(c as u8)
    } else {
        seq![c]
    }
}

/// Every character of `s` escaped.
pub open spec fn escape_text(s: Seq<char>) -> Seq<char>
    decreases s.len(),
{
    if s.len() == 0 {
        seq![]
    } else {
        escape_text(s.drop_last()) + escape_char(s.last())
    }
}

/// One argument in double quotes, escaped.
pub open spec fn quoted(s: Seq<char>) -> Seq<char> {
    seq!['"'] + escape_text(s) + seq!['"']
}

/// What [`encode_cmd`] writes: `["arg","arg",...]`.
pub open spec fn encode_cmd_spec(cmd: Seq<Seq<char>>) -> Seq<char> {
    seq!['['] + join_with(cmd.map_values(|a: Seq<char>| quoted(a)), seq![',']) + seq![']']
}

fn push_escaped(out: &mut String, arg: &str)
    ensures
        final(out)@ == old(out)@ + quoted(arg@),
{
    let cs = chars_of(arg);
    out.push('"');
    let mut i: usize = 0;
    while i < cs.len()
        invariant
            i <= cs.len(),
            cs@ == arg@,
            out@ == old(out)@ + seq!['"'] + escape_text(cs@.take(i as int)),
        decreases cs.len() - i,
    {
        let ghost before = out@;
        let c = cs[i];
        if c == '\\' {
            out.push('\\');
            out.push('\\');
        } else if c == '"' {
            out.push('\\');
            out.push('"');
        } else if c == '\n' {
            out.push('\\');
            out.push('n');
        } else if c == '\t' {
            out.push('\\');
            out.push('t');
        } else if (c as u32) < 0x20 {
            out.push('\\');
            out.push('u');
            out.push('0');
            out.push('0');
            push_hex2(out, c as u8);
        } else {
            out.push(c);
        }
        assert(out@ =~= before + escape_char(c));
        i += 1;
        assert(cs@.take(i as int).drop_last() == cs@.take(i - 1));
    }
    assert(cs@.take(cs.len() as int) == cs@);
    out.push('"');
}

/// Encode a command vector as a JSON-style string array (a strict subset of
/// JSON: only `\\`, `\"`, `\n`, `\t` and `\u00XX` escapes are emitted).
pub fn encode_cmd(cmd: &[String]) -> (s: String)
    ensures
        s@ == encode_cmd_spec(strings_view(cmd@)),
{
    let ghost qs = strings_view(cmd@).map_values(|a: Seq<char>| quoted(a));
    let mut out = String::new();
    out.push('[');
    let mut i: usize = 0;
    while i < cmd.len()
        invariant
            i <= cmd.len(),
            qs == strings_view(cmd@).map_values(|a: Seq<char>| quoted(a)),
            out@ == seq!['['] + join_with(qs.take(i as int), seq![',']),
        decreases cmd.len() - i,
    {
        let ghost t = qs.take(i + 1);
        assert(t.drop_last() == qs.take(i as int));
        assert(t.last() == quoted(cmd@[i as int]@));
        if i > 0 {
            out.push(',');
        }
        push_escaped(&mut out, cmd[i].as_str());
        proof {
            if i == 0 {
                assert(t.len() == 1);
                assert(join_with(qs.take(0), seq![',']) =~= seq![]);
            }
        }
        i += 1;
        assert(out@ =~= seq!['['] + join_with(qs.take(i as int), seq![',']));
    }
    assert(qs.take(cmd.len() as int) == qs);
    out.push(']');
    out
}

/// Whether `v` is the code of a character (a Unicode scalar value).
pub open spec fn is_scalar(v: nat) -> bool {
    v <= 0x10ffff && !(0xd800 <= v <= 0xdfff)
}

/// The decoder of [`decode_cmd`] from position `i` of the array's inside,
/// with the arguments read so far and, inside a string, its text so far.
pub open spec fn decode_from(
    cs: Seq<char>,
    i: nat,
    args: Seq<Seq<char>>,
    cur: Option<Seq<char>>,
) -> Result<Seq<Seq<char>>, Seq<char>>
    decreases cs.len() - i,
{
    if i >= cs.len() {
        match cur {
            Some(_) => Err("unterminated string in cmd array"@),
            None => if args.len() == 0 {
                Err("cmd array is empty"@)
            } else {
                Ok(args)
            },
        }
    } else {
        let c = cs[i as int];
        match cur {
            Some(acc) => if c == '"' {
                decode_from(cs, i + 1, args.push(acc), None)
            } else if c == '\\' {
                if i + 1 >= cs.len() {
                    Err("bad escape "@ + debug_option_char(None))
                } else {
                    let e = cs[i + 1int];
                    if e == '\\' {
                        decode_from(cs, i + 2, args, Some(acc.push('\\')))
                    } else if e == '"' {
                        decode_from(cs, i + 2, args, Some(acc.push('"')))
                    } else if e == 'n' {
                        decode_from(cs, i + 2, args, Some(acc.push('\n')))
                    } else if e == 't' {
                        decode_from(cs, i + 2, args, Some(acc.push('\t')))
                    } else if e == 'u' {
                        let end: nat = if i + 6 < cs.len() {
                            i + 6
                        } else {
                            cs.len()
                        };
                        let hex = cs.subrange(i + 2int, end as int);
                        match unsigned_value(hex, 16) {
                            Some(v) => if v > 0xffff_ffff {
                                Err("bad \\u escape `"@ + hex + "`"@)
                            } else if is_scalar(v) {
                                decode_from(cs, end, args, Some(acc.push((v as u32) as char)))
                            } else {
                                Err("bad \\u code point"@)
                            },
                            None => Err("bad \\u escape `"@ + hex + "`"@),
                        }
                    } else {
                        Err("bad escape "@ + debug_option_char(Some(e)))
                    }
                }
            } else {
                decode_from(cs, i + 1, args, Some(acc.push(c)))
            },
            None => if c == ',' && args.len() > 0 {
                if i + 1 < cs.len() && cs[i + 1int] == '"' {
                    decode_from(cs, i + 2, args, Some(seq![]))
                } else {
                    Err(
                        "expected string after `,`, got "@ + debug_option_char(
                            if i + 1 < cs.len() {
                                Some(cs[i + 1int])
                            } else {
                                None
                            },
                        ),
                    )
                }
            } else if c == '"' && args.len() == 0 {
                decode_from(cs, i + 1, args, Some(seq![]))
            } else if args.len() == 0 {
                Err("unexpected `"@ + seq![c] + "` in cmd array"@)
            } else {
                Err("expected `,` between cmd args, got `"@ + seq![c] + "`"@)
            },
        }
    }
}

/// What [`decode_cmd`] returns: the arguments, or the error message.
pub open spec fn decode_cmd_spec(s: Seq<char>) -> Result<Seq<Seq<char>>, Seq<char>> {
    match strip_prefix(s, seq!['[']) {
        Some(t) => match strip_suffix(t, seq![']']) {
            Some(inner) => decode_from(inner, 0, seq![], None),
            None => Err("cmd must be a [\"...\"] array"@),
        },
        None => Err("cmd must be a [\"...\"] array"@),
    }
}

/// A list of strings or an error message, as sequences.
pub open spec fn strings_result(r: Result<Vec<String>, String>) -> Result<Seq<Seq<char>>, Seq<char>> {
    match r {
        Ok(v) => Ok(strings_view(v@)),
        Err(m) => Err(m@),
    }
}

fn cmd_error(head: &str, c: char, tail: &str) -> (m: String)
    ensures
        m@ == head@ + seq![c] + tail@,
{
    let mut m = string_from(head);
    m.push(c);
    push_str(&mut m, tail);
    m
}

fn cmd_debug_error(head: &str, o: Option<char>) -> (m: String)
    ensures
        m@ == head@ + debug_option_char(o),
{
    let mut m = string_from(head);
    let d = option_char_debug(o);
    push_str(&mut m, d.as_str());
    m
}

/// Decode the array form produced by [`encode_cmd`].
pub fn decode_cmd(s: &str) -> (r: Result<Vec<String>, String>)
    ensures
        strings_result(r) == decode_cmd_spec(s@),
{
    let cs = chars_of(s);
    if !(cs.len() >= 2 && cs[0] == '[' && cs[cs.len() - 1] == ']') {
        proof {
            if cs.len() >= 1 && cs@[0] == '[' {
                assert(s@.take(1) =~= seq!['[']);
                let t = s@.skip(1);
                if t.len() >= 1 {
                    assert(t.skip(t.len() - 1)[0] == t.last());
                }
            } else if cs.len() >= 1 {
                assert(s@.take(1)[0] == cs@[0]);
            }
        }
        return Err(string_from("cmd must be a [\"...\"] array"));
    }
    let inner = sub_chars(cs.as_slice(), 1, cs.len() - 1);
    assert(s@.take(1) =~= seq!['[']);
    assert(s@.skip(1).skip(s@.skip(1).len() - 1) =~= seq![']']);
    assert(s@.skip(1).take(s@.skip(1).len() - 1) =~= inner@);
    let n = inner.len();
    let mut args: Vec<String> = Vec::new();
    let mut in_str = false;
    let mut acc = String::new();
    let mut i: usize = 0;
    assert(strip_prefix(s@, seq!['[']) == Some(s@.skip(1)));
    assert(strip_suffix(s@.skip(1), seq![']']) == Some(inner@));
    assert(strings_view(args@) =~= Seq::<Seq<char>>::empty());
    while i < n
        invariant
            i <= n,
            n == inner.len(),
            decode_cmd_spec(s@) == decode_from(
                inner@,
                i as nat,
                strings_view(args@),
                if in_str {
                    Some(acc@)
                } else {
                    None
                },
            ),
        decreases n - i,
    {
        let c = inner[i];
        if in_str {
            if c == '"' {
                let ghost before = strings_view(args@);
                let done = acc;
                acc = String::new();
                args.push(done);
                assert(strings_view(args@) =~= before.push(done@));
                in_str = false;
                i += 1;
            } else if c == '\\' {
                if i + 1 >= n {
                    return Err(cmd_debug_error("bad escape ", None));
                }
                let e = inner[i + 1];
                if e == '\\' {
                    acc.push('\\');
                    i += 2;
                } else if e == '"' {
                    acc.push('"');
                    i += 2;
                } else if e == 'n' {
                    acc.push('\n');
                    i += 2;
                } else if e == 't' {
                    acc.push('\t');
                    i += 2;
                } else if e == 'u' {
                    let end: usize = if n - i > 6 {
                        i + 6
                    } else {
                        n
                    };
                    let hex = sub_chars(inner.as_slice(), i + 2, end);
                    match parse_unsigned(hex.as_slice(), 16, 0xffff_ffff) {
                        Some(v) => {
                            match char::from_u32(v as u32) {
                                Some(ch) => {
                                    proof {
                                        vstd::utf8::char_u32_cast(ch, v as u32);
                                    }
                                    acc.push(ch);
                                    i = end;
                                },
                                None => {
                                    return Err(string_from("bad \\u code point"));
                                },
                            }
                        },
                        None => {
                            let mut m = string_from("bad \\u escape `");
                            let h = string_of(hex.as_slice());
                            push_str(&mut m, h.as_str());
                            push_str(&mut m, "`");
                            return Err(m);
                        },
                    }
                } else {
                    return Err(cmd_debug_error("bad escape ", Some(e)));
                }
            } else {
                acc.push(c);
                i += 1;
            }
        } else {
            if c == ',' && args.len() > 0 {
                if i + 1 < n && inner[i + 1] == '"' {
                    in_str = true;
                    acc = String::new();
                    i += 2;
                } else {
                    let o = if i + 1 < n {
                        Some(inner[i + 1])
                    } else {
                        None
                    };
                    return Err(cmd_debug_error("expected string after `,`, got ", o));
                }
            } else if c == '"' && args.len() == 0 {
                in_str = true;
                acc = String::new();
                i += 1;
            } else if args.len() == 0 {
                return Err(cmd_error("unexpected `", c, "` in cmd array"));
            } else {
                return Err(cmd_error("expected `,` between cmd args, got `", c, "`"));
            }
        }
    }
    if in_str {
        Err(string_from("unterminated string in cmd array"))
    } else if args.len() == 0 {
        Err(string_from("cmd array is empty"))
    } else {
        Ok(args)
    }
}

// ---------------------------------------------------------------------------
// Frames, snapshots and their text form.
// ---------------------------------------------------------------------------

/// A rendered screen, decoupled from the live emulator: row texts (trailing
/// blanks trimmed) plus style spans. Two frames are visually identical iff
/// they are `==`.
#[derive(Debug, Clone, PartialEq, Eq)]
pub struct Frame {
    pub cols: usize,
    pub rows: usize,
    pub lines: Vec<String>,
    pub spans: Vec<Span>,
}

/// A frame as values.
pub struct FrameView {
    pub cols: usize,
    pub rows: usize,
    pub lines: Seq<Seq<char>>,
    pub spans: Seq<Span>,
}

impl View for Frame {
    type V = FrameView;

    open spec fn view(&self) -> FrameView {
        FrameView {
            cols: self.cols,
            rows: self.rows,
            lines: strings_view(self.lines@),
            spans: self.spans@,
        }
    }
}

/// A complete recorded snapshot: the command, its rendered screen, its
/// stripped stderr and its exit code — the whole observable contract.
#[derive(Debug, Clone, PartialEq, Eq)]
pub struct Snapshot {
    pub cmd: Vec<String>,
    pub exit: i32,
    pub frame: Frame,
    pub stderr: Vec<String>,
}

/// A snapshot as values.
pub struct SnapshotView {
    pub cmd: Seq<Seq<char>>,
    pub exit: i32,
    pub frame: FrameView,
    pub stderr: Seq<Seq<char>>,
}

impl View for Snapshot {
    type V = SnapshotView;

    open spec fn view(&self) -> SnapshotView {
        SnapshotView {
            cmd: strings_view(self.cmd@),
            exit: self.exit,
            frame: self.frame@,
            stderr: strings_view(self.stderr@),
        }
    }
}

/// A parse failure, positioned at a 1-based line of the `.snap` file.
#[derive(Debug, Clone, PartialEq, Eq)]
pub struct SnapError {
    pub line: usize,
    pub msg: String,
}

impl SnapError {
    /// `line N: message`.
    pub fn to_text(&self) -> (s: String)
        ensures
            s@ == "line "@ + dec_text(self.line as nat) + ": "@ + self.msg@,
    {
        let mut s = string_from("line ");
        push_decimal(&mut s, self.line as u64);
        push_str(&mut s, ": ");
        push_str(&mut s, self.msg.as_str());
        s
    }
}

/// The first line of every snapshot file.
pub open spec fn magic_line() -> Seq<char> {
    "ansisnap snapshot v1"@
}

/// A row or stderr line as stored: `|` then the text.
pub open spec fn bar_line(l: Seq<char>) -> Seq<char> {
    seq!['|'] + l
}

/// `r<row> c<start>-c<end> <style>`.
pub open spec fn span_line(sp: Span) -> Seq<char> {
    "r"@ + dec_text(sp.row as nat) + " c"@ + dec_text(sp.start as nat) + "-c"@ + dec_text(
        sp.end as nat,
    ) + " "@ + style_text(sp.style)
}

/// The grammatically correct noun for a count.
pub open spec fn plural_spec(n: nat, one: Seq<char>, many: Seq<char>) -> Seq<char> {
    if n == 1 {
        one
    } else {
        many
    }
}

/// A section header: `<prefix>N <noun> ---`.
pub open spec fn count_line(prefix: Seq<char>, n: nat, one: Seq<char>, many: Seq<char>) -> Seq<
    char,
> {
    prefix + dec_text(n) + " "@ + plural_spec(n, one, many) + " ---"@
}

/// The five header lines.
pub open spec fn header_lines(s: SnapshotView) -> Seq<Seq<char>> {
    seq![
        magic_line(),
        "cmd: "@ + encode_cmd_spec(s.cmd),
        "term: "@ + dec_text(s.frame.cols as nat) + "x"@ + dec_text(s.frame.rows as nat),
        "exit: "@ + int_text(s.exit as int),
        "--- screen: "@ + dec_text(s.frame.rows as nat) + " rows x "@ + dec_text(
            s.frame.cols as nat,
        ) + " cols ---"@,
    ]
}

/// The lines of the text form of a snapshot.
pub open spec fn snapshot_lines(s: SnapshotView) -> Seq<Seq<char>> {
    header_lines(s) + s.frame.lines.map_values(|l: Seq<char>| bar_line(l)) + seq![
        count_line("--- styles: "@, s.frame.spans.len(), "span"@, "spans"@),
    ] + s.frame.spans.map_values(|sp: Span| span_line(sp)) + seq![
        count_line("--- stderr: "@, s.stderr.len(), "line"@, "lines"@),
    ] + s.stderr.map_values(|l: Seq<char>| bar_line(l))
}

/// Pick the grammatically correct noun for a count — `1 span`, `2 spans`.
pub fn plural<'a>(n: usize, one: &'a str, many: &'a str) -> (r: &'a str)
    ensures
        r@ == plural_spec(n as nat, one@, many@),
{
    if n == 1 {
        one
    } else {
        many
    }
}

fn bar_text(l: &str) -> (s: String)
    ensures
        s@ == bar_line(l@),
{
    let mut s = String::new();
    s.push('|');
    push_str(&mut s, l);
    s
}

fn span_text(sp: &Span) -> (s: String)
    ensures
        s@ == span_line(*sp),
{
    let mut s = string_from("r");
    push_decimal(&mut s, sp.row as u64);
    push_str(&mut s, " c");
    push_decimal(&mut s, sp.start as u64);
    push_str(&mut s, "-c");
    push_decimal(&mut s, sp.end as u64);
    push_str(&mut s, " ");
    let st = sp.style.to_text();
    push_str(&mut s, st.as_str());
    s
}

fn count_text(prefix: &str, n: usize, one: &str, many: &str) -> (s: String)
    ensures
        s@ == count_line(prefix@, n as nat, one@, many@),
{
    let mut s = string_from(prefix);
    push_decimal(&mut s, n as u64);
    push_str(&mut s, " ");
    push_str(&mut s, plural(n, one, many));
    push_str(&mut s, " ---");
    s
}

/// Append `|`-prefixed copies of `src` to `dst`.
fn push_bar_lines(dst: &mut Vec<String>, src: &Vec<String>)
    ensures
        strings_view(final(dst)@) == strings_view(old(dst)@) + strings_view(src@).map_values(
            |l: Seq<char>| bar_line(l),
        ),
{
    let ghost d0 = strings_view(dst@);
    let ghost m = strings_view(src@).map_values(|l: Seq<char>| bar_line(l));
    let mut i: usize = 0;
    while i < src.len()
        invariant
            i <= src.len(),
            m == strings_view(src@).map_values(|l: Seq<char>| bar_line(l)),
            strings_view(dst@) == d0 + m.take(i as int),
        decreases src.len() - i,
    {
        let ghost before = strings_view(dst@);
        let t = bar_text(src[i].as_str());
        dst.push(t);
        assert(strings_view(dst@) =~= before.push(t@));
        i += 1;
        assert(m.take(i as int) =~= m.take(i - 1).push(m[i - 1]));
    }
    assert(m.take(src.len() as int) == m);
}

impl Snapshot {
    /// The lines of the text form, as strings.
    fn text_lines_of(&self) -> (v: Vec<String>)
        ensures
            strings_view(v@) == snapshot_lines(self@),
    {
        let mut v: Vec<String> = Vec::new();
        v.push(string_from("ansisnap snapshot v1"));
        let mut l = string_from("cmd: ");
        let enc = encode_cmd(self.cmd.as_slice());
        push_str(&mut l, enc.as_str());
        v.push(l);
        let mut l = string_from("term: ");
        push_decimal(&mut l, self.frame.cols as u64);
        push_str(&mut l, "x");
        push_decimal(&mut l, self.frame.rows as u64);
        v.push(l);
        let mut l = string_from("exit: ");
        push_int(&mut l, self.exit as i64);
        v.push(l);
        let mut l = string_from("--- screen: ");
        push_decimal(&mut l, self.frame.rows as u64);
        push_str(&mut l, " rows x ");
        push_decimal(&mut l, self.frame.cols as u64);
        push_str(&mut l, " cols ---");
        v.push(l);
        assert(strings_view(v@) =~= header_lines(self@));
        push_bar_lines(&mut v, &self.frame.lines);
        let ghost before = strings_view(v@);
        let h = count_text("--- styles: ", self.frame.spans.len(), "span", "spans");
        v.push(h);
        assert(strings_view(v@) =~= before.push(h@));
        let ghost m = self.frame.spans@.map_values(|sp: Span| span_line(sp));
        let ghost base = strings_view(v@);
        let mut i: usize = 0;
        while i < self.frame.spans.len()
            invariant
                i <= self.frame.spans.len(),
                m == self.frame.spans@.map_values(|sp: Span| span_line(sp)),
                strings_view(v@) == base + m.take(i as int),
            decreases self.frame.spans.len() - i,
        {
            let ghost b = strings_view(v@);
            let t = span_text(&self.frame.spans[i]);
            v.push(t);
            assert(strings_view(v@) =~= b.push(t@));
            i += 1;
            assert(m.take(i as int) =~= m.take(i - 1).push(m[i - 1]));
        }
        assert(m.take(self.frame.spans.len() as int) == m);
        let ghost before = strings_view(v@);
        let h = count_text("--- stderr: ", self.stderr.len(), "line", "lines");
        v.push(h);
        assert(strings_view(v@) =~= before.push(h@));
        push_bar_lines(&mut v, &self.stderr);
        assert(strings_view(v@) =~= snapshot_lines(self@));
        v
    }

    /// Serialize to the on-disk text form.
    pub fn to_text(&self) -> (s: String)
        ensures
            s@ == unlines(snapshot_lines(self@)),
    {
        let v = self.text_lines_of();
        unlines_of(&v)
    }
}

// ---------------------------------------------------------------------------
// Reading the text form back.
// ---------------------------------------------------------------------------

/// Sum of display widths: a wide character counts as two cells.
pub open spec fn visible_width(s: Seq<char>) -> nat
    decreases s.len(),
{
    if s.len() == 0 {
        0
    } else {
        visible_width(s.drop_last()) + char_width_spec(s.last()) as nat
    }
}

proof fn lemma_visible_width_prefix(s: Seq<char>, i: int)
    requires
        0 <= i <= s.len(),
    ensures
        visible_width(s.take(i)) <= visible_width(s),
    decreases s.len(),
{
    if i < s.len() {
        lemma_visible_width_prefix(s.drop_last(), i);
        assert(s.drop_last().take(i) == s.take(i));
    } else {
        assert(s.take(i) == s);
    }
}

/// Whether a row's display width is at most `cols`.
fn fits_width(s: &[char], cols: usize) -> (r: bool)
    ensures
        r == (visible_width(s@) <= cols),
{
    let mut w: usize = 0;
    let mut i: usize = 0;
    while i < s.len()
        invariant
            i <= s.len(),
            w == visible_width(s@.take(i as int)),
            w <= cols,
        decreases s.len() - i,
    {
        assert(s@.take(i + 1).drop_last() == s@.take(i as int));
        let cw = char_width(s[i]) as usize;
        if cw > cols - w {
            proof {
                lemma_visible_width_prefix(s@, i + 1);
            }
            return false;
        }
        w = w + cw;
        i += 1;
    }
    assert(s@.take(s.len() as int) == s@);
    true
}

/// `<cols>x<rows>`, each 1–1000.
pub open spec fn parse_dims_spec(s: Seq<char>) -> Option<(usize, usize)> {
    match split_once(s, "x"@) {
        Some((c, r)) => match (usize_value(c), usize_value(r)) {
            (Some(cols), Some(rows)) => if 1 <= cols <= 1000 && 1 <= rows <= 1000 {
                Some((cols, rows))
            } else {
                None
            },
            _ => None,
        },
        None => None,
    }
}

fn parse_dims(s: &[char]) -> (r: Option<(usize, usize)>)
    ensures
        r == parse_dims_spec(s@),
{
    match split_once_str(s, "x") {
        Some((c, r)) => match (parse_usize(c.as_slice()), parse_usize(r.as_slice())) {
            (Some(cols), Some(rows)) => if 1 <= cols && cols <= 1000 && 1 <= rows && rows <= 1000 {
                Some((cols, rows))
            } else {
                None
            },
            _ => None,
        },
        None => None,
    }
}

/// `str::parse::<i32>`.
pub open spec fn i32_value(s: Seq<char>) -> Option<i32> {
    match signed_value(s) {
        Some(v) => if i32::MIN <= v <= i32::MAX {
            Some(v as i32)
        } else {
            None
        },
        None => None,
    }
}

/// `<prefix>N <noun>[s] ---`: both the singular and the plural noun are
/// accepted, so files written before the writer pluralized (`1 spans`)
/// keep parsing.
pub open spec fn section_count_spec(line: Seq<char>, prefix: Seq<char>, noun: Seq<char>) -> Option<
    usize,
> {
    match strip_prefix(line, prefix) {
        Some(a) => match strip_suffix(a, " ---"@) {
            Some(rest) => match split_once(rest, " "@) {
                Some((count, word)) => if word == noun || word == noun + seq!['s'] {
                    usize_value(count)
                } else {
                    None
                },
                None => None,
            },
            None => None,
        },
        None => None,
    }
}

fn section_count(line: &[char], prefix: &str, noun: &str) -> (r: Option<usize>)
    ensures
        r == section_count_spec(line@, prefix@, noun@),
{
    let a = match strip_prefix_str(line, prefix) {
        Some(a) => a,
        None => return None,
    };
    let rest = match strip_suffix_str(a.as_slice(), " ---") {
        Some(r) => r,
        None => return None,
    };
    let (count, word) = match split_once_str(rest.as_slice(), " ") {
        Some(p) => p,
        None => return None,
    };
    let mut nouns = chars_of(noun);
    let singular = eq_str(word.as_slice(), noun);
    nouns.push('s');
    assert(nouns@ =~= noun@ + seq!['s']);
    let plural = crate::text::chars_eq(word.as_slice(), nouns.as_slice());
    if !singular && !plural {
        return None;
    }
    parse_usize(count.as_slice())
}

/// What [`parse_span`] makes of one line of the styles section.
pub open spec fn parse_span_spec(line: Seq<char>, rows: usize, cols: usize) -> Result<Span, Seq<char>> {
    let bad = "bad style span `"@ + line + "`"@;
    if !(line.len() > 0 && line[0] == 'r') {
        Err(bad)
    } else {
        match split_once(line.skip(1), " c"@) {
            None => Err(bad),
            Some((row_t, rest)) => match split_once(rest, "-c"@) {
                None => Err(bad),
                Some((start_t, rest)) => match split_once(rest, " "@) {
                    None => Err(bad),
                    Some((end_t, style_t)) => match (
                        usize_value(row_t),
                        usize_value(start_t),
                        usize_value(end_t),
                    ) {
                        (Some(row), Some(start), Some(end)) => if row >= rows || end >= cols
                            || start > end {
                            Err("style span out of bounds `"@ + line + "`"@)
                        } else {
                            match style_parse_spec(style_t) {
                                Some(st) => Ok(Span { row, start, end, style: st }),
                                None => Err("unknown style `"@ + style_t + "`"@),
                            }
                        },
                        _ => Err(bad),
                    },
                },
            },
        }
    }
}

fn quoted_msg(head: &str, body: &[char], tail: &str) -> (m: String)
    ensures
        m@ == head@ + body@ + tail@,
{
    let mut m = string_from(head);
    let b = string_of(body);
    push_str(&mut m, b.as_str());
    push_str(&mut m, tail);
    m
}

fn parse_span(line: &[char], rows: usize, cols: usize) -> (r: Result<Span, String>)
    ensures
        match r {
            Ok(sp) => parse_span_spec(line@, rows, cols) == Ok::<Span, Seq<char>>(sp),
            Err(m) => parse_span_spec(line@, rows, cols) == Err::<Span, Seq<char>>(m@),
        },
{
    if !(line.len() > 0 && line[0] == 'r') {
        return Err(quoted_msg("bad style span `", line, "`"));
    }
    let rest = crate::text::skip_chars(line, 1);
    let (row_t, rest) = match split_once_str(rest.as_slice(), " c") {
        Some(p) => p,
        None => return Err(quoted_msg("bad style span `", line, "`")),
    };
    let (start_t, rest) = match split_once_str(rest.as_slice(), "-c") {
        Some(p) => p,
        None => return Err(quoted_msg("bad style span `", line, "`")),
    };
    let (end_t, style_t) = match split_once_str(rest.as_slice(), " ") {
        Some(p) => p,
        None => return Err(quoted_msg("bad style span `", line, "`")),
    };
    let row = match parse_usize(row_t.as_slice()) {
        Some(v) => v,
        None => return Err(quoted_msg("bad style span `", line, "`")),
    };
    let start = match parse_usize(start_t.as_slice()) {
        Some(v) => v,
        None => return Err(quoted_msg("bad style span `", line, "`")),
    };
    let end = match parse_usize(end_t.as_slice()) {
        Some(v) => v,
        None => return Err(quoted_msg("bad style span `", line, "`")),
    };
    if row >= rows || end >= cols || start > end {
        return Err(quoted_msg("style span out of bounds `", line, "`"));
    }
    match Style::parse_chars(style_t.as_slice()) {
        Some(style) => Ok(Span { row, start, end, style }),
        None => Err(quoted_msg("unknown style `", style_t.as_slice(), "`")),
    }
}

/// A parse error as values: 1-based line and message.
pub type ErrView = (nat, Seq<char>);

/// The header lines: command, terminal size, exit code, screen marker.
pub open spec fn parse_head(ls: Seq<Seq<char>>) -> Result<(Seq<Seq<char>>, usize, usize, i32), ErrView> {
    if ls.len() < 1 {
        Err((1, "empty file"@))
    } else if ls[0] != magic_line() {
        Err((1, "not an ansisnap v1 snapshot"@))
    } else if ls.len() < 2 {
        Err((2, "missing cmd header"@))
    } else {
        match strip_prefix(ls[1], "cmd: "@) {
            None => Err((2, "expected `cmd: [...]`"@)),
            Some(raw) => match decode_cmd_spec(raw) {
                Err(m) => Err((2, m)),
                Ok(cmd) => if ls.len() < 3 {
                    Err((3, "missing term header"@))
                } else {
                    match strip_prefix(ls[2], "term: "@) {
                        None => Err((3, "expected `term: <cols>x<rows>`"@)),
                        Some(d) => match parse_dims_spec(d) {
                            None => Err((3, "bad terminal dimensions"@)),
                            Some((cols, rows)) => if ls.len() < 4 {
                                Err((4, "missing exit header"@))
                            } else {
                                match strip_prefix(ls[3], "exit: "@) {
                                    Some(v) if i32_value(v) is Some => if ls.len() < 5 {
                                        Err((5, "missing screen section"@))
                                    } else if strip_prefix(ls[4], "--- screen:"@) is None {
                                        Err((5, "expected `--- screen: ... ---`"@))
                                    } else {
                                        Ok((cmd, cols, rows, i32_value(v).unwrap()))
                                    },
                                    _ => Err((4, "expected `exit: <code>`"@)),
                                }
                            },
                        },
                    }
                },
            },
        }
    }
}

/// The `count` screen rows from line index `start` on.
pub open spec fn screen_rows_spec(ls: Seq<Seq<char>>, start: nat, count: nat, cols: usize) -> Result<
    Seq<Seq<char>>,
    ErrView,
>
    decreases count,
{
    if count == 0 {
        Ok(seq![])
    } else {
        match screen_rows_spec(ls, start, (count - 1) as nat, cols) {
            Err(e) => Err(e),
            Ok(v) => {
                let k = start + count - 1;
                if k >= ls.len() {
                    Err((5, "screen section shorter than declared rows"@))
                } else if !(ls[k].len() > 0 && ls[k][0] == '|') {
                    Err(((k + 1) as nat, "screen row must start with `|`"@))
                } else if visible_width(ls[k].skip(1)) > cols {
                    Err(((k + 1) as nat, "screen row wider than declared cols"@))
                } else {
                    Ok(v.push(ls[k].skip(1)))
                }
            },
        }
    }
}

/// The `count` span lines from line index `start` on; `hdr` is the line
/// number of the section header.
pub open spec fn spans_spec(
    ls: Seq<Seq<char>>,
    start: nat,
    count: nat,
    rows: usize,
    cols: usize,
    hdr: nat,
) -> Result<Seq<Span>, ErrView>
    decreases count,
{
    if count == 0 {
        Ok(seq![])
    } else {
        match spans_spec(ls, start, (count - 1) as nat, rows, cols, hdr) {
            Err(e) => Err(e),
            Ok(v) => {
                let k = start + count - 1;
                if k >= ls.len() {
                    Err((hdr, "styles section shorter than declared count"@))
                } else {
                    match parse_span_spec(ls[k], rows, cols) {
                        Err(m) => Err(((k + 1) as nat, m)),
                        Ok(sp) => Ok(v.push(sp)),
                    }
                }
            },
        }
    }
}

/// The `count` stderr lines from line index `start` on.
pub open spec fn stderr_spec(ls: Seq<Seq<char>>, start: nat, count: nat, hdr: nat) -> Result<
    Seq<Seq<char>>,
    ErrView,
>
    decreases count,
{
    if count == 0 {
        Ok(seq![])
    } else {
        match stderr_spec(ls, start, (count - 1) as nat, hdr) {
            Err(e) => Err(e),
            Ok(v) => {
                let k = start + count - 1;
                if k >= ls.len() {
                    Err((hdr, "stderr section shorter than declared count"@))
                } else if !(ls[k].len() > 0 && ls[k][0] == '|') {
                    Err(((k + 1) as nat, "stderr line must start with `|`"@))
                } else {
                    Ok(v.push(ls[k].skip(1)))
                }
            },
        }
    }
}

/// Everything after the header lines.
pub open spec fn parse_body(
    ls: Seq<Seq<char>>,
    cmd: Seq<Seq<char>>,
    cols: usize,
    rows: usize,
    exit: i32,
) -> Result<SnapshotView, ErrView> {
    match screen_rows_spec(ls, 5, rows as nat, cols) {
        Err(e) => Err(e),
        Ok(lines) => {
            let k = 5 + rows;
            if k >= ls.len() {
                Err((5, "missing styles section"@))
            } else {
                match section_count_spec(ls[k], "--- styles: "@, "span"@) {
                    None => Err(((k + 1) as nat, "expected `--- styles: N spans ---`"@)),
                    Some(ns) => match spans_spec(ls, (k + 1) as nat, ns as nat, rows, cols, (k + 1) as nat) {
                        Err(e) => Err(e),
                        Ok(spans) => {
                            let k2 = k + 1 + ns;
                            if k2 >= ls.len() {
                                Err(((k + 1) as nat, "missing stderr section"@))
                            } else {
                                match section_count_spec(ls[k2], "--- stderr: "@, "line"@) {
                                    None => Err(((k2 + 1) as nat, "expected `--- stderr: N lines ---`"@)),
                                    Some(ne) => match stderr_spec(ls, (k2 + 1) as nat, ne as nat, (k2 + 1) as nat) {
                                        Err(e) => Err(e),
                                        Ok(err_lines) => {
                                            let k3 = k2 + 1 + ne;
                                            if k3 < ls.len() && ls[k3].len() != 0 {
                                                Err(((k3 + 1) as nat, "trailing content after stderr section"@))
                                            } else {
                                                Ok(
                                                    SnapshotView {
                                                        cmd,
                                                        exit,
                                                        frame: FrameView { cols, rows, lines, spans },
                                                        stderr: err_lines,
                                                    },
                                                )
                                            }
                                        },
                                    },
                                }
                            }
                        },
                    },
                }
            }
        },
    }
}

/// What [`Snapshot::parse`] makes of a list of lines.
pub open spec fn parse_lines_spec(ls: Seq<Seq<char>>) -> Result<SnapshotView, ErrView> {
    match parse_head(ls) {
        Err(e) => Err(e),
        Ok((cmd, cols, rows, exit)) => parse_body(ls, cmd, cols, rows, exit),
    }
}

/// What [`Snapshot::parse`] makes of a text.
pub open spec fn parse_spec(text: Seq<char>) -> Result<SnapshotView, ErrView> {
    parse_lines_spec(text_lines(text))
}

/// A parse result as values.
pub open spec fn snap_result(r: Result<Snapshot, SnapError>) -> Result<SnapshotView, ErrView> {
    match r {
        Ok(s) => Ok(s@),
        Err(e) => Err((e.line as nat, e.msg@)),
    }
}

fn snap_err(line: usize, msg: &str) -> (e: SnapError)
    ensures
        e.line == line,
        e.msg@ == msg@,
{
    SnapError { line, msg: string_from(msg) }
}

proof fn lemma_rows_err(ls: Seq<Seq<char>>, start: nat, i: nat, count: nat, cols: usize)
    requires
        i <= count,
        screen_rows_spec(ls, start, i, cols) is Err,
    ensures
        screen_rows_spec(ls, start, count, cols) == screen_rows_spec(ls, start, i, cols),
    decreases count,
{
    if count > i {
        lemma_rows_err(ls, start, i, (count - 1) as nat, cols);
    }
}

proof fn lemma_spans_err(
    ls: Seq<Seq<char>>,
    start: nat,
    i: nat,
    count: nat,
    rows: usize,
    cols: usize,
    hdr: nat,
)
    requires
        i <= count,
        spans_spec(ls, start, i, rows, cols, hdr) is Err,
    ensures
        spans_spec(ls, start, count, rows, cols, hdr) == spans_spec(ls, start, i, rows, cols, hdr),
    decreases count,
{
    if count > i {
        lemma_spans_err(ls, start, i, (count - 1) as nat, rows, cols, hdr);
    }
}

proof fn lemma_stderr_err(ls: Seq<Seq<char>>, start: nat, i: nat, count: nat, hdr: nat)
    requires
        i <= count,
        stderr_spec(ls, start, i, hdr) is Err,
    ensures
        stderr_spec(ls, start, count, hdr) == stderr_spec(ls, start, i, hdr),
    decreases count,
{
    if count > i {
        lemma_stderr_err(ls, start, i, (count - 1) as nat, hdr);
    }
}

/// The lines of a text, as sequences.
pub open spec fn lines_view(ls: Seq<Vec<char>>) -> Seq<Seq<char>> {
    ls.map_values(|l: Vec<char>| l@)
}

impl Snapshot {
    fn parse_head_lines(ls: &Vec<Vec<char>>) -> (r: Result<(Vec<String>, usize, usize, i32), SnapError>)
        ensures
            match r {
                Ok((cmd, cols, rows, exit)) => parse_head(lines_view(ls@)) == Ok::<
                    (Seq<Seq<char>>, usize, usize, i32),
                    ErrView,
                >((strings_view(cmd@), cols, rows, exit)),
                Err(e) => parse_head(lines_view(ls@)) == Err::<
                    (Seq<Seq<char>>, usize, usize, i32),
                    ErrView,
                >((e.line as nat, e.msg@)),
            },
    {
        let ghost l = lines_view(ls@);
        if ls.len() < 1 {
            return Err(snap_err(1, "empty file"));
        }
        assert(l[0] == ls@[0]@);
        if !eq_str(ls[0].as_slice(), "ansisnap snapshot v1") {
            return Err(snap_err(1, "not an ansisnap v1 snapshot"));
        }
        if ls.len() < 2 {
            return Err(snap_err(2, "missing cmd header"));
        }
        assert(l[1] == ls@[1]@);
        let raw = match strip_prefix_str(ls[1].as_slice(), "cmd: ") {
            Some(r) => r,
            None => return Err(snap_err(2, "expected `cmd: [...]`")),
        };
        let raw_s = string_of(raw.as_slice());
        let cmd = match decode_cmd(raw_s.as_str()) {
            Ok(c) => c,
            Err(m) => return Err(SnapError { line: 2, msg: m }),
        };
        if ls.len() < 3 {
            return Err(snap_err(3, "missing term header"));
        }
        assert(l[2] == ls@[2]@);
        let d = match strip_prefix_str(ls[2].as_slice(), "term: ") {
            Some(d) => d,
            None => return Err(snap_err(3, "expected `term: <cols>x<rows>`")),
        };
        let (cols, rows) = match parse_dims(d.as_slice()) {
            Some(p) => p,
            None => return Err(snap_err(3, "bad terminal dimensions")),
        };
        if ls.len() < 4 {
            return Err(snap_err(4, "missing exit header"));
        }
        assert(l[3] == ls@[3]@);
        let exit = match strip_prefix_str(ls[3].as_slice(), "exit: ") {
            Some(v) => match parse_i32(v.as_slice()) {
                Some(x) => x,
                None => return Err(snap_err(4, "expected `exit: <code>`")),
            },
            None => return Err(snap_err(4, "expected `exit: <code>`")),
        };
        if ls.len() < 5 {
            return Err(snap_err(5, "missing screen section"));
        }
        assert(l[4] == ls@[4]@);
        if !starts_with_str(ls[4].as_slice(), "--- screen:") {
            return Err(snap_err(5, "expected `--- screen: ... ---`"));
        }
        Ok((cmd, cols, rows, exit))
    }

    /// Parse the on-disk text form back.
    pub fn parse(text: &str) -> (r: Result<Snapshot, SnapError>)
        ensures
            snap_result(r) == parse_spec(text@),
    {
        let cs = chars_of(text);
        let ls = lines_of(cs.as_slice());
        let ghost l = lines_view(ls@);
        assert(l == text_lines(text@));
        let (cmd, cols, rows, exit) = match Self::parse_head_lines(&ls) {
            Ok(h) => h,
            Err(e) => return Err(e),
        };
        assert(rows <= 1000);
        // The screen rows.
        let mut frame_lines: Vec<String> = Vec::new();
        let mut i: usize = 0;
        assert(strings_view(frame_lines@) =~= Seq::<Seq<char>>::empty());
        while i < rows
            invariant
                i <= rows <= 1000,
                l == lines_view(ls@),
                l == text_lines(text@),
                parse_head(l) == Ok::<(Seq<Seq<char>>, usize, usize, i32), ErrView>(
                    (strings_view(cmd@), cols, rows, exit),
                ),
                screen_rows_spec(l, 5, i as nat, cols) == Ok::<Seq<Seq<char>>, ErrView>(
                    strings_view(frame_lines@),
                ),
            decreases rows - i,
        {
            let k = 5 + i;
            if k >= ls.len() {
                proof {
                    lemma_rows_err(l, 5, (i + 1) as nat, rows as nat, cols);
                }
                return Err(snap_err(5, "screen section shorter than declared rows"));
            }
            assert(l[k as int] == ls@[k as int]@);
            let row = &ls[k];
            if !(row.len() > 0 && row[0] == '|') {
                proof {
                    lemma_rows_err(l, 5, (i + 1) as nat, rows as nat, cols);
                }
                return Err(snap_err(k + 1, "screen row must start with `|`"));
            }
            let content = crate::text::skip_chars(row.as_slice(), 1);
            if !fits_width(content.as_slice(), cols) {
                proof {
                    lemma_rows_err(l, 5, (i + 1) as nat, rows as nat, cols);
                }
                return Err(snap_err(k + 1, "screen row wider than declared cols"));
            }
            let ghost before = strings_view(frame_lines@);
            let t = string_of(content.as_slice());
            frame_lines.push(t);
            assert(strings_view(frame_lines@) =~= before.push(t@));
            i += 1;
        }
        // The styles section.
        let k = 5 + rows;
        if k >= ls.len() {
            return Err(snap_err(5, "missing styles section"));
        }
        assert(l[k as int] == ls@[k as int]@);
        let ns = match section_count(ls[k].as_slice(), "--- styles: ", "span") {
            Some(n) => n,
            None => return Err(snap_err(k + 1, "expected `--- styles: N spans ---`")),
        };
        let mut spans: Vec<Span> = Vec::new();
        let mut j: usize = 0;
        while j < ns
            invariant
                j <= ns,
                k == 5 + rows,
                k < ls.len(),
                k + 1 + j <= ls.len(),
                l == lines_view(ls@),
                l == text_lines(text@),
                parse_head(l) == Ok::<(Seq<Seq<char>>, usize, usize, i32), ErrView>(
                    (strings_view(cmd@), cols, rows, exit),
                ),
                screen_rows_spec(l, 5, rows as nat, cols) == Ok::<Seq<Seq<char>>, ErrView>(
                    strings_view(frame_lines@),
                ),
                section_count_spec(l[k as int], "--- styles: "@, "span"@) == Some(ns),
                spans_spec(l, (k + 1) as nat, j as nat, rows, cols, (k + 1) as nat) == Ok::<
                    Seq<Span>,
                    ErrView,
                >(spans@),
            decreases ns - j,
        {
            if j >= ls.len() - (k + 1) {
                proof {
                    lemma_spans_err(l, (k + 1) as nat, (j + 1) as nat, ns as nat, rows, cols, (k + 1) as nat);
                }
                return Err(snap_err(k + 1, "styles section shorter than declared count"));
            }
            let idx = k + 1 + j;
            assert(l[idx as int] == ls@[idx as int]@);
            match parse_span(ls[idx].as_slice(), rows, cols) {
                Ok(sp) => spans.push(sp),
                Err(m) => {
                    proof {
                        lemma_spans_err(l, (k + 1) as nat, (j + 1) as nat, ns as nat, rows, cols, (k + 1) as nat);
                    }
                    return Err(SnapError { line: idx + 1, msg: m });
                },
            }
            j += 1;
        }
        // The stderr section.
        let k2 = k + 1 + ns;
        if k2 >= ls.len() {
            return Err(snap_err(k + 1, "missing stderr section"));
        }
        assert(l[k2 as int] == ls@[k2 as int]@);
        let ne = match section_count(ls[k2].as_slice(), "--- stderr: ", "line") {
            Some(n) => n,
            None => return Err(snap_err(k2 + 1, "expected `--- stderr: N lines ---`")),
        };
        let mut stderr: Vec<String> = Vec::new();
        let mut j: usize = 0;
        assert(strings_view(stderr@) =~= Seq::<Seq<char>>::empty());
        while j < ne
            invariant
                j <= ne,
                k == 5 + rows,
                k2 == k + 1 + ns,
                k2 < ls.len(),
                k2 + 1 + j <= ls.len(),
                l == lines_view(ls@),
                l == text_lines(text@),
                parse_head(l) == Ok::<(Seq<Seq<char>>, usize, usize, i32), ErrView>(
                    (strings_view(cmd@), cols, rows, exit),
                ),
                screen_rows_spec(l, 5, rows as nat, cols) == Ok::<Seq<Seq<char>>, ErrView>(
                    strings_view(frame_lines@),
                ),
                section_count_spec(l[k as int], "--- styles: "@, "span"@) == Some(ns),
                spans_spec(l, (k + 1) as nat, ns as nat, rows, cols, (k + 1) as nat) == Ok::<
                    Seq<Span>,
                    ErrView,
                >(spans@),
                section_count_spec(l[k2 as int], "--- stderr: "@, "line"@) == Some(ne),
                stderr_spec(l, (k2 + 1) as nat, j as nat, (k2 + 1) as nat) == Ok::<
                    Seq<Seq<char>>,
                    ErrView,
                >(strings_view(stderr@)),
            decreases ne - j,
        {
            if j >= ls.len() - (k2 + 1) {
                proof {
                    lemma_stderr_err(l, (k2 + 1) as nat, (j + 1) as nat, ne as nat, (k2 + 1) as nat);
                }
                return Err(snap_err(k2 + 1, "stderr section shorter than declared count"));
            }
            let idx = k2 + 1 + j;
            assert(l[idx as int] == ls@[idx as int]@);
            let row = &ls[idx];
            if !(row.len() > 0 && row[0] == '|') {
                proof {
                    lemma_stderr_err(l, (k2 + 1) as nat, (j + 1) as nat, ne as nat, (k2 + 1) as nat);
                }
                return Err(snap_err(idx + 1, "stderr line must start with `|`"));
            }
            let content = crate::text::skip_chars(row.as_slice(), 1);
            let ghost before = strings_view(stderr@);
            let t = string_of(content.as_slice());
            stderr.push(t);
            assert(strings_view(stderr@) =~= before.push(t@));
            j += 1;
        }
        let k3 = k2 + 1 + ne;
        if k3 < ls.len() {
            assert(l[k3 as int] == ls@[k3 as int]@);
            if ls[k3].len() != 0 {
                return Err(snap_err(k3 + 1, "trailing content after stderr section"));
            }
        }
        Ok(Snapshot { cmd, exit, frame: Frame { cols, rows, lines: frame_lines, spans }, stderr })
    }
}

// ---------------------------------------------------------------------------
// Frames rendered from a screen.
// ---------------------------------------------------------------------------

/// The spans of row `r`, in order.
pub open spec fn spans_in_row(spans: Seq<Span>, r: usize) -> Seq<Span>
    decreases spans.len(),
{
    if spans.len() == 0 {
        seq![]
    } else if spans.last().row == r {
        spans_in_row(spans.drop_last(), r).push(spans.last())
    } else {
        spans_in_row(spans.drop_last(), r)
    }
}

/// Spans as `(start, end inclusive, style)` triples.
pub open spec fn span_triples(spans: Seq<Span>) -> Seq<(usize, usize, Style)> {
    spans.map_values(|sp: Span| (sp.start, sp.end, sp.style))
}

/// `f` is the rendering of screen state `t`: its size, each row's visible
/// text, and, ordered by row, each row's maximal runs of non-default style.
pub open spec fn frame_of(t: TermView, f: FrameView) -> bool {
    &&& f.cols == t.cols
    &&& f.rows == t.rows
    &&& f.lines.len() == t.rows
    &&& forall|r: int| 0 <= r < t.rows ==> f.lines[r] == row_text_spec(t, r)
    &&& forall|k: int| 0 <= k < f.spans.len() ==> (#[trigger] f.spans[k]).row < t.rows
    &&& forall|k: int| 0 <= k < f.spans.len() - 1 ==> (#[trigger] f.spans[k]).row <= f.spans[k + 1].row
    &&& forall|r: usize|
        r < t.rows ==> style_runs(row_styles(t, r as int), span_triples(#[trigger] spans_in_row(f.spans, r)))
}

proof fn lemma_spans_in_row_push(s: Seq<Span>, x: Span)
    ensures
        forall|r: usize|
            #[trigger] spans_in_row(s.push(x), r) == if x.row == r {
                spans_in_row(s, r).push(x)
            } else {
                spans_in_row(s, r)
            },
{
    assert(s.push(x).drop_last() == s);
}

/// Whether some span lies on row `r`.
pub open spec fn row_has_span(spans: Seq<Span>, r: usize) -> bool {
    exists|k: int| 0 <= k < spans.len() && (#[trigger] spans[k]).row == r
}

/// Rows from `u` down that are empty and unstyled are not counted.
pub open spec fn used_from(f: FrameView, u: nat) -> nat
    decreases u,
{
    if u > 0 && f.lines[u - 1].len() == 0 && !row_has_span(f.spans, (u - 1) as usize) {
        used_from(f, (u - 1) as nat)
    } else {
        u
    }
}

fn has_span_on(spans: &Vec<Span>, r: usize) -> (b: bool)
    ensures
        b == row_has_span(spans@, r),
{
    let mut k: usize = 0;
    while k < spans.len()
        invariant
            k <= spans.len(),
            forall|j: int| 0 <= j < k ==> (#[trigger] spans@[j]).row != r,
        decreases spans.len() - k,
    {
        if spans[k].row == r {
            return true;
        }
        k += 1;
    }
    false
}

/// Append row `row`'s runs `rs` as spans.
fn push_row_spans(spans: &mut Vec<Span>, row: usize, rs: &Vec<(usize, usize, Style)>)
    ensures
        final(spans)@.len() >= old(spans)@.len(),
        forall|k: int| 0 <= k < old(spans)@.len() ==> final(spans)@[k] == old(spans)@[k],
        forall|k: int| old(spans)@.len() <= k < final(spans)@.len() ==> (#[trigger] final(spans)@[k]).row == row,
        forall|r: usize| r != row ==> #[trigger] spans_in_row(final(spans)@, r) == spans_in_row(old(spans)@, r),
        span_triples(spans_in_row(final(spans)@, row)) == span_triples(spans_in_row(old(spans)@, row)) + rs@,
{
    let ghost s0 = spans@;
    let mut j: usize = 0;
    assert(span_triples(spans_in_row(s0, row)) + rs@.take(0) =~= span_triples(spans_in_row(s0, row)));
    while j < rs.len()
        invariant
            j <= rs.len(),
            spans@.len() >= s0.len(),
            forall|k: int| 0 <= k < s0.len() ==> spans@[k] == s0[k],
            forall|k: int| s0.len() <= k < spans@.len() ==> (#[trigger] spans@[k]).row == row,
            forall|r: usize| r != row ==> #[trigger] spans_in_row(spans@, r) == spans_in_row(s0, r),
            span_triples(spans_in_row(spans@, row)) == span_triples(spans_in_row(s0, row)) + rs@.take(j as int),
        decreases rs.len() - j,
    {
        let (start, end, style) = rs[j];
        let sp = Span { row, start, end, style };
        proof {
            lemma_spans_in_row_push(spans@, sp);
        }
        let ghost old_in = spans_in_row(spans@, row);
        spans.push(sp);
        assert(spans_in_row(spans@, row) == old_in.push(sp));
        assert(span_triples(old_in.push(sp)) =~= span_triples(old_in).push((start, end, style)));
        j += 1;
        assert(rs@.take(j as int) =~= rs@.take(j - 1).push(rs@[j - 1]));
        assert(span_triples(spans_in_row(spans@, row)) =~= span_triples(spans_in_row(s0, row)) + rs@.take(j as int));
    }
    assert(rs@.take(rs.len() as int) == rs@);
}

impl Frame {
    /// The frame a screen shows.
    pub fn from_screen(screen: &Screen) -> (f: Frame)
        requires
            screen.wf(),
        ensures
            frame_of(screen@, f@),
    {
        let ghost t = screen@;
        let rows = screen.rows();
        let cols = screen.cols();
        let mut lines: Vec<String> = Vec::new();
        let mut spans: Vec<Span> = Vec::new();
        let mut row: usize = 0;
        while row < rows
            invariant
                screen.wf(),
                t == screen@,
                rows == t.rows,
                cols == t.cols,
                row <= rows,
                strings_view(lines@).len() == row,
                forall|r: int| 0 <= r < row ==> strings_view(lines@)[r] == row_text_spec(t, r),
                forall|k: int| 0 <= k < spans@.len() ==> (#[trigger] spans@[k]).row < row,
                forall|k: int| 0 <= k < spans@.len() - 1 ==> (#[trigger] spans@[k]).row <= spans@[k + 1].row,
                forall|r: usize|
                    r < row ==> style_runs(row_styles(t, r as int), span_triples(#[trigger] spans_in_row(spans@, r))),
                forall|r: usize| r >= row ==> (#[trigger] spans_in_row(spans@, r)).len() == 0,
            decreases rows - row,
        {
            let ghost before = strings_view(lines@);
            let text = screen.row_text(row);
            lines.push(text);
            assert(strings_view(lines@) =~= before.push(text@));
            let rs = screen.row_style_spans(row);
            let ghost s0 = spans@;
            push_row_spans(&mut spans, row, &rs);
            proof {
                assert(span_triples(spans_in_row(s0, row)) =~= seq![]);
                assert(span_triples(spans_in_row(spans@, row)) =~= rs@);
                assert forall|k: int| 0 <= k < spans@.len() - 1 implies (#[trigger] spans@[k]).row
                    <= spans@[k + 1].row by {
                    if k + 1 < s0.len() {
                        assert(spans@[k] == s0[k]);
                    }
                }
            }
            row += 1;
        }
        Frame { cols, rows, lines, spans }
    }

    /// Number of rows with any visible content, i.e. the row count after
    /// trimming trailing blank rows.
    pub fn used_rows(&self) -> (n: usize)
        requires
            self.lines.len() >= self.rows,
        ensures
            n == used_from(self@, self.rows as nat),
    {
        let mut used = self.rows;
        while used > 0 && self.lines[used - 1].as_str().is_empty() && !has_span_on(&self.spans, used - 1)
            invariant
                used <= self.rows <= self.lines.len(),
                used_from(self@, self.rows as nat) == used_from(self@, used as nat),
            decreases used,
        {
            used -= 1;
        }
        used
    }
}

/// The rows from [`Frame::used_rows`] on are empty and unstyled, and the
/// row just before them, if any, is not: the count is the rows left after
/// trimming trailing blank rows.
pub proof fn lemma_used_rows(f: FrameView, u: nat)
    requires
        u <= f.rows <= f.lines.len(),
        forall|r: int| u <= r < f.rows ==> f.lines[r].len() == 0 && !row_has_span(f.spans, r as usize),
    ensures
        used_from(f, u) <= u,
        forall|r: int|
            used_from(f, u) <= r < f.rows ==> f.lines[r].len() == 0 && !row_has_span(f.spans, r as usize),
        used_from(f, u) > 0 ==> (f.lines[used_from(f, u) - 1].len() > 0 || row_has_span(
            f.spans,
            (used_from(f, u) - 1) as usize,
        )),
    decreases u,
{
    if u > 0 && f.lines[u - 1].len() == 0 && !row_has_span(f.spans, (u - 1) as usize) {
        let v = (u - 1) as nat;
        assert forall|r: int| v <= r < f.rows implies f.lines[r].len() == 0 && !row_has_span(
            f.spans,
            r as usize,
        ) by {
            if r == v {
                assert(r as usize == (u - 1) as usize);
            }
        }
        lemma_used_rows(f, v);
    }
}

/// Spans ordered by row, each on one of the first `rows` rows.
pub open spec fn spans_by_row(spans: Seq<Span>, rows: nat) -> bool {
    &&& forall|k: int| 0 <= k < spans.len() ==> (#[trigger] spans[k]).row < rows
    &&& forall|k: int| 0 <= k < spans.len() - 1 ==> (#[trigger] spans[k]).row <= spans[k + 1].row
}

/// The spans of rows `0 .. n`, row after row.
pub open spec fn concat_rows(spans: Seq<Span>, n: nat) -> Seq<Span>
    decreases n,
{
    if n == 0 {
        seq![]
    } else {
        concat_rows(spans, (n - 1) as nat) + spans_in_row(spans, (n - 1) as usize)
    }
}

proof fn lemma_spans_in_row_none(spans: Seq<Span>, r: usize)
    requires
        forall|k: int| 0 <= k < spans.len() ==> (#[trigger] spans[k]).row != r,
    ensures
        spans_in_row(spans, r) == Seq::<Span>::empty(),
    decreases spans.len(),
{
    if spans.len() > 0 {
        lemma_spans_in_row_none(spans.drop_last(), r);
        assert(spans.last() == spans[spans.len() - 1]);
    }
}

proof fn lemma_concat_push(y: Seq<Span>, z: Span, n: nat)
    requires
        n <= usize::MAX + 1,
        forall|k: int| 0 <= k < y.len() ==> (#[trigger] y[k]).row <= z.row,
    ensures
        n <= z.row ==> concat_rows(y.push(z), n) == concat_rows(y, n),
        n > z.row ==> concat_rows(y.push(z), n) == concat_rows(y, n).push(z),
    decreases n,
{
    let x = y.push(z);
    lemma_spans_in_row_push(y, z);
    if n > 0 {
        lemma_concat_push(y, z, (n - 1) as nat);
        let r = (n - 1) as usize;
        if n - 1 > z.row {
            lemma_spans_in_row_none(y, r);
            assert(spans_in_row(x, r) == spans_in_row(y, r));
            assert(concat_rows(y, (n - 1) as nat).push(z) + Seq::<Span>::empty() =~= (concat_rows(
                y,
                (n - 1) as nat,
            ) + Seq::<Span>::empty()).push(z));
        } else if n - 1 == z.row {
            assert(concat_rows(y, (n - 1) as nat) + spans_in_row(y, r).push(z) =~= (concat_rows(
                y,
                (n - 1) as nat,
            ) + spans_in_row(y, r)).push(z));
        }
    }
}

/// Spans ordered by row are their rows' spans, row after row.
pub proof fn lemma_rows_rebuild(spans: Seq<Span>, rows: nat)
    requires
        rows <= usize::MAX + 1,
        spans_by_row(spans, rows),
    ensures
        concat_rows(spans, rows) == spans,
    decreases spans.len(),
{
    if spans.len() == 0 {
        lemma_concat_empty(spans, rows);
    } else {
        let y = spans.drop_last();
        let z = spans.last();
        assert(z == spans[spans.len() - 1]);
        assert forall|k: int| 0 <= k < y.len() - 1 implies (#[trigger] y[k]).row <= y[k + 1].row by {
            assert(y[k] == spans[k] && y[k + 1] == spans[k + 1]);
        }
        assert forall|k: int| 0 <= k < y.len() implies (#[trigger] y[k]).row <= z.row by {
            lemma_rows_sorted_le(spans, k, spans.len() - 1);
        }
        lemma_rows_rebuild(y, rows);
        lemma_concat_push(y, z, rows);
        assert(y.push(z) =~= spans);
    }
}

proof fn lemma_rows_sorted_le(spans: Seq<Span>, i: int, j: int)
    requires
        0 <= i <= j < spans.len(),
        forall|k: int| 0 <= k < spans.len() - 1 ==> (#[trigger] spans[k]).row <= spans[k + 1].row,
    ensures
        spans[i].row <= spans[j].row,
    decreases j - i,
{
    if i < j {
        lemma_rows_sorted_le(spans, i + 1, j);
        assert(spans[i].row <= spans[i + 1].row);
    }
}

proof fn lemma_concat_empty(spans: Seq<Span>, n: nat)
    requires
        spans.len() == 0,
    ensures
        concat_rows(spans, n) == Seq::<Span>::empty(),
    decreases n,
{
    if n > 0 {
        lemma_concat_empty(spans, (n - 1) as nat);
        assert(Seq::<Span>::empty() + Seq::<Span>::empty() =~= Seq::<Span>::empty());
    }
}

proof fn lemma_concat_same(a: Seq<Span>, b: Seq<Span>, n: nat)
    requires
        n <= usize::MAX + 1,
        forall|r: usize| r < n ==> #[trigger] spans_in_row(a, r) == spans_in_row(b, r),
    ensures
        concat_rows(a, n) == concat_rows(b, n),
    decreases n,
{
    if n > 0 {
        lemma_concat_same(a, b, (n - 1) as nat);
        assert(spans_in_row(a, (n - 1) as usize) == spans_in_row(b, (n - 1) as usize));
    }
}

/// Two span lists ordered by row that agree on every row are equal.
pub proof fn lemma_spans_by_row_eq(a: Seq<Span>, b: Seq<Span>, rows: nat)
    requires
        rows <= usize::MAX + 1,
        spans_by_row(a, rows),
        spans_by_row(b, rows),
        forall|r: usize| r < rows ==> #[trigger] spans_in_row(a, r) == spans_in_row(b, r),
    ensures
        a == b,
{
    lemma_rows_rebuild(a, rows);
    lemma_rows_rebuild(b, rows);
    lemma_concat_same(a, b, rows);
}

proof fn lemma_spans_in_row_rows(spans: Seq<Span>, r: usize)
    ensures
        forall|k: int| 0 <= k < spans_in_row(spans, r).len() ==> (#[trigger] spans_in_row(spans, r)[k]).row == r,
    decreases spans.len(),
{
    if spans.len() > 0 {
        lemma_spans_in_row_rows(spans.drop_last(), r);
    }
}

proof fn lemma_triples_eq(a: Seq<Span>, b: Seq<Span>, r: usize)
    requires
        forall|k: int| 0 <= k < a.len() ==> (#[trigger] a[k]).row == r,
        forall|k: int| 0 <= k < b.len() ==> (#[trigger] b[k]).row == r,
        span_triples(a) == span_triples(b),
    ensures
        a == b,
{
    assert(a.len() == span_triples(a).len());
    assert forall|k: int| 0 <= k < a.len() implies a[k] == b[k] by {
        assert(span_triples(a)[k] == span_triples(b)[k]);
    }
    assert(a =~= b);
}

/// A screen state has exactly one frame: [`Frame::from_screen`] is
/// determined by what the screen shows.
pub proof fn lemma_frame_unique(t: TermView, f1: FrameView, f2: FrameView)
    requires
        t.rows <= 1000,
        frame_of(t, f1),
        frame_of(t, f2),
    ensures
        f1 == f2,
{
    assert(f1.lines =~= f2.lines) by {
        assert forall|r: int| 0 <= r < f1.lines.len() implies f1.lines[r] == f2.lines[r] by {
            assert(f1.lines[r] == row_text_spec(t, r));
            assert(f2.lines[r] == row_text_spec(t, r));
        }
    }
    assert forall|r: usize| r < t.rows implies #[trigger] spans_in_row(f1.spans, r) == spans_in_row(f2.spans, r) by {
        lemma_row_spans_unique(t, f1, f2, r);
    }
    lemma_spans_by_row_eq(f1.spans, f2.spans, t.rows);
}

proof fn lemma_row_spans_unique(t: TermView, f1: FrameView, f2: FrameView, r: usize)
    requires
        frame_of(t, f1),
        frame_of(t, f2),
        r < t.rows,
    ensures
        spans_in_row(f1.spans, r) == spans_in_row(f2.spans, r),
{
    let a = spans_in_row(f1.spans, r);
    let b = spans_in_row(f2.spans, r);
    assert(style_runs(row_styles(t, r as int), span_triples(a)));
    assert(style_runs(row_styles(t, r as int), span_triples(b)));
    lemma_style_runs_unique(row_styles(t, r as int), span_triples(a), span_triples(b));
    lemma_spans_in_row_rows(f1.spans, r);
    lemma_spans_in_row_rows(f2.spans, r);
    lemma_triples_eq(a, b, r);
}

} // verus!
