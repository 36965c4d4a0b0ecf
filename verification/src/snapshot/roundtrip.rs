//! Reading back what was written: the command array and the whole snapshot
//! text parse back to the values they were made from.

use vstd::prelude::*;
use crate::snapshot::{
    FrameView, SnapshotView, Span, bar_line, count_line, decode_cmd_spec, decode_from,
    encode_cmd_spec, escape_char, escape_text, header_lines, i32_value, magic_line,
    parse_body, parse_dims_spec, parse_head, parse_lines_spec, parse_span_spec, parse_spec,
    plural_spec, quoted, screen_rows_spec, section_count_spec, snapshot_lines, span_line,
    spans_spec, stderr_spec, visible_width,
};
use crate::style::{hex2, hex_char, style_parse_spec, style_text};
use crate::style::roundtrip::{lemma_hex_digit, lemma_style_roundtrip, lemma_style_text_plain, style_ok};
use crate::text::{
    dec_text, digit_char, digits_value, find_from, int_text, join_with, lemma_dec_text_plain,
    lemma_dec_text_unsigned, lemma_int_text_signed, lemma_no_breaks_cat, lemma_no_breaks_join,
    lemma_split_extend, no_breaks, occurs_at, radix_digit, split_on, split_once, strip_cr,
    strip_prefix, strip_suffix, text_lines, unlines, unsigned_value, usize_value,
};

verus! {

/// `p` stands in `cs` at position `i`.
pub open spec fn has_at(cs: Seq<char>, i: int, p: Seq<char>) -> bool {
    0 <= i && i + p.len() <= cs.len() && cs.subrange(i, i + p.len()) == p
}

proof fn lemma_hex_char(d: nat)
    requires
        d < 16,
    ensures
        radix_digit(hex_char(d), 16) == Some(d),
{
    if d < 10 {
        assert((('0' as u32 + d) as char) as u32 == '0' as u32 + d);
    } else {
        assert((('a' as u32 + (d - 10)) as char) as u32 == 'a' as u32 + (d - 10));
    }
}

/// `00` and two hex digits read back as the byte they were made from.
proof fn lemma_hex4(b: u8)
    ensures
        unsigned_value(seq!['0', '0'] + hex2(b), 16) == Some(b as nat),
{
    let h1 = hex_char((b / 16) as nat);
    let h2 = hex_char((b % 16) as nat);
    let s = seq!['0', '0'] + hex2(b);
    assert(s =~= seq!['0', '0', h1, h2]);
    lemma_hex_char((b / 16) as nat);
    lemma_hex_char((b % 16) as nat);
    assert(radix_digit('0', 16) == Some(0nat));
    let s3 = seq!['0', '0', h1];
    let s2 = seq!['0', '0'];
    let s1 = seq!['0'];
    assert(s.drop_last() =~= s3);
    assert(s3.drop_last() =~= s2);
    assert(s2.drop_last() =~= s1);
    assert(s1.drop_last() =~= Seq::<char>::empty());
    assert(digits_value(Seq::<char>::empty(), 16) == Some(0nat));
    assert(digits_value(s1, 16) == Some(0nat));
    assert(digits_value(s2, 16) == Some(0nat));
    assert(digits_value(s3, 16) == Some((b / 16) as nat));
    assert((b / 16) as nat * 16 + (b % 16) as nat == b as nat);
    assert(digits_value(s, 16) == Some(b as nat));
}

/// Decoding one escaped character inside a string.
proof fn lemma_decode_char(cs: Seq<char>, p: nat, args: Seq<Seq<char>>, acc: Seq<char>, c: char)
    requires
        has_at(cs, p as int, escape_char(c)),
    ensures
        decode_from(cs, p, args, Some(acc)) == decode_from(
            cs,
            p + escape_char(c).len(),
            args,
            Some(acc.push(c)),
        ),
{
    let e = escape_char(c);
    let pi = p as int;
    assert(cs[pi] == e[0]);
    if e.len() >= 2 {
        assert(cs[pi + 1] == e[1]);
    }
    if c != '\\' && c != '"' && c != '\n' && c != '\t' && (c as u32) < 0x20 {
        let v = c as u32;
        let end: nat = p + 6;
        let hex = cs.subrange(pi + 2, end as int);
        assert(hex =~= seq!['0', '0'] + hex2(v as u8)) by {
            assert(e =~= seq!['\\', 'u', '0', '0'] + hex2(c as u8));
            assert forall|j: int| 0 <= j < 4 implies hex[j] == (seq!['0', '0'] + hex2(v as u8))[j] by {
                assert(hex[j] == cs[pi + 2 + j]);
                assert(cs[pi + 2 + j] == e[2 + j]);
            }
        }
        lemma_hex4(v as u8);
        assert((v as u8) as nat == v as nat);
        vstd::utf8::char_u32_cast(c, v);
    }
}

/// Decoding the first `k` characters of an argument's escaped text.
proof fn lemma_decode_prefix(
    cs: Seq<char>,
    i: nat,
    args: Seq<Seq<char>>,
    acc: Seq<char>,
    a: Seq<char>,
    k: nat,
)
    requires
        k <= a.len(),
        has_at(cs, i as int, escape_text(a)),
    ensures
        has_at(cs, i as int, escape_text(a.take(k as int))),
        decode_from(cs, i, args, Some(acc)) == decode_from(
            cs,
            i + escape_text(a.take(k as int)).len(),
            args,
            Some(acc + a.take(k as int)),
        ),
    decreases k,
{
    if k == 0 {
        assert(a.take(0) =~= Seq::<char>::empty());
        assert(acc + a.take(0) =~= acc);
        assert(escape_text(a.take(0)) =~= Seq::<char>::empty());
        assert(cs.subrange(i as int, i as int) =~= Seq::<char>::empty());
    } else {
        lemma_decode_prefix(cs, i, args, acc, a, (k - 1) as nat);
        lemma_escape_prefix(a, k);
        let t0 = escape_text(a.take(k - 1));
        let t1 = escape_text(a.take(k as int));
        let ec = escape_char(a[k - 1]);
        assert(a.take(k as int).drop_last() =~= a.take(k - 1));
        assert(t1 == t0 + ec);
        let p = i + t0.len();
        assert(has_at(cs, i as int, t1)) by {
            assert(cs.subrange(i as int, (i + t1.len()) as int) =~= cs.subrange(i as int, (i + escape_text(a).len()) as int).subrange(0, t1.len() as int));
            assert(escape_text(a).subrange(0, t1.len() as int) =~= t1);
        }
        assert(has_at(cs, p as int, ec)) by {
            assert(cs.subrange(p as int, (p + ec.len()) as int) =~= cs.subrange(i as int, (i + t1.len()) as int).subrange(
                t0.len() as int,
                t1.len() as int,
            ));
            assert(t1.subrange(t0.len() as int, t1.len() as int) =~= ec);
        }
        lemma_decode_char(cs, p, args, acc + a.take(k - 1), a[k - 1]);
        assert((acc + a.take(k - 1)).push(a[k - 1]) =~= acc + a.take(k as int));
    }
}

/// The escaped text of a prefix is a prefix of the escaped text.
proof fn lemma_escape_prefix(a: Seq<char>, k: nat)
    requires
        k <= a.len(),
    ensures
        escape_text(a.take(k as int)).len() <= escape_text(a).len(),
        escape_text(a).subrange(0, escape_text(a.take(k as int)).len() as int) == escape_text(a.take(k as int)),
    decreases a.len(),
{
    if k < a.len() {
        lemma_escape_prefix(a.drop_last(), k);
        assert(a.drop_last().take(k as int) =~= a.take(k as int));
        let t = escape_text(a.take(k as int));
        assert(escape_text(a) == escape_text(a.drop_last()) + escape_char(a.last()));
        assert(escape_text(a).subrange(0, t.len() as int) =~= escape_text(a.drop_last()).subrange(0, t.len() as int));
    } else {
        assert(a.take(k as int) =~= a);
        assert(escape_text(a).subrange(0, escape_text(a).len() as int) =~= escape_text(a));
    }
}

/// A whole quoted argument is read after its opening quote.
proof fn lemma_decode_quoted(cs: Seq<char>, p: nat, args: Seq<Seq<char>>, a: Seq<char>)
    requires
        has_at(cs, p as int, quoted(a)),
    ensures
        decode_from(cs, p + 1, args, Some(seq![])) == decode_from(
            cs,
            p + quoted(a).len(),
            args.push(a),
            None,
        ),
{
    let t = escape_text(a);
    let q = quoted(a);
    assert(q.len() == t.len() + 2);
    let pi = p as int;
    assert(has_at(cs, pi + 1, t)) by {
        assert(cs.subrange(pi + 1, pi + 1 + t.len()) =~= cs.subrange(pi, pi + q.len()).subrange(1, 1 + t.len() as int));
        assert(q.subrange(1, 1 + t.len() as int) =~= t);
    }
    lemma_decode_prefix(cs, p + 1, args, seq![], a, a.len());
    assert(a.take(a.len() as int) =~= a);
    assert(Seq::<char>::empty() + a =~= a);
    assert(cs[pi + 1 + t.len()] == q[(t.len() + 1) as int]);
}

/// The first `m` arguments of an encoded command are read.
proof fn lemma_decode_args(cs: Seq<char>, cmd: Seq<Seq<char>>, m: nat)
    requires
        1 <= m <= cmd.len(),
        has_at(cs, 0, join_with(cmd.map_values(|a: Seq<char>| quoted(a)).take(m as int), seq![','])),
    ensures
        decode_from(cs, 0, seq![], None) == decode_from(
            cs,
            join_with(cmd.map_values(|a: Seq<char>| quoted(a)).take(m as int), seq![',']).len(),
            cmd.take(m as int),
            None,
        ),
    decreases m,
{
    let qs = cmd.map_values(|a: Seq<char>| quoted(a));
    let j = join_with(qs.take(m as int), seq![',']);
    if m == 1 {
        assert(qs.take(1) =~= seq![quoted(cmd[0])]);
        assert(j == quoted(cmd[0]));
        assert(cs[0] == j[0]);
        lemma_decode_quoted(cs, 0, seq![], cmd[0]);
        assert(seq![].push(cmd[0]) =~= cmd.take(1));
    } else {
        let t = qs.take(m as int);
        assert(t.drop_last() =~= qs.take(m - 1));
        let j0 = join_with(qs.take(m - 1), seq![',']);
        let q = quoted(cmd[m - 1]);
        assert(j == j0 + seq![','] + q);
        assert(has_at(cs, 0, j0)) by {
            assert(cs.subrange(0, j0.len() as int) =~= cs.subrange(0, j.len() as int).subrange(0, j0.len() as int));
            assert(j.subrange(0, j0.len() as int) =~= j0);
        }
        lemma_decode_args(cs, cmd, (m - 1) as nat);
        let p = j0.len();
        let pi = p as int;
        assert(cs[pi] == j[pi]);
        assert(has_at(cs, pi + 1, q)) by {
            assert(cs.subrange(pi + 1, pi + 1 + q.len()) =~= cs.subrange(0, j.len() as int).subrange(pi + 1, pi + 1 + q.len()));
            assert(j.subrange(pi + 1, pi + 1 + q.len()) =~= q);
        }
        assert(cs[pi + 1] == q[0]);
        assert(cmd.take(m - 1).len() > 0);
        lemma_decode_quoted(cs, p + 1, cmd.take(m - 1), cmd[m - 1]);
        assert(cmd.take(m - 1).push(cmd[m - 1]) =~= cmd.take(m as int));
    }
}

/// Decoding an encoded command gives the command back, for every command
/// with at least one argument (an empty array is refused).
pub proof fn lemma_cmd_roundtrip(cmd: Seq<Seq<char>>)
    requires
        cmd.len() > 0,
    ensures
        decode_cmd_spec(encode_cmd_spec(cmd)) == Ok::<Seq<Seq<char>>, Seq<char>>(cmd),
{
    let qs = cmd.map_values(|a: Seq<char>| quoted(a));
    let j = join_with(qs, seq![',']);
    let s = encode_cmd_spec(cmd);
    assert(s.take(1) =~= seq!['[']);
    assert(s.skip(1) =~= j + seq![']']);
    let t = s.skip(1);
    assert(t.skip(t.len() - 1) =~= seq![']']);
    assert(t.take(t.len() - 1) =~= j);
    assert(strip_prefix(s, seq!['[']) == Some(t));
    assert(strip_suffix(t, seq![']']) == Some(j));
    assert(qs.take(cmd.len() as int) =~= qs);
    assert(j.subrange(0, j.len() as int) =~= j);
    lemma_decode_args(j, cmd, cmd.len());
    assert(cmd.take(cmd.len() as int) =~= cmd);
}

// ---------------------------------------------------------------------------
// Small facts about the text helpers.
// ---------------------------------------------------------------------------

proof fn lemma_strip_prefix_cat(p: Seq<char>, x: Seq<char>)
    ensures
        strip_prefix(p + x, p) == Some(x),
{
    assert((p + x).take(p.len() as int) =~= p);
    assert((p + x).skip(p.len() as int) =~= x);
}

proof fn lemma_strip_suffix_cat(x: Seq<char>, p: Seq<char>)
    ensures
        strip_suffix(x + p, p) == Some(x),
{
    assert((x + p).skip(x.len() as int) =~= p);
    assert((x + p).take(x.len() as int) =~= x);
}

proof fn lemma_find_first(s: Seq<char>, p: Seq<char>, k: nat, n: nat)
    requires
        k <= n,
        occurs_at(s, p, n as int),
        forall|j: int| k <= j < n ==> !occurs_at(s, p, j),
    ensures
        find_from(s, p, k) == Some(n),
    decreases n - k,
{
    if k < n {
        lemma_find_first(s, p, k + 1, n);
    }
}

/// Splitting at a pattern whose first character `a` does not hold.
proof fn lemma_split_once_cat(a: Seq<char>, p: Seq<char>, b: Seq<char>)
    requires
        p.len() > 0,
        forall|k: int| 0 <= k < a.len() ==> a[k] != p[0],
    ensures
        split_once(a + p + b, p) == Some((a, b)),
{
    let s = a + p + b;
    assert(s.subrange(a.len() as int, (a.len() + p.len()) as int) =~= p);
    assert forall|j: int| 0 <= j < a.len() implies !occurs_at(s, p, j) by {
        if occurs_at(s, p, j) {
            assert(s.subrange(j, j + p.len())[0] == s[j]);
        }
    }
    lemma_find_first(s, p, 0, a.len());
    assert(s.take(a.len() as int) =~= a);
    assert(s.skip((a.len() + p.len()) as int) =~= b);
}

proof fn lemma_usize_dec(n: usize)
    ensures
        usize_value(dec_text(n as nat)) == Some(n),
{
    lemma_dec_text_unsigned(n as nat);
}

/// A line that reads back as itself: no `\n` in it, no `\r` at its end.
pub open spec fn line_ok(l: Seq<char>) -> bool {
    &&& forall|i: int| 0 <= i < l.len() ==> l[i] != '\n'
    &&& (l.len() == 0 || l.last() != '\r')
}

proof fn lemma_split_unlines(ls: Seq<Seq<char>>)
    requires
        forall|k: int| 0 <= k < ls.len() ==> line_ok(#[trigger] ls[k]),
    ensures
        split_on(unlines(ls), '\n') == ls.push(seq![]),
    decreases ls.len(),
{
    if ls.len() == 0 {
        assert(split_on(unlines(ls), '\n') =~= seq![seq![]]);
        assert(ls.push(seq![]) =~= seq![seq![]]);
    } else {
        let d = ls.drop_last();
        let last = ls.last();
        assert(line_ok(ls[ls.len() - 1]));
        lemma_split_unlines(d);
        let u = unlines(d);
        assert(unlines(ls) == u + last + seq!['\n']);
        assert((u + last + seq!['\n']).drop_last() =~= u + last);
        assert((u + last + seq!['\n']).last() == '\n');
        lemma_split_extend(u, last, '\n');
        let r = split_on(u, '\n');
        assert(r.update(r.len() - 1, r.last() + last) =~= ls) by {
            assert(Seq::<char>::empty() + last =~= last);
        }
    }
}

proof fn lemma_text_lines_unlines(ls: Seq<Seq<char>>)
    requires
        forall|k: int| 0 <= k < ls.len() ==> line_ok(#[trigger] ls[k]),
    ensures
        text_lines(unlines(ls)) == ls,
{
    lemma_split_unlines(ls);
    let p = ls.push(seq![]);
    assert(p.drop_last() =~= ls);
    assert(ls.map_values(|l: Seq<char>| strip_cr(l)) =~= ls) by {
        assert forall|k: int| 0 <= k < ls.len() implies strip_cr(ls[k]) == ls[k] by {
            assert(line_ok(ls[k]));
        }
    }
}

// ---------------------------------------------------------------------------
// The snapshot text, line by line.
// ---------------------------------------------------------------------------

/// A span as the emulator produces it, inside a `rows` x `cols` screen.
pub open spec fn span_ok(sp: Span, rows: usize, cols: usize) -> bool {
    &&& sp.row < rows
    &&& sp.start <= sp.end < cols
    &&& style_ok(sp.style)
}

/// A snapshot that its text form describes exactly: a command, a size of
/// 1–1000 each way, one line per row that fits the width, spans inside the
/// screen, and rows and stderr lines that are single lines (no `\n`, no
/// `\r` at the end).
pub open spec fn snapshot_ok(s: SnapshotView) -> bool {
    &&& s.cmd.len() > 0
    &&& 1 <= s.frame.cols <= 1000
    &&& 1 <= s.frame.rows <= 1000
    &&& s.frame.lines.len() == s.frame.rows
    &&& forall|i: int|
        0 <= i < s.frame.lines.len() ==> line_ok(#[trigger] s.frame.lines[i]) && visible_width(
            s.frame.lines[i],
        ) <= s.frame.cols
    &&& forall|j: int| 0 <= j < s.frame.spans.len() ==> span_ok(#[trigger] s.frame.spans[j], s.frame.rows, s.frame.cols)
    &&& forall|i: int| 0 <= i < s.stderr.len() ==> line_ok(#[trigger] s.stderr[i])
    &&& s.frame.spans.len() <= usize::MAX
    &&& s.stderr.len() <= usize::MAX
}

proof fn lemma_bar_ok(l: Seq<char>)
    requires
        line_ok(l),
    ensures
        line_ok(bar_line(l)),
        bar_line(l).len() > 0 && bar_line(l)[0] == '|',
        bar_line(l).skip(1) == l,
{
    let b = bar_line(l);
    assert(b.skip(1) =~= l);
    assert forall|i: int| 0 <= i < b.len() implies b[i] != '\n' by {
        if i > 0 {
            assert(b[i] == l[i - 1]);
        }
    }
    if l.len() > 0 {
        assert(b.last() == l.last());
    }
}

proof fn lemma_escape_plain(a: Seq<char>)
    ensures
        no_breaks(escape_text(a)),
    decreases a.len(),
{
    if a.len() > 0 {
        lemma_escape_plain(a.drop_last());
        let c = a.last();
        let e = escape_char(c);
        if c != '\\' && c != '"' && c != '\n' && c != '\t' && (c as u32) < 0x20 {
            let b = c as u8;
            lemma_hex_digit((b / 16) as nat);
            lemma_hex_digit((b % 16) as nat);
            assert(e =~= seq!['\\', 'u', '0', '0', hex_char((b / 16) as nat), hex_char((b % 16) as nat)]);
        }
        assert(no_breaks(e));
        lemma_no_breaks_cat(escape_text(a.drop_last()), e);
    }
}

proof fn lemma_encode_plain(cmd: Seq<Seq<char>>)
    ensures
        no_breaks(encode_cmd_spec(cmd)),
{
    let qs = cmd.map_values(|a: Seq<char>| quoted(a));
    assert forall|k: int| 0 <= k < qs.len() implies no_breaks(#[trigger] qs[k]) by {
        lemma_escape_plain(cmd[k]);
        lemma_no_breaks_cat(seq!['"'], escape_text(cmd[k]));
        lemma_no_breaks_cat(seq!['"'] + escape_text(cmd[k]), seq!['"']);
    }
    lemma_no_breaks_join(qs, seq![',']);
    lemma_no_breaks_cat(seq!['['], join_with(qs, seq![',']));
    lemma_no_breaks_cat(seq!['['] + join_with(qs, seq![',']), seq![']']);
}

proof fn lemma_plain_ok(l: Seq<char>)
    requires
        no_breaks(l),
    ensures
        line_ok(l),
{
    if l.len() > 0 {
        assert(l.last() == l[l.len() - 1]);
    }
}

proof fn lemma_int_plain(n: int)
    ensures
        no_breaks(int_text(n)),
{
    if n < 0 {
        lemma_dec_text_plain((-n) as nat);
        lemma_no_breaks_cat(seq!['-'], dec_text((-n) as nat));
    } else {
        lemma_dec_text_plain(n as nat);
    }
}

proof fn lemma_count_plain(prefix: Seq<char>, n: nat, one: Seq<char>, many: Seq<char>)
    requires
        no_breaks(prefix),
        no_breaks(one),
        no_breaks(many),
    ensures
        no_breaks(count_line(prefix, n, one, many)),
{
    reveal_strlit(" ");
    reveal_strlit(" ---");
    lemma_dec_text_plain(n);
    lemma_no_breaks_cat(prefix, dec_text(n));
    lemma_no_breaks_cat(prefix + dec_text(n), " "@);
    lemma_no_breaks_cat(prefix + dec_text(n) + " "@, plural_spec(n, one, many));
    lemma_no_breaks_cat(prefix + dec_text(n) + " "@ + plural_spec(n, one, many), " ---"@);
}

proof fn lemma_span_plain(sp: Span)
    ensures
        no_breaks(span_line(sp)),
{
    reveal_strlit("r");
    reveal_strlit(" c");
    reveal_strlit("-c");
    reveal_strlit(" ");
    lemma_dec_text_plain(sp.row as nat);
    lemma_dec_text_plain(sp.start as nat);
    lemma_dec_text_plain(sp.end as nat);
    lemma_style_text_plain(sp.style);
    let a = "r"@ + dec_text(sp.row as nat);
    lemma_no_breaks_cat("r"@, dec_text(sp.row as nat));
    lemma_no_breaks_cat(a, " c"@);
    lemma_no_breaks_cat(a + " c"@, dec_text(sp.start as nat));
    let b = a + " c"@ + dec_text(sp.start as nat);
    lemma_no_breaks_cat(b, "-c"@);
    lemma_no_breaks_cat(b + "-c"@, dec_text(sp.end as nat));
    let c = b + "-c"@ + dec_text(sp.end as nat);
    lemma_no_breaks_cat(c, " "@);
    lemma_no_breaks_cat(c + " "@, style_text(sp.style));
}

/// Every line of the text form of a well-formed snapshot is one line.
proof fn lemma_lines_ok(s: SnapshotView)
    requires
        snapshot_ok(s),
    ensures
        forall|k: int| 0 <= k < snapshot_lines(s).len() ==> line_ok(#[trigger] snapshot_lines(s)[k]),
{
    reveal_strlit("ansisnap snapshot v1");
    reveal_strlit("cmd: ");
    reveal_strlit("term: ");
    reveal_strlit("x");
    reveal_strlit("exit: ");
    reveal_strlit("--- screen: ");
    reveal_strlit(" rows x ");
    reveal_strlit(" cols ---");
    reveal_strlit("--- styles: ");
    reveal_strlit("span");
    reveal_strlit("spans");
    reveal_strlit("--- stderr: ");
    reveal_strlit("line");
    reveal_strlit("lines");
    let f = s.frame;
    let h = header_lines(s);
    lemma_encode_plain(s.cmd);
    lemma_no_breaks_cat("cmd: "@, encode_cmd_spec(s.cmd));
    lemma_dec_text_plain(f.cols as nat);
    lemma_dec_text_plain(f.rows as nat);
    lemma_no_breaks_cat("term: "@, dec_text(f.cols as nat));
    lemma_no_breaks_cat("term: "@ + dec_text(f.cols as nat), "x"@);
    lemma_no_breaks_cat("term: "@ + dec_text(f.cols as nat) + "x"@, dec_text(f.rows as nat));
    lemma_int_plain(s.exit as int);
    lemma_no_breaks_cat("exit: "@, int_text(s.exit as int));
    let g = "--- screen: "@ + dec_text(f.rows as nat);
    lemma_no_breaks_cat("--- screen: "@, dec_text(f.rows as nat));
    lemma_no_breaks_cat(g, " rows x "@);
    lemma_no_breaks_cat(g + " rows x "@, dec_text(f.cols as nat));
    lemma_no_breaks_cat(g + " rows x "@ + dec_text(f.cols as nat), " cols ---"@);
    assert forall|k: int| 0 <= k < h.len() implies line_ok(#[trigger] h[k]) by {
        lemma_plain_ok(h[k]);
    }
    let r = f.lines.map_values(|l: Seq<char>| bar_line(l));
    assert forall|k: int| 0 <= k < r.len() implies line_ok(#[trigger] r[k]) by {
        assert(line_ok(f.lines[k]));
        lemma_bar_ok(f.lines[k]);
    }
    let sh = count_line("--- styles: "@, f.spans.len(), "span"@, "spans"@);
    lemma_count_plain("--- styles: "@, f.spans.len(), "span"@, "spans"@);
    lemma_plain_ok(sh);
    let sl = f.spans.map_values(|sp: Span| span_line(sp));
    assert forall|k: int| 0 <= k < sl.len() implies line_ok(#[trigger] sl[k]) by {
        lemma_span_plain(f.spans[k]);
        lemma_plain_ok(sl[k]);
    }
    let eh = count_line("--- stderr: "@, s.stderr.len(), "line"@, "lines"@);
    lemma_count_plain("--- stderr: "@, s.stderr.len(), "line"@, "lines"@);
    lemma_plain_ok(eh);
    let e = s.stderr.map_values(|l: Seq<char>| bar_line(l));
    assert forall|k: int| 0 <= k < e.len() implies line_ok(#[trigger] e[k]) by {
        assert(line_ok(s.stderr[k]));
        lemma_bar_ok(s.stderr[k]);
    }
    let ls = snapshot_lines(s);
    assert(ls == h + r + seq![sh] + sl + seq![eh] + e);
    assert forall|k: int| 0 <= k < ls.len() implies line_ok(#[trigger] ls[k]) by {
        let n1 = h.len() as int;
        let n2 = n1 + r.len();
        let n3 = n2 + 1;
        let n4 = n3 + sl.len();
        let n5 = n4 + 1;
        if k < n1 {
            assert(ls[k] == h[k]);
        } else if k < n2 {
            assert(ls[k] == r[k - n1]);
        } else if k < n3 {
            assert(ls[k] == sh);
        } else if k < n4 {
            assert(ls[k] == sl[k - n3]);
        } else if k < n5 {
            assert(ls[k] == eh);
        } else {
            assert(ls[k] == e[k - n5]);
        }
    }
}

// ---------------------------------------------------------------------------
// Reading the lines back.
// ---------------------------------------------------------------------------

proof fn lemma_digits_not(n: nat, c: char)
    requires
        !('0' <= c <= '9'),
    ensures
        forall|k: int| 0 <= k < dec_text(n).len() ==> dec_text(n)[k] != c,
{
    lemma_dec_text_plain(n);
}

proof fn lemma_head(s: SnapshotView)
    requires
        snapshot_ok(s),
    ensures
        parse_head(snapshot_lines(s)) == Ok::<(Seq<Seq<char>>, usize, usize, i32), (nat, Seq<char>)>(
            (s.cmd, s.frame.cols, s.frame.rows, s.exit),
        ),
{
    reveal_strlit("x");
    reveal_strlit("--- screen: ");
    reveal_strlit("--- screen:");
    let f = s.frame;
    let ls = snapshot_lines(s);
    let h = header_lines(s);
    assert(ls.len() >= 5);
    assert(forall|k: int| 0 <= k < 5 ==> ls[k] == h[k]);
    // The command.
    lemma_strip_prefix_cat("cmd: "@, encode_cmd_spec(s.cmd));
    crate::snapshot::roundtrip::lemma_cmd_roundtrip(s.cmd);
    // The size.
    let dims = dec_text(f.cols as nat) + "x"@ + dec_text(f.rows as nat);
    assert(ls[2] =~= "term: "@ + dims);
    lemma_strip_prefix_cat("term: "@, dims);
    lemma_digits_not(f.cols as nat, 'x');
    lemma_split_once_cat(dec_text(f.cols as nat), "x"@, dec_text(f.rows as nat));
    lemma_usize_dec(f.cols);
    lemma_usize_dec(f.rows);
    assert(parse_dims_spec(dims) == Some((f.cols, f.rows)));
    // The exit code.
    lemma_strip_prefix_cat("exit: "@, int_text(s.exit as int));
    lemma_int_text_signed(s.exit as int);
    assert(i32_value(int_text(s.exit as int)) == Some(s.exit));
    // The screen marker.
    assert(ls[4].take(11) =~= "--- screen:"@);
}

proof fn lemma_rows_back(ls: Seq<Seq<char>>, lines: Seq<Seq<char>>, cols: usize, i: nat)
    requires
        i <= lines.len(),
        5 + lines.len() <= ls.len(),
        forall|j: int| 0 <= j < lines.len() ==> ls[5 + j] == bar_line(#[trigger] lines[j]),
        forall|j: int| 0 <= j < lines.len() ==> line_ok(#[trigger] lines[j]) && visible_width(lines[j]) <= cols,
    ensures
        screen_rows_spec(ls, 5, i, cols) == Ok::<Seq<Seq<char>>, (nat, Seq<char>)>(lines.take(i as int)),
    decreases i,
{
    if i == 0 {
        assert(lines.take(0) =~= Seq::<Seq<char>>::empty());
    } else {
        lemma_rows_back(ls, lines, cols, (i - 1) as nat);
        let l = lines[i - 1];
        assert(line_ok(l) && visible_width(l) <= cols);
        assert(ls[5 + (i - 1)] == bar_line(l));
        lemma_bar_ok(l);
        assert(lines.take(i - 1).push(l) =~= lines.take(i as int));
    }
}

proof fn lemma_stderr_back(ls: Seq<Seq<char>>, start: nat, lines: Seq<Seq<char>>, hdr: nat, i: nat)
    requires
        i <= lines.len(),
        start + lines.len() <= ls.len(),
        forall|j: int| 0 <= j < lines.len() ==> ls[start + j] == bar_line(#[trigger] lines[j]),
        forall|j: int| 0 <= j < lines.len() ==> line_ok(#[trigger] lines[j]),
    ensures
        stderr_spec(ls, start, i, hdr) == Ok::<Seq<Seq<char>>, (nat, Seq<char>)>(lines.take(i as int)),
    decreases i,
{
    if i == 0 {
        assert(lines.take(0) =~= Seq::<Seq<char>>::empty());
    } else {
        lemma_stderr_back(ls, start, lines, hdr, (i - 1) as nat);
        let l = lines[i - 1];
        assert(line_ok(l));
        assert(ls[start + (i - 1)] == bar_line(l));
        lemma_bar_ok(l);
        assert(lines.take(i - 1).push(l) =~= lines.take(i as int));
    }
}

/// A span line reads back as its span.
proof fn lemma_span_back(sp: Span, rows: usize, cols: usize)
    requires
        span_ok(sp, rows, cols),
    ensures
        parse_span_spec(span_line(sp), rows, cols) == Ok::<Span, Seq<char>>(sp),
{
    reveal_strlit("r");
    reveal_strlit(" c");
    reveal_strlit("-c");
    reveal_strlit(" ");
    let dr = dec_text(sp.row as nat);
    let ds = dec_text(sp.start as nat);
    let de = dec_text(sp.end as nat);
    let st = style_text(sp.style);
    let line = span_line(sp);
    let r2 = de + " "@ + st;
    let r1 = ds + "-c"@ + r2;
    assert(line.skip(1) =~= dr + " c"@ + r1);
    assert(line[0] == 'r');
    lemma_digits_not(sp.row as nat, ' ');
    lemma_digits_not(sp.start as nat, '-');
    lemma_digits_not(sp.end as nat, ' ');
    lemma_split_once_cat(dr, " c"@, r1);
    lemma_split_once_cat(ds, "-c"@, r2);
    lemma_split_once_cat(de, " "@, st);
    lemma_usize_dec(sp.row);
    lemma_usize_dec(sp.start);
    lemma_usize_dec(sp.end);
    lemma_style_roundtrip(sp.style);
}

proof fn lemma_spans_back(
    ls: Seq<Seq<char>>,
    start: nat,
    spans: Seq<Span>,
    rows: usize,
    cols: usize,
    hdr: nat,
    i: nat,
)
    requires
        i <= spans.len(),
        start + spans.len() <= ls.len(),
        forall|j: int| 0 <= j < spans.len() ==> ls[start + j] == span_line(#[trigger] spans[j]),
        forall|j: int| 0 <= j < spans.len() ==> span_ok(#[trigger] spans[j], rows, cols),
    ensures
        spans_spec(ls, start, i, rows, cols, hdr) == Ok::<Seq<Span>, (nat, Seq<char>)>(spans.take(i as int)),
    decreases i,
{
    if i == 0 {
        assert(spans.take(0) =~= Seq::<Span>::empty());
    } else {
        lemma_spans_back(ls, start, spans, rows, cols, hdr, (i - 1) as nat);
        let sp = spans[i - 1];
        assert(span_ok(sp, rows, cols));
        assert(ls[start + (i - 1)] == span_line(sp));
        lemma_span_back(sp, rows, cols);
        assert(spans.take(i - 1).push(sp) =~= spans.take(i as int));
    }
}

/// A section header reads back as its count.
proof fn lemma_count_back(prefix: Seq<char>, n: usize, noun: Seq<char>, many: Seq<char>)
    requires
        many == noun + seq!['s'],
    ensures
        section_count_spec(count_line(prefix, n as nat, noun, many), prefix, noun) == Some(n),
{
    reveal_strlit(" ");
    reveal_strlit(" ---");
    let d = dec_text(n as nat);
    let w = plural_spec(n as nat, noun, many);
    let l = count_line(prefix, n as nat, noun, many);
    assert(l =~= prefix + (d + " "@ + w + " ---"@));
    lemma_strip_prefix_cat(prefix, d + " "@ + w + " ---"@);
    lemma_strip_suffix_cat(d + " "@ + w, " ---"@);
    lemma_digits_not(n as nat, ' ');
    lemma_split_once_cat(d, " "@, w);
    lemma_usize_dec(n);
}

/// Where each part of the text form stands among its lines.
proof fn lemma_line_index(s: SnapshotView)
    ensures
        ({
            let ls = snapshot_lines(s);
            let rows = s.frame.lines.len() as int;
            let ns = s.frame.spans.len() as int;
            let ne = s.stderr.len() as int;
            &&& ls.len() == 7 + rows + ns + ne
            &&& forall|j: int| 0 <= j < rows ==> ls[5 + j] == bar_line(#[trigger] s.frame.lines[j])
            &&& ls[5 + rows] == count_line("--- styles: "@, s.frame.spans.len(), "span"@, "spans"@)
            &&& forall|j: int| 0 <= j < ns ==> ls[6 + rows + j] == span_line(#[trigger] s.frame.spans[j])
            &&& ls[6 + rows + ns] == count_line("--- stderr: "@, s.stderr.len(), "line"@, "lines"@)
            &&& forall|j: int| 0 <= j < ne ==> ls[7 + rows + ns + j] == bar_line(#[trigger] s.stderr[j])
        }),
{
    let f = s.frame;
    let ls = snapshot_lines(s);
    let h = header_lines(s);
    let r = f.lines.map_values(|l: Seq<char>| bar_line(l));
    let sh = count_line("--- styles: "@, f.spans.len(), "span"@, "spans"@);
    let sl = f.spans.map_values(|sp: Span| span_line(sp));
    let eh = count_line("--- stderr: "@, s.stderr.len(), "line"@, "lines"@);
    let e = s.stderr.map_values(|l: Seq<char>| bar_line(l));
    assert(ls == h + r + seq![sh] + sl + seq![eh] + e);
    let rows = f.lines.len() as int;
    let ns = f.spans.len() as int;
    assert forall|j: int| 0 <= j < rows implies ls[5 + j] == bar_line(#[trigger] f.lines[j]) by {
        assert(ls[5 + j] == r[j]);
    }
    assert forall|j: int| 0 <= j < ns implies ls[6 + rows + j] == span_line(#[trigger] f.spans[j]) by {
        assert(ls[6 + rows + j] == sl[j]);
    }
    assert forall|j: int| 0 <= j < s.stderr.len() implies ls[7 + rows + ns + j] == bar_line(#[trigger] s.stderr[j]) by {
        assert(ls[7 + rows + ns + j] == e[j]);
    }
}

proof fn lemma_body_from(
    ls: Seq<Seq<char>>,
    cmd: Seq<Seq<char>>,
    cols: usize,
    rows: usize,
    exit: i32,
    lines: Seq<Seq<char>>,
    spans: Seq<Span>,
    stderr: Seq<Seq<char>>,
)
    requires
        spans.len() <= usize::MAX,
        stderr.len() <= usize::MAX,
        ls.len() == 7 + rows + spans.len() + stderr.len(),
        screen_rows_spec(ls, 5, rows as nat, cols) == Ok::<Seq<Seq<char>>, (nat, Seq<char>)>(lines),
        section_count_spec(ls[5 + rows], "--- styles: "@, "span"@) == Some(spans.len() as usize),
        spans_spec(ls, (6 + rows) as nat, spans.len(), rows, cols, (6 + rows) as nat) == Ok::<
            Seq<Span>,
            (nat, Seq<char>),
        >(spans),
        section_count_spec(ls[6 + rows + spans.len()], "--- stderr: "@, "line"@) == Some(
            stderr.len() as usize,
        ),
        stderr_spec(ls, (7 + rows + spans.len()) as nat, stderr.len(), (7 + rows + spans.len()) as nat)
            == Ok::<Seq<Seq<char>>, (nat, Seq<char>)>(stderr),
    ensures
        parse_body(ls, cmd, cols, rows, exit) == Ok::<SnapshotView, (nat, Seq<char>)>(
            SnapshotView { cmd, exit, frame: FrameView { cols, rows, lines, spans }, stderr },
        ),
{
}

proof fn lemma_body(s: SnapshotView)
    requires
        snapshot_ok(s),
    ensures
        parse_body(snapshot_lines(s), s.cmd, s.frame.cols, s.frame.rows, s.exit) == Ok::<
            SnapshotView,
            (nat, Seq<char>),
        >(s),
{
    let f = s.frame;
    let ls = snapshot_lines(s);
    lemma_line_index(s);
    let rows = f.rows as int;
    let ns = f.spans.len() as int;
    let ne = s.stderr.len() as int;
    let k = 5 + rows;
    let k2 = k + 1 + ns;
    lemma_rows_back(ls, f.lines, f.cols, f.rows as nat);
    assert(f.lines.take(rows) =~= f.lines);
    reveal_strlit("span");
    reveal_strlit("spans");
    assert("spans"@ =~= "span"@ + seq!['s']);
    lemma_count_back("--- styles: "@, f.spans.len() as usize, "span"@, "spans"@);
    lemma_spans_back(ls, (k + 1) as nat, f.spans, f.rows, f.cols, (k + 1) as nat, ns as nat);
    assert(f.spans.take(ns) =~= f.spans);
    reveal_strlit("line");
    reveal_strlit("lines");
    assert("lines"@ =~= "line"@ + seq!['s']);
    lemma_count_back("--- stderr: "@, s.stderr.len() as usize, "line"@, "lines"@);
    lemma_stderr_back(ls, (k2 + 1) as nat, s.stderr, (k2 + 1) as nat, ne as nat);
    assert(s.stderr.take(ne) =~= s.stderr);
    lemma_body_from(ls, s.cmd, f.cols, f.rows, s.exit, f.lines, f.spans, s.stderr);
}

/// A snapshot's text form reads back as the snapshot, for every snapshot
/// that the text form describes exactly (see [`snapshot_ok`]).
pub proof fn lemma_snapshot_roundtrip(s: SnapshotView)
    requires
        snapshot_ok(s),
    ensures
        parse_spec(unlines(snapshot_lines(s))) == Ok::<SnapshotView, (nat, Seq<char>)>(s),
{
    let ls = snapshot_lines(s);
    lemma_lines_ok(s);
    lemma_text_lines_unlines(ls);
    lemma_head(s);
    lemma_body(s);
}

} // verus!
