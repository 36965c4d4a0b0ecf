//! Character-level text helpers shared by the serializer and the parsers:
//! conversions between `str`/`String` and character sequences, and the
//! contracts of the few std text functions the library relies on.

use vstd::prelude::*;

verus! {

/// `String::push` appends exactly one character.
pub assume_specification[ String::push ](s: &mut String, ch: char)
    ensures
        final(s)@ == old(s)@.push(ch),
;

/// `char::from_u32` accepts exactly the Unicode scalar values (at most
/// `0x10FFFF`, surrogates excluded) and returns the character with that code.
pub assume_specification[ char::from_u32 ](i: u32) -> (r: Option<char>)
    ensures
        r is Some <==> (i <= 0x10ffff && !(0xd800 <= i <= 0xdfff)),
        r matches Some(c) ==> c as u32 == i,
;

/// The characters of a string slice, in order.
pub fn chars_of(s: &str) -> (v: Vec<char>)
    ensures
        v@ == s@,
{
    let mut v: Vec<char> = Vec::new();
    for c in it: s.chars()
        invariant
            v@ == it.seq().take(it.index() as int),
    {
        v.push(c);
    }
    v
}

/// A `String` holding the given characters.
pub fn string_of(v: &[char]) -> (s: String)
    ensures
        s@ == v@,
{
    let mut s = String::new();
    let mut i: usize = 0;
    while i < v.len()
        invariant
            i <= v.len(),
            s@ == v@.take(i as int),
        decreases v.len() - i,
    {
        s.push(v[i]);
        i += 1;
    }
    s
}

/// Append every character of `t` to `s`.
pub fn push_str(s: &mut String, t: &str)
    ensures
        final(s)@ == old(s)@ + t@,
{
    let cs = chars_of(t);
    let mut i: usize = 0;
    while i < cs.len()
        invariant
            i <= cs.len(),
            cs@ == t@,
            s@ == old(s)@ + t@.take(i as int),
        decreases cs.len() - i,
    {
        s.push(cs[i]);
        i += 1;
        assert(t@.take(i as int) == t@.take(i - 1).push(cs@[i - 1]));
    }
    assert(t@.take(cs.len() as int) == t@);
}

} // verus!

verus! {

/// Bytes that a character takes in UTF-8.
pub open spec fn char_utf8_len(c: char) -> nat {
    if (c as u32) < 0x80 {
        1
    } else if (c as u32) < 0x800 {
        2
    } else if (c as u32) < 0x10000 {
        3
    } else {
        4
    }
}

/// Length in bytes of the UTF-8 encoding of a character sequence.
pub open spec fn utf8_len(s: Seq<char>) -> nat
    decreases s.len(),
{
    if s.len() == 0 {
        0
    } else {
        utf8_len(s.drop_last()) + char_utf8_len(s.last())
    }
}

/// Whether two character sequences are equal.
pub fn chars_eq(a: &[char], b: &[char]) -> (r: bool)
    ensures
        r == (a@ == b@),
{
    if a.len() != b.len() {
        return false;
    }
    let mut i: usize = 0;
    while i < a.len()
        invariant
            i <= a.len() == b.len(),
            a@.take(i as int) == b@.take(i as int),
        decreases a.len() - i,
    {
        if a[i] != b[i] {
            assert(a@[i as int] != b@[i as int]);
            return false;
        }
        i += 1;
        assert(a@.take(i as int) == a@.take(i - 1).push(a@[i - 1]));
        assert(b@.take(i as int) == b@.take(i - 1).push(b@[i - 1]));
    }
    assert(a@.take(a.len() as int) == a@);
    assert(b@.take(b.len() as int) == b@);
    true
}

/// Whether the characters equal a string slice.
pub fn eq_str(a: &[char], lit: &str) -> (r: bool)
    ensures
        r == (a@ == lit@),
{
    let b = chars_of(lit);
    chars_eq(a, b.as_slice())
}

/// Whether `a` begins with the characters of `lit`.
pub fn starts_with_str(a: &[char], lit: &str) -> (r: bool)
    ensures
        r == (lit@.len() <= a@.len() && a@.take(lit@.len() as int) == lit@),
{
    let b = chars_of(lit);
    if b.len() > a.len() {
        return false;
    }
    let mut i: usize = 0;
    while i < b.len()
        invariant
            i <= b.len() <= a.len(),
            b@ == lit@,
            a@.take(i as int) == b@.take(i as int),
        decreases b.len() - i,
    {
        if a[i] != b[i] {
            assert(a@.take(b.len() as int)[i as int] != b@[i as int]);
            return false;
        }
        i += 1;
        assert(a@.take(i as int) == a@.take(i - 1).push(a@[i - 1]));
        assert(b@.take(i as int) == b@.take(i - 1).push(b@[i - 1]));
    }
    assert(b@.take(b.len() as int) == b@);
    true
}

/// Whether `a` ends with the characters of `lit`.
pub fn ends_with_str(a: &[char], lit: &str) -> (r: bool)
    ensures
        r == (lit@.len() <= a@.len() && a@.skip(a@.len() - lit@.len()) == lit@),
{
    let b = chars_of(lit);
    if b.len() > a.len() {
        return false;
    }
    let off = a.len() - b.len();
    let mut i: usize = 0;
    while i < b.len()
        invariant
            i <= b.len() <= a.len(),
            off == a.len() - b.len(),
            b@ == lit@,
            forall|j: int| 0 <= j < i ==> a@[off + j] == b@[j],
        decreases b.len() - i,
    {
        if a[off + i] != b[i] {
            assert(a@.skip(off as int)[i as int] != b@[i as int]);
            return false;
        }
        i += 1;
    }
    assert(a@.skip(off as int) =~= b@);
    true
}

/// The characters from position `k` on.
pub fn skip_chars(a: &[char], k: usize) -> (v: Vec<char>)
    requires
        k <= a.len(),
    ensures
        v@ == a@.skip(k as int),
{
    let mut v: Vec<char> = Vec::new();
    let mut i: usize = k;
    while i < a.len()
        invariant
            k <= i <= a.len(),
            v@ == a@.subrange(k as int, i as int),
        decreases a.len() - i,
    {
        v.push(a[i]);
        i += 1;
        assert(v@ =~= a@.subrange(k as int, i as int));
    }
    v
}

/// The characters in positions `k .. j`.
pub fn sub_chars(a: &[char], k: usize, j: usize) -> (v: Vec<char>)
    requires
        k <= j <= a.len(),
    ensures
        v@ == a@.subrange(k as int, j as int),
{
    let mut v: Vec<char> = Vec::new();
    let mut i: usize = k;
    while i < j
        invariant
            k <= i <= j <= a.len(),
            v@ == a@.subrange(k as int, i as int),
        decreases j - i,
    {
        v.push(a[i]);
        i += 1;
        assert(v@ =~= a@.subrange(k as int, i as int));
    }
    v
}

/// The value of a digit in base 10 or 16 (either case).
pub open spec fn radix_digit(c: char, radix: nat) -> Option<nat> {
    if '0' <= c <= '9' {
        Some((c as u32 - '0' as u32) as nat)
    } else if radix == 16 && 'a' <= c <= 'f' {
        Some((c as u32 - 'a' as u32 + 10) as nat)
    } else if radix == 16 && 'A' <= c <= 'F' {
        Some((c as u32 - 'A' as u32 + 10) as nat)
    } else {
        None
    }
}

/// The value of a string of digits (the empty string is 0).
pub open spec fn digits_value(s: Seq<char>, radix: nat) -> Option<nat>
    decreases s.len(),
{
    if s.len() == 0 {
        Some(0)
    } else {
        match (digits_value(s.drop_last(), radix), radix_digit(s.last(), radix)) {
            (Some(v), Some(d)) => Some(v * radix + d),
            _ => None,
        }
    }
}

/// What `from_str_radix` reads for an unsigned type, before the range
/// check: an optional `+`, then one or more digits.
pub open spec fn unsigned_value(s: Seq<char>, radix: nat) -> Option<nat> {
    let body = if s.len() > 0 && s[0] == '+' {
        s.skip(1)
    } else {
        s
    };
    if body.len() == 0 {
        None
    } else {
        digits_value(body, radix)
    }
}

/// What `str::parse` reads for a signed type, before the range check: an
/// optional `+` or `-`, then one or more decimal digits.
pub open spec fn signed_value(s: Seq<char>) -> Option<int> {
    if s.len() > 0 && s[0] == '-' {
        let body = s.skip(1);
        if body.len() == 0 {
            None
        } else {
            match digits_value(body, 10) {
                Some(v) => Some(-v),
                None => None,
            }
        }
    } else {
        match unsigned_value(s, 10) {
            Some(v) => Some(v as int),
            None => None,
        }
    }
}

proof fn lemma_digits_prefix(s: Seq<char>, radix: nat, k: int)
    requires
        0 <= k <= s.len(),
        radix >= 1,
        digits_value(s, radix) is Some,
    ensures
        digits_value(s.take(k), radix) is Some,
        digits_value(s.take(k), radix).unwrap() <= digits_value(s, radix).unwrap(),
    decreases s.len(),
{
    if k < s.len() {
        lemma_digits_prefix(s.drop_last(), radix, k);
        assert(s.drop_last().take(k) == s.take(k));
        let v = digits_value(s.drop_last(), radix).unwrap();
        assert(v <= v * radix) by (nonlinear_arith)
            requires
                radix >= 1,
        ;
    } else {
        assert(s.take(k) == s);
    }
}

fn char_digit(c: char, radix: u32) -> (r: Option<u32>)
    requires
        radix == 10 || radix == 16,
    ensures
        r matches Some(d) ==> radix_digit(c, radix as nat) == Some(d as nat) && d < radix,
        r is None ==> radix_digit(c, radix as nat) is None,
{
    if '0' <= c && c <= '9' {
        Some(c as u32 - '0' as u32)
    } else if radix == 16 && 'a' <= c && c <= 'f' {
        Some(c as u32 - 'a' as u32 + 10)
    } else if radix == 16 && 'A' <= c && c <= 'F' {
        Some(c as u32 - 'A' as u32 + 10)
    } else {
        None
    }
}

/// The value of a digit string when it is at most `max`.
fn digits_at_most(s: &[char], radix: u32, max: u64) -> (r: Option<u64>)
    requires
        radix == 10 || radix == 16,
    ensures
        r matches Some(v) ==> digits_value(s@, radix as nat) == Some(v as nat) && v <= max,
        r is None ==> digits_value(s@, radix as nat) is None || digits_value(
            s@,
            radix as nat,
        ).unwrap() > max,
{
    let mut acc: u128 = 0;
    let mut i: usize = 0;
    while i < s.len()
        invariant
            radix == 10 || radix == 16,
            i <= s.len(),
            acc <= max,
            digits_value(s@.take(i as int), radix as nat) == Some(acc as nat),
        decreases s.len() - i,
    {
        assert(s@.take(i + 1).drop_last() == s@.take(i as int));
        assert(s@.take(i + 1).last() == s@[i as int]);
        match char_digit(s[i], radix) {
            None => {
                proof {
                    if digits_value(s@, radix as nat) is Some {
                        lemma_digits_prefix(s@, radix as nat, i + 1);
                    }
                }
                return None;
            },
            Some(d) => {
                assert(acc * radix <= 0xffff_ffff_ffff_ffff * 16) by (nonlinear_arith)
                    requires
                        acc <= 0xffff_ffff_ffff_ffff,
                        radix <= 16,
                ;
                acc = acc * (radix as u128) + (d as u128);
                if acc > max as u128 {
                    proof {
                        if digits_value(s@, radix as nat) is Some {
                            lemma_digits_prefix(s@, radix as nat, i + 1);
                        }
                    }
                    return None;
                }
            },
        }
        i += 1;
    }
    assert(s@.take(s.len() as int) == s@);
    Some(acc as u64)
}

/// `from_str_radix` for an unsigned type whose largest value is `max`.
pub fn parse_unsigned(s: &[char], radix: u32, max: u64) -> (r: Option<u64>)
    requires
        radix == 10 || radix == 16,
    ensures
        r matches Some(v) ==> unsigned_value(s@, radix as nat) == Some(v as nat) && v <= max,
        r is None ==> unsigned_value(s@, radix as nat) is None || unsigned_value(
            s@,
            radix as nat,
        ).unwrap() > max,
{
    let start: usize = if s.len() > 0 && s[0] == '+' {
        1
    } else {
        0
    };
    if start == s.len() {
        return None;
    }
    let body = skip_chars(s, start);
    assert(start == 0 ==> s@.skip(0) == s@);
    digits_at_most(body.as_slice(), radix, max)
}

/// `str::parse::<i32>`.
pub fn parse_i32(s: &[char]) -> (r: Option<i32>)
    ensures
        r matches Some(v) ==> signed_value(s@) == Some(v as int),
        r is None ==> signed_value(s@) is None || !(i32::MIN <= signed_value(s@).unwrap()
            <= i32::MAX),
{
    if s.len() > 0 && s[0] == '-' {
        if s.len() == 1 {
            return None;
        }
        let body = skip_chars(s, 1);
        match digits_at_most(body.as_slice(), 10, 0x8000_0000) {
            Some(v) => Some((0 - (v as i64)) as i32),
            None => None,
        }
    } else {
        match parse_unsigned(s, 10, 0x7fff_ffff) {
            Some(v) => Some(v as i32),
            None => None,
        }
    }
}

/// The decimal digit character for `d < 10`.
pub open spec fn digit_char(d: nat) -> char {
    ('0' as u32 + d) as char
}

/// Decimal representation of a natural number, without leading zeros.
pub open spec fn dec_text(n: nat) -> Seq<char>
    decreases n,
{
    if n < 10 {
        seq![digit_char(n)]
    } else {
        dec_text(n / 10).push(digit_char(n % 10))
    }
}

/// Decimal representation of an integer, with `-` for negatives.
pub open spec fn int_text(n: int) -> Seq<char> {
    if n < 0 {
        seq!['-'] + dec_text((-n) as nat)
    } else {
        dec_text(n as nat)
    }
}

/// Append the decimal form of `n`.
pub fn push_decimal(s: &mut String, n: u64)
    ensures
        final(s)@ == old(s)@ + dec_text(n as nat),
    decreases n,
{
    if n >= 10 {
        push_decimal(s, n / 10);
    }
    let d = (n % 10) as u32;
    let c = match char::from_u32('0' as u32 + d) {
        Some(c) => c,
        None => '0',
    };
    proof {
        vstd::utf8::char_u32_cast(c, ('0' as u32 + d) as u32);
    }
    s.push(c);
    proof {
        if n >= 10 {
            assert(old(s)@ + dec_text((n / 10) as nat) + seq![digit_char((n % 10) as nat)] == old(
                s,
            )@ + dec_text(n as nat));
        } else {
            assert(old(s)@.push(c) == old(s)@ + dec_text(n as nat));
        }
    }
}

/// Append the decimal form of `n`, with `-` when negative.
pub fn push_int(s: &mut String, n: i64)
    requires
        n > i64::MIN,
    ensures
        final(s)@ == old(s)@ + int_text(n as int),
{
    if n < 0 {
        s.push('-');
        push_decimal(s, (0 - n) as u64);
        assert(old(s)@.push('-') + dec_text((-n) as nat) == old(s)@ + (seq!['-'] + dec_text(
            (-n) as nat,
        )));
    } else {
        push_decimal(s, n as u64);
    }
}

/// Decimal digits read back give the number that was written.
pub proof fn lemma_dec_text_digits(n: nat)
    ensures
        digits_value(dec_text(n), 10) == Some(n),
        dec_text(n).len() >= 1,
        forall|i: int| 0 <= i < dec_text(n).len() ==> '0' <= #[trigger] dec_text(n)[i] <= '9',
    decreases n,
{
    assert forall|d: nat| d < 10 implies radix_digit(#[trigger] digit_char(d), 10) == Some(d) && '0'
        <= digit_char(d) <= '9' by {
        assert((('0' as u32 + d) as char) as u32 == '0' as u32 + d);
    }
    if n < 10 {
        let t = dec_text(n);
        assert(t.drop_last() =~= Seq::<char>::empty());
        assert(digits_value(t.drop_last(), 10) == Some(0nat));
    }
    if n >= 10 {
        lemma_dec_text_digits(n / 10);
        assert((n / 10) * 10 + n % 10 == n);
        let t = dec_text(n);
        assert(t.drop_last() == dec_text(n / 10));
        assert(forall|i: int| 0 <= i < t.len() - 1 ==> t[i] == dec_text(n / 10)[i]);
    }
}

/// The decimal form of `n` parses back to `n`.
pub proof fn lemma_dec_text_unsigned(n: nat)
    ensures
        unsigned_value(dec_text(n), 10) == Some(n),
{
    lemma_dec_text_digits(n);
    assert(dec_text(n)[0] != '+');
}

/// The signed decimal form of `n` parses back to `n`.
pub proof fn lemma_int_text_signed(n: int)
    ensures
        signed_value(int_text(n)) == Some(n),
{
    if n < 0 {
        lemma_dec_text_digits((-n) as nat);
        let t = int_text(n);
        assert(t.skip(1) == dec_text((-n) as nat));
    } else {
        lemma_dec_text_unsigned(n as nat);
        lemma_dec_text_digits(n as nat);
        assert(int_text(n)[0] != '-');
    }
}

} // verus!

verus! {

/// UTF-8 byte length of a character sequence, computed.
pub fn utf8_len_of(s: &[char]) -> (n: usize)
    requires
        s.len() <= 0x1000_0000,
    ensures
        n == utf8_len(s@),
{
    let mut n: usize = 0;
    let mut i: usize = 0;
    while i < s.len()
        invariant
            i <= s.len() <= 0x1000_0000,
            n == utf8_len(s@.take(i as int)),
            n <= 4 * i,
        decreases s.len() - i,
    {
        let c = s[i];
        let w: usize = if (c as u32) < 0x80 {
            1
        } else if (c as u32) < 0x800 {
            2
        } else if (c as u32) < 0x10000 {
            3
        } else {
            4
        };
        n = n + w;
        i += 1;
        assert(s@.take(i as int).drop_last() == s@.take(i - 1));
    }
    assert(s@.take(s.len() as int) == s@);
    n
}

/// `char::is_whitespace`: the characters with the Unicode `White_Space`
/// property.
pub open spec fn is_ws(c: char) -> bool {
    ||| '\u{9}' <= c <= '\u{d}'
    ||| c == ' '
    ||| c == '\u{85}'
    ||| c == '\u{a0}'
    ||| c == '\u{1680}'
    ||| '\u{2000}' <= c <= '\u{200a}'
    ||| c == '\u{2028}'
    ||| c == '\u{2029}'
    ||| c == '\u{202f}'
    ||| c == '\u{205f}'
    ||| c == '\u{3000}'
}

pub fn is_whitespace(c: char) -> (r: bool)
    ensures
        r == is_ws(c),
{
    ('\u{9}' <= c && c <= '\u{d}') || c == ' ' || c == '\u{85}' || c == '\u{a0}' || c == '\u{1680}'
        || ('\u{2000}' <= c && c <= '\u{200a}') || c == '\u{2028}' || c == '\u{2029}' || c
        == '\u{202f}' || c == '\u{205f}' || c == '\u{3000}'
}

/// `s` without trailing whitespace.
pub open spec fn trim_end_ws(s: Seq<char>) -> Seq<char>
    decreases s.len(),
{
    if s.len() > 0 && is_ws(s.last()) {
        trim_end_ws(s.drop_last())
    } else {
        s
    }
}

/// `s` without leading whitespace.
pub open spec fn trim_start_ws(s: Seq<char>) -> Seq<char>
    decreases s.len(),
{
    if s.len() > 0 && is_ws(s[0]) {
        trim_start_ws(s.skip(1))
    } else {
        s
    }
}

/// `str::trim`.
pub open spec fn trim_ws(s: Seq<char>) -> Seq<char> {
    trim_start_ws(trim_end_ws(s))
}

/// `s` without trailing spaces (`' '` only).
pub open spec fn trim_end_spaces(s: Seq<char>) -> Seq<char>
    decreases s.len(),
{
    if s.len() > 0 && s.last() == ' ' {
        trim_end_spaces(s.drop_last())
    } else {
        s
    }
}

pub fn trim_end_ws_chars(s: &[char]) -> (v: Vec<char>)
    ensures
        v@ == trim_end_ws(s@),
{
    let mut k: usize = s.len();
    assert(s@.take(s.len() as int) == s@);
    while k > 0 && is_whitespace(s[k - 1])
        invariant
            k <= s.len(),
            trim_end_ws(s@) == trim_end_ws(s@.take(k as int)),
        decreases k,
    {
        assert(s@.take(k as int).drop_last() == s@.take(k - 1));
        k -= 1;
    }
    assert(s@.take(s.len() as int) == s@);
    sub_chars(s, 0, k)
}

pub fn trim_end_space_chars(s: &[char]) -> (v: Vec<char>)
    ensures
        v@ == trim_end_spaces(s@),
{
    let mut k: usize = s.len();
    assert(s@.take(s.len() as int) == s@);
    while k > 0 && s[k - 1] == ' '
        invariant
            k <= s.len(),
            trim_end_spaces(s@) == trim_end_spaces(s@.take(k as int)),
        decreases k,
    {
        assert(s@.take(k as int).drop_last() == s@.take(k - 1));
        k -= 1;
    }
    assert(s@.take(s.len() as int) == s@);
    sub_chars(s, 0, k)
}

/// `str::trim`.
pub fn trim_chars(s: &[char]) -> (v: Vec<char>)
    ensures
        v@ == trim_ws(s@),
{
    let e = trim_end_ws_chars(s);
    let mut k: usize = 0;
    assert(e@.skip(0) == e@);
    while k < e.len() && is_whitespace(e[k])
        invariant
            k <= e.len(),
            trim_start_ws(e@) == trim_start_ws(e@.skip(k as int)),
        decreases e.len() - k,
    {
        assert(e@.skip(k as int).skip(1) == e@.skip(k + 1));
        k += 1;
    }
    assert(e@.skip(0) == e@);
    skip_chars(e.as_slice(), k)
}

/// `str::split` on one separator character: the pieces between
/// separators, empty ones included; always at least one piece.
pub open spec fn split_on(s: Seq<char>, sep: char) -> Seq<Seq<char>>
    decreases s.len(),
{
    if s.len() == 0 {
        seq![seq![]]
    } else {
        let r = split_on(s.drop_last(), sep);
        if s.last() == sep {
            r.push(seq![])
        } else {
            r.update(r.len() - 1, r.last().push(s.last()))
        }
    }
}

pub proof fn lemma_split_on_nonempty(s: Seq<char>, sep: char)
    ensures
        split_on(s, sep).len() >= 1,
    decreases s.len(),
{
    if s.len() > 0 {
        lemma_split_on_nonempty(s.drop_last(), sep);
    }
}

pub fn split_chars(s: &[char], sep: char) -> (parts: Vec<Vec<char>>)
    ensures
        parts@.map_values(|p: Vec<char>| p@) == split_on(s@, sep),
{
    let mut parts: Vec<Vec<char>> = Vec::new();
    let mut cur: Vec<char> = Vec::new();
    let mut i: usize = 0;
    while i < s.len()
        invariant
            i <= s.len(),
            parts@.map_values(|p: Vec<char>| p@).push(cur@) == split_on(s@.take(i as int), sep),
        decreases s.len() - i,
    {
        proof {
            lemma_split_on_nonempty(s@.take(i as int), sep);
        }
        let ghost before = parts@.map_values(|p: Vec<char>| p@);
        let ghost cur0 = cur@;
        if s[i] == sep {
            let mut done: Vec<char> = Vec::new();
            std::mem::swap(&mut done, &mut cur);
            parts.push(done);
            assert(parts@.map_values(|p: Vec<char>| p@) == before.push(cur0));
        } else {
            cur.push(s[i]);
        }
        i += 1;
        proof {
            let t = s@.take(i as int);
            assert(t.drop_last() == s@.take(i - 1));
            assert(t.last() == s@[i - 1]);
            let r = before.push(cur0);
            if s@[i - 1] == sep {
                assert(parts@.map_values(|p: Vec<char>| p@).push(cur@) == r.push(seq![]));
            } else {
                assert(parts@.map_values(|p: Vec<char>| p@).push(cur@) =~= r.update(
                    r.len() - 1,
                    r.last().push(s@[i - 1]),
                ));
            }
        }
    }
    let ghost before = parts@.map_values(|p: Vec<char>| p@);
    parts.push(cur);
    assert(parts@.map_values(|p: Vec<char>| p@) =~= before.push(parts@[parts@.len() - 1]@));
    assert(s@.take(s.len() as int) == s@);
    parts
}

/// Pieces joined with a separator between neighbours.
pub open spec fn join_with(parts: Seq<Seq<char>>, sep: Seq<char>) -> Seq<char>
    decreases parts.len(),
{
    if parts.len() == 0 {
        seq![]
    } else if parts.len() == 1 {
        parts[0]
    } else {
        join_with(parts.drop_last(), sep) + sep + parts.last()
    }
}

} // verus!

verus! {

pub proof fn lemma_utf8_len_ge(s: Seq<char>)
    ensures
        utf8_len(s) >= s.len(),
    decreases s.len(),
{
    if s.len() > 0 {
        lemma_utf8_len_ge(s.drop_last());
    }
}

/// `str::strip_prefix`.
pub open spec fn strip_prefix(s: Seq<char>, p: Seq<char>) -> Option<Seq<char>> {
    if p.len() <= s.len() && s.take(p.len() as int) == p {
        Some(s.skip(p.len() as int))
    } else {
        None
    }
}

/// `str::strip_suffix`.
pub open spec fn strip_suffix(s: Seq<char>, p: Seq<char>) -> Option<Seq<char>> {
    if p.len() <= s.len() && s.skip(s.len() - p.len()) == p {
        Some(s.take(s.len() - p.len()))
    } else {
        None
    }
}

pub fn strip_prefix_str(a: &[char], lit: &str) -> (r: Option<Vec<char>>)
    ensures
        r matches Some(v) ==> strip_prefix(a@, lit@) == Some(v@),
        r is None ==> strip_prefix(a@, lit@) is None,
{
    if starts_with_str(a, lit) {
        let n = chars_of(lit).len();
        Some(skip_chars(a, n))
    } else {
        None
    }
}

pub fn strip_suffix_str(a: &[char], lit: &str) -> (r: Option<Vec<char>>)
    ensures
        r matches Some(v) ==> strip_suffix(a@, lit@) == Some(v@),
        r is None ==> strip_suffix(a@, lit@) is None,
{
    if ends_with_str(a, lit) {
        let n = chars_of(lit).len();
        Some(sub_chars(a, 0, a.len() - n))
    } else {
        None
    }
}

/// A `String` holding the characters of a string slice.
pub fn string_from(lit: &str) -> (s: String)
    ensures
        s@ == lit@,
{
    let mut s = String::new();
    push_str(&mut s, lit);
    assert(Seq::<char>::empty() + lit@ == lit@);
    s
}

/// The views of a list of strings.
pub open spec fn strings_view(v: Seq<String>) -> Seq<Seq<char>> {
    v.map_values(|s: String| s@)
}

/// The strings joined with `sep` between neighbours.
pub fn join_strings(parts: &Vec<String>, sep: &str) -> (s: String)
    ensures
        s@ == join_with(strings_view(parts@), sep@),
{
    let mut s = String::new();
    let mut i: usize = 0;
    while i < parts.len()
        invariant
            i <= parts.len(),
            s@ == join_with(strings_view(parts@).take(i as int), sep@),
        decreases parts.len() - i,
    {
        let ghost t = strings_view(parts@).take(i + 1);
        assert(t.drop_last() == strings_view(parts@).take(i as int));
        if i > 0 {
            push_str(&mut s, sep);
        }
        push_str(&mut s, parts[i].as_str());
        proof {
            if i == 0 {
                assert(t =~= seq![parts@[0]@]);
                assert(Seq::<char>::empty() + parts@[0]@ == parts@[0]@);
            }
        }
        i += 1;
    }
    assert(strings_view(parts@).take(parts.len() as int) == strings_view(parts@));
    s
}

} // verus!

verus! {

/// Whether `p` occurs in `s` at position `k`.
pub open spec fn occurs_at(s: Seq<char>, p: Seq<char>, k: int) -> bool {
    0 <= k && k + p.len() <= s.len() && s.subrange(k, k + p.len()) == p
}

/// The first position at or after `k` where `p` occurs in `s`.
pub open spec fn find_from(s: Seq<char>, p: Seq<char>, k: nat) -> Option<nat>
    decreases s.len() + 1 - k,
{
    if k + p.len() > s.len() {
        None
    } else if occurs_at(s, p, k as int) {
        Some(k)
    } else {
        find_from(s, p, k + 1)
    }
}

/// `str::split_once`: the text before the first occurrence of `p` and the
/// text after it.
pub open spec fn split_once(s: Seq<char>, p: Seq<char>) -> Option<(Seq<char>, Seq<char>)> {
    match find_from(s, p, 0) {
        Some(k) => Some((s.take(k as int), s.skip((k + p.len()) as int))),
        None => None,
    }
}

proof fn lemma_find_from(s: Seq<char>, p: Seq<char>, k: nat)
    ensures
        find_from(s, p, k) matches Some(j) ==> occurs_at(s, p, j as int) && k <= j,
    decreases s.len() + 1 - k,
{
    if k + p.len() <= s.len() && !occurs_at(s, p, k as int) {
        lemma_find_from(s, p, k + 1);
    }
}

/// Position of the first occurrence of `lit` in `a`.
pub fn find_str(a: &[char], lit: &str) -> (r: Option<usize>)
    ensures
        r matches Some(k) ==> find_from(a@, lit@, 0) == Some(k as nat) && k + lit@.len() <= a@.len(),
        r is None ==> find_from(a@, lit@, 0) is None,
{
    proof {
        lemma_find_from(a@, lit@, 0);
    }
    let p = chars_of(lit);
    if p.len() > a.len() {
        return None;
    }
    let mut k: usize = 0;
    while k <= a.len() - p.len()
        invariant
            p@ == lit@,
            p.len() <= a.len(),
            k <= a.len() - p.len() + 1,
            find_from(a@, p@, 0) == find_from(a@, p@, k as nat),
        decreases a.len() - p.len() + 1 - k,
    {
        let mut j: usize = 0;
        while j < p.len() && a[k + j] == p[j]
            invariant
                p@ == lit@,
                k + p.len() <= a.len(),
                j <= p.len(),
                forall|t: int| 0 <= t < j ==> a@[k + t] == p@[t],
            decreases p.len() - j,
        {
            j += 1;
        }
        if j == p.len() {
            assert(a@.subrange(k as int, k + p.len()) =~= p@);
            return Some(k);
        }
        assert(a@.subrange(k as int, k + p.len())[j as int] != p@[j as int]);
        k += 1;
    }
    None
}

/// `str::split_once` on a character sequence.
pub fn split_once_str(a: &[char], lit: &str) -> (r: Option<(Vec<char>, Vec<char>)>)
    ensures
        r matches Some((x, y)) ==> split_once(a@, lit@) == Some((x@, y@)),
        r is None ==> split_once(a@, lit@) is None,
{
    match find_str(a, lit) {
        Some(k) => {
            let pc = chars_of(lit);
            let n = pc.len();
            assert(k + n <= a.len());
            let x = sub_chars(a, 0, k);
            let y = skip_chars(a, k + n);
            assert(x@ == a@.take(k as int));
            Some((x, y))
        },
        None => None,
    }
}

/// `str::parse::<usize>`.
pub open spec fn usize_value(s: Seq<char>) -> Option<usize> {
    match unsigned_value(s, 10) {
        Some(v) => if v <= usize::MAX {
            Some(v as usize)
        } else {
            None
        },
        None => None,
    }
}

pub fn parse_usize(s: &[char]) -> (r: Option<usize>)
    ensures
        r == usize_value(s@),
{
    match parse_unsigned(s, 10, usize::MAX as u64) {
        Some(v) => Some(v as usize),
        None => None,
    }
}

/// A line without one trailing carriage return.
pub open spec fn strip_cr(l: Seq<char>) -> Seq<char> {
    if l.len() > 0 && l.last() == '\r' {
        l.drop_last()
    } else {
        l
    }
}

/// `str::lines`: split at `\n`, a `\r` just before a `\n` dropped, no
/// final empty line after a closing `\n`.
pub open spec fn text_lines(s: Seq<char>) -> Seq<Seq<char>> {
    let p = split_on(s, '\n');
    let body = p.drop_last().map_values(|l: Seq<char>| strip_cr(l));
    if p.last().len() == 0 {
        body
    } else {
        body.push(p.last())
    }
}

/// Each line followed by `\n`.
pub open spec fn unlines(ls: Seq<Seq<char>>) -> Seq<char>
    decreases ls.len(),
{
    if ls.len() == 0 {
        seq![]
    } else {
        unlines(ls.drop_last()) + ls.last() + seq!['\n']
    }
}

/// [`text_lines`] computed.
pub fn lines_of(s: &[char]) -> (ls: Vec<Vec<char>>)
    ensures
        ls@.map_values(|l: Vec<char>| l@) == text_lines(s@),
{
    let parts = split_chars(s, '\n');
    let ghost p = split_on(s@, '\n');
    proof {
        lemma_split_on_nonempty(s@, '\n');
    }
    let n = parts.len();
    assert(parts@.map_values(|l: Vec<char>| l@)[n - 1] == p[n - 1]);
    let mut ls: Vec<Vec<char>> = Vec::new();
    let mut i: usize = 0;
    while i + 1 < n
        invariant
            n == parts.len() >= 1,
            parts@.map_values(|l: Vec<char>| l@) == p,
            i + 1 <= n,
            ls@.map_values(|l: Vec<char>| l@) == p.drop_last().take(i as int).map_values(
                |l: Seq<char>| strip_cr(l),
            ),
        decreases n - i,
    {
        let l = &parts[i];
        assert(l@ == p[i as int]);
        let line = if l.len() > 0 && l[l.len() - 1] == '\r' {
            sub_chars(l.as_slice(), 0, l.len() - 1)
        } else {
            sub_chars(l.as_slice(), 0, l.len())
        };
        assert(l@.subrange(0, l.len() as int) == l@);
        assert(l@.len() > 0 ==> l@.subrange(0, l.len() - 1) == l@.drop_last());
        assert(line@ == strip_cr(p[i as int]));
        let ghost before = ls@;
        ls.push(line);
        assert(ls@ == before.push(line));
        assert(ls@.map_values(|l: Vec<char>| l@) =~= before.map_values(|l: Vec<char>| l@).push(line@));
        i += 1;
        assert(p.drop_last().take(i as int) =~= p.drop_last().take(i - 1).push(p[i - 1]));
        assert(ls@.map_values(|l: Vec<char>| l@) =~= p.drop_last().take(i as int).map_values(
            |l: Seq<char>| strip_cr(l),
        ));
    }
    assert(p.drop_last().take(i as int) == p.drop_last());
    if parts[n - 1].len() > 0 {
        let last = sub_chars(parts[n - 1].as_slice(), 0, parts[n - 1].len());
        assert(parts[n - 1]@.subrange(0, parts[n - 1].len() as int) == parts[n - 1]@);
        let ghost before = ls@.map_values(|l: Vec<char>| l@);
        ls.push(last);
        assert(ls@.map_values(|l: Vec<char>| l@) =~= before.push(p.last()));
    }
    ls
}

proof fn lemma_unlines_push(ls: Seq<Seq<char>>, l: Seq<char>)
    ensures
        unlines(ls.push(l)) == unlines(ls) + l + seq!['\n'],
{
    assert(ls.push(l).drop_last() == ls);
}

/// The lines, each followed by a newline, as one string.
pub fn unlines_of(ls: &Vec<String>) -> (s: String)
    ensures
        s@ == unlines(strings_view(ls@)),
{
    let mut s = String::new();
    let mut i: usize = 0;
    while i < ls.len()
        invariant
            i <= ls.len(),
            s@ == unlines(strings_view(ls@).take(i as int)),
        decreases ls.len() - i,
    {
        push_str(&mut s, ls[i].as_str());
        s.push('\n');
        proof {
            lemma_unlines_push(strings_view(ls@).take(i as int), ls@[i as int]@);
            assert(strings_view(ls@).take(i + 1) =~= strings_view(ls@).take(i as int).push(
                ls@[i as int]@,
            ));
        }
        i += 1;
    }
    assert(strings_view(ls@).take(ls.len() as int) == strings_view(ls@));
    s
}

} // verus!

verus! {

/// Characters without the separator extend the last piece.
pub proof fn lemma_split_extend(p: Seq<char>, b: Seq<char>, sep: char)
    requires
        forall|i: int| 0 <= i < b.len() ==> b[i] != sep,
    ensures
        split_on(p + b, sep) == split_on(p, sep).update(
            split_on(p, sep).len() - 1,
            split_on(p, sep).last() + b,
        ),
    decreases b.len(),
{
    lemma_split_on_nonempty(p, sep);
    let r = split_on(p, sep);
    if b.len() == 0 {
        assert(p + b =~= p);
        assert(r.last() + b =~= r.last());
        assert(r.update(r.len() - 1, r.last()) =~= r);
    } else {
        let b0 = b.drop_last();
        lemma_split_extend(p, b0, sep);
        assert((p + b).drop_last() =~= p + b0);
        assert((p + b).last() == b.last());
        assert(b.last() == b[b.len() - 1]);
        let r0 = split_on(p + b0, sep);
        assert(r0 == r.update(r.len() - 1, r.last() + b0));
        assert(r0.last() == r.last() + b0);
        assert((r.last() + b0).push(b.last()) =~= r.last() + b);
        assert(r0.update(r0.len() - 1, r0.last().push(b.last())) =~= r.update(r.len() - 1, r.last() + b));
    }
}

/// Splitting pieces joined with a separator they do not contain gives the
/// pieces back.
pub proof fn lemma_split_join(parts: Seq<Seq<char>>, sep: char)
    requires
        parts.len() >= 1,
        forall|k: int, i: int| 0 <= k < parts.len() && 0 <= i < parts[k].len() ==> parts[k][i] != sep,
    ensures
        split_on(join_with(parts, seq![sep]), sep) == parts,
    decreases parts.len(),
{
    let last = parts.last();
    assert(forall|i: int| 0 <= i < last.len() ==> last[i] != sep) by {
        assert(last == parts[parts.len() - 1]);
    }
    if parts.len() == 1 {
        let e = Seq::<char>::empty();
        lemma_split_extend(e, parts[0], sep);
        assert(e + parts[0] =~= parts[0]);
        assert(split_on(e, sep) =~= seq![e]);
        assert(seq![e].update(0, e + parts[0]) =~= parts);
    } else {
        let d = parts.drop_last();
        lemma_split_join(d, sep);
        let j = join_with(d, seq![sep]);
        assert((j + seq![sep]) =~= j.push(sep));
        assert((j + seq![sep]).drop_last() =~= j);
        let r = split_on(j + seq![sep], sep);
        assert(r == d.push(seq![]));
        lemma_split_extend(j + seq![sep], last, sep);
        assert(Seq::<char>::empty() + last =~= last);
        assert(r.update(r.len() - 1, r.last() + last) =~= parts);
    }
}

} // verus!

verus! {

/// No line break (`\n` or `\r`) in `s`.
pub open spec fn no_breaks(s: Seq<char>) -> bool {
    forall|i: int| 0 <= i < s.len() ==> #[trigger] s[i] != '\n' && s[i] != '\r'
}

pub proof fn lemma_no_breaks_cat(a: Seq<char>, b: Seq<char>)
    requires
        no_breaks(a),
        no_breaks(b),
    ensures
        no_breaks(a + b),
{
    assert forall|i: int| 0 <= i < (a + b).len() implies #[trigger] (a + b)[i] != '\n' && (a + b)[i]
        != '\r' by {
        if i < a.len() {
            assert((a + b)[i] == a[i]);
        } else {
            assert((a + b)[i] == b[i - a.len()]);
        }
    }
}

pub proof fn lemma_no_breaks_join(parts: Seq<Seq<char>>, sep: Seq<char>)
    requires
        forall|k: int| 0 <= k < parts.len() ==> no_breaks(#[trigger] parts[k]),
        no_breaks(sep),
    ensures
        no_breaks(join_with(parts, sep)),
    decreases parts.len(),
{
    if parts.len() == 1 {
        assert(no_breaks(parts[0]));
    } else if parts.len() > 1 {
        lemma_no_breaks_join(parts.drop_last(), sep);
        assert(no_breaks(parts[parts.len() - 1]));
        lemma_no_breaks_cat(join_with(parts.drop_last(), sep), sep);
        lemma_no_breaks_cat(join_with(parts.drop_last(), sep) + sep, parts.last());
    }
}

/// Decimal digits hold no line break.
pub proof fn lemma_dec_text_plain(n: nat)
    ensures
        no_breaks(dec_text(n)),
        dec_text(n).len() > 0,
        forall|i: int| 0 <= i < dec_text(n).len() ==> '0' <= #[trigger] dec_text(n)[i] <= '9',
{
    lemma_dec_text_digits(n);
}

} // verus!
