//! Grid-level comparison and human-readable failure reports.
//!
//! The differ works on [`Frame`]s — rendered screens — so a failure says
//! "row 4 says `wurld`, expected `world`" or "row 2 lost its bold green",
//! never "byte 0x1b differs at offset 1207". Text and style differences are
//! reported separately: a style-only regression on identical text is one of
//! the failure modes byte diffs are worst at explaining.

use vstd::prelude::*;
use crate::screen::{char_width, char_width_spec};
use crate::snapshot::{
    Frame, FrameView, Snapshot, SnapshotView, Span, frame_of, lemma_spans_by_row_eq, spans_by_row,
    spans_in_row,
};
use crate::screen::TermView;
use crate::style::style_text;
use crate::text::{
    chars_of, dec_text, int_text, join_strings, join_with, push_decimal, push_int, push_str,
    string_from, string_of, strings_view, trim_end_ws, trim_end_ws_chars, unlines, unlines_of,
};

verus! {

/// One observed difference between an expected and an actual snapshot.
#[derive(Debug, PartialEq, Eq)]
#[allow(inconsistent_fields)]
pub enum Difference {
    /// Grids of different sizes are never comparable row-by-row.
    Dims { expected: (usize, usize), actual: (usize, usize) },
    /// Row text differs (0-based row).
    RowText { row: usize, expected: String, actual: String },
    /// Same text, different styling on a row.
    RowStyle { row: usize, expected: Vec<Span>, actual: Vec<Span> },
    ExitCode { expected: i32, actual: i32 },
    Stderr { expected: Vec<String>, actual: Vec<String> },
}

impl Clone for Difference {
    fn clone(&self) -> (d: Difference)
        ensures
            d@ == self@,
    {
        match self {
            Difference::Dims { expected, actual } => Difference::Dims {
                expected: *expected,
                actual: *actual,
            },
            Difference::RowText { row, expected, actual } => Difference::RowText {
                row: *row,
                expected: expected.clone(),
                actual: actual.clone(),
            },
            Difference::RowStyle { row, expected, actual } => Difference::RowStyle {
                row: *row,
                expected: expected.clone(),
                actual: actual.clone(),
            },
            Difference::ExitCode { expected, actual } => Difference::ExitCode {
                expected: *expected,
                actual: *actual,
            },
            Difference::Stderr { expected, actual } => Difference::Stderr {
                expected: clone_strings(expected),
                actual: clone_strings(actual),
            },
        }
    }
}

/// A difference as values.
#[allow(inconsistent_fields)]
pub enum DiffView {
    Dims { expected: (usize, usize), actual: (usize, usize) },
    RowText { row: usize, expected: Seq<char>, actual: Seq<char> },
    RowStyle { row: usize, expected: Seq<Span>, actual: Seq<Span> },
    ExitCode { expected: i32, actual: i32 },
    Stderr { expected: Seq<Seq<char>>, actual: Seq<Seq<char>> },
}

impl View for Difference {
    type V = DiffView;

    open spec fn view(&self) -> DiffView {
        match self {
            Difference::Dims { expected, actual } => DiffView::Dims {
                expected: *expected,
                actual: *actual,
            },
            Difference::RowText { row, expected, actual } => DiffView::RowText {
                row: *row,
                expected: expected@,
                actual: actual@,
            },
            Difference::RowStyle { row, expected, actual } => DiffView::RowStyle {
                row: *row,
                expected: expected@,
                actual: actual@,
            },
            Difference::ExitCode { expected, actual } => DiffView::ExitCode {
                expected: *expected,
                actual: *actual,
            },
            Difference::Stderr { expected, actual } => DiffView::Stderr {
                expected: strings_view(expected@),
                actual: strings_view(actual@),
            },
        }
    }
}

/// The views of a list of differences.
pub open spec fn diffs_view(d: Seq<Difference>) -> Seq<DiffView> {
    d.map_values(|x: Difference| x@)
}

/// The difference found on row `r` of two frames of one size, if any: its
/// text, else (text identical) its spans.
pub open spec fn row_diff(e: FrameView, a: FrameView, r: nat) -> Seq<DiffView> {
    if e.lines[r as int] != a.lines[r as int] {
        seq![DiffView::RowText { row: r as usize, expected: e.lines[r as int], actual: a.lines[r as int] }]
    } else if spans_in_row(e.spans, r as usize) != spans_in_row(a.spans, r as usize) {
        seq![
            DiffView::RowStyle {
                row: r as usize,
                expected: spans_in_row(e.spans, r as usize),
                actual: spans_in_row(a.spans, r as usize),
            },
        ]
    } else {
        seq![]
    }
}

/// The differences found on rows `0 .. n`, in row order.
pub open spec fn rows_diff(e: FrameView, a: FrameView, n: nat) -> Seq<DiffView>
    decreases n,
{
    if n == 0 {
        seq![]
    } else {
        rows_diff(e, a, (n - 1) as nat) + row_diff(e, a, (n - 1) as nat)
    }
}

/// What [`diff_frames`] reports: a size mismatch alone, else the row
/// differences.
pub open spec fn diff_frames_spec(e: FrameView, a: FrameView) -> Seq<DiffView> {
    if e.cols != a.cols || e.rows != a.rows {
        seq![DiffView::Dims { expected: (e.cols, e.rows), actual: (a.cols, a.rows) }]
    } else {
        rows_diff(e, a, e.rows as nat)
    }
}

/// The spans of row `row`.
fn spans_of_row(frame: &Frame, row: usize) -> (v: Vec<Span>)
    ensures
        v@ == spans_in_row(frame@.spans, row),
{
    let mut v: Vec<Span> = Vec::new();
    let mut k: usize = 0;
    while k < frame.spans.len()
        invariant
            k <= frame.spans.len(),
            v@ == spans_in_row(frame@.spans.take(k as int), row),
        decreases frame.spans.len() - k,
    {
        assert(frame@.spans.take(k + 1).drop_last() == frame@.spans.take(k as int));
        if frame.spans[k].row == row {
            v.push(frame.spans[k]);
        }
        k += 1;
    }
    assert(frame@.spans.take(frame.spans.len() as int) == frame@.spans);
    v
}

fn spans_eq(a: &Vec<Span>, b: &Vec<Span>) -> (r: bool)
    ensures
        r == (a@ == b@),
{
    if a.len() != b.len() {
        return false;
    }
    let mut i: usize = 0;
    while i < a.len()
        invariant
            i <= a.len() == b.len(),
            forall|j: int| 0 <= j < i ==> a@[j] == b@[j],
        decreases a.len() - i,
    {
        if a[i] != b[i] {
            return false;
        }
        i += 1;
    }
    assert(a@ =~= b@);
    true
}

/// Compare two frames. Returns an empty vector when visually identical.
pub fn diff_frames(expected: &Frame, actual: &Frame) -> (diffs: Vec<Difference>)
    requires
        expected.cols != actual.cols || expected.rows != actual.rows || (expected.lines.len()
            >= expected.rows && actual.lines.len() >= actual.rows),
    ensures
        diffs_view(diffs@) == diff_frames_spec(expected@, actual@),
{
    let mut diffs: Vec<Difference> = Vec::new();
    if expected.cols != actual.cols || expected.rows != actual.rows {
        diffs.push(
            Difference::Dims {
                expected: (expected.cols, expected.rows),
                actual: (actual.cols, actual.rows),
            },
        );
        assert(diffs_view(diffs@) =~= diff_frames_spec(expected@, actual@));
        return diffs;
    }
    let mut row: usize = 0;
    assert(diffs_view(diffs@) =~= rows_diff(expected@, actual@, 0));
    while row < expected.rows
        invariant
            row <= expected.rows == actual.rows,
            expected.cols == actual.cols,
            expected.lines.len() >= expected.rows,
            actual.lines.len() >= actual.rows,
            diffs_view(diffs@) == rows_diff(expected@, actual@, row as nat),
        decreases expected.rows - row,
    {
        let ghost before = diffs_view(diffs@);
        assert(expected@.lines[row as int] == expected.lines@[row as int]@);
        assert(actual@.lines[row as int] == actual.lines@[row as int]@);
        if expected.lines[row] != actual.lines[row] {
            let d = Difference::RowText {
                row,
                expected: expected.lines[row].clone(),
                actual: actual.lines[row].clone(),
            };
            diffs.push(d);
            assert(diffs_view(diffs@) =~= before.push(d@));
        } else {
            let exp_spans = spans_of_row(expected, row);
            let act_spans = spans_of_row(actual, row);
            if !spans_eq(&exp_spans, &act_spans) {
                let d = Difference::RowStyle { row, expected: exp_spans, actual: act_spans };
                diffs.push(d);
                assert(diffs_view(diffs@) =~= before.push(d@));
            } else {
                assert(diffs_view(diffs@) =~= before + row_diff(expected@, actual@, row as nat));
            }
        }
        row += 1;
    }
    diffs
}

fn strings_eq(a: &Vec<String>, b: &Vec<String>) -> (r: bool)
    ensures
        r == (strings_view(a@) == strings_view(b@)),
{
    if a.len() != b.len() {
        assert(strings_view(a@).len() != strings_view(b@).len());
        return false;
    }
    let mut i: usize = 0;
    while i < a.len()
        invariant
            i <= a.len() == b.len(),
            forall|j: int| 0 <= j < i ==> a@[j]@ == b@[j]@,
        decreases a.len() - i,
    {
        if a[i] != b[i] {
            assert(strings_view(a@)[i as int] != strings_view(b@)[i as int]);
            return false;
        }
        i += 1;
    }
    assert(strings_view(a@) =~= strings_view(b@));
    true
}

fn clone_strings(v: &Vec<String>) -> (c: Vec<String>)
    ensures
        strings_view(c@) == strings_view(v@),
{
    let mut c: Vec<String> = Vec::new();
    let mut i: usize = 0;
    while i < v.len()
        invariant
            i <= v.len(),
            strings_view(c@) == strings_view(v@).take(i as int),
        decreases v.len() - i,
    {
        let ghost before = strings_view(c@);
        let s = v[i].clone();
        c.push(s);
        assert(strings_view(c@) =~= before.push(s@));
        i += 1;
        assert(strings_view(v@).take(i as int) =~= strings_view(v@).take(i - 1).push(v@[i - 1]@));
    }
    assert(strings_view(v@).take(v.len() as int) == strings_view(v@));
    c
}

/// What [`diff_snapshots`] reports: the screen, then the exit code, then
/// stderr.
pub open spec fn diff_snapshots_spec(e: SnapshotView, a: SnapshotView) -> Seq<DiffView> {
    diff_frames_spec(e.frame, a.frame) + (if e.exit != a.exit {
        seq![DiffView::ExitCode { expected: e.exit, actual: a.exit }]
    } else {
        seq![]
    }) + (if e.stderr != a.stderr {
        seq![DiffView::Stderr { expected: e.stderr, actual: a.stderr }]
    } else {
        seq![]
    })
}

/// Compare two full snapshots: screen, then exit code, then stderr.
pub fn diff_snapshots(expected: &Snapshot, actual: &Snapshot) -> (diffs: Vec<Difference>)
    requires
        expected.frame.cols != actual.frame.cols || expected.frame.rows != actual.frame.rows || (
        expected.frame.lines.len() >= expected.frame.rows && actual.frame.lines.len()
            >= actual.frame.rows),
    ensures
        diffs_view(diffs@) == diff_snapshots_spec(expected@, actual@),
{
    let mut diffs = diff_frames(&expected.frame, &actual.frame);
    let ghost d0 = diffs_view(diffs@);
    if expected.exit != actual.exit {
        let d = Difference::ExitCode { expected: expected.exit, actual: actual.exit };
        diffs.push(d);
        assert(diffs_view(diffs@) =~= d0.push(d@));
    }
    let ghost d1 = diffs_view(diffs@);
    if !strings_eq(&expected.stderr, &actual.stderr) {
        let d = Difference::Stderr {
            expected: clone_strings(&expected.stderr),
            actual: clone_strings(&actual.stderr),
        };
        diffs.push(d);
        assert(diffs_view(diffs@) =~= d1.push(d@));
    }
    assert(diffs_view(diffs@) =~= diff_snapshots_spec(expected@, actual@));
    diffs
}

// ---------------------------------------------------------------------------
// The report.
// ---------------------------------------------------------------------------

/// The character at `i`, if any.
pub open spec fn opt_at(s: Seq<char>, i: int) -> Option<char> {
    if 0 <= i < s.len() {
        Some(s[i])
    } else {
        None
    }
}

/// The marks under one column pair: as wide as the shown character (at
/// least one), `^` where the two sides differ.
pub open spec fn caret_cell(e: Option<char>, a: Option<char>) -> Seq<char> {
    let c = match a {
        Some(x) => x,
        None => match e {
            Some(y) => y,
            None => ' ',
        },
    };
    let mark = if e == a {
        ' '
    } else {
        '^'
    };
    if char_width_spec(c) == 2 {
        seq![mark, mark]
    } else {
        seq![mark]
    }
}

/// The marks of the first `n` character positions.
pub open spec fn caret_marks(e: Seq<char>, a: Seq<char>, n: nat) -> Seq<char>
    decreases n,
{
    if n == 0 {
        seq![]
    } else {
        caret_marks(e, a, (n - 1) as nat) + caret_cell(opt_at(e, n - 1), opt_at(a, n - 1))
    }
}

/// The caret line under an actual row: every differing column marked,
/// aligned in display columns, trailing blanks trimmed.
pub open spec fn caret_spec(e: Seq<char>, a: Seq<char>) -> Seq<char> {
    trim_end_ws(caret_marks(e, a, if e.len() >= a.len() { e.len() } else { a.len() }))
}

fn opt_char_eq(a: Option<char>, b: Option<char>) -> (r: bool)
    ensures
        r == (a == b),
{
    match (a, b) {
        (Some(x), Some(y)) => x == y,
        (None, None) => true,
        _ => false,
    }
}

/// A `^`-marker line under the actual row, aligned in *display columns* so
/// carets line up even past CJK characters. Marks every differing column.
pub fn caret_line(expected: &str, actual: &str) -> (s: String)
    ensures
        s@ == caret_spec(expected@, actual@),
{
    let ec = chars_of(expected);
    let ac = chars_of(actual);
    let n = if ec.len() >= ac.len() {
        ec.len()
    } else {
        ac.len()
    };
    let mut out: Vec<char> = Vec::new();
    let mut i: usize = 0;
    while i < n
        invariant
            i <= n,
            n == (if ec@.len() >= ac@.len() { ec@.len() } else { ac@.len() }),
            ec@ == expected@,
            ac@ == actual@,
            out@ == caret_marks(ec@, ac@, i as nat),
        decreases n - i,
    {
        let e = if i < ec.len() {
            Some(ec[i])
        } else {
            None
        };
        let a = if i < ac.len() {
            Some(ac[i])
        } else {
            None
        };
        let c = match a {
            Some(x) => x,
            None => match e {
                Some(y) => y,
                None => ' ',
            },
        };
        let mark = if opt_char_eq(e, a) {
            ' '
        } else {
            '^'
        };
        let ghost before = out@;
        out.push(mark);
        if char_width(c) == 2 {
            out.push(mark);
        }
        i += 1;
        assert(out@ =~= before + caret_cell(opt_at(ec@, i - 1), opt_at(ac@, i - 1)));
    }
    let t = trim_end_ws_chars(out.as_slice());
    string_of(t.as_slice())
}

/// `c<start>-c<end> <style>`.
pub open spec fn span_piece(sp: Span) -> Seq<char> {
    "c"@ + dec_text(sp.start as nat) + "-c"@ + dec_text(sp.end as nat) + " "@ + style_text(sp.style)
}

/// A row's spans for a report: `(plain)` when there are none.
pub open spec fn format_spans_spec(spans: Seq<Span>) -> Seq<char> {
    if spans.len() == 0 {
        "(plain)"@
    } else {
        join_with(spans.map_values(|sp: Span| span_piece(sp)), "; "@)
    }
}

fn format_spans(spans: &[Span]) -> (s: String)
    ensures
        s@ == format_spans_spec(spans@),
{
    if spans.len() == 0 {
        return string_from("(plain)");
    }
    let ghost m = spans@.map_values(|sp: Span| span_piece(sp));
    let mut parts: Vec<String> = Vec::new();
    let mut i: usize = 0;
    while i < spans.len()
        invariant
            i <= spans.len(),
            m == spans@.map_values(|sp: Span| span_piece(sp)),
            strings_view(parts@) == m.take(i as int),
        decreases spans.len() - i,
    {
        let sp = spans[i];
        let mut p = string_from("c");
        push_decimal(&mut p, sp.start as u64);
        push_str(&mut p, "-c");
        push_decimal(&mut p, sp.end as u64);
        push_str(&mut p, " ");
        let st = sp.style.to_text();
        push_str(&mut p, st.as_str());
        let ghost before = strings_view(parts@);
        parts.push(p);
        assert(strings_view(parts@) =~= before.push(p@));
        i += 1;
        assert(m.take(i as int) =~= m.take(i - 1).push(m[i - 1]));
    }
    assert(m.take(spans.len() as int) == m);
    join_strings(&parts, "; ")
}

/// The line at `i`, if any.
pub open spec fn opt_line(s: Seq<Seq<char>>, i: int) -> Option<Seq<char>> {
    if 0 <= i < s.len() {
        Some(s[i])
    } else {
        None
    }
}

/// A stderr line in a report: `|` and its text, or `(absent)`.
pub open spec fn line_or_absent(o: Option<Seq<char>>) -> Seq<char> {
    match o {
        Some(l) => seq!['|'] + l,
        None => "(absent)"@,
    }
}

/// The two report lines at the first index from `i` on where the stderr
/// transcripts disagree; none when they agree from there on.
pub open spec fn disagreement_from(e: Seq<Seq<char>>, a: Seq<Seq<char>>, i: nat) -> Seq<Seq<char>>
    decreases (if e.len() >= a.len() { e.len() } else { a.len() }) - i,
{
    let n = if e.len() >= a.len() {
        e.len()
    } else {
        a.len()
    };
    if i >= n {
        seq![]
    } else if opt_line(e, i as int) != opt_line(a, i as int) {
        seq![
            "line "@ + dec_text(i) + ": expected "@ + line_or_absent(opt_line(e, i as int)),
            "line "@ + dec_text(i) + ": actual   "@ + line_or_absent(opt_line(a, i as int)),
        ]
    } else {
        disagreement_from(e, a, i + 1)
    }
}

fn line_or_absent_text(v: &Vec<String>, i: usize) -> (s: String)
    ensures
        s@ == line_or_absent(opt_line(strings_view(v@), i as int)),
{
    if i < v.len() {
        let mut s = String::new();
        s.push('|');
        push_str(&mut s, v[i].as_str());
        s
    } else {
        string_from("(absent)")
    }
}

/// Show the first line where the stderr transcripts disagree, with context.
fn first_stderr_disagreement(expected: &Vec<String>, actual: &Vec<String>) -> (v: Vec<String>)
    ensures
        strings_view(v@) == disagreement_from(strings_view(expected@), strings_view(actual@), 0),
{
    let ghost e = strings_view(expected@);
    let ghost a = strings_view(actual@);
    let n = if expected.len() >= actual.len() {
        expected.len()
    } else {
        actual.len()
    };
    let mut i: usize = 0;
    while i < n
        invariant
            i <= n,
            n == (if e.len() >= a.len() { e.len() } else { a.len() }),
            e == strings_view(expected@),
            a == strings_view(actual@),
            disagreement_from(e, a, 0) == disagreement_from(e, a, i as nat),
        decreases n - i,
    {
        let same = if i < expected.len() && i < actual.len() {
            expected[i] == actual[i]
        } else {
            i >= expected.len() && i >= actual.len()
        };
        assert(same == (opt_line(e, i as int) == opt_line(a, i as int)));
        if !same {
            let mut l1 = string_from("line ");
            push_decimal(&mut l1, i as u64);
            push_str(&mut l1, ": expected ");
            let x = line_or_absent_text(expected, i);
            push_str(&mut l1, x.as_str());
            let mut l2 = string_from("line ");
            push_decimal(&mut l2, i as u64);
            push_str(&mut l2, ": actual   ");
            let y = line_or_absent_text(actual, i);
            push_str(&mut l2, y.as_str());
            let mut v: Vec<String> = Vec::new();
            v.push(l1);
            v.push(l2);
            assert(strings_view(v@) =~= disagreement_from(e, a, i as nat));
            return v;
        }
        i += 1;
    }
    let v: Vec<String> = Vec::new();
    assert(strings_view(v@) =~= disagreement_from(e, a, i as nat));
    v
}

/// The report lines of one difference, before indentation.
pub open spec fn block_lines(d: DiffView) -> Seq<Seq<char>> {
    match d {
        DiffView::Dims { expected, actual } => seq![
            "terminal size: expected "@ + dec_text(expected.0 as nat) + "x"@ + dec_text(
                expected.1 as nat,
            ) + ", actual "@ + dec_text(actual.0 as nat) + "x"@ + dec_text(actual.1 as nat),
        ],
        DiffView::RowText { row, expected, actual } => seq![
            "row "@ + dec_text(row as nat) + " text differs:"@,
            "  expected |"@ + expected,
            "  actual   |"@ + actual,
            "            "@ + caret_spec(expected, actual),
        ],
        DiffView::RowStyle { row, expected, actual } => seq![
            "row "@ + dec_text(row as nat) + " styles differ (text identical):"@,
            "  expected "@ + format_spans_spec(expected),
            "  actual   "@ + format_spans_spec(actual),
        ],
        DiffView::ExitCode { expected, actual } => seq![
            "exit code: expected "@ + int_text(expected as int) + ", actual "@ + int_text(
                actual as int,
            ),
        ],
        DiffView::Stderr { expected, actual } => seq![
            "stderr differs ("@ + dec_text(expected.len()) + " line(s) expected, "@ + dec_text(
                actual.len(),
            ) + " actual):"@,
        ] + disagreement_from(expected, actual, 0).map_values(|l: Seq<char>| "  "@ + l),
    }
}

/// Every line prefixed with `indent`.
pub open spec fn indented(ls: Seq<Seq<char>>, indent: Seq<char>) -> Seq<Seq<char>> {
    ls.map_values(|l: Seq<char>| indent + l)
}

/// The report lines of a list of differences, one block each.
pub open spec fn report_lines(ds: Seq<DiffView>, indent: Seq<char>) -> Seq<Seq<char>>
    decreases ds.len(),
{
    if ds.len() == 0 {
        seq![]
    } else {
        report_lines(ds.drop_last(), indent) + indented(block_lines(ds.last()), indent)
    }
}

fn with_head(head: &str, body: &String) -> (s: String)
    ensures
        s@ == head@ + body@,
{
    let mut s = string_from(head);
    push_str(&mut s, body.as_str());
    s
}

fn block_of(d: &Difference) -> (v: Vec<String>)
    ensures
        strings_view(v@) == block_lines(d@),
{
    let mut v: Vec<String> = Vec::new();
    match d {
        Difference::Dims { expected, actual } => {
            let mut l = string_from("terminal size: expected ");
            push_decimal(&mut l, expected.0 as u64);
            push_str(&mut l, "x");
            push_decimal(&mut l, expected.1 as u64);
            push_str(&mut l, ", actual ");
            push_decimal(&mut l, actual.0 as u64);
            push_str(&mut l, "x");
            push_decimal(&mut l, actual.1 as u64);
            v.push(l);
        },
        Difference::RowText { row, expected, actual } => {
            let mut l = string_from("row ");
            push_decimal(&mut l, *row as u64);
            push_str(&mut l, " text differs:");
            v.push(l);
            v.push(with_head("  expected |", expected));
            v.push(with_head("  actual   |", actual));
            let c = caret_line(expected.as_str(), actual.as_str());
            v.push(with_head("            ", &c));
        },
        Difference::RowStyle { row, expected, actual } => {
            let mut l = string_from("row ");
            push_decimal(&mut l, *row as u64);
            push_str(&mut l, " styles differ (text identical):");
            v.push(l);
            let e = format_spans(expected.as_slice());
            v.push(with_head("  expected ", &e));
            let a = format_spans(actual.as_slice());
            v.push(with_head("  actual   ", &a));
        },
        Difference::ExitCode { expected, actual } => {
            let mut l = string_from("exit code: expected ");
            push_int(&mut l, *expected as i64);
            push_str(&mut l, ", actual ");
            push_int(&mut l, *actual as i64);
            v.push(l);
        },
        Difference::Stderr { expected, actual } => {
            let mut l = string_from("stderr differs (");
            push_decimal(&mut l, expected.len() as u64);
            push_str(&mut l, " line(s) expected, ");
            push_decimal(&mut l, actual.len() as u64);
            push_str(&mut l, " actual):");
            v.push(l);
            let ghost first = strings_view(v@);
            let lines = first_stderr_disagreement(expected, actual);
            let ghost m = strings_view(lines@).map_values(|l: Seq<char>| "  "@ + l);
            let mut i: usize = 0;
            while i < lines.len()
                invariant
                    i <= lines.len(),
                    m == strings_view(lines@).map_values(|l: Seq<char>| "  "@ + l),
                    strings_view(v@) == first + m.take(i as int),
                decreases lines.len() - i,
            {
                let ghost before = strings_view(v@);
                let t = with_head("  ", &lines[i]);
                v.push(t);
                assert(strings_view(v@) =~= before.push(t@));
                i += 1;
                assert(m.take(i as int) =~= m.take(i - 1).push(m[i - 1]));
            }
            assert(m.take(lines.len() as int) == m);
        },
    }
    assert(strings_view(v@) =~= block_lines(d@));
    v
}

/// Render differences as an indented, plain-text report (one difference per
/// block). `indent` is prepended to every line.
pub fn render_report(diffs: &[Difference], indent: &str) -> (s: String)
    ensures
        s@ == unlines(report_lines(diffs_view(diffs@), indent@)),
{
    let mut all: Vec<String> = Vec::new();
    let mut i: usize = 0;
    while i < diffs.len()
        invariant
            i <= diffs.len(),
            strings_view(all@) == report_lines(diffs_view(diffs@.take(i as int)), indent@),
        decreases diffs.len() - i,
    {
        let block = block_of(&diffs[i]);
        let ghost base = strings_view(all@);
        let ghost m = indented(strings_view(block@), indent@);
        let mut j: usize = 0;
        while j < block.len()
            invariant
                j <= block.len(),
                m == indented(strings_view(block@), indent@),
                strings_view(all@) == base + m.take(j as int),
            decreases block.len() - j,
        {
            let ghost before = strings_view(all@);
            let mut t = string_from(indent);
            push_str(&mut t, block[j].as_str());
            all.push(t);
            assert(strings_view(all@) =~= before.push(t@));
            j += 1;
            assert(m.take(j as int) =~= m.take(j - 1).push(m[j - 1]));
        }
        assert(m.take(block.len() as int) == m);
        proof {
            let t = diffs_view(diffs@.take(i + 1));
            assert(t.drop_last() =~= diffs_view(diffs@.take(i as int)));
            assert(t.last() == diffs@[i as int]@);
        }
        i += 1;
    }
    assert(diffs@.take(diffs.len() as int) == diffs@);
    unlines_of(&all)
}

// ---------------------------------------------------------------------------
// What an empty comparison means.
// ---------------------------------------------------------------------------

/// A frame as the library makes them: one line per row, spans ordered by
/// row and on the screen.
pub open spec fn frame_wf(f: FrameView) -> bool {
    &&& f.lines.len() == f.rows
    &&& spans_by_row(f.spans, f.rows as nat)
}

/// Rows `0 .. n` of two frames agree in text and spans.
pub open spec fn rows_agree(e: FrameView, a: FrameView, n: nat) -> bool {
    forall|r: int|
        0 <= r < n ==> #[trigger] e.lines[r] == a.lines[r] && spans_in_row(e.spans, r as usize)
            == spans_in_row(a.spans, r as usize)
}

proof fn lemma_rows_diff_empty(e: FrameView, a: FrameView, n: nat)
    requires
        n <= usize::MAX,
        n <= e.lines.len(),
        n <= a.lines.len(),
    ensures
        rows_diff(e, a, n).len() == 0 <==> rows_agree(e, a, n),
    decreases n,
{
    if n > 0 {
        let m = (n - 1) as nat;
        lemma_rows_diff_empty(e, a, m);
        assert(rows_diff(e, a, n) == rows_diff(e, a, m) + row_diff(e, a, m));
        let same_row = e.lines[m as int] == a.lines[m as int] && spans_in_row(e.spans, m as usize)
            == spans_in_row(a.spans, m as usize);
        assert(row_diff(e, a, m).len() == 0 <==> same_row);
        if rows_agree(e, a, n) {
            assert(e.lines[m as int] == a.lines[m as int]);
            assert(same_row);
            lemma_rows_agree_less(e, a, n, m);
            assert(rows_diff(e, a, n).len() == 0);
        }
        if rows_diff(e, a, n).len() == 0 {
            assert(rows_diff(e, a, m).len() == 0);
            assert(same_row);
            lemma_rows_agree_next(e, a, m);
        }
    }
}

proof fn lemma_rows_agree_next(e: FrameView, a: FrameView, m: nat)
    requires
        rows_agree(e, a, m),
        e.lines[m as int] == a.lines[m as int],
        spans_in_row(e.spans, m as usize) == spans_in_row(a.spans, m as usize),
    ensures
        rows_agree(e, a, m + 1),
{
    assert forall|r: int| 0 <= r < m + 1 implies #[trigger] e.lines[r] == a.lines[r]
        && spans_in_row(e.spans, r as usize) == spans_in_row(a.spans, r as usize) by {
        if r < m {
            assert(e.lines[r] == a.lines[r]);
        }
    }
}

/// Two frames compare without a difference exactly when they are equal.
pub proof fn lemma_diff_frames_empty_iff(e: FrameView, a: FrameView)
    requires
        frame_wf(e),
        frame_wf(a),
    ensures
        diff_frames_spec(e, a).len() == 0 <==> e == a,
{
    if e.cols == a.cols && e.rows == a.rows {
        lemma_rows_diff_empty(e, a, e.rows as nat);
        if diff_frames_spec(e, a).len() == 0 {
            assert(e.lines =~= a.lines) by {
                assert forall|r: int| 0 <= r < e.lines.len() implies e.lines[r] == a.lines[r] by {
                    assert(e.lines[r] == a.lines[r]);
                }
            }
            assert forall|r: usize| r < e.rows implies #[trigger] spans_in_row(e.spans, r)
                == spans_in_row(a.spans, r) by {
                assert(e.lines[r as int] == a.lines[r as int]);
            }
            lemma_spans_by_row_eq(e.spans, a.spans, e.rows as nat);
        }
    }
}

/// Two snapshots compare without a difference exactly when their screens,
/// exit codes and stderr lines are equal (the command is not compared).
pub proof fn lemma_diff_snapshots_empty_iff(e: SnapshotView, a: SnapshotView)
    requires
        frame_wf(e.frame),
        frame_wf(a.frame),
    ensures
        diff_snapshots_spec(e, a).len() == 0 <==> (e.frame == a.frame && e.exit == a.exit
            && e.stderr == a.stderr),
{
    lemma_diff_frames_empty_iff(e.frame, a.frame);
}

proof fn lemma_rows_agree_less(e: FrameView, a: FrameView, n: nat, m: nat)
    requires
        m <= n,
        rows_agree(e, a, n),
    ensures
        rows_agree(e, a, m),
{
}

/// Frames rendered from a screen are well formed.
pub proof fn lemma_frame_of_wf(t: TermView, f: FrameView)
    requires
        frame_of(t, f),
    ensures
        frame_wf(f),
{
}

// ---------------------------------------------------------------------------
// What each reported difference says.
// ---------------------------------------------------------------------------

/// The row a row difference is about; -1 for the other kinds.
pub open spec fn row_of(d: DiffView) -> int {
    match d {
        DiffView::RowText { row, .. } => row as int,
        DiffView::RowStyle { row, .. } => row as int,
        _ => -1,
    }
}

/// A reported difference is true of the two frames: a text difference
/// quotes the expected frame's row as `expected` and the actual frame's row
/// as `actual`, and they differ; a style difference is on a row whose text
/// is the same, quotes each side's spans of that row, and they differ.
pub open spec fn faithful_row_diff(e: FrameView, a: FrameView, d: DiffView) -> bool {
    match d {
        DiffView::RowText { row, expected, actual } => {
            &&& row < e.rows
            &&& expected == e.lines[row as int]
            &&& actual == a.lines[row as int]
            &&& expected != actual
        },
        DiffView::RowStyle { row, expected, actual } => {
            &&& row < e.rows
            &&& e.lines[row as int] == a.lines[row as int]
            &&& expected == spans_in_row(e.spans, row)
            &&& actual == spans_in_row(a.spans, row)
            &&& expected != actual
        },
        _ => false,
    }
}

/// Row `r` of two frames differs in text or in spans.
pub open spec fn row_differs(e: FrameView, a: FrameView, r: int) -> bool {
    e.lines[r] != a.lines[r] || spans_in_row(e.spans, r as usize) != spans_in_row(a.spans, r as usize)
}

/// Every row below `n` that differs has a reported difference.
pub open spec fn reports_every_row(e: FrameView, a: FrameView, ds: Seq<DiffView>, n: nat) -> bool {
    forall|r: int|
        0 <= r < n && #[trigger] row_differs(e, a, r) ==> exists|k: int|
            0 <= k < ds.len() && row_of(#[trigger] ds[k]) == r
}

proof fn lemma_rows_diff_faithful(e: FrameView, a: FrameView, n: nat)
    requires
        n <= e.rows,
    ensures
        forall|k: int|
            0 <= k < rows_diff(e, a, n).len() ==> faithful_row_diff(e, a, #[trigger] rows_diff(e, a, n)[k])
                && 0 <= row_of(rows_diff(e, a, n)[k]) < n,
        forall|i: int, j: int|
            0 <= i < j < rows_diff(e, a, n).len() ==> row_of(#[trigger] rows_diff(e, a, n)[i]) < row_of(
                #[trigger] rows_diff(e, a, n)[j],
            ),
        reports_every_row(e, a, rows_diff(e, a, n), n),
    decreases n,
{
    if n > 0 {
        let m = (n - 1) as nat;
        lemma_rows_diff_faithful(e, a, m);
        let x = rows_diff(e, a, m);
        let y = row_diff(e, a, m);
        let z = rows_diff(e, a, n);
        assert(z == x + y);
        assert(y.len() <= 1);
        assert forall|k: int| 0 <= k < z.len() implies faithful_row_diff(e, a, #[trigger] z[k]) && 0
            <= row_of(z[k]) < n by {
            if k < x.len() {
                assert(z[k] == x[k]);
            } else {
                assert(z[k] == y[0]);
            }
        }
        assert forall|i: int, j: int| 0 <= i < j < z.len() implies row_of(#[trigger] z[i]) < row_of(
            #[trigger] z[j],
        ) by {
            if j < x.len() {
                assert(z[i] == x[i] && z[j] == x[j]);
            } else {
                assert(z[i] == x[i]);
                assert(z[j] == y[0]);
            }
        }
        assert forall|r: int| 0 <= r < n && #[trigger] row_differs(e, a, r) implies exists|k: int|
            0 <= k < z.len() && row_of(#[trigger] z[k]) == r by {
            if r < m {
                assert(exists|k: int| 0 <= k < x.len() && row_of(#[trigger] x[k]) == r);
                let k = choose|k: int| 0 <= k < x.len() && row_of(#[trigger] x[k]) == r;
                assert(z[k] == x[k]);
            } else {
                assert(r == m);
                assert(r as usize == m as usize);
                assert(y.len() == 1);
                assert(z[x.len() as int] == y[0]);
                assert(row_of(z[x.len() as int]) == r);
            }
        }
    }
}

/// What [`diff_frames`] reports is exactly true of its two frames: frames
/// of different sizes give one size difference quoting each side's size;
/// frames of one size give one difference per row that differs, in row
/// order, each quoting the expected frame as `expected` and the actual one
/// as `actual` (see [`faithful_row_diff`]).
pub proof fn lemma_diff_frames_faithful(e: FrameView, a: FrameView)
    ensures
        (e.cols != a.cols || e.rows != a.rows) ==> diff_frames_spec(e, a) == seq![
            DiffView::Dims { expected: (e.cols, e.rows), actual: (a.cols, a.rows) },
        ],
        (e.cols == a.cols && e.rows == a.rows) ==> {
            let ds = diff_frames_spec(e, a);
            &&& forall|k: int| 0 <= k < ds.len() ==> faithful_row_diff(e, a, #[trigger] ds[k])
            &&& forall|i: int, j: int| 0 <= i < j < ds.len() ==> row_of(#[trigger] ds[i]) < row_of(#[trigger] ds[j])
            &&& reports_every_row(e, a, ds, e.rows as nat)
        },
{
    if e.cols == a.cols && e.rows == a.rows {
        lemma_rows_diff_faithful(e, a, e.rows as nat);
    }
}

/// What [`diff_snapshots`] reports is exactly true of its two snapshots:
/// first the screen differences of [`diff_frames`], then an exit-code
/// difference exactly when the codes differ, quoting the expected code as
/// `expected` and the actual one as `actual`, then a stderr difference
/// exactly when the transcripts differ, quoting each side the same way.
pub proof fn lemma_diff_snapshots_faithful(e: SnapshotView, a: SnapshotView)
    ensures
        ({
            let ds = diff_snapshots_spec(e, a);
            let fd = diff_frames_spec(e.frame, a.frame);
            &&& ds.take(fd.len() as int) == fd
            &&& forall|k: int|
                fd.len() <= k < ds.len() ==> match #[trigger] ds[k] {
                    DiffView::ExitCode { expected, actual } => expected == e.exit && actual == a.exit
                        && expected != actual,
                    DiffView::Stderr { expected, actual } => expected == e.stderr && actual
                        == a.stderr && expected != actual,
                    _ => false,
                }
            &&& (e.exit != a.exit <==> exists|k: int| fd.len() <= k < ds.len() && (#[trigger] ds[k]) is ExitCode)
            &&& (e.stderr != a.stderr <==> exists|k: int| fd.len() <= k < ds.len() && (#[trigger] ds[k]) is Stderr)
            &&& forall|i: int, j: int|
                fd.len() <= i < j < ds.len() ==> (#[trigger] ds[i]) is ExitCode && (#[trigger] ds[j]) is Stderr
        }),
{
    let ds = diff_snapshots_spec(e, a);
    let fd = diff_frames_spec(e.frame, a.frame);
    let ex: Seq<DiffView> = if e.exit != a.exit {
        seq![DiffView::ExitCode { expected: e.exit, actual: a.exit }]
    } else {
        seq![]
    };
    let er: Seq<DiffView> = if e.stderr != a.stderr {
        seq![DiffView::Stderr { expected: e.stderr, actual: a.stderr }]
    } else {
        seq![]
    };
    assert(ds == fd + ex + er);
    assert(ds.take(fd.len() as int) =~= fd);
    assert forall|k: int| fd.len() <= k < ds.len() implies (#[trigger] ds[k] == if k < fd.len() + ex.len() {
        ex[k - fd.len()]
    } else {
        er[k - fd.len() - ex.len()]
    }) by {}
    if e.exit != a.exit {
        assert(ds[fd.len() as int] is ExitCode);
    }
    if e.stderr != a.stderr {
        assert(ds[(fd.len() + ex.len()) as int] is Stderr);
    }
}

/// Where every character shown takes one column, the caret line before
/// trimming has one mark per column: `^` where the two rows differ (a
/// character against another or against nothing), a space where they agree.
pub proof fn lemma_caret_marks_narrow(e: Seq<char>, a: Seq<char>, n: nat)
    requires
        forall|i: int| 0 <= i < e.len() ==> char_width_spec(#[trigger] e[i]) != 2,
        forall|i: int| 0 <= i < a.len() ==> char_width_spec(#[trigger] a[i]) != 2,
    ensures
        caret_marks(e, a, n).len() == n,
        forall|i: int|
            0 <= i < n ==> #[trigger] caret_marks(e, a, n)[i] == if opt_at(e, i) == opt_at(a, i) {
                ' '
            } else {
                '^'
            },
    decreases n,
{
    if n > 0 {
        let m = (n - 1) as nat;
        lemma_caret_marks_narrow(e, a, m);
        let i = m as int;
        let cell = caret_cell(opt_at(e, i), opt_at(a, i));
        let shown = match opt_at(a, i) {
            Some(x) => x,
            None => match opt_at(e, i) {
                Some(y) => y,
                None => ' ',
            },
        };
        if i < a.len() {
            assert(char_width_spec(a[i]) != 2);
        } else if i < e.len() {
            assert(char_width_spec(e[i]) != 2);
        }
        assert(char_width_spec(shown) != 2);
        assert(cell.len() == 1);
        let x = caret_marks(e, a, m);
        assert forall|j: int| 0 <= j < n implies #[trigger] caret_marks(e, a, n)[j] == if opt_at(e, j)
            == opt_at(a, j) {
            ' '
        } else {
            '^'
        } by {
            if j < m {
                assert(caret_marks(e, a, n)[j] == x[j]);
            }
        }
    }
}

} // verus!
