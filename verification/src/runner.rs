//! What is captured from one run of a command, and how its stderr is
//! reduced to plain text lines.
//!
//! The child itself is started by the program around this library, with a
//! pinned terminal-like environment (`TERM`, `COLUMNS`/`LINES`,
//! `CLICOLOR_FORCE`, `FORCE_COLOR` and the locale set, `NO_COLOR` removed).

use vstd::prelude::*;
use crate::parser::{Action, ActionView, Parser, parse_spec};
use crate::text::{is_ws, string_of, strings_view, trim_end_ws, trim_end_ws_chars};

verus! {

/// Everything captured from one run of the command under test.
#[derive(Debug)]
pub struct RunOutput {
    pub stdout: Vec<u8>,
    pub stderr: Vec<u8>,
    pub exit: i32,
}

/// Exit code reported when the child was killed by a signal (no exit code
/// exists); out of band of every real exit status, and independent of
/// platform signal numbers.
pub const SIGNAL_EXIT: i32 = -1;

/// Lines reading stderr: finished lines, the current line, and whether a
/// carriage return is waiting to restart the current line.
pub struct LineReader {
    pub lines: Seq<Seq<char>>,
    pub cur: Seq<char>,
    pub pending_cr: bool,
}

/// The current line a character is appended to: emptied first when a
/// carriage return is waiting.
pub open spec fn restart(st: LineReader) -> Seq<char> {
    if st.pending_cr {
        seq![]
    } else {
        st.cur
    }
}

/// One action applied to the reader: glyphs (and tabs, as one space) extend
/// the line, `\n` finishes it with trailing blanks trimmed, `\r` waits to
/// overwrite it; every other action is ignored.
pub open spec fn read_step(st: LineReader, a: ActionView) -> LineReader {
    match a {
        ActionView::Print(c) => LineReader { lines: st.lines, cur: restart(st).push(c), pending_cr: false },
        ActionView::Control(b) => if b == 10 {
            LineReader { lines: st.lines.push(trim_end_ws(st.cur)), cur: seq![], pending_cr: false }
        } else if b == 13 {
            LineReader { pending_cr: true, ..st }
        } else if b == 9 {
            LineReader { lines: st.lines, cur: restart(st).push(' '), pending_cr: false }
        } else {
            st
        },
        _ => st,
    }
}

/// The reader after a list of actions.
pub open spec fn read_all(acts: Seq<ActionView>) -> LineReader
    decreases acts.len(),
{
    if acts.len() == 0 {
        LineReader { lines: seq![], cur: seq![], pending_cr: false }
    } else {
        read_step(read_all(acts.drop_last()), acts.last())
    }
}

/// Lines without the empty ones at the end.
pub open spec fn drop_trailing_empty(ls: Seq<Seq<char>>) -> Seq<Seq<char>>
    decreases ls.len(),
{
    if ls.len() > 0 && ls.last().len() == 0 {
        drop_trailing_empty(ls.drop_last())
    } else {
        ls
    }
}

/// What [`stderr_lines`] makes of a byte stream.
pub open spec fn stderr_lines_spec(bytes: Seq<u8>) -> Seq<Seq<char>> {
    let st = read_all(parse_spec(bytes));
    let last = trim_end_ws(st.cur);
    drop_trailing_empty(
        if last.len() > 0 {
            st.lines.push(last)
        } else {
            st.lines
        },
    )
}

/// Reduce a raw stderr byte stream to plain text lines: escape sequences are
/// parsed and dropped, `\r`-overwrites keep only the final state of the line
/// (progress bars on stderr are the norm), trailing blank lines are trimmed.
pub fn stderr_lines(bytes: &[u8]) -> (lines: Vec<String>)
    ensures
        strings_view(lines@) == stderr_lines_spec(bytes@),
{
    let actions = Parser::parse(bytes);
    let ghost acts = parse_spec(bytes@);
    let mut done: Vec<Vec<char>> = Vec::new();
    let mut cur: Vec<char> = Vec::new();
    let mut pending_cr = false;
    let mut i: usize = 0;
    assert(acts.take(0) =~= seq![]);
    assert(done@.map_values(|l: Vec<char>| l@) =~= seq![]);
    while i < actions.len()
        invariant
            i <= actions.len(),
            crate::parser::actions_view(actions@) == acts,
            read_all(acts.take(i as int)) == (LineReader {
                lines: done@.map_values(|l: Vec<char>| l@),
                cur: cur@,
                pending_cr,
            }),
        decreases actions.len() - i,
    {
        assert(acts.take(i + 1).drop_last() == acts.take(i as int));
        assert(acts.take(i + 1).last() == actions@[i as int]@);
        let ghost before = done@.map_values(|l: Vec<char>| l@);
        match &actions[i] {
            Action::Print(c) => {
                if pending_cr {
                    cur = Vec::new();
                    pending_cr = false;
                }
                cur.push(*c);
            },
            Action::Control(b) => {
                if *b == 10 {
                    pending_cr = false;
                    let t = trim_end_ws_chars(cur.as_slice());
                    done.push(t);
                    assert(done@.map_values(|l: Vec<char>| l@) =~= before.push(t@));
                    cur = Vec::new();
                } else if *b == 13 {
                    pending_cr = true;
                } else if *b == 9 {
                    if pending_cr {
                        cur = Vec::new();
                        pending_cr = false;
                    }
                    cur.push(' ');
                }
            },
            _ => {},
        }
        i += 1;
    }
    assert(acts.take(actions.len() as int) == acts);
    let t = trim_end_ws_chars(cur.as_slice());
    if t.len() > 0 {
        let ghost before = done@.map_values(|l: Vec<char>| l@);
        done.push(t);
        assert(done@.map_values(|l: Vec<char>| l@) =~= before.push(t@));
    }
    let ghost all = done@.map_values(|l: Vec<char>| l@);
    let mut n = done.len();
    assert(all.take(n as int) == all);
    while n > 0 && done[n - 1].len() == 0
        invariant
            n <= done.len(),
            all == done@.map_values(|l: Vec<char>| l@),
            drop_trailing_empty(all) == drop_trailing_empty(all.take(n as int)),
        decreases n,
    {
        assert(all.take(n as int).drop_last() == all.take(n - 1));
        assert(all.take(n as int).last() == done@[n - 1]@);
        n -= 1;
    }
    proof {
        if n > 0 {
            assert(all.take(n as int).last() == done@[n - 1]@);
        }
    }
    let mut lines: Vec<String> = Vec::new();
    let mut k: usize = 0;
    while k < n
        invariant
            k <= n <= done.len(),
            all == done@.map_values(|l: Vec<char>| l@),
            strings_view(lines@) == all.take(k as int),
        decreases n - k,
    {
        let ghost before = strings_view(lines@);
        let s = string_of(done[k].as_slice());
        lines.push(s);
        assert(strings_view(lines@) =~= before.push(s@));
        k += 1;
        assert(all.take(k as int) =~= all.take(k - 1).push(all[k - 1]));
    }
    lines
}

proof fn lemma_trim_end_twice(s: Seq<char>)
    ensures
        trim_end_ws(trim_end_ws(s)) == trim_end_ws(s),
    decreases s.len(),
{
    if s.len() > 0 && is_ws(s.last()) {
        lemma_trim_end_twice(s.drop_last());
    }
}

/// Every finished line is already trimmed.
proof fn lemma_read_all_trimmed(acts: Seq<ActionView>)
    ensures
        forall|k: int|
            0 <= k < read_all(acts).lines.len() ==> trim_end_ws(#[trigger] read_all(acts).lines[k])
                == read_all(acts).lines[k],
    decreases acts.len(),
{
    if acts.len() > 0 {
        lemma_read_all_trimmed(acts.drop_last());
        lemma_trim_end_twice(read_all(acts.drop_last()).cur);
    }
}

proof fn lemma_drop_trailing(ls: Seq<Seq<char>>)
    ensures
        drop_trailing_empty(ls).len() <= ls.len(),
        drop_trailing_empty(ls) == ls.take(drop_trailing_empty(ls).len() as int),
        drop_trailing_empty(ls).len() == 0 || drop_trailing_empty(ls).last().len() > 0,
    decreases ls.len(),
{
    if ls.len() > 0 && ls.last().len() == 0 {
        lemma_drop_trailing(ls.drop_last());
        let d = drop_trailing_empty(ls.drop_last());
        assert(ls.drop_last().take(d.len() as int) =~= ls.take(d.len() as int));
    } else {
        assert(ls.take(ls.len() as int) =~= ls);
    }
}

/// What [`stderr_lines`] returns has no trailing blanks on any line and no
/// empty line at the end.
pub proof fn lemma_stderr_lines_trimmed(bytes: Seq<u8>)
    ensures
        forall|k: int|
            0 <= k < stderr_lines_spec(bytes).len() ==> trim_end_ws(#[trigger] stderr_lines_spec(bytes)[k])
                == stderr_lines_spec(bytes)[k],
        stderr_lines_spec(bytes).len() == 0 || stderr_lines_spec(bytes).last().len() > 0,
{
    let st = read_all(parse_spec(bytes));
    lemma_read_all_trimmed(parse_spec(bytes));
    let last = trim_end_ws(st.cur);
    lemma_trim_end_twice(st.cur);
    let all = if last.len() > 0 {
        st.lines.push(last)
    } else {
        st.lines
    };
    assert forall|k: int| 0 <= k < all.len() implies trim_end_ws(#[trigger] all[k]) == all[k] by {
        if k < st.lines.len() {
            assert(all[k] == st.lines[k]);
        }
    }
    lemma_drop_trailing(all);
    let d = drop_trailing_empty(all);
    assert forall|k: int| 0 <= k < d.len() implies trim_end_ws(#[trigger] d[k]) == d[k] by {
        assert(d[k] == all[k]);
    }
}

} // verus!
