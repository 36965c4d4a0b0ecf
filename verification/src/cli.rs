//! Command-line options: the pure part of the command-line interface.
//!
//! Exit codes follow the diff convention: `0` success / screens identical,
//! `1` a check failed or screens differ, `2` usage or I/O error. Argument
//! parsing is hand-rolled and pure (see [`Opts::parse`]) so it stays
//! unit-testable without spawning a process.

use vstd::prelude::*;
use crate::runner::{RunOutput, stderr_lines, stderr_lines_spec};
use crate::screen::{Screen, clamp_dim, feed_defined, feed_spec, new_term};
use crate::parser::parse_spec;
use crate::snapshot::{Frame, Snapshot, frame_of};
use crate::text::{chars_of, eq_str, parse_usize, push_str, string_from, strings_view, usize_value};

verus! {

pub const DEFAULT_DIR: &'static str = ".ansisnap";

pub const DEFAULT_COLS: usize = 80;

pub const DEFAULT_ROWS: usize = 24;

/// The subcommand.
#[derive(Debug, Clone, Copy, PartialEq, Eq, Structural)]
pub enum Cmd {
    Record,
    Check,
    Render,
    Diff,
    List,
    Help,
    Version,
}

/// Parsed command line, before dispatch.
#[derive(Debug, Clone, PartialEq, Eq)]
pub struct Opts {
    pub command: Cmd,
    /// The snapshot directory.
    pub dir: String,
    pub cols: usize,
    pub rows: usize,
    pub styles: bool,
    pub update: bool,
    pub positional: Vec<String>,
    /// The command after `--` (record only).
    pub child_cmd: Vec<String>,
}

/// Options as values.
pub struct OptsView {
    pub command: Cmd,
    pub dir: Seq<char>,
    pub cols: usize,
    pub rows: usize,
    pub styles: bool,
    pub update: bool,
    pub positional: Seq<Seq<char>>,
    pub child_cmd: Seq<Seq<char>>,
}

impl View for Opts {
    type V = OptsView;

    open spec fn view(&self) -> OptsView {
        OptsView {
            command: self.command,
            dir: self.dir@,
            cols: self.cols,
            rows: self.rows,
            styles: self.styles,
            update: self.update,
            positional: strings_view(self.positional@),
            child_cmd: strings_view(self.child_cmd@),
        }
    }
}

/// The options before any argument is read.
pub open spec fn default_opts(command: Cmd) -> OptsView {
    OptsView {
        command,
        dir: ".ansisnap"@,
        cols: 80,
        rows: 24,
        styles: false,
        update: false,
        positional: seq![],
        child_cmd: seq![],
    }
}

/// The subcommand a first argument names.
pub open spec fn command_of(a: Seq<char>) -> Option<Cmd> {
    if a == "record"@ {
        Some(Cmd::Record)
    } else if a == "check"@ {
        Some(Cmd::Check)
    } else if a == "render"@ {
        Some(Cmd::Render)
    } else if a == "diff"@ {
        Some(Cmd::Diff)
    } else if a == "list"@ {
        Some(Cmd::List)
    } else if a == "help"@ || a == "-h"@ || a == "--help"@ {
        Some(Cmd::Help)
    } else if a == "version"@ || a == "-V"@ || a == "--version"@ {
        Some(Cmd::Version)
    } else {
        None
    }
}

/// The value after the flag at `i`.
pub open spec fn value_after(args: Seq<Seq<char>>, i: nat, flag: Seq<char>) -> Result<Seq<char>, Seq<char>> {
    if i + 1 < args.len() {
        Ok(args[i + 1int])
    } else {
        Err(flag + " needs a value"@)
    }
}

/// The number after the flag at `i`, 1–1000.
pub open spec fn number_after(args: Seq<Seq<char>>, i: nat, flag: Seq<char>) -> Result<usize, Seq<char>> {
    match value_after(args, i, flag) {
        Err(m) => Err(m),
        Ok(v) => match usize_value(v) {
            None => Err(flag + " needs a number, got `"@ + v + "`"@),
            Some(n) => if 1 <= n <= 1000 {
                Ok(n)
            } else {
                Err(flag + " must be between 1 and 1000"@)
            },
        },
    }
}

/// The options after reading the arguments from `i` on.
pub open spec fn parse_from(args: Seq<Seq<char>>, i: nat, o: OptsView) -> Result<OptsView, Seq<char>>
    decreases args.len() - i,
{
    if i >= args.len() {
        Ok(o)
    } else {
        let a = args[i as int];
        if a == "--"@ {
            if o.command != Cmd::Record {
                Err("`--` is only used by `record`"@)
            } else {
                Ok(OptsView { child_cmd: args.skip(i + 1int), ..o })
            }
        } else if a == "--dir"@ {
            match value_after(args, i, "--dir"@) {
                Ok(v) => parse_from(args, i + 2, OptsView { dir: v, ..o }),
                Err(m) => Err(m),
            }
        } else if a == "--cols"@ {
            match number_after(args, i, "--cols"@) {
                Ok(n) => parse_from(args, i + 2, OptsView { cols: n, ..o }),
                Err(m) => Err(m),
            }
        } else if a == "--rows"@ {
            match number_after(args, i, "--rows"@) {
                Ok(n) => parse_from(args, i + 2, OptsView { rows: n, ..o }),
                Err(m) => Err(m),
            }
        } else if a == "--styles"@ {
            parse_from(args, i + 1, OptsView { styles: true, ..o })
        } else if a == "--update"@ {
            parse_from(args, i + 1, OptsView { update: true, ..o })
        } else if a == "-h"@ || a == "--help"@ {
            parse_from(args, i + 1, OptsView { command: Cmd::Help, ..o })
        } else if a == "-V"@ || a == "--version"@ {
            parse_from(args, i + 1, OptsView { command: Cmd::Version, ..o })
        } else if a.len() > 1 && a[0] == '-' {
            Err("unknown option `"@ + a + "` (see --help)"@)
        } else {
            parse_from(args, i + 1, OptsView { positional: o.positional.push(a), ..o })
        }
    }
}

/// What [`Opts::parse`] makes of a command line.
pub open spec fn parse_opts_spec(args: Seq<Seq<char>>) -> Result<OptsView, Seq<char>> {
    if args.len() == 0 {
        Ok(default_opts(Cmd::Help))
    } else {
        match command_of(args[0]) {
            None => Err("unknown command `"@ + args[0] + "` (see --help)"@),
            Some(c) => parse_from(args, 1, default_opts(c)),
        }
    }
}

fn command_named(a: &str) -> (r: Option<Cmd>)
    ensures
        r == command_of(a@),
{
    let cs = chars_of(a);
    let s = cs.as_slice();
    if eq_str(s, "record") {
        Some(Cmd::Record)
    } else if eq_str(s, "check") {
        Some(Cmd::Check)
    } else if eq_str(s, "render") {
        Some(Cmd::Render)
    } else if eq_str(s, "diff") {
        Some(Cmd::Diff)
    } else if eq_str(s, "list") {
        Some(Cmd::List)
    } else if eq_str(s, "help") || eq_str(s, "-h") || eq_str(s, "--help") {
        Some(Cmd::Help)
    } else if eq_str(s, "version") || eq_str(s, "-V") || eq_str(s, "--version") {
        Some(Cmd::Version)
    } else {
        None
    }
}

fn flag_error(flag: &str, tail: &str) -> (m: String)
    ensures
        m@ == flag@ + tail@,
{
    let mut m = string_from(flag);
    push_str(&mut m, tail);
    m
}

/// The value after the flag at `i`.
fn take_value(args: &[String], i: usize, flag: &str) -> (r: Result<String, String>)
    ensures
        match r {
            Ok(v) => value_after(strings_view(args@), i as nat, flag@) == Ok::<Seq<char>, Seq<char>>(v@),
            Err(m) => value_after(strings_view(args@), i as nat, flag@) == Err::<Seq<char>, Seq<char>>(m@),
        },
{
    if i < args.len() && args.len() - i > 1 {
        Ok(args[i + 1].clone())
    } else {
        Err(flag_error(flag, " needs a value"))
    }
}

/// The number after the flag at `i`, 1–1000.
fn take_num(args: &[String], i: usize, flag: &str) -> (r: Result<usize, String>)
    ensures
        match r {
            Ok(n) => number_after(strings_view(args@), i as nat, flag@) == Ok::<usize, Seq<char>>(n),
            Err(m) => number_after(strings_view(args@), i as nat, flag@) == Err::<usize, Seq<char>>(m@),
        },
{
    let v = take_value(args, i, flag)?;
    let cs = chars_of(v.as_str());
    match parse_usize(cs.as_slice()) {
        None => {
            let mut m = flag_error(flag, " needs a number, got `");
            push_str(&mut m, v.as_str());
            push_str(&mut m, "`");
            Err(m)
        },
        Some(n) => if 1 <= n && n <= 1000 {
            Ok(n)
        } else {
            Err(flag_error(flag, " must be between 1 and 1000"))
        },
    }
}

/// The options as values, or the error message.
pub open spec fn opts_result(r: Result<Opts, String>) -> Result<OptsView, Seq<char>> {
    match r {
        Ok(o) => Ok(o@),
        Err(m) => Err(m@),
    }
}

impl Opts {
    /// Pure argument parser. Returns a usage error string on bad input.
    pub fn parse(args: &[String]) -> (r: Result<Opts, String>)
        ensures
            opts_result(r) == parse_opts_spec(strings_view(args@)),
    {
        let ghost av = strings_view(args@);
        let mut opts = Opts {
            command: Cmd::Help,
            dir: string_from(DEFAULT_DIR),
            cols: DEFAULT_COLS,
            rows: DEFAULT_ROWS,
            styles: false,
            update: false,
            positional: Vec::new(),
            child_cmd: Vec::new(),
        };
        assert(strings_view(opts.positional@) =~= seq![]);
        assert(strings_view(opts.child_cmd@) =~= seq![]);
        if args.len() == 0 {
            return Ok(opts);
        }
        opts.command = match command_named(args[0].as_str()) {
            Some(c) => c,
            None => {
                let mut m = string_from("unknown command `");
                push_str(&mut m, args[0].as_str());
                push_str(&mut m, "` (see --help)");
                return Err(m);
            },
        };
        let mut i: usize = 1;
        while i < args.len()
            invariant
                1 <= i <= args.len(),
                av == strings_view(args@),
                parse_opts_spec(av) == parse_from(av, i as nat, opts@),
            decreases args.len() - i,
        {
            let cs = chars_of(args[i].as_str());
            let a = cs.as_slice();
            if eq_str(a, "--") {
                if opts.command != Cmd::Record {
                    return Err(string_from("`--` is only used by `record`"));
                }
                let mut rest: Vec<String> = Vec::new();
                let mut j: usize = i + 1;
                assert(strings_view(rest@) =~= av.subrange(i + 1, i + 1));
                while j < args.len()
                    invariant
                        i + 1 <= j <= args.len(),
                        av == strings_view(args@),
                        strings_view(rest@) == av.subrange(i + 1, j as int),
                    decreases args.len() - j,
                {
                    let ghost before = strings_view(rest@);
                    let s = args[j].clone();
                    rest.push(s);
                    assert(strings_view(rest@) =~= before.push(s@));
                    j += 1;
                    assert(av.subrange(i + 1, j as int) =~= av.subrange(i + 1, j - 1).push(av[j - 1]));
                }
                assert(av.subrange(i + 1, args.len() as int) =~= av.skip(i + 1));
                opts.child_cmd = rest;
                return Ok(opts);
            } else if eq_str(a, "--dir") {
                opts.dir = take_value(args, i, "--dir")?;
                i += 2;
            } else if eq_str(a, "--cols") {
                opts.cols = take_num(args, i, "--cols")?;
                i += 2;
            } else if eq_str(a, "--rows") {
                opts.rows = take_num(args, i, "--rows")?;
                i += 2;
            } else if eq_str(a, "--styles") {
                opts.styles = true;
                i += 1;
            } else if eq_str(a, "--update") {
                opts.update = true;
                i += 1;
            } else if eq_str(a, "-h") || eq_str(a, "--help") {
                opts.command = Cmd::Help;
                i += 1;
            } else if eq_str(a, "-V") || eq_str(a, "--version") {
                opts.command = Cmd::Version;
                i += 1;
            } else if a.len() > 1 && a[0] == '-' {
                let mut m = string_from("unknown option `");
                push_str(&mut m, args[i].as_str());
                push_str(&mut m, "` (see --help)");
                return Err(m);
            } else {
                let ghost before = strings_view(opts.positional@);
                let s = args[i].clone();
                opts.positional.push(s);
                assert(strings_view(opts.positional@) =~= before.push(s@));
                i += 1;
            }
        }
        Ok(opts)
    }
}

/// Characters allowed in a snapshot name.
pub open spec fn name_char(c: char) -> bool {
    ('a' <= c <= 'z') || ('A' <= c <= 'Z') || ('0' <= c <= '9') || c == '.' || c == '_' || c == '-'
}

/// A safe snapshot name: a letter or digit, then letters, digits, `.`, `_`
/// and `-` only.
pub open spec fn name_ok(s: Seq<char>) -> bool {
    &&& s.len() > 0
    &&& (('a' <= s[0] <= 'z') || ('A' <= s[0] <= 'Z') || ('0' <= s[0] <= '9'))
    &&& forall|i: int| 0 <= i < s.len() ==> name_char(#[trigger] s[i])
}

/// The error for a name that is not safe.
pub open spec fn bad_name_msg(s: Seq<char>) -> Seq<char> {
    "invalid snapshot name `"@ + s
        + "` (use letters, digits, `.`, `_`, `-`; must start with a letter or digit)"@
}

/// Snapshot names become file names: restrict them to a safe alphabet so a
/// name can never escape the snapshot directory.
pub fn validate_name(name: &str) -> (r: Result<(), String>)
    ensures
        r is Ok <==> name_ok(name@),
        r matches Err(m) ==> m@ == bad_name_msg(name@),
{
    let cs = chars_of(name);
    let ok_first = cs.len() > 0 && (('a' <= cs[0] && cs[0] <= 'z') || ('A' <= cs[0] && cs[0] <= 'Z')
        || ('0' <= cs[0] && cs[0] <= '9'));
    let mut ok_rest = true;
    let mut i: usize = 0;
    while i < cs.len()
        invariant
            i <= cs.len(),
            cs@ == name@,
            ok_rest == (forall|j: int| 0 <= j < i ==> name_char(#[trigger] cs@[j])),
        decreases cs.len() - i,
    {
        let c = cs[i];
        let good = ('a' <= c && c <= 'z') || ('A' <= c && c <= 'Z') || ('0' <= c && c <= '9') || c
            == '.' || c == '_' || c == '-';
        ok_rest = ok_rest && good;
        i += 1;
    }
    if ok_first && ok_rest {
        Ok(())
    } else {
        let mut m = string_from("invalid snapshot name `");
        push_str(&mut m, name);
        push_str(
            &mut m,
            "` (use letters, digits, `.`, `_`, `-`; must start with a letter or digit)",
        );
        Err(m)
    }
}

/// The snapshot of a finished run of `cmd` on a `cols` x `rows` terminal:
/// its stdout rendered, its stderr reduced to lines, its exit code.
pub fn capture(cmd: &[String], out: &RunOutput, cols: usize, rows: usize) -> (snap: Snapshot)
    requires
        feed_defined(new_term(clamp_dim(cols as nat), clamp_dim(rows as nat)), parse_spec(out.stdout@)),
    ensures
        snap@.cmd == strings_view(cmd@),
        snap@.exit == out.exit,
        frame_of(
            feed_spec(new_term(clamp_dim(cols as nat), clamp_dim(rows as nat)), parse_spec(out.stdout@)),
            snap@.frame,
        ),
        snap@.stderr == stderr_lines_spec(out.stderr@),
{
    let mut screen = Screen::new(cols, rows);
    screen.feed_bytes(out.stdout.as_slice());
    let mut c: Vec<String> = Vec::new();
    let mut i: usize = 0;
    while i < cmd.len()
        invariant
            i <= cmd.len(),
            strings_view(c@) == strings_view(cmd@).take(i as int),
        decreases cmd.len() - i,
    {
        let ghost before = strings_view(c@);
        let s = cmd[i].clone();
        c.push(s);
        assert(strings_view(c@) =~= before.push(s@));
        i += 1;
        assert(strings_view(cmd@).take(i as int) =~= strings_view(cmd@).take(i - 1).push(cmd@[i - 1]@));
    }
    assert(strings_view(cmd@).take(cmd.len() as int) == strings_view(cmd@));
    Snapshot {
        cmd: c,
        exit: out.exit,
        frame: Frame::from_screen(&screen),
        stderr: stderr_lines(out.stderr.as_slice()),
    }
}

/// An accepted snapshot name stays inside the snapshot directory: it holds
/// no path separator and does not start with a dot (so it is neither `.`,
/// `..` nor hidden).
pub proof fn lemma_valid_name_stays_inside(name: Seq<char>)
    requires
        name_ok(name),
    ensures
        name[0] != '.',
        forall|i: int| 0 <= i < name.len() ==> name[i] != '/' && name[i] != '\\',
{
    assert forall|i: int| 0 <= i < name.len() implies name[i] != '/' && name[i] != '\\' by {
        assert(name_char(name[i]));
    }
}

/// A word that is never an option: empty, or not starting with `-`.
pub open spec fn plain_word(w: Seq<char>) -> bool {
    w.len() == 0 || w[0] != '-'
}

proof fn lemma_flags_start_with_dash()
    ensures
        "--"@[0] == '-' && "--dir"@[0] == '-' && "--cols"@[0] == '-' && "--rows"@[0] == '-'
            && "--styles"@[0] == '-' && "--update"@[0] == '-' && "-h"@[0] == '-' && "--help"@[0]
            == '-' && "-V"@[0] == '-' && "--version"@[0] == '-',
{
    reveal_strlit("--");
    reveal_strlit("--dir");
    reveal_strlit("--cols");
    reveal_strlit("--rows");
    reveal_strlit("--styles");
    reveal_strlit("--update");
    reveal_strlit("-h");
    reveal_strlit("--help");
    reveal_strlit("-V");
    reveal_strlit("--version");
}

proof fn lemma_parse_words(args: Seq<Seq<char>>, i: nat, j: nat, o: OptsView)
    requires
        i <= j <= args.len(),
        forall|k: int| i <= k < j ==> plain_word(#[trigger] args[k]),
    ensures
        parse_from(args, i, o) == parse_from(
            args,
            j,
            OptsView { positional: o.positional + args.subrange(i as int, j as int), ..o },
        ),
    decreases j - i,
{
    if i == j {
        assert(o.positional + args.subrange(i as int, j as int) =~= o.positional);
    } else {
        lemma_flags_start_with_dash();
        let a = args[i as int];
        assert(plain_word(a));
        assert(a != "--"@ && a != "--dir"@ && a != "--cols"@ && a != "--rows"@ && a != "--styles"@
            && a != "--update"@ && a != "-h"@ && a != "--help"@ && a != "-V"@ && a != "--version"@) by {
            reveal_strlit("--");
            reveal_strlit("--dir");
            reveal_strlit("--cols");
            reveal_strlit("--rows");
            reveal_strlit("--styles");
            reveal_strlit("--update");
            reveal_strlit("-h");
            reveal_strlit("--help");
            reveal_strlit("-V");
            reveal_strlit("--version");
        }
        let o2 = OptsView { positional: o.positional.push(a), ..o };
        lemma_parse_words(args, i + 1, j, o2);
        assert(o2.positional + args.subrange((i + 1) as int, j as int) =~= o.positional + args.subrange(
            i as int,
            j as int,
        ));
    }
}

/// The options for a subcommand word followed by plain words (none
/// starting with `-`): that subcommand, the words as positionals, every
/// option at its default; for `record`, what follows `--` is the child
/// command, taken as it is, options included.
pub proof fn lemma_opts_words(c: Seq<char>, words: Seq<Seq<char>>, child: Seq<Seq<char>>)
    requires
        forall|k: int| 0 <= k < words.len() ==> plain_word(#[trigger] words[k]),
    ensures
        c == "check"@ ==> parse_opts_spec(seq![c] + words) == Ok::<OptsView, Seq<char>>(
            OptsView {
                command: Cmd::Check,
                dir: ".ansisnap"@,
                cols: 80,
                rows: 24,
                styles: false,
                update: false,
                positional: words,
                child_cmd: seq![],
            },
        ),
        c == "record"@ ==> parse_opts_spec(seq![c] + words + seq!["--"@] + child) == Ok::<
            OptsView,
            Seq<char>,
        >(
            OptsView {
                command: Cmd::Record,
                dir: ".ansisnap"@,
                cols: 80,
                rows: 24,
                styles: false,
                update: false,
                positional: words,
                child_cmd: child,
            },
        ),
{
    reveal_strlit("check");
    reveal_strlit("record");
    reveal_strlit("render");
    reveal_strlit("diff");
    reveal_strlit("list");
    reveal_strlit("help");
    reveal_strlit("version");
    reveal_strlit("-h");
    reveal_strlit("--help");
    reveal_strlit("-V");
    reveal_strlit("--version");
    let d = default_opts(Cmd::Check);
    if c == "check"@ {
        let args = seq![c] + words;
        assert(args[0] == c);
        assert(command_of(c) == Some(Cmd::Check));
        assert forall|k: int| 1 <= k < args.len() implies plain_word(#[trigger] args[k]) by {
            assert(args[k] == words[k - 1]);
        }
        lemma_parse_words(args, 1, args.len(), d);
        assert(args.subrange(1, args.len() as int) =~= words);
        assert(Seq::<Seq<char>>::empty() + words =~= words);
    }
    if c == "record"@ {
        let args = seq![c] + words + seq!["--"@] + child;
        let dr = default_opts(Cmd::Record);
        assert(args[0] == c);
        assert(command_of(c) == Some(Cmd::Record));
        let n = words.len() + 1;
        assert forall|k: int| 1 <= k < n implies plain_word(#[trigger] args[k]) by {
            assert(args[k] == words[k - 1]);
        }
        lemma_parse_words(args, 1, n, dr);
        assert(args.subrange(1, n as int) =~= words);
        assert(Seq::<Seq<char>>::empty() + words =~= words);
        assert(args[n as int] == "--"@);
        assert(args.skip((n + 1) as int) =~= child);
    }
}

/// What [`validate_name`] accepts, on the characters: a nonempty name whose
/// first character is an ASCII letter or digit and whose every character
/// is an ASCII letter, digit, `.`, `_` or `-`.
pub proof fn lemma_validate_name_exact(s: Seq<char>)
    ensures
        name_ok(s) <==> (s.len() > 0 && (('a' <= s[0] <= 'z') || ('A' <= s[0] <= 'Z') || ('0' <= s[0]
            <= '9')) && forall|i: int|
            0 <= i < s.len() ==> ('a' <= #[trigger] s[i] <= 'z') || ('A' <= s[i] <= 'Z') || ('0' <= s[i]
                <= '9') || s[i] == '.' || s[i] == '_' || s[i] == '-'),
{
}

} // verus!
