//! Byte-fed ANSI/VT escape-sequence tokenizer.
//!
//! A small state machine modeled on the classic DEC-compatible parser
//! (ground / escape / CSI / OSC / DCS states). It is *incremental*: bytes can
//! arrive in arbitrary chunks — an escape sequence or a UTF-8 code point split
//! across two `feed` calls is reassembled correctly. Unknown or malformed
//! sequences are consumed and dropped rather than printed, which is exactly
//! what real terminals do and what keeps snapshots free of garbage.
//!
//! The behaviour is specified byte by byte by [`step_spec`]; [`run_spec`]
//! folds it over a byte sequence, and every exec entry point is proved
//! against those two functions.

use vstd::prelude::*;
use vstd::utf8::*;
use crate::text::{char_utf8_len, utf8_len};

verus! {

/// One CSI parameter. Sub-parameters separated by `:` (e.g. `38:5:196`) are
/// kept together so SGR color forms survive intact instead of being smeared
/// into unrelated attributes.
#[derive(Debug, Clone, PartialEq, Eq)]
pub struct Param(pub Vec<u16>);

impl View for Param {
    type V = Seq<u16>;

    open spec fn view(&self) -> Seq<u16> {
        self.0@
    }
}

/// The primary value of a parameter: its first sub-parameter, `0` when empty.
pub open spec fn param_value(p: Seq<u16>) -> u16 {
    if p.len() > 0 {
        p[0]
    } else {
        0
    }
}

/// The views of a list of parameters.
pub open spec fn params_view(ps: Seq<Param>) -> Seq<Seq<u16>> {
    ps.map_values(|p: Param| p@)
}

impl Param {
    /// The primary value, `0` when the parameter was empty.
    pub fn value(&self) -> (r: u16)
        ensures
            r == param_value(self@),
    {
        if self.0.len() > 0 {
            self.0[0]
        } else {
            0
        }
    }
}

/// A decoded terminal action, ready for `Screen::apply`.
#[derive(Debug, Clone, PartialEq, Eq)]
pub enum Action {
    /// A printable character (already UTF-8 decoded).
    Print(char),
    /// A C0 control byte (BS, HT, LF, CR, ...).
    Control(u8),
    /// A CSI sequence: `ESC [ <private?> <params> <intermediate?> <final>`.
    Csi { private: Option<char>, params: Vec<Param>, intermediate: Option<char>, final_byte: char },
    /// A non-CSI escape: `ESC <intermediate?> <final>` (e.g. `ESC 7`, `ESC M`).
    Esc { intermediate: Option<char>, final_byte: char },
    /// An OSC string (window title etc.). Carried for completeness; the
    /// screen ignores it, so titles never pollute the grid.
    Osc(String),
}

/// The mathematical content of an [`Action`].
pub enum ActionView {
    Print(char),
    Control(u8),
    Csi { private: Option<char>, params: Seq<Seq<u16>>, intermediate: Option<char>, final_byte: char },
    Esc { intermediate: Option<char>, final_byte: char },
    Osc(Seq<char>),
}

impl View for Action {
    type V = ActionView;

    open spec fn view(&self) -> ActionView {
        match self {
            Action::Print(c) => ActionView::Print(*c),
            Action::Control(b) => ActionView::Control(*b),
            Action::Csi { private, params, intermediate, final_byte } => ActionView::Csi {
                private: *private,
                params: params_view(params@),
                intermediate: *intermediate,
                final_byte: *final_byte,
            },
            Action::Esc { intermediate, final_byte } => ActionView::Esc {
                intermediate: *intermediate,
                final_byte: *final_byte,
            },
            Action::Osc(s) => ActionView::Osc(s@),
        }
    }
}

/// The views of a list of actions.
pub open spec fn actions_view(a: Seq<Action>) -> Seq<ActionView> {
    a.map_values(|x: Action| x@)
}

#[derive(Debug, Clone, Copy, PartialEq, Eq)]
pub enum State {
    Ground,
    Escape,
    EscapeIntermediate,
    Csi,
    Osc,
    /// DCS / SOS / PM / APC — consumed until ST, produced as nothing.
    OpaqueString,
}

pub const ESC: u8 = 0x1b;

pub const BEL: u8 = 0x07;

/// Largest OSC payload kept, in UTF-8 bytes; the rest is dropped.
pub const MAX_OSC: usize = 4096;

/// Largest number of CSI parameters kept; later ones are dropped.
pub const MAX_PARAMS: usize = 32;

/// The abstract state of a [`Parser`].
pub struct ParserView {
    pub state: State,
    /// Bytes of a UTF-8 sequence collected so far.
    pub utf8: Seq<u8>,
    /// Continuation bytes still expected.
    pub utf8_need: nat,
    pub private: Option<char>,
    pub intermediate: Option<char>,
    pub params: Seq<Seq<u16>>,
    pub cur: Seq<u16>,
    pub cur_seen: bool,
    pub osc: Seq<char>,
    pub osc_esc: bool,
}

/// The character that a complete sequence of UTF-8 bytes stands for:
/// its scalar when the bytes are one well-formed encoding, otherwise the
/// replacement character U+FFFD.
pub open spec fn utf8_char(bytes: Seq<u8>) -> char {
    if valid_first_scalar(bytes) && length_of_first_scalar(bytes) == bytes.len() {
        decode_first_scalar(bytes) as char
    } else {
        '\u{fffd}'
    }
}

pub open spec fn is_c0_or_del(b: u8) -> bool {
    b <= 0x1f || b == 0x7f
}

/// C0 controls that are forwarded to the screen: all but NUL, BEL and DEL.
pub open spec fn forwarded_control(b: u8) -> Seq<ActionView> {
    if b == BEL || b == 0 || b == 0x7f {
        seq![]
    } else {
        seq![ActionView::Control(b)]
    }
}

/// The initial state.
pub open spec fn initial_parser() -> ParserView {
    ParserView {
        state: State::Ground,
        utf8: seq![],
        utf8_need: 0,
        private: None,
        intermediate: None,
        params: seq![],
        cur: seq![],
        cur_seen: false,
        osc: seq![],
        osc_esc: false,
    }
}

/// Start of an escape sequence: CSI collection state is reset.
pub open spec fn enter_escape_spec(p: ParserView) -> ParserView {
    ParserView {
        state: State::Escape,
        private: None,
        intermediate: None,
        params: seq![],
        cur: seq![],
        cur_seen: false,
        ..p
    }
}

/// Ground-state dispatch of a byte that is not part of a UTF-8 sequence.
pub open spec fn ground_dispatch(p: ParserView, b: u8) -> (ParserView, Seq<ActionView>) {
    if b == ESC {
        (enter_escape_spec(p), seq![])
    } else if is_c0_or_del(b) {
        (p, forwarded_control(b))
    } else if 0x20 <= b <= 0x7e {
        (p, seq![ActionView::Print(b as char)])
    } else if 0xc2 <= b <= 0xdf {
        (ParserView { utf8: seq![b], utf8_need: 1, ..p }, seq![])
    } else if 0xe0 <= b <= 0xef {
        (ParserView { utf8: seq![b], utf8_need: 2, ..p }, seq![])
    } else if 0xf0 <= b <= 0xf4 {
        (ParserView { utf8: seq![b], utf8_need: 3, ..p }, seq![])
    } else {
        (p, seq![ActionView::Print('\u{fffd}')])
    }
}

pub open spec fn step_ground_spec(p: ParserView, b: u8) -> (ParserView, Seq<ActionView>) {
    if p.utf8_need > 0 {
        if 0x80 <= b <= 0xbf {
            let buf = p.utf8.push(b);
            if p.utf8_need == 1 {
                (
                    ParserView { utf8: seq![], utf8_need: 0, ..p },
                    seq![ActionView::Print(utf8_char(buf))],
                )
            } else {
                (ParserView { utf8: buf, utf8_need: (p.utf8_need - 1) as nat, ..p }, seq![])
            }
        } else {
            // Broken sequence: a replacement character, then this byte anew.
            let (q, out) = ground_dispatch(ParserView { utf8: seq![], utf8_need: 0, ..p }, b);
            (q, seq![ActionView::Print('\u{fffd}')] + out)
        }
    } else {
        ground_dispatch(p, b)
    }
}

pub open spec fn step_escape_spec(p: ParserView, b: u8) -> (ParserView, Seq<ActionView>) {
    if b == 0x5b {
        (ParserView { state: State::Csi, ..p }, seq![])
    } else if b == 0x5d {
        (ParserView { state: State::Osc, osc: seq![], osc_esc: false, ..p }, seq![])
    } else if b == 0x50 || b == 0x58 || b == 0x5e || b == 0x5f {
        (ParserView { state: State::OpaqueString, osc_esc: false, ..p }, seq![])
    } else if 0x20 <= b <= 0x2f {
        (ParserView { state: State::EscapeIntermediate, intermediate: Some(b as char), ..p }, seq![])
    } else if b == ESC {
        (enter_escape_spec(p), seq![])
    } else if 0x30 <= b <= 0x7e {
        (
            ParserView { state: State::Ground, ..p },
            seq![ActionView::Esc { intermediate: None, final_byte: b as char }],
        )
    } else {
        (ParserView { state: State::Ground, ..p }, seq![])
    }
}

pub open spec fn step_escape_intermediate_spec(p: ParserView, b: u8) -> (ParserView, Seq<ActionView>) {
    if 0x20 <= b <= 0x2f {
        (p, seq![])
    } else if 0x30 <= b <= 0x7e {
        (
            ParserView { state: State::Ground, ..p },
            seq![ActionView::Esc { intermediate: p.intermediate, final_byte: b as char }],
        )
    } else if b == ESC {
        (enter_escape_spec(p), seq![])
    } else {
        (ParserView { state: State::Ground, ..p }, seq![])
    }
}

/// Closing the parameter being collected: it joins the list unless the list
/// is full already.
pub open spec fn finish_param_spec(p: ParserView) -> ParserView {
    if p.params.len() < MAX_PARAMS {
        ParserView { params: p.params.push(p.cur), cur: seq![], cur_seen: false, ..p }
    } else {
        ParserView { cur: seq![], cur_seen: false, ..p }
    }
}

/// `10 * v + d`, saturating at `u16::MAX`.
pub open spec fn push_digit(v: u16, d: u8) -> u16 {
    if v * 10 + d > 0xffff {
        0xffff
    } else {
        (v * 10 + d) as u16
    }
}

pub open spec fn step_csi_spec(p: ParserView, b: u8) -> (ParserView, Seq<ActionView>) {
    if 0x30 <= b <= 0x39 {
        let cur = if p.cur.len() == 0 { seq![0u16] } else { p.cur };
        let last = cur.last();
        (
            ParserView {
                cur: cur.update(cur.len() - 1, push_digit(last, (b - 0x30) as u8)),
                cur_seen: true,
                ..p
            },
            seq![],
        )
    } else if b == 0x3a {
        (ParserView { cur: p.cur.push(0), cur_seen: true, ..p }, seq![])
    } else if b == 0x3b {
        (finish_param_spec(p), seq![])
    } else if 0x3c <= b <= 0x3f {
        if p.params.len() == 0 && !p.cur_seen {
            (ParserView { private: Some(b as char), ..p }, seq![])
        } else {
            (p, seq![])
        }
    } else if 0x20 <= b <= 0x2f {
        (ParserView { intermediate: Some(b as char), ..p }, seq![])
    } else if 0x40 <= b <= 0x7e {
        let q = finish_param_spec(p);
        (
            ParserView { params: seq![], state: State::Ground, ..q },
            seq![
                ActionView::Csi {
                    private: q.private,
                    params: q.params,
                    intermediate: q.intermediate,
                    final_byte: b as char,
                },
            ],
        )
    } else if b == ESC {
        (enter_escape_spec(p), seq![])
    } else if is_c0_or_del(b) {
        (p, forwarded_control(b))
    } else {
        (ParserView { state: State::Ground, ..p }, seq![])
    }
}

pub open spec fn step_osc_spec(p: ParserView, b: u8) -> (ParserView, Seq<ActionView>) {
    if p.osc_esc {
        if b == 0x5c {
            (
                ParserView { osc_esc: false, osc: seq![], state: State::Ground, ..p },
                seq![ActionView::Osc(p.osc)],
            )
        } else {
            // ESC followed by anything else restarts sequence parsing.
            step_escape_spec(enter_escape_spec(ParserView { osc_esc: false, ..p }), b)
        }
    } else if b == BEL {
        (ParserView { osc: seq![], state: State::Ground, ..p }, seq![ActionView::Osc(p.osc)])
    } else if b == ESC {
        (ParserView { osc_esc: true, ..p }, seq![])
    } else if utf8_len(p.osc) < MAX_OSC {
        (ParserView { osc: p.osc.push(b as char), ..p }, seq![])
    } else {
        (p, seq![])
    }
}

pub open spec fn step_opaque_spec(p: ParserView, b: u8) -> (ParserView, Seq<ActionView>) {
    if p.osc_esc {
        if b == 0x5c {
            (ParserView { osc_esc: false, state: State::Ground, ..p }, seq![])
        } else {
            (ParserView { osc_esc: false, ..p }, seq![])
        }
    } else if b == ESC {
        (ParserView { osc_esc: true, ..p }, seq![])
    } else if b == BEL {
        (ParserView { state: State::Ground, ..p }, seq![])
    } else {
        (p, seq![])
    }
}

/// One byte through the state machine: the new state and the actions it
/// completes.
pub open spec fn step_spec(p: ParserView, b: u8) -> (ParserView, Seq<ActionView>) {
    match p.state {
        State::Ground => step_ground_spec(p, b),
        State::Escape => step_escape_spec(p, b),
        State::EscapeIntermediate => step_escape_intermediate_spec(p, b),
        State::Csi => step_csi_spec(p, b),
        State::Osc => step_osc_spec(p, b),
        State::OpaqueString => step_opaque_spec(p, b),
    }
}

/// A byte sequence through the state machine: the final state and all the
/// actions produced, in order.
pub open spec fn run_spec(p: ParserView, bytes: Seq<u8>) -> (ParserView, Seq<ActionView>)
    decreases bytes.len(),
{
    if bytes.len() == 0 {
        (p, seq![])
    } else {
        let (q, out) = run_spec(p, bytes.drop_last());
        let (r, more) = step_spec(q, bytes.last());
        (r, out + more)
    }
}

/// Everything a complete buffer parses to, from the initial state.
pub open spec fn parse_spec(bytes: Seq<u8>) -> Seq<ActionView> {
    run_spec(initial_parser(), bytes).1
}

/// Invariant of reachable parser states.
pub open spec fn parser_wf(p: ParserView) -> bool {
    &&& p.utf8_need <= 3
    &&& (p.utf8_need > 0 ==> 1 <= p.utf8.len() && p.utf8.len() + p.utf8_need <= 4)
    &&& (p.utf8_need > 0 ==> {
        let n = p.utf8.len() + p.utf8_need;
        &&& (n == 2 ==> 0xc2 <= p.utf8[0] <= 0xdf)
        &&& (n == 3 ==> 0xe0 <= p.utf8[0] <= 0xef)
        &&& (n == 4 ==> 0xf0 <= p.utf8[0] <= 0xf4)
        &&& forall|i: int| 1 <= i < p.utf8.len() ==> 0x80 <= #[trigger] p.utf8[i] <= 0xbf
    })
    &&& p.params.len() <= MAX_PARAMS
    &&& utf8_len(p.osc) <= MAX_OSC + 1
    &&& forall|i: int| 0 <= i < p.osc.len() ==> (#[trigger] p.osc[i] as u32) < 0x100
}

/// Splitting the input never changes what is parsed: feeding `a` and then
/// `b` ends in the same state, with the same actions, as feeding `a + b`.
pub proof fn lemma_run_split(p: ParserView, a: Seq<u8>, b: Seq<u8>)
    ensures
        ({
            let (q, out1) = run_spec(p, a);
            let (r, out2) = run_spec(q, b);
            run_spec(p, a + b) == (r, out1 + out2)
        }),
    decreases b.len(),
{
    if b.len() == 0 {
        assert(a + b == a);
        let (q, out1) = run_spec(p, a);
        assert(out1 + seq![] == out1);
    } else {
        lemma_run_split(p, a, b.drop_last());
        assert((a + b).drop_last() == a + b.drop_last());
        assert((a + b).last() == b.last());
        let (q, out1) = run_spec(p, a);
        let (r1, out2) = run_spec(q, b.drop_last());
        let (r, more) = step_spec(r1, b.last());
        assert(out1 + out2 + more == out1 + (out2 + more));
    }
}

/// Incremental escape-sequence parser. Feed it bytes, collect [`Action`]s.
pub struct Parser {
    state: State,
    utf8: Vec<u8>,
    utf8_need: usize,
    private: Option<char>,
    intermediate: Option<char>,
    params: Vec<Param>,
    cur: Vec<u16>,
    cur_seen: bool,
    osc: String,
    /// UTF-8 byte length of `osc`.
    osc_len: usize,
    osc_esc: bool,
}

impl View for Parser {
    type V = ParserView;

    closed spec fn view(&self) -> ParserView {
        ParserView {
            state: self.state,
            utf8: self.utf8@,
            utf8_need: self.utf8_need as nat,
            private: self.private,
            intermediate: self.intermediate,
            params: params_view(self.params@),
            cur: self.cur@,
            cur_seen: self.cur_seen,
            osc: self.osc@,
            osc_esc: self.osc_esc,
        }
    }
}

impl Parser {
    /// The parser's representation is consistent and its state reachable.
    pub closed spec fn wf(&self) -> bool {
        &&& parser_wf(self@)
        &&& self.osc_len == utf8_len(self.osc@)
    }

    pub fn new() -> (p: Parser)
        ensures
            p.wf(),
            p@ == initial_parser(),
    {
        let p = Parser {
            state: State::Ground,
            utf8: Vec::new(),
            utf8_need: 0,
            private: None,
            intermediate: None,
            params: Vec::new(),
            cur: Vec::new(),
            cur_seen: false,
            osc: String::new(),
            osc_len: 0,
            osc_esc: false,
        };
        assert(p@.params =~= seq![]);
        p
    }

    /// Feed a chunk of bytes and append decoded actions to `out`.
    pub fn feed(&mut self, bytes: &[u8], out: &mut Vec<Action>)
        requires
            old(self).wf(),
        ensures
            final(self).wf(),
            final(self)@ == run_spec(old(self)@, bytes@).0,
            actions_view(final(out)@) == actions_view(old(out)@) + run_spec(old(self)@, bytes@).1,
    {
        let ghost p0 = self@;
        let ghost o0 = actions_view(out@);
        let mut i: usize = 0;
        while i < bytes.len()
            invariant
                i <= bytes.len(),
                self.wf(),
                self@ == run_spec(p0, bytes@.take(i as int)).0,
                actions_view(out@) == o0 + run_spec(p0, bytes@.take(i as int)).1,
            decreases bytes.len() - i,
        {
            let ghost before = actions_view(out@);
            self.step(bytes[i], out);
            proof {
                let t = bytes@.take(i + 1);
                assert(t.drop_last() == bytes@.take(i as int));
                assert(t.last() == bytes@[i as int]);
                let (q, o1) = run_spec(p0, bytes@.take(i as int));
                let (r, more) = step_spec(q, bytes@[i as int]);
                assert(o0 + o1 + more == o0 + (o1 + more));
            }
            i += 1;
        }
        assert(bytes@.take(bytes.len() as int) == bytes@);
    }

    /// Convenience: parse a complete byte buffer in one call.
    pub fn parse(bytes: &[u8]) -> (out: Vec<Action>)
        ensures
            actions_view(out@) == parse_spec(bytes@),
    {
        let mut p = Parser::new();
        let mut out: Vec<Action> = Vec::new();
        p.feed(bytes, &mut out);
        assert(actions_view(Seq::<Action>::empty()) =~= seq![]);
        assert(seq![] + parse_spec(bytes@) == parse_spec(bytes@));
        out
    }

    fn emit(out: &mut Vec<Action>, a: Action)
        ensures
            actions_view(final(out)@) == actions_view(old(out)@).push(a@),
    {
        out.push(a);
        assert(actions_view(out@) =~= actions_view(old(out)@).push(a@));
    }

    fn control(b: u8, out: &mut Vec<Action>)
        ensures
            actions_view(final(out)@) == actions_view(old(out)@) + forwarded_control(b),
    {
        if !(b == BEL || b == 0 || b == 0x7f) {
            Self::emit(out, Action::Control(b));
        } else {
            assert(actions_view(out@) + seq![] == actions_view(out@));
        }
    }

    fn step(&mut self, b: u8, out: &mut Vec<Action>)
        requires
            old(self).wf(),
        ensures
            final(self).wf(),
            final(self)@ == step_spec(old(self)@, b).0,
            actions_view(final(out)@) == actions_view(old(out)@) + step_spec(old(self)@, b).1,
    {
        match self.state {
            State::Ground => self.step_ground(b, out),
            State::Escape => self.step_escape(b, out),
            State::EscapeIntermediate => self.step_escape_intermediate(b, out),
            State::Csi => self.step_csi(b, out),
            State::Osc => self.step_osc(b, out),
            State::OpaqueString => self.step_opaque(b, out),
        }
    }

    fn decode_utf8_buf(buf: &Vec<u8>) -> (c: char)
        requires
            2 <= buf.len() <= 4,
            buf.len() == 2 ==> 0xc2 <= buf[0] <= 0xdf,
            buf.len() == 3 ==> 0xe0 <= buf[0] <= 0xef,
            buf.len() == 4 ==> 0xf0 <= buf[0] <= 0xf4,
            forall|i: int| 1 <= i < buf.len() ==> 0x80 <= #[trigger] buf@[i] <= 0xbf,
        ensures
            c == utf8_char(buf@),
    {
        let b0 = buf[0];
        let b1 = buf[1];
        let n = buf.len();
        let cp: u32;
        if n == 2 {
            cp = (((b0 & 0x1F) as u32) << 6) | ((b1 & 0x3f) as u32);
            assert(cp == codepoint_width_2(b0, b1));
            assert((((b0 & 0x1F) as u32) << 6) | ((b1 & 0x3f) as u32) <= 0x7ff) by (bit_vector);
        } else if n == 3 {
            let b2 = buf[2];
            cp = (((b0 & 0x0F) as u32) << 12) | (((b1 & 0x3f) as u32) << 6) | ((b2 & 0x3f) as u32);
            assert(cp == codepoint_width_3(b0, b1, b2));
            assert((((b0 & 0x0F) as u32) << 12) | (((b1 & 0x3f) as u32) << 6) | ((b2 & 0x3f) as u32)
                <= 0xffff) by (bit_vector);
        } else {
            let b2 = buf[2];
            let b3 = buf[3];
            cp = (((b0 & 0x07) as u32) << 18) | (((b1 & 0x3f) as u32) << 12) | (((b2 & 0x3f) as u32) << 6)
                | ((b3 & 0x3f) as u32);
            assert(cp == codepoint_width_4(b0, b1, b2, b3));
        }
        assert(valid_leading_and_continuation_bytes_first_codepoint(buf@));
        assert(decode_first_codepoint(buf@) == cp);
        assert(length_of_first_codepoint(buf@) == n);
        let long_enough = if n == 2 {
            0x80 <= cp
        } else if n == 3 {
            0x800 <= cp
        } else {
            0x10000 <= cp && cp <= 0x10ffff
        };
        if !long_enough {
            return '\u{fffd}';
        }
        match char::from_u32(cp) {
            Some(c) => {
                proof {
                    vstd::utf8::char_u32_cast(c, cp);
                }
                c
            },
            None => '\u{fffd}',
        }
    }

    fn ground_dispatch(&mut self, b: u8, out: &mut Vec<Action>)
        requires
            old(self).wf(),
            old(self)@.utf8_need == 0,
        ensures
            final(self).wf(),
            final(self)@ == ground_dispatch(old(self)@, b).0,
            actions_view(final(out)@) == actions_view(old(out)@) + ground_dispatch(old(self)@, b).1,
    {
        if b == ESC {
            self.enter_escape();
            assert(actions_view(out@) + seq![] == actions_view(out@));
        } else if b <= 0x1f || b == 0x7f {
            Self::control(b, out);
        } else if 0x20 <= b && b <= 0x7e {
            Self::emit(out, Action::Print(b as char));
        } else if 0xc2 <= b && b <= 0xdf {
            self.start_utf8(b, 1);
            assert(actions_view(out@) + seq![] == actions_view(out@));
        } else if 0xe0 <= b && b <= 0xef {
            self.start_utf8(b, 2);
            assert(actions_view(out@) + seq![] == actions_view(out@));
        } else if 0xf0 <= b && b <= 0xf4 {
            self.start_utf8(b, 3);
            assert(actions_view(out@) + seq![] == actions_view(out@));
        } else {
            Self::emit(out, Action::Print('\u{fffd}'));
        }
    }

    fn step_ground(&mut self, b: u8, out: &mut Vec<Action>)
        requires
            old(self).wf(),
            old(self)@.state == State::Ground,
        ensures
            final(self).wf(),
            final(self)@ == step_ground_spec(old(self)@, b).0,
            actions_view(final(out)@) == actions_view(old(out)@) + step_ground_spec(old(self)@, b).1,
    {
        if self.utf8_need > 0 {
            if 0x80 <= b && b <= 0xbf {
                self.utf8.push(b);
                self.utf8_need -= 1;
                if self.utf8_need == 0 {
                    let c = Self::decode_utf8_buf(&self.utf8);
                    Self::emit(out, Action::Print(c));
                    self.utf8.clear();
                } else {
                    assert(actions_view(out@) + seq![] == actions_view(out@));
                }
                return;
            }
            self.utf8.clear();
            self.utf8_need = 0;
            Self::emit(out, Action::Print('\u{fffd}'));
            let ghost mid = actions_view(out@);
            self.ground_dispatch(b, out);
            proof {
                let p0 = old(self)@;
                let (q, o) = ground_dispatch(ParserView { utf8: seq![], utf8_need: 0, ..p0 }, b);
                assert(actions_view(old(out)@).push(ActionView::Print('\u{fffd}')) + o
                    == actions_view(old(out)@) + (seq![ActionView::Print('\u{fffd}')] + o));
            }
            return;
        }
        self.ground_dispatch(b, out);
    }

    fn start_utf8(&mut self, b: u8, need: usize)
        requires
            old(self).wf(),
            1 <= need <= 3,
            need == 1 ==> 0xc2 <= b <= 0xdf,
            need == 2 ==> 0xe0 <= b <= 0xef,
            need == 3 ==> 0xf0 <= b <= 0xf4,
        ensures
            final(self).wf(),
            final(self)@ == (ParserView { utf8: seq![b], utf8_need: need as nat, ..old(self)@ }),
    {
        self.utf8.clear();
        self.utf8.push(b);
        self.utf8_need = need;
        assert(self.utf8@ =~= seq![b]);
    }

    fn enter_escape(&mut self)
        requires
            old(self).wf(),
        ensures
            final(self).wf(),
            final(self)@ == enter_escape_spec(old(self)@),
    {
        self.state = State::Escape;
        self.private = None;
        self.intermediate = None;
        self.params.clear();
        self.cur.clear();
        self.cur_seen = false;
        assert(self@.params =~= seq![]);
        assert(self@.cur =~= seq![]);
        assert(self@ == enter_escape_spec(old(self)@));
    }

    fn step_escape(&mut self, b: u8, out: &mut Vec<Action>)
        requires
            old(self).wf(),
        ensures
            final(self).wf(),
            final(self)@ == step_escape_spec(old(self)@, b).0,
            actions_view(final(out)@) == actions_view(old(out)@) + step_escape_spec(old(self)@, b).1,
    {
        if b == 0x5b {
            self.state = State::Csi;
        } else if b == 0x5d {
            self.state = State::Osc;
            self.osc = String::new();
            self.osc_len = 0;
            self.osc_esc = false;
        } else if b == 0x50 || b == 0x58 || b == 0x5e || b == 0x5f {
            self.state = State::OpaqueString;
            self.osc_esc = false;
        } else if 0x20 <= b && b <= 0x2f {
            self.intermediate = Some(b as char);
            self.state = State::EscapeIntermediate;
        } else if b == ESC {
            self.enter_escape();
        } else if 0x30 <= b && b <= 0x7e {
            Self::emit(out, Action::Esc { intermediate: None, final_byte: b as char });
            self.state = State::Ground;
            return;
        } else {
            self.state = State::Ground;
        }
        assert(actions_view(out@) + seq![] == actions_view(out@));
    }

    fn step_escape_intermediate(&mut self, b: u8, out: &mut Vec<Action>)
        requires
            old(self).wf(),
            old(self)@.state == State::EscapeIntermediate,
        ensures
            final(self).wf(),
            final(self)@ == step_escape_intermediate_spec(old(self)@, b).0,
            actions_view(final(out)@) == actions_view(old(out)@) + step_escape_intermediate_spec(
                old(self)@,
                b,
            ).1,
    {
        if 0x20 <= b && b <= 0x2f {
            // extra intermediates: keep the first, eat the rest
        } else if 0x30 <= b && b <= 0x7e {
            Self::emit(out, Action::Esc { intermediate: self.intermediate, final_byte: b as char });
            self.state = State::Ground;
            return;
        } else if b == ESC {
            self.enter_escape();
        } else {
            self.state = State::Ground;
        }
        assert(actions_view(out@) + seq![] == actions_view(out@));
    }

    fn finish_param(&mut self)
        requires
            old(self).wf(),
        ensures
            final(self).wf(),
            final(self)@ == finish_param_spec(old(self)@),
    {
        if self.params.len() < MAX_PARAMS {
            let mut taken: Vec<u16> = Vec::new();
            std::mem::swap(&mut taken, &mut self.cur);
            self.params.push(Param(taken));
            assert(self@.params =~= old(self)@.params.push(old(self)@.cur));
        } else {
            self.cur.clear();
        }
        self.cur_seen = false;
        assert(self@.cur =~= seq![]);
        assert(self@ == finish_param_spec(old(self)@));
    }

    fn step_csi(&mut self, b: u8, out: &mut Vec<Action>)
        requires
            old(self).wf(),
            old(self)@.state == State::Csi,
        ensures
            final(self).wf(),
            final(self)@ == step_csi_spec(old(self)@, b).0,
            actions_view(final(out)@) == actions_view(old(out)@) + step_csi_spec(old(self)@, b).1,
    {
        if 0x30 <= b && b <= 0x39 {
            if self.cur.len() == 0 {
                self.cur.push(0);
                assert(self.cur@ =~= seq![0u16]);
            }
            let k = self.cur.len() - 1;
            let last = self.cur[k];
            let v: u32 = (last as u32) * 10 + ((b - 0x30) as u32);
            let nv: u16 = if v > 0xffff {
                0xffff
            } else {
                v as u16
            };
            self.cur.set(k, nv);
            self.cur_seen = true;
        } else if b == 0x3a {
            self.cur.push(0);
            self.cur_seen = true;
        } else if b == 0x3b {
            self.finish_param();
        } else if 0x3c <= b && b <= 0x3f {
            if self.params.len() == 0 && !self.cur_seen {
                self.private = Some(b as char);
            }
        } else if 0x20 <= b && b <= 0x2f {
            self.intermediate = Some(b as char);
        } else if 0x40 <= b && b <= 0x7e {
            self.finish_param();
            let mut params: Vec<Param> = Vec::new();
            std::mem::swap(&mut params, &mut self.params);
            Self::emit(
                out,
                Action::Csi {
                    private: self.private,
                    params,
                    intermediate: self.intermediate,
                    final_byte: b as char,
                },
            );
            self.state = State::Ground;
            assert(self@.params =~= seq![]);
            return;
        } else if b == ESC {
            self.enter_escape();
        } else if b <= 0x1f || b == 0x7f {
            Self::control(b, out);
            return;
        } else {
            self.state = State::Ground;
        }
        assert(actions_view(out@) + seq![] == actions_view(out@));
    }

    fn step_osc(&mut self, b: u8, out: &mut Vec<Action>)
        requires
            old(self).wf(),
            old(self)@.state == State::Osc,
        ensures
            final(self).wf(),
            final(self)@ == step_osc_spec(old(self)@, b).0,
            actions_view(final(out)@) == actions_view(old(out)@) + step_osc_spec(old(self)@, b).1,
    {
        if self.osc_esc {
            self.osc_esc = false;
            if b == 0x5c {
                let mut s = String::new();
                std::mem::swap(&mut s, &mut self.osc);
                self.osc_len = 0;
                Self::emit(out, Action::Osc(s));
                self.state = State::Ground;
                return;
            }
            self.enter_escape();
            self.step_escape(b, out);
            return;
        }
        if b == BEL {
            let mut s = String::new();
            std::mem::swap(&mut s, &mut self.osc);
            self.osc_len = 0;
            Self::emit(out, Action::Osc(s));
            self.state = State::Ground;
            return;
        } else if b == ESC {
            self.osc_esc = true;
        } else if self.osc_len < MAX_OSC {
            let c = b as char;
            self.osc.push(c);
            self.osc_len = self.osc_len + if b < 0x80 {
                1
            } else {
                2
            };
            proof {
                assert(self.osc@.drop_last() == old(self).osc@);
                assert(self.osc@.last() == c);
            }
        }
        assert(actions_view(out@) + seq![] == actions_view(out@));
    }

    fn step_opaque(&mut self, b: u8, out: &mut Vec<Action>)
        requires
            old(self).wf(),
            old(self)@.state == State::OpaqueString,
        ensures
            final(self).wf(),
            final(self)@ == step_opaque_spec(old(self)@, b).0,
            actions_view(final(out)@) == actions_view(old(out)@) + step_opaque_spec(old(self)@, b).1,
    {
        if self.osc_esc {
            self.osc_esc = false;
            if b == 0x5c {
                self.state = State::Ground;
            }
        } else if b == ESC {
            self.osc_esc = true;
        } else if b == BEL {
            self.state = State::Ground;
        }
        assert(actions_view(out@) + seq![] == actions_view(out@));
    }
}

impl Default for Parser {
    fn default() -> (p: Parser)
        ensures
            p.wf(),
            p@ == initial_parser(),
    {
        Self::new()
    }
}

// ---------------------------------------------------------------------------
// Text reads as text.
// ---------------------------------------------------------------------------

/// One `Print` per character, in order.
pub open spec fn printed(cs: Seq<char>) -> Seq<ActionView>
    decreases cs.len(),
{
    if cs.len() == 0 {
        seq![]
    } else {
        seq![ActionView::Print(cs[0])] + printed(cs.drop_first())
    }
}

/// A character that is printed as it is: not a C0 control, not DEL.
pub open spec fn prints(c: char) -> bool {
    (c as u32) >= 0x20 && (c as u32) != 0x7f
}

/// Between characters: in the ground state with no partial UTF-8 sequence.
pub open spec fn at_char_boundary(p: ParserView) -> bool {
    &&& p.state == State::Ground
    &&& p.utf8_need == 0
    &&& p.utf8 == Seq::<u8>::empty()
}

pub proof fn lemma_run_snoc(p: ParserView, s: Seq<u8>, b: u8)
    ensures
        run_spec(p, s.push(b)) == (
            step_spec(run_spec(p, s).0, b).0,
            run_spec(p, s).1 + step_spec(run_spec(p, s).0, b).1,
        ),
{
    assert(s.push(b).drop_last() =~= s);
}

proof fn lemma_continuation(x: u32)
    ensures
        0x80 <= 0x80 | (x & 0x3f) as u8 <= 0xbf,
{
    let y = (x & 0x3f) as u8;
    assert(y <= 0x3f) by (bit_vector)
        requires
            y == (x & 0x3f) as u8,
    ;
    assert(0x80 <= 0x80 | y <= 0xbf) by (bit_vector)
        requires
            y <= 0x3f,
    ;
}

/// The bytes of one printable character take the parser from one character
/// boundary to the next and print exactly that character.
proof fn lemma_run_char(p: ParserView, c: char)
    requires
        at_char_boundary(p),
        prints(c),
    ensures
        run_spec(p, encode_scalar(c as u32)).1 == seq![ActionView::Print(c)],
        at_char_boundary(run_spec(p, encode_scalar(c as u32)).0),
{
    let v = c as u32;
    char_is_scalar(c);
    char_u32_cast(c, v);
    let e = encode_scalar(v);
    assert(encode_utf8(seq![c]) =~= e) by {
        assert(seq![c].drop_first() =~= Seq::<char>::empty());
        assert(encode_utf8(Seq::<char>::empty()) =~= Seq::<u8>::empty());
        assert(seq![c][0] == c);
    }
    encode_utf8_first_scalar(seq![c]);
    let e0 = Seq::<u8>::empty();
    assert(run_spec(p, e0) == (p, Seq::<ActionView>::empty()));
    if has_width_1_encoding(v) {
        let b = leading_byte_width_1(v);
        assert(b as u32 == v) by (bit_vector)
            requires
                v <= 0x7f,
                b == (v & 0x7f) as u8,
        ;
        assert(e =~= e0.push(b));
        lemma_run_snoc(p, e0, b);
        assert((b as char) as u32 == b as u32);
        char_u32_cast(b as char, v);
    } else if has_width_2_encoding(v) {
        let b1 = leading_byte_width_2(v);
        let b2 = last_continuation_byte(v);
        assert(0xc2 <= b1 <= 0xdf) by (bit_vector)
            requires
                0x80 <= v <= 0x7ff,
                b1 == 0xC0 | ((v >> 6) & 0x1F) as u8,
        ;
        lemma_continuation(v);
        assert(e =~= e0.push(b1).push(b2));
        lemma_run_snoc(p, e0, b1);
        lemma_run_snoc(p, e0.push(b1), b2);
        assert(seq![b1].push(b2) =~= e);
    } else if has_width_3_encoding(v) {
        let b1 = leading_byte_width_3(v);
        let b2 = second_last_continuation_byte(v);
        let b3 = last_continuation_byte(v);
        assert(0xe0 <= b1 <= 0xef) by (bit_vector)
            requires
                b1 == 0xE0 | ((v >> 12) & 0x0F) as u8,
        ;
        lemma_continuation(v >> 6);
        lemma_continuation(v);
        assert(e =~= e0.push(b1).push(b2).push(b3));
        lemma_run_snoc(p, e0, b1);
        lemma_run_snoc(p, e0.push(b1), b2);
        lemma_run_snoc(p, e0.push(b1).push(b2), b3);
        assert(seq![b1].push(b2).push(b3) =~= e);
    } else {
        let b1 = leading_byte_width_4(v);
        let b2 = third_last_continuation_byte(v);
        let b3 = second_last_continuation_byte(v);
        let b4 = last_continuation_byte(v);
        assert(0xf0 <= b1 <= 0xf4) by (bit_vector)
            requires
                0x10000 <= v <= 0x10FFFF,
                b1 == 0xF0 | ((v >> 18) & 0x7) as u8,
        ;
        lemma_continuation(v >> 12);
        lemma_continuation(v >> 6);
        lemma_continuation(v);
        assert(e =~= e0.push(b1).push(b2).push(b3).push(b4));
        lemma_run_snoc(p, e0, b1);
        lemma_run_snoc(p, e0.push(b1), b2);
        lemma_run_snoc(p, e0.push(b1).push(b2), b3);
        lemma_run_snoc(p, e0.push(b1).push(b2).push(b3), b4);
        assert(seq![b1].push(b2).push(b3).push(b4) =~= e);
    }
}

pub proof fn lemma_run_printable(p: ParserView, cs: Seq<char>)
    requires
        at_char_boundary(p),
        forall|i: int| 0 <= i < cs.len() ==> prints(#[trigger] cs[i]),
    ensures
        run_spec(p, encode_utf8(cs)).1 == printed(cs),
        at_char_boundary(run_spec(p, encode_utf8(cs)).0),
    decreases cs.len(),
{
    if cs.len() == 0 {
        assert(encode_utf8(cs) =~= Seq::<u8>::empty());
    } else {
        let c = cs[0];
        let rest = cs.drop_first();
        let a = encode_scalar(c as u32);
        let b = encode_utf8(rest);
        assert(encode_utf8(cs) == a + b);
        lemma_run_char(p, c);
        let q = run_spec(p, a).0;
        assert forall|i: int| 0 <= i < rest.len() implies prints(#[trigger] rest[i]) by {
            assert(rest[i] == cs[i + 1]);
        }
        lemma_run_printable(q, rest);
        lemma_run_split(p, a, b);

    }
}

/// Text reads as text: the UTF-8 bytes of any string of printable
/// characters (no C0 control, no DEL; any width of encoding) parse to
/// exactly one `Print` of each character, in order.
pub proof fn lemma_parse_printable_text(cs: Seq<char>)
    requires
        forall|i: int| 0 <= i < cs.len() ==> prints(#[trigger] cs[i]),
    ensures
        parse_spec(encode_utf8(cs)) == printed(cs),
{
    lemma_run_printable(initial_parser(), cs);
}

// ---------------------------------------------------------------------------
// CSI parameters read as numbers.
// ---------------------------------------------------------------------------

/// The ASCII decimal digits of `v`, without leading zeros.
pub open spec fn digits(v: nat) -> Seq<u8>
    decreases v,
{
    if v < 10 {
        seq![(0x30 + v) as u8]
    } else {
        digits(v / 10).push((0x30 + v % 10) as u8)
    }
}

/// Reading the digits of `v` inside a CSI sequence, from an empty current
/// parameter, makes `v` the current parameter.
proof fn lemma_run_digits(p: ParserView, v: nat)
    requires
        p.state == State::Csi,
        p.cur == Seq::<u16>::empty(),
        v <= 0xffff,
    ensures
        run_spec(p, digits(v)).1 == Seq::<ActionView>::empty(),
        run_spec(p, digits(v)).0 == (ParserView { cur: seq![v as u16], cur_seen: true, ..p }),
    decreases v,
{
    if v < 10 {
        lemma_run_snoc(p, Seq::<u8>::empty(), (0x30 + v) as u8);
        assert(Seq::<u8>::empty().push((0x30 + v) as u8) =~= digits(v));
        assert(seq![0u16].update(0, push_digit(0, v as u8)) =~= seq![v as u16]);
    } else {
        lemma_run_digits(p, v / 10);
        lemma_run_snoc(p, digits(v / 10), (0x30 + v % 10) as u8);
        let q = run_spec(p, digits(v / 10)).0;
        assert(q.cur == seq![(v / 10) as u16]);
        assert(push_digit((v / 10) as u16, (v % 10) as u8) == v as u16);
        assert(q.cur.update(0, push_digit((v / 10) as u16, (v % 10) as u8)) =~= seq![v as u16]);
    }
}

/// CSI parameters are read as decimal numbers: `ESC [ a ; b F` (with `F` a
/// final byte) is one CSI action with the parameters `a` and `b`, and
/// `ESC [ a F` one with the parameter `a`.
pub proof fn lemma_parse_csi_params(a: nat, b: nat, f: u8)
    requires
        a <= 0xffff,
        b <= 0xffff,
        0x40 <= f <= 0x7e,
    ensures
        parse_spec(seq![0x1bu8, 0x5bu8] + digits(a) + seq![0x3bu8] + digits(b) + seq![f]) == seq![
            ActionView::Csi {
                private: None,
                params: seq![seq![a as u16], seq![b as u16]],
                intermediate: None,
                final_byte: f as char,
            },
        ],
        parse_spec(seq![0x1bu8, 0x5bu8] + digits(a) + seq![f]) == seq![
            ActionView::Csi {
                private: None,
                params: seq![seq![a as u16]],
                intermediate: None,
                final_byte: f as char,
            },
        ],
{
    let p0 = initial_parser();
    let head = seq![0x1bu8, 0x5bu8];
    lemma_run_snoc(p0, Seq::<u8>::empty(), 0x1bu8);
    assert(Seq::<u8>::empty().push(0x1bu8) =~= seq![0x1bu8]);
    lemma_run_snoc(p0, seq![0x1bu8], 0x5bu8);
    assert(seq![0x1bu8].push(0x5bu8) =~= head);
    let p1 = run_spec(p0, head).0;
    assert(run_spec(p0, head).1 =~= Seq::<ActionView>::empty());
    assert(p1 == ParserView { state: State::Csi, ..enter_escape_spec(p0) });
    lemma_run_digits(p1, a);
    let p2 = run_spec(p1, digits(a)).0;
    lemma_run_split(p0, head, digits(a));
    // `;` closes the first parameter.
    let p3 = finish_param_spec(p2);
    assert(p3.params == seq![seq![a as u16]]);
    lemma_run_snoc(p2, Seq::<u8>::empty(), 0x3bu8);
    assert(Seq::<u8>::empty().push(0x3bu8) =~= seq![0x3bu8]);
    lemma_run_split(p0, head + digits(a), seq![0x3bu8]);
    let p4 = ParserView { cur: Seq::<u16>::empty(), cur_seen: false, params: seq![seq![a as u16]], ..p2 };
    assert(run_spec(p2, seq![0x3bu8]).0 == p4);
    lemma_run_digits(p4, b);
    lemma_run_split(p0, head + digits(a) + seq![0x3bu8], digits(b));
    let p5 = run_spec(p4, digits(b)).0;
    lemma_run_snoc(p5, Seq::<u8>::empty(), f);
    assert(Seq::<u8>::empty().push(f) =~= seq![f]);
    lemma_run_split(p0, head + digits(a) + seq![0x3bu8] + digits(b), seq![f]);
    assert(finish_param_spec(p5).params =~= seq![seq![a as u16], seq![b as u16]]);
    // One parameter.
    lemma_run_snoc(p2, Seq::<u8>::empty(), f);
    lemma_run_split(p0, head + digits(a), seq![f]);
    assert(finish_param_spec(p2).params =~= seq![seq![a as u16]]);
}

} // verus!
