//! The YANG tokenizer and statement parser (RFC 7950, section 6): keywords
//! with an optional prefix, unquoted and quoted arguments with escapes,
//! line folding and `+` concatenation, comments, and nested statements.
//!
//! The input is the file's contents, read line by line as `read_until(b'\n')`
//! would read it, followed by the error that ended reading, if any.  Each line
//! is held with a NUL byte after it; a NUL byte ends a line early.

use vstd::prelude::*;
use crate::atoms::{AtomTable, Atom, spec_intern, spec_table_wf, lemma_intern};
use crate::errors::{YangErrorCtx, ErrorRecord, spec_stored_msg, report_msg, yang_add_err_msg_rs};
use crate::text::{push_str, push_bytes, byte_as_char, spec_byte_as_char, bytes_eq, lossy_utf8};
use crate::if_feature::{spec_is_identifier1, spec_is_identifier2, is_identifier1, is_identifier2};
use vstd::string::StringSliceAdditionalSpecFns;
use vstd::utf8::valid_utf8;

verus! {

pub const YANG_VERSION_1: i8 = 1;
pub const YANG_VERSION_1_1: i8 = 2;

pub const YANG_ERR_PARSE_EOF: i32 = 100;
pub const YANG_ERR_PARSE_FOPEN: i32 = 102;
pub const YANG_ERR_PARSE_BAD_KEYWORD: i32 = 103;
pub const YANG_ERR_PARSE_EXPECTED_SEPARATOR: i32 = 104;
pub const YANG_ERR_PARSE_EXPECTED_STRING: i32 = 105;
pub const YANG_ERR_PARSE_INCOMPLETE_STATEMENT: i32 = 106;
pub const YANG_ERR_PARSE_EXPECTED_QUOTED_STRING: i32 = 107;
pub const YANG_ERR_PARSE_TRAILING_GARBAGE: i32 = 108;
pub const YANG_ERR_PARSE_ILLEGAL_ESCAPE: i32 = 109;
pub const YANG_WARN_PARSE_ILLEGAL_ESCAPE: i32 = 1000;

/// The largest input the parser takes, so that line and column numbers fit.
pub const MAX_INPUT: usize = 0x7fff_0000;

/// What the parser reads, as values.
pub struct Inp {
    pub data: Seq<u8>,
    pub read_error: Option<Seq<u8>>,
    pub filename: Option<Seq<u8>>,
    pub msg_cap: usize,
}

/// The tokenizer's state: where the next line starts, the line number, the
/// current line with its NUL, the position in it, whether the end of input
/// is expected, the YANG version seen so far, and the errors reported.
pub struct TokState {
    pub next: int,
    pub line: int,
    pub buf: Seq<u8>,
    pub p: int,
    pub expect_eof: bool,
    pub yang_version: i8,
    pub errs: Seq<ErrorRecord>,
}

/// The state is consistent: positions within the input and the line.
pub open spec fn wf(inp: Inp, s: TokState) -> bool {
    &&& 0 <= s.next <= inp.data.len()
    &&& 0 <= s.line <= s.next
    &&& 1 <= s.buf.len() <= s.next + 1
    &&& s.buf.last() == 0u8
    &&& 0 <= s.p < s.buf.len()
    &&& inp.data.len() <= MAX_INPUT
    &&& inp.msg_cap >= 1
}

/// How far into the input the position is: the start of the current line
/// plus the position in it.
pub open spec fn abs_pos(s: TokState) -> int {
    s.next - (s.buf.len() - 1) + s.p
}

/// The byte at `i` of the current line, NUL past its end.
pub open spec fn spec_at(s: TokState, i: int) -> u8 {
    if 0 <= i < s.buf.len() {
        s.buf[i]
    } else {
        0u8
    }
}

pub open spec fn spec_cur(s: TokState) -> u8 {
    spec_at(s, s.p)
}

/// The column reported for position `p`.
pub open spec fn col_of(p: int) -> i32 {
    (p + 1) as i32
}

/// Reports `msg` at the current line, unless it holds a NUL byte.
pub open spec fn spec_report(inp: Inp, s: TokState, code: i32, col: i32, msg: Seq<u8>) -> TokState {
    if msg.contains(0u8) {
        s
    } else {
        TokState {
            errs: s.errs.push(
                ErrorRecord {
                    code,
                    filename: inp.filename,
                    line: s.line as i32,
                    col,
                    msg: spec_stored_msg(msg, inp.msg_cap),
                },
            ),
            ..s
        }
    }
}

/// The position after the line that starts at `from`: after its line feed, or the end.
pub open spec fn line_end(data: Seq<u8>, from: int) -> int
    decreases data.len() - from,
{
    if from >= data.len() {
        data.len() as int
    } else if data[from] == 10 {
        from + 1
    } else {
        line_end(data, from + 1)
    }
}

/// Reading the next line: it becomes the current line, with a NUL after it.
/// At the end of input: the error that ended reading is reported if there
/// was one, else a premature end unless the end is expected.
pub open spec fn spec_readline(inp: Inp, s: TokState) -> (bool, TokState) {
    if s.next >= inp.data.len() {
        match inp.read_error {
            Some(e) => (false, spec_report(inp, s, YANG_ERR_PARSE_EOF, -1i32, e)),
            None => if !s.expect_eof {
                (false, spec_report(inp, s, YANG_ERR_PARSE_EOF, -1i32, "premature end of file".spec_bytes()))
            } else {
                (false, s)
            },
        }
    } else {
        let e = line_end(inp.data, s.next);
        (true, TokState {
            next: e,
            line: s.line + 1,
            buf: inp.data.subrange(s.next, e).push(0u8),
            p: 0,
            ..s
        })
    }
}

pub open spec fn spec_is_wspace_lf(b: u8) -> bool {
    b == 32 || b == 9 || b == 10
}

/// A space.
pub fn is_space(b: u8) -> (r: bool)
    ensures
        r == (b == 32),
{
    b == 32
}

/// White space within a line: space or tab.
pub fn is_wspace(b: u8) -> (r: bool)
    ensures
        r == (b == 32 || b == 9),
{
    is_space(b) || b == 9
}

/// White space or a line feed.
pub fn is_wspace_lf(b: u8) -> (r: bool)
    ensures
        r == spec_is_wspace_lf(b),
{
    is_wspace(b) || b == 10
}

pub open spec fn spec_is_crlf_at(s: TokState, pos: int) -> bool {
    spec_at(s, pos) == 13 && spec_at(s, pos + 1) == 10
}

/// Inside a block comment: the position of the NUL or of the byte after `*/`.
pub open spec fn spec_comment_scan(s: TokState) -> TokState
    decreases s.buf.len() - s.p,
{
    if spec_cur(s) == 0 || !(0 <= s.p < s.buf.len()) {
        s
    } else if spec_cur(s) == 42 && spec_at(s, s.p + 1) == 47 {
        TokState { p: s.p + 2, ..s }
    } else {
        spec_comment_scan(TokState { p: s.p + 1, ..s })
    }
}

/// The rest of a block comment, reading lines as needed; `false` at the end of input.
pub open spec fn spec_skip_comment(inp: Inp, s: TokState) -> (bool, TokState)
    decreases inp.data.len() - s.next,
{
    let s1 = spec_comment_scan(s);
    if spec_cur(s1) == 0 {
        let (ok, s2) = spec_readline(inp, s1);
        if !ok {
            (false, s2)
        } else if s2.next > s.next && s2.next <= inp.data.len() {
            spec_skip_comment(inp, s2)
        } else {
            (false, s2)
        }
    } else {
        (true, s1)
    }
}

/// `a` lies no earlier in the input than `b`.
pub open spec fn not_behind(a: TokState, b: TokState) -> bool {
    &&& a.next > b.next || (a.next == b.next && a.buf == b.buf && a.p >= b.p)
    &&& errs_grow(a, b)
}

/// The errors of `a` are those of `b` and maybe more after them.
pub open spec fn errs_grow(a: TokState, b: TokState) -> bool {
    &&& b.errs.len() <= a.errs.len()
    &&& forall|i: int| 0 <= i < b.errs.len() ==> #[trigger] a.errs[i] == b.errs[i]
}

/// `a` lies strictly further into the input than `b`.
pub open spec fn further(a: TokState, b: TokState) -> bool {
    a.next > b.next || (a.next == b.next && a.buf == b.buf && a.p > b.p && a.p <= a.buf.len())
}

/// Skips white space, line breaks and comments; `false` at the end of input.
pub open spec fn spec_skip(inp: Inp, s: TokState) -> (bool, TokState)
    decreases inp.data.len() - s.next, s.buf.len() - s.p,
{
    let c = spec_cur(s);
    if c == 0 {
        let (ok, s1) = spec_readline(inp, s);
        if !ok {
            (false, s1)
        } else if s1.next > s.next && s1.next <= inp.data.len() {
            spec_skip(inp, s1)
        } else {
            (false, s1)
        }
    } else if spec_is_wspace_lf(c) || spec_is_crlf_at(s, s.p) {
        if 0 <= s.p < s.buf.len() {
            spec_skip(inp, TokState { p: s.p + 1, ..s })
        } else {
            (false, s)
        }
    } else if c == 47 {
        let n = spec_at(s, s.p + 1);
        if n == 47 {
            let (ok, s1) = spec_readline(inp, s);
            if !ok {
                (false, s1)
            } else if s1.next > s.next && s1.next <= inp.data.len() {
                spec_skip(inp, s1)
            } else {
                (false, s1)
            }
        } else if n == 42 {
            let (ok, s1) = spec_skip_comment(inp, TokState { p: s.p + 2, ..s });
            if !ok {
                (false, s1)
            } else if further(s1, s) && s1.next <= inp.data.len() {
                spec_skip(inp, s1)
            } else {
                (false, s1)
            }
        } else {
            (true, s)
        }
    } else {
        (true, s)
    }
}

/// A token separator starts at `pos`.
pub open spec fn spec_looking_at_separator(s: TokState, pos: int) -> bool {
    let c = spec_at(s, pos);
    if c == 0 {
        false
    } else if spec_is_wspace_lf(c) || c == 59 || c == 123 || spec_is_crlf_at(s, pos) {
        true
    } else {
        c == 47 && (spec_at(s, pos + 1) == 47 || spec_at(s, pos + 1) == 42)
    }
}


proof fn lemma_line_end(data: Seq<u8>, from: int)
    requires
        0 <= from < data.len(),
    ensures
        from < line_end(data, from) <= data.len(),
    decreases data.len() - from,
{
    if data[from] != 10 {
        if from + 1 < data.len() {
            lemma_line_end(data, from + 1);
        } else {
            assert(line_end(data, from + 1) == data.len());
        }
    }
}

/// Reading a line keeps the state consistent and moves into the input.
pub proof fn lemma_readline(inp: Inp, s: TokState)
    requires
        wf(inp, s),
    ensures
        wf(inp, spec_readline(inp, s).1),
        spec_readline(inp, s).0 ==> spec_readline(inp, s).1.next > s.next,
        spec_readline(inp, s).0 ==> spec_readline(inp, s).1.p == 0,
        !spec_readline(inp, s).0 ==> spec_readline(inp, s).1.next == s.next
            && spec_readline(inp, s).1.buf == s.buf && spec_readline(inp, s).1.p == s.p
            && spec_readline(inp, s).1.line == s.line,
        spec_readline(inp, s).1.expect_eof == s.expect_eof,
        spec_readline(inp, s).1.yang_version == s.yang_version,
        spec_readline(inp, s).1.errs.len() >= s.errs.len(),
        errs_grow(spec_readline(inp, s).1, s),
        abs_pos(spec_readline(inp, s).1) >= abs_pos(s),
        spec_readline(inp, s).1.line >= s.line,
{
    if s.next < inp.data.len() {
        lemma_line_end(inp.data, s.next);
    }
}

proof fn lemma_comment_scan(inp: Inp, s: TokState)
    requires
        wf(inp, s),
    ensures
        wf(inp, spec_comment_scan(s)),
        spec_comment_scan(s).next == s.next,
        spec_comment_scan(s).buf == s.buf,
        spec_comment_scan(s).line == s.line,
        spec_comment_scan(s).errs == s.errs,
        spec_comment_scan(s).expect_eof == s.expect_eof,
        spec_comment_scan(s).yang_version == s.yang_version,
        spec_comment_scan(s).p >= s.p,
        spec_comment_scan(s).p > s.p || spec_cur(spec_comment_scan(s)) == 0,
        spec_cur(spec_comment_scan(s)) != 0 ==> spec_comment_scan(s).p >= s.p + 2,
        abs_pos(spec_comment_scan(s)) >= abs_pos(s),
    decreases s.buf.len() - s.p,
{
    if spec_cur(s) == 0 || !(0 <= s.p < s.buf.len()) {
    } else if spec_cur(s) == 42 && spec_at(s, s.p + 1) == 47 {
    } else {
        lemma_comment_scan(inp, TokState { p: s.p + 1, ..s });
    }
}

/// The rest of a block comment ends further into the input.
pub proof fn lemma_skip_comment(inp: Inp, s: TokState)
    requires
        wf(inp, s),
    ensures
        wf(inp, spec_skip_comment(inp, s).1),
        spec_skip_comment(inp, s).0 ==> (spec_skip_comment(inp, s).1.next > s.next || (
        spec_skip_comment(inp, s).1.next == s.next && spec_skip_comment(inp, s).1.buf == s.buf
            && spec_skip_comment(inp, s).1.p >= s.p + 2)),
        spec_skip_comment(inp, s).1.next >= s.next,
        not_behind(spec_skip_comment(inp, s).1, s),
        abs_pos(spec_skip_comment(inp, s).1) >= abs_pos(s),
        spec_skip_comment(inp, s).1.line >= s.line,
        spec_skip_comment(inp, s).1.expect_eof == s.expect_eof,
        spec_skip_comment(inp, s).1.yang_version == s.yang_version,
    decreases inp.data.len() - s.next,
{
    lemma_comment_scan(inp, s);
    let s1 = spec_comment_scan(s);
    if spec_cur(s1) == 0 {
        lemma_readline(inp, s1);
        let (ok, s2) = spec_readline(inp, s1);
        if ok {
            lemma_skip_comment(inp, s2);
        }
    }
}

/// Skipping keeps the state consistent and never moves backwards; when it
/// succeeds the current byte is the start of a token.
pub proof fn lemma_skip(inp: Inp, s: TokState)
    requires
        wf(inp, s),
    ensures
        wf(inp, spec_skip(inp, s).1),
        not_behind(spec_skip(inp, s).1, s),
        abs_pos(spec_skip(inp, s).1) >= abs_pos(s),
        spec_skip(inp, s).1.line >= s.line,
        spec_skip(inp, s).0 ==> spec_cur(spec_skip(inp, s).1) != 0,
        spec_skip(inp, s).0 ==> spec_skip(inp, s).1.p < spec_skip(inp, s).1.buf.len(),
        spec_skip(inp, s).1.expect_eof == s.expect_eof,
        spec_skip(inp, s).1.yang_version == s.yang_version,
    decreases inp.data.len() - s.next, s.buf.len() - s.p,
{
    let c = spec_cur(s);
    if c == 0 {
        lemma_readline(inp, s);
        let (ok, s1) = spec_readline(inp, s);
        if ok {
            lemma_skip(inp, s1);
        }
    } else if spec_is_wspace_lf(c) || spec_is_crlf_at(s, s.p) {
        lemma_skip(inp, TokState { p: s.p + 1, ..s });
    } else if c == 47 {
        let n = spec_at(s, s.p + 1);
        if n == 47 {
            lemma_readline(inp, s);
            let (ok, s1) = spec_readline(inp, s);
            if ok {
                lemma_skip(inp, s1);
            }
        } else if n == 42 {
            let s0 = TokState { p: s.p + 2, ..s };
            lemma_skip_comment(inp, s0);
            let (ok, s1) = spec_skip_comment(inp, s0);
            if ok {
                lemma_skip(inp, s1);
            }
        }
    }
}

/// The tokenizer: the input, the current line and the state of reading.
pub struct Toks<'a> {
    pub data: &'a [u8],
    pub read_error: &'a Option<Vec<u8>>,
    pub filename: &'a Option<Vec<u8>>,
    pub next: usize,
    pub line: i32,
    pub buf: Vec<u8>,
    pub p: usize,
    pub expect_eof: bool,
    pub yang_version: i8,
}

pub open spec fn opt_view(o: Option<Vec<u8>>) -> Option<Seq<u8>> {
    match o {
        Some(v) => Some(v@),
        None => None,
    }
}

impl<'a> Toks<'a> {
    /// What this tokenizer reads, with the message room of `ectx`.
    pub open spec fn inp(&self, ectx: &YangErrorCtx) -> Inp {
        Inp {
            data: self.data@,
            read_error: opt_view(*self.read_error),
            filename: opt_view(*self.filename),
            msg_cap: ectx.msg_cap,
        }
    }

    /// The state of this tokenizer, with the errors of `ectx`.
    pub open spec fn ts(&self, ectx: &YangErrorCtx) -> TokState {
        TokState {
            next: self.next as int,
            line: self.line as int,
            buf: self.buf@,
            p: self.p as int,
            expect_eof: self.expect_eof,
            yang_version: self.yang_version,
            errs: ectx.errors(),
        }
    }

    /// The tokenizer and `ectx` are in a consistent state.
    pub open spec fn ok(&self, ectx: &YangErrorCtx) -> bool {
        wf(self.inp(ectx), self.ts(ectx))
    }

    fn at(&self, idx: usize) -> (b: u8)
        ensures
            b == spec_at(TokState { buf: self.buf@, ..arbitrary() }, idx as int),
    {
        if idx < self.buf.len() {
            self.buf[idx]
        } else {
            0
        }
    }
}

/// The byte at `idx` of the current line, NUL past its end.
fn at_buf(buf: &Vec<u8>, idx: usize) -> (b: u8)
    ensures
        b == (if 0 <= idx < buf@.len() { buf@[idx as int] } else { 0u8 }),
{
    if idx < buf.len() {
        buf[idx]
    } else {
        0
    }
}

/// Reports `msg` at the tokenizer's file and line.
fn report_err(toks: &Toks, ectx: &mut YangErrorCtx, code: i32, col: i32, msg: &[u8])
    requires
        old(ectx).msg_cap >= 1,
    ensures
        final(ectx).msg_cap == old(ectx).msg_cap,
        final(ectx).errors() == spec_report(toks.inp(old(ectx)), toks.ts(old(ectx)), code, col, msg@).errs,
{
    report_msg(ectx, code, toks.filename, toks.line, col, msg);
}

/// Reads the next line.
pub fn readline(toks: &mut Toks, ectx: &mut YangErrorCtx) -> (ok: bool)
    requires
        old(toks).ok(old(ectx)),
    ensures
        final(toks).data == old(toks).data,
        final(toks).read_error == old(toks).read_error,
        final(toks).filename == old(toks).filename,
        final(ectx).msg_cap == old(ectx).msg_cap,
        (ok, final(toks).ts(final(ectx))) == spec_readline(old(toks).inp(old(ectx)), old(toks).ts(old(ectx))),
{
    if toks.next >= toks.data.len() {
        match toks.read_error {
            Some(e) => {
                report_err(toks, ectx, YANG_ERR_PARSE_EOF, -1, e.as_slice());
            },
            None => {
                if !toks.expect_eof {
                    let m = "premature end of file";
                    report_err(toks, ectx, YANG_ERR_PARSE_EOF, -1, m.as_bytes());
                }
            },
        }
        return false;
    }
    let ghost d = toks.data@;
    let start = toks.next;
    let mut e = start;
    while e < toks.data.len() && toks.data[e] != 10
        invariant
            d == toks.data@,
            start <= e <= d.len(),
            start < d.len(),
            line_end(d, e as int) == line_end(d, start as int),
        decreases d.len() - e,
    {
        e = e + 1;
    }
    if e < toks.data.len() {
        e = e + 1;
    }
    let mut b: Vec<u8> = Vec::new();
    push_bytes(&mut b, &toks.data[start..e]);
    b.push(0);
    toks.buf = b;
    toks.p = 0;
    toks.line = toks.line + 1;
    toks.next = e;
    true
}


/// The rest of a block comment.
fn skip_comment(toks: &mut Toks, ectx: &mut YangErrorCtx) -> (ok: bool)
    requires
        old(toks).ok(old(ectx)),
    ensures
        final(toks).data == old(toks).data,
        final(toks).read_error == old(toks).read_error,
        final(toks).filename == old(toks).filename,
        final(ectx).msg_cap == old(ectx).msg_cap,
        final(toks).ok(final(ectx)),
        (ok, final(toks).ts(final(ectx))) == spec_skip_comment(old(toks).inp(old(ectx)), old(toks).ts(old(ectx))),
{
    let ghost inp = toks.inp(ectx);
    let ghost s0 = toks.ts(ectx);
    proof {
        lemma_skip_comment(inp, s0);
    }
    loop
        invariant
            toks.data == old(toks).data,
            toks.read_error == old(toks).read_error,
            toks.filename == old(toks).filename,
            ectx.msg_cap == old(ectx).msg_cap,
            inp == toks.inp(ectx),
            inp == old(toks).inp(old(ectx)),
            s0 == old(toks).ts(old(ectx)),
            toks.ok(ectx),
            spec_skip_comment(inp, toks.ts(ectx)) == spec_skip_comment(inp, s0),
        decreases inp.data.len() - toks.next,
    {
        let ghost s1 = toks.ts(ectx);
        proof {
            lemma_comment_scan(inp, s1);
        }
        while at_buf(&toks.buf, toks.p) != 0
            invariant_except_break
                spec_comment_scan(toks.ts(ectx)) == spec_comment_scan(s1),
            invariant
                toks.data == old(toks).data,
                toks.read_error == old(toks).read_error,
                toks.filename == old(toks).filename,
                ectx.msg_cap == old(ectx).msg_cap,
                inp == toks.inp(ectx),
                toks.ok(ectx),
                toks.next == s1.next,
            ensures
                toks.ts(ectx) == spec_comment_scan(s1),
            decreases toks.buf@.len() - toks.p,
        {
            if at_buf(&toks.buf, toks.p) == 42 && at_buf(&toks.buf, toks.p + 1) == 47 {
                toks.p = toks.p + 2;
                break;
            }
            toks.p = toks.p + 1;
        }
        proof {
            lemma_comment_scan(inp, toks.ts(ectx));
        }
        let ghost s2 = toks.ts(ectx);
        assert(s2 == spec_comment_scan(s1));
        if at_buf(&toks.buf, toks.p) == 0 {
            proof {
                lemma_readline(inp, s2);
            }
            if !readline(toks, ectx) {
                assert(spec_skip_comment(inp, s1) == (false, toks.ts(ectx)));
                return false;
            }
            assert(spec_skip_comment(inp, s1) == spec_skip_comment(inp, toks.ts(ectx)));
            continue;
        }
        assert(spec_cur(s2) != 0);
        assert(spec_skip_comment(inp, s1) == (true, s2));
        return true;
    }
}


/// Skips white space, line breaks and comments; `false` at the end of input.
pub fn skip(toks: &mut Toks, ectx: &mut YangErrorCtx) -> (ok: bool)
    requires
        old(toks).ok(old(ectx)),
    ensures
        final(toks).data == old(toks).data,
        final(toks).read_error == old(toks).read_error,
        final(toks).filename == old(toks).filename,
        final(ectx).msg_cap == old(ectx).msg_cap,
        final(toks).ok(final(ectx)),
        (ok, final(toks).ts(final(ectx))) == spec_skip(old(toks).inp(old(ectx)), old(toks).ts(old(ectx))),
{
    let ghost inp = toks.inp(ectx);
    let ghost s0 = toks.ts(ectx);
    loop
        invariant
            toks.data == old(toks).data,
            toks.read_error == old(toks).read_error,
            toks.filename == old(toks).filename,
            ectx.msg_cap == old(ectx).msg_cap,
            inp == toks.inp(ectx),
            inp == old(toks).inp(old(ectx)),
            s0 == old(toks).ts(old(ectx)),
            toks.ok(ectx),
            spec_skip(inp, toks.ts(ectx)) == spec_skip(inp, s0),
        decreases inp.data.len() - toks.next, toks.buf@.len() - toks.p,
    {
        let ghost s1 = toks.ts(ectx);
        let c = at_buf(&toks.buf, toks.p);
        if c == 0 {
            proof {
                lemma_readline(inp, s1);
            }
            if !readline(toks, ectx) {
                return false;
            }
        } else if is_wspace_lf(c) || (c == 13 && at_buf(&toks.buf, toks.p + 1) == 10) {
            toks.p = toks.p + 1;
        } else if c == 47 {
            let n = at_buf(&toks.buf, toks.p + 1);
            if n == 47 {
                proof {
                    lemma_readline(inp, s1);
                }
                if !readline(toks, ectx) {
                    return false;
                }
            } else if n == 42 {
                toks.p = toks.p + 2;
                proof {
                    lemma_skip_comment(inp, toks.ts(ectx));
                }
                if !skip_comment(toks, ectx) {
                    return false;
                }
            } else {
                return true;
            }
        } else {
            return true;
        }
    }
}

/// Whether a token separator starts at `pos`.
fn looking_at_separator(buf: &Vec<u8>, pos: usize) -> (r: bool)
    requires
        pos < usize::MAX,
    ensures
        r == spec_looking_at_separator(TokState { buf: buf@, ..arbitrary() }, pos as int),
{
    let c = at_buf(buf, pos);
    if c == 0 {
        return false;
    }
    if is_wspace_lf(c) || c == 59 || c == 123 || (c == 13 && at_buf(buf, pos + 1) == 10) {
        return true;
    }
    c == 47 && (at_buf(buf, pos + 1) == 47 || at_buf(buf, pos + 1) == 42)
}


/// The first position at or after `pos` of the current line that holds no
/// identifier character.
pub open spec fn buf_ident_end(buf: Seq<u8>, pos: int) -> int
    decreases buf.len() - pos,
{
    if 0 <= pos < buf.len() && spec_is_identifier2(buf[pos]) {
        buf_ident_end(buf, pos + 1)
    } else {
        pos
    }
}

/// The message for a bad character where a keyword should start or continue.
pub open spec fn msg_bad_keyword_char(start: bool, c: u8) -> Seq<u8> {
    (if start {
        "invalid keyword start character \"".spec_bytes()
    } else {
        "invalid keyword character \"".spec_bytes()
    }) + spec_byte_as_char(c) + "\"".spec_bytes()
}

/// The outcome of reading a keyword: success, the state, the atom table, the
/// prefix and the keyword.
pub struct KeywordResult {
    pub ok: bool,
    pub s: TokState,
    pub atoms: Seq<Seq<u8>>,
    pub prefix: Option<int>,
    pub keyword: Option<int>,
}

/// Reads a keyword, `identifier` or `prefix:identifier`, at the current
/// position; each part becomes an atom.  A separator must follow.
pub open spec fn spec_get_keyword(inp: Inp, s: TokState, atoms: Seq<Seq<u8>>) -> KeywordResult {
    let p = s.p;
    if !spec_is_identifier1(spec_at(s, p)) {
        KeywordResult {
            ok: false,
            s: spec_report(inp, s, YANG_ERR_PARSE_BAD_KEYWORD, col_of(p), msg_bad_keyword_char(true, spec_at(s, p))),
            atoms,
            prefix: None,
            keyword: None,
        }
    } else {
        let q = buf_ident_end(s.buf, p + 1);
        if spec_at(s, q) == 58 {
            let (atoms1, pre) = spec_intern(atoms, s.buf.subrange(p, q));
            let r = q + 1;
            if !spec_is_identifier1(spec_at(s, r)) {
                KeywordResult {
                    ok: false,
                    s: spec_report(inp, s, YANG_ERR_PARSE_BAD_KEYWORD, col_of(r), msg_bad_keyword_char(false, spec_at(s, r))),
                    atoms: atoms1,
                    prefix: Some(pre),
                    keyword: None,
                }
            } else {
                let t = buf_ident_end(s.buf, r + 1);
                let (atoms2, kw) = spec_intern(atoms1, s.buf.subrange(r, t));
                let s1 = TokState { p: t, ..s };
                if !spec_looking_at_separator(s1, t) {
                    KeywordResult {
                        ok: false,
                        s: spec_report(inp, s1, YANG_ERR_PARSE_EXPECTED_SEPARATOR, col_of(t), "expected token separator".spec_bytes()),
                        atoms: atoms2,
                        prefix: Some(pre),
                        keyword: Some(kw),
                    }
                } else {
                    KeywordResult { ok: true, s: s1, atoms: atoms2, prefix: Some(pre), keyword: Some(kw) }
                }
            }
        } else {
            let (atoms2, kw) = spec_intern(atoms, s.buf.subrange(p, q));
            let s1 = TokState { p: q, ..s };
            if !spec_looking_at_separator(s1, q) {
                KeywordResult {
                    ok: false,
                    s: spec_report(inp, s1, YANG_ERR_PARSE_EXPECTED_SEPARATOR, col_of(q), "expected token separator".spec_bytes()),
                    atoms: atoms2,
                    prefix: None,
                    keyword: Some(kw),
                }
            } else {
                KeywordResult { ok: true, s: s1, atoms: atoms2, prefix: None, keyword: Some(kw) }
            }
        }
    }
}

proof fn lemma_buf_ident_end(s: TokState, pos: int)
    requires
        0 <= pos <= s.buf.len(),
        s.buf.len() >= 1,
        s.buf.last() == 0u8,
    ensures
        pos <= buf_ident_end(s.buf, pos) < s.buf.len() || (pos == s.buf.len() && buf_ident_end(s.buf, pos) == pos),
        pos < s.buf.len() ==> buf_ident_end(s.buf, pos) < s.buf.len(),
    decreases s.buf.len() - pos,
{
    if 0 <= pos < s.buf.len() && spec_is_identifier2(s.buf[pos]) {
        lemma_buf_ident_end(s, pos + 1);
    }
}

/// Room left in the atom table for what parsing the rest of the input can add.
pub open spec fn atom_room(inp: Inp, s: TokState, atoms: Seq<Seq<u8>>) -> bool {
    atoms.len() + (inp.data.len() - abs_pos(s)) + 2 <= usize::MAX
}

/// Reading a keyword keeps the state consistent, keeps room in the atom
/// table, and a keyword read moves past at least one byte.
pub proof fn lemma_get_keyword(inp: Inp, s: TokState, atoms: Seq<Seq<u8>>)
    requires
        wf(inp, s),
        spec_cur(s) != 0,
        spec_table_wf(atoms),
        atom_room(inp, s, atoms),
    ensures
        wf(inp, spec_get_keyword(inp, s, atoms).s),
        spec_table_wf(spec_get_keyword(inp, s, atoms).atoms),
        spec_get_keyword(inp, s, atoms).s.next == s.next,
        spec_get_keyword(inp, s, atoms).s.buf == s.buf,
        spec_get_keyword(inp, s, atoms).s.line == s.line,
        spec_get_keyword(inp, s, atoms).s.expect_eof == s.expect_eof,
        spec_get_keyword(inp, s, atoms).s.yang_version == s.yang_version,
        spec_get_keyword(inp, s, atoms).s.p >= s.p,
        spec_get_keyword(inp, s, atoms).ok ==> spec_get_keyword(inp, s, atoms).s.p > s.p,
        spec_get_keyword(inp, s, atoms).ok ==> spec_get_keyword(inp, s, atoms).keyword is Some,
        spec_get_keyword(inp, s, atoms).ok ==> atom_room(inp, spec_get_keyword(inp, s, atoms).s, spec_get_keyword(inp, s, atoms).atoms),
        !spec_get_keyword(inp, s, atoms).ok ==> spec_get_keyword(inp, s, atoms).atoms.len() + (inp.data.len() - abs_pos(spec_get_keyword(inp, s, atoms).s)) + 1 <= usize::MAX,
        spec_get_keyword(inp, s, atoms).atoms.len() <= atoms.len() + 2,
        spec_get_keyword(inp, s, atoms).prefix matches Some(a) ==> 0 <= a < spec_get_keyword(inp, s, atoms).atoms.len(),
        spec_get_keyword(inp, s, atoms).keyword matches Some(a) ==> 0 <= a < spec_get_keyword(inp, s, atoms).atoms.len(),
{
    let p = s.p;
    if spec_is_identifier1(spec_at(s, p)) {
        lemma_buf_ident_end(s, p + 1);
        let q = buf_ident_end(s.buf, p + 1);
        if spec_at(s, q) == 58 {
            lemma_intern(atoms, s.buf.subrange(p, q));
            let (atoms1, pre) = spec_intern(atoms, s.buf.subrange(p, q));
            let r = q + 1;
            if spec_is_identifier1(spec_at(s, r)) {
                lemma_buf_ident_end(s, r + 1);
                let t = buf_ident_end(s.buf, r + 1);
                lemma_intern(atoms1, s.buf.subrange(r, t));
            }
        } else {
            lemma_intern(atoms, s.buf.subrange(p, q));
        }
    }
}


pub open spec fn opt_int(o: Option<usize>) -> Option<int> {
    match o {
        Some(v) => Some(v as int),
        None => None,
    }
}

fn msg_bad_char(start: bool, c: u8) -> (r: Vec<u8>)
    ensures
        r@ == msg_bad_keyword_char(start, c),
{
    let mut m: Vec<u8> = Vec::new();
    if start {
        push_str(&mut m, "invalid keyword start character \"");
    } else {
        push_str(&mut m, "invalid keyword character \"");
    }
    let ch = byte_as_char(c);
    push_bytes(&mut m, ch.as_slice());
    push_str(&mut m, "\"");
    assert(m@ =~= msg_bad_keyword_char(start, c));
    m
}

fn ident_end_exec(buf: &Vec<u8>, pos: usize) -> (r: usize)
    requires
        pos <= buf@.len(),
        buf@.len() >= 1,
        buf@.last() == 0u8,
    ensures
        r as int == buf_ident_end(buf@, pos as int),
{
    let ghost s = TokState { buf: buf@, ..arbitrary() };
    let mut q = pos;
    while q < buf.len() && is_identifier2(buf[q])
        invariant
            s.buf == buf@,
            pos <= q <= buf@.len(),
            buf_ident_end(s.buf, q as int) == buf_ident_end(s.buf, pos as int),
        decreases buf@.len() - q,
    {
        q = q + 1;
    }
    q
}

/// Reads a keyword at the current position.
pub fn get_keyword(toks: &mut Toks, ectx: &mut YangErrorCtx, atoms: &mut AtomTable) -> (r: (bool, Option<Atom>, Option<Atom>))
    requires
        old(toks).ok(old(ectx)),
        spec_cur(old(toks).ts(old(ectx))) != 0,
        old(atoms).wf(),
        atom_room(old(toks).inp(old(ectx)), old(toks).ts(old(ectx)), old(atoms).view()),
    ensures
        final(toks).data == old(toks).data,
        final(toks).read_error == old(toks).read_error,
        final(toks).filename == old(toks).filename,
        final(ectx).msg_cap == old(ectx).msg_cap,
        final(toks).ok(final(ectx)),
        final(atoms).wf(),
        ({
            let k = spec_get_keyword(old(toks).inp(old(ectx)), old(toks).ts(old(ectx)), old(atoms).view());
            &&& r.0 == k.ok
            &&& final(toks).ts(final(ectx)) == k.s
            &&& final(atoms).view() == k.atoms
            &&& opt_int(r.1) == k.prefix
            &&& opt_int(r.2) == k.keyword
        }),
{
    let ghost inp = toks.inp(ectx);
    let ghost s = toks.ts(ectx);
    let ghost a0 = atoms.view();
    proof {
        lemma_get_keyword(inp, s, a0);
    }
    let p = toks.p;
    let c0 = at_buf(&toks.buf, p);
    if !is_identifier1(c0) {
        let m = msg_bad_char(true, c0);
        report_err(toks, ectx, YANG_ERR_PARSE_BAD_KEYWORD, (p + 1) as i32, m.as_slice());
        return (false, None, None);
    }
    let q = ident_end_exec(&toks.buf, p + 1);
    proof {
        lemma_buf_ident_end(s, p + 1);
    }
    if at_buf(&toks.buf, q) == 58 {
        proof {
            lemma_intern(a0, s.buf.subrange(p as int, q as int));
        }
        let pre = atoms.intern_bytes(&toks.buf[p..q]);
        let r = q + 1;
        let c1 = at_buf(&toks.buf, r);
        if !is_identifier1(c1) {
            let m = msg_bad_char(false, c1);
            report_err(toks, ectx, YANG_ERR_PARSE_BAD_KEYWORD, (r + 1) as i32, m.as_slice());
            return (false, Some(pre), None);
        }
        let t = ident_end_exec(&toks.buf, r + 1);
        proof {
            lemma_buf_ident_end(s, r + 1);
        }
        let kw = atoms.intern_bytes(&toks.buf[r..t]);
        toks.p = t;
        if !looking_at_separator(&toks.buf, t) {
            let m = "expected token separator";
            report_err(toks, ectx, YANG_ERR_PARSE_EXPECTED_SEPARATOR, (t + 1) as i32, m.as_bytes());
            return (false, Some(pre), Some(kw));
        }
        (true, Some(pre), Some(kw))
    } else {
        proof {
            lemma_intern(a0, s.buf.subrange(p as int, q as int));
        }
        let kw = atoms.intern_bytes(&toks.buf[p..q]);
        toks.p = q;
        if !looking_at_separator(&toks.buf, q) {
            let m = "expected token separator";
            report_err(toks, ectx, YANG_ERR_PARSE_EXPECTED_SEPARATOR, (q + 1) as i32, m.as_bytes());
            return (false, None, Some(kw));
        }
        (true, None, Some(kw))
    }
}


/// Where an unquoted string that starts at `pos` ends: at a separator, a
/// quote, a `}`, or the end of the line.
pub open spec fn unquoted_end(s: TokState, pos: int) -> int
    decreases s.buf.len() - pos,
{
    if 0 <= pos < s.buf.len() - 1 && !spec_looking_at_separator(s, pos) && spec_at(s, pos) != 125
        && spec_at(s, pos) != 34 && spec_at(s, pos) != 39 {
        unquoted_end(s, pos + 1)
    } else {
        pos
    }
}

/// The bytes of `b` before its first NUL byte.
pub open spec fn until_nul(b: Seq<u8>) -> Seq<u8>
    decreases b.len(),
{
    if b.len() == 0 {
        b
    } else if b[0] == 0u8 {
        Seq::<u8>::empty()
    } else {
        seq![b[0]] + until_nul(b.drop_first())
    }
}

/// The number of tab characters in `b`.
pub open spec fn count_tabs(b: Seq<u8>) -> int
    decreases b.len(),
{
    if b.len() == 0 {
        0
    } else {
        count_tabs(b.drop_last()) + if b.last() == 9 { 1int } else { 0int }
    }
}

/// Strips the indentation of a continued double-quoted string: up to
/// `indent` columns of spaces and tabs, a tab counting eight.
pub open spec fn spec_strip(s: TokState, indent: int, i: int) -> TokState
    decreases s.buf.len() - s.p,
{
    if i >= indent {
        s
    } else if spec_cur(s) == 32 {
        spec_strip(TokState { p: s.p + 1, ..s }, indent, i + 1)
    } else if spec_cur(s) == 9 {
        spec_strip(TokState { p: s.p + 1, ..s }, indent, i + 8)
    } else {
        s
    }
}

/// The message for a backslash followed by a character that is no escape.
pub open spec fn msg_illegal_escape() -> Seq<u8> {
    "illegal character after \\".spec_bytes()
}

/// The body of a quoted string up to its closing `quote`, appended to `acc`.
/// In double quotes `\n`, `\t`, `\"` and `\\` are escapes; another character
/// after a backslash is reported (a warning in YANG version 1) and the
/// backslash kept.  Lines are read as needed.
pub open spec fn spec_qbody(inp: Inp, s: TokState, quote: u8, indent: int, acc: Seq<u8>) -> (bool, TokState, Seq<u8>)
    decreases inp.data.len() - s.next, s.buf.len() - s.p,
{
    let c = spec_cur(s);
    if c == quote {
        (true, s, acc)
    } else if c == 0 {
        let (ok, s1) = spec_readline(inp, s);
        if !ok {
            (false, s1, acc)
        } else {
            let s2 = if quote == 34 { spec_strip(s1, indent, 0) } else { s1 };
            if s2.next > s.next && s2.next <= inp.data.len() {
                spec_qbody(inp, s2, quote, indent, acc)
            } else {
                (false, s2, acc)
            }
        }
    } else if quote == 39 {
        spec_qbody(inp, TokState { p: s.p + 1, ..s }, quote, indent, acc.push(c))
    } else if c == 92 {
        let n = spec_at(s, s.p + 1);
        if n == 110 {
            spec_qbody(inp, TokState { p: s.p + 2, ..s }, quote, indent, acc.push(10u8))
        } else if n == 116 {
            spec_qbody(inp, TokState { p: s.p + 2, ..s }, quote, indent, acc.push(9u8))
        } else if n == 34 {
            spec_qbody(inp, TokState { p: s.p + 2, ..s }, quote, indent, acc.push(34u8))
        } else if n == 92 {
            spec_qbody(inp, TokState { p: s.p + 2, ..s }, quote, indent, acc.push(92u8))
        } else {
            let code = if s.yang_version == YANG_VERSION_1 {
                YANG_WARN_PARSE_ILLEGAL_ESCAPE
            } else {
                YANG_ERR_PARSE_ILLEGAL_ESCAPE
            };
            let s1 = spec_report(inp, s, code, col_of(s.p), msg_illegal_escape());
            spec_qbody(inp, TokState { p: s.p + 1, ..s1 }, quote, indent, acc.push(c))
        }
    } else {
        spec_qbody(inp, TokState { p: s.p + 1, ..s }, quote, indent, acc.push(c))
    }
}

proof fn lemma_strip(inp: Inp, s: TokState, indent: int, i: int)
    requires
        wf(inp, s),
    ensures
        wf(inp, spec_strip(s, indent, i)),
        spec_strip(s, indent, i).next == s.next,
        spec_strip(s, indent, i).buf == s.buf,
        spec_strip(s, indent, i).p >= s.p,
        spec_strip(s, indent, i).line == s.line,
        spec_strip(s, indent, i).errs == s.errs,
        spec_strip(s, indent, i).expect_eof == s.expect_eof,
        spec_strip(s, indent, i).yang_version == s.yang_version,
    decreases s.buf.len() - s.p,
{
    if i < indent && (spec_cur(s) == 32 || spec_cur(s) == 9) {
        if spec_cur(s) == 32 {
            lemma_strip(inp, TokState { p: s.p + 1, ..s }, indent, i + 1);
        } else {
            lemma_strip(inp, TokState { p: s.p + 1, ..s }, indent, i + 8);
        }
    }
}

/// The body of a quoted string keeps the state consistent and never moves backwards.
pub proof fn lemma_qbody(inp: Inp, s: TokState, quote: u8, indent: int, acc: Seq<u8>)
    requires
        wf(inp, s),
        quote != 0,
    ensures
        wf(inp, spec_qbody(inp, s, quote, indent, acc).1),
        not_behind(spec_qbody(inp, s, quote, indent, acc).1, s),
        abs_pos(spec_qbody(inp, s, quote, indent, acc).1) >= abs_pos(s),
        spec_qbody(inp, s, quote, indent, acc).1.line >= s.line,
        spec_qbody(inp, s, quote, indent, acc).1.expect_eof == s.expect_eof,
        spec_qbody(inp, s, quote, indent, acc).1.yang_version == s.yang_version,
        spec_qbody(inp, s, quote, indent, acc).0 ==> spec_cur(spec_qbody(inp, s, quote, indent, acc).1) == quote,
    decreases inp.data.len() - s.next, s.buf.len() - s.p,
{
    let c = spec_cur(s);
    if c == quote {
    } else if c == 0 {
        lemma_readline(inp, s);
        let (ok, s1) = spec_readline(inp, s);
        if ok {
            lemma_strip(inp, s1, indent, 0);
            let s2 = if quote == 34 { spec_strip(s1, indent, 0) } else { s1 };
            lemma_qbody(inp, s2, quote, indent, acc);
        }
    } else if quote == 39 {
        lemma_qbody(inp, TokState { p: s.p + 1, ..s }, quote, indent, acc.push(c));
    } else if c == 92 {
        let n = spec_at(s, s.p + 1);
        if n == 110 {
            lemma_qbody(inp, TokState { p: s.p + 2, ..s }, quote, indent, acc.push(10u8));
        } else if n == 116 {
            lemma_qbody(inp, TokState { p: s.p + 2, ..s }, quote, indent, acc.push(9u8));
        } else if n == 34 {
            lemma_qbody(inp, TokState { p: s.p + 2, ..s }, quote, indent, acc.push(34u8));
        } else if n == 92 {
            lemma_qbody(inp, TokState { p: s.p + 2, ..s }, quote, indent, acc.push(92u8));
        } else {
            let code = if s.yang_version == YANG_VERSION_1 {
                YANG_WARN_PARSE_ILLEGAL_ESCAPE
            } else {
                YANG_ERR_PARSE_ILLEGAL_ESCAPE
            };
            let s1 = spec_report(inp, s, code, col_of(s.p), msg_illegal_escape());
            lemma_qbody(inp, TokState { p: s.p + 1, ..s1 }, quote, indent, acc.push(c));
        }
    } else {
        lemma_qbody(inp, TokState { p: s.p + 1, ..s }, quote, indent, acc.push(c));
    }
}

/// The character that a backslash followed by `n` stands for in a
/// double-quoted string, if the pair is an escape.
pub open spec fn escaped_char(n: u8) -> Option<u8> {
    if n == 110 {
        Some(10u8)
    } else if n == 116 {
        Some(9u8)
    } else if n == 34 {
        Some(34u8)
    } else if n == 92 {
        Some(92u8)
    } else {
        None
    }
}

/// The text that `b`, the body of a double-quoted string, stands for: each
/// escape `\n`, `\t`, `\"`, `\\` replaced by the one character it names,
/// every other byte kept.  `None` where `b` holds a double quote or a NUL
/// byte that no backslash escapes, or a backslash that starts no escape.
pub open spec fn unescaped(b: Seq<u8>) -> Option<Seq<u8>>
    decreases b.len(),
{
    if b.len() == 0 {
        Some(Seq::<u8>::empty())
    } else if b[0] == 92 {
        if b.len() >= 2 && escaped_char(b[1]) is Some {
            match unescaped(b.skip(2)) {
                Some(r) => Some(seq![escaped_char(b[1])->0] + r),
                None => None,
            }
        } else {
            None
        }
    } else if b[0] == 34 || b[0] == 0 {
        None
    } else {
        match unescaped(b.skip(1)) {
            Some(r) => Some(seq![b[0]] + r),
            None => None,
        }
    }
}

/// A double-quoted string body on one line reads as its unescaped text:
/// where the line holds `b` and then the closing quote, and `b` is made of
/// plain bytes and escapes, the body ends at that quote and appends exactly
/// the text `b` stands for (so `a\\b` gives the three bytes `a\b`).
pub proof fn law_qbody_unescapes(inp: Inp, s: TokState, indent: int, acc: Seq<u8>, b: Seq<u8>)
    requires
        0 <= s.p,
        s.p + b.len() < s.buf.len(),
        s.buf.subrange(s.p, s.p + b.len() + 1) == b.push(34u8),
        unescaped(b) is Some,
    ensures
        spec_qbody(inp, s, 34u8, indent, acc) == (true, TokState { p: s.p + b.len(), ..s }, acc + unescaped(b)->0),
    decreases b.len(),
{
    assert(s.buf[s.p + b.len()] == s.buf.subrange(s.p, s.p + b.len() + 1)[b.len() as int]);
    if b.len() == 0 {
        assert(TokState { p: s.p, ..s } == s);
        assert(acc + Seq::<u8>::empty() =~= acc);
    } else {
        assert(s.buf[s.p] == s.buf.subrange(s.p, s.p + b.len() + 1)[0]);
        if b[0] == 92 {
            assert(s.buf[s.p + 1] == s.buf.subrange(s.p, s.p + b.len() + 1)[1]);
            let e = escaped_char(b[1])->0;
            let s2 = TokState { p: s.p + 2, ..s };
            let b2 = b.skip(2);
            assert(s2.buf.subrange(s2.p, s2.p + b2.len() + 1) =~= b2.push(34u8)) by {
                assert forall|k: int| 0 <= k < b2.len() + 1 implies
                    #[trigger] s2.buf.subrange(s2.p, s2.p + b2.len() + 1)[k] == b2.push(34u8)[k] by {
                    assert(s.buf[s.p + 2 + k] == s.buf.subrange(s.p, s.p + b.len() + 1)[k + 2]);
                }
            }
            law_qbody_unescapes(inp, s2, indent, acc.push(e), b2);
            assert(acc.push(e) + unescaped(b2)->0 =~= acc + (seq![e] + unescaped(b2)->0));
            assert(TokState { p: s2.p + b2.len(), ..s2 } == TokState { p: s.p + b.len(), ..s });
        } else {
            let s2 = TokState { p: s.p + 1, ..s };
            let b2 = b.skip(1);
            assert(s2.buf.subrange(s2.p, s2.p + b2.len() + 1) =~= b2.push(34u8)) by {
                assert forall|k: int| 0 <= k < b2.len() + 1 implies
                    #[trigger] s2.buf.subrange(s2.p, s2.p + b2.len() + 1)[k] == b2.push(34u8)[k] by {
                    assert(s.buf[s.p + 1 + k] == s.buf.subrange(s.p, s.p + b.len() + 1)[k + 1]);
                }
            }
            law_qbody_unescapes(inp, s2, indent, acc.push(b[0]), b2);
            assert(acc.push(b[0]) + unescaped(b2)->0 =~= acc + (seq![b[0]] + unescaped(b2)->0));
            assert(TokState { p: s2.p + b2.len(), ..s2 } == TokState { p: s.p + b.len(), ..s });
        }
    }
}

/// The message for a `+` not followed by a quoted string.
pub open spec fn msg_expected_quoted() -> Seq<u8> {
    "expected quoted string after '+' operator".spec_bytes()
}

/// Quoted strings joined by `+`, starting at an opening quote; their bodies
/// are appended to `acc`.
pub open spec fn spec_qstrings(inp: Inp, s: TokState, acc: Seq<u8>) -> (bool, TokState, Option<Seq<u8>>)
    decreases inp.data.len() - s.next, s.buf.len() - s.p,
{
    let quote = spec_cur(s);
    let s0 = TokState { p: s.p + 1, ..s };
    let indent = s0.p + 7 * count_tabs(s.buf.subrange(0, s0.p));
    let (ok, s1, acc1) = spec_qbody(inp, s0, quote, indent, acc);
    if !ok {
        (false, s1, None)
    } else {
        let (ok2, s3) = spec_skip(inp, TokState { p: s1.p + 1, ..s1 });
        if !ok2 {
            (false, s3, None)
        } else if spec_cur(s3) == 43 {
            let (ok4, s4) = spec_skip(inp, TokState { p: s3.p + 1, ..s3 });
            if !ok4 {
                (false, s4, None)
            } else if spec_cur(s4) == 34 || spec_cur(s4) == 39 {
                if further(s4, s) && s4.next <= inp.data.len() {
                    spec_qstrings(inp, s4, acc1)
                } else {
                    (false, s4, None)
                }
            } else {
                (false, spec_report(inp, s4, YANG_ERR_PARSE_EXPECTED_QUOTED_STRING, col_of(s4.p), msg_expected_quoted()), None)
            }
        } else {
            (true, s3, Some(acc1))
        }
    }
}

/// Reads a string argument: unquoted, or quoted strings joined by `+`.
pub open spec fn spec_get_string(inp: Inp, s: TokState) -> (bool, TokState, Option<Seq<u8>>) {
    let (ok, s1) = spec_skip(inp, s);
    if !ok {
        (false, s1, None)
    } else {
        let c = spec_cur(s1);
        if c == 59 || c == 123 || c == 125 {
            (false, spec_report(inp, s1, YANG_ERR_PARSE_EXPECTED_STRING, col_of(s1.p), "expected string".spec_bytes()), None)
        } else if c != 34 && c != 39 {
            let e = unquoted_end(s1, s1.p);
            (true, TokState { p: e, ..s1 }, Some(until_nul(s1.buf.subrange(s1.p, e))))
        } else {
            spec_qstrings(inp, s1, Seq::<u8>::empty())
        }
    }
}


proof fn lemma_unquoted_end(s: TokState, pos: int)
    requires
        0 <= pos < s.buf.len(),
    ensures
        pos <= unquoted_end(s, pos) < s.buf.len(),
    decreases s.buf.len() - pos,
{
    if 0 <= pos < s.buf.len() - 1 && !spec_looking_at_separator(s, pos) && spec_at(s, pos) != 125
        && spec_at(s, pos) != 34 && spec_at(s, pos) != 39 {
        lemma_unquoted_end(s, pos + 1);
    }
}

/// Quoted strings keep the state consistent and never move backwards.
pub proof fn lemma_qstrings(inp: Inp, s: TokState, acc: Seq<u8>)
    requires
        wf(inp, s),
        spec_cur(s) == 34 || spec_cur(s) == 39,
    ensures
        wf(inp, spec_qstrings(inp, s, acc).1),
        not_behind(spec_qstrings(inp, s, acc).1, s),
        abs_pos(spec_qstrings(inp, s, acc).1) >= abs_pos(s),
        spec_qstrings(inp, s, acc).1.line >= s.line,
        spec_qstrings(inp, s, acc).1.expect_eof == s.expect_eof,
        spec_qstrings(inp, s, acc).1.yang_version == s.yang_version,
        spec_qstrings(inp, s, acc).0 ==> spec_qstrings(inp, s, acc).2 is Some,
    decreases inp.data.len() - s.next, s.buf.len() - s.p,
{
    let quote = spec_cur(s);
    let s0 = TokState { p: s.p + 1, ..s };
    let indent = s0.p + 7 * count_tabs(s.buf.subrange(0, s0.p));
    lemma_qbody(inp, s0, quote, indent, acc);
    let (ok, s1, acc1) = spec_qbody(inp, s0, quote, indent, acc);
    if ok {
        let s2 = TokState { p: s1.p + 1, ..s1 };
        lemma_skip(inp, s2);
        let (ok2, s3) = spec_skip(inp, s2);
        if ok2 && spec_cur(s3) == 43 {
            let s5 = TokState { p: s3.p + 1, ..s3 };
            lemma_skip(inp, s5);
            let (ok4, s4) = spec_skip(inp, s5);
            if ok4 && (spec_cur(s4) == 34 || spec_cur(s4) == 39) {
                lemma_qstrings(inp, s4, acc1);
            }
        }
    }
}

/// Reading a string keeps the state consistent and never moves backwards.
pub proof fn lemma_get_string(inp: Inp, s: TokState)
    requires
        wf(inp, s),
    ensures
        wf(inp, spec_get_string(inp, s).1),
        not_behind(spec_get_string(inp, s).1, s),
        abs_pos(spec_get_string(inp, s).1) >= abs_pos(s),
        spec_get_string(inp, s).1.line >= s.line,
        spec_get_string(inp, s).1.expect_eof == s.expect_eof,
        spec_get_string(inp, s).1.yang_version == s.yang_version,
        spec_get_string(inp, s).0 ==> spec_get_string(inp, s).2 is Some,
{
    lemma_skip(inp, s);
    let (ok, s1) = spec_skip(inp, s);
    if ok {
        let c = spec_cur(s1);
        if c == 34 || c == 39 {
            lemma_qstrings(inp, s1, Seq::<u8>::empty());
        } else if !(c == 59 || c == 123 || c == 125) {
            lemma_unquoted_end(s1, s1.p);
        }
    }
}


/// Strips the indentation of a continued double-quoted string.
fn strip_indent(toks: &mut Toks, ectx: &YangErrorCtx, indent: u64)
    requires
        old(toks).ok(ectx),
        indent < 0x100_0000_0000,
    ensures
        final(toks).data == old(toks).data,
        final(toks).read_error == old(toks).read_error,
        final(toks).filename == old(toks).filename,
        final(toks).ok(ectx),
        final(toks).ts(ectx) == spec_strip(old(toks).ts(ectx), indent as int, 0),
{
    let ghost inp = toks.inp(ectx);
    let ghost s0 = toks.ts(ectx);
    let mut i: u64 = 0;
    proof {
        lemma_strip(inp, s0, indent as int, 0);
    }
    while i < indent
        invariant
            toks.data == old(toks).data,
            toks.read_error == old(toks).read_error,
            toks.filename == old(toks).filename,
            inp == toks.inp(ectx),
            toks.ok(ectx),
            indent < 0x100_0000_0000,
            i < indent + 8,
            s0 == old(toks).ts(ectx),
            spec_strip(toks.ts(ectx), indent as int, i as int) == spec_strip(s0, indent as int, 0),
        ensures
            spec_strip(toks.ts(ectx), indent as int, i as int) == toks.ts(ectx),
        decreases toks.buf@.len() - toks.p,
    {
        let c = at_buf(&toks.buf, toks.p);
        if c == 32 {
            toks.p = toks.p + 1;
            i = i + 1;
        } else if c == 9 {
            toks.p = toks.p + 1;
            i = i + 8;
        } else {
            break;
        }
    }
}

/// The body of a quoted string up to its closing quote, appended to `result`.
fn qbody(toks: &mut Toks, ectx: &mut YangErrorCtx, quote: u8, indent: u64, result: &mut Vec<u8>) -> (ok: bool)
    requires
        old(toks).ok(old(ectx)),
        quote != 0,
        indent < 0x100_0000_0000,
    ensures
        final(toks).data == old(toks).data,
        final(toks).read_error == old(toks).read_error,
        final(toks).filename == old(toks).filename,
        final(ectx).msg_cap == old(ectx).msg_cap,
        final(toks).ok(final(ectx)),
        (ok, final(toks).ts(final(ectx)), final(result)@) == spec_qbody(old(toks).inp(old(ectx)), old(toks).ts(old(ectx)), quote, indent as int, old(result)@),
{
    let ghost inp = toks.inp(ectx);
    let ghost s0 = toks.ts(ectx);
    let ghost acc0 = result@;
    proof {
        lemma_qbody(inp, s0, quote, indent as int, acc0);
    }
    loop
        invariant
            toks.data == old(toks).data,
            toks.read_error == old(toks).read_error,
            toks.filename == old(toks).filename,
            ectx.msg_cap == old(ectx).msg_cap,
            inp == toks.inp(ectx),
            inp == old(toks).inp(old(ectx)),
            s0 == old(toks).ts(old(ectx)),
            acc0 == old(result)@,
            toks.ok(ectx),
            quote != 0,
            indent < 0x100_0000_0000,
            spec_qbody(inp, toks.ts(ectx), quote, indent as int, result@) == spec_qbody(inp, s0, quote, indent as int, acc0),
        decreases inp.data.len() - toks.next, toks.buf@.len() - toks.p,
    {
        let ghost s1 = toks.ts(ectx);
        let c = at_buf(&toks.buf, toks.p);
        if c == quote {
            return true;
        }
        if c == 0 {
            proof {
                lemma_readline(inp, s1);
            }
            if !readline(toks, ectx) {
                return false;
            }
            proof {
                lemma_strip(inp, toks.ts(ectx), indent as int, 0);
            }
            if quote == 34 {
                strip_indent(toks, ectx, indent);
            }
            continue;
        }
        if quote == 39 {
            result.push(c);
            toks.p = toks.p + 1;
        } else if c == 92 {
            let n = at_buf(&toks.buf, toks.p + 1);
            if n == 110 {
                result.push(10);
                toks.p = toks.p + 2;
            } else if n == 116 {
                result.push(9);
                toks.p = toks.p + 2;
            } else if n == 34 {
                result.push(34);
                toks.p = toks.p + 2;
            } else if n == 92 {
                result.push(92);
                toks.p = toks.p + 2;
            } else {
                let code = if toks.yang_version == YANG_VERSION_1 {
                    YANG_WARN_PARSE_ILLEGAL_ESCAPE
                } else {
                    YANG_ERR_PARSE_ILLEGAL_ESCAPE
                };
                let m = "illegal character after \\";
                report_err(toks, ectx, code, (toks.p + 1) as i32, m.as_bytes());
                result.push(c);
                toks.p = toks.p + 1;
            }
        } else {
            result.push(c);
            toks.p = toks.p + 1;
        }
    }
}


proof fn lemma_not_behind_trans(a: TokState, b: TokState, c: TokState)
    requires
        not_behind(a, b),
        not_behind(b, c),
    ensures
        not_behind(a, c),
        further(b, c) && a.p <= a.buf.len() ==> further(a, c),
        further(a, b) && a.p <= a.buf.len() ==> further(a, c),
{
}

fn count_tabs_exec(buf: &Vec<u8>, n: usize) -> (r: u64)
    requires
        n <= buf@.len(),
        buf@.len() <= MAX_INPUT + 1,
    ensures
        r as int == count_tabs(buf@.subrange(0, n as int)),
        r <= n,
{
    let mut tabs: u64 = 0;
    let mut k: usize = 0;
    while k < n
        invariant
            k <= n,
            n <= buf@.len(),
            buf@.len() <= MAX_INPUT + 1,
            tabs <= k,
            tabs as int == count_tabs(buf@.subrange(0, k as int)),
        decreases n - k,
    {
        assert(buf@.subrange(0, k + 1).drop_last() =~= buf@.subrange(0, k as int));
        if buf[k] == 9 {
            tabs = tabs + 1;
        }
        k = k + 1;
    }
    tabs
}

/// Quoted strings joined by `+`, starting at an opening quote.
fn qstrings(toks: &mut Toks, ectx: &mut YangErrorCtx) -> (r: (bool, Option<Vec<u8>>))
    requires
        old(toks).ok(old(ectx)),
        spec_cur(old(toks).ts(old(ectx))) == 34 || spec_cur(old(toks).ts(old(ectx))) == 39,
    ensures
        final(toks).data == old(toks).data,
        final(toks).read_error == old(toks).read_error,
        final(toks).filename == old(toks).filename,
        final(ectx).msg_cap == old(ectx).msg_cap,
        final(toks).ok(final(ectx)),
        (r.0, final(toks).ts(final(ectx)), opt_view(r.1)) == spec_qstrings(old(toks).inp(old(ectx)), old(toks).ts(old(ectx)), Seq::<u8>::empty()),
{
    let ghost inp = toks.inp(ectx);
    let ghost s0 = toks.ts(ectx);
    let mut result: Vec<u8> = Vec::new();
    proof {
        lemma_qstrings(inp, s0, result@);
    }
    loop
        invariant
            toks.data == old(toks).data,
            toks.read_error == old(toks).read_error,
            toks.filename == old(toks).filename,
            ectx.msg_cap == old(ectx).msg_cap,
            inp == toks.inp(ectx),
            inp == old(toks).inp(old(ectx)),
            s0 == old(toks).ts(old(ectx)),
            toks.ok(ectx),
            spec_cur(toks.ts(ectx)) == 34 || spec_cur(toks.ts(ectx)) == 39,
            spec_qstrings(inp, toks.ts(ectx), result@) == spec_qstrings(inp, s0, Seq::<u8>::empty()),
        decreases inp.data.len() - toks.next, toks.buf@.len() - toks.p,
    {
        let ghost s1 = toks.ts(ectx);
        let ghost acc = result@;
        proof {
            lemma_qstrings(inp, s1, acc);
        }
        let quote = at_buf(&toks.buf, toks.p);
        toks.p = toks.p + 1;
        let tabs = count_tabs_exec(&toks.buf, toks.p);
        let indent: u64 = toks.p as u64 + 7 * tabs;
        let ghost sq = toks.ts(ectx);
        proof {
            lemma_qbody(inp, sq, quote, indent as int, acc);
        }
        if !qbody(toks, ectx, quote, indent, &mut result) {
            return (false, None);
        }
        let ghost sb = toks.ts(ectx);
        toks.p = toks.p + 1;
        let ghost sc = toks.ts(ectx);
        proof {
            lemma_skip(inp, sc);
        }
        if !skip(toks, ectx) {
            return (false, None);
        }
        let ghost sd = toks.ts(ectx);
        if at_buf(&toks.buf, toks.p) == 43 {
            toks.p = toks.p + 1;
            let ghost se = toks.ts(ectx);
            proof {
                lemma_skip(inp, se);
            }
            if !skip(toks, ectx) {
                return (false, None);
            }
            let c = at_buf(&toks.buf, toks.p);
            if c == 34 || c == 39 {
                proof {
                    let s4 = toks.ts(ectx);
                    lemma_not_behind_trans(sb, sq, s1);
                    lemma_not_behind_trans(sc, sb, s1);
                    lemma_not_behind_trans(sd, sc, s1);
                    lemma_not_behind_trans(se, sd, s1);
                    lemma_not_behind_trans(s4, se, s1);
                    assert(further(s4, s1));
                }
                continue;
            }
            let m = "expected quoted string after '+' operator";
            report_err(toks, ectx, YANG_ERR_PARSE_EXPECTED_QUOTED_STRING, (toks.p + 1) as i32, m.as_bytes());
            return (false, None);
        }
        return (true, Some(result));
    }
}

fn until_nul_exec(b: &[u8]) -> (r: Vec<u8>)
    ensures
        r@ == until_nul(b@),
{
    let mut i: usize = 0;
    while i < b.len() && b[i] != 0
        invariant
            i <= b@.len(),
            forall|j: int| 0 <= j < i ==> b@[j] != 0u8,
        decreases b@.len() - i,
    {
        i = i + 1;
    }
    let r = crate::text::copy_bytes(&b[0..i]);
    proof {
        lemma_until_nul(b@, i as int);
    }
    r
}

proof fn lemma_until_nul(b: Seq<u8>, i: int)
    requires
        0 <= i <= b.len(),
        forall|j: int| 0 <= j < i ==> b[j] != 0u8,
        i == b.len() || b[i] == 0u8,
    ensures
        until_nul(b) == b.subrange(0, i),
    decreases b.len(),
{
    if b.len() > 0 {
        if b[0] == 0u8 {
            assert(b.subrange(0, i) =~= Seq::<u8>::empty());
        } else {
            let t = b.drop_first();
            assert forall|j: int| 0 <= j < i - 1 implies t[j] != 0u8 by {
                assert(t[j] == b[j + 1]);
            }
            lemma_until_nul(t, i - 1);
            assert(b.subrange(0, i) =~= seq![b[0]] + t.subrange(0, i - 1));
        }
    } else {
        assert(b.subrange(0, i) =~= b);
    }
}

/// Reads a string argument: unquoted, or quoted strings joined by `+`.
pub fn get_string(toks: &mut Toks, ectx: &mut YangErrorCtx) -> (r: (bool, Option<Vec<u8>>))
    requires
        old(toks).ok(old(ectx)),
    ensures
        final(toks).data == old(toks).data,
        final(toks).read_error == old(toks).read_error,
        final(toks).filename == old(toks).filename,
        final(ectx).msg_cap == old(ectx).msg_cap,
        final(toks).ok(final(ectx)),
        (r.0, final(toks).ts(final(ectx)), opt_view(r.1)) == spec_get_string(old(toks).inp(old(ectx)), old(toks).ts(old(ectx))),
{
    let ghost inp = toks.inp(ectx);
    let ghost s0 = toks.ts(ectx);
    proof {
        lemma_skip(inp, s0);
        lemma_get_string(inp, s0);
    }
    if !skip(toks, ectx) {
        return (false, None);
    }
    let ghost s1 = toks.ts(ectx);
    let c = at_buf(&toks.buf, toks.p);
    if c == 59 || c == 123 || c == 125 {
        let m = "expected string";
        report_err(toks, ectx, YANG_ERR_PARSE_EXPECTED_STRING, (toks.p + 1) as i32, m.as_bytes());
        return (false, None);
    }
    if c != 34 && c != 39 {
        let start = toks.p;
        proof {
            lemma_unquoted_end(s1, s1.p);
        }
        while toks.p < toks.buf.len() - 1 && !looking_at_separator(&toks.buf, toks.p)
            && at_buf(&toks.buf, toks.p) != 125 && at_buf(&toks.buf, toks.p) != 34
            && at_buf(&toks.buf, toks.p) != 39
            invariant
                toks.data == old(toks).data,
                toks.read_error == old(toks).read_error,
                toks.filename == old(toks).filename,
                inp == toks.inp(ectx),
                toks.ts(ectx) == (TokState { p: toks.p as int, ..s1 }),
                s1.p <= toks.p < toks.buf@.len(),
                toks.buf@.len() >= 1,
                unquoted_end(s1, toks.p as int) == unquoted_end(s1, s1.p),
            decreases toks.buf@.len() - toks.p,
        {
            toks.p = toks.p + 1;
        }
        let v = until_nul_exec(&toks.buf[start..toks.p]);
        return (true, Some(v));
    }
    qstrings(toks, ectx)
}


/// A statement of the parse tree.  The tree is a list of statements; a
/// statement names its first substatement and the statement after it by
/// their places in the list.
pub struct YangStatement {
    pub prefix: Option<Atom>,
    pub module_name: Option<Atom>,
    pub keyword: Atom,
    pub arg: Option<Vec<u8>>,
    pub arg_type: Option<usize>,
    pub yang_version: i8,
    pub line: i32,
    pub next: Option<usize>,
    pub substmt: Option<usize>,
}

/// A statement as values.
pub struct StmtNode {
    pub prefix: Option<int>,
    pub module_name: Option<int>,
    pub keyword: int,
    pub arg: Option<Seq<u8>>,
    pub arg_type: Option<int>,
    pub yang_version: i8,
    pub line: int,
    pub next: Option<int>,
    pub substmt: Option<int>,
}

impl YangStatement {
    pub open spec fn view(&self) -> StmtNode {
        StmtNode {
            prefix: opt_int(self.prefix),
            module_name: opt_int(self.module_name),
            keyword: self.keyword as int,
            arg: opt_view(self.arg),
            arg_type: opt_int(self.arg_type),
            yang_version: self.yang_version,
            line: self.line as int,
            next: opt_int(self.next),
            substmt: opt_int(self.substmt),
        }
    }
}

/// The statements of a list, as values.
pub open spec fn nodes_view(v: Seq<YangStatement>) -> Seq<StmtNode> {
    v.map_values(|n: YangStatement| n.view())
}

/// A parse tree: the file it was read from, and its statements; the first
/// one is the top statement.
pub struct YangTree {
    pub filename: Option<Vec<u8>>,
    pub nodes: Vec<YangStatement>,
}

/// The outcome of parsing: success, the tokenizer state, the atom table, the
/// statements, and the place of the statement parsed.
pub struct ParseResult {
    pub ok: bool,
    pub s: TokState,
    pub atoms: Seq<Seq<u8>>,
    pub nodes: Seq<StmtNode>,
    pub idx: int,
}

/// The text `1.1`.
pub open spec fn text_1_1() -> Seq<u8> {
    seq![49u8, 46, 49]
}

/// The message for a statement that ends neither with `;` nor with a block.
pub open spec fn msg_unterminated(kw: Seq<u8>) -> Seq<u8> {
    "unterminated statement for keyword \"".spec_bytes() + kw + "\"".spec_bytes()
}

pub open spec fn fail(s: TokState, atoms: Seq<Seq<u8>>, nodes: Seq<StmtNode>) -> ParseResult {
    ParseResult { ok: false, s, atoms, nodes, idx: -1 }
}

/// The outcome of reading the start of a statement: success, the state, the
/// atom table, the line, the prefix, the keyword and the argument.
pub struct HeaderResult {
    pub ok: bool,
    pub s: TokState,
    pub atoms: Seq<Seq<u8>>,
    pub line: int,
    pub prefix: Option<int>,
    pub keyword: int,
    pub arg: Option<Seq<u8>>,
}

/// Reads the start of a statement: its keyword and, unless `{` or `;`
/// follows, its argument; then skips to what follows.
pub open spec fn spec_parse_header(inp: Inp, s: TokState, atoms: Seq<Seq<u8>>) -> HeaderResult {
    let (ok, s1) = spec_skip(inp, s);
    if !ok {
        HeaderResult { ok: false, s: s1, atoms, line: 0, prefix: None, keyword: 0, arg: None }
    } else {
        let line = s1.line;
        let k = spec_get_keyword(inp, s1, atoms);
        if !k.ok {
            HeaderResult { ok: false, s: k.s, atoms: k.atoms, line, prefix: None, keyword: 0, arg: None }
        } else {
            let (ok2, s2) = spec_skip(inp, k.s);
            if !ok2 {
                HeaderResult { ok: false, s: s2, atoms: k.atoms, line, prefix: None, keyword: 0, arg: None }
            } else {
                let c = spec_cur(s2);
                let (ok3, s3, arg) = if c != 123 && c != 59 {
                    spec_get_string(inp, s2)
                } else {
                    (true, s2, None)
                };
                if !ok3 {
                    HeaderResult { ok: false, s: s3, atoms: k.atoms, line, prefix: None, keyword: 0, arg: None }
                } else {
                    let (ok4, s4) = spec_skip(inp, s3);
                    HeaderResult { ok: ok4, s: s4, atoms: k.atoms, line, prefix: k.prefix, keyword: k.keyword->0, arg }
                }
            }
        }
    }
}

/// Parses one statement: keyword, optional argument, and `;` or a block of
/// substatements.  A `yang-version` statement with argument `1.1` switches
/// the tokenizer to YANG version 1.1.
pub open spec fn spec_parse_statement(inp: Inp, am: Option<int>, s: TokState, atoms: Seq<Seq<u8>>, nodes: Seq<StmtNode>) -> ParseResult
    decreases inp.data.len() - s.next, s.buf.len() - s.p, 0int,
{
    let h = spec_parse_header(inp, s, atoms);
    if !h.ok {
        fail(h.s, h.atoms, nodes)
    } else {
        let kw = h.keyword;
        let node = StmtNode {
            prefix: h.prefix,
            module_name: None,
            keyword: kw,
            arg: h.arg,
            arg_type: None,
            yang_version: 0,
            line: h.line,
            next: None,
            substmt: None,
        };
        let idx = nodes.len() as int;
        let nodes1 = nodes.push(node);
        let s5 = if am == Some(kw) && h.arg is Some && h.arg->0 == text_1_1() {
            TokState { yang_version: YANG_VERSION_1_1, ..h.s }
        } else {
            h.s
        };
        let c5 = spec_cur(s5);
        if c5 == 59 {
            ParseResult { ok: true, s: TokState { p: s5.p + 1, ..s5 }, atoms: h.atoms, nodes: nodes1, idx }
        } else if c5 == 123 {
            let (ok6, s6) = spec_skip(inp, TokState { p: s5.p + 1, ..s5 });
            if !ok6 {
                fail(s6, h.atoms, nodes1)
            } else if further(s6, s) && s6.next <= inp.data.len() {
                let r = spec_parse_substmts(inp, am, s6, h.atoms, nodes1, idx, None);
                ParseResult { idx: if r.ok { idx } else { -1 }, ..r }
            } else {
                fail(s6, h.atoms, nodes1)
            }
        } else {
            fail(spec_report(inp, s5, YANG_ERR_PARSE_INCOMPLETE_STATEMENT, col_of(s5.p), msg_unterminated(h.atoms[kw])), h.atoms, nodes1)
        }
    }
}

/// Links `child` as the first substatement of `parent`, or as the statement
/// after `prev`.
pub open spec fn link(nodes: Seq<StmtNode>, parent: int, prev: Option<int>, child: int) -> Seq<StmtNode> {
    match prev {
        None => nodes.update(parent, StmtNode { substmt: Some(child), ..nodes[parent] }),
        Some(q) => nodes.update(q, StmtNode { next: Some(child), ..nodes[q] }),
    }
}

/// Parses the substatements of `parent` up to the closing `}`; `prev` is the
/// last substatement parsed so far.
pub open spec fn spec_parse_substmts(inp: Inp, am: Option<int>, s: TokState, atoms: Seq<Seq<u8>>, nodes: Seq<StmtNode>, parent: int, prev: Option<int>) -> ParseResult
    decreases inp.data.len() - s.next, s.buf.len() - s.p, 1int,
{
    if spec_cur(s) == 125 {
        ParseResult { ok: true, s: TokState { p: s.p + 1, ..s }, atoms, nodes, idx: parent }
    } else {
        let r = spec_parse_statement(inp, am, s, atoms, nodes);
        if !r.ok {
            r
        } else {
            let nodes2 = link(r.nodes, parent, prev, r.idx);
            let (ok, s2) = spec_skip(inp, r.s);
            if !ok {
                fail(s2, r.atoms, nodes2)
            } else if further(s2, s) && s2.next <= inp.data.len() {
                spec_parse_substmts(inp, am, s2, r.atoms, nodes2, parent, Some(r.idx))
            } else {
                fail(s2, r.atoms, nodes2)
            }
        }
    }
}


/// Every link points to a later statement of the list.
pub open spec fn forward_links(n: Seq<StmtNode>) -> bool {
    forall|i: int|
        0 <= i < n.len() ==> (#[trigger] n[i].next matches Some(j) ==> i < j < n.len()) && (
        n[i].substmt matches Some(j) ==> i < j < n.len())
}

/// Every atom that a statement names is in a table of `len` atoms.
pub open spec fn atoms_in_range(n: Seq<StmtNode>, len: int) -> bool {
    forall|i: int|
        0 <= i < n.len() ==> 0 <= (#[trigger] n[i]).keyword < len && (n[i].prefix matches Some(a)
            ==> 0 <= a < len) && (n[i].module_name matches Some(a) ==> 0 <= a < len)
}

/// What parsing a statement or a block keeps: a consistent state, forward
/// movement, room in the atom table, and the statements already there.
pub open spec fn parse_post(inp: Inp, s: TokState, atoms: Seq<Seq<u8>>, nodes: Seq<StmtNode>, r: ParseResult) -> bool {
    &&& (forward_links(nodes) ==> forward_links(r.nodes))
    &&& (atoms_in_range(nodes, atoms.len() as int) ==> atoms_in_range(r.nodes, r.atoms.len() as int))
    &&& wf(inp, r.s)
    &&& not_behind(r.s, s)
    &&& abs_pos(r.s) >= abs_pos(s)
    &&& r.s.line >= s.line
    &&& r.s.expect_eof == s.expect_eof
    &&& (r.s.yang_version == s.yang_version || r.s.yang_version == YANG_VERSION_1_1)
    &&& spec_table_wf(r.atoms)
    &&& r.atoms.len() >= atoms.len()
    &&& r.nodes.len() >= nodes.len()
    &&& (r.ok ==> atom_room(inp, r.s, r.atoms))
    &&& (!r.ok ==> r.atoms.len() + (inp.data.len() - abs_pos(r.s)) + 1 <= usize::MAX)
}

/// Reading the start of a statement keeps the state consistent, moves past
/// the keyword, and keeps room in the atom table.
pub proof fn lemma_parse_header(inp: Inp, s: TokState, atoms: Seq<Seq<u8>>)
    requires
        wf(inp, s),
        spec_table_wf(atoms),
        atom_room(inp, s, atoms),
    ensures
        ({
            let h = spec_parse_header(inp, s, atoms);
            &&& wf(inp, h.s)
            &&& not_behind(h.s, s)
            &&& abs_pos(h.s) >= abs_pos(s)
            &&& h.s.line >= s.line
            &&& h.s.expect_eof == s.expect_eof
            &&& h.s.yang_version == s.yang_version
            &&& spec_table_wf(h.atoms)
            &&& h.atoms.len() >= atoms.len()
            &&& (h.ok ==> atom_room(inp, h.s, h.atoms))
            &&& (h.ok ==> further(h.s, s))
            &&& (h.ok ==> 0 <= h.keyword < h.atoms.len())
            &&& (h.ok ==> (h.prefix matches Some(a) ==> 0 <= a < h.atoms.len()))
            &&& (h.ok ==> spec_cur(h.s) != 0)
            &&& (h.ok ==> 0 <= h.line <= MAX_INPUT)
            &&& (!h.ok ==> h.atoms.len() + (inp.data.len() - abs_pos(h.s)) + 1 <= usize::MAX)
        }),
{
    lemma_skip(inp, s);
    let (ok, s1) = spec_skip(inp, s);
    if ok {
        lemma_get_keyword(inp, s1, atoms);
        let k = spec_get_keyword(inp, s1, atoms);
        if k.ok {
            lemma_skip(inp, k.s);
            let (ok2, s2) = spec_skip(inp, k.s);
            if ok2 {
                lemma_get_string(inp, s2);
                let c = spec_cur(s2);
                let (ok3, s3, arg) = if c != 123 && c != 59 {
                    spec_get_string(inp, s2)
                } else {
                    (true, s2, None)
                };
                if ok3 {
                    lemma_skip(inp, s3);
                    let (ok4, s4) = spec_skip(inp, s3);
                    lemma_not_behind_trans(s2, k.s, s1);
                    lemma_not_behind_trans(s3, s2, s1);
                    lemma_not_behind_trans(s4, s3, s1);
                    lemma_not_behind_trans(s4, s1, s);
                }
            }
        }
    }
}

/// Parsing a statement keeps what `parse_post` says; a statement parsed lies
/// at the end of the list it was added to, and parsing moved forward.
#[verifier::spinoff_prover]
pub proof fn lemma_parse_statement(inp: Inp, am: Option<int>, s: TokState, atoms: Seq<Seq<u8>>, nodes: Seq<StmtNode>)
    requires
        wf(inp, s),
        spec_table_wf(atoms),
        atom_room(inp, s, atoms),
    ensures
        parse_post(inp, s, atoms, nodes, spec_parse_statement(inp, am, s, atoms, nodes)),
        spec_parse_statement(inp, am, s, atoms, nodes).ok ==> spec_parse_statement(inp, am, s, atoms, nodes).idx == nodes.len(),
        spec_parse_statement(inp, am, s, atoms, nodes).ok ==> spec_parse_statement(inp, am, s, atoms, nodes).nodes.len() > nodes.len(),
        spec_parse_statement(inp, am, s, atoms, nodes).ok ==> further(spec_parse_statement(inp, am, s, atoms, nodes).s, s),
    decreases inp.data.len() - s.next, s.buf.len() - s.p, 0int,
{
    lemma_parse_header(inp, s, atoms);
    let h = spec_parse_header(inp, s, atoms);
    if h.ok {
        let kw = h.keyword;
        let s5 = if am == Some(kw) && h.arg is Some && h.arg->0 == text_1_1() {
            TokState { yang_version: YANG_VERSION_1_1, ..h.s }
        } else {
            h.s
        };
        let c5 = spec_cur(s5);
        if c5 == 123 {
            let s55 = TokState { p: s5.p + 1, ..s5 };
            lemma_skip(inp, s55);
            let (ok6, s6) = spec_skip(inp, s55);
            if ok6 && further(s6, s) && s6.next <= inp.data.len() {
                let idx = nodes.len() as int;
                let node = StmtNode {
                    prefix: h.prefix,
                    module_name: None,
                    keyword: kw,
                    arg: h.arg,
                    arg_type: None,
                    yang_version: 0,
                    line: h.line,
                    next: None,
                    substmt: None,
                };
                lemma_parse_substmts(inp, am, s6, h.atoms, nodes.push(node), idx, None);
            }
        }
    }
}

/// Linking a new statement after earlier ones keeps links forward and atoms in range.
proof fn lemma_link(nodes: Seq<StmtNode>, parent: int, prev: Option<int>, child: int, len: int)
    requires
        0 <= parent < child,
        prev matches Some(q) ==> 0 <= q < child,
        child < nodes.len(),
    ensures
        forward_links(nodes) ==> forward_links(link(nodes, parent, prev, child)),
        atoms_in_range(nodes, len) ==> atoms_in_range(link(nodes, parent, prev, child), len),
        link(nodes, parent, prev, child).len() == nodes.len(),
{
    let l = link(nodes, parent, prev, child);
    if forward_links(nodes) {
        assert forall|i: int| 0 <= i < l.len() implies (#[trigger] l[i].next matches Some(j) ==> i < j < l.len()) && (
        l[i].substmt matches Some(j) ==> i < j < l.len()) by {
            assert(nodes[i].next matches Some(j) ==> i < j < nodes.len());
        }
    }
    if atoms_in_range(nodes, len) {
        assert forall|i: int| 0 <= i < l.len() implies 0 <= (#[trigger] l[i]).keyword < len && (l[i].prefix matches Some(a)
            ==> 0 <= a < len) && (l[i].module_name matches Some(a) ==> 0 <= a < len) by {
            assert(0 <= nodes[i].keyword < len);
        }
    }
}

/// Parsing a block of substatements keeps what `parse_post` says.
#[verifier::spinoff_prover]
pub proof fn lemma_parse_substmts(inp: Inp, am: Option<int>, s: TokState, atoms: Seq<Seq<u8>>, nodes: Seq<StmtNode>, parent: int, prev: Option<int>)
    requires
        wf(inp, s),
        spec_table_wf(atoms),
        atom_room(inp, s, atoms),
        0 <= parent < nodes.len(),
        prev matches Some(q) ==> 0 <= q < nodes.len(),
    ensures
        parse_post(inp, s, atoms, nodes, spec_parse_substmts(inp, am, s, atoms, nodes, parent, prev)),
    decreases inp.data.len() - s.next, s.buf.len() - s.p, 1int,
{
    if spec_cur(s) != 125 {
        lemma_parse_statement(inp, am, s, atoms, nodes);
        let r = spec_parse_statement(inp, am, s, atoms, nodes);
        if r.ok {
            lemma_link(r.nodes, parent, prev, r.idx, r.atoms.len() as int);
            let nodes2 = link(r.nodes, parent, prev, r.idx);
            lemma_skip(inp, r.s);
            let (ok, s2) = spec_skip(inp, r.s);
            lemma_not_behind_trans(s2, r.s, s);
            if ok && further(s2, s) && s2.next <= inp.data.len() {
                lemma_parse_substmts(inp, am, s2, r.atoms, nodes2, parent, Some(r.idx));
                let f = spec_parse_substmts(inp, am, s2, r.atoms, nodes2, parent, Some(r.idx));
                lemma_not_behind_trans(f.s, s2, s);
            }
        }
    }
}


/// Reads the start of a statement.
fn parse_header(toks: &mut Toks, ectx: &mut YangErrorCtx, atoms: &mut AtomTable) -> (r: (bool, i32, Option<Atom>, Atom, Option<Vec<u8>>))
    requires
        old(toks).ok(old(ectx)),
        old(atoms).wf(),
        atom_room(old(toks).inp(old(ectx)), old(toks).ts(old(ectx)), old(atoms).view()),
    ensures
        final(toks).data == old(toks).data,
        final(toks).read_error == old(toks).read_error,
        final(toks).filename == old(toks).filename,
        final(ectx).msg_cap == old(ectx).msg_cap,
        final(toks).ok(final(ectx)),
        final(atoms).wf(),
        ({
            let h = spec_parse_header(old(toks).inp(old(ectx)), old(toks).ts(old(ectx)), old(atoms).view());
            &&& r.0 == h.ok
            &&& final(toks).ts(final(ectx)) == h.s
            &&& final(atoms).view() == h.atoms
            &&& (h.ok ==> r.1 as int == h.line && opt_int(r.2) == h.prefix && r.3 as int == h.keyword && opt_view(r.4) == h.arg)
        }),
{
    let ghost inp = toks.inp(ectx);
    let ghost s0 = toks.ts(ectx);
    proof {
        lemma_parse_header(inp, s0, atoms.view());
        lemma_skip(inp, s0);
    }
    if !skip(toks, ectx) {
        return (false, 0, None, 0, None);
    }
    let line = toks.line;
    proof {
        lemma_get_keyword(inp, toks.ts(ectx), atoms.view());
    }
    let (okk, prefix, keyword) = get_keyword(toks, ectx, atoms);
    if !okk {
        return (false, line, None, 0, None);
    }
    let kw = match keyword {
        Some(k) => k,
        None => {
            return (false, line, None, 0, None);
        },
    };
    proof {
        lemma_skip(inp, toks.ts(ectx));
    }
    if !skip(toks, ectx) {
        return (false, line, None, 0, None);
    }
    let c = at_buf(&toks.buf, toks.p);
    let mut arg: Option<Vec<u8>> = None;
    if c != 123 && c != 59 {
        proof {
            lemma_get_string(inp, toks.ts(ectx));
        }
        let (oks, a) = get_string(toks, ectx);
        if !oks {
            return (false, line, None, 0, None);
        }
        arg = a;
    }
    proof {
        lemma_skip(inp, toks.ts(ectx));
    }
    let ok4 = skip(toks, ectx);
    (ok4, line, prefix, kw, arg)
}

/// Whether `arg` is the text `1.1`.
fn is_1_1(arg: &Option<Vec<u8>>) -> (r: bool)
    ensures
        r == (opt_view(*arg) is Some && opt_view(*arg)->0 == text_1_1()),
{
    match arg {
        Some(a) => {
            let w: [u8; 3] = [49, 46, 49];
            assert(w@ =~= text_1_1());
            bytes_eq(a.as_slice(), &w)
        },
        None => false,
    }
}

/// Parses one statement, adding it and its substatements to `nodes`; the
/// second result is the place of the statement in `nodes`.
pub fn parse_statement(toks: &mut Toks, ectx: &mut YangErrorCtx, atoms: &mut AtomTable, am: Option<Atom>, nodes: &mut Vec<YangStatement>) -> (r: (bool, usize))
    requires
        old(toks).ok(old(ectx)),
        old(atoms).wf(),
        atom_room(old(toks).inp(old(ectx)), old(toks).ts(old(ectx)), old(atoms).view()),
    ensures
        final(toks).data == old(toks).data,
        final(toks).read_error == old(toks).read_error,
        final(toks).filename == old(toks).filename,
        final(ectx).msg_cap == old(ectx).msg_cap,
        final(toks).ok(final(ectx)),
        final(atoms).wf(),
        ({
            let pr = spec_parse_statement(old(toks).inp(old(ectx)), opt_int(am), old(toks).ts(old(ectx)), old(atoms).view(), nodes_view(old(nodes)@));
            &&& r.0 == pr.ok
            &&& final(toks).ts(final(ectx)) == pr.s
            &&& final(atoms).view() == pr.atoms
            &&& nodes_view(final(nodes)@) == pr.nodes
            &&& (pr.ok ==> r.1 as int == pr.idx)
        }),
    decreases old(toks).data@.len() - old(toks).next, old(toks).buf@.len() - old(toks).p, 0int,
{
    let ghost inp = toks.inp(ectx);
    let ghost s0 = toks.ts(ectx);
    let ghost a0 = atoms.view();
    let ghost n0 = nodes_view(nodes@);
    proof {
        lemma_parse_statement(inp, opt_int(am), s0, a0, n0);
        lemma_parse_header(inp, s0, a0);
    }
    let (okh, line, prefix, kw, arg) = parse_header(toks, ectx, atoms);
    if !okh {
        return (false, 0);
    }
    let set_version = match am {
        Some(a) => a == kw,
        None => false,
    } && is_1_1(&arg);
    let idx = nodes.len();
    let node = YangStatement {
        prefix,
        module_name: None,
        keyword: kw,
        arg,
        arg_type: None,
        yang_version: 0,
        line,
        next: None,
        substmt: None,
    };
    nodes.push(node);
    assert(nodes_view(nodes@) =~= n0.push(node.view()));
    if set_version {
        toks.yang_version = YANG_VERSION_1_1;
    }
    let c5 = at_buf(&toks.buf, toks.p);
    if c5 == 59 {
        toks.p = toks.p + 1;
        return (true, idx);
    }
    if c5 == 123 {
        toks.p = toks.p + 1;
        proof {
            lemma_skip(inp, toks.ts(ectx));
        }
        if !skip(toks, ectx) {
            return (false, 0);
        }
        let ghost s6 = toks.ts(ectx);
        let ghost target = spec_parse_substmts(inp, opt_int(am), s6, atoms.view(), nodes_view(nodes@), idx as int, None);
        proof {
            lemma_parse_substmts(inp, opt_int(am), s6, atoms.view(), nodes_view(nodes@), idx as int, None);
            let h = spec_parse_header(inp, s0, a0);
            let s5 = toks.ts(ectx);
            lemma_not_behind_trans(s6, h.s, s0);
            assert(further(s6, s0));
            assert(spec_parse_statement(inp, opt_int(am), s0, a0, n0) == (ParseResult { idx: if target.ok { idx as int } else { -1 }, ..target }));
        }
        let mut prev: Option<usize> = None;
        loop
            invariant
                toks.data == old(toks).data,
                toks.read_error == old(toks).read_error,
                toks.filename == old(toks).filename,
                ectx.msg_cap == old(ectx).msg_cap,
                inp == toks.inp(ectx),
                inp == old(toks).inp(old(ectx)),
                s0 == old(toks).ts(old(ectx)),
                toks.ok(ectx),
                atoms.wf(),
                atom_room(inp, toks.ts(ectx), atoms.view()),
                further(toks.ts(ectx), s0),
                not_behind(toks.ts(ectx), s0),
                idx < nodes@.len(),
                prev matches Some(q) ==> q < nodes@.len(),
                spec_parse_substmts(inp, opt_int(am), toks.ts(ectx), atoms.view(), nodes_view(nodes@), idx as int, opt_int(prev)) == target,
                spec_parse_statement(inp, opt_int(am), s0, old(atoms).view(), nodes_view(old(nodes)@)) == (ParseResult { idx: if target.ok { idx as int } else { -1 }, ..target }),
            decreases inp.data.len() - toks.next, toks.buf@.len() - toks.p,
        {
            let ghost s7 = toks.ts(ectx);
            if at_buf(&toks.buf, toks.p) == 125 {
                toks.p = toks.p + 1;
                return (true, idx);
            }
            let ghost nv = nodes_view(nodes@);
            let ghost a7 = atoms.view();
            proof {
                lemma_parse_statement(inp, opt_int(am), s7, a7, nv);
            }
            let (okc, child) = parse_statement(toks, ectx, atoms, am, nodes);
            if !okc {
                return (false, 0);
            }
            let ghost nv2 = nodes_view(nodes@);
            match prev {
                None => {
                    nodes[idx].substmt = Some(child);
                },
                Some(q) => {
                    nodes[q].next = Some(child);
                },
            }
            assert(nodes_view(nodes@) =~= link(nv2, idx as int, opt_int(prev), child as int));
            proof {
                lemma_skip(inp, toks.ts(ectx));
            }
            if !skip(toks, ectx) {
                return (false, 0);
            }
            proof {
                let s8 = toks.ts(ectx);
                lemma_not_behind_trans(s8, spec_parse_statement(inp, opt_int(am), s7, a7, nv).s, s7);
            }
            prev = Some(child);
            proof {
                lemma_not_behind_trans(toks.ts(ectx), s7, s0);
            }
        }
    }
    let name = atoms.name(kw);
    let mut m: Vec<u8> = Vec::new();
    push_str(&mut m, "unterminated statement for keyword \"");
    push_bytes(&mut m, name.as_slice());
    push_str(&mut m, "\"");
    assert(m@ =~= msg_unterminated(atoms.view()[kw as int]));
    report_err(toks, ectx, YANG_ERR_PARSE_INCOMPLETE_STATEMENT, (toks.p + 1) as i32, m.as_slice());
    (false, 0)
}


/// The state the tokenizer starts in: before the first line, YANG version 1.
pub open spec fn init_state(errs: Seq<ErrorRecord>) -> TokState {
    TokState { next: 0, line: 0, buf: seq![0u8], p: 0, expect_eof: false, yang_version: YANG_VERSION_1, errs }
}

/// The outcome of parsing a file: success, the errors, the atom table, and
/// the statements when it succeeded.
pub struct FileResult {
    pub ok: bool,
    pub errs: Seq<ErrorRecord>,
    pub atoms: Seq<Seq<u8>>,
    pub nodes: Option<Seq<StmtNode>>,
}

/// Parses a whole file: one top statement, after which only white space and
/// comments may follow; anything else is reported, and the parse still succeeds.
pub open spec fn spec_yang_parse(inp: Inp, am: Option<int>, errs: Seq<ErrorRecord>, atoms: Seq<Seq<u8>>) -> FileResult {
    let (ok, s1) = spec_readline(inp, init_state(errs));
    if !ok {
        FileResult { ok: false, errs: s1.errs, atoms, nodes: None }
    } else {
        let r = spec_parse_statement(inp, am, s1, atoms, Seq::<StmtNode>::empty());
        let s2 = TokState { expect_eof: true, ..r.s };
        if r.ok {
            let (g, s3) = spec_skip(inp, s2);
            let errs3 = if g {
                spec_report(inp, s3, YANG_ERR_PARSE_TRAILING_GARBAGE, col_of(s3.p), "trailing garbage after module".spec_bytes()).errs
            } else {
                s3.errs
            };
            FileResult { ok: true, errs: errs3, atoms: r.atoms, nodes: Some(r.nodes) }
        } else {
            FileResult { ok: false, errs: s2.errs, atoms: r.atoms, nodes: None }
        }
    }
}

/// Parses the contents of a file.  `data` is what was read, `read_error` the
/// message of the error that ended reading early, if any.  `am` is the atom
/// of `yang-version`, when the parser has been initialised.  On success the
/// tree's first statement is the top statement.
pub fn yang_parse(
    data: &[u8],
    read_error: &Option<Vec<u8>>,
    filename: &Option<Vec<u8>>,
    ectx: &mut YangErrorCtx,
    atoms: &mut AtomTable,
    am: Option<Atom>,
) -> (r: (bool, Option<YangTree>))
    requires
        data@.len() <= MAX_INPUT,
        old(ectx).msg_cap >= 1,
        old(atoms).wf(),
        old(atoms).view().len() + data@.len() + 2 <= usize::MAX,
    ensures
        final(ectx).msg_cap == old(ectx).msg_cap,
        final(atoms).wf(),
        ({
            let inp = Inp { data: data@, read_error: opt_view(*read_error), filename: opt_view(*filename), msg_cap: old(ectx).msg_cap };
            let fr = spec_yang_parse(inp, opt_int(am), old(ectx).errors(), old(atoms).view());
            &&& r.0 == fr.ok
            &&& final(ectx).errors() == fr.errs
            &&& final(atoms).view() == fr.atoms
            &&& match r.1 {
                Some(t) => fr.nodes == Some(nodes_view(t.nodes@)) && opt_view(t.filename) == opt_view(*filename),
                None => fr.nodes is None,
            }
        }),
        r.1 matches Some(t) ==> t.nodes@.len() > 0 && forward_links(nodes_view(t.nodes@))
            && atoms_in_range(nodes_view(t.nodes@), final(atoms).view().len() as int),
{
    let mut b: Vec<u8> = Vec::new();
    b.push(0);
    let mut toks = Toks {
        data,
        read_error,
        filename,
        next: 0,
        line: 0,
        buf: b,
        p: 0,
        expect_eof: false,
        yang_version: YANG_VERSION_1,
    };
    let ghost inp = toks.inp(ectx);
    assert(toks.buf@ =~= seq![0u8]);
    assert(toks.ts(ectx) == init_state(old(ectx).errors()));
    proof {
        lemma_readline(inp, toks.ts(ectx));
    }
    if !readline(&mut toks, ectx) {
        return (false, None);
    }
    let ghost s1 = toks.ts(ectx);
    let mut nodes: Vec<YangStatement> = Vec::new();
    assert(nodes_view(nodes@) =~= Seq::<StmtNode>::empty());
    proof {
        lemma_parse_statement(inp, opt_int(am), s1, atoms.view(), Seq::<StmtNode>::empty());
    }
    let (ok, _root) = parse_statement(&mut toks, ectx, atoms, am, &mut nodes);
    toks.expect_eof = true;
    if ok {
        proof {
            lemma_skip(inp, toks.ts(ectx));
        }
        if skip(&mut toks, ectx) {
            let m = "trailing garbage after module";
            report_err(&toks, ectx, YANG_ERR_PARSE_TRAILING_GARBAGE, (toks.p + 1) as i32, m.as_bytes());
        }
        let f = match filename {
            Some(v) => Some(crate::text::copy_bytes(v.as_slice())),
            None => None,
        };
        return (true, Some(YangTree { filename: f, nodes }));
    }
    (false, None)
}

/// `a` is `b` but for its links to its next statement and first substatement.
pub open spec fn same_but_links(a: StmtNode, b: StmtNode) -> bool {
    a == StmtNode { next: a.next, substmt: a.substmt, ..b }
}

/// What parsing a block leaves of the statements there before: only the
/// parent's first substatement and the last substatement's next link change.
pub open spec fn block_keeps(nodes: Seq<StmtNode>, r: Seq<StmtNode>, parent: int, prev: Option<int>) -> bool {
    &&& r.len() >= nodes.len()
    &&& forall|i: int| 0 <= i < nodes.len() ==> {
        if i == parent {
            #[trigger] r[i] == StmtNode { substmt: r[i].substmt, ..nodes[i] }
        } else if prev == Some(i) {
            r[i] == StmtNode { next: r[i].next, ..nodes[i] }
        } else {
            r[i] == nodes[i]
        }
    }
}

proof fn lemma_stmt_shape(inp: Inp, am: Option<int>, s: TokState, atoms: Seq<Seq<u8>>, nodes: Seq<StmtNode>)
    requires
        wf(inp, s),
        spec_table_wf(atoms),
        atom_room(inp, s, atoms),
    ensures
        ({
            let r = spec_parse_statement(inp, am, s, atoms, nodes);
            let h = spec_parse_header(inp, s, atoms);
            r.ok ==> {
                &&& h.ok
                &&& r.idx == nodes.len()
                &&& r.nodes.len() > nodes.len()
                &&& forall|i: int| 0 <= i < nodes.len() ==> #[trigger] r.nodes[i] == nodes[i]
                &&& r.nodes[r.idx] == (StmtNode {
                    prefix: h.prefix,
                    module_name: None,
                    keyword: h.keyword,
                    arg: h.arg,
                    arg_type: None,
                    yang_version: 0,
                    line: h.line,
                    next: None,
                    substmt: r.nodes[r.idx].substmt,
                })
            }
        }),
    decreases inp.data.len() - s.next, s.buf.len() - s.p, 0int,
{
    lemma_parse_statement(inp, am, s, atoms, nodes);
    lemma_parse_header(inp, s, atoms);
    let h = spec_parse_header(inp, s, atoms);
    if h.ok {
        let kw = h.keyword;
        let node = StmtNode {
            prefix: h.prefix,
            module_name: None,
            keyword: kw,
            arg: h.arg,
            arg_type: None,
            yang_version: 0,
            line: h.line,
            next: None,
            substmt: None,
        };
        let idx = nodes.len() as int;
        let nodes1 = nodes.push(node);
        let s5 = if am == Some(kw) && h.arg is Some && h.arg->0 == text_1_1() {
            TokState { yang_version: YANG_VERSION_1_1, ..h.s }
        } else {
            h.s
        };
        let c5 = spec_cur(s5);
        if c5 == 123 {
            let (ok6, s6) = spec_skip(inp, TokState { p: s5.p + 1, ..s5 });
            lemma_skip(inp, TokState { p: s5.p + 1, ..s5 });
            if ok6 && further(s6, s) && s6.next <= inp.data.len() {
                lemma_substmts_shape(inp, am, s6, h.atoms, nodes1, idx, None);
                let r = spec_parse_substmts(inp, am, s6, h.atoms, nodes1, idx, None);
                if r.ok {
                    assert forall|i: int| 0 <= i < nodes.len() implies #[trigger] r.nodes[i] == nodes[i] by {
                        assert(nodes1[i] == nodes[i]);
                    }
                    assert(r.nodes[idx] == StmtNode { substmt: r.nodes[idx].substmt, ..nodes1[idx] });
                }
            }
        }
    }
}

proof fn lemma_substmts_shape(inp: Inp, am: Option<int>, s: TokState, atoms: Seq<Seq<u8>>, nodes: Seq<StmtNode>, parent: int, prev: Option<int>)
    requires
        wf(inp, s),
        spec_table_wf(atoms),
        atom_room(inp, s, atoms),
        0 <= parent < nodes.len(),
        prev matches Some(q) ==> parent < q < nodes.len(),
    ensures
        spec_parse_substmts(inp, am, s, atoms, nodes, parent, prev).ok
            ==> block_keeps(nodes, spec_parse_substmts(inp, am, s, atoms, nodes, parent, prev).nodes, parent, prev),
    decreases inp.data.len() - s.next, s.buf.len() - s.p, 1int,
{
    if spec_cur(s) != 125 {
        lemma_parse_statement(inp, am, s, atoms, nodes);
        lemma_stmt_shape(inp, am, s, atoms, nodes);
        let r = spec_parse_statement(inp, am, s, atoms, nodes);
        if r.ok {
            lemma_link(r.nodes, parent, prev, r.idx, r.atoms.len() as int);
            let nodes2 = link(r.nodes, parent, prev, r.idx);
            lemma_skip(inp, r.s);
            let (ok, s2) = spec_skip(inp, r.s);
            lemma_not_behind_trans(s2, r.s, s);
            if ok && further(s2, s) && s2.next <= inp.data.len() {
                lemma_substmts_shape(inp, am, s2, r.atoms, nodes2, parent, Some(r.idx));
                let f = spec_parse_substmts(inp, am, s2, r.atoms, nodes2, parent, Some(r.idx));
                if f.ok {
                    assert forall|i: int| 0 <= i < nodes.len() implies {
                        if i == parent {
                            #[trigger] f.nodes[i] == StmtNode { substmt: f.nodes[i].substmt, ..nodes[i] }
                        } else if prev == Some(i) {
                            f.nodes[i] == StmtNode { next: f.nodes[i].next, ..nodes[i] }
                        } else {
                            f.nodes[i] == nodes[i]
                        }
                    } by {
                        assert(r.nodes[i] == nodes[i]);
                        assert(i < nodes2.len());
                        if i == parent {
                            assert(f.nodes[i] == StmtNode { substmt: f.nodes[i].substmt, ..nodes2[i] });
                        } else if prev == Some(i) {
                            assert(f.nodes[i] == nodes2[i]);
                        } else {
                            assert(f.nodes[i] == nodes2[i]);
                        }
                    }
                }
            }
        }
    }
}

/// The statement a parse builds: on success it is added after the
/// statements there before, which stay as they were; it has the prefix and
/// keyword read, its argument, the line its keyword is on, no module, no
/// argument type, version 0 and no next statement; its substatements, if
/// any, follow it in the list, in the order of the text, the first one named
/// by its first-substatement link and each by the one before it.
pub proof fn law_statement_shape(inp: Inp, am: Option<int>, s: TokState, atoms: Seq<Seq<u8>>, nodes: Seq<StmtNode>)
    requires
        wf(inp, s),
        spec_table_wf(atoms),
        atom_room(inp, s, atoms),
        forward_links(nodes),
    ensures
        ({
            let r = spec_parse_statement(inp, am, s, atoms, nodes);
            let h = spec_parse_header(inp, s, atoms);
            r.ok ==> {
                &&& h.ok
                &&& r.idx == nodes.len()
                &&& r.nodes.len() > nodes.len()
                &&& r.nodes.subrange(0, nodes.len() as int) == nodes
                &&& r.nodes[r.idx] == (StmtNode {
                    prefix: h.prefix,
                    module_name: None,
                    keyword: h.keyword,
                    arg: h.arg,
                    arg_type: None,
                    yang_version: 0,
                    line: h.line,
                    next: None,
                    substmt: r.nodes[r.idx].substmt,
                })
                &&& forward_links(r.nodes)
            }
        }),
{
    lemma_stmt_shape(inp, am, s, atoms, nodes);
    lemma_parse_statement(inp, am, s, atoms, nodes);
    let r = spec_parse_statement(inp, am, s, atoms, nodes);
    if r.ok {
        assert(r.nodes.subrange(0, nodes.len() as int) =~= nodes);
    }
}

/// How a statement sets the YANG version of what follows.  Parsing a
/// statement leaves the version as it was or makes it YANG 1.1, never
/// anything else.  A `yang-version` statement whose argument is `1.1` makes
/// it YANG 1.1.  A statement that ends with `;` right after its argument is
/// added as a leaf with the keyword, prefix, argument and line read, and
/// leaves the version as it was unless it is such a `yang-version` statement.
pub proof fn law_statement_version(inp: Inp, am: Option<int>, s: TokState, atoms: Seq<Seq<u8>>, nodes: Seq<StmtNode>)
    requires
        wf(inp, s),
        spec_table_wf(atoms),
        atom_room(inp, s, atoms),
    ensures
        ({
            let r = spec_parse_statement(inp, am, s, atoms, nodes);
            let h = spec_parse_header(inp, s, atoms);
            let sets = am == Some(h.keyword) && h.arg == Some(text_1_1());
            &&& r.s.yang_version == s.yang_version || r.s.yang_version == YANG_VERSION_1_1
            &&& (r.ok && h.ok && sets ==> r.s.yang_version == YANG_VERSION_1_1)
            &&& (h.ok && spec_cur(h.s) == 59 ==> {
                &&& r.ok
                &&& r.idx == nodes.len()
                &&& r.nodes == nodes.push(StmtNode {
                    prefix: h.prefix,
                    module_name: None,
                    keyword: h.keyword,
                    arg: h.arg,
                    arg_type: None,
                    yang_version: 0,
                    line: h.line,
                    next: None,
                    substmt: None,
                })
                &&& r.s.yang_version == if sets { YANG_VERSION_1_1 } else { s.yang_version }
            })
        }),
{
    lemma_parse_statement(inp, am, s, atoms, nodes);
    lemma_parse_header(inp, s, atoms);
    let h = spec_parse_header(inp, s, atoms);
    if h.ok {
        let kw = h.keyword;
        let node = StmtNode {
            prefix: h.prefix,
            module_name: None,
            keyword: kw,
            arg: h.arg,
            arg_type: None,
            yang_version: 0,
            line: h.line,
            next: None,
            substmt: None,
        };
        let idx = nodes.len() as int;
        let nodes1 = nodes.push(node);
        let s5 = if am == Some(kw) && h.arg is Some && h.arg->0 == text_1_1() {
            TokState { yang_version: YANG_VERSION_1_1, ..h.s }
        } else {
            h.s
        };
        let c5 = spec_cur(s5);
        if c5 == 123 {
            let (ok6, s6) = spec_skip(inp, TokState { p: s5.p + 1, ..s5 });
            lemma_skip(inp, TokState { p: s5.p + 1, ..s5 });
            if ok6 && further(s6, s) && s6.next <= inp.data.len() {
                lemma_parse_substmts(inp, am, s6, h.atoms, nodes1, idx, None);
            }
        }
    }
}

/// Parsing never takes back an error: the errors reported before a parse
/// stay, first and in their order, whatever the input.
pub proof fn law_parse_appends(inp: Inp, am: Option<int>, errs: Seq<ErrorRecord>, atoms: Seq<Seq<u8>>)
    requires
        inp.data.len() <= MAX_INPUT,
        inp.msg_cap >= 1,
        spec_table_wf(atoms),
        atoms.len() + inp.data.len() + 2 <= usize::MAX,
    ensures
        errs.len() <= spec_yang_parse(inp, am, errs, atoms).errs.len(),
        spec_yang_parse(inp, am, errs, atoms).errs.subrange(0, errs.len() as int) == errs,
{
    let s0 = init_state(errs);
    lemma_readline(inp, s0);
    let (ok, s1) = spec_readline(inp, s0);
    let fr = spec_yang_parse(inp, am, errs, atoms);
    if ok {
        lemma_parse_statement(inp, am, s1, atoms, Seq::<StmtNode>::empty());
        let r = spec_parse_statement(inp, am, s1, atoms, Seq::<StmtNode>::empty());
        let s2 = TokState { expect_eof: true, ..r.s };
        if r.ok {
            lemma_skip(inp, s2);
        }
        assert(errs_grow(s2, s0));
    }
    assert(fr.errs.subrange(0, errs.len() as int) =~= errs);
}

/// Reports an error at a given file, line and column, unless the message
/// holds a NUL byte.
pub fn report_err_filename(ectx: &mut YangErrorCtx, filename: &Option<Vec<u8>>, line: i32, col: i32, code: i32, msg: &[u8])
    requires
        old(ectx).msg_cap >= 1,
    ensures
        final(ectx).msg_cap == old(ectx).msg_cap,
        final(ectx).errors() == if msg@.contains(0u8) {
            old(ectx).errors()
        } else {
            old(ectx).errors().push(
                ErrorRecord { code, filename: opt_view(*filename), line, col, msg: spec_stored_msg(msg@, old(ectx).msg_cap) },
            )
        },
{
    report_msg(ectx, code, filename, line, col, msg);
}

/// The atom of the keyword `yang-version`, which the parser watches for.
pub fn yang_init_parser(atoms: &mut AtomTable) -> (r: Atom)
    requires
        old(atoms).view().len() < usize::MAX,
    ensures
        (final(atoms).view(), r as int) == spec_intern(old(atoms).view(), "yang-version".spec_bytes()),
{
    let w = "yang-version";
    atoms.intern_bytes(w.as_bytes())
}

/// Releases one statement.
pub fn yang_free_statement(stmt: YangStatement) {
}

/// Releases a parse tree.
pub fn yang_free_tree(tree: YangTree) {
}

} // verus!
