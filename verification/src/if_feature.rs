//! The `if-feature` expression parser of YANG 1.1 (RFC 7950, section 7.20.2).
//!
//! The expression grammar is parsed by recursive descent with one token of
//! look-ahead.  The keywords `or`, `and` and `not` are also accepted where an
//! identifier is expected; `not` counts as an identifier when what follows it
//! does not parse as an expression.

use vstd::prelude::*;

verus! {

/// Tokens of an `if-feature` expression.
#[derive(Clone, Copy, PartialEq, Eq, Debug, Structural)]
pub enum Tok {
    SyntaxError,
    Eof,
    Or,
    And,
    Not,
    LParen,
    RParen,
    Identifier,
}

/// ASCII letter.
pub open spec fn spec_is_alpha(b: u8) -> bool {
    (65 <= b <= 90) || (97 <= b <= 122)
}

/// ASCII digit.
pub open spec fn spec_is_digit(b: u8) -> bool {
    48 <= b <= 57
}

/// First character of a YANG identifier: a letter or `_`.
pub open spec fn spec_is_identifier1(b: u8) -> bool {
    spec_is_alpha(b) || b == 95
}

/// Later character of a YANG identifier: a letter, a digit, `_`, `.` or `-`.
pub open spec fn spec_is_identifier2(b: u8) -> bool {
    spec_is_alpha(b) || spec_is_digit(b) || b == 95 || b == 46 || b == 45
}

/// White space between tokens: space, tab, line feed, carriage return.
pub open spec fn spec_is_wspace(b: u8) -> bool {
    b == 32 || b == 9 || b == 10 || b == 13
}

/// What may follow a keyword: end of input, white space or a parenthesis.
pub open spec fn spec_is_delim(b: Option<u8>) -> bool {
    match b {
        None => true,
        Some(c) => spec_is_wspace(c) || c == 40 || c == 41,
    }
}

pub fn is_identifier1(b: u8) -> (r: bool)
    ensures
        r == spec_is_identifier1(b),
{
    (b >= 65 && b <= 90) || (b >= 97 && b <= 122) || b == 95
}

pub fn is_identifier2(b: u8) -> (r: bool)
    ensures
        r == spec_is_identifier2(b),
{
    (b >= 65 && b <= 90) || (b >= 97 && b <= 122) || (b >= 48 && b <= 57) || b == 95 || b == 46
        || b == 45
}

pub fn is_wspace(b: u8) -> (r: bool)
    ensures
        r == spec_is_wspace(b),
{
    b == 32 || b == 9 || b == 10 || b == 13
}

pub fn is_delim(b: Option<u8>) -> (r: bool)
    ensures
        r == spec_is_delim(b),
{
    match b {
        None => true,
        Some(c) => c == 32 || c == 9 || c == 10 || c == 13 || c == 40 || c == 41,
    }
}

/// The byte at `i`, if there is one.
pub open spec fn byte_at(s: Seq<u8>, i: int) -> Option<u8> {
    if 0 <= i < s.len() {
        Some(s[i])
    } else {
        None
    }
}

/// The first position at or after `pos` that is not white space.
pub open spec fn skip_wspace(s: Seq<u8>, pos: int) -> int
    decreases s.len() - pos,
{
    if 0 <= pos < s.len() && spec_is_wspace(s[pos]) {
        skip_wspace(s, pos + 1)
    } else {
        pos
    }
}

/// The first position at or after `pos` that does not hold an identifier character.
pub open spec fn identifier_end(s: Seq<u8>, pos: int) -> int
    decreases s.len() - pos,
{
    if 0 <= pos < s.len() && spec_is_identifier2(s[pos]) {
        identifier_end(s, pos + 1)
    } else {
        pos
    }
}

/// The keyword `w` stands at `pos`, followed by a delimiter.
pub open spec fn keyword_at(s: Seq<u8>, pos: int, w: Seq<u8>) -> bool {
    &&& 0 <= pos
    &&& pos + w.len() <= s.len()
    &&& s.subrange(pos, pos + w.len()) == w
    &&& spec_is_delim(byte_at(s, pos + w.len()))
}

/// The token that starts at `pos` (after white space) and the position after it.
pub open spec fn spec_lex(s: Seq<u8>, pos: int) -> (Tok, int) {
    let p = skip_wspace(s, pos);
    if !(0 <= p < s.len()) {
        (Tok::Eof, p)
    } else if s[p] == 40 {
        (Tok::LParen, p + 1)
    } else if s[p] == 41 {
        (Tok::RParen, p + 1)
    } else if keyword_at(s, p, seq![111u8, 114]) {
        (Tok::Or, p + 2)
    } else if keyword_at(s, p, seq![97u8, 110, 100]) {
        (Tok::And, p + 3)
    } else if keyword_at(s, p, seq![110u8, 111, 116]) {
        (Tok::Not, p + 3)
    } else if !spec_is_identifier1(s[p]) {
        (Tok::SyntaxError, p)
    } else {
        let q = identifier_end(s, p + 1);
        if q < s.len() && s[q] == 58 {
            if q + 1 >= s.len() {
                (Tok::SyntaxError, q + 1)
            } else if !spec_is_identifier1(s[q + 1]) {
                (Tok::SyntaxError, q + 1)
            } else {
                (Tok::Identifier, identifier_end(s, q + 2))
            }
        } else {
            (Tok::Identifier, q)
        }
    }
}

/// Lexer state of the model: the position and the token pushed back, if any.
pub type LexState = (int, Option<Tok>);

/// The next token and the state after it.
pub open spec fn spec_get_tok(s: Seq<u8>, st: LexState) -> (Tok, LexState) {
    match st.1 {
        Some(t) => (t, (st.0, None)),
        None => {
            let r = spec_lex(s, st.0);
            (r.0, (r.1, None))
        },
    }
}

/// A token that always consumes at least one byte.
pub open spec fn advancing(t: Tok) -> bool {
    !(t is Eof) && !(t is SyntaxError)
}

/// How much input is left: what every parsing step does not increase.
pub open spec fn measure(s: Seq<u8>, st: LexState) -> nat {
    let left: nat = if 0 <= st.0 <= s.len() { (s.len() - st.0) as nat } else { 0 };
    let bonus: nat = match st.1 {
        Some(t) => if advancing(t) { 1 } else { 0 },
        None => 0,
    };
    2 * left + bonus
}

/// A primary expression: `not` expr, `(` expr `)`, or an identifier.
pub open spec fn spec_parse_y(s: Seq<u8>, st: LexState) -> (bool, LexState)
    decreases measure(s, st), 0int,
{
    let (t, st1) = spec_get_tok(s, st);
    match t {
        Tok::Not => {
            if measure(s, st1) < measure(s, st) {
                let (ok, st2) = spec_parse_x(s, st1);
                if !ok {
                    (true, st1)
                } else {
                    (true, st2)
                }
            } else {
                (false, st1)
            }
        },
        Tok::LParen => {
            if measure(s, st1) < measure(s, st) {
                let (ok, st2) = spec_parse_x(s, st1);
                if !ok {
                    (false, st2)
                } else {
                    let (t3, st3) = spec_get_tok(s, st2);
                    (t3 is RParen, st3)
                }
            } else {
                (false, st1)
            }
        },
        Tok::Identifier | Tok::Or | Tok::And => (true, st1),
        _ => (false, st1),
    }
}

/// The rest of an expression after a primary: (`and` | `or`) primary, repeated.
pub open spec fn spec_parse_x_rest(s: Seq<u8>, st: LexState) -> (bool, LexState)
    decreases measure(s, st), 1int,
{
    let (t, st1) = spec_get_tok(s, st);
    if t is And || t is Or {
        if measure(s, st1) < measure(s, st) {
            let (ok, st2) = spec_parse_y(s, st1);
            if !ok {
                (false, st2)
            } else if measure(s, st2) <= measure(s, st1) {
                spec_parse_x_rest(s, st2)
            } else {
                (false, st2)
            }
        } else {
            (false, st1)
        }
    } else {
        (true, (st1.0, Some(t)))
    }
}

/// An expression: a primary followed by the rest.
pub open spec fn spec_parse_x(s: Seq<u8>, st: LexState) -> (bool, LexState)
    decreases measure(s, st), 2int,
{
    let (ok, st1) = spec_parse_y(s, st);
    if !ok {
        (false, st1)
    } else if measure(s, st1) <= measure(s, st) {
        spec_parse_x_rest(s, st1)
    } else {
        (false, st1)
    }
}

/// The whole input is one `if-feature` expression.
pub open spec fn spec_if_feature_expr(s: Seq<u8>) -> bool {
    let (ok, st) = spec_parse_x(s, (0, None));
    ok && spec_get_tok(s, st).0 is Eof
}


/// A state whose position lies within the input.
pub open spec fn wf_state(s: Seq<u8>, st: LexState) -> bool {
    0 <= st.0 <= s.len()
}

proof fn lemma_skip_wspace(s: Seq<u8>, pos: int)
    requires
        0 <= pos <= s.len(),
    ensures
        pos <= skip_wspace(s, pos) <= s.len(),
        forall|i: int| pos <= i < skip_wspace(s, pos) ==> spec_is_wspace(#[trigger] s[i]),
        skip_wspace(s, pos) < s.len() ==> !spec_is_wspace(s[skip_wspace(s, pos)]),
    decreases s.len() - pos,
{
    if pos < s.len() && spec_is_wspace(s[pos]) {
        lemma_skip_wspace(s, pos + 1);
    }
}

proof fn lemma_identifier_end(s: Seq<u8>, pos: int)
    requires
        0 <= pos <= s.len(),
    ensures
        pos <= identifier_end(s, pos) <= s.len(),
        forall|i: int| pos <= i < identifier_end(s, pos) ==> spec_is_identifier2(#[trigger] s[i]),
        identifier_end(s, pos) < s.len() ==> !spec_is_identifier2(s[identifier_end(s, pos)]),
    decreases s.len() - pos,
{
    if pos < s.len() && spec_is_identifier2(s[pos]) {
        lemma_identifier_end(s, pos + 1);
    }
}

/// The lexer never moves backwards nor past the end, and a token other than
/// `Eof` or a syntax error consumes at least one byte.
pub proof fn lemma_lex_progress(s: Seq<u8>, pos: int)
    requires
        0 <= pos <= s.len(),
    ensures
        pos <= spec_lex(s, pos).1 <= s.len(),
        advancing(spec_lex(s, pos).0) ==> pos < spec_lex(s, pos).1,
{
    lemma_skip_wspace(s, pos);
    let p = skip_wspace(s, pos);
    if 0 <= p < s.len() {
        lemma_identifier_end(s, p + 1);
        let q = identifier_end(s, p + 1);
        if q + 2 <= s.len() {
            lemma_identifier_end(s, q + 2);
        }
    }
}

/// Taking a token never increases the measure, and an advancing token
/// decreases it; pushing the token back afterwards does not increase it either.
pub proof fn lemma_get_tok_measure(s: Seq<u8>, st: LexState)
    requires
        wf_state(s, st),
    ensures
        wf_state(s, spec_get_tok(s, st).1),
        spec_get_tok(s, st).1.1 is None,
        measure(s, spec_get_tok(s, st).1) <= measure(s, st),
        advancing(spec_get_tok(s, st).0) ==> measure(s, spec_get_tok(s, st).1) < measure(s, st),
        measure(s, (spec_get_tok(s, st).1.0, Some(spec_get_tok(s, st).0))) <= measure(s, st),
{
    if st.1 is None {
        lemma_lex_progress(s, st.0);
    }
}

/// Parsing a primary never increases the measure and keeps the state within the input.
pub proof fn lemma_parse_y_measure(s: Seq<u8>, st: LexState)
    requires
        wf_state(s, st),
    ensures
        wf_state(s, spec_parse_y(s, st).1),
        measure(s, spec_parse_y(s, st).1) <= measure(s, st),
    decreases measure(s, st), 0int,
{
    lemma_get_tok_measure(s, st);
    let (t, st1) = spec_get_tok(s, st);
    if t is Not || t is LParen {
        lemma_parse_x_measure(s, st1);
        let st2 = spec_parse_x(s, st1).1;
        if t is LParen {
            lemma_get_tok_measure(s, st2);
        }
    }
}

/// Parsing the rest of an expression never increases the measure.
pub proof fn lemma_parse_x_rest_measure(s: Seq<u8>, st: LexState)
    requires
        wf_state(s, st),
    ensures
        wf_state(s, spec_parse_x_rest(s, st).1),
        measure(s, spec_parse_x_rest(s, st).1) <= measure(s, st),
    decreases measure(s, st), 1int,
{
    lemma_get_tok_measure(s, st);
    let (t, st1) = spec_get_tok(s, st);
    if t is And || t is Or {
        lemma_parse_y_measure(s, st1);
        let st2 = spec_parse_y(s, st1).1;
        if spec_parse_y(s, st1).0 {
            lemma_parse_x_rest_measure(s, st2);
        }
    }
}

/// Parsing an expression never increases the measure.
pub proof fn lemma_parse_x_measure(s: Seq<u8>, st: LexState)
    requires
        wf_state(s, st),
    ensures
        wf_state(s, spec_parse_x(s, st).1),
        measure(s, spec_parse_x(s, st).1) <= measure(s, st),
    decreases measure(s, st), 2int,
{
    lemma_parse_y_measure(s, st);
    let (ok, st1) = spec_parse_y(s, st);
    if ok {
        lemma_parse_x_rest_measure(s, st1);
    }
}


/// The lexer: the input, the position, and a token pushed back by the parser.
#[derive(Clone, Copy)]
pub struct Lexer<'a> {
    pub bytes: &'a [u8],
    pub pos: usize,
    pub peek_tok: Option<Tok>,
}

impl<'a> Lexer<'a> {
    /// The state of the model that this lexer stands for.
    pub open spec fn state(&self) -> LexState {
        (self.pos as int, self.peek_tok)
    }

    /// A lexer on `bytes`, at its start.
    pub fn new(bytes: &'a [u8]) -> (lex: Lexer<'a>)
        ensures
            lex.bytes@ == bytes@,
            lex.state() == (0int, Option::<Tok>::None),
    {
        Lexer { bytes, pos: 0, peek_tok: None }
    }
}

fn byte_get(bytes: &[u8], i: usize) -> (r: Option<u8>)
    ensures
        r == byte_at(bytes@, i as int),
{
    if i < bytes.len() {
        Some(bytes[i])
    } else {
        None
    }
}

/// Whether the keyword `w` (two or three bytes, given one by one) stands at `p`.
fn keyword_at_exec(bytes: &[u8], p: usize, w: &[u8]) -> (r: bool)
    requires
        p <= bytes@.len(),
        w@.len() <= 3,
    ensures
        r == keyword_at(bytes@, p as int, w@),
{
    let n = w.len();
    let len = bytes.len();
    if len - p < n {
        return false;
    }
    let mut i: usize = 0;
    while i < n
        invariant
            n == w@.len(),
            p + n <= bytes@.len(),
            p <= bytes@.len(),
            len == bytes@.len(),
            i <= n,
            forall|j: int| 0 <= j < i ==> bytes@[p + j] == w@[j],
        decreases n - i,
    {
        let k: usize = p + i;
        if bytes[k] != w[i] {
            proof {
                let sub = bytes@.subrange(p as int, p + n);
                assert(sub[i as int] == bytes@[p + i]);
                assert(sub != w@);
            }
            return false;
        }
        i = i + 1;
    }
    assert(bytes@.subrange(p as int, p + n) =~= w@);
    is_delim(byte_get(bytes, p + n))
}

/// Skips identifier characters from `lex.pos` on.
fn skip_identifier(lex: &mut Lexer<'_>)
    requires
        old(lex).pos <= old(lex).bytes@.len(),
    ensures
        final(lex).bytes == old(lex).bytes,
        final(lex).peek_tok == old(lex).peek_tok,
        final(lex).pos as int == identifier_end(old(lex).bytes@, old(lex).pos as int),
{
    let ghost s = lex.bytes@;
    let ghost p0 = lex.pos as int;
    while lex.pos < lex.bytes.len() && is_identifier2(lex.bytes[lex.pos])
        invariant
            lex.bytes == old(lex).bytes,
            lex.peek_tok == old(lex).peek_tok,
            s == lex.bytes@,
            lex.pos <= s.len(),
            identifier_end(s, lex.pos as int) == identifier_end(s, p0),
        decreases s.len() - lex.pos,
    {
        lex.pos = lex.pos + 1;
    }
}

/// Reads the next token from the input, ignoring a pushed-back token.
pub fn get_tok_impl(lex: &mut Lexer<'_>) -> (t: Tok)
    requires
        old(lex).pos <= old(lex).bytes@.len(),
    ensures
        final(lex).bytes == old(lex).bytes,
        final(lex).peek_tok == old(lex).peek_tok,
        (t, final(lex).pos as int) == spec_lex(old(lex).bytes@, old(lex).pos as int),
        old(lex).pos <= final(lex).pos <= final(lex).bytes@.len(),
{
    let ghost s = lex.bytes@;
    let ghost p0 = lex.pos as int;
    proof {
        lemma_skip_wspace(s, p0);
        lemma_lex_progress(s, p0);
    }
    while lex.pos < lex.bytes.len() && is_wspace(lex.bytes[lex.pos])
        invariant
            lex.bytes == old(lex).bytes,
            lex.peek_tok == old(lex).peek_tok,
            s == lex.bytes@,
            lex.pos <= s.len(),
            skip_wspace(s, lex.pos as int) == skip_wspace(s, p0),
        decreases s.len() - lex.pos,
    {
        lex.pos = lex.pos + 1;
    }
    let p = lex.pos;
    assert(p as int == skip_wspace(s, p0));
    if p >= lex.bytes.len() {
        return Tok::Eof;
    }
    let b = lex.bytes[p];
    if b == 40 {
        lex.pos = p + 1;
        return Tok::LParen;
    }
    if b == 41 {
        lex.pos = p + 1;
        return Tok::RParen;
    }
    let w_or: [u8; 2] = [111, 114];
    let w_and: [u8; 3] = [97, 110, 100];
    let w_not: [u8; 3] = [110, 111, 116];
    assert(w_or@ =~= seq![111u8, 114]);
    assert(w_and@ =~= seq![97u8, 110, 100]);
    assert(w_not@ =~= seq![110u8, 111, 116]);
    if keyword_at_exec(lex.bytes, p, &w_or) {
        lex.pos = p + 2;
        return Tok::Or;
    }
    if keyword_at_exec(lex.bytes, p, &w_and) {
        lex.pos = p + 3;
        return Tok::And;
    }
    if keyword_at_exec(lex.bytes, p, &w_not) {
        lex.pos = p + 3;
        return Tok::Not;
    }
    if !is_identifier1(b) {
        return Tok::SyntaxError;
    }
    lex.pos = p + 1;
    skip_identifier(lex);
    if lex.pos < lex.bytes.len() && lex.bytes[lex.pos] == 58 {
        lex.pos = lex.pos + 1;
        if lex.pos >= lex.bytes.len() {
            return Tok::SyntaxError;
        }
        let next = lex.bytes[lex.pos];
        if !is_identifier1(next) {
            return Tok::SyntaxError;
        }
        lex.pos = lex.pos + 1;
        skip_identifier(lex);
    }
    Tok::Identifier
}

/// The next token: the pushed-back one if there is one, else the next one read.
pub fn get_tok(lex: &mut Lexer<'_>) -> (t: Tok)
    requires
        old(lex).pos <= old(lex).bytes@.len(),
    ensures
        final(lex).bytes == old(lex).bytes,
        (t, final(lex).state()) == spec_get_tok(old(lex).bytes@, old(lex).state()),
        final(lex).pos <= final(lex).bytes@.len(),
{
    match lex.peek_tok {
        Some(tok) => {
            lex.peek_tok = None;
            tok
        },
        None => get_tok_impl(lex),
    }
}

/// Pushes `tok` back, to be returned by the next `get_tok`.
pub fn push_tok(lex: &mut Lexer<'_>, tok: Tok)
    ensures
        final(lex).bytes == old(lex).bytes,
        final(lex).pos == old(lex).pos,
        final(lex).peek_tok == Some(tok),
{
    lex.peek_tok = Some(tok);
}

/// Parses a primary expression.
pub fn parse_y(lex: &mut Lexer<'_>) -> (ok: bool)
    requires
        old(lex).pos <= old(lex).bytes@.len(),
    ensures
        final(lex).bytes == old(lex).bytes,
        final(lex).pos <= final(lex).bytes@.len(),
        (ok, final(lex).state()) == spec_parse_y(old(lex).bytes@, old(lex).state()),
    decreases measure(old(lex).bytes@, old(lex).state()), 0int,
{
    let ghost s = lex.bytes@;
    let ghost st0 = lex.state();
    proof {
        lemma_get_tok_measure(s, st0);
        lemma_parse_y_measure(s, st0);
    }
    let t = get_tok(lex);
    match t {
        Tok::Not => {
            let checkpoint = *lex;
            proof {
                lemma_parse_x_measure(s, lex.state());
            }
            if !parse_x(lex) {
                *lex = checkpoint;
                true
            } else {
                true
            }
        },
        Tok::LParen => {
            proof {
                lemma_parse_x_measure(s, lex.state());
            }
            if !parse_x(lex) {
                return false;
            }
            let t2 = get_tok(lex);
            t2 == Tok::RParen
        },
        Tok::Identifier | Tok::Or | Tok::And => true,
        _ => false,
    }
}

/// Parses an expression: primaries joined by `and` and `or`.
pub fn parse_x(lex: &mut Lexer<'_>) -> (ok: bool)
    requires
        old(lex).pos <= old(lex).bytes@.len(),
    ensures
        final(lex).bytes == old(lex).bytes,
        final(lex).pos <= final(lex).bytes@.len(),
        (ok, final(lex).state()) == spec_parse_x(old(lex).bytes@, old(lex).state()),
    decreases measure(old(lex).bytes@, old(lex).state()), 2int,
{
    let ghost s = lex.bytes@;
    let ghost st0 = lex.state();
    proof {
        lemma_parse_y_measure(s, st0);
    }
    if !parse_y(lex) {
        return false;
    }
    let ghost mut st_before = lex.state();
    proof {
        lemma_get_tok_measure(s, st_before);
    }
    let mut tok = get_tok(lex);
    while tok == Tok::And || tok == Tok::Or
        invariant
            lex.bytes == old(lex).bytes,
            s == lex.bytes@,
            s == old(lex).bytes@,
            st0 == old(lex).state(),
            wf_state(s, st_before),
            wf_state(s, lex.state()),
            measure(s, st_before) <= measure(s, st0),
            spec_parse_x_rest(s, st_before) == spec_parse_x(s, st0),
            (tok, lex.state()) == spec_get_tok(s, st_before),
        decreases measure(s, st_before),
    {
        let ghost st1 = lex.state();
        proof {
            lemma_get_tok_measure(s, st_before);
            lemma_parse_y_measure(s, st1);
        }
        if !parse_y(lex) {
            return false;
        }
        proof {
            st_before = lex.state();
            lemma_get_tok_measure(s, st_before);
        }
        tok = get_tok(lex);
    }
    push_tok(lex, tok);
    true
}

/// Whether `bytes` is one well-formed `if-feature` expression.
pub fn yang_parse_if_feature_expr(bytes: &[u8]) -> (ok: bool)
    ensures
        ok == spec_if_feature_expr(bytes@),
{
    let mut lex = Lexer::new(bytes);
    proof {
        lemma_parse_x_measure(bytes@, lex.state());
    }
    if !parse_x(&mut lex) {
        return false;
    }
    get_tok(&mut lex) == Tok::Eof
}


/// The text is an identifier: a letter or `_`, then letters, digits, `_`,
/// `.` or `-`.
pub open spec fn is_identifier_text(s: Seq<u8>) -> bool {
    &&& s.len() > 0
    &&& spec_is_identifier1(s[0])
    &&& forall|i: int| 1 <= i < s.len() ==> #[trigger] spec_is_identifier2(s[i])
}

proof fn lemma_identifier_runs_to_end(s: Seq<u8>, pos: int)
    requires
        1 <= pos <= s.len(),
        forall|i: int| 1 <= i < s.len() ==> #[trigger] spec_is_identifier2(s[i]),
    ensures
        identifier_end(s, pos) == s.len(),
    decreases s.len() - pos,
{
    if pos < s.len() {
        assert(spec_is_identifier2(s[pos]));
        lemma_identifier_runs_to_end(s, pos + 1);
    }
}

proof fn lemma_lex_identifier(s: Seq<u8>)
    requires
        is_identifier_text(s),
    ensures
        spec_lex(s, 0).1 == s.len(),
        spec_lex(s, 0).0 is Identifier || spec_lex(s, 0).0 is Or || spec_lex(s, 0).0 is And || spec_lex(s, 0).0 is Not,
{
    assert(skip_wspace(s, 0) == 0);
    lemma_identifier_runs_to_end(s, 1);
    if s.len() > 2 {
        assert(spec_is_identifier2(s[2]));
    }
    if s.len() > 3 {
        assert(spec_is_identifier2(s[3]));
    }
}

/// Any identifier, the words `and`, `or` and `not` among them, is an
/// `if-feature` expression.
pub proof fn law_identifier_is_expr(s: Seq<u8>)
    requires
        is_identifier_text(s),
    ensures
        spec_if_feature_expr(s),
{
    lemma_lex_identifier(s);
    let n = s.len() as int;
    assert(skip_wspace(s, n) == n);
    assert(spec_lex(s, n) == (Tok::Eof, n));
    let st0: LexState = (0, None);
    let (t, st1) = spec_get_tok(s, st0);
    assert(st1 == (n, None::<Tok>));
    let rest = spec_parse_x_rest(s, (n, None));
    assert(rest == (true, (n, Some(Tok::Eof))));
    if t is Not {
        assert(spec_parse_y(s, (n, None)) == (false, (n, None::<Tok>)));
        assert(spec_parse_x(s, (n, None)) == (false, (n, None::<Tok>)));
        assert(spec_parse_y(s, st0) == (true, (n, None::<Tok>)));
    } else {
        assert(spec_parse_y(s, st0) == (true, (n, None::<Tok>)));
    }
    assert(spec_parse_x(s, st0) == rest);
}

/// The right operand of `and` or `or` is parsed as a whole expression is:
/// after either word, the rest of the expression is exactly an expression,
/// whether it starts with an identifier, `not` or a parenthesis.
pub proof fn law_right_operand(s: Seq<u8>, st: LexState)
    requires
        wf_state(s, st),
    ensures
        spec_get_tok(s, st).0 is And || spec_get_tok(s, st).0 is Or
            ==> spec_parse_x_rest(s, st) == spec_parse_x(s, spec_get_tok(s, st).1),
{
    lemma_get_tok_measure(s, st);
    let (t, st1) = spec_get_tok(s, st);
    if t is And || t is Or {
        lemma_parse_y_measure(s, st1);
    }
}

proof fn lemma_identifier_end_at(s: Seq<u8>, pos: int, q: int)
    requires
        0 <= pos <= q <= s.len(),
        forall|i: int| pos <= i < q ==> #[trigger] spec_is_identifier2(s[i]),
        q < s.len() ==> !spec_is_identifier2(s[q]),
    ensures
        identifier_end(s, pos) == q,
    decreases q - pos,
{
    if pos < q {
        lemma_identifier_end_at(s, pos + 1, q);
    }
}

proof fn lemma_keyword_ends(s: Seq<u8>, p: int, q: int, w: Seq<u8>)
    requires
        0 <= p < q <= s.len(),
        forall|i: int| p < i < q ==> #[trigger] spec_is_identifier2(s[i]),
        q < s.len() ==> (spec_is_wspace(s[q]) || s[q] == 40 || s[q] == 41),
        w.len() > 0,
        forall|i: int| 0 <= i < w.len() ==> #[trigger] spec_is_alpha(w[i]),
        keyword_at(s, p, w),
    ensures
        p + w.len() == q,
{
    if p + w.len() < q {
        assert(spec_is_identifier2(s[p + w.len()]));
    } else if p + w.len() > q {
        assert(s[q] == s.subrange(p, p + w.len())[q - p]);
        assert(spec_is_alpha(w[q - p]));
    }
}

/// Lexing an identifier that stands at `p` and ends at `q`, before white
/// space, a parenthesis or the end.
proof fn lemma_lex_ident_at(s: Seq<u8>, p: int, q: int)
    requires
        0 <= p < q <= s.len(),
        is_identifier_text(s.subrange(p, q)),
        q < s.len() ==> (spec_is_wspace(s[q]) || s[q] == 40 || s[q] == 41),
    ensures
        spec_lex(s, p).1 == q,
        spec_lex(s, p).0 is Identifier || spec_lex(s, p).0 is Or || spec_lex(s, p).0 is And || spec_lex(s, p).0 is Not,
        spec_lex(s, p).0 is Not ==> s.subrange(p, q) == seq![110u8, 111, 116],
{
    let sub = s.subrange(p, q);
    assert(s[p] == sub[0]);
    assert forall|i: int| p < i < q implies #[trigger] spec_is_identifier2(s[i]) by {
        assert(s[i] == sub[i - p]);
    }
    assert(skip_wspace(s, p) == p);
    let or_w = seq![111u8, 114];
    let and_w = seq![97u8, 110, 100];
    let not_w = seq![110u8, 111, 116];
    if keyword_at(s, p, or_w) {
        lemma_keyword_ends(s, p, q, or_w);
    } else if keyword_at(s, p, and_w) {
        lemma_keyword_ends(s, p, q, and_w);
    } else if keyword_at(s, p, not_w) {
        lemma_keyword_ends(s, p, q, not_w);
    } else {
        lemma_identifier_end_at(s, p + 1, q);
    }
}

/// The bytes of the word `and` (`and_op`) or `or`.
pub open spec fn op_word(and_op: bool) -> Seq<u8> {
    if and_op {
        seq![97u8, 110, 100]
    } else {
        seq![111u8, 114]
    }
}

/// ` (b)` at `p`, with `b` an identifier, ends the input at `m + 1`.
proof fn lemma_paren_ident_end(s: Seq<u8>, p: int, m: int)
    requires
        0 <= p,
        p + 2 < m,
        s.len() == m + 1,
        s[p] == 32u8,
        s[p + 1] == 40u8,
        s[m] == 41u8,
        is_identifier_text(s.subrange(p + 2, m)),
    ensures
        spec_parse_y(s, (p, None)) == (true, (m + 1, None::<Tok>)),
        spec_parse_x_rest(s, (m + 1, None)) == (true, (m + 1, Some(Tok::Eof))),
{
    assert(skip_wspace(s, p + 1) == p + 1);
    assert(skip_wspace(s, p) == p + 1);
    assert(spec_lex(s, p) == (Tok::LParen, p + 2));
    lemma_lex_ident_at(s, p + 2, m);
    let tb = spec_lex(s, p + 2).0;
    assert(skip_wspace(s, m) == m);
    assert(spec_lex(s, m) == (Tok::RParen, m + 1));
    assert(skip_wspace(s, m + 1) == m + 1);
    assert(spec_lex(s, m + 1) == (Tok::Eof, m + 1));
    if tb is Not {
        assert(spec_parse_y(s, (m, None)) == (false, (m + 1, None::<Tok>)));
        assert(spec_parse_x(s, (m, None)) == (false, (m + 1, None::<Tok>)));
    }
    assert(spec_parse_y(s, (p + 2, None)) == (true, (m, None::<Tok>)));
    assert(spec_parse_x_rest(s, (m, None)) == (true, (m + 1, Some(Tok::RParen))));
    assert(spec_parse_x(s, (p + 2, None)) == (true, (m + 1, Some(Tok::RParen))));
}

/// The word `and` or `or` between spaces, at `n`.
proof fn lemma_lex_op(s: Seq<u8>, n: int, and_op: bool)
    requires
        0 <= n,
        n + op_word(and_op).len() + 2 <= s.len(),
        s[n] == 32u8,
        s[n + op_word(and_op).len() + 1] == 32u8,
        s.subrange(n + 1, n + 1 + op_word(and_op).len()) == op_word(and_op),
    ensures
        spec_lex(s, n) == (if and_op { Tok::And } else { Tok::Or }, n + op_word(and_op).len() + 1),
{
    let w = op_word(and_op);
    assert(skip_wspace(s, n + 1) == n + 1) by {
        assert(s[n + 1] == s.subrange(n + 1, n + 1 + w.len())[0]);
    }
    assert(skip_wspace(s, n) == n + 1);
    if and_op {
        assert(!keyword_at(s, n + 1, seq![111u8, 114])) by {
            assert(s.subrange(n + 1, n + 3)[0] == s[n + 1]);
            assert(s.subrange(n + 1, n + 1 + w.len())[0] == s[n + 1]);
        }
        assert(s.subrange(n + 1, n + 4) =~= seq![97u8, 110, 100]);
        assert(keyword_at(s, n + 1, seq![97u8, 110, 100]));
    } else {
        assert(s.subrange(n + 1, n + 3) =~= seq![111u8, 114]);
        assert(keyword_at(s, n + 1, seq![111u8, 114]));
    }
}

/// A parenthesised right operand is accepted: for identifiers `a` (other
/// than `not`) and `b`, both `a and (b)` and `a or (b)` are expressions.
pub proof fn law_parenthesised_right_operand(a: Seq<u8>, b: Seq<u8>, and_op: bool)
    requires
        is_identifier_text(a),
        is_identifier_text(b),
        a != seq![110u8, 111, 116],
    ensures
        spec_if_feature_expr(a + seq![32u8] + op_word(and_op) + seq![32u8, 40u8] + b + seq![41u8]),
{
    let w = op_word(and_op);
    let s = a + seq![32u8] + w + seq![32u8, 40u8] + b + seq![41u8];
    let n = a.len() as int;
    let k = w.len() as int;
    let m = n + k + 3 + b.len();
    assert(s.len() == m + 1);
    assert(s.subrange(0, n) =~= a);
    assert(s.subrange(n + k + 3, m) =~= b);
    assert(s[n] == 32u8);
    assert(s[n + k + 1] == 32u8);
    assert(s[n + k + 2] == 40u8);
    assert(s[m] == 41u8);
    assert(s.subrange(n + 1, n + 1 + k) =~= w);
    lemma_lex_ident_at(s, 0, n);
    assert(spec_lex(s, 0).0 !is Not);
    assert(spec_parse_y(s, (0, None)) == (true, (n, None::<Tok>)));
    lemma_lex_op(s, n, and_op);
    lemma_paren_ident_end(s, n + k + 1, m);
    assert(spec_parse_x_rest(s, (n, None)) == (true, (m + 1, Some(Tok::Eof))));
    assert(spec_parse_x(s, (0, None)) == (true, (m + 1, Some(Tok::Eof))));
}

} // verus!
