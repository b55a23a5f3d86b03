//! The core grammar table, read out of the C source that declares it.
//!
//! The table is the array that opens with `static const char *stmts[] = {`
//! and ends at the first `};` that starts a line after it.  Its entries are
//! read line by line, after the line that opens it: first the double-quoted
//! strings of a line, in order, then one missing entry for each `NULL` on that
//! line.  A quoted string runs to the next double quote on its line; one left
//! open at the end of its line is dropped.  Each byte of a string stands for
//! the character with that code and is kept as that character's UTF-8 bytes.
//! The source must be valid UTF-8.

use vstd::prelude::*;
use crate::core_grammar::table_view;
use crate::terms::utf8_ok;
use crate::validators::{find_byte, lemma_find_byte};
use vstd::utf8::valid_utf8;
use vstd::string::StringSliceAdditionalSpecFns;

verus! {

pub const QUOTE: u8 = 34;
pub const NEWLINE: u8 = 10;

/// The text that opens the table.
pub open spec fn table_start() -> Seq<u8> {
    "static const char *stmts[] = {".spec_bytes()
}

/// The text that closes the table: a line that starts with `};`.
pub open spec fn table_end() -> Seq<u8> {
    "\n};".spec_bytes()
}

/// `pat` occurs in `s` at `i`.
pub open spec fn occurs_at(s: Seq<u8>, pat: Seq<u8>, i: int) -> bool {
    0 <= i && i + pat.len() <= s.len() && s.subrange(i, i + pat.len()) == pat
}

/// The first place at or after `from` where `pat` occurs in `s`.
pub open spec fn find_pat(s: Seq<u8>, pat: Seq<u8>, from: int) -> Option<int>
    decreases s.len() + 1 - from,
{
    if from < 0 || from + pat.len() > s.len() {
        None
    } else if occurs_at(s, pat, from) {
        Some(from)
    } else {
        find_pat(s, pat, from + 1)
    }
}

/// The UTF-8 bytes of the character whose code is `b`.
pub open spec fn char_bytes(b: u8) -> Seq<u8> {
    if b < 128 {
        seq![b]
    } else {
        seq![(192 + b / 64) as u8, (128 + b % 64) as u8]
    }
}

/// Where reading the strings of a line stands: the strings closed so far,
/// whether a string is open, and what the open string holds.
pub struct LineScan {
    pub found: Seq<Seq<u8>>,
    pub in_str: bool,
    pub cur: Seq<u8>,
}

/// Reading one more byte of a line.
pub open spec fn scan_step(st: LineScan, b: u8) -> LineScan {
    if st.in_str {
        if b == QUOTE {
            LineScan { found: st.found.push(st.cur), in_str: false, cur: Seq::empty() }
        } else {
            LineScan { cur: st.cur + char_bytes(b), ..st }
        }
    } else if b == QUOTE {
        LineScan { in_str: true, ..st }
    } else {
        st
    }
}

/// Where reading the strings of line `l` stands after its first `n` bytes.
pub open spec fn scan_line(l: Seq<u8>, n: nat) -> LineScan
    decreases n,
{
    if n == 0 {
        LineScan { found: Seq::empty(), in_str: false, cur: Seq::empty() }
    } else {
        scan_step(scan_line(l, (n - 1) as nat), l[n - 1])
    }
}

/// `NULL` stands at `i` in `l`.
pub open spec fn null_at(l: Seq<u8>, i: int) -> bool {
    &&& 0 <= i
    &&& i + 4 <= l.len()
    &&& l[i] == 78u8
    &&& l[i + 1] == 85u8
    &&& l[i + 2] == 76u8
    &&& l[i + 3] == 76u8
}

/// The number of `NULL`s in `l` from `i` on, each found after the one before.
pub open spec fn null_count(l: Seq<u8>, i: int) -> nat
    decreases l.len() - i,
{
    if i < 0 || i + 4 > l.len() {
        0
    } else if null_at(l, i) {
        1 + null_count(l, i + 4)
    } else {
        null_count(l, i + 1)
    }
}

/// `n` missing entries.
pub open spec fn nones(n: nat) -> Seq<Option<Seq<u8>>> {
    Seq::new(n, |k: int| None)
}

/// The entries of one line: its strings, then a missing entry per `NULL`.
pub open spec fn line_entries(l: Seq<u8>) -> Seq<Option<Seq<u8>>> {
    scan_line(l, l.len()).found.map_values(|x: Seq<u8>| Some(x)) + nones(null_count(l, 0))
}

/// The entries of the lines of `r`.
pub open spec fn lines_entries(r: Seq<u8>) -> Seq<Option<Seq<u8>>>
    decreases r.len(),
{
    let k = find_byte(r, NEWLINE, 0);
    if k < 0 || k >= r.len() {
        line_entries(r)
    } else {
        line_entries(r.subrange(0, k)) + lines_entries(r.subrange(k + 1, r.len() as int))
    }
}

/// The entries of the lines of `b` after its first line.
pub open spec fn block_entries(b: Seq<u8>) -> Seq<Option<Seq<u8>>> {
    let k = find_byte(b, NEWLINE, 0);
    if k < 0 || k >= b.len() {
        Seq::empty()
    } else {
        lines_entries(b.subrange(k + 1, b.len() as int))
    }
}

/// The core grammar table that the source `src` declares; none when `src`
/// is not valid UTF-8 or does not hold the table.
pub open spec fn spec_core_table(src: Seq<u8>) -> Option<Seq<Option<Seq<u8>>>> {
    if !valid_utf8(src) {
        None
    } else {
        match find_pat(src, table_start(), 0) {
            None => None,
            Some(st) => match find_pat(src, table_end(), st) {
                None => None,
                Some(e) => Some(block_entries(src.subrange(st, e))),
            },
        }
    }
}

fn occurs_exec(s: &[u8], pat: &[u8], i: usize) -> (r: bool)
    ensures
        r == occurs_at(s@, pat@, i as int),
{
    if i > s.len() || pat.len() > s.len() - i {
        return false;
    }
    let mut j: usize = 0;
    while j < pat.len()
        invariant
            j <= pat@.len(),
            i <= s.len(),
            i + pat.len() <= s.len(),
            forall|k: int| 0 <= k < j ==> s@[i + k] == pat@[k],
        decreases pat@.len() - j,
    {
        if s[i + j] != pat[j] {
            assert(s@.subrange(i as int, i + pat@.len())[j as int] != pat@[j as int]);
            return false;
        }
        j = j + 1;
    }
    assert(s@.subrange(i as int, i + pat@.len()) =~= pat@);
    true
}

fn find_pat_exec(s: &[u8], pat: &[u8], from: usize) -> (r: Option<usize>)
    ensures
        match r {
            Some(i) => find_pat(s@, pat@, from as int) == Some(i as int),
            None => find_pat(s@, pat@, from as int) is None,
        },
        r matches Some(i) ==> from <= i && occurs_at(s@, pat@, i as int),
{
    let mut i = from;
    while i <= s.len() && pat.len() <= s.len() - i
        invariant
            from <= i,
            find_pat(s@, pat@, i as int) == find_pat(s@, pat@, from as int),
        decreases s@.len() + 1 - i,
    {
        if occurs_exec(s, pat, i) {
            return Some(i);
        }
        if i == s.len() {
            assert(find_pat(s@, pat@, i + 1) is None);
            return None;
        }
        i = i + 1;
    }
    None
}

/// Appends the UTF-8 bytes of the character whose code is `b`.
fn push_char(v: &mut Vec<u8>, b: u8)
    ensures
        final(v)@ == old(v)@ + char_bytes(b),
{
    if b < 128 {
        v.push(b);
    } else {
        v.push(192 + b / 64);
        v.push(128 + b % 64);
    }
    assert(final(v)@ =~= old(v)@ + char_bytes(b));
}

proof fn lemma_push_some(v: Seq<Option<Vec<u8>>>, x: Vec<u8>)
    ensures
        table_view(v.push(Some(x))) == table_view(v).push(Some(x@)),
{
    assert(table_view(v.push(Some(x))) =~= table_view(v).push(Some(x@)));
}

proof fn lemma_push_none(v: Seq<Option<Vec<u8>>>)
    ensures
        table_view(v.push(None)) == table_view(v).push(None),
{
    assert(table_view(v.push(None)) =~= table_view(v).push(None));
}

/// Appends the entries of the line `s[lo..hi]`.
fn line_entries_exec(s: &[u8], lo: usize, hi: usize, out: &mut Vec<Option<Vec<u8>>>)
    requires
        lo <= hi <= s@.len(),
    ensures
        table_view(final(out)@) == table_view(old(out)@) + line_entries(s@.subrange(lo as int, hi as int)),
{
    let ghost l = s@.subrange(lo as int, hi as int);
    let ghost base = table_view(out@);
    let mut in_str = false;
    let mut cur: Vec<u8> = Vec::new();
    let mut i = lo;
    assert(base + Seq::<Seq<u8>>::empty().map_values(|x: Seq<u8>| Some(x)) =~= base);
    while i < hi
        invariant
            lo <= i <= hi <= s@.len(),
            l == s@.subrange(lo as int, hi as int),
            base + scan_line(l, (i - lo) as nat).found.map_values(|x: Seq<u8>| Some(x)) == table_view(out@),
            in_str == scan_line(l, (i - lo) as nat).in_str,
            cur@ == scan_line(l, (i - lo) as nat).cur,
        decreases hi - i,
    {
        let b = s[i];
        let ghost st = scan_line(l, (i - lo) as nat);
        assert(l[(i - lo) as int] == b);
        assert(scan_line(l, (i + 1 - lo) as nat) == scan_step(st, b));
        if in_str {
            if b == QUOTE {
                let ghost o = out@;
                let done = cur;
                cur = Vec::new();
                out.push(Some(done));
                in_str = false;
                proof {
                    lemma_push_some(o, done);
                    assert(st.found.push(st.cur).map_values(|x: Seq<u8>| Some(x))
                        =~= st.found.map_values(|x: Seq<u8>| Some(x)).push(Some(st.cur)));
                    assert(base + st.found.push(st.cur).map_values(|x: Seq<u8>| Some(x))
                        =~= (base + st.found.map_values(|x: Seq<u8>| Some(x))).push(Some(st.cur)));
                }
            } else {
                push_char(&mut cur, b);
            }
        } else if b == QUOTE {
            in_str = true;
        }
        i = i + 1;
    }
    let ghost mid = table_view(out@);
    assert(mid == base + scan_line(l, l.len()).found.map_values(|x: Seq<u8>| Some(x)));
    let mut j = lo;
    let mut cnt: usize = 0;
    assert(mid + nones(0) =~= mid);
    while j < hi && hi - j >= 4
        invariant
            lo <= j <= hi <= s@.len(),
            l == s@.subrange(lo as int, hi as int),
            cnt <= j - lo,
            null_count(l, 0) == cnt + null_count(l, (j - lo) as int),
            table_view(out@) == mid + nones(cnt as nat),
        decreases hi - j,
    {
        let ghost o = out@;
        if s[j] == 78 && s[j + 1] == 85 && s[j + 2] == 76 && s[j + 3] == 76 {
            assert(null_at(l, (j - lo) as int));
            out.push(None);
            proof {
                lemma_push_none(o);
                assert(mid + nones((cnt + 1) as nat) =~= (mid + nones(cnt as nat)).push(None));
            }
            cnt = cnt + 1;
            j = j + 4;
        } else {
            assert(!null_at(l, (j - lo) as int));
            j = j + 1;
        }
    }
    assert(null_count(l, (j - lo) as int) == 0);
    assert(table_view(out@) =~= base + line_entries(l));
}

/// Appends the entries of the lines of `s[lo..hi]`.
fn lines_entries_exec(s: &[u8], lo: usize, hi: usize, out: &mut Vec<Option<Vec<u8>>>)
    requires
        lo <= hi <= s@.len(),
    ensures
        table_view(final(out)@) == table_view(old(out)@) + lines_entries(s@.subrange(lo as int, hi as int)),
{
    let ghost base = table_view(out@);
    let mut pos = lo;
    loop
        invariant_except_break
            base + lines_entries(s@.subrange(lo as int, hi as int)) == table_view(out@)
                + lines_entries(s@.subrange(pos as int, hi as int)),
        invariant
            lo <= pos <= hi <= s@.len(),
        ensures
            base + lines_entries(s@.subrange(lo as int, hi as int)) == table_view(out@),
        decreases hi - pos,
    {
        let ghost r = s@.subrange(pos as int, hi as int);
        let ghost o = table_view(out@);
        let mut k = pos;
        while k < hi && s[k] != NEWLINE
            invariant
                lo <= pos <= k <= hi <= s@.len(),
                r == s@.subrange(pos as int, hi as int),
                forall|j: int| pos <= j < k ==> s@[j] != NEWLINE,
            decreases hi - k,
        {
            k = k + 1;
        }
        proof {
            lemma_find_byte(r, NEWLINE, 0);
            let f = find_byte(r, NEWLINE, 0);
            if f < k - pos {
                assert(r[f] == s@[pos + f]);
            }
            if k < hi && k - pos < f {
                assert(r[k - pos] == s@[k as int]);
            }
            assert(f == k - pos);
        }
        if k == hi {
            line_entries_exec(s, pos, hi, out);
            proof {
                assert(r.subrange(0, r.len() as int) =~= r);
            }
            break;
        } else {
            line_entries_exec(s, pos, k, out);
            proof {
                assert(r.subrange(0, k - pos) =~= s@.subrange(pos as int, k as int));
                assert(r.subrange(k - pos + 1, r.len() as int) =~= s@.subrange(k + 1, hi as int));
                assert(table_view(out@) + lines_entries(s@.subrange(k + 1, hi as int))
                    =~= o + lines_entries(r));
            }
            pos = k + 1;
        }
    }
}

/// The core grammar table that the source `src` declares, as
/// `spec_core_table` reads it.
pub fn core_table(src: &[u8]) -> (r: Option<Vec<Option<Vec<u8>>>>)
    ensures
        match r {
            Some(v) => spec_core_table(src@) == Some(table_view(v@)),
            None => spec_core_table(src@) is None,
        },
{
    if !utf8_ok(src) {
        return None;
    }
    let start = "static const char *stmts[] = {";
    let end = "\n};";
    proof {
        reveal_strlit("static const char *stmts[] = {");
        reveal_strlit("\n};");
    }
    let st = match find_pat_exec(src, start.as_bytes(), 0) {
        None => return None,
        Some(i) => i,
    };
    let e = match find_pat_exec(src, end.as_bytes(), st) {
        None => return None,
        Some(i) => i,
    };
    let ghost b = src@.subrange(st as int, e as int);
    let mut k = st;
    while k < e && src[k] != NEWLINE
        invariant
            st <= k <= e <= src@.len(),
            b == src@.subrange(st as int, e as int),
            forall|j: int| st <= j < k ==> src@[j] != NEWLINE,
        decreases e - k,
    {
        k = k + 1;
    }
    proof {
        lemma_find_byte(b, NEWLINE, 0);
        let f = find_byte(b, NEWLINE, 0);
        if f < k - st {
            assert(b[f] == src@[st + f]);
        }
        if k < e && k - st < f {
            assert(b[k - st] == src@[k as int]);
        }
        assert(f == k - st);
    }
    let mut out: Vec<Option<Vec<u8>>> = Vec::new();
    assert(table_view(out@) =~= Seq::<Option<Seq<u8>>>::empty());
    if k < e {
        lines_entries_exec(src, k + 1, e, &mut out);
        assert(b.subrange(k - st + 1, b.len() as int) =~= src@.subrange(k + 1, e as int));
        assert(table_view(out@) =~= block_entries(b));
    }
    Some(out)
}

} // verus!
