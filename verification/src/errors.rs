//! The error context: the errors and warnings reported while parsing and
//! checking a module, in the order they were reported.

use vstd::prelude::*;
use crate::text::{contains_nul, copy_bytes};

verus! {

/// Codes from this one up are warnings.
pub const YANG_FIRST_WARNING: i32 = 1000;

/// One reported error: its code, the file, line and column, and the message.
pub struct YangError {
    pub code: i32,
    pub filename: Option<Vec<u8>>,
    pub line: i32,
    pub col: i32,
    pub msg: Vec<u8>,
}

/// A reported error as values.
pub struct ErrorRecord {
    pub code: i32,
    pub filename: Option<Seq<u8>>,
    pub line: i32,
    pub col: i32,
    pub msg: Seq<u8>,
}

impl YangError {
    pub open spec fn view(&self) -> ErrorRecord {
        ErrorRecord {
            code: self.code,
            filename: match self.filename {
                Some(f) => Some(f@),
                None => None,
            },
            line: self.line,
            col: self.col,
            msg: self.msg@,
        }
    }
}

/// The errors of one parse, and the room a message has: a stored message
/// keeps at most `msg_cap - 1` bytes.
pub struct YangErrorCtx {
    pub err: Vec<YangError>,
    pub msg_cap: usize,
}

impl YangErrorCtx {
    /// The errors reported so far, first reported first.
    pub open spec fn errors(&self) -> Seq<ErrorRecord> {
        self.err@.map_values(|e: YangError| e.view())
    }
}

/// The first `cap - 1` bytes of `msg`, or all of it when shorter.
pub open spec fn spec_stored_msg(msg: Seq<u8>, cap: usize) -> Seq<u8> {
    if msg.len() + 1 <= cap {
        msg
    } else {
        msg.subrange(0, cap - 1)
    }
}

/// A new, empty error context.
pub fn yang_alloc_err_ctx_rs(msg_cap: usize) -> (ectx: YangErrorCtx)
    requires
        msg_cap >= 1,
    ensures
        ectx.errors() == Seq::<ErrorRecord>::empty(),
        ectx.msg_cap == msg_cap,
{
    let e = YangErrorCtx { err: Vec::new(), msg_cap };
    assert(e.errors() =~= Seq::<ErrorRecord>::empty());
    e
}

/// A new, empty error context.
pub fn yang_alloc_err_ctx(msg_cap: usize) -> (ectx: YangErrorCtx)
    requires
        msg_cap >= 1,
    ensures
        ectx.errors() == Seq::<ErrorRecord>::empty(),
        ectx.msg_cap == msg_cap,
{
    yang_alloc_err_ctx_rs(msg_cap)
}

/// Releases an error context and its errors.
pub fn yang_free_err_ctx_rs(ectx: YangErrorCtx) {
}

/// Releases an error context and its errors.
pub fn yang_free_err_ctx(ectx: YangErrorCtx) {
    yang_free_err_ctx_rs(ectx)
}

fn copy_filename(f: &Option<Vec<u8>>) -> (r: Option<Vec<u8>>)
    ensures
        match r {
            Some(v) => f is Some && v@ == f->0@,
            None => f is None,
        },
{
    match f {
        Some(v) => Some(copy_bytes(v.as_slice())),
        None => None,
    }
}

/// Reports an error: adds it after the others.  An absent message counts as
/// empty; a long one is cut to `msg_cap - 1` bytes.
pub fn yang_add_err_msg_rs(
    ectx: &mut YangErrorCtx,
    code: i32,
    filename: &Option<Vec<u8>>,
    line: i32,
    col: i32,
    msg: Option<&[u8]>,
)
    requires
        old(ectx).msg_cap >= 1,
    ensures
        final(ectx).msg_cap == old(ectx).msg_cap,
        final(ectx).errors() == old(ectx).errors().push(
            ErrorRecord {
                code,
                filename: match filename {
                    Some(f) => Some(f@),
                    None => None,
                },
                line,
                col,
                msg: match msg {
                    Some(m) => spec_stored_msg(m@, old(ectx).msg_cap),
                    None => Seq::<u8>::empty(),
                },
            },
        ),
{
    let mut stored: Vec<u8> = Vec::new();
    match msg {
        Some(m) => {
            let n = if m.len() < ectx.msg_cap {
                m.len()
            } else {
                ectx.msg_cap - 1
            };
            let mut i: usize = 0;
            while i < n
                invariant
                    n <= m@.len(),
                    i <= n,
                    stored@ == m@.subrange(0, i as int),
                decreases n - i,
            {
                stored.push(m[i]);
                i = i + 1;
                assert(stored@ =~= m@.subrange(0, i as int));
            }
            assert(m@.subrange(0, m@.len() as int) =~= m@);
        },
        None => {
            assert(stored@ =~= Seq::<u8>::empty());
        },
    }
    let e = YangError { code, filename: copy_filename(filename), line, col, msg: stored };
    let ghost old_errs = ectx.errors();
    ectx.err.push(e);
    assert(ectx.errors() =~= old_errs.push(e.view()));
}

/// The errors after reporting `msg`: one more, unless `msg` holds a NUL byte.
pub open spec fn reported(
    errs: Seq<ErrorRecord>,
    code: i32,
    filename: Option<Seq<u8>>,
    line: i32,
    col: i32,
    msg: Seq<u8>,
    cap: usize,
) -> Seq<ErrorRecord> {
    if msg.contains(0u8) {
        errs
    } else {
        errs.push(ErrorRecord { code, filename, line, col, msg: spec_stored_msg(msg, cap) })
    }
}

/// Reports `msg` unless it holds a NUL byte, in which case nothing is reported.
pub fn report_msg(
    ectx: &mut YangErrorCtx,
    code: i32,
    filename: &Option<Vec<u8>>,
    line: i32,
    col: i32,
    msg: &[u8],
)
    requires
        old(ectx).msg_cap >= 1,
    ensures
        final(ectx).msg_cap == old(ectx).msg_cap,
        final(ectx).errors() == reported(
            old(ectx).errors(),
            code,
            match filename {
                Some(f) => Some(f@),
                None => None,
            },
            line,
            col,
            msg@,
            old(ectx).msg_cap,
        ),
{
    if contains_nul(msg) {
        return;
    }
    yang_add_err_msg_rs(ectx, code, filename, line, col, Some(msg));
}

/// Some reported code is an error rather than a warning.
pub open spec fn spec_has_error(errs: Seq<ErrorRecord>) -> bool {
    exists|i: int| 0 <= i < errs.len() && #[trigger] errs[i].code < YANG_FIRST_WARNING
}

/// Whether some reported code is an error rather than a warning.
pub fn has_error(ectx: &YangErrorCtx) -> (r: bool)
    ensures
        r == spec_has_error(ectx.errors()),
{
    let mut i: usize = 0;
    while i < ectx.err.len()
        invariant
            i <= ectx.err@.len(),
            forall|j: int| 0 <= j < i ==> #[trigger] ectx.errors()[j].code >= YANG_FIRST_WARNING,
        decreases ectx.err@.len() - i,
    {
        assert(ectx.errors()[i as int].code == ectx.err@[i as int].code);
        if ectx.err[i].code < YANG_FIRST_WARNING {
            assert(ectx.errors()[i as int].code < YANG_FIRST_WARNING);
            return true;
        }
        i = i + 1;
    }
    false
}

} // verus!
