//! Validators of YANG argument values: integers, enum names, identifiers,
//! dates, `max-value`, `fraction-digits` and `if-feature` expressions.
//!
//! An argument is the byte string of a statement argument.  Where a value is
//! read as text, invalid UTF-8 stands for U+FFFD, which is neither white space
//! nor a digit; this is why the checks below can be stated on the bytes.
//! The validators that first match the argument against a regular expression
//! take the outcome of that match as `regex_matched`.

use vstd::prelude::*;
use crate::if_feature::{spec_if_feature_expr, yang_parse_if_feature_expr, spec_is_digit};
use crate::text::{push_bytes, push_str, lossy_utf8, lossy_text, lemma_no_nul};
use crate::parser::YANG_VERSION_1;
use vstd::utf8::{valid_utf8, decode_utf8, decode_first_scalar, pop_first_scalar};
use vstd::string::StringSliceAdditionalSpecFns;

verus! {

/// The text starts with a character that has the Unicode White_Space
/// property: U+0009..U+000D, U+0020, U+0085, U+00A0, U+1680, U+2000..U+200A,
/// U+2028, U+2029, U+202F, U+205F or U+3000, given here by their UTF-8 bytes.
pub open spec fn spec_ws_at_start(s: Seq<u8>) -> bool {
    ||| s.len() >= 1 && ((9 <= s[0] <= 13) || s[0] == 32)
    ||| s.len() >= 2 && s[0] == 0xc2 && (s[1] == 0x85 || s[1] == 0xa0)
    ||| s.len() >= 3 && s[0] == 0xe1 && s[1] == 0x9a && s[2] == 0x80
    ||| s.len() >= 3 && s[0] == 0xe2 && s[1] == 0x80 && ((0x80 <= s[2] <= 0x8a) || s[2] == 0xa8
        || s[2] == 0xa9 || s[2] == 0xaf)
    ||| s.len() >= 3 && s[0] == 0xe2 && s[1] == 0x81 && s[2] == 0x9f
    ||| s.len() >= 3 && s[0] == 0xe3 && s[1] == 0x80 && s[2] == 0x80
}

/// A code point with the Unicode White_Space property.
pub open spec fn is_white_space(c: u32) -> bool {
    ||| 9 <= c <= 13
    ||| c == 32
    ||| c == 0x85
    ||| c == 0xa0
    ||| c == 0x1680
    ||| 0x2000 <= c <= 0x200a
    ||| c == 0x2028
    ||| c == 0x2029
    ||| c == 0x202f
    ||| c == 0x205f
    ||| c == 0x3000
}

proof fn lemma_ws_width1(b0: u8)
    requires
        b0 <= 0x7f,
    ensures
        is_white_space((b0 & 0x7f) as u32) <==> ((9 <= b0 <= 13) || b0 == 32),
{
    assert(b0 <= 0x7f ==> (is_white_space((b0 & 0x7f) as u32) <==> ((9 <= b0 <= 13) || b0 == 32))) by (bit_vector);
}

proof fn lemma_ws_width2(b0: u8, b1: u8)
    requires
        0xc0 <= b0 <= 0xdf,
        0x80 <= b1 <= 0xbf,
        0x80 <= ((((b0 & 0x1f) as u32) << 6) | ((b1 & 0x3f) as u32)),
    ensures
        is_white_space((((b0 & 0x1f) as u32) << 6) | ((b1 & 0x3f) as u32)) <==> (b0 == 0xc2 && (b1 == 0x85 || b1 == 0xa0)),
{
    assert(0xc0 <= b0 <= 0xdf && 0x80 <= b1 <= 0xbf && 0x80 <= ((((b0 & 0x1f) as u32) << 6) | ((b1 & 0x3f) as u32)) ==> (is_white_space((((b0 & 0x1f) as u32) << 6) | ((b1 & 0x3f) as u32))
        <==> (b0 == 0xc2 && (b1 == 0x85 || b1 == 0xa0)))) by (bit_vector);
}

proof fn lemma_ws_width3(b0: u8, b1: u8, b2: u8)
    requires
        0xe0 <= b0 <= 0xef,
        0x80 <= b1 <= 0xbf,
        0x80 <= b2 <= 0xbf,
        0x800 <= ((((b0 & 0x0f) as u32) << 12) | (((b1 & 0x3f) as u32) << 6) | ((b2 & 0x3f) as u32)),
    ensures
        is_white_space((((b0 & 0x0f) as u32) << 12) | (((b1 & 0x3f) as u32) << 6) | ((b2 & 0x3f) as u32)) <==> (
        (b0 == 0xe1 && b1 == 0x9a && b2 == 0x80) || (b0 == 0xe2 && b1 == 0x80 && ((0x80 <= b2 <= 0x8a) || b2 == 0xa8
            || b2 == 0xa9 || b2 == 0xaf)) || (b0 == 0xe2 && b1 == 0x81 && b2 == 0x9f) || (b0 == 0xe3 && b1 == 0x80
            && b2 == 0x80)),
{
    assert(0xe0 <= b0 <= 0xef && 0x80 <= b1 <= 0xbf && 0x80 <= b2 <= 0xbf
        && 0x800 <= ((((b0 & 0x0f) as u32) << 12) | (((b1 & 0x3f) as u32) << 6) | ((b2 & 0x3f) as u32)) ==> (
        is_white_space((((b0 & 0x0f) as u32) << 12) | (((b1 & 0x3f) as u32) << 6) | ((b2 & 0x3f) as u32)) <==> (
        (b0 == 0xe1 && b1 == 0x9a && b2 == 0x80) || (b0 == 0xe2 && b1 == 0x80 && ((0x80 <= b2 <= 0x8a) || b2 == 0xa8
            || b2 == 0xa9 || b2 == 0xaf)) || (b0 == 0xe2 && b1 == 0x81 && b2 == 0x9f) || (b0 == 0xe3 && b1 == 0x80
            && b2 == 0x80)))) by (bit_vector);
}

/// On text, the byte test of `starts_with_ws` is the test of the first
/// character: UTF-8 text starts with white space exactly when it is not
/// empty and its first character has the Unicode White_Space property.
pub proof fn law_ws_at_start_first_char(s: Seq<u8>)
    requires
        valid_utf8(s),
    ensures
        s.len() > 0 ==> decode_utf8(s)[0] == decode_first_scalar(s) as char,
        spec_ws_at_start(s) <==> (s.len() > 0 && is_white_space(decode_first_scalar(s))),
{
    if s.len() > 0 {
        assert(decode_utf8(s) =~= seq![decode_first_scalar(s) as char] + decode_utf8(pop_first_scalar(s)));
        let b0 = s[0];
        if b0 <= 0x7f {
            lemma_ws_width1(b0);
        } else if 0xc0 <= b0 <= 0xdf {
            lemma_ws_width2(b0, s[1]);
        } else if 0xe0 <= b0 <= 0xef {
            lemma_ws_width3(b0, s[1], s[2]);
        } else {
            assert(0x10000 <= decode_first_scalar(s));
        }
    }
}

/// The text ends with a character that has the Unicode White_Space property.
pub open spec fn spec_ws_at_end(s: Seq<u8>) -> bool {
    let n = s.len() as int;
    ||| n >= 1 && ((9 <= s[n - 1] <= 13) || s[n - 1] == 32)
    ||| n >= 2 && s[n - 2] == 0xc2 && (s[n - 1] == 0x85 || s[n - 1] == 0xa0)
    ||| n >= 3 && s[n - 3] == 0xe1 && s[n - 2] == 0x9a && s[n - 1] == 0x80
    ||| n >= 3 && s[n - 3] == 0xe2 && s[n - 2] == 0x80 && ((0x80 <= s[n - 1] <= 0x8a) || s[n
        - 1] == 0xa8 || s[n - 1] == 0xa9 || s[n - 1] == 0xaf)
    ||| n >= 3 && s[n - 3] == 0xe2 && s[n - 2] == 0x81 && s[n - 1] == 0x9f
    ||| n >= 3 && s[n - 3] == 0xe3 && s[n - 2] == 0x80 && s[n - 1] == 0x80
}

/// Whether the three bytes `a b c` encode a multi-byte white space character.
fn ws3(a: u8, b: u8, c: u8) -> (r: bool)
    ensures
        r == ((a == 0xe1 && b == 0x9a && c == 0x80) || (a == 0xe2 && b == 0x80 && ((0x80 <= c
            <= 0x8a) || c == 0xa8 || c == 0xa9 || c == 0xaf)) || (a == 0xe2 && b == 0x81 && c
            == 0x9f) || (a == 0xe3 && b == 0x80 && c == 0x80)),
{
    (a == 0xe1 && b == 0x9a && c == 0x80) || (a == 0xe2 && b == 0x80 && ((0x80 <= c && c <= 0x8a)
        || c == 0xa8 || c == 0xa9 || c == 0xaf)) || (a == 0xe2 && b == 0x81 && c == 0x9f) || (a
        == 0xe3 && b == 0x80 && c == 0x80)
}

/// Whether the text of `s` starts with white space.
pub fn starts_with_ws(s: &[u8]) -> (r: bool)
    ensures
        r == spec_ws_at_start(s@),
{
    let n = s.len();
    if n >= 1 && ((9 <= s[0] && s[0] <= 13) || s[0] == 32) {
        return true;
    }
    if n >= 2 && s[0] == 0xc2 && (s[1] == 0x85 || s[1] == 0xa0) {
        return true;
    }
    n >= 3 && ws3(s[0], s[1], s[2])
}

/// Whether the text of `s` ends with white space.
pub fn ends_with_ws(s: &[u8]) -> (r: bool)
    ensures
        r == spec_ws_at_end(s@),
{
    let n = s.len();
    if n >= 1 && ((9 <= s[n - 1] && s[n - 1] <= 13) || s[n - 1] == 32) {
        return true;
    }
    if n >= 2 && s[n - 2] == 0xc2 && (s[n - 1] == 0x85 || s[n - 1] == 0xa0) {
        return true;
    }
    n >= 3 && ws3(s[n - 3], s[n - 2], s[n - 1])
}

/// Every byte of `s` is an ASCII digit.
pub open spec fn all_digits(s: Seq<u8>) -> bool {
    forall|i: int| 0 <= i < s.len() ==> spec_is_digit(#[trigger] s[i])
}

/// The value of a string of decimal digits.
pub open spec fn decimal_value(s: Seq<u8>) -> int
    decreases s.len(),
{
    if s.len() == 0 {
        0
    } else {
        decimal_value(s.drop_last()) * 10 + (s.last() - 48)
    }
}

/// What Rust's `from_str` for a signed integer type reads: an optional `+` or
/// `-` and one or more digits, nothing else.  The value, before any range check.
pub open spec fn spec_signed_decimal(s: Seq<u8>) -> Option<int> {
    if s.len() > 0 && (s[0] == 43 || s[0] == 45) {
        let d = s.drop_first();
        if d.len() > 0 && all_digits(d) {
            Some(if s[0] == 45 { -decimal_value(d) } else { decimal_value(d) })
        } else {
            None
        }
    } else if s.len() > 0 && all_digits(s) {
        Some(decimal_value(s))
    } else {
        None
    }
}

/// What Rust's `from_str` for an unsigned integer type reads: an optional `+`
/// and one or more digits.  The value, before any range check.
pub open spec fn spec_unsigned_decimal(s: Seq<u8>) -> Option<int> {
    if s.len() > 0 && s[0] == 43 {
        let d = s.drop_first();
        if d.len() > 0 && all_digits(d) {
            Some(decimal_value(d))
        } else {
            None
        }
    } else if s.len() > 0 && all_digits(s) {
        Some(decimal_value(s))
    } else {
        None
    }
}

/// `s.parse::<i64>()`, as an `Option`.
pub open spec fn spec_parse_i64(s: Seq<u8>) -> Option<i64> {
    match spec_signed_decimal(s) {
        Some(v) => if i64::MIN <= v <= i64::MAX { Some(v as i64) } else { None },
        None => None,
    }
}

/// `s.parse::<i32>()`, as an `Option`.
pub open spec fn spec_parse_i32(s: Seq<u8>) -> Option<i32> {
    match spec_signed_decimal(s) {
        Some(v) => if i32::MIN <= v <= i32::MAX { Some(v as i32) } else { None },
        None => None,
    }
}

/// `s.parse::<u64>()`, as an `Option`.
pub open spec fn spec_parse_u64(s: Seq<u8>) -> Option<u64> {
    match spec_unsigned_decimal(s) {
        Some(v) => if v <= u64::MAX { Some(v as u64) } else { None },
        None => None,
    }
}

proof fn lemma_decimal_value_nonneg(s: Seq<u8>)
    requires
        all_digits(s),
    ensures
        decimal_value(s) >= 0,
    decreases s.len(),
{
    if s.len() > 0 {
        assert(spec_is_digit(s[s.len() - 1]));
        lemma_decimal_value_nonneg(s.drop_last());
    }
}

/// A longer digit string is worth at least as much as its prefix.
proof fn lemma_decimal_value_prefix(s: Seq<u8>, i: int)
    requires
        all_digits(s),
        0 <= i <= s.len(),
    ensures
        decimal_value(s.subrange(0, i)) <= decimal_value(s),
    decreases s.len() - i,
{
    if i < s.len() {
        let t = s.subrange(0, i + 1);
        assert(t.drop_last() =~= s.subrange(0, i));
        assert(all_digits(t));
        assert(spec_is_digit(t[i]));
        lemma_decimal_value_nonneg(s.subrange(0, i));
        lemma_decimal_value_prefix(s, i + 1);
    } else {
        assert(s.subrange(0, i) =~= s);
    }
}

/// The value of the digits `s[start..]`, if it fits in a `u64`; `None` when
/// some byte is not a digit, when there are none, or when the value overflows.
fn digits_u64(s: &[u8], start: usize) -> (r: Option<u64>)
    requires
        start <= s@.len(),
    ensures
        ({
            let d = s@.subrange(start as int, s@.len() as int);
            match r {
                Some(v) => d.len() > 0 && all_digits(d) && v == decimal_value(d),
                None => !(d.len() > 0 && all_digits(d)) || decimal_value(d) > u64::MAX,
            }
        }),
{
    let ghost d = s@.subrange(start as int, s@.len() as int);
    let n = s.len();
    if start >= n {
        return None;
    }
    let mut acc: u64 = 0;
    let mut i: usize = start;
    while i < n
        invariant
            n == s@.len(),
            start <= i <= n,
            d == s@.subrange(start as int, s@.len() as int),
            all_digits(d.subrange(0, i - start)),
            acc == decimal_value(d.subrange(0, i - start)),
        decreases n - i,
    {
        let b = s[i];
        let ghost pre = d.subrange(0, i - start);
        let ghost next = d.subrange(0, i + 1 - start);
        assert(next.drop_last() =~= pre);
        if !(48 <= b && b <= 57) {
            assert(d[i - start] == b);
            return None;
        }
        assert(all_digits(next));
        match acc.checked_mul(10) {
            Some(m) => match m.checked_add((b - 48) as u64) {
                Some(a) => {
                    acc = a;
                },
                None => {
                    proof {
                        if all_digits(d) {
                            lemma_decimal_value_prefix(d, i + 1 - start);
                        }
                    }
                    return None;
                },
            },
            None => {
                proof {
                    assert(spec_is_digit(next[i - start]));
                    if all_digits(d) {
                        lemma_decimal_value_prefix(d, i + 1 - start);
                    }
                }
                return None;
            },
        }
        i = i + 1;
    }
    assert(d.subrange(0, n - start) =~= d);
    Some(acc)
}

/// `s.parse::<i64>()`: an optional sign and decimal digits within range.
pub fn parse_i64(s: &[u8]) -> (r: Option<i64>)
    ensures
        r == spec_parse_i64(s@),
{
    if s.len() > 0 && (s[0] == 43 || s[0] == 45) {
        let neg = s[0] == 45;
        assert(s@.subrange(1, s@.len() as int) =~= s@.drop_first());
        match digits_u64(s, 1) {
            Some(m) => {
                if neg {
                    if m <= 9223372036854775807u64 {
                        Some(-(m as i64))
                    } else if m == 9223372036854775808u64 {
                        Some(i64::MIN)
                    } else {
                        None
                    }
                } else if m <= 9223372036854775807u64 {
                    Some(m as i64)
                } else {
                    None
                }
            },
            None => None,
        }
    } else {
        assert(s@.subrange(0, s@.len() as int) =~= s@);
        match digits_u64(s, 0) {
            Some(m) => if m <= 9223372036854775807u64 {
                Some(m as i64)
            } else {
                None
            },
            None => None,
        }
    }
}

/// `s.parse::<i32>()`: an optional sign and decimal digits within range.
pub fn parse_i32(s: &[u8]) -> (r: Option<i32>)
    ensures
        r == spec_parse_i32(s@),
{
    match parse_i64(s) {
        Some(v) => if -2147483648 <= v && v <= 2147483647 {
            Some(v as i32)
        } else {
            None
        },
        None => {
            proof {
                if let Some(v) = spec_signed_decimal(s@) {
                    assert(!(i64::MIN <= v <= i64::MAX));
                }
            }
            None
        },
    }
}

/// `s.parse::<u64>()`: an optional `+` and decimal digits within range.
pub fn parse_u64(s: &[u8]) -> (r: Option<u64>)
    ensures
        r == spec_parse_u64(s@),
{
    if s.len() > 0 && s[0] == 43 {
        assert(s@.subrange(1, s@.len() as int) =~= s@.drop_first());
        digits_u64(s, 1)
    } else {
        assert(s@.subrange(0, s@.len() as int) =~= s@);
        digits_u64(s, 0)
    }
}

/// A signed 64-bit integer, unless the text starts with white space.
pub fn parse_i64_str(s: &[u8]) -> (r: Option<i64>)
    ensures
        r == (if spec_ws_at_start(s@) { None } else { spec_parse_i64(s@) }),
{
    if starts_with_ws(s) {
        return None;
    }
    parse_i64(s)
}

/// An unsigned 64-bit integer, unless the text starts with white space or `-`.
pub fn parse_u64_str(s: &[u8]) -> (r: Option<u64>)
    ensures
        r == (if spec_ws_at_start(s@) || (s@.len() > 0 && s@[0] == 45) {
            None
        } else {
            spec_parse_u64(s@)
        }),
{
    if starts_with_ws(s) || (s.len() > 0 && s[0] == 45) {
        return None;
    }
    parse_u64(s)
}

/// `enum-arg`: a non-empty value that neither starts nor ends with white space.
pub fn chk_enum_arg_rs(arg: Option<&[u8]>) -> (ok: bool)
    ensures
        ok == match arg {
            None => false,
            Some(a) => a@.len() > 0 && !spec_ws_at_start(a@) && !spec_ws_at_end(a@),
        },
{
    match arg {
        None => false,
        Some(a) => {
            if a.len() == 0 {
                return false;
            }
            !starts_with_ws(a) && !ends_with_ws(a)
        },
    }
}

/// `integer`: a signed 64-bit integer.
pub fn chk_integer_rs(arg: Option<&[u8]>) -> (ok: bool)
    ensures
        ok == match arg {
            None => false,
            Some(a) => !spec_ws_at_start(a@) && spec_parse_i64(a@) is Some,
        },
{
    match arg {
        None => false,
        Some(a) => parse_i64_str(a).is_some(),
    }
}

/// `non-negative-integer`: an unsigned 64-bit integer.
pub fn chk_non_negative_integer_rs(arg: Option<&[u8]>) -> (ok: bool)
    ensures
        ok == match arg {
            None => false,
            Some(a) => !spec_ws_at_start(a@) && !(a@.len() > 0 && a@[0] == 45) && spec_parse_u64(
                a@,
            ) is Some,
        },
{
    match arg {
        None => false,
        Some(a) => parse_u64_str(a).is_some(),
    }
}

/// The text `unbounded`.
pub open spec fn spec_unbounded() -> Seq<u8> {
    seq![117u8, 110, 98, 111, 117, 110, 100, 101, 100]
}

fn is_unbounded(a: &[u8]) -> (r: bool)
    ensures
        r == (a@ == spec_unbounded()),
{
    let w: [u8; 9] = [117, 110, 98, 111, 117, 110, 100, 101, 100];
    assert(w@ =~= spec_unbounded());
    if a.len() != 9 {
        return false;
    }
    let mut i: usize = 0;
    while i < 9
        invariant
            a@.len() == 9,
            w@ == spec_unbounded(),
            i <= 9,
            forall|j: int| 0 <= j < i ==> a@[j] == w@[j],
        decreases 9 - i,
    {
        if a[i] != w[i] {
            return false;
        }
        i = i + 1;
    }
    assert(a@ =~= spec_unbounded());
    true
}

/// `max-value`: `unbounded` or an unsigned 64-bit integer.
pub fn chk_max_value_rs(arg: Option<&[u8]>) -> (ok: bool)
    ensures
        ok == match arg {
            None => false,
            Some(a) => a@ == spec_unbounded() || (!spec_ws_at_start(a@) && !(a@.len() > 0 && a@[0]
                == 45) && spec_parse_u64(a@) is Some),
        },
{
    match arg {
        None => false,
        Some(a) => {
            if is_unbounded(a) {
                true
            } else {
                parse_u64_str(a).is_some()
            }
        },
    }
}

/// `fraction-digits-arg`: an unsigned integer from 1 to 18.
pub fn chk_fraction_digits_arg_rs(arg: Option<&[u8]>) -> (ok: bool)
    ensures
        ok == match arg {
            None => false,
            Some(a) => !spec_ws_at_start(a@) && !(a@.len() > 0 && a@[0] == 45) && match spec_parse_u64(a@) {
                Some(v) => 1 <= v <= 18,
                None => false,
            },
        },
{
    match arg {
        None => false,
        Some(a) => match parse_u64_str(a) {
            Some(v) => 1 <= v && v <= 18,
            None => false,
        },
    }
}


/// The first three bytes spell `xml` in any mix of cases.
pub open spec fn spec_xml_prefix(s: Seq<u8>) -> bool {
    &&& s.len() >= 3
    &&& (s[0] == 120 || s[0] == 88)
    &&& (s[1] == 109 || s[1] == 77)
    &&& (s[2] == 108 || s[2] == 76)
}

/// The message for an identifier that starts with `xml` in YANG version 1.
pub open spec fn spec_msg_xml_identifier(text: Seq<u8>) -> Seq<u8> {
    "bad argument value \"".spec_bytes() + text
        + "\", an identifier must not start with [xX][mM][lL] in YANG version 1".spec_bytes()
}

/// The message for an `if-feature` argument that is no identifier reference in YANG version 1.
pub open spec fn spec_msg_if_feature_v1(text: Seq<u8>) -> Seq<u8> {
    "bad argument value \"".spec_bytes() + text
        + "\", should be of type identifier-ref in YANG version 1".spec_bytes()
}

/// `identifier`: the argument matched the identifier expression and, in YANG
/// version 1, does not start with `xml` in any case.  In the latter case the
/// second result is the message to report, holding the argument's text.
pub fn chk_identifier_rs(arg: Option<&[u8]>, regex_matched: bool, yang_version: i8) -> (r: (
    bool,
    Option<Vec<u8>>,
))
    ensures
        r.0 == match arg {
            None => false,
            Some(a) => regex_matched && (yang_version != YANG_VERSION_1 || !spec_xml_prefix(a@)),
        },
        r.1 is Some <==> (arg is Some && regex_matched && yang_version == YANG_VERSION_1
            && spec_xml_prefix(arg->0@)),
        r.1 is Some ==> r.1->0@ == spec_msg_xml_identifier(lossy_text(arg->0@)),
{
    let a = match arg {
        None => return (false, None),
        Some(a) => a,
    };
    if !regex_matched {
        return (false, None);
    }
    if yang_version != YANG_VERSION_1 {
        return (true, None);
    }
    if a.len() >= 3 && (a[0] == 120 || a[0] == 88) && (a[1] == 109 || a[1] == 77) && (a[2] == 108
        || a[2] == 76) {
        let text = lossy_utf8(a);
        let mut msg: Vec<u8> = Vec::new();
        push_str(&mut msg, "bad argument value \"");
        push_bytes(&mut msg, text.as_slice());
        push_str(&mut msg, "\", an identifier must not start with [xX][mM][lL] in YANG version 1");
        assert(msg@ =~= spec_msg_xml_identifier(text@));
        return (false, Some(msg));
    }
    (true, None)
}

/// The index of the first `b` in `s` at or after `from`, or the length of `s`.
pub open spec fn find_byte(s: Seq<u8>, b: u8, from: int) -> int
    decreases s.len() - from,
{
    if from >= s.len() {
        s.len() as int
    } else if s[from] == b {
        from
    } else {
        find_byte(s, b, from + 1)
    }
}

/// The pieces of `s` between occurrences of `sep`, as `str::split` gives them.
pub open spec fn spec_split(s: Seq<u8>, sep: u8) -> Seq<Seq<u8>>
    decreases s.len(),
{
    let i = find_byte(s, sep, 0);
    if !(0 <= i < s.len()) {
        seq![s]
    } else {
        seq![s.subrange(0, i)] + spec_split(s.subrange(i + 1, s.len() as int), sep)
    }
}

pub proof fn lemma_find_byte(s: Seq<u8>, b: u8, from: int)
    requires
        0 <= from <= s.len(),
    ensures
        from <= find_byte(s, b, from) <= s.len(),
        find_byte(s, b, from) < s.len() ==> s[find_byte(s, b, from)] == b,
        forall|j: int| from <= j < find_byte(s, b, from) ==> s[j] != b,
    decreases s.len() - from,
{
    if from < s.len() && s[from] != b {
        lemma_find_byte(s, b, from + 1);
    }
}

/// `find_byte` from `from` on a suffix equals `find_byte` on the whole, shifted.
proof fn lemma_find_byte_shift(s: Seq<u8>, b: u8, k: int, from: int)
    requires
        0 <= k <= s.len(),
        0 <= from <= s.len() - k,
    ensures
        find_byte(s.subrange(k, s.len() as int), b, from) == find_byte(s, b, k + from) - k,
    decreases s.len() - k - from,
{
    if from < s.len() - k {
        lemma_find_byte_shift(s, b, k, from + 1);
    }
}

pub fn find_byte_exec(s: &[u8], b: u8, from: usize) -> (r: usize)
    requires
        from <= s@.len(),
    ensures
        r as int == find_byte(s@, b, from as int),
{
    let mut i = from;
    while i < s.len() && s[i] != b
        invariant
            from <= i <= s@.len(),
            find_byte(s@, b, i as int) == find_byte(s@, b, from as int),
        decreases s@.len() - i,
    {
        i = i + 1;
    }
    i
}

/// The number of days in month `m` of year `y`, Gregorian calendar.
pub open spec fn days_in_month(y: int, m: int) -> int {
    if m == 2 {
        if y % 400 == 0 || (y % 4 == 0 && y % 100 != 0) {
            29
        } else {
            28
        }
    } else if m == 4 || m == 6 || m == 9 || m == 11 {
        30
    } else {
        31
    }
}

/// The text is `year-month-day`, three decimal numbers forming a calendar date.
pub open spec fn spec_date_ok(s: Seq<u8>) -> bool {
    let p = spec_split(s, 45);
    &&& p.len() == 3
    &&& match (spec_parse_i32(p[0]), spec_parse_i32(p[1]), spec_parse_i32(p[2])) {
        (Some(y), Some(m), Some(d)) => 1 <= m <= 12 && d >= 1 && d <= days_in_month(y as int, m as int),
        _ => false,
    }
}

/// `date`: the argument matched the date expression and names a day that exists.
pub fn chk_date_rs(arg: Option<&[u8]>, regex_matched: bool) -> (ok: bool)
    ensures
        ok == match arg {
            None => false,
            Some(a) => regex_matched && spec_date_ok(a@),
        },
{
    let a = match arg {
        None => return false,
        Some(a) => a,
    };
    if !regex_matched {
        return false;
    }
    let ghost s = a@;
    let n = a.len();
    let i1 = find_byte_exec(a, 45, 0);
    proof {
        lemma_find_byte(s, 45, 0);
        reveal_with_fuel(spec_split, 4);
    }
    if i1 >= n {
        return false;
    }
    let i2 = find_byte_exec(a, 45, i1 + 1);
    proof {
        lemma_find_byte(s, 45, i1 + 1);
    }
    if i2 >= n {
        proof {
            let t = s.subrange(i1 + 1, n as int);
            lemma_find_byte_shift(s, 45, i1 + 1, 0);
            assert(t.subrange(0, t.len() as int) =~= t);
        }
        return false;
    }
    let i3 = find_byte_exec(a, 45, i2 + 1);
    proof {
        lemma_find_byte(s, 45, i2 + 1);
        let t = s.subrange(i1 + 1, n as int);
        lemma_find_byte_shift(s, 45, i1 + 1, 0);
        let u = s.subrange(i2 + 1, n as int);
        lemma_find_byte_shift(s, 45, i2 + 1, 0);
        assert(t.subrange(i2 - i1, t.len() as int) =~= u);
        assert(t.subrange(0, i2 - i1 - 1) =~= s.subrange(i1 + 1, i2 as int));
        if i3 < n {
            let w = u.subrange(i3 - i2, u.len() as int);
            assert(u.subrange(0, i3 - i2 - 1) =~= s.subrange(i2 + 1, i3 as int));
        }
    }
    if i3 < n {
        return false;
    }
    proof {
        let u = s.subrange(i2 + 1, n as int);
        assert(spec_split(u, 45) =~= seq![u]);
        assert(spec_split(s, 45) =~= seq![s.subrange(0, i1 as int), s.subrange(i1 + 1, i2 as int), u]);
    }
    let y = match parse_i32(&a[0..i1]) {
        Some(v) => v,
        None => return false,
    };
    let m = match parse_i32(&a[i1 + 1..i2]) {
        Some(v) => v,
        None => return false,
    };
    let d = match parse_i32(&a[i2 + 1..n]) {
        Some(v) => v,
        None => return false,
    };
    if !(1 <= m && m <= 12) || d < 1 {
        return false;
    }
    proof {
        let p0 = s.subrange(0, i1 as int);
        assert(forall|j: int| 0 <= j < p0.len() ==> p0[j] != 45);
        if p0.len() > 0 {
            assert(p0[0] != 45);
        }
        if p0.len() > 0 && p0[0] == 43 {
            lemma_decimal_value_nonneg(p0.drop_first());
        } else if p0.len() > 0 {
            lemma_decimal_value_nonneg(p0);
        }
    }
    assert(y >= 0);
    let yu = y as u32;
    let mut days: i32 = 31;
    if m == 2 {
        days = if yu % 400 == 0 || (yu % 4 == 0 && yu % 100 != 0) {
            29
        } else {
            28
        };
    } else if m == 4 || m == 6 || m == 9 || m == 11 {
        days = 30;
    }
    d <= days
}

/// `if-feature-expr`: in YANG version 1 an identifier reference (the outcome
/// of matching is `regex_matched`, and a mismatch comes with a message holding
/// the argument's text); in later versions an `if-feature` expression.
pub fn chk_if_feature_expr_rs(arg: Option<&[u8]>, regex_matched: bool, yang_version: i8) -> (r: (
    bool,
    Option<Vec<u8>>,
))
    ensures
        r.0 == match arg {
            None => false,
            Some(a) => if yang_version == YANG_VERSION_1 {
                regex_matched
            } else {
                spec_if_feature_expr(a@)
            },
        },
        r.1 is Some <==> (arg is Some && yang_version == YANG_VERSION_1 && !regex_matched),
        r.1 is Some ==> r.1->0@ == spec_msg_if_feature_v1(lossy_text(arg->0@)),
        r.1 is Some && !arg->0@.contains(0u8) ==> !r.1->0@.contains(0u8),
{
    let a = match arg {
        None => return (false, None),
        Some(a) => a,
    };
    if yang_version == YANG_VERSION_1 {
        if !regex_matched {
            let text = lossy_utf8(a);
            let mut msg: Vec<u8> = Vec::new();
            push_str(&mut msg, "bad argument value \"");
            push_bytes(&mut msg, text.as_slice());
            push_str(&mut msg, "\", should be of type identifier-ref in YANG version 1");
            assert(msg@ =~= spec_msg_if_feature_v1(text@));
            proof {
                reveal_strlit("bad argument value \"");
                reveal_strlit("\", should be of type identifier-ref in YANG version 1");
                lemma_no_nul("bad argument value \"");
                lemma_no_nul("\", should be of type identifier-ref in YANG version 1");
                if !a@.contains(0u8) {
                    let l1 = "bad argument value \"".spec_bytes();
                    let l2 = "\", should be of type identifier-ref in YANG version 1".spec_bytes();
                    assert(msg@ =~= l1 + text@ + l2);
                    assert forall|i: int| 0 <= i < msg@.len() implies #[trigger] msg@[i] != 0u8 by {
                        if i < l1.len() {
                            assert(msg@[i] == l1[i]);
                        } else if i < l1.len() + text@.len() {
                            assert(msg@[i] == text@[i - l1.len()]);
                        } else {
                            assert(msg@[i] == l2[i - l1.len() - text@.len()]);
                        }
                    }
                }
            }
            return (false, Some(msg));
        }
        (true, None)
    } else {
        (yang_parse_if_feature_expr(a), None)
    }
}

/// An argument type given by a regular expression alone: the argument is
/// present and matched it.
pub fn chk_xsd_regexp(arg: Option<&[u8]>, regex_matched: bool) -> (ok: bool)
    ensures
        ok == (arg is Some && regex_matched),
{
    arg.is_some() && regex_matched
}

/// The bytes that a message leaves at the start of an error buffer of `sz`
/// bytes: the message and its terminating NUL, cut to `sz` bytes with the
/// last one NUL.  A message that holds a NUL leaves one NUL byte.  `None`
/// when the buffer has no room at all.
pub open spec fn spec_write_err(msg: Seq<u8>, sz: i32) -> Option<Seq<u8>> {
    if sz <= 0 {
        None
    } else if msg.contains(0u8) {
        Some(seq![0u8])
    } else {
        let b = msg.push(0u8);
        if b.len() < sz {
            Some(b)
        } else {
            Some(b.subrange(0, sz - 1).push(0u8))
        }
    }
}

/// What writing `msg` into an error buffer of `sz` bytes puts at its start.
pub fn write_err(msg: &[u8], sz: i32) -> (r: Option<Vec<u8>>)
    ensures
        r.is_some() ==> spec_write_err(msg@, sz) == Some(r->0@),
        r.is_none() ==> spec_write_err(msg@, sz) is None,
{
    if sz <= 0 {
        return None;
    }
    let mut i: usize = 0;
    while i < msg.len()
        invariant
            sz > 0,
            i <= msg@.len(),
            forall|j: int| 0 <= j < i ==> msg@[j] != 0u8,
        decreases msg@.len() - i,
    {
        if msg[i] == 0 {
            let mut z: Vec<u8> = Vec::new();
            z.push(0);
            assert(msg@[i as int] == 0u8);
            assert(msg@.contains(0u8));
            assert(z@ =~= seq![0u8]);
            return Some(z);
        }
        i = i + 1;
    }
    assert(!msg@.contains(0u8));
    let cap = sz as usize;
    let mut out: Vec<u8> = Vec::new();
    let mut k: usize = 0;
    while k < msg.len() && k + 1 < cap
        invariant
            k <= msg@.len(),
            cap == sz as usize,
            k < cap,
            out@ == msg@.subrange(0, k as int),
        decreases msg@.len() - k,
    {
        out.push(msg[k]);
        k = k + 1;
        assert(out@ =~= msg@.subrange(0, k as int));
    }
    out.push(0);
    proof {
        let b = msg@.push(0u8);
        if b.len() < sz {
            assert(k == msg@.len());
            assert(out@ =~= b);
        } else {
            assert(out@ =~= b.subrange(0, sz - 1).push(0u8));
        }
    }
    Some(out)
}

} // verus!
