//! Building the bytes of messages: literal text, decimal numbers, bytes shown
//! as characters, and text decoded with invalid UTF-8 replaced.

use vstd::prelude::*;
use vstd::string::StringSliceAdditionalSpecFns;
use vstd::utf8::valid_utf8;

verus! {

/// Appends `s` to `v`.
pub fn push_bytes(v: &mut Vec<u8>, s: &[u8])
    ensures
        final(v)@ == old(v)@ + s@,
{
    let mut i: usize = 0;
    while i < s.len()
        invariant
            i <= s@.len(),
            v@ == old(v)@ + s@.subrange(0, i as int),
        decreases s@.len() - i,
    {
        v.push(s[i]);
        i = i + 1;
        assert(v@ =~= old(v)@ + s@.subrange(0, i as int));
    }
    assert(s@.subrange(0, s@.len() as int) =~= s@);
}

/// Appends the UTF-8 bytes of `s` to `v`.
pub fn push_str(v: &mut Vec<u8>, s: &str)
    ensures
        final(v)@ == old(v)@ + s.spec_bytes(),
{
    push_bytes(v, s.as_bytes());
}

/// The bytes of `s`.
pub fn str_bytes(s: &str) -> (r: Vec<u8>)
    ensures
        r@ == s.spec_bytes(),
{
    let mut v: Vec<u8> = Vec::new();
    push_str(&mut v, s);
    assert(v@ =~= s.spec_bytes());
    v
}

/// The UTF-8 bytes of the text that `b` reads as when each invalid UTF-8
/// sequence stands for U+FFFD.
pub uninterp spec fn lossy_text(b: Seq<u8>) -> Seq<u8>;

/// The bytes of `b` read as UTF-8, each invalid sequence replaced by U+FFFD,
/// as `String::from_utf8_lossy` produces them.
///
/// Trusted: calls `String::from_utf8_lossy`.  The contract names the result
/// `lossy_text` of the input, and states what the documentation says: valid
/// UTF-8 comes back unchanged, and the result is made of the valid parts of
/// the input and U+FFFD, so input without a NUL byte gives a result without
/// one.  Which text invalid input becomes is left unsaid.
#[verifier::external_body]
pub fn lossy_utf8(b: &[u8]) -> (r: Vec<u8>)
    ensures
        r@ == lossy_text(b@),
        valid_utf8(b@) ==> r@ == b@,
        !b@.contains(0u8) ==> !r@.contains(0u8),
{
    String::from_utf8_lossy(b).into_owned().into_bytes()
}

/// The decimal digits of `n` (no sign, no leading zero but for 0 itself).
pub open spec fn spec_decimal_digits(n: nat) -> Seq<u8>
    decreases n,
{
    if n < 10 {
        seq![(48 + n) as u8]
    } else {
        spec_decimal_digits(n / 10) + seq![(48 + n % 10) as u8]
    }
}

/// `n` written in decimal, with a leading `-` when negative.
pub open spec fn spec_decimal(n: int) -> Seq<u8> {
    if n < 0 {
        seq![45u8] + spec_decimal_digits((-n) as nat)
    } else {
        spec_decimal_digits(n as nat)
    }
}

/// The decimal digits of `n`, as `format!("{}", n)` writes them.
pub fn decimal_digits_u64(n: u64) -> (r: Vec<u8>)
    ensures
        r@ == spec_decimal_digits(n as nat),
    decreases n,
{
    if n < 10 {
        let mut v: Vec<u8> = Vec::new();
        v.push(48 + n as u8);
        assert(v@ =~= spec_decimal_digits(n as nat));
        v
    } else {
        let mut v = decimal_digits_u64(n / 10);
        v.push(48 + (n % 10) as u8);
        assert(v@ =~= spec_decimal_digits(n as nat));
        v
    }
}

/// `n` written in decimal, as `format!("{}", n)` writes it.
pub fn decimal_i64(n: i64) -> (r: Vec<u8>)
    ensures
        r@ == spec_decimal(n as int),
{
    if n < 0 {
        let m: u64 = if n == i64::MIN {
            9223372036854775808u64
        } else {
            (-n) as u64
        };
        let d = decimal_digits_u64(m);
        let mut v: Vec<u8> = Vec::new();
        v.push(45);
        push_bytes(&mut v, d.as_slice());
        assert(v@ =~= spec_decimal(n as int));
        v
    } else {
        decimal_digits_u64(n as u64)
    }
}

/// The UTF-8 bytes of the character whose code point is `b`.
pub open spec fn spec_byte_as_char(b: u8) -> Seq<u8> {
    if b < 128 {
        seq![b]
    } else {
        seq![(192 + b / 64) as u8, (128 + b % 64) as u8]
    }
}

/// The UTF-8 bytes of `b as char`, as `format!("{}", b as char)` writes them.
pub fn byte_as_char(b: u8) -> (r: Vec<u8>)
    ensures
        r@ == spec_byte_as_char(b),
{
    let mut v: Vec<u8> = Vec::new();
    if b < 128 {
        v.push(b);
    } else {
        v.push(192 + b / 64);
        v.push(128 + b % 64);
    }
    assert(v@ =~= spec_byte_as_char(b));
    v
}


/// Whether `a` and `b` hold the same bytes.
pub fn bytes_eq(a: &[u8], b: &[u8]) -> (r: bool)
    ensures
        r == (a@ == b@),
{
    if a.len() != b.len() {
        return false;
    }
    let mut i: usize = 0;
    while i < a.len()
        invariant
            a@.len() == b@.len(),
            i <= a@.len(),
            forall|j: int| 0 <= j < i ==> a@[j] == b@[j],
        decreases a@.len() - i,
    {
        if a[i] != b[i] {
            return false;
        }
        i = i + 1;
    }
    assert(a@ =~= b@);
    true
}

/// Whether `a` holds a NUL byte.
pub fn contains_nul(a: &[u8]) -> (r: bool)
    ensures
        r == a@.contains(0u8),
{
    let mut i: usize = 0;
    while i < a.len()
        invariant
            i <= a@.len(),
            forall|j: int| 0 <= j < i ==> a@[j] != 0u8,
        decreases a@.len() - i,
    {
        if a[i] == 0 {
            assert(a@[i as int] == 0u8);
            return true;
        }
        i = i + 1;
    }
    false
}

/// A copy of `a`.
pub fn copy_bytes(a: &[u8]) -> (r: Vec<u8>)
    ensures
        r@ == a@,
{
    let mut v: Vec<u8> = Vec::new();
    push_bytes(&mut v, a);
    assert(v@ =~= a@);
    v
}

/// The bytes of a text of ASCII characters other than NUL hold no NUL byte.
pub proof fn lemma_no_nul(s: &str)
    requires
        forall|i: int| 0 <= i < s@.len() ==> '\u{1}' <= #[trigger] s@[i] <= '\u{7f}',
    ensures
        !s.spec_bytes().contains(0u8),
{
    broadcast use vstd::string::is_ascii_spec_bytes;
    assert(vstd::string::is_ascii(s));
    let b = s.spec_bytes();
    assert forall|i: int| 0 <= i < b.len() implies #[trigger] b[i] != 0u8 by {
        assert(b[i] == s@[i] as u8);
    }
}

} // verus!
