//! Regular expressions, as the grammar uses them: W3C XML Schema patterns
//! that an argument must match in full.  Matching is done by the caller's
//! matcher, a function from a pattern and an input to whether the input
//! matches; a pattern that does not compile matches nothing.

use vstd::prelude::*;

verus! {

/// The matcher gives one answer for one pattern and one input.
pub open spec fn matcher_det<F: Fn(&[u8], &[u8]) -> bool>(m: F) -> bool {
    forall|p1: &[u8], i1: &[u8], p2: &[u8], i2: &[u8], r1: bool, r2: bool|
        #![trigger call_ensures(m, (p1, i1), r1), call_ensures(m, (p2, i2), r2)]
        call_ensures(m, (p1, i1), r1) && call_ensures(m, (p2, i2), r2) && p1@ == p2@ && i1@ == i2@
            ==> r1 == r2
}

/// The matcher can be called on any pattern and input.
pub open spec fn matcher_total<F: Fn(&[u8], &[u8]) -> bool>(m: F) -> bool {
    forall|p: &[u8], i: &[u8]| #[trigger] call_requires(m, (p, i))
}

/// A matcher that can be called on anything and answers consistently.
pub open spec fn matcher_ok<F: Fn(&[u8], &[u8]) -> bool>(m: F) -> bool {
    matcher_total(m) && matcher_det(m)
}

/// The input `i` matches the pattern `p`, according to the matcher.
pub open spec fn pattern_matches<F: Fn(&[u8], &[u8]) -> bool>(m: F, p: Seq<u8>, i: Seq<u8>) -> bool {
    exists|pp: &[u8], ii: &[u8]| pp@ == p && ii@ == i && #[trigger] call_ensures(m, (pp, ii), true)
}

/// Asks the matcher whether `i` matches `p`.
pub fn call_match<F: Fn(&[u8], &[u8]) -> bool>(m: &F, p: &[u8], i: &[u8]) -> (r: bool)
    requires
        matcher_ok(*m),
    ensures
        r == pattern_matches(*m, p@, i@),
{
    let r = m(p, i);
    proof {
        if r {
            assert(call_ensures(*m, (p, i), true));
        } else {
            if pattern_matches(*m, p@, i@) {
                let (pp, ii) = choose|pp: &[u8], ii: &[u8]| pp@ == p@ && ii@ == i@ && #[trigger] call_ensures(*m, (pp, ii), true);
                assert(call_ensures(*m, (p, i), false));
            }
        }
    }
    r
}

/// The compiler accepts or refuses a pattern consistently.
pub open spec fn compiler_ok<G: Fn(&[u8]) -> bool>(c: G) -> bool {
    &&& forall|p: &[u8]| #[trigger] call_requires(c, (p,))
    &&& forall|p1: &[u8], p2: &[u8], r1: bool, r2: bool|
        #![trigger call_ensures(c, (p1,), r1), call_ensures(c, (p2,), r2)]
        call_ensures(c, (p1,), r1) && call_ensures(c, (p2,), r2) && p1@ == p2@ ==> r1 == r2
}

/// The pattern `p` compiles, according to the compiler.
pub open spec fn compiles<G: Fn(&[u8]) -> bool>(c: G, p: Seq<u8>) -> bool {
    exists|pp: &[u8]| pp@ == p && #[trigger] call_ensures(c, (pp,), true)
}

/// Asks the compiler whether `p` compiles.
pub fn call_compile<G: Fn(&[u8]) -> bool>(c: &G, p: &[u8]) -> (r: bool)
    requires
        compiler_ok(*c),
    ensures
        r == compiles(*c, p@),
{
    let r = c(p);
    proof {
        if r {
            assert(call_ensures(*c, (p,), true));
        } else {
            if compiles(*c, p@) {
                let pp = choose|pp: &[u8]| pp@ == p@ && #[trigger] call_ensures(*c, (pp,), true);
                assert(call_ensures(*c, (p,), false));
            }
        }
    }
    r
}

} // verus!
