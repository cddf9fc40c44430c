//! Integer core of the continued-fraction rational converter.
//!
//! A floating-point driver (outside the verified library) extracts successive
//! continued-fraction terms from a real number; the functions here maintain
//! the convergent recurrence on exact integers and bound every term so that
//! nominator and denominator stay within 32-bit signed range.

use vstd::prelude::*;

verus! {

/// An unsigned EXIF rational: nominator over denominator.
///
/// A denominator of zero is valid only to mean "undefined"; the pair is never
/// divided out inside the library.
#[allow(non_camel_case_types)]
#[derive(Clone, Debug, PartialEq, Eq, Structural)]
pub struct uR64 {
    pub nominator: u32,
    pub denominator: u32,
}

/// A signed EXIF rational: nominator over denominator.
#[allow(non_camel_case_types)]
#[derive(Clone, Debug, PartialEq, Eq, Structural)]
pub struct iR64 {
    pub nominator: i32,
    pub denominator: i32,
}

/// The largest continued-fraction term that keeps both parts of the next
/// convergent within 32-bit signed range, per the convergent recurrence.
pub open spec fn spec_max_safe_term(convergent: uR64, previous: uR64) -> u32 {
    let den_bound = ((0x7fffffffu32 - previous.denominator) as u32 / convergent.denominator) as u32;
    if convergent.nominator > 0 {
        let nom_bound = ((0x7fffffffu32 - previous.nominator) as u32 / convergent.nominator) as u32;
        if nom_bound < den_bound {
            nom_bound
        } else {
            den_bound
        }
    } else {
        den_bound
    }
}

/// Extend the continued fraction by one term: the next convergent's parts are
/// `term` times the current convergent's plus the previous convergent's.
pub fn add_next_fraction_term(term: &u32, convergent: &uR64, previous_convergent: &uR64) -> (r:
    uR64)
    requires
        *term * convergent.nominator + previous_convergent.nominator <= u32::MAX,
        *term * convergent.denominator + previous_convergent.denominator <= u32::MAX,
    ensures
        r.nominator == *term * convergent.nominator + previous_convergent.nominator,
        r.denominator == *term * convergent.denominator + previous_convergent.denominator,
{
    uR64 {
        nominator: term * convergent.nominator + previous_convergent.nominator,
        denominator: term * convergent.denominator + previous_convergent.denominator,
    }
}

/// The largest term that the recurrence can take without pushing either part
/// of the next convergent past `i32::MAX`.
pub fn max_safe_term(convergent: &uR64, previous: &uR64) -> (n: u32)
    requires
        convergent.denominator > 0,
        previous.nominator <= 0x7fffffff,
        previous.denominator <= 0x7fffffff,
    ensures
        n == spec_max_safe_term(*convergent, *previous),
{
    let den_bound = (0x7fffffffu32 - previous.denominator) / convergent.denominator;
    if convergent.nominator > 0 {
        let nom_bound = (0x7fffffffu32 - previous.nominator) / convergent.nominator;
        if nom_bound < den_bound {
            nom_bound
        } else {
            den_bound
        }
    } else {
        den_bound
    }
}

/// A term at most `max_safe_term` never overflows the recurrence, and the
/// resulting convergent again stays within 32-bit signed range.
pub proof fn lemma_safe_term_keeps_bounds(term: u32, convergent: uR64, previous: uR64)
    requires
        convergent.denominator > 0,
        convergent.nominator <= 0x7fffffff,
        convergent.denominator <= 0x7fffffff,
        previous.nominator <= 0x7fffffff,
        previous.denominator <= 0x7fffffff,
        term <= spec_max_safe_term(convergent, previous),
    ensures
        term * convergent.nominator + previous.nominator <= 0x7fffffff,
        term * convergent.denominator + previous.denominator <= 0x7fffffff,
{
    let den_bound = ((0x7fffffffu32 - previous.denominator) as u32 / convergent.denominator) as u32;
    assert(den_bound * convergent.denominator <= (0x7fffffffu32 - previous.denominator) as u32)
        by (nonlinear_arith)
        requires
            convergent.denominator > 0,
            den_bound == (0x7fffffffu32 - previous.denominator) as u32 / convergent.denominator,
            previous.denominator <= 0x7fffffff,
    ;
    assert(term * convergent.denominator <= den_bound * convergent.denominator) by (
    nonlinear_arith)
        requires
            term <= den_bound,
    ;
    if convergent.nominator > 0 {
        let nom_bound = ((0x7fffffffu32 - previous.nominator) as u32 / convergent.nominator) as u32;
        assert(nom_bound * convergent.nominator <= (0x7fffffffu32 - previous.nominator) as u32)
            by (nonlinear_arith)
            requires
                convergent.nominator > 0,
                nom_bound == (0x7fffffffu32 - previous.nominator) as u32 / convergent.nominator,
                previous.nominator <= 0x7fffffff,
        ;
        assert(term * convergent.nominator <= nom_bound * convergent.nominator) by (
        nonlinear_arith)
            requires
                term <= nom_bound,
        ;
    }
}

} // verus!
