use vstd::prelude::*;

verus! {

/// The numbers that the language computes with.
///
/// The language itself only moves numbers around, tests them against zero
/// and one, and combines them with the four arithmetic operations; this trait
/// is that interface. Each operation is a function of its arguments alone,
/// named by a spec function, so that contracts can say which number a
/// computation gives. The interactive front end instantiates it with IEEE-754
/// double precision numbers.
pub trait Scalar: Copy + Sized {
    /// The additive identity.
    spec fn spec_zero() -> Self;

    /// The multiplicative identity.
    spec fn spec_one() -> Self;

    /// `a + b`
    spec fn spec_plus(a: Self, b: Self) -> Self;

    /// `a - b`
    spec fn spec_minus(a: Self, b: Self) -> Self;

    /// `a * b`
    spec fn spec_times(a: Self, b: Self) -> Self;

    /// `a / b`
    spec fn spec_over(a: Self, b: Self) -> Self;

    /// `-a`
    spec fn spec_negated(a: Self) -> Self;

    /// Whether `a` is exactly zero.
    spec fn spec_is_zero(a: Self) -> bool;

    /// Whether `a` is exactly one.
    spec fn spec_is_one(a: Self) -> bool;

    fn zero() -> (r: Self)
        ensures
            r == Self::spec_zero(),
    ;

    fn one() -> (r: Self)
        ensures
            r == Self::spec_one(),
    ;

    fn plus(self, rhs: Self) -> (r: Self)
        ensures
            r == Self::spec_plus(self, rhs),
    ;

    fn minus(self, rhs: Self) -> (r: Self)
        ensures
            r == Self::spec_minus(self, rhs),
    ;

    fn times(self, rhs: Self) -> (r: Self)
        ensures
            r == Self::spec_times(self, rhs),
    ;

    fn over(self, rhs: Self) -> (r: Self)
        ensures
            r == Self::spec_over(self, rhs),
    ;

    fn negated(self) -> (r: Self)
        ensures
            r == Self::spec_negated(self),
    ;

    fn is_zero(self) -> (r: bool)
        ensures
            r == Self::spec_is_zero(self),
    ;

    fn is_one(self) -> (r: bool)
        ensures
            r == Self::spec_is_one(self),
    ;

    /// Reads a numeric literal such as `12`, `0.5` or `3e-2`; the error is a
    /// description of why the text is not a number.
    fn parse_literal(text: &str) -> Result<Self, String>;

    /// The number in its usual textual form.
    fn render(self) -> String;
}

} // verus!
