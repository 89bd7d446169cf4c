use vstd::prelude::*;

verus! {

/// The scalar arithmetic that the force kernels need.
///
/// The kernels are written once over this capability set and run on
/// single or double precision through an implementation supplied by the
/// host program. Each operation is a function of its arguments: the `spec_`
/// functions name its result, and the kernels' contracts are stated over
/// those names. Nothing else is assumed of them, no algebraic law in
/// particular, as floating point keeps none exactly.
pub trait Coord: Copy + Send + Sync + Sized {
    spec fn spec_zero() -> Self;

    spec fn spec_one() -> Self;

    spec fn spec_from_count(n: usize) -> Self;

    spec fn spec_add(self, o: Self) -> Self;

    spec fn spec_sub(self, o: Self) -> Self;

    spec fn spec_mul(self, o: Self) -> Self;

    spec fn spec_div(self, o: Self) -> Self;

    spec fn spec_sqrt(self) -> Self;

    spec fn spec_ln_1p(self) -> Self;

    spec fn spec_is_zero(self) -> bool;

    spec fn spec_positive(self) -> bool;

    /// The additive identity.
    fn zero() -> (r: Self)
        ensures
            r == Self::spec_zero(),
    ;

    /// The multiplicative identity.
    fn one() -> (r: Self)
        ensures
            r == Self::spec_one(),
    ;

    /// The scalar that stands for the count `n`.
    fn from_count(n: usize) -> (r: Self)
        ensures
            r == Self::spec_from_count(n),
    ;

    fn add(self, o: Self) -> (r: Self)
        ensures
            r == self.spec_add(o),
    ;

    fn sub(self, o: Self) -> (r: Self)
        ensures
            r == self.spec_sub(o),
    ;

    fn mul(self, o: Self) -> (r: Self)
        ensures
            r == self.spec_mul(o),
    ;

    fn div(self, o: Self) -> (r: Self)
        ensures
            r == self.spec_div(o),
    ;

    fn sqrt(self) -> (r: Self)
        ensures
            r == self.spec_sqrt(),
    ;

    /// The natural logarithm of `1 + self`.
    fn ln_1p(self) -> (r: Self)
        ensures
            r == self.spec_ln_1p(),
    ;

    fn is_zero(self) -> (r: bool)
        ensures
            r == self.spec_is_zero(),
    ;

    /// Whether the value is strictly greater than zero.
    fn positive(self) -> (r: bool)
        ensures
            r == self.spec_positive(),
    ;

    /// Reads a scalar written in decimal, if the bytes hold one.
    fn parse(text: &[u8]) -> Option<Self>;
}

} // verus!
