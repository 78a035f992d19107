use vstd::prelude::*;

verus! {

/// The complex number system the simulator computes in.
///
/// Real quantities (traces, probabilities, the random draw of a sampler, the
/// tolerance) are values of the same type whose imaginary part is zero. The
/// comparisons look at real parts only.
///
/// Each operation is named by a spec function of the type: an
/// implementation's result depends on its arguments alone.
pub trait Amplitude: Sized + Copy {
    /// The additive identity.
    spec fn zero_spec() -> Self;

    /// The multiplicative identity.
    spec fn one_spec() -> Self;

    /// The tolerance under which a real quantity counts as zero.
    spec fn tolerance_spec() -> Self;

    /// `a + b`.
    spec fn add_spec(a: Self, b: Self) -> Self;

    /// `a - b`.
    spec fn sub_spec(a: Self, b: Self) -> Self;

    /// `a * b`.
    spec fn mul_spec(a: Self, b: Self) -> Self;

    /// `a / b`.
    spec fn div_spec(a: Self, b: Self) -> Self;

    /// The complex conjugate of `a`.
    spec fn conj_spec(a: Self) -> Self;

    /// The principal square root of `a`.
    spec fn sqrt_spec(a: Self) -> Self;

    /// The real part of `a`, with zero imaginary part.
    spec fn real_spec(a: Self) -> Self;

    /// `a` times the real part of `f`.
    spec fn scale_spec(a: Self, f: Self) -> Self;

    /// `|re(a)|`.
    spec fn abs_re_spec(a: Self) -> Self;

    /// `|im(a)|`.
    spec fn abs_im_spec(a: Self) -> Self;

    /// `|a|²`.
    spec fn norm_sqr_spec(a: Self) -> Self;

    /// `re(a) < re(b)`.
    spec fn lt_spec(a: Self, b: Self) -> bool;

    /// `re(a) <= re(b)`.
    spec fn le_spec(a: Self, b: Self) -> bool;

    /// The additive identity.
    fn zero() -> (r: Self)
        ensures
            r == Self::zero_spec(),
    ;

    /// The multiplicative identity.
    fn one() -> (r: Self)
        ensures
            r == Self::one_spec(),
    ;

    /// The fixed tolerance under which a real quantity counts as zero.
    fn tolerance() -> (r: Self)
        ensures
            r == Self::tolerance_spec(),
    ;

    /// `self + other`.
    fn plus(&self, other: &Self) -> (r: Self)
        ensures
            r == Self::add_spec(*self, *other),
    ;

    /// `self - other`.
    fn minus(&self, other: &Self) -> (r: Self)
        ensures
            r == Self::sub_spec(*self, *other),
    ;

    /// `self * other`.
    fn times(&self, other: &Self) -> (r: Self)
        ensures
            r == Self::mul_spec(*self, *other),
    ;

    /// `self / other`.
    fn divided_by(&self, other: &Self) -> (r: Self)
        ensures
            r == Self::div_spec(*self, *other),
    ;

    /// The complex conjugate.
    fn conj(&self) -> (r: Self)
        ensures
            r == Self::conj_spec(*self),
    ;

    /// The principal square root.
    fn sqrt(&self) -> (r: Self)
        ensures
            r == Self::sqrt_spec(*self),
    ;

    /// The real part, as a value with zero imaginary part.
    fn real_part(&self) -> (r: Self)
        ensures
            r == Self::real_spec(*self),
    ;

    /// `self` times the real part of `factor`.
    fn scaled(&self, factor: &Self) -> (r: Self)
        ensures
            r == Self::scale_spec(*self, *factor),
    ;

    /// `|re(self)|`, as a real value.
    fn abs_re(&self) -> (r: Self)
        ensures
            r == Self::abs_re_spec(*self),
    ;

    /// `|im(self)|`, as a real value.
    fn abs_im(&self) -> (r: Self)
        ensures
            r == Self::abs_im_spec(*self),
    ;

    /// `|self|²`, as a real value.
    fn norm_sqr(&self) -> (r: Self)
        ensures
            r == Self::norm_sqr_spec(*self),
    ;

    /// Whether `re(self) < re(other)`.
    fn lt(&self, other: &Self) -> (r: bool)
        ensures
            r == Self::lt_spec(*self, *other),
    ;

    /// Whether `re(self) <= re(other)`.
    fn le(&self, other: &Self) -> (r: bool)
        ensures
            r == Self::le_spec(*self, *other),
    ;
}

} // verus!
