//! Finite-only and fully classified floating-point wrappers.
//!
//! Floating-point values themselves stay outside the verified world.  The
//! [`Fp`] trait exposes exactly what this module's logic reads of such a
//! value — whether it is infinite, whether it is NaN, and its sign — and
//! every wrapper here is verified against those classifications alone.
//! Implementations of [`Fp`] for the concrete machine float types live
//! with the unverified code that owns them.

use vstd::prelude::*;

verus! {

/// Trait for valid inner float types, seen through their classification.
pub trait Fp: Sized + Copy {
    /// Whether the value is positive or negative infinity.
    spec fn is_infinite_spec(&self) -> bool;

    /// Whether the value is NaN.
    spec fn is_nan_spec(&self) -> bool;

    /// Whether the value's sign bit says "positive".
    spec fn is_sign_positive_spec(&self) -> bool;

    /// Whether the value is positive or negative infinity.
    fn is_infinite(&self) -> (b: bool)
        ensures
            b == self.is_infinite_spec(),
    ;

    /// Whether the value is NaN.
    fn is_nan(&self) -> (b: bool)
        ensures
            b == self.is_nan_spec(),
    ;

    /// Whether the value's sign bit says "positive".
    fn is_sign_positive(&self) -> (b: bool)
        ensures
            b == self.is_sign_positive_spec(),
    ;

    /// Positive infinity.
    fn infinity() -> (r: Self)
        ensures
            r.is_infinite_spec(),
            !r.is_nan_spec(),
            r.is_sign_positive_spec(),
    ;

    /// Negative infinity.
    fn neg_infinity() -> (r: Self)
        ensures
            r.is_infinite_spec(),
            !r.is_nan_spec(),
            !r.is_sign_positive_spec(),
    ;

    /// A NaN value.
    fn nan() -> (r: Self)
        ensures
            r.is_nan_spec(),
            !r.is_infinite_spec(),
    ;
}

/// Error type when a float is non-rl.
#[derive(Copy, Clone, Debug)]
pub struct NotRealError<F: Fp>(pub F);

/// Error type for failing to parse a `Real` from a string.
#[derive(Copy, Clone, Debug)]
pub enum ParseRealError<E, F: Fp> {
    NotFloat(E),
    NotReal(NotRealError<F>),
}

/// Displayable form of non-nested mathematical expressions.
#[derive(Copy, Clone, Debug)]
pub enum MathOp<F: Fp> {
    Infix(F, char, F),
    Prefix(char, F),
}

/// Error when performing a mathematically-undefined operation that
/// outputs a non-rl float.
#[derive(Copy, Clone, Debug)]
pub struct MathError<F: Fp> {
    pub output: F,
    pub operation: MathOp<F>,
}

/// Float which is not inf, -inf, or NaN.
#[derive(Copy, Clone, Debug)]
pub struct Real<F: Fp>(F);

impl<F: Fp> Real<F> {
    /// The wrapped float value.
    pub closed spec fn spec_float(self) -> F {
        self.0
    }

    /// A float is rl when it is neither infinite nor NaN.
    pub open spec fn is_real(f: F) -> bool {
        !f.is_infinite_spec() && !f.is_nan_spec()
    }

    /// A well-formed `Real` wraps a rl float.
    pub open spec fn wf(self) -> bool {
        Self::is_real(self.spec_float())
    }

    /// Construct from a float, or error: succeeds exactly on rl floats.
    pub fn try_new(f: F) -> (r: Result<Self, NotRealError<F>>)
        ensures
            r is Ok <==> Self::is_real(f),
            r matches Ok(rl) ==> rl.spec_float() == f && rl.wf(),
            r matches Err(e) ==> e.0 == f,
    {
        if f.is_infinite() || f.is_nan() {
            Err(NotRealError(f))
        } else {
            Ok(Real(f))
        }
    }

    /// Construct from a float known to be rl.
    pub fn new(f: F) -> (r: Self)
        requires
            Self::is_real(f),
        ensures
            r.spec_float() == f,
            r.wf(),
    {
        match Real::try_new(f) {
            Ok(r) => r,
            Err(_) => {
                proof {
                    assert(false);
                }
                Real(f)
            },
        }
    }

    /// Extract the raw float.
    pub fn to_float(self) -> (f: F)
        ensures
            f == self.spec_float(),
    {
        self.0
    }

    /// Map the inner float.  The error carries the output when the
    /// mapped value is no longer rl.
    pub fn map<M: FnOnce(F) -> F>(self, m: M) -> (r: Result<Self, NotRealError<F>>)
        requires
            call_requires(m, (self.spec_float(),)),
        ensures
            r matches Ok(rl) ==> rl.wf() && call_ensures(
                m,
                (self.spec_float(),),
                rl.spec_float(),
            ),
            r matches Err(e) ==> !Self::is_real(e.0) && call_ensures(m, (self.spec_float(),), e.0),
    {
        Real::try_new(m(self.0))
    }
}

/// Explicit representation of float rl and non-rl variants.
#[derive(Copy, Clone, Debug)]
pub enum FpRepr<F: Fp> {
    NegInf,
    Real(Real<F>),
    PosInf,
    Nan,
}

impl<F: Fp> FpRepr<F> {
    /// Construct from a float.  Always succeeds: every float is either an
    /// infinity, NaN, or rl.
    pub fn new(f: F) -> (r: FpRepr<F>)
        ensures
            f.is_infinite_spec() && f.is_sign_positive_spec() ==> r is PosInf,
            f.is_infinite_spec() && !f.is_sign_positive_spec() ==> r is NegInf,
            !f.is_infinite_spec() && f.is_nan_spec() ==> r is Nan,
            Real::<F>::is_real(f) ==> (r matches FpRepr::Real(rl) && rl.spec_float() == f
                && rl.wf()),
    {
        if f.is_infinite() {
            if f.is_sign_positive() {
                FpRepr::PosInf
            } else {
                FpRepr::NegInf
            }
        } else if f.is_nan() {
            FpRepr::Nan
        } else {
            FpRepr::Real(Real::new(f))
        }
    }

    /// Extract the `Real` variant.
    pub fn to_real(self) -> (rl: Real<F>)
        requires
            self is Real,
        ensures
            self == FpRepr::Real(rl),
    {
        match self {
            FpRepr::Real(rl) => rl,
            _ => unreached(),
        }
    }

    /// Convert to a raw float.
    pub fn to_float(self) -> (f: F)
        ensures
            self is PosInf ==> f.is_infinite_spec() && !f.is_nan_spec()
                && f.is_sign_positive_spec(),
            self is NegInf ==> f.is_infinite_spec() && !f.is_nan_spec()
                && !f.is_sign_positive_spec(),
            self is Nan ==> f.is_nan_spec() && !f.is_infinite_spec(),
            self matches FpRepr::Real(rl) ==> f == rl.spec_float(),
    {
        match self {
            FpRepr::NegInf => F::neg_infinity(),
            FpRepr::Real(rl) => rl.to_float(),
            FpRepr::PosInf => F::infinity(),
            FpRepr::Nan => F::nan(),
        }
    }

    /// Map the raw float, reclassifying the result.
    pub fn map<M: FnOnce(F) -> F>(self, m: M) -> (r: FpRepr<F>)
        requires
            forall|x: F| call_requires(m, (x,)),
        ensures
            exists|x: F, y: F|
                call_ensures(m, (x,), y) && (self matches FpRepr::Real(rl) ==> x
                    == rl.spec_float()) && (Real::<F>::is_real(y) ==> r is Real) && (
                y.is_infinite_spec() && y.is_sign_positive_spec() ==> r is PosInf) && (
                y.is_infinite_spec() && !y.is_sign_positive_spec() ==> r is NegInf) && (
                !y.is_infinite_spec() && y.is_nan_spec() ==> r is Nan),
    {
        let x = self.to_float();
        let y = m(x);
        let r = FpRepr::new(y);
        proof {
            assert(call_ensures(m, (x,), y));
        }
        r
    }
}

/// Wrapper around `Real` intended for arithmetic that reports failure
/// instead of panicking.
#[derive(Copy, Clone)]
pub struct TryMath<F: Fp>(pub Real<F>);

impl<F: Fp> TryMath<F> {
    /// The wrapped `Real`.
    pub fn to_real(self) -> (rl: Real<F>)
        ensures
            rl == self.0,
    {
        self.0
    }

    /// The wrapped raw float.
    pub fn to_float(self) -> (f: F)
        ensures
            f == self.0.spec_float(),
    {
        self.0.to_float()
    }
}

} // verus!
