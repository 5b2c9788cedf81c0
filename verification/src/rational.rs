//! Exact rational scalars.
//!
//! A [`Rational`] keeps its numerator and denominator as byte strings, so the
//! verifier sees plain data, and leaves the arithmetic itself to `num`'s
//! arbitrary-precision rationals. The view of a value is the real number it
//! denotes; every operation is specified over that view.

use num::BigInt;
use num::BigRational;
use num::One;
use num::Signed;
use num::Zero;
use vstd::prelude::*;

verus! {

/// The integer written by `bytes` in two's complement, least significant byte
/// first. The empty string writes zero.
pub open spec fn signed_le(bytes: Seq<u8>) -> int
    decreases bytes.len(),
{
    if bytes.len() == 0 {
        0
    } else if bytes.len() == 1 {
        if bytes[0] >= 128 {
            bytes[0] - 256
        } else {
            bytes[0] as int
        }
    } else {
        bytes[0] + 256 * signed_le(bytes.drop_first())
    }
}

/// An exact rational number of unbounded size.
#[derive(Debug)]
pub struct Rational {
    numer: Vec<u8>,
    denom: Vec<u8>,
}

impl View for Rational {
    type V = real;

    closed spec fn view(&self) -> real {
        signed_le(self.numer@) as real / signed_le(self.denom@) as real
    }
}

/// Trusted: `num::BigRational::new` on `BigInt::from(n)` and `BigInt::from(d)`
/// is the fraction `n / d`, and `to_signed_bytes_le` writes its reduced
/// numerator and (positive) denominator in two's complement, little endian.
/// `new` panics on a zero denominator only.
#[verifier::external_body]
fn ratio_from_parts(n: i64, d: i64) -> (r: Rational)
    requires
        d != 0,
    ensures
        r@ == n as real / d as real,
{
    let q = BigRational::new(BigInt::from(n), BigInt::from(d));
    Rational { numer: q.numer().to_signed_bytes_le(), denom: q.denom().to_signed_bytes_le() }
}

/// Trusted: `num::Zero::zero` for `BigRational` is `0/1`.
#[verifier::external_body]
fn ratio_zero() -> (r: Rational)
    ensures
        r@ == 0real,
{
    let q: BigRational = Zero::zero();
    Rational { numer: q.numer().to_signed_bytes_le(), denom: q.denom().to_signed_bytes_le() }
}

/// Trusted: `num::One::one` for `BigRational` is `1/1`.
#[verifier::external_body]
fn ratio_one() -> (r: Rational)
    ensures
        r@ == 1real,
{
    let q: BigRational = One::one();
    Rational { numer: q.numer().to_signed_bytes_le(), denom: q.denom().to_signed_bytes_le() }
}

/// Trusted: `BigInt::from_signed_bytes_le` reads a two's complement byte
/// string, least significant byte first; `BigRational::new` is the fraction
/// of the two integers and panics on a zero denominator only, which no
/// `Rational` holds; and `+` on `BigRational` is the exact sum. The
/// operations below read their arguments and write their results the same
/// way.
#[verifier::external_body]
fn ratio_add(a: &Rational, b: &Rational) -> (r: Rational)
    ensures
        r@ == a@ + b@,
{
    let x = BigRational::new(BigInt::from_signed_bytes_le(&a.numer), BigInt::from_signed_bytes_le(&a.denom));
    let y = BigRational::new(BigInt::from_signed_bytes_le(&b.numer), BigInt::from_signed_bytes_le(&b.denom));
    let q = x + y;
    Rational { numer: q.numer().to_signed_bytes_le(), denom: q.denom().to_signed_bytes_le() }
}

/// Trusted: `-` on `BigRational` is the exact difference.
#[verifier::external_body]
fn ratio_sub(a: &Rational, b: &Rational) -> (r: Rational)
    ensures
        r@ == a@ - b@,
{
    let x = BigRational::new(BigInt::from_signed_bytes_le(&a.numer), BigInt::from_signed_bytes_le(&a.denom));
    let y = BigRational::new(BigInt::from_signed_bytes_le(&b.numer), BigInt::from_signed_bytes_le(&b.denom));
    let q = x - y;
    Rational { numer: q.numer().to_signed_bytes_le(), denom: q.denom().to_signed_bytes_le() }
}

/// Trusted: `*` on `BigRational` is the exact product.
#[verifier::external_body]
fn ratio_mul(a: &Rational, b: &Rational) -> (r: Rational)
    ensures
        r@ == a@ * b@,
{
    let x = BigRational::new(BigInt::from_signed_bytes_le(&a.numer), BigInt::from_signed_bytes_le(&a.denom));
    let y = BigRational::new(BigInt::from_signed_bytes_le(&b.numer), BigInt::from_signed_bytes_le(&b.denom));
    let q = x * y;
    Rational { numer: q.numer().to_signed_bytes_le(), denom: q.denom().to_signed_bytes_le() }
}

/// Trusted: `/` on `BigRational` is the exact quotient; it panics on a zero
/// divisor only.
#[verifier::external_body]
fn ratio_div(a: &Rational, b: &Rational) -> (r: Rational)
    requires
        b@ != 0real,
    ensures
        r@ == a@ / b@,
{
    let x = BigRational::new(BigInt::from_signed_bytes_le(&a.numer), BigInt::from_signed_bytes_le(&a.denom));
    let y = BigRational::new(BigInt::from_signed_bytes_le(&b.numer), BigInt::from_signed_bytes_le(&b.denom));
    let q = x / y;
    Rational { numer: q.numer().to_signed_bytes_le(), denom: q.denom().to_signed_bytes_le() }
}

/// Trusted: `num::Signed::abs` on `BigRational` is the absolute value.
#[verifier::external_body]
fn ratio_abs(a: &Rational) -> (r: Rational)
    ensures
        r@ == if a@ < 0real { -a@ } else { a@ },
{
    let x = BigRational::new(BigInt::from_signed_bytes_le(&a.numer), BigInt::from_signed_bytes_le(&a.denom));
    let q = x.abs();
    Rational { numer: q.numer().to_signed_bytes_le(), denom: q.denom().to_signed_bytes_le() }
}

/// Trusted: `num::Zero::is_zero` on `BigRational` tells whether the value is
/// zero.
#[verifier::external_body]
fn ratio_is_zero(a: &Rational) -> (b: bool)
    ensures
        b == (a@ == 0real),
{
    let x = BigRational::new(BigInt::from_signed_bytes_le(&a.numer), BigInt::from_signed_bytes_le(&a.denom));
    x.is_zero()
}

/// Trusted: `==` on `BigRational` compares the values.
#[verifier::external_body]
fn ratio_eq(a: &Rational, b: &Rational) -> (e: bool)
    ensures
        e == (a@ == b@),
{
    let x = BigRational::new(BigInt::from_signed_bytes_le(&a.numer), BigInt::from_signed_bytes_le(&a.denom));
    let y = BigRational::new(BigInt::from_signed_bytes_le(&b.numer), BigInt::from_signed_bytes_le(&b.denom));
    x == y
}

/// Trusted: `<` on `BigRational` is the order of the values.
#[verifier::external_body]
fn ratio_lt(a: &Rational, b: &Rational) -> (l: bool)
    ensures
        l == (a@ < b@),
{
    let x = BigRational::new(BigInt::from_signed_bytes_le(&a.numer), BigInt::from_signed_bytes_le(&a.denom));
    let y = BigRational::new(BigInt::from_signed_bytes_le(&b.numer), BigInt::from_signed_bytes_le(&b.denom));
    x < y
}

/// The decimal text of a rational number: the numerator alone where the
/// number is an integer, else numerator, a slash and denominator, in lowest
/// terms with the sign in front.
pub uninterp spec fn rational_text(v: real) -> Seq<char>;

/// Trusted: `Display` for `BigRational` writes the reduced fraction, which
/// depends on the value alone.
#[verifier::external_body]
fn ratio_text(a: &Rational) -> (s: String)
    ensures
        s@ == rational_text(a@),
{
    let x = BigRational::new(BigInt::from_signed_bytes_le(&a.numer), BigInt::from_signed_bytes_le(&a.denom));
    format!("{}", x)
}

impl Rational {
    /// Every value carries a denominator other than zero.
    #[verifier::type_invariant]
    spec fn well_formed(self) -> bool {
        signed_le(self.denom@) != 0
    }

    /// The fraction `n / d`.
    pub fn new(n: i64, d: i64) -> (r: Rational)
        requires
            d != 0,
        ensures
            r@ == n as real / d as real,
    {
        ratio_from_parts(n, d)
    }

    /// The fraction `n / d`, or `None` when `d` is zero.
    pub fn checked_new(n: i64, d: i64) -> (r: Option<Rational>)
        ensures
            d == 0 <==> r is None,
            r matches Some(q) ==> q@ == n as real / d as real,
    {
        if d == 0 {
            None
        } else {
            Some(ratio_from_parts(n, d))
        }
    }

    /// The integer `n`.
    pub fn from_int(n: i64) -> (r: Rational)
        ensures
            r@ == n as real,
    {
        ratio_from_parts(n, 1)
    }

    /// The additive identity.
    pub fn zero() -> (r: Rational)
        ensures
            r@ == 0real,
    {
        ratio_zero()
    }

    /// The multiplicative identity.
    pub fn one() -> (r: Rational)
        ensures
            r@ == 1real,
    {
        ratio_one()
    }

    /// `self + other`.
    pub fn add(&self, other: &Rational) -> (r: Rational)
        ensures
            r@ == self@ + other@,
    {
        ratio_add(self, other)
    }

    /// `self - other`.
    pub fn sub(&self, other: &Rational) -> (r: Rational)
        ensures
            r@ == self@ - other@,
    {
        ratio_sub(self, other)
    }

    /// `self * other`.
    pub fn mul(&self, other: &Rational) -> (r: Rational)
        ensures
            r@ == self@ * other@,
    {
        ratio_mul(self, other)
    }

    /// `self / other`, for a divisor other than zero.
    pub fn div(&self, other: &Rational) -> (r: Rational)
        requires
            other@ != 0real,
        ensures
            r@ == self@ / other@,
    {
        ratio_div(self, other)
    }

    /// `self / other`, or `None` when `other` is zero.
    pub fn checked_div(&self, other: &Rational) -> (r: Option<Rational>)
        ensures
            other@ == 0real <==> r is None,
            r matches Some(q) ==> q@ == self@ / other@,
    {
        if ratio_is_zero(other) {
            None
        } else {
            Some(ratio_div(self, other))
        }
    }

    /// `-self`.
    pub fn neg(&self) -> (r: Rational)
        ensures
            r@ == -self@,
    {
        let zero = ratio_zero();
        ratio_sub(&zero, self)
    }

    /// The absolute value.
    pub fn abs(&self) -> (r: Rational)
        ensures
            r@ == abs_real(self@),
    {
        ratio_abs(self)
    }

    /// Whether the value is zero.
    pub fn is_zero(&self) -> (b: bool)
        ensures
            b == (self@ == 0real),
    {
        ratio_is_zero(self)
    }

    /// Whether `self < other`.
    pub fn lt(&self, other: &Rational) -> (b: bool)
        ensures
            b == (self@ < other@),
    {
        ratio_lt(self, other)
    }

    /// Whether `self > other`.
    pub fn gt(&self, other: &Rational) -> (b: bool)
        ensures
            b == (self@ > other@),
    {
        ratio_lt(other, self)
    }

    /// The text of the number.
    pub fn to_text(&self) -> (s: String)
        ensures
            s@ == rational_text(self@),
    {
        ratio_text(self)
    }

    /// Whether the two values are the same number.
    pub fn same(&self, other: &Rational) -> (b: bool)
        ensures
            b == (self@ == other@),
    {
        ratio_eq(self, other)
    }
}

/// The absolute value of a real number.
pub open spec fn abs_real(x: real) -> real {
    if x < 0real {
        -x
    } else {
        x
    }
}

impl Clone for Rational {
    fn clone(&self) -> (r: Rational)
        ensures
            r@ == self@,
    {
        proof {
            use_type_invariant(self);
        }
        Rational { numer: self.numer.clone(), denom: self.denom.clone() }
    }
}

} // verus!
