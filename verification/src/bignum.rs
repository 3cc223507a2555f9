use vstd::prelude::*;

verus! {

#[verifier::external_type_specification]
#[verifier::external_body]
pub struct ExInteger(rug::Integer);

#[verifier::external_type_specification]
#[verifier::external_body]
pub struct ExRational(rug::Rational);

/// The mathematical value held by an arbitrary-precision integer.
pub uninterp spec fn int_v(x: rug::Integer) -> int;

/// The numerator of the canonical form held by an arbitrary-precision
/// rational.
pub uninterp spec fn rat_num(x: rug::Rational) -> int;

/// The denominator of the canonical form held by an arbitrary-precision
/// rational.
pub uninterp spec fn rat_den(x: rug::Rational) -> int;

/// Relies on rug::Integer::from, the arbitrary-precision image of a machine
/// integer.
#[verifier::external_body]
pub(crate) fn int_from_u64(v: u64) -> (r: rug::Integer)
    ensures
        int_v(r) == v as int,
{
    rug::Integer::from(v)
}

/// Relies on rug::Integer::binomial_u (GMP's binomial coefficient on two
/// machine integers), which is `n` choose `k`, and zero when `k` exceeds `n`.
#[verifier::external_body]
pub(crate) fn int_binomial(n: u32, k: u32) -> (r: rug::Integer)
    ensures
        int_v(r) == crate::math::binom(n as nat, k as int),
{
    rug::Integer::from(rug::Integer::binomial_u(n, k))
}

/// Relies on rug's arbitrary-precision integer addition.
#[verifier::external_body]
pub(crate) fn int_add(a: &rug::Integer, b: &rug::Integer) -> (r: rug::Integer)
    ensures
        int_v(r) == int_v(*a) + int_v(*b),
{
    rug::Integer::from(a + b)
}

/// Relies on rug's arbitrary-precision integer subtraction.
#[verifier::external_body]
pub(crate) fn int_sub(a: &rug::Integer, b: &rug::Integer) -> (r: rug::Integer)
    ensures
        int_v(r) == int_v(*a) - int_v(*b),
{
    rug::Integer::from(a - b)
}

/// Relies on rug's arbitrary-precision integer multiplication.
#[verifier::external_body]
pub(crate) fn int_mul(a: &rug::Integer, b: &rug::Integer) -> (r: rug::Integer)
    ensures
        int_v(r) == int_v(*a) * int_v(*b),
{
    rug::Integer::from(a * b)
}

/// Relies on rug's arbitrary-precision integer exponentiation by a machine
/// integer (`Pow<u32>`).
#[verifier::external_body]
pub(crate) fn int_pow(a: &rug::Integer, e: u32) -> (r: rug::Integer)
    ensures
        int_v(r) == vstd::arithmetic::power::pow(int_v(*a), e as nat),
{
    rug::Integer::from(rug::ops::Pow::pow(a, e))
}

/// Relies on rug::Rational::from on a numerator-denominator pair, which
/// canonicalizes: the denominator of the result is positive and the value is
/// the quotient of the two parts. A zero denominator is not accepted there.
#[verifier::external_body]
pub(crate) fn rational_from_parts(num: &rug::Integer, den: &rug::Integer) -> (r: rug::Rational)
    requires
        int_v(*den) != 0,
    ensures
        rat_den(r) > 0,
        rat_num(r) * int_v(*den) == int_v(*num) * rat_den(r),
{
    rug::Rational::from((num.clone(), den.clone()))
}

} // verus!
