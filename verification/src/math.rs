use vstd::prelude::*;
use vstd::arithmetic::power::pow;

verus! {

/// Binomial coefficient `m` choose `k`, by Pascal's rule; zero outside
/// `0 <= k <= m`.
pub open spec fn binom(m: nat, k: int) -> nat
    decreases m,
{
    if k < 0 || k > m {
        0
    } else if k == 0 {
        1
    } else {
        binom((m - 1) as nat, k - 1) + binom((m - 1) as nat, k)
    }
}

pub proof fn lemma_binom_full(m: nat)
    ensures
        binom(m, m as int) == 1,
    decreases m,
{
    reveal_with_fuel(binom, 2);
    if m > 0 {
        lemma_binom_full((m - 1) as nat);
    }
}

pub proof fn lemma_binom_pos(m: nat, k: int)
    requires
        0 <= k <= m,
    ensures
        binom(m, k) >= 1,
    decreases m,
{
    if k > 0 {
        lemma_binom_pos((m - 1) as nat, k - 1);
    }
}

/// One term of the binomial expansion of `(x + y)^m`:
/// `C(m, i) * x^i * y^(m - i)`, taken as zero past the last index.
pub open spec fn expansion_term(m: nat, x: int, y: int, i: nat) -> int {
    if i <= m {
        binom(m, i as int) * pow(x, i) * pow(y, (m - i) as nat)
    } else {
        0
    }
}

/// Sum of the expansion terms with index below `k`.
pub open spec fn expansion_sum(m: nat, x: int, y: int, k: nat) -> int
    decreases k,
{
    if k == 0 {
        0
    } else {
        expansion_sum(m, x, y, (k - 1) as nat) + expansion_term(m, x, y, (k - 1) as nat)
    }
}

proof fn lemma_mul_dist(s: int, t: int, u: int, v: int)
    ensures
        (s + t) * u * v == s * (u * v) + t * (u * v),
{
    assert((s + t) * u * v == s * (u * v) + t * (u * v)) by (nonlinear_arith);
}

proof fn lemma_mul_shuffle1(a: int, u: int, y: int, r: int)
    ensures
        y * (a * u * r) == a * (u * (y * r)),
{
    assert(y * (a * u * r) == a * (u * (y * r))) by (nonlinear_arith);
}

proof fn lemma_mul_shuffle2(x: int, b: int, q: int, v: int)
    ensures
        x * (b * q * v) == b * (x * q * v),
{
    assert(x * (b * q * v) == b * (x * q * v)) by (nonlinear_arith);
}

proof fn lemma_pascal_product(a: int, b: int, x: int, y: int, q: int, r: int)
    ensures
        (b + a) * (x * q) * (y * r) == y * (a * (x * q) * r) + x * (b * q * (y * r)),
{
    lemma_mul_dist(b, a, x * q, y * r);
    lemma_mul_shuffle1(a, x * q, y, r);
    lemma_mul_shuffle2(x, b, q, y * r);
    assert(b * (x * q * (y * r)) == b * ((x * q) * (y * r)));
}

proof fn lemma_expansion_term_step(m: nat, x: int, y: int, i: nat)
    ensures
        expansion_term(m + 1, x, y, i) == y * expansion_term(m, x, y, i) + x * (
        if i == 0 {
            0
        } else {
            expansion_term(m, x, y, (i - 1) as nat)
        }),
{
    reveal_with_fuel(pow, 2);
    reveal_with_fuel(binom, 2);
    if i == 0 {
        assert(binom(m + 1, 0) == 1);
        assert(binom(m, 0) == 1);
        assert(pow(y, m + 1) == y * pow(y, m));
        assert(expansion_term(m + 1, x, y, 0) == 1 * pow(x, 0) * pow(y, m + 1));
        assert(y * expansion_term(m, x, y, 0) == y * (1 * pow(x, 0) * pow(y, m)));
        assert(1 * pow(x, 0) * pow(y, m + 1) == y * (1 * pow(x, 0) * pow(y, m)))
            by (nonlinear_arith)
            requires
                pow(y, m + 1) == y * pow(y, m),
                pow(x, 0) == 1,
        ;
        assert(expansion_term(m + 1, x, y, 0) == y * expansion_term(m, x, y, 0) + x * 0);
    } else if i <= m {
        let im1 = (i - 1) as nat;
        let a: int = binom(m, i as int) as int;
        let b: int = binom(m, i - 1) as int;
        let p_xi = pow(x, i);
        let p_xim1 = pow(x, im1);
        let p_ymi = pow(y, (m - i) as nat);
        assert(binom(m + 1, i as int) == b + a);
        assert(pow(y, (m + 1 - i) as nat) == y * p_ymi);
        assert(pow(y, (m - im1) as nat) == y * p_ymi);
        assert(p_xi == x * p_xim1);
        assert(expansion_term(m + 1, x, y, i) == (b + a) * p_xi * pow(y, (m + 1 - i) as nat));
        assert(expansion_term(m + 1, x, y, i) == (b + a) * (x * p_xim1) * (y * p_ymi));
        assert(expansion_term(m, x, y, i) == a * p_xi * p_ymi);
        assert(expansion_term(m, x, y, i) == a * (x * p_xim1) * p_ymi);
        assert(expansion_term(m, x, y, im1) == b * p_xim1 * pow(y, (m - im1) as nat));
        assert(expansion_term(m, x, y, im1) == b * p_xim1 * (y * p_ymi));
        lemma_pascal_product(a, b, x, y, p_xim1, p_ymi);
        assert(expansion_term(m + 1, x, y, i) == y * expansion_term(m, x, y, i) + x
            * expansion_term(m, x, y, im1));
    } else if i == m + 1 {
        lemma_binom_full(m + 1);
        lemma_binom_full(m);
        assert(pow(y, 0nat) == 1);
        assert(pow(x, m + 1) == x * pow(x, m));
        assert(expansion_term(m + 1, x, y, i) == 1 * pow(x, m + 1) * 1);
        assert(expansion_term(m, x, y, m) == 1 * pow(x, m) * 1);
        assert(1 * (x * pow(x, m)) * 1 == x * (1 * pow(x, m) * 1)) by (nonlinear_arith);
        assert(expansion_term(m, x, y, i) == 0);
        assert(expansion_term(m + 1, x, y, i) == y * expansion_term(m, x, y, i) + x
            * expansion_term(m, x, y, (i - 1) as nat));
    } else {
        assert(expansion_term(m + 1, x, y, i) == 0);
        assert(expansion_term(m, x, y, i) == 0);
        assert(expansion_term(m, x, y, (i - 1) as nat) == 0);
    }
}

proof fn lemma_expansion_sum_step(m: nat, x: int, y: int, k: nat)
    ensures
        expansion_sum(m + 1, x, y, k) == y * expansion_sum(m, x, y, k) + x * (
        if k == 0 {
            0
        } else {
            expansion_sum(m, x, y, (k - 1) as nat)
        }),
    decreases k,
{
    reveal_with_fuel(expansion_sum, 2);
    if k > 0 {
        let km1 = (k - 1) as nat;
        lemma_expansion_sum_step(m, x, y, km1);
        lemma_expansion_term_step(m, x, y, km1);
        let b1 = expansion_sum(m, x, y, km1);
        let t1 = expansion_term(m, x, y, km1);
        let c1: int = if km1 == 0 {
            0
        } else {
            expansion_sum(m, x, y, (km1 - 1) as nat)
        };
        let tc: int = if km1 == 0 {
            0
        } else {
            expansion_term(m, x, y, (km1 - 1) as nat)
        };
        assert(expansion_sum(m + 1, x, y, k) == (y * b1 + x * c1) + (y * t1 + x * tc));
        assert(expansion_sum(m, x, y, k) == b1 + t1);
        assert(expansion_sum(m, x, y, km1) == c1 + tc);
        assert((y * b1 + x * c1) + (y * t1 + x * tc) == y * (b1 + t1) + x * (c1 + tc))
            by (nonlinear_arith);
    }
}

/// The binomial theorem: the expansion terms of `(x + y)^m` summed over all
/// indices `0..=m` give exactly `(x + y)^m`.
pub proof fn lemma_binomial_theorem(m: nat, x: int, y: int)
    ensures
        expansion_sum(m, x, y, m + 1) == pow(x + y, m),
    decreases m,
{
    reveal_with_fuel(expansion_sum, 2);
    reveal_with_fuel(pow, 2);
    if m == 0 {
        assert(binom(0, 0) == 1);
        assert(expansion_sum(0, x, y, 1) == expansion_term(0, x, y, 0));
        assert(expansion_term(0, x, y, 0) == 1 * pow(x, 0) * pow(y, 0));
    } else {
        let mm1 = (m - 1) as nat;
        lemma_binomial_theorem(mm1, x, y);
        lemma_expansion_sum_step(mm1, x, y, m + 1);
        let p = pow(x + y, mm1);
        assert(expansion_sum(mm1, x, y, m + 1) == expansion_sum(mm1, x, y, m) + expansion_term(
            mm1,
            x,
            y,
            m,
        ));
        assert(expansion_term(mm1, x, y, m) == 0);
        assert(expansion_sum(mm1, x, y, m) == p);
        assert(expansion_sum(m, x, y, m + 1) == y * p + x * p);
        assert(y * p + x * p == (x + y) * p) by (nonlinear_arith);
        assert(pow(x + y, m) == (x + y) * p);
    }
}

/// A power of a non-negative base is non-negative.
pub proof fn lemma_pow_nonneg(c: int, e: nat)
    requires
        0 <= c,
    ensures
        0 <= pow(c, e),
    decreases e,
{
    reveal_with_fuel(pow, 2);
    if e > 0 {
        let em1 = (e - 1) as nat;
        lemma_pow_nonneg(c, em1);
        assert(0 <= c * pow(c, em1)) by (nonlinear_arith)
            requires
                0 <= c,
                0 <= pow(c, em1),
        ;
    }
}

/// Powers with a common exponent are ordered as their non-negative bases.
pub proof fn lemma_pow_base_mono(c: int, b: int, e: nat)
    requires
        0 <= c <= b,
    ensures
        pow(c, e) <= pow(b, e),
    decreases e,
{
    reveal_with_fuel(pow, 2);
    if e > 0 {
        let em1 = (e - 1) as nat;
        lemma_pow_base_mono(c, b, em1);
        lemma_pow_nonneg(c, em1);
        assert(c * pow(c, em1) <= b * pow(b, em1)) by (nonlinear_arith)
            requires
                0 <= c <= b,
                0 <= pow(c, em1) <= pow(b, em1),
        ;
    }
}


pub proof fn lemma_binom_symmetry(n: nat, r: int)
    requires
        0 <= r <= n,
    ensures
        binom(n, r) == binom(n, n - r),
    decreases n,
{
    reveal_with_fuel(binom, 2);
    if r == 0 {
        lemma_binom_full(n);
    } else if r == n {
        lemma_binom_full(n);
    } else {
        let nm1 = (n - 1) as nat;
        lemma_binom_symmetry(nm1, r - 1);
        lemma_binom_symmetry(nm1, r);
        assert(binom(n, r) == binom(nm1, r - 1) + binom(nm1, r));
        assert(binom(n, n - r) == binom(nm1, n - r - 1) + binom(nm1, n - r));
        assert(nm1 - (r - 1) == n - r);
        assert(nm1 - r == n - r - 1);
    }
}

/// One term of the convolution of two rows of Pascal's triangle:
/// `C(m, i) * C(n, s - i)`.
pub open spec fn convolution_term(m: nat, n: nat, s: int, i: nat) -> nat {
    binom(m, i as int) * binom(n, s - i)
}

/// Sum of the convolution terms with index below `upto`.
pub open spec fn convolution_sum(m: nat, n: nat, s: int, upto: nat) -> nat
    decreases upto,
{
    if upto == 0 {
        0
    } else {
        convolution_sum(m, n, s, (upto - 1) as nat) + convolution_term(m, n, s, (upto - 1) as nat)
    }
}

proof fn lemma_convolution_term_step(m: nat, n: nat, s: int, i: nat)
    ensures
        convolution_term(m + 1, n, s, i) == convolution_term(m, n, s, i) + (
        if i == 0 {
            0
        } else {
            convolution_term(m, n, s - 1, (i - 1) as nat)
        }),
{
    reveal_with_fuel(binom, 2);
    if i == 0 {
        assert(binom(m + 1, 0) == 1);
        assert(binom(m, 0) == 1);
    } else {
        let im1 = (i - 1) as nat;
        let a: int = binom(m, i as int) as int;
        let b: int = binom(m, i - 1) as int;
        let c: int = binom(n, s - i) as int;
        if i <= m + 1 {
            assert(binom(m + 1, i as int) == b + a);
        } else {
            assert(binom(m + 1, i as int) == 0);
            assert(binom(m, i as int) == 0);
            assert(binom(m, i - 1) == 0);
        }
        assert((s - 1) - im1 == s - i);
        assert(convolution_term(m, n, s - 1, im1) == b * c);
        assert((b + a) * c == a * c + b * c) by (nonlinear_arith);
    }
}

proof fn lemma_convolution_sum_step(m: nat, n: nat, s: int, upto: nat)
    ensures
        convolution_sum(m + 1, n, s, upto) == convolution_sum(m, n, s, upto) + (
        if upto == 0 {
            0
        } else {
            convolution_sum(m, n, s - 1, (upto - 1) as nat)
        }),
    decreases upto,
{
    reveal_with_fuel(convolution_sum, 2);
    if upto > 0 {
        let um1 = (upto - 1) as nat;
        lemma_convolution_sum_step(m, n, s, um1);
        lemma_convolution_term_step(m, n, s, um1);
        if um1 > 0 {
            assert(convolution_sum(m, n, s - 1, um1) == convolution_sum(
                m,
                n,
                s - 1,
                (um1 - 1) as nat,
            ) + convolution_term(m, n, s - 1, (um1 - 1) as nat));
        }
    }
}

/// Vandermonde's identity: convolving two rows of Pascal's triangle gives
/// the row of their combined size, `sum_i C(m, i) * C(n, s - i) == C(m + n, s)`.
pub proof fn lemma_vandermonde(m: nat, n: nat, s: int)
    ensures
        convolution_sum(m, n, s, m + 1) == binom(m + n, s),
    decreases m,
{
    reveal_with_fuel(convolution_sum, 3);
    reveal_with_fuel(binom, 2);
    if m == 0 {
        assert(convolution_sum(0, n, s, 1) == convolution_term(0, n, s, 0));
        assert(binom(0, 0) == 1);
        let bn = binom(n, s - 0);
        assert(binom(0, 0) * bn == bn) by (nonlinear_arith)
            requires
                binom(0, 0) == 1,
        ;
        assert(convolution_term(0, n, s, 0) == binom(0, 0) * bn);
        assert(bn == binom(n, s));
    } else {
        let mm1 = (m - 1) as nat;
        lemma_vandermonde(mm1, n, s);
        lemma_vandermonde(mm1, n, s - 1);
        lemma_convolution_sum_step(mm1, n, s, m + 1);
        assert(convolution_sum(mm1, n, s, m + 1) == convolution_sum(mm1, n, s, m)
            + convolution_term(mm1, n, s, m));
        assert(binom(mm1, m as int) == 0);
        assert(binom(mm1, m as int) * binom(n, s - m) == 0) by (nonlinear_arith)
            requires
                binom(mm1, m as int) == 0,
        ;
        assert(convolution_term(mm1, n, s, m) == 0);
        assert(convolution_sum(m, n, s, m + 1) == convolution_sum(mm1, n, s, m + 1)
            + convolution_sum(mm1, n, s - 1, m));
        assert(convolution_sum(mm1, n, s, m + 1) == convolution_sum(mm1, n, s, m)
            + convolution_term(mm1, n, s, m));
        assert(convolution_sum(mm1, n, s, m) == binom((mm1 + n) as nat, s));
        assert(convolution_sum(mm1, n, s - 1, m) == binom((mm1 + n) as nat, s - 1));
        assert((m + n - 1) as nat == (mm1 + n) as nat);
        if s < 0 {
            assert(binom(m + n, s) == 0);
            assert(binom((mm1 + n) as nat, s) == 0);
            assert(binom((mm1 + n) as nat, s - 1) == 0);
        } else if s == 0 {
            assert(binom((mm1 + n) as nat, -1) == 0);
        } else if s <= m + n {
            assert(binom(m + n, s) == binom((m + n - 1) as nat, s - 1) + binom(
                (m + n - 1) as nat,
                s,
            ));
        } else {
            assert(binom(m + n, s) == 0);
            assert(binom((mm1 + n) as nat, s) == 0);
            assert(binom((mm1 + n) as nat, s - 1) == 0);
        }
    }
}

} // verus!

