use vstd::prelude::*;
use vstd::arithmetic::power::pow;
use vstd::arithmetic::power::lemma_pow_positive;
use vstd::arithmetic::power::lemma_pow_adds;
use vstd::arithmetic::power::lemma_pow_multiplies;
use vstd::arithmetic::div_mod::lemma_fundamental_div_mod;
use crate::math::binom;
use crate::math::expansion_term;
use crate::math::expansion_sum;
use crate::math::lemma_binomial_theorem;
use crate::bignum::int_v;
use crate::bignum::rat_num;
use crate::bignum::rat_den;
use crate::bignum::int_from_u64;
use crate::bignum::int_add;
use crate::bignum::int_sub;
use crate::bignum::int_mul;
use crate::bignum::int_pow;
use crate::bignum::int_binomial;
use crate::bignum::rational_from_parts;
use crate::cost_spec;
use crate::cost;

verus! {

/// Numerator of the probability `C(m, k) * p^k * (1-p)^(m-k)` of seeing
/// exactly `k` defects among `m` independent items, over the common
/// denominator `b^m`, for a per-item defect probability `p = a / b`.
pub open spec fn binom_weight(m: nat, k: nat, a: int, b: int) -> int {
    expansion_term(m, a, b - a, k)
}

/// Numerator of the probability `1 - (1-p)^size` that a chunk of `size`
/// independent items contains at least one defect, over the common
/// denominator `b^size`, for `p = a / b`.
pub open spec fn nonempty_weight(size: nat, a: int, b: int) -> int {
    pow(b, size) - pow(b - a, size)
}

/// One term of the expectation sum: the probability of exactly `j` non-empty
/// chunks (scaled by `b^items`) times the operation cost of that occupancy.
pub open spec fn expectation_term(items: nat, chunks: nat, a: int, b: int, j: nat) -> int {
    let size = items / chunks;
    expansion_term(chunks, nonempty_weight(size, a, b), pow(b - a, size), j) * cost_spec(
        items,
        chunks,
        j,
    )
}

/// Sum of the expectation terms with index below `upto`.
pub open spec fn expectation_sum(items: nat, chunks: nat, a: int, b: int, upto: nat) -> int
    decreases upto,
{
    if upto == 0 {
        0
    } else {
        expectation_sum(items, chunks, a, b, (upto - 1) as nat) + expectation_term(
            items,
            chunks,
            a,
            b,
            (upto - 1) as nat,
        )
    }
}

/// The exact expected operation count of the scan, summed over every
/// occupancy state `0..=chunks` and scaled by the common denominator
/// `b^items`, for a per-item defect probability `p = a / b`.
pub open spec fn expected_cost_scaled(items: nat, chunks: nat, a: int, b: int) -> int {
    expectation_sum(items, chunks, a, b, chunks + 1)
}

/// Numerator of `C(m, k) * p^k * (1-p)^(m-k)` over the denominator `den^m`,
/// where `p` is the quotient of the two arbitrary-precision arguments.
pub fn binomial_weight(m: u32, k: u32, num: &rug::Integer, den: &rug::Integer) -> (r:
    rug::Integer)
    requires
        k <= m,
    ensures
        int_v(r) == expansion_term(m as nat, int_v(*num), int_v(*den) - int_v(*num), k as nat),
{
    let w = int_binomial(m, k);
    let pk = int_pow(num, k);
    let qm = int_sub(den, num);
    let qk = int_pow(&qm, m - k);
    let wp = int_mul(&w, &pk);
    int_mul(&wp, &qk)
}

/// Exact probability of observing exactly `successes` defects among `trials`
/// independent items when each is defective with probability
/// `p_num / p_den`.
pub fn binomial_probability(trials: u32, successes: u32, p_num: u64, p_den: u64) -> (r:
    rug::Rational)
    requires
        successes <= trials,
        p_num <= p_den,
        1 <= p_den,
    ensures
        rat_den(r) > 0,
        rat_num(r) * pow(p_den as int, trials as nat) == binom_weight(
            trials as nat,
            successes as nat,
            p_num as int,
            p_den as int,
        ) * rat_den(r),
{
    let a = int_from_u64(p_num);
    let b = int_from_u64(p_den);
    let w = binomial_weight(trials, successes, &a, &b);
    let d = int_pow(&b, trials);
    proof {
        lemma_pow_positive(p_den as int, trials as nat);
    }
    rational_from_parts(&w, &d)
}

/// Exact probability that a chunk of `chunk_size` independent items contains
/// at least one defect, when each is defective with probability
/// `p_num / p_den`.
pub fn nonempty_chunk_probability(p_num: u64, p_den: u64, chunk_size: u32) -> (r: rug::Rational)
    requires
        p_num <= p_den,
        1 <= p_den,
    ensures
        rat_den(r) > 0,
        rat_num(r) * pow(p_den as int, chunk_size as nat) == nonempty_weight(
            chunk_size as nat,
            p_num as int,
            p_den as int,
        ) * rat_den(r),
{
    let a = int_from_u64(p_num);
    let b = int_from_u64(p_den);
    let bs = int_pow(&b, chunk_size);
    let bma = int_sub(&b, &a);
    let bmas = int_pow(&bma, chunk_size);
    let w = int_sub(&bs, &bmas);
    proof {
        lemma_pow_positive(p_den as int, chunk_size as nat);
    }
    rational_from_parts(&w, &bs)
}

/// Exact expected operation count of the two-phase scan of `items` items in
/// `chunks` equal chunks, each item independently defective with probability
/// `p_num / p_den`: the sum over every occupancy state of its probability
/// times its cost, as an exact rational.
pub fn analytic_expectation(items: u32, chunks: u32, p_num: u64, p_den: u64) -> (r: rug::Rational)
    requires
        1 <= chunks <= items,
        items as int % chunks as int == 0,
        p_num <= p_den,
        1 <= p_den,
    ensures
        rat_den(r) > 0,
        rat_num(r) * pow(p_den as int, items as nat) == expected_cost_scaled(
            items as nat,
            chunks as nat,
            p_num as int,
            p_den as int,
        ) * rat_den(r),
{
    let ghost ia = p_num as int;
    let ghost ib = p_den as int;
    let ghost initems = items as nat;
    let ghost inchunks = chunks as nat;
    let size = items / chunks;
    let a = int_from_u64(p_num);
    let b = int_from_u64(p_den);
    let bs = int_pow(&b, size);
    let bma = int_sub(&b, &a);
    let bmas = int_pow(&bma, size);
    let aq = int_sub(&bs, &bmas);
    let mut acc = int_from_u64(0);
    let mut j: u64 = 0;
    assert(size as nat == initems / inchunks);
    while j <= chunks as u64
        invariant
            j <= inchunks + 1,
            inchunks == chunks as nat,
            initems == items as nat,
            ia == p_num as int,
            ib == p_den as int,
            size as nat == initems / inchunks,
            1 <= inchunks <= initems,
            initems as int % inchunks as int == 0,
            int_v(aq) == nonempty_weight(size as nat, ia, ib),
            int_v(bs) == pow(ib, size as nat),
            int_v(bs) - int_v(aq) == pow(ib - ia, size as nat),
            int_v(acc) == expectation_sum(initems, inchunks, ia, ib, j as nat),
        decreases inchunks + 1 - j,
    {
        let w = binomial_weight(chunks, j as u32, &aq, &bs);
        let c = cost(items, chunks, j as u32);
        let ci = int_from_u64(c);
        let t = int_mul(&w, &ci);
        let acc2 = int_add(&acc, &t);
        proof {
            assert(int_v(t) == expectation_term(initems, inchunks, ia, ib, j as nat));
            assert(expectation_sum(initems, inchunks, ia, ib, (j + 1) as nat) == expectation_sum(
                initems,
                inchunks,
                ia,
                ib,
                j as nat,
            ) + expectation_term(initems, inchunks, ia, ib, j as nat));
        }
        acc = acc2;
        j = j + 1;
    }
    let denom = int_pow(&b, items);
    proof {
        lemma_pow_positive(ib, initems);
        assert(expectation_sum(initems, inchunks, ia, ib, j as nat) == expected_cost_scaled(
            initems,
            inchunks,
            ia,
            ib,
        ));
    }
    rational_from_parts(&acc, &denom)
}

/// Law: the binomial distribution's probability mass summed over all success
/// counts `0..=m` is exactly one. Scaled by the common denominator `b^m`
/// for a per-item probability `a / b`, the weights sum to exactly `b^m`.
pub proof fn lemma_binomial_mass_one(m: nat, a: int, b: int)
    ensures
        expansion_sum(m, a, b - a, m + 1) == pow(b, m),
{
    lemma_binomial_theorem(m, a, b - a);
    assert(a + (b - a) == b);
}

proof fn lemma_defect_free_tail(items: nat, chunks: nat, b: int, upto: nat)
    requires
        1 <= upto,
    ensures
        expectation_sum(items, chunks, 0, b, upto) == expectation_sum(items, chunks, 0, b, 1),
    decreases upto,
{
    reveal_with_fuel(expectation_sum, 2);
    if upto > 1 {
        let um1 = (upto - 1) as nat;
        lemma_defect_free_tail(items, chunks, b, um1);
        let size = items / chunks;
        assert(nonempty_weight(size, 0, b) == 0);
        if um1 <= chunks {
            vstd::arithmetic::power::lemma0_pow(um1);
            assert(pow(0, um1) == 0);
            assert(expansion_term(chunks, 0, pow(b, size), um1) == binom(chunks, um1 as int) * pow(
                0,
                um1,
            ) * pow(pow(b, size), (chunks - um1) as nat));
            assert(expectation_term(items, chunks, 0, b, um1) == 0);
        } else {
            assert(expansion_term(chunks, 0, pow(b, size), um1) == 0);
            assert(expectation_term(items, chunks, 0, b, um1) == 0);
        }
    }
}

/// Law: with defect probability zero every chunk is clean, so the expected
/// operation count is exactly the chunk count: one inspection per chunk and
/// nothing more. Scaled by the common denominator `b^items`.
pub proof fn lemma_defect_free_expectation(items: nat, chunks: nat, b: int)
    requires
        1 <= chunks <= items,
        items as int % chunks as int == 0,
    ensures
        expected_cost_scaled(items, chunks, 0, b) == chunks * pow(b, items),
{
    reveal_with_fuel(expectation_sum, 2);
    let size = items / chunks;
    lemma_fundamental_div_mod(items as int, chunks as int);
    assert(items as int == chunks * size);
    lemma_pow_multiplies(b, size, chunks);
    assert(size * chunks == chunks * size) by (nonlinear_arith);
    assert(pow(pow(b, size), chunks) == pow(b, items));
    lemma_defect_free_tail(items, chunks, b, chunks + 1);
    assert(nonempty_weight(size, 0, b) == 0);
    assert(expansion_term(chunks, 0, pow(b, size), 0) == binom(chunks, 0) * pow(0, 0nat) * pow(
        pow(b, size),
        chunks,
    ));
    assert(expectation_sum(items, chunks, 0, b, 1) == expansion_term(chunks, 0, pow(b, size), 0)
        * cost_spec(items, chunks, 0));
    assert(cost_spec(items, chunks, 0) == chunks);
    assert(binom(chunks, 0) == 1);
    vstd::arithmetic::power::lemma_pow0(0);
    assert(pow(0, 0nat) == 1);
    assert(expectation_term(items, chunks, 0, b, 0) == 1 * 1 * pow(b, items) * chunks);
    assert(expected_cost_scaled(items, chunks, 0, b) == expectation_term(items, chunks, 0, b, 0));
    assert(1 * 1 * pow(b, items) * chunks == chunks * pow(b, items)) by (nonlinear_arith);
}

proof fn lemma_certain_defect_tail(items: nat, chunks: nat, b: int, upto: nat)
    requires
        upto <= chunks,
        1 <= items / chunks,
    ensures
        expectation_sum(items, chunks, b, b, upto) == 0,
    decreases upto,
{
    reveal_with_fuel(expectation_sum, 2);
    if upto > 0 {
        let um1 = (upto - 1) as nat;
        lemma_certain_defect_tail(items, chunks, b, um1);
        let size = items / chunks;
        vstd::arithmetic::power::lemma0_pow((chunks - um1) as nat);
        assert(pow(b - b, size) == pow(0, size));
        vstd::arithmetic::power::lemma0_pow(size);
        assert(expansion_term(chunks, nonempty_weight(size, b, b), 0, um1) == binom(
            chunks,
            um1 as int,
        ) * pow(nonempty_weight(size, b, b), um1) * pow(0, (chunks - um1) as nat));
        assert(expectation_term(items, chunks, b, b, um1) == 0);
    }
}

/// Law: with defect probability one every chunk is dirty, so the expected
/// operation count is exactly the chunk count plus the item count: one
/// inspection per chunk and one full per-item pass over everything. Scaled
/// by the common denominator `b^items`.
pub proof fn lemma_certain_defect_expectation(items: nat, chunks: nat, b: int)
    requires
        1 <= chunks <= items,
        items as int % chunks as int == 0,
    ensures
        expected_cost_scaled(items, chunks, b, b) == (chunks + items) * pow(b, items),
{
    reveal_with_fuel(expectation_sum, 2);
    let size = items / chunks;
    lemma_fundamental_div_mod(items as int, chunks as int);
    assert(items as int == chunks * size);
    if size == 0 {
        assert(chunks * size == 0) by (nonlinear_arith)
            requires
                size == 0,
        ;
        assert(false);
    }
    lemma_certain_defect_tail(items, chunks, b, chunks);
    vstd::arithmetic::power::lemma0_pow(size);
    assert(nonempty_weight(size, b, b) == pow(b, size));
    crate::math::lemma_binom_full(chunks);
    lemma_pow_multiplies(b, size, chunks);
    assert(size * chunks == chunks * size) by (nonlinear_arith);
    assert(pow(pow(b, size), chunks) == pow(b, items));
    assert(expansion_term(chunks, pow(b, size), 0, chunks) == binom(chunks, chunks as int) * pow(
        pow(b, size),
        chunks,
    ) * pow(0, 0nat));
    assert(expectation_sum(items, chunks, b, b, chunks + 1) == expectation_term(
        items,
        chunks,
        b,
        b,
        chunks,
    ));
    assert(cost_spec(items, chunks, chunks) == chunks + chunks * size);
    vstd::arithmetic::power::lemma_pow0(0);
    assert(pow(0, 0nat) == 1);
    assert(expectation_term(items, chunks, b, b, chunks) == 1 * pow(b, items) * 1 * (chunks + chunks
        * size));
    assert(1 * pow(b, items) * 1 * (chunks + chunks * size) == (chunks + items) * pow(b, items))
        by (nonlinear_arith)
        requires
            items as int == chunks * size,
    ;
}

/// Law: for a fixed defect probability, the probability that a chunk is
/// non-empty never decreases as the chunk size grows. Stated over the scaled
/// weights with the denominators cross-multiplied.
pub proof fn lemma_nonempty_probability_monotone(a: int, b: int, s1: nat, s2: nat)
    requires
        0 <= a <= b,
        1 <= b,
        s1 <= s2,
    ensures
        nonempty_weight(s1, a, b) * pow(b, s2) <= nonempty_weight(s2, a, b) * pow(b, s1),
{
    let d = (s2 - s1) as nat;
    let l = pow(b, s1);
    let la = pow(b - a, s1);
    let r = pow(b, s2);
    let ra = pow(b - a, s2);
    let pd = pow(b, d);
    let pda = pow(b - a, d);
    lemma_pow_adds(b, s1, d);
    lemma_pow_adds(b - a, s1, d);
    assert(r == l * pd);
    assert(ra == la * pda);
    crate::math::lemma_pow_nonneg(b - a, s1);
    crate::math::lemma_pow_nonneg(b, s1);
    crate::math::lemma_pow_nonneg(b - a, d);
    crate::math::lemma_pow_base_mono(b - a, b, d);
    assert(la * pda * l <= la * (l * pd)) by (nonlinear_arith)
        requires
            0 <= la,
            0 <= l,
            0 <= pda <= pd,
    ;
    assert(ra * l == la * pda * l) by (nonlinear_arith)
        requires
            ra == la * pda,
    ;
    assert((l - la) * r == l * r - la * r) by (nonlinear_arith);
    assert((r - ra) * l == r * l - ra * l) by (nonlinear_arith);
    assert(la * r == la * (l * pd)) by (nonlinear_arith)
        requires
            r == l * pd,
    ;
    assert(l * r == r * l) by (nonlinear_arith);
}

/// Law: with a single chunk holding all the items, the expectation reduces
/// to its closed form: the chunk is clean with probability `(1-p)^items`
/// and costs one inspection, and otherwise costs one inspection plus a full
/// per-item pass. Scaled by the common denominator `b^items`; at `p = 0`
/// this is exactly one operation, at `p = 1` exactly `1 + items`.
pub proof fn lemma_single_chunk_expectation(items: nat, a: int, b: int)
    requires
        1 <= items,
    ensures
        expected_cost_scaled(items, 1, a, b) == pow(b - a, items) + nonempty_weight(
            items,
            a,
            b,
        ) * (1 + items),
{
    reveal_with_fuel(expectation_sum, 3);
    reveal_with_fuel(binom, 3);
    reveal_with_fuel(pow, 2);
    let size = (items as int / 1int) as nat;
    assert(size == items);
    let w = nonempty_weight(items, a, b);
    let y = pow(b - a, items);
    assert(binom(1, 0) == 1);
    assert(binom(1, 1) == 1);
    assert(pow(w, 0nat) == 1);
    assert(pow(y, 0nat) == 1);
    assert(pow(w, 1nat) == w * pow(w, 0nat));
    assert(pow(y, 1nat) == y * pow(y, 0nat));
    assert(cost_spec(items, 1, 0) == 1);
    assert(cost_spec(items, 1, 1) == 1 + 1 * (items / 1));
    assert(expectation_term(items, 1, a, b, 0) == (1 * 1 * (y * 1)) * 1);
    assert(expectation_term(items, 1, a, b, 1) == (1 * (w * 1) * 1) * (1 + 1 * (items / 1)));
    assert(expected_cost_scaled(items, 1, a, b) == expectation_term(items, 1, a, b, 0)
        + expectation_term(items, 1, a, b, 1));
    assert((1 * (w * 1) * 1) * (1 + 1 * (items / 1)) == w * (1 + items)) by (nonlinear_arith)
        requires
            items / 1 == items,
    ;
}

} // verus!

