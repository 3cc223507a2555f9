use vstd::prelude::*;
use vstd::arithmetic::power::pow;
use vstd::arithmetic::power::lemma_pow_positive;
use crate::math::binom;
use crate::math::lemma_binom_pos;
use crate::bignum::int_v;
use crate::bignum::rat_num;
use crate::bignum::rat_den;
use crate::bignum::int_from_u64;
use crate::bignum::int_add;
use crate::bignum::int_mul;
use crate::bignum::int_pow;
use crate::bignum::int_binomial;
use crate::bignum::rational_from_parts;
use crate::analytic::binom_weight;
use crate::analytic::binomial_weight;
use crate::cost_spec;
use crate::cost;

verus! {

/// Number of ways to place `defects` indistinguishable defects into `chunks`
/// chunks so that exactly `non_empty` chunks are occupied, under the weak
/// composition model: choose the occupied chunks, then split the defects
/// into that many positive parts.
pub open spec fn occupancy_ways(chunks: nat, defects: nat, non_empty: nat) -> nat {
    if defects == 0 {
        if non_empty == 0 {
            1
        } else {
            0
        }
    } else {
        binom(chunks, non_empty as int) * binom((defects - 1) as nat, non_empty - 1)
    }
}

/// Total number of ways to place `defects` indistinguishable defects into
/// `chunks` chunks: the weak compositions, `C(defects + chunks - 1, defects)`.
pub open spec fn occupancy_total(chunks: nat, defects: nat) -> nat {
    binom((defects + chunks - 1) as nat, defects as int)
}

/// Exact probability, under the weak composition model, that exactly
/// `non_empty` chunks are occupied when `defects` indistinguishable defects
/// are placed into `chunks` chunks.
pub fn occupancy_probability(defects: u32, chunks: u32, non_empty: u32) -> (r: rug::Rational)
    requires
        1 <= chunks,
        non_empty <= chunks,
        defects <= u32::MAX - chunks,
    ensures
        rat_den(r) > 0,
        rat_num(r) * occupancy_total(chunks as nat, defects as nat) == occupancy_ways(
            chunks as nat,
            defects as nat,
            non_empty as nat,
        ) * rat_den(r),
{
    let total = int_binomial(defects + chunks - 1, defects);
    proof {
        lemma_binom_pos((defects + chunks - 1) as nat, defects as int);
    }
    let num = if defects == 0 {
        if non_empty == 0 {
            int_from_u64(1)
        } else {
            int_from_u64(0)
        }
    } else if non_empty == 0 {
        proof {
            assert(binom((defects - 1) as nat, -1) == 0);
        }
        int_from_u64(0)
    } else {
        let c1 = int_binomial(chunks, non_empty);
        let c2 = int_binomial(defects - 1, non_empty - 1);
        int_mul(&c1, &c2)
    };
    rational_from_parts(&num, &total)
}

/// One term of the defect-conditioned cost sum: the number of placements
/// with exactly `j` occupied chunks times the cost of that occupancy.
pub open spec fn occupancy_cost_term(items: nat, chunks: nat, defects: nat, j: nat) -> int {
    occupancy_ways(chunks, defects, j) * cost_spec(items, chunks, j)
}

/// Sum of the defect-conditioned cost terms with index below `upto`.
pub open spec fn occupancy_cost_sum(items: nat, chunks: nat, defects: nat, upto: nat) -> int
    decreases upto,
{
    if upto == 0 {
        0
    } else {
        occupancy_cost_sum(items, chunks, defects, (upto - 1) as nat) + occupancy_cost_term(
            items,
            chunks,
            defects,
            (upto - 1) as nat,
        )
    }
}

/// Numerator, over the denominator `occupancy_total`, of the expected cost
/// conditioned on a fixed defect count.
fn occupancy_cost_numerator(items: u32, chunks: u32, defects: u32) -> (r: rug::Integer)
    requires
        1 <= chunks <= items,
        items as int % chunks as int == 0,
    ensures
        int_v(r) == occupancy_cost_sum(items as nat, chunks as nat, defects as nat, chunks as nat
            + 1),
{
    let ghost initems = items as nat;
    let ghost inchunks = chunks as nat;
    let ghost indef = defects as nat;
    let mut acc = int_from_u64(0);
    let mut j: u64 = 0;
    while j <= chunks as u64
        invariant
            j <= inchunks + 1,
            inchunks == chunks as nat,
            initems == items as nat,
            indef == defects as nat,
            1 <= inchunks <= initems,
            initems as int % inchunks as int == 0,
            int_v(acc) == occupancy_cost_sum(initems, inchunks, indef, j as nat),
        decreases inchunks + 1 - j,
    {
        let w = if defects == 0 {
            if j == 0 {
                int_from_u64(1)
            } else {
                int_from_u64(0)
            }
        } else if j == 0 {
            proof {
                assert(binom((indef - 1) as nat, -1) == 0);
            }
            int_from_u64(0)
        } else {
            let c1 = int_binomial(chunks, j as u32);
            let c2 = int_binomial(defects - 1, j as u32 - 1);
            int_mul(&c1, &c2)
        };
        let c = cost(items, chunks, j as u32);
        let ci = int_from_u64(c);
        let t = int_mul(&w, &ci);
        proof {
            assert(int_v(t) == occupancy_cost_term(initems, inchunks, indef, j as nat));
            assert(occupancy_cost_sum(initems, inchunks, indef, (j + 1) as nat)
                == occupancy_cost_sum(initems, inchunks, indef, j as nat) + occupancy_cost_term(
                initems,
                inchunks,
                indef,
                j as nat,
            ));
        }
        acc = int_add(&acc, &t);
        j = j + 1;
    }
    acc
}

/// Exact expected operation count conditioned on a fixed number of defects,
/// under the weak composition model of their placement.
pub fn expected_cost_given_defects(items: u32, chunks: u32, defects: u32) -> (r: rug::Rational)
    requires
        1 <= chunks <= items,
        items as int % chunks as int == 0,
        defects <= u32::MAX - chunks,
    ensures
        rat_den(r) > 0,
        rat_num(r) * occupancy_total(chunks as nat, defects as nat) == occupancy_cost_sum(
            items as nat,
            chunks as nat,
            defects as nat,
            chunks as nat + 1,
        ) * rat_den(r),
{
    let num = occupancy_cost_numerator(items, chunks, defects);
    let total = int_binomial(defects + chunks - 1, defects);
    proof {
        lemma_binom_pos((defects + chunks - 1) as nat, defects as int);
    }
    rational_from_parts(&num, &total)
}

/// Accumulated numerator and denominator of the defect-count sweep: the sum
/// over all defect counts below `upto` of the probability of that count
/// times the conditional expected cost, folded as exact fractions without
/// reduction.
pub open spec fn defect_sweep_pair(items: nat, chunks: nat, a: int, b: int, upto: nat) -> (int,
    int)
    decreases upto,
{
    if upto == 0 {
        (0, 1)
    } else {
        let prev = defect_sweep_pair(items, chunks, a, b, (upto - 1) as nat);
        let k = (upto - 1) as nat;
        let tn = binom_weight(items, k, a, b) * occupancy_cost_sum(items, chunks, k, chunks + 1);
        let td = pow(b, items) * occupancy_total(chunks, k);
        (prev.0 * td + tn * prev.1, prev.1 * td)
    }
}

proof fn lemma_defect_sweep_den_pos(items: nat, chunks: nat, a: int, b: int, upto: nat)
    requires
        1 <= b,
        1 <= chunks,
    ensures
        defect_sweep_pair(items, chunks, a, b, upto).1 > 0,
    decreases upto,
{
    if upto > 0 {
        let um1 = (upto - 1) as nat;
        lemma_defect_sweep_den_pos(items, chunks, a, b, um1);
        lemma_pow_positive(b, items);
        lemma_binom_pos((um1 + chunks - 1) as nat, um1 as int);
        let d = defect_sweep_pair(items, chunks, a, b, um1).1;
        let pb = pow(b, items);
        let tot = occupancy_total(chunks, um1) as int;
        assert(d * (pb * tot) > 0) by (nonlinear_arith)
            requires
                d > 0,
                pb > 0,
                tot > 0,
        ;
    }
}

/// The defect-count sweep: the exact expected operation count computed the
/// second way, by integrating the defect-conditioned occupancy expectation
/// over the binomial distribution of the total defect count.
pub fn analytic_expectation_by_defects(items: u32, chunks: u32, p_num: u64, p_den: u64) -> (r:
    rug::Rational)
    requires
        1 <= chunks <= items,
        items as int % chunks as int == 0,
        items <= u32::MAX - chunks,
        p_num <= p_den,
        1 <= p_den,
    ensures
        rat_den(r) > 0,
        rat_num(r) * defect_sweep_pair(
            items as nat,
            chunks as nat,
            p_num as int,
            p_den as int,
            items as nat + 1,
        ).1 == defect_sweep_pair(
            items as nat,
            chunks as nat,
            p_num as int,
            p_den as int,
            items as nat + 1,
        ).0 * rat_den(r),
{
    let ghost ia = p_num as int;
    let ghost ib = p_den as int;
    let ghost initems = items as nat;
    let ghost inchunks = chunks as nat;
    let a = int_from_u64(p_num);
    let b = int_from_u64(p_den);
    let pb = int_pow(&b, items);
    let mut num = int_from_u64(0);
    let mut den = int_from_u64(1);
    let mut k: u64 = 0;
    while k <= items as u64
        invariant
            k <= initems + 1,
            inchunks == chunks as nat,
            initems == items as nat,
            ia == p_num as int,
            ib == p_den as int,
            1 <= inchunks <= initems,
            initems as int % inchunks as int == 0,
            initems <= u32::MAX - inchunks,
            int_v(a) == ia,
            int_v(b) == ib,
            int_v(pb) == pow(ib, initems),
            int_v(num) == defect_sweep_pair(initems, inchunks, ia, ib, k as nat).0,
            int_v(den) == defect_sweep_pair(initems, inchunks, ia, ib, k as nat).1,
        decreases initems + 1 - k,
    {
        let bw = binomial_weight(items, k as u32, &a, &b);
        let inner = occupancy_cost_numerator(items, chunks, k as u32);
        let tot = int_binomial(k as u32 + chunks - 1, k as u32);
        let tn = int_mul(&bw, &inner);
        let td = int_mul(&pb, &tot);
        let num2 = int_add(&int_mul(&num, &td), &int_mul(&tn, &den));
        let den2 = int_mul(&den, &td);
        proof {
            assert(defect_sweep_pair(initems, inchunks, ia, ib, (k + 1) as nat).0 == int_v(num2));
            assert(defect_sweep_pair(initems, inchunks, ia, ib, (k + 1) as nat).1 == int_v(den2));
        }
        num = num2;
        den = den2;
        k = k + 1;
    }
    proof {
        lemma_defect_sweep_den_pos(initems, inchunks, ia, ib, (items + 1) as nat);
    }
    rational_from_parts(&num, &den)
}

spec fn single_chunk_weighted_sum(items: nat, a: int, b: int, upto: nat) -> int
    decreases upto,
{
    if upto == 0 {
        0
    } else {
        let k = (upto - 1) as nat;
        single_chunk_weighted_sum(items, a, b, k) + binom_weight(items, k, a, b) * (
        if k == 0 {
            1int
        } else {
            1 + items as int
        })
    }
}

proof fn lemma_single_chunk_inner_sum(items: nat, k: nat)
    ensures
        occupancy_cost_sum(items, 1, k, 2) == if k == 0 {
            1int
        } else {
            1 + (items / 1) as int
        },
{
    reveal_with_fuel(occupancy_cost_sum, 3);
    reveal_with_fuel(binom, 2);
    assert(cost_spec(items, 1, 0) == 1);
    assert(cost_spec(items, 1, 1) == 1 + 1 * (items / 1));
    if k == 0 {
        assert(occupancy_ways(1, 0, 0) == 1);
        assert(occupancy_ways(1, 0, 1) == 0);
        assert(occupancy_cost_term(items, 1, 0, 0) == 1 * 1);
        assert(occupancy_cost_term(items, 1, 0, 1) == 0 * cost_spec(items, 1, 1));
    } else {
        assert(binom((k - 1) as nat, -1) == 0);
        assert(binom((k - 1) as nat, 0) == 1);
        assert(binom(1, 0) == 1);
        assert(binom(1, 1) == 1);
        assert(occupancy_ways(1, k, 0) == 0);
        assert(occupancy_ways(1, k, 1) == 1);
        assert(occupancy_cost_term(items, 1, k, 0) == 0 * cost_spec(items, 1, 0));
        assert(occupancy_cost_term(items, 1, k, 1) == 1 * (1 + 1 * (items / 1)));
    }
}

proof fn lemma_single_chunk_total(k: nat)
    ensures
        occupancy_total(1, k) == 1,
{
    crate::math::lemma_binom_full(k);
    assert((k + 1 - 1) as nat == k);
}

proof fn lemma_single_chunk_pair_form(items: nat, a: int, b: int, upto: nat)
    requires
        1 <= upto,
        1 <= items,
    ensures
        defect_sweep_pair(items, 1, a, b, upto).0 == single_chunk_weighted_sum(items, a, b, upto)
            * pow(pow(b, items), (upto - 1) as nat),
        defect_sweep_pair(items, 1, a, b, upto).1 == pow(pow(b, items), upto),
    decreases upto,
{
    reveal_with_fuel(pow, 2);
    reveal_with_fuel(single_chunk_weighted_sum, 2);
    reveal_with_fuel(defect_sweep_pair, 2);
    let pb = pow(b, items);
    let k = (upto - 1) as nat;
    lemma_single_chunk_inner_sum(items, k);
    lemma_single_chunk_total(k);
    assert(items / 1 == items);
    let cu: int = if k == 0 {
        1int
    } else {
        1 + items as int
    };
    assert(occupancy_cost_sum(items, 1, k, 2) == cu);
    let bwk = binom_weight(items, k, a, b);
    let tn = bwk * occupancy_cost_sum(items, 1, k, 2);
    let td = pb * (occupancy_total(1, k) as int);
    assert(td == pb * 1);
    if upto == 1 {
        assert(defect_sweep_pair(items, 1, a, b, 0) == (0int, 1int));
        assert(defect_sweep_pair(items, 1, a, b, 1).0 == 0 * td + tn * 1);
        assert(defect_sweep_pair(items, 1, a, b, 1).1 == 1 * td);
        assert(single_chunk_weighted_sum(items, a, b, 1) == bwk * cu);
        assert(pow(pb, 0nat) == 1);
        assert(pow(pb, 1nat) == pb * pow(pb, 0nat));
    } else {
        let um1 = k;
        lemma_single_chunk_pair_form(items, a, b, um1);
        let scs_u = single_chunk_weighted_sum(items, a, b, um1);
        let px = pow(pb, (um1 - 1) as nat);
        let powu = pow(pb, um1);
        let n = defect_sweep_pair(items, 1, a, b, um1).0;
        let d = defect_sweep_pair(items, 1, a, b, um1).1;
        assert(n == scs_u * px);
        assert(d == powu);
        assert(powu == pb * px);
        assert(defect_sweep_pair(items, 1, a, b, upto).0 == n * td + tn * d);
        assert(defect_sweep_pair(items, 1, a, b, upto).1 == d * td);
        assert(n * (pb * 1) == scs_u * powu) by (nonlinear_arith)
            requires
                n == scs_u * px,
                powu == pb * px,
        ;
        assert(tn * d == (bwk * cu) * powu);
        assert((scs_u + bwk * cu) * powu == scs_u * powu + (bwk * cu) * powu) by (nonlinear_arith);
        assert(single_chunk_weighted_sum(items, a, b, upto) == scs_u + bwk * cu);
        assert(d * (pb * 1) == pb * powu) by (nonlinear_arith)
            requires
                d == powu,
        ;
        assert(pow(pb, upto) == pb * pow(pb, (upto - 1) as nat));
    }
}

proof fn lemma_single_chunk_weighted_closed(items: nat, a: int, b: int, upto: nat)
    requires
        1 <= upto,
    ensures
        single_chunk_weighted_sum(items, a, b, upto) == (1 + items) * crate::math::expansion_sum(
            items,
            a,
            b - a,
            upto,
        ) - items * crate::math::expansion_term(items, a, b - a, 0),
    decreases upto,
{
    reveal_with_fuel(single_chunk_weighted_sum, 2);
    reveal_with_fuel(crate::math::expansion_sum, 2);
    let e0 = crate::math::expansion_term(items, a, b - a, 0);
    if upto == 1 {
        assert(crate::math::expansion_sum(items, a, b - a, 1) == e0);
        assert(single_chunk_weighted_sum(items, a, b, 1) == binom_weight(items, 0, a, b) * 1);
        assert((1 + items) * e0 - items * e0 == e0) by (nonlinear_arith);
    } else {
        let um1 = (upto - 1) as nat;
        lemma_single_chunk_weighted_closed(items, a, b, um1);
        let su = crate::math::expansion_sum(items, a, b - a, um1);
        let tu = crate::math::expansion_term(items, a, b - a, um1);
        assert(crate::math::expansion_sum(items, a, b - a, upto) == su + tu);
        assert(single_chunk_weighted_sum(items, a, b, upto) == single_chunk_weighted_sum(
            items,
            a,
            b,
            um1,
        ) + binom_weight(items, um1, a, b) * (1 + items));
        assert((1 + items) * (su + tu) == (1 + items) * su + (1 + items) * tu)
            by (nonlinear_arith);
        assert(tu * (1 + items) == (1 + items) * tu) by (nonlinear_arith);
    }
}

/// Law: for a single chunk holding every item, sweeping the
/// defect-conditioned occupancy expectation over all defect counts yields
/// exactly the same expected cost as the direct per-chunk formulation.
/// Stated with the two exact fractions cross-multiplied.
pub proof fn lemma_formulations_agree_single_chunk(items: nat, a: int, b: int)
    requires
        1 <= items,
    ensures
        defect_sweep_pair(items, 1, a, b, items + 1).0 * pow(b, items)
            == crate::analytic::expected_cost_scaled(items, 1, a, b) * defect_sweep_pair(
            items,
            1,
            a,
            b,
            items + 1,
        ).1,
{
    reveal_with_fuel(pow, 2);
    reveal_with_fuel(binom, 2);
    let pb = pow(b, items);
    let y = pow(b - a, items);
    lemma_single_chunk_pair_form(items, a, b, items + 1);
    lemma_single_chunk_weighted_closed(items, a, b, items + 1);
    crate::analytic::lemma_binomial_mass_one(items, a, b);
    crate::analytic::lemma_single_chunk_expectation(items, a, b);
    let e0 = crate::math::expansion_term(items, a, b - a, 0);
    assert(binom(items, 0) == 1);
    assert(pow(a, 0nat) == 1);
    assert(e0 == 1 * 1 * y);
    let scs = single_chunk_weighted_sum(items, a, b, items + 1);
    assert(scs == (1 + items) * pb - items * (1 * 1 * y));
    let e2 = crate::analytic::expected_cost_scaled(items, 1, a, b);
    assert(e2 == y + (pb - y) * (1 + items));
    assert((1 + items) * pb - items * (1 * 1 * y) == y + (pb - y) * (1 + items))
        by (nonlinear_arith);
    let q = pow(pb, items);
    assert(defect_sweep_pair(items, 1, a, b, items + 1).0 == scs * q);
    assert(defect_sweep_pair(items, 1, a, b, items + 1).1 == pow(pb, items + 1));
    assert(pow(pb, items + 1) == pb * q);
    assert((scs * q) * pb == e2 * (pb * q)) by (nonlinear_arith)
        requires
            scs == e2,
    ;
}


/// Sum of the occupancy placement counts with occupied-chunk count below
/// `upto`.
pub open spec fn occupancy_mass_sum(chunks: nat, defects: nat, upto: nat) -> nat
    decreases upto,
{
    if upto == 0 {
        0
    } else {
        occupancy_mass_sum(chunks, defects, (upto - 1) as nat) + occupancy_ways(
            chunks,
            defects,
            (upto - 1) as nat,
        )
    }
}

proof fn lemma_ways_matches_convolution(chunks: nat, defects: nat, j: nat)
    requires
        1 <= defects,
    ensures
        occupancy_ways(chunks, defects, j) == crate::math::convolution_term(
            chunks,
            (defects - 1) as nat,
            defects as int,
            j,
        ),
{
    reveal_with_fuel(binom, 2);
    let km1 = (defects - 1) as nat;
    let c1 = binom(chunks, j as int);
    if j == 0 {
        assert(binom(km1, -1) == 0);
        assert(binom(km1, defects as int) == 0);
        assert(c1 * binom(km1, -1) == 0) by (nonlinear_arith)
            requires
                binom(km1, -1) == 0,
        ;
        assert(c1 * binom(km1, defects - 0) == 0) by (nonlinear_arith)
            requires
                binom(km1, defects - 0) == 0,
        ;
    } else if j <= defects {
        crate::math::lemma_binom_symmetry(km1, j - 1);
        assert(km1 - (j - 1) == defects - j);
        assert(binom(km1, j - 1) == binom(km1, defects - j));
    } else {
        assert(binom(km1, j - 1) == 0);
        assert(binom(km1, defects - j) == 0);
        assert(c1 * binom(km1, j - 1) == 0) by (nonlinear_arith)
            requires
                binom(km1, j - 1) == 0,
        ;
        assert(c1 * binom(km1, defects - j) == 0) by (nonlinear_arith)
            requires
                binom(km1, defects - j) == 0,
        ;
    }
}

proof fn lemma_mass_matches_convolution(chunks: nat, defects: nat, upto: nat)
    requires
        1 <= defects,
    ensures
        occupancy_mass_sum(chunks, defects, upto) == crate::math::convolution_sum(
            chunks,
            (defects - 1) as nat,
            defects as int,
            upto,
        ),
    decreases upto,
{
    reveal_with_fuel(occupancy_mass_sum, 2);
    reveal_with_fuel(crate::math::convolution_sum, 2);
    if upto > 0 {
        let um1 = (upto - 1) as nat;
        lemma_mass_matches_convolution(chunks, defects, um1);
        lemma_ways_matches_convolution(chunks, defects, um1);
    }
}

proof fn lemma_no_defect_mass(chunks: nat, upto: nat)
    requires
        1 <= upto,
    ensures
        occupancy_mass_sum(chunks, 0, upto) == 1,
    decreases upto,
{
    reveal_with_fuel(occupancy_mass_sum, 2);
    if upto > 1 {
        lemma_no_defect_mass(chunks, (upto - 1) as nat);
    }
}

/// Law: the chunk-occupancy distribution's probability mass summed over all
/// occupied-chunk counts `0..=chunks` is exactly one: the placement counts
/// sum to the total number of placements.
pub proof fn lemma_occupancy_mass_one(chunks: nat, defects: nat)
    requires
        1 <= chunks,
    ensures
        occupancy_mass_sum(chunks, defects, chunks + 1) == occupancy_total(chunks, defects),
{
    reveal_with_fuel(binom, 2);
    if defects == 0 {
        lemma_no_defect_mass(chunks, chunks + 1);
        assert(occupancy_total(chunks, 0) == binom((chunks - 1) as nat, 0));
    } else {
        lemma_mass_matches_convolution(chunks, defects, chunks + 1);
        crate::math::lemma_vandermonde(chunks, (defects - 1) as nat, defects as int);
        assert((chunks + (defects - 1)) as nat == (defects + chunks - 1) as nat);
    }
}

} // verus!
