use vstd::prelude::*;
use crate::bignum::int_v;
use crate::bignum::rat_num;
use crate::bignum::rat_den;
use crate::bignum::int_from_u64;
use crate::bignum::int_add;
use crate::bignum::rational_from_parts;

verus! {

#[verifier::external_type_specification]
#[verifier::external_body]
pub struct ExBernoulli(rand::distributions::Bernoulli);

/// Relies on rand's Bernoulli::from_ratio, which accepts every numerator no
/// larger than the denominator when the denominator is non-zero.
#[verifier::external_body]
fn bernoulli_new(num: u32, den: u32) -> rand::distributions::Bernoulli
    requires
        num <= den,
        1 <= den,
{
    rand::distributions::Bernoulli::from_ratio(num, den).unwrap()
}

/// Relies on Distribution::sample with rand::thread_rng: one independent
/// Bernoulli draw. Nothing is promised of the outcome.
#[verifier::external_body]
fn bernoulli_draw(d: &rand::distributions::Bernoulli) -> bool {
    rand::distributions::Distribution::sample(d, &mut rand::thread_rng())
}

/// One sampled defect pattern: `count` independent Bernoulli draws.
fn draw_outcomes(d: &rand::distributions::Bernoulli, count: usize) -> (r: Vec<bool>)
    ensures
        r@.len() == count,
{
    let mut v: Vec<bool> = Vec::new();
    let mut i: usize = 0;
    while i < count
        invariant
            i <= count,
            v@.len() == i,
        decreases count - i,
    {
        v.push(bernoulli_draw(d));
        i = i + 1;
    }
    v
}

/// Operations charged for one realized defect pattern: the pattern is split
/// into consecutive groups of `chunk_size` (the final group may be short),
/// and a group costs one inspection, plus one operation per item of the
/// group when any of its items is defective.
pub open spec fn sample_cost_spec(s: Seq<bool>, chunk_size: nat) -> int
    decreases s.len(),
{
    if s.len() == 0 || chunk_size == 0 {
        0
    } else {
        let g = if s.len() < chunk_size {
            s.len()
        } else {
            chunk_size
        };
        let charge: int = if exists|i: int| 0 <= i < g && s[i] {
            g + 1int
        } else {
            1
        };
        charge + sample_cost_spec(s.skip(g as int), chunk_size)
    }
}

/// The number of groups a pattern of `len` items is split into.
pub open spec fn group_count(len: nat, chunk_size: nat) -> int {
    ((len + chunk_size - 1) as int) / (chunk_size as int)
}

/// Every realized cost lies between one operation per group and one
/// operation per group plus one per item.
pub proof fn lemma_sample_cost_bounds(s: Seq<bool>, chunk_size: nat)
    requires
        1 <= chunk_size,
    ensures
        group_count(s.len(), chunk_size) <= sample_cost_spec(s, chunk_size),
        sample_cost_spec(s, chunk_size) <= group_count(s.len(), chunk_size) + s.len(),
    decreases s.len(),
{
    reveal_with_fuel(sample_cost_spec, 2);
    if s.len() == 0 {
        assert(group_count(0, chunk_size) == ((chunk_size - 1) as int) / (chunk_size as int));
        assert(((chunk_size - 1) as int) / (chunk_size as int) == 0) by (nonlinear_arith)
            requires
                1 <= chunk_size,
        ;
    } else {
        let g: nat = if s.len() < chunk_size {
            s.len()
        } else {
            chunk_size
        };
        let rest = s.skip(g as int);
        assert(rest.len() == s.len() - g);
        lemma_sample_cost_bounds(rest, chunk_size);
        assert(group_count(rest.len(), chunk_size) + 1 == group_count(s.len(), chunk_size))
            by (nonlinear_arith)
            requires
                1 <= chunk_size,
                1 <= g <= chunk_size,
                rest.len() == s.len() - g,
                s.len() >= 1,
                g == (if s.len() < chunk_size {
                    s.len()
                } else {
                    chunk_size
                }),
        ;
    }
}

/// Realized operation count of one sampled defect pattern, split into
/// consecutive chunks of `chunk_size` items.
pub fn sample_cost(outcomes: &Vec<bool>, chunk_size: usize) -> (r: u64)
    requires
        1 <= chunk_size,
        outcomes@.len() <= u32::MAX,
    ensures
        r == sample_cost_spec(outcomes@, chunk_size as nat),
{
    let ghost s = outcomes@;
    let n = outcomes.len();
    let mut total: u64 = 0;
    let mut start: usize = 0;
    proof {
        assert(s.skip(0) =~= s);
    }
    while start < n
        invariant
            1 <= chunk_size,
            s == outcomes@,
            n == s.len() <= u32::MAX,
            start <= n,
            total == sample_cost_spec(s, chunk_size as nat) - sample_cost_spec(
                s.skip(start as int),
                chunk_size as nat,
            ),
            total <= 2 * start,
        decreases n - start,
    {
        let end = if n - start < chunk_size {
            n
        } else {
            start + chunk_size
        };
        let mut found = false;
        let mut i = start;
        while i < end
            invariant
                start <= i <= end <= n,
                s == outcomes@,
                n == s.len(),
                found == exists|q: int| start <= q < i && s[q],
            decreases end - i,
        {
            if outcomes[i] {
                found = true;
            }
            i = i + 1;
        }
        let g = end - start;
        let charge: u64 = if found {
            g as u64 + 1
        } else {
            1
        };
        proof {
            reveal_with_fuel(sample_cost_spec, 2);
            let rest = s.skip(start as int);
            assert(rest.len() == n - start);
            assert(forall|q: int| 0 <= q < g ==> rest[q] == s[start + q]);
            assert((exists|q: int| 0 <= q < g && rest[q]) ==> (exists|q: int|
                start <= q < end && s[q])) by {
                if exists|q: int| 0 <= q < g && rest[q] {
                    let q = choose|q: int| 0 <= q < g && rest[q];
                    assert(s[start + q]);
                }
            };
            assert((exists|q: int| start <= q < end && s[q]) ==> (exists|q: int|
                0 <= q < g && rest[q])) by {
                if exists|q: int| start <= q < end && s[q] {
                    let q = choose|q: int| start <= q < end && s[q];
                    assert(rest[q - start]);
                }
            };
            assert(rest.skip(g as int) =~= s.skip(end as int));
            assert(sample_cost_spec(rest, chunk_size as nat) == charge + sample_cost_spec(
                s.skip(end as int),
                chunk_size as nat,
            ));
        }
        total = total + charge;
        start = end;
    }
    proof {
        assert(s.skip(n as int) =~= Seq::<bool>::empty());
        assert(sample_cost_spec(s.skip(n as int), chunk_size as nat) == 0);
    }
    total
}

/// Empirical estimate of the expected operation count: `samples` independent
/// defect patterns of `items` items are drawn with per-item probability
/// `p_num / p_den`, each realized cost is charged exactly, the costs are
/// summed as exact integers, and the sum is divided by the sample count.
/// Each realized cost lies between the group count and the group count plus
/// the item count, so the estimate does too, whatever was drawn.
pub fn monte_carlo_expectation(
    items: u32,
    p_num: u32,
    p_den: u32,
    chunk_size: usize,
    samples: usize,
) -> (r: rug::Rational)
    requires
        1 <= items,
        p_num <= p_den,
        1 <= p_den,
        1 <= chunk_size <= items,
        1 <= samples,
    ensures
        rat_den(r) > 0,
        group_count(items as nat, chunk_size as nat) * rat_den(r) <= rat_num(r),
        rat_num(r) <= (group_count(items as nat, chunk_size as nat) + items) * rat_den(r),
{
    let ghost gc = group_count(items as nat, chunk_size as nat);
    let d = bernoulli_new(p_num, p_den);
    let mut sum = int_from_u64(0);
    let mut done: usize = 0;
    proof {
        assert(gc * 0 == 0) by (nonlinear_arith);
    }
    while done < samples
        invariant
            1 <= items,
            1 <= chunk_size <= items,
            gc == group_count(items as nat, chunk_size as nat),
            done <= samples,
            gc * done <= int_v(sum) <= (gc + items) * done,
        decreases samples - done,
    {
        let outcomes = draw_outcomes(&d, items as usize);
        let c = sample_cost(&outcomes, chunk_size);
        proof {
            lemma_sample_cost_bounds(outcomes@, chunk_size as nat);
            assert(gc * (done + 1) == gc * done + gc) by (nonlinear_arith);
            assert((gc + items) * (done + 1) == (gc + items) * done + (gc + items))
                by (nonlinear_arith);
        }
        let ci = int_from_u64(c);
        sum = int_add(&sum, &ci);
        done = done + 1;
    }
    let sc = int_from_u64(samples as u64);
    let r = rational_from_parts(&sum, &sc);
    proof {
        assert(gc * rat_den(r) <= rat_num(r) && rat_num(r) <= (gc + items) * rat_den(r))
            by (nonlinear_arith)
            requires
                rat_den(r) > 0,
                samples >= 1,
                rat_num(r) * (samples as int) == int_v(sum) * rat_den(r),
                gc * (samples as int) <= int_v(sum) <= (gc + items) * (samples as int),
        ;
    }
    r
}

} // verus!
