use rug::ops::Pow;
use rug::Rational;
use scancost::analytic::analytic_expectation;
use scancost::analytic::binomial_probability;
use scancost::analytic::nonempty_chunk_probability;
use scancost::cost;

fn rat(n: u64, d: u64) -> Rational {
    Rational::from((n, d))
}

#[test]
fn cost_of_clean_scan_is_one_per_chunk() {
    assert_eq!(cost(12, 3, 0), 3);
    assert_eq!(cost(100, 10, 0), 10);
    assert_eq!(cost(7, 7, 0), 7);
}

#[test]
fn cost_of_fully_dirty_scan_adds_every_item() {
    assert_eq!(cost(12, 3, 3), 15);
    assert_eq!(cost(100, 10, 10), 110);
    assert_eq!(cost(12, 1, 1), 13);
}

#[test]
fn cost_charges_chunk_size_per_dirty_chunk() {
    assert_eq!(cost(12, 3, 2), 3 + 2 * 4);
    assert_eq!(cost(100, 10, 4), 10 + 4 * 10);
}

#[test]
fn binomial_probability_of_one_success_in_two_fair_trials() {
    assert_eq!(binomial_probability(2, 1, 1, 2), rat(1, 2));
}

#[test]
fn binomial_probability_of_no_successes() {
    assert_eq!(binomial_probability(4, 0, 1, 4), rat(81, 256));
}

#[test]
fn binomial_probability_mass_sums_to_one() {
    let mut total = Rational::new();
    for k in 0..=5 {
        total += binomial_probability(5, k, 2, 7);
    }
    assert_eq!(total, rat(1, 1));
}

#[test]
fn nonempty_chunk_probability_two_fair_items() {
    assert_eq!(nonempty_chunk_probability(1, 2, 2), rat(3, 4));
}

#[test]
fn nonempty_chunk_probability_boundaries() {
    assert_eq!(nonempty_chunk_probability(0, 5, 9), rat(0, 1));
    assert_eq!(nonempty_chunk_probability(5, 5, 9), rat(1, 1));
}

#[test]
fn analytic_expectation_baseline_twelve_items_three_chunks() {
    // items = 12, chunks = 3 (chunk size 4), p = 1/12: one expected defect.
    assert_eq!(analytic_expectation(12, 3, 1, 12), rat(11279, 1728));
}

#[test]
fn analytic_expectation_defect_free_is_chunk_count() {
    assert_eq!(analytic_expectation(12, 3, 0, 12), rat(3, 1));
    assert_eq!(analytic_expectation(100, 10, 0, 100), rat(10, 1));
}

#[test]
fn analytic_expectation_certain_defects_scans_everything() {
    assert_eq!(analytic_expectation(12, 3, 12, 12), rat(15, 1));
    assert_eq!(analytic_expectation(100, 10, 100, 100), rat(110, 1));
}

#[test]
fn analytic_expectation_single_chunk_closed_form() {
    // One chunk of all items: 1 + items * (1 - (1-p)^items).
    let e = analytic_expectation(12, 1, 1, 12);
    let miss = Rational::from((11u64, 12u64));
    let q = Rational::from(1u32) - miss.pow(12);
    let expected = Rational::from(1u32) + Rational::from(12u32) * q;
    assert_eq!(e, expected);
}

#[test]
fn nonempty_chunk_probability_grows_with_chunk_size() {
    let p4 = nonempty_chunk_probability(1, 12, 4);
    let p6 = nonempty_chunk_probability(1, 12, 6);
    let p12 = nonempty_chunk_probability(1, 12, 12);
    assert!(p4 < p6);
    assert!(p6 < p12);
    assert_eq!(
        p4,
        Rational::from(1u32) - Rational::from((11u64, 12u64)).pow(4)
    );
}
