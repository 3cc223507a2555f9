use rug::Rational;
use scancost::analytic::analytic_expectation;
use scancost::monte_carlo::monte_carlo_expectation;
use scancost::monte_carlo::sample_cost;

#[test]
fn sample_cost_charges_one_per_clean_chunk() {
    let outcomes = vec![false; 12];
    assert_eq!(sample_cost(&outcomes, 4), 3);
}

#[test]
fn sample_cost_charges_full_chunk_on_any_defect() {
    let mut outcomes = vec![false; 8];
    outcomes[1] = true;
    // First group of four is dirty (4 + 1), second is clean (1).
    assert_eq!(sample_cost(&outcomes, 4), 6);
}

#[test]
fn sample_cost_with_every_item_defective() {
    let outcomes = vec![true; 12];
    assert_eq!(sample_cost(&outcomes, 4), 15);
}

#[test]
fn sample_cost_with_a_short_final_group() {
    let mut outcomes = vec![false; 5];
    outcomes[4] = true;
    // One full clean group of four, then a dirty group of one (1 + 1).
    assert_eq!(sample_cost(&outcomes, 4), 3);
}

#[test]
fn monte_carlo_is_exact_when_no_item_can_be_defective() {
    let e = monte_carlo_expectation(8, 0, 1, 4, 50);
    assert_eq!(e, Rational::from(2u32));
}

#[test]
fn monte_carlo_is_exact_when_every_item_is_defective() {
    let e = monte_carlo_expectation(8, 1, 1, 4, 50);
    assert_eq!(e, Rational::from(10u32));
}

#[test]
fn monte_carlo_converges_to_the_analytic_expectation() {
    // items = 100, p = 0.05, chunk size 10, many samples: the estimate must
    // land close to the exact value.
    let analytic = analytic_expectation(100, 10, 5, 100).to_f64();
    let estimate = monte_carlo_expectation(100, 5, 100, 10, 100_000).to_f64();
    assert!(
        (estimate - analytic).abs() < 0.5,
        "estimate {estimate} strayed from {analytic}"
    );
}
