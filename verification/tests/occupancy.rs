use rug::Rational;
use scancost::occupancy::analytic_expectation_by_defects;
use scancost::occupancy::expected_cost_given_defects;
use scancost::occupancy::occupancy_probability;
use scancost::analytic::analytic_expectation;

fn rat(n: u64, d: u64) -> Rational {
    Rational::from((n, d))
}

#[test]
fn occupancy_with_no_defects_leaves_every_chunk_empty() {
    assert_eq!(occupancy_probability(0, 3, 0), rat(1, 1));
    assert_eq!(occupancy_probability(0, 3, 1), rat(0, 1));
    assert_eq!(occupancy_probability(0, 3, 3), rat(0, 1));
}

#[test]
fn occupancy_of_two_defects_in_two_chunks() {
    // Placements of 2 defects in 2 chunks: (2,0), (1,1), (0,2).
    assert_eq!(occupancy_probability(2, 2, 1), rat(2, 3));
    assert_eq!(occupancy_probability(2, 2, 2), rat(1, 3));
    assert_eq!(occupancy_probability(2, 2, 0), rat(0, 1));
}

#[test]
fn occupancy_skips_states_beyond_the_defect_count() {
    assert_eq!(occupancy_probability(1, 4, 2), rat(0, 1));
    assert_eq!(occupancy_probability(2, 4, 3), rat(0, 1));
}

#[test]
fn occupancy_mass_sums_to_one() {
    let mut total = Rational::new();
    for j in 0..=3 {
        total += occupancy_probability(4, 3, j);
    }
    assert_eq!(total, rat(1, 1));
    let mut total2 = Rational::new();
    for j in 0..=5 {
        total2 += occupancy_probability(2, 5, j);
    }
    assert_eq!(total2, rat(1, 1));
}

#[test]
fn conditional_cost_with_one_defect_dirties_one_chunk() {
    // One defect occupies exactly one of the three chunks of four items.
    assert_eq!(expected_cost_given_defects(12, 3, 1), rat(7, 1));
}

#[test]
fn conditional_cost_with_no_defects_is_chunk_count() {
    assert_eq!(expected_cost_given_defects(12, 3, 0), rat(3, 1));
}

#[test]
fn defect_sweep_baseline_twelve_items_three_chunks() {
    assert_eq!(
        analytic_expectation_by_defects(12, 3, 1, 12),
        rat(420470181647735, 67613761732608)
    );
}

#[test]
fn defect_sweep_agrees_with_direct_formulation_for_one_chunk() {
    let sweep = analytic_expectation_by_defects(12, 1, 1, 12);
    let direct = analytic_expectation(12, 1, 1, 12);
    assert_eq!(sweep, direct);
    let sweep2 = analytic_expectation_by_defects(9, 1, 2, 9);
    let direct2 = analytic_expectation(9, 1, 2, 9);
    assert_eq!(sweep2, direct2);
}
