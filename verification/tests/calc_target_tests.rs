//! Target-derivation cases. Weights and holdings are integers in an
//! arbitrary common scale, since only their ratios matter; each case states
//! its values in a scale where they are whole numbers.

use investment_planner::calc_etf_items::calc_targets;

#[test]
fn test_calc_target() {
    // Weights one third each, holdings 0 / 0 / 1, budget 2: all end at 1.
    let ideal_proportions = vec![1, 1, 1];
    let amounts = vec![0, 0, 1];
    let res = calc_targets(ideal_proportions, &amounts, 2);
    assert_eq!(res, vec![1, 1, 1]);
}

#[test]
fn test_calc_target_same() {
    // Weights 0.2 / 0.3 / 0.1 / 0.4 in tenths, holdings already proportional,
    // budget equal to the held total: every target doubles the holding.
    let ideal_proportions = vec![2, 3, 1, 4];
    let amounts = vec![2, 3, 1, 4];
    let res = calc_targets(ideal_proportions.clone(), &amounts, 10);
    let doubled = ideal_proportions.iter().map(|p| 2 * p).collect::<Vec<_>>();
    assert_eq!(res, doubled);
}

#[test]
fn test_calc_target_all_negative() {
    let ideal_proportions = vec![0, 0];
    let amounts = vec![1, 1];
    let res = calc_targets(ideal_proportions, &amounts, 2);
    assert_eq!(res, vec![2, 2]);
}

#[test]
fn test_calc_target_all_negative_sum() {
    let ideal_proportions = vec![-1, -1];
    let amounts = vec![1, 1];
    let res = calc_targets(ideal_proportions, &amounts, 2);
    assert_eq!(res, vec![2, 2]);
}

#[test]
fn test_calc_target_one_negative_sum() {
    // Weights -1.0 / 0.1 in tenths sum below zero: the budget splits evenly.
    let ideal_proportions = vec![-10, 1];
    let amounts = vec![1, 1];
    let res = calc_targets(ideal_proportions, &amounts, 2);
    assert_eq!(res, vec![2, 2]);
}

#[test]
fn test_calc_target_all_positive() {
    // Weights 0.75 / 0.25 in quarters, nothing held, budget 4.
    let ideal_proportions = vec![3, 1];
    let amounts = vec![0, 0];
    let res = calc_targets(ideal_proportions, &amounts, 4);
    assert_eq!(res, vec![3, 1]);
}

#[test]
fn test_calc_target_random_proportions() {
    let ideal_proportions = vec![10, 5];
    let amounts = vec![5, 10];
    let res = calc_targets(ideal_proportions, &amounts, 15);
    assert_eq!(res, vec![20, 10]);
}

#[test]
fn test_calc_target_one_zero_proportions() {
    let ideal_proportions = vec![10, 0];
    let amounts = vec![5, 10];
    let res = calc_targets(ideal_proportions, &amounts, 150);
    assert_eq!(res, vec![155, 10]);
}

#[test]
fn test_calc_target_single_asset_gets_all() {
    // One asset: its target is the holding plus the whole budget.
    let res = calc_targets(vec![7], &vec![30], 12);
    assert_eq!(res, vec![42]);
}

#[test]
fn test_calc_target_no_assets() {
    let res = calc_targets(vec![], &vec![], 10);
    assert!(res.is_empty());
}

#[test]
fn test_calc_target_even_split_rounds_down() {
    // Budget 7 over three assets with no usable weights: each gets 7 / 3 = 2.
    let res = calc_targets(vec![0, 0, 0], &vec![1, 2, 3], 7);
    assert_eq!(res, vec![3, 4, 5]);
}
