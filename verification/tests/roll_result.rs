use dice_roller::roll_result::{
    can_aggregate, contribution, grand_sum, group_sum, grouped_sums, halve, HalfValue,
    SuccessCountingAfterResultKeeping,
};
use dice_roller::success_counting_rules::SuccessCountingRulesApplied;
use std::collections::HashMap;

fn mock_applied_roll(
    group: i32,
    sign: i32,
    roll_number: u32,
    final_roll: u32,
    kept: bool,
    success: Option<bool>,
    failure: Option<bool>,
) -> SuccessCountingRulesApplied {
    SuccessCountingRulesApplied::new(
        group,
        sign,
        roll_number,
        6,
        final_roll,
        vec![],
        vec![],
        final_roll as i32,
        kept,
        None,
        success,
        failure,
        false,
        0,
    )
}

fn halved(result: &SuccessCountingAfterResultKeeping) -> f32 {
    result.halved.whole as f32 + if result.halved.half { 0.5 } else { 0.0 }
}

#[test]
fn test_basic_grouped_subtotals_and_total() {
    let rolls = vec![
        mock_applied_roll(1, 1, 1, 4, true, None, None),
        mock_applied_roll(1, 1, 2, 5, true, None, None),
        mock_applied_roll(2, 1, 3, 3, true, None, None),
    ];

    let result = SuccessCountingAfterResultKeeping::new(rolls, 0, 0, 0, 2, 0, 0, 0, 0);

    let expected_grouped = HashMap::from([(1, 9), (2, 3)]);
    assert_eq!(result.grouped_subtotals, expected_grouped);
    assert_eq!(result.total_before_modifier, 12);
    assert_eq!(result.final_modifier, 2);
    assert_eq!(result.total, 14);
    assert_eq!(result.doubled, 28);
    assert_eq!(halved(&result), 7.0);
}

#[test]
fn test_negative_sign_group() {
    let rolls = vec![
        mock_applied_roll(1, 1, 1, 6, true, None, None),
        mock_applied_roll(2, -1, 2, 4, true, None, None),
    ];

    let result = SuccessCountingAfterResultKeeping::new(rolls, 0, 0, 0, 0, 0, 0, 0, 0);

    let expected_grouped = HashMap::from([(1, 6), (2, -4)]);
    assert_eq!(result.grouped_subtotals, expected_grouped);
    assert_eq!(result.total_before_modifier, 2);
    assert_eq!(result.total, 2);
}

#[test]
fn test_neutral_rolls_included() {
    let rolls = vec![mock_applied_roll(1, 1, 1, 4, true, None, None)];

    let result = SuccessCountingAfterResultKeeping::new(rolls, 0, 0, 0, 0, 0, 0, 0, 0);

    assert_eq!(result.total_before_modifier, 4);
}

#[test]
fn test_only_successes_included_when_success_rules_active() {
    let rolls = vec![
        mock_applied_roll(1, 1, 1, 6, true, Some(true), None),
        mock_applied_roll(1, 1, 2, 3, true, Some(false), None),
        mock_applied_roll(1, 1, 3, 4, true, None, None),
    ];

    let result = SuccessCountingAfterResultKeeping::new(rolls, 0, 0, 0, 0, 1, 1, 0, 0);

    assert_eq!(result.total_before_modifier, 6 + 4);
}

#[test]
fn test_subtotal_excludes_failed_rolls_under_success_counting() {
    let rolls = vec![
        mock_applied_roll(1, 1, 1, 6, true, Some(true), None),
        mock_applied_roll(1, 1, 2, 3, true, Some(false), None),
        mock_applied_roll(1, 1, 3, 2, true, Some(false), None),
    ];

    let result = SuccessCountingAfterResultKeeping::new(rolls, 0, 0, 0, 0, 1, 2, 0, 0);

    assert_eq!(result.total_before_modifier, 6);
}

#[test]
fn test_final_modifier_calculation() {
    let rolls = vec![mock_applied_roll(1, 1, 1, 5, true, None, None)];

    let result = SuccessCountingAfterResultKeeping::new(rolls, 2, 3, 1, 10, 0, 0, 0, 0);

    assert_eq!(result.initial_modifier, 10);
    assert_eq!(result.final_modifier, 4);
    assert_eq!(result.total_before_modifier, 5);
    assert_eq!(result.total, 9);
}

#[test]
fn test_empty_rolls() {
    let rolls = vec![];

    let result = SuccessCountingAfterResultKeeping::new(rolls, 0, 0, 0, 5, 0, 0, 0, 0);

    assert!(result.grouped_subtotals.is_empty());
    assert_eq!(result.total_before_modifier, 0);
    assert_eq!(result.total, 5);
    assert_eq!(result.doubled, 10);
    assert_eq!(halved(&result), 2.5);
}

#[test]
fn two_groups_with_opposite_signs() {
    let mut first = mock_applied_roll(1, 1, 1, 4, true, None, None);
    first.subtotal = 9;
    let second = mock_applied_roll(2, -1, 1, 4, true, None, None);

    let result = SuccessCountingAfterResultKeeping::new(vec![first, second], 0, 0, 0, 0, 0, 0, 0, 0);

    assert_eq!(result.grouped_subtotals, HashMap::from([(1, 9), (2, -4)]));
    assert_eq!(result.total_before_modifier, 5);
}

#[test]
fn dropped_and_failed_dice_stay_out_of_the_total() {
    let rolls = vec![
        mock_applied_roll(1, 1, 1, 6, false, None, None),
        mock_applied_roll(1, 1, 2, 5, true, None, Some(true)),
        mock_applied_roll(1, 1, 3, 4, true, None, Some(false)),
        mock_applied_roll(2, 1, 1, 3, false, Some(true), None),
    ];

    let result = SuccessCountingAfterResultKeeping::new(rolls, 0, 0, 0, 0, 0, 0, 0, 0);

    assert_eq!(result.grouped_subtotals, HashMap::from([(1, 4)]));
    assert_eq!(result.total_before_modifier, 4);
    assert_eq!(result.rolls.len(), 4);
}

#[test]
fn counters_are_stored_as_given() {
    let result = SuccessCountingAfterResultKeeping::new(vec![], 1, 2, 3, 0, 4, 5, 6, 7);

    assert_eq!(result.deductions_from_failure, 1);
    assert_eq!(result.subtractions_from_failure, 2);
    assert_eq!(result.margin_of_success, 3);
    assert_eq!(result.final_modifier, -6);
    assert_eq!(result.successes, 4);
    assert_eq!(result.failures, 5);
    assert_eq!(result.evens, 6);
    assert_eq!(result.odds, 7);
    assert_eq!(result.total, -6);
    assert_eq!(result.doubled, -12);
    assert_eq!(halved(&result), -3.0);
}

#[test]
fn halve_rounds_down_and_keeps_the_half() {
    assert_eq!(halve(5), HalfValue { whole: 2, half: true });
    assert_eq!(halve(4), HalfValue { whole: 2, half: false });
    assert_eq!(halve(0), HalfValue { whole: 0, half: false });
    assert_eq!(halve(-1), HalfValue { whole: -1, half: true });
    assert_eq!(halve(-4), HalfValue { whole: -2, half: false });
    assert_eq!(halve(-5), HalfValue { whole: -3, half: true });
    assert_eq!(halve(i32::MAX), HalfValue { whole: 1073741823, half: true });
    assert_eq!(halve(i32::MIN), HalfValue { whole: -1073741824, half: false });
}

#[test]
fn sums_follow_sign_and_group() {
    let rolls = vec![
        mock_applied_roll(1, 1, 1, 4, true, None, None),
        mock_applied_roll(2, -1, 1, 6, true, None, None),
        mock_applied_roll(1, 1, 2, 2, true, Some(false), None),
        mock_applied_roll(2, -1, 2, 1, true, None, None),
    ];

    assert_eq!(contribution(&rolls[0]), 4);
    assert_eq!(contribution(&rolls[1]), -6);
    assert_eq!(contribution(&rolls[2]), 0);
    assert_eq!(group_sum(&rolls, 1), 4);
    assert_eq!(group_sum(&rolls, 2), -7);
    assert_eq!(group_sum(&rolls, 3), 0);
    assert_eq!(grand_sum(&rolls), -3);
    assert_eq!(grouped_sums(&rolls), Some(HashMap::from([(1, 4), (2, -7)])));
}

#[test]
fn totals_that_do_not_fit_are_told_apart() {
    let mut large = mock_applied_roll(1, 1, 1, 6, true, None, None);
    large.subtotal = i32::MAX;
    let mut more = mock_applied_roll(1, 1, 2, 6, true, None, None);
    more.subtotal = 1;

    assert!(can_aggregate(&vec![large.clone()], 0, 0, 0, -1073741824));
    assert!(!can_aggregate(&vec![large.clone()], 0, 0, 0, 0));
    assert!(!can_aggregate(&vec![large.clone(), more.clone()], 0, 0, 0, i32::MIN));
    assert_eq!(grouped_sums(&vec![large, more]), None);
    assert!(!can_aggregate(&vec![], u32::MAX, 0, 0, 0));
    assert!(can_aggregate(&vec![], 0, 0, 0, 5));
}
