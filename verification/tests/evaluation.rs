use dice_roller::builders::{
    build_dice_roll_commands, build_result_keeping_rules, build_success_counting_rules,
    try_build_dice_roll_commands,
};
use dice_roller::enums::Operator;
use dice_roller::evaluation::{any_empty_die, evaluate, roll_all, EvaluationError};
use dice_roller::result_keeping_rules::ResultKeepingRules;
use dice_roller::roll_command::DiceRollCommand;
use dice_roller::success_counting_rules::SuccessCountingRules;

fn plain_success_rule() -> SuccessCountingRules {
    SuccessCountingRules::new(None, None, false, false, None, false, 0)
}

#[test]
fn groups_are_rolled_one_after_the_other() {
    let commands = vec![
        DiceRollCommand::new(1, 1, 2, 20, None, false, None, false),
        DiceRollCommand::new(2, -1, 0, 4, None, false, None, false),
        DiceRollCommand::new(3, -1, 3, 6, None, false, None, false),
    ];
    let rolled = roll_all(&commands).ok().unwrap();
    let mut seen = vec![];
    for roll in &rolled {
        seen.push((roll.group, roll.sign, roll.roll_number, roll.dice_size));
        assert!(1 <= roll.final_roll && roll.final_roll <= roll.dice_size);
        assert_eq!(roll.subtotal, roll.final_roll as i32);
    }
    assert_eq!(seen, vec![(1, 1, 1, 20), (1, 1, 2, 20), (3, -1, 1, 6), (3, -1, 2, 6), (3, -1, 3, 6)]);
}

#[test]
fn dice_without_faces_are_not_rolled() {
    let commands = vec![
        DiceRollCommand::new(1, 1, 2, 20, None, false, None, false),
        DiceRollCommand::new(2, 1, 1, 0, None, false, None, false),
    ];
    assert!(any_empty_die(&commands));
    assert!(!any_empty_die(&vec![commands[0]]));
    assert_eq!(roll_all(&commands).err(), Some(EvaluationError::NoFaces));
    let keep = ResultKeepingRules::new(false, false, 0, None, false);
    assert_eq!(evaluate(&commands, 0, &keep, &plain_success_rule()).err(), Some(EvaluationError::NoFaces));
}

#[test]
fn an_endless_policy_ends_the_evaluation() {
    let commands = vec![DiceRollCommand::new(1, 1, 1, 6, Some(Operator::Gte(1)), true, None, false)];
    assert_eq!(roll_all(&commands).err(), Some(EvaluationError::DrawLimitReached));
    let keep = ResultKeepingRules::new(false, false, 0, None, false);
    assert_eq!(
        evaluate(&commands, 0, &keep, &plain_success_rule()).err(),
        Some(EvaluationError::DrawLimitReached)
    );
}

#[test]
fn nothing_to_roll_leaves_the_modifier() {
    let keep = ResultKeepingRules::new(false, false, 0, None, false);
    let result = evaluate(&vec![], 5, &keep, &plain_success_rule()).ok().unwrap();
    assert!(result.rolls.is_empty());
    assert_eq!(result.total, 5);
    assert_eq!(result.doubled, 10);
    assert_eq!(result.halved.whole, 2);
    assert!(result.halved.half);
}

#[test]
fn dice_of_one_face_give_a_known_total() {
    let commands = vec![
        DiceRollCommand::new(1, 1, 4, 1, None, false, None, false),
        DiceRollCommand::new(2, -1, 3, 1, None, false, None, false),
    ];
    let keep = ResultKeepingRules::new(true, true, 5, None, false);
    let result = evaluate(&commands, 10, &keep, &plain_success_rule()).ok().unwrap();
    assert_eq!(result.rolls.len(), 7);
    let mut kept = 0;
    for roll in &result.rolls {
        if roll.kept {
            kept += 1;
        }
    }
    assert_eq!(kept, 5);
    assert_eq!(result.total_before_modifier, 3);
    assert_eq!(result.total, 13);
}

#[test]
fn a_total_beyond_the_range_ends_the_evaluation() {
    let commands = vec![DiceRollCommand::new(1, 1, 2, 1, None, false, None, false)];
    let keep = ResultKeepingRules::new(false, false, 0, None, false);
    assert_eq!(
        evaluate(&commands, i32::MAX, &keep, &plain_success_rule()).err(),
        Some(EvaluationError::TotalsTooLarge)
    );
    let floor = ResultKeepingRules::new(false, false, 0, Some(u32::MAX), true);
    assert_eq!(
        evaluate(&commands, 0, &floor, &plain_success_rule()).err(),
        Some(EvaluationError::TotalsTooLarge)
    );
}

#[test]
fn an_expression_is_evaluated_from_its_text() {
    let (commands, modifier) =
        build_dice_roll_commands("4d6-1d4+2".to_string(), None, None, None, None);
    let checked =
        try_build_dice_roll_commands("4d6-1d4+2".to_string(), None, None, None, None).ok().unwrap();
    assert_eq!(checked.0.len(), commands.len());
    assert_eq!(checked.1, modifier);
    let keep = build_result_keeping_rules(None, None, None, Some(1), None, None);
    let success = build_success_counting_rules(
        None,
        Some("lte1".to_string()),
        None,
        None,
        Some(1),
        None,
        None,
    );
    for _ in 0..50 {
        let result = evaluate(&commands, modifier, &keep, &success).ok().unwrap();
        assert_eq!(result.rolls.len(), 5);
        let mut expected = 0;
        let mut failures = 0;
        let mut dropped = 0;
        for roll in &result.rolls {
            if !roll.kept {
                dropped += 1;
                assert_eq!(roll.failure, None);
            } else if roll.failure == Some(true) {
                failures += 1;
                assert_eq!(roll.final_roll, 1);
                assert_eq!(roll.deductions, 1);
            } else {
                assert_eq!(roll.failure, Some(false));
                expected += roll.subtotal * roll.sign;
            }
        }
        assert_eq!(dropped, 1);
        assert_eq!(result.failures, failures);
        assert_eq!(result.deductions_from_failure, failures);
        assert_eq!(result.total_before_modifier, expected);
        assert_eq!(result.final_modifier, 2 - failures as i32);
        assert_eq!(result.total, expected + 2 - failures as i32);
        assert_eq!(result.doubled, 2 * result.total);
    }
}

#[test]
fn a_very_large_die_ends_the_evaluation() {
    let commands = vec![DiceRollCommand::new(1, 1, 200, u32::MAX, None, false, None, false)];
    assert_eq!(roll_all(&commands).err(), Some(EvaluationError::SubtotalTooLarge));
}
