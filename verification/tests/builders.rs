use dice_roller::builders::{
    build_dice_roll_commands, build_result_keeping_rules, build_success_counting_rules, find_dice,
    parse_dice, read_dice, read_optional_flag, read_optional_operator, read_policies,
    read_required_operator, read_term, read_terms, threshold, try_build_dice_roll_commands,
    try_build_result_keeping_rules, try_build_success_counting_rules, RollPolicies, Term,
};
use dice_roller::enums::{ConfigError, Operator};
use dice_roller::result_keeping_rules::ResultKeepingRulesApplied;
use dice_roller::roll_command::InitialDiceRollResult;

fn text(value: &str) -> Option<String> {
    Some(value.to_string())
}

fn no_policies() -> RollPolicies {
    RollPolicies { re_roll: None, re_roll_recursively: false, explode: None, explode_once: false }
}

#[test]
fn dice_are_read_as_count_and_size() {
    assert_eq!(parse_dice("2d20"), (2, 20));
    assert_eq!(parse_dice("10d6"), (10, 6));
    assert_eq!(parse_dice("x3d4y"), (3, 4));
    assert_eq!(find_dice("1d4"), Some((1, 4)));
    assert_eq!(find_dice("d4"), None);
    assert_eq!(find_dice("4"), None);
    assert_eq!(find_dice("99999999999d4"), None);
    assert_eq!(read_dice(&text("3"), &text("8")), Some((3, 8)));
    assert_eq!(read_dice(&text("3"), &None), None);
    assert_eq!(read_dice(&text("x"), &text("8")), None);
}

#[test]
fn an_expression_gives_groups_and_a_modifier() {
    let (commands, modifier) =
        build_dice_roll_commands("2d20+2d6+5".to_string(), None, None, None, None);
    assert_eq!(modifier, 5);
    assert_eq!(commands.len(), 2);
    assert_eq!(commands[0].group(), 1);
    assert_eq!(commands[0].sign(), 1);
    assert_eq!(commands[0].dice_count(), 2);
    assert_eq!(commands[0].dice_size(), 20);
    assert_eq!(commands[0].re_roll(), None);
    assert!(!commands[0].re_roll_recursively());
    assert_eq!(commands[0].explode(), None);
    assert!(!commands[0].explode_once());
    assert_eq!(commands[1].group(), 2);
    assert_eq!(commands[1].sign(), 1);
    assert_eq!(commands[1].dice_count(), 2);
    assert_eq!(commands[1].dice_size(), 6);
}

#[test]
fn signs_and_case_are_read() {
    let (commands, modifier) =
        build_dice_roll_commands("1D20-2D6-3".to_string(), None, None, None, None);
    assert_eq!(modifier, -3);
    assert_eq!(commands.len(), 2);
    assert_eq!(commands[0].sign(), 1);
    assert_eq!(commands[1].sign(), -1);
    assert_eq!(commands[1].dice_count(), 2);
    assert_eq!(commands[1].group(), 2);
}

#[test]
fn the_last_number_is_the_modifier() {
    let (commands, modifier) =
        build_dice_roll_commands("4+1d6+7".to_string(), None, None, None, None);
    assert_eq!(commands.len(), 1);
    assert_eq!(modifier, 7);

    let (commands, modifier) =
        build_dice_roll_commands("10d20".to_string(), None, None, None, None);
    assert_eq!(commands.len(), 1);
    assert_eq!(commands[0].dice_count(), 10);
    assert_eq!(modifier, 0);

    let (commands, modifier) =
        build_dice_roll_commands("nothing".to_string(), None, None, None, None);
    assert!(commands.is_empty());
    assert_eq!(modifier, 0);
}

#[test]
fn policies_reach_every_group() {
    let (commands, _) = build_dice_roll_commands(
        "2d6+1d8".to_string(),
        text("eq1"),
        text("Y"),
        text("gte6"),
        text("t"),
    );
    for command in &commands {
        assert_eq!(command.re_roll(), Some(Operator::Eq(1)));
        assert!(command.re_roll_recursively());
        assert_eq!(command.explode(), Some(Operator::Gte(6)));
        assert!(command.explode_once());
    }
}

#[test]
fn a_comparison_beyond_the_die_is_rejected() {
    let reroll = try_build_dice_roll_commands("2d6".to_string(), text("eq7"), None, None, None);
    assert_eq!(reroll.err(), Some(ConfigError::ReRollExceedsDiceSize));
    let explode = try_build_dice_roll_commands("2d6".to_string(), None, None, text("gte7"), None);
    assert_eq!(explode.err(), Some(ConfigError::ExplodeExceedsDiceSize));
    let second = try_build_dice_roll_commands("2d8+1d6".to_string(), None, None, text("eq8"), None);
    assert_eq!(second.err(), Some(ConfigError::ExplodeExceedsDiceSize));
    assert!(try_build_dice_roll_commands("2d6".to_string(), text("eq6"), None, text("eq6"), None).is_ok());
}

#[test]
fn unreadable_options_are_rejected() {
    let comparison = try_build_dice_roll_commands("2d6".to_string(), text("six"), None, None, None);
    assert_eq!(comparison.err(), Some(ConfigError::InvalidComparison));
    let explode = try_build_dice_roll_commands("2d6".to_string(), None, None, text("eq"), None);
    assert_eq!(explode.err(), Some(ConfigError::InvalidComparison));
    let flag = try_build_dice_roll_commands("2d6".to_string(), None, text("maybe"), None, None);
    assert_eq!(flag.err(), Some(ConfigError::InvalidFlag));
    let once = try_build_dice_roll_commands("2d6".to_string(), None, None, None, text(""));
    assert_eq!(once.err(), Some(ConfigError::InvalidFlag));
}

#[test]
fn unreadable_terms_are_rejected() {
    let count = try_build_dice_roll_commands("99999999999d6".to_string(), None, None, None, None);
    assert_eq!(count.err(), Some(ConfigError::InvalidDice));
    let modifier = try_build_dice_roll_commands("1d6+99999999999".to_string(), None, None, None, None);
    assert_eq!(modifier.err(), Some(ConfigError::InvalidDice));
}

#[test]
fn terms_are_read_one_by_one() {
    match read_term("-3d8", 4, no_policies()).ok().unwrap() {
        Term::Dice(command) => {
            assert_eq!(command.group(), 4);
            assert_eq!(command.sign(), -1);
            assert_eq!(command.dice_count(), 3);
            assert_eq!(command.dice_size(), 8);
        }
        Term::Modifier(_) => panic!("a group of dice was expected"),
    }
    match read_term("+-+2d4", 1, no_policies()).ok().unwrap() {
        Term::Dice(command) => {
            assert_eq!(command.sign(), 1);
            assert_eq!(command.dice_count(), 2);
        }
        Term::Modifier(_) => panic!("a group of dice was expected"),
    }
    match read_term("-12", 1, no_policies()).ok().unwrap() {
        Term::Modifier(value) => assert_eq!(value, -12),
        Term::Dice(_) => panic!("a modifier was expected"),
    }
    assert_eq!(read_term("d", 1, no_policies()).err(), Some(ConfigError::InvalidDice));
    assert_eq!(read_term("x", 1, no_policies()).err(), Some(ConfigError::InvalidDice));
    assert_eq!(read_term("1d6", 0x8000_0000, no_policies()).err(), Some(ConfigError::TooManyGroups));

    let tokens = vec!["2d6".to_string(), "-1".to_string(), "-1d4".to_string(), "+3".to_string()];
    let (commands, modifier) = read_terms(&tokens, no_policies()).ok().unwrap();
    assert_eq!(commands.len(), 2);
    assert_eq!(commands[1].group(), 2);
    assert_eq!(commands[1].sign(), -1);
    assert_eq!(modifier, 3);
    let broken = vec!["2d6".to_string(), "x".to_string(), "1d0d".to_string()];
    assert_eq!(read_terms(&broken, no_policies()).err(), Some(ConfigError::InvalidDice));
}

#[test]
fn options_are_read_one_by_one() {
    assert_eq!(read_optional_flag(&None), Ok(false));
    assert_eq!(read_optional_flag(&text("T")), Ok(true));
    assert_eq!(read_optional_flag(&text("n")), Ok(false));
    assert_eq!(read_optional_flag(&text("q")), Err(ConfigError::InvalidFlag));
    assert_eq!(read_optional_operator(&None), Ok(None));
    assert_eq!(read_optional_operator(&text("lt3")), Ok(Some(Operator::Lt(3))));
    assert_eq!(read_optional_operator(&text("3")), Err(ConfigError::InvalidComparison));
    assert_eq!(read_required_operator("gt3"), Ok(Operator::Gt(3)));
    assert_eq!(read_required_operator("gt"), Err(ConfigError::InvalidComparison));
    assert_eq!(threshold(None), 0);
    assert_eq!(threshold(Some(Operator::Eq(1))), 1);
    assert_eq!(threshold(Some(Operator::Gt(2))), 2);
    assert_eq!(threshold(Some(Operator::Gte(3))), 3);
    assert_eq!(threshold(Some(Operator::Lt(4))), 4);
    assert_eq!(threshold(Some(Operator::Lte(5))), 5);
    let policies = read_policies(&text("eq1"), &None, &text("eq6"), &text("y")).ok().unwrap();
    assert_eq!(
        policies,
        RollPolicies {
            re_roll: Some(Operator::Eq(1)),
            re_roll_recursively: false,
            explode: Some(Operator::Eq(6)),
            explode_once: true,
        }
    );
    assert_eq!(
        read_policies(&text("x"), &text("x"), &None, &None).err(),
        Some(ConfigError::InvalidComparison)
    );
}

fn rolled(finals: &[u32]) -> Vec<InitialDiceRollResult> {
    let mut rolls = vec![];
    for (i, final_roll) in finals.iter().enumerate() {
        rolls.push(InitialDiceRollResult::new(1, 1, i as u32 + 1, 6, *final_roll, vec![], vec![]));
    }
    rolls
}

fn marks(processed: &[ResultKeepingRulesApplied]) -> Vec<(u32, bool, Option<u32>)> {
    let mut marks = vec![];
    for roll in processed {
        marks.push((roll.final_roll, roll.kept, roll.replaced_roll));
    }
    marks
}

#[test]
fn keep_rules_are_built_from_one_option() {
    let rolls = rolled(&[2, 5, 3, 6]);

    let keep_high = build_result_keeping_rules(Some(2), None, None, None, None, None);
    assert_eq!(
        marks(&keep_high.process_results(&rolls)),
        vec![(6, true, None), (5, true, None), (3, false, None), (2, false, None)]
    );
    let keep_low = build_result_keeping_rules(None, Some(1), None, None, None, None);
    assert_eq!(
        marks(&keep_low.process_results(&rolls)),
        vec![(2, true, None), (3, false, None), (5, false, None), (6, false, None)]
    );
    let drop_high = build_result_keeping_rules(None, None, Some(1), None, None, None);
    assert_eq!(
        marks(&drop_high.process_results(&rolls)),
        vec![(6, false, None), (5, true, None), (3, true, None), (2, true, None)]
    );
    let drop_low = build_result_keeping_rules(None, None, None, Some(3), None, None);
    assert_eq!(
        marks(&drop_low.process_results(&rolls)),
        vec![(2, false, None), (3, false, None), (5, false, None), (6, true, None)]
    );
    let none = build_result_keeping_rules(None, None, None, None, None, None);
    assert_eq!(
        marks(&none.process_results(&rolls)),
        vec![(2, true, None), (3, true, None), (5, true, None), (6, true, None)]
    );
}

#[test]
fn floor_and_ceiling_are_built() {
    let rolls = rolled(&[2, 5]);
    let floor = build_result_keeping_rules(None, None, None, None, None, Some(3));
    assert_eq!(marks(&floor.process_results(&rolls)), vec![(3, true, Some(2)), (5, true, None)]);
    let ceiling = build_result_keeping_rules(None, None, None, None, Some(3), None);
    assert_eq!(marks(&ceiling.process_results(&rolls)), vec![(2, true, None), (3, true, Some(5))]);
}

#[test]
fn conflicting_keep_options_are_rejected() {
    assert_eq!(
        try_build_result_keeping_rules(Some(1), Some(1), None, None, None, None).err(),
        Some(ConfigError::ConflictingKeepRules)
    );
    assert_eq!(
        try_build_result_keeping_rules(None, None, Some(1), Some(2), None, None).err(),
        Some(ConfigError::ConflictingKeepRules)
    );
    assert_eq!(
        try_build_result_keeping_rules(Some(1), None, None, Some(2), Some(1), Some(2)).err(),
        Some(ConfigError::ConflictingKeepRules)
    );
    assert_eq!(
        try_build_result_keeping_rules(Some(1), None, None, None, Some(1), Some(2)).err(),
        Some(ConfigError::ConflictingReplacementRules)
    );
}

#[test]
fn success_rules_are_built_from_one_comparison() {
    let success =
        build_success_counting_rules(text("gte5"), None, text("y"), None, Some(2), None, Some(3));
    assert_eq!(success.check_success(5), Some(true));
    assert_eq!(success.check_success(4), Some(false));
    assert_eq!(success.check_failure(4), None);
    assert_eq!(success.calculate_deductions(4, Some(false), None), (0, 2));

    let failure =
        build_success_counting_rules(None, text("LT3"), None, None, None, None, None);
    assert_eq!(failure.check_success(1), None);
    assert_eq!(failure.check_failure(1), Some(true));
    assert_eq!(failure.calculate_deductions(1, None, Some(true)), (0, 0));

    let subtract =
        build_success_counting_rules(None, None, None, None, None, text("lte2"), None);
    assert_eq!(subtract.check_success(1), None);
    assert_eq!(subtract.check_failure(2), Some(true));
    assert_eq!(subtract.check_failure(3), Some(false));
    assert_eq!(subtract.calculate_deductions(2, None, Some(true)), (2, 0));

    let plain = build_success_counting_rules(None, None, None, None, None, None, None);
    assert_eq!(plain.check_success(1), None);
    assert_eq!(plain.check_failure(1), None);
}

#[test]
fn built_success_rules_count_evens_odds_and_margin() {
    let rule = build_success_counting_rules(None, None, text("Y"), text("n"), None, None, Some(4));
    let rolls = vec![
        ResultKeepingRulesApplied::new(1, 1, 1, 6, 2, vec![], vec![], 2, true, None),
        ResultKeepingRulesApplied::new(1, 1, 2, 6, 3, vec![], vec![], 3, true, None),
    ];
    let result = rule.count_successes(&rolls, 10);
    assert_eq!(result.evens, 1);
    assert_eq!(result.odds, 0);
    assert_eq!(result.margin_of_success, 4);
    assert_eq!(result.final_modifier, 6);
    assert_eq!(result.total, 11);
}

#[test]
fn conflicting_or_unreadable_success_options_are_rejected() {
    assert_eq!(
        try_build_success_counting_rules(text("eq1"), text("eq2"), None, None, None, None, None).err(),
        Some(ConfigError::ConflictingSuccessRules)
    );
    assert_eq!(
        try_build_success_counting_rules(text("eq1"), None, None, None, None, text("eq2"), None).err(),
        Some(ConfigError::ConflictingSuccessRules)
    );
    assert_eq!(
        try_build_success_counting_rules(None, text("x"), text("x"), None, None, text("eq2"), None).err(),
        Some(ConfigError::ConflictingSuccessRules)
    );
    assert_eq!(
        try_build_success_counting_rules(text("five"), None, text("x"), None, None, None, None).err(),
        Some(ConfigError::InvalidComparison)
    );
    assert_eq!(
        try_build_success_counting_rules(text("eq5"), None, text("x"), None, None, None, None).err(),
        Some(ConfigError::InvalidFlag)
    );
    assert_eq!(
        try_build_success_counting_rules(None, None, None, text("x"), None, None, None).err(),
        Some(ConfigError::InvalidFlag)
    );
}

#[test]
fn checked_builders_build_what_is_asked() {
    let keep = try_build_result_keeping_rules(Some(1), None, None, None, None, Some(3)).ok().unwrap();
    assert_eq!(
        marks(&keep.process_results(&rolled(&[2, 5]))),
        vec![(5, true, None), (3, false, Some(2))]
    );
    let success =
        try_build_success_counting_rules(None, None, text("t"), None, Some(2), text("LTE2"), Some(1))
            .ok()
            .unwrap();
    assert_eq!(success.check_success(2), None);
    assert_eq!(success.check_failure(2), Some(true));
    assert_eq!(success.calculate_deductions(2, None, Some(true)), (2, 2));
    let (commands, modifier) =
        try_build_dice_roll_commands("3d8-2".to_string(), text("eq1"), text("n"), None, None)
            .ok()
            .unwrap();
    assert_eq!(modifier, -2);
    assert_eq!(commands.len(), 1);
    assert_eq!(commands[0].dice_count(), 3);
    assert_eq!(commands[0].dice_size(), 8);
    assert_eq!(commands[0].re_roll(), Some(Operator::Eq(1)));
    assert!(!commands[0].re_roll_recursively());
}
