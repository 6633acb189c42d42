use dice_roller::result_keeping_rules::{ResultKeepingRules, ResultKeepingRulesApplied};
use dice_roller::roll_command::InitialDiceRollResult;

fn rolled(finals: &[u32]) -> Vec<InitialDiceRollResult> {
    let mut rolls = vec![];
    for (i, final_roll) in finals.iter().enumerate() {
        rolls.push(InitialDiceRollResult::new(1, 1, i as u32 + 1, 6, *final_roll, vec![], vec![]));
    }
    rolls
}

fn finals_of(processed: &[ResultKeepingRulesApplied], kept: bool) -> Vec<u32> {
    let mut finals = vec![];
    for roll in processed {
        if roll.kept == kept {
            finals.push(roll.final_roll);
        }
    }
    finals
}

fn numbers_of(processed: &[ResultKeepingRulesApplied]) -> Vec<u32> {
    let mut numbers = vec![];
    for roll in processed {
        numbers.push(roll.roll_number);
    }
    numbers
}

#[test]
fn keep_high_two_of_four() {
    let rolls = rolled(&[2, 5, 3, 6]);
    let rule = ResultKeepingRules::new(true, true, 2, None, false);
    assert!(rule.can_process(&rolls));

    let processed = rule.process_results(&rolls);

    assert_eq!(processed.len(), 4);
    assert_eq!(finals_of(&processed, true), vec![6, 5]);
    assert_eq!(finals_of(&processed, false), vec![3, 2]);
    assert_eq!(numbers_of(&processed), vec![4, 2, 3, 1]);
}

#[test]
fn the_input_is_left_as_it_was() {
    let rolls = rolled(&[2, 5, 3, 6]);
    let rule = ResultKeepingRules::new(true, true, 2, None, false);

    rule.process_results(&rolls);

    let mut finals = vec![];
    for roll in &rolls {
        finals.push(roll.final_roll);
    }
    assert_eq!(finals, vec![2, 5, 3, 6]);
}

#[test]
fn count_zero_keeps_every_die_in_any_direction() {
    let rolls = rolled(&[2, 5, 3, 6]);
    for keep in [true, false] {
        for high in [true, false] {
            let rule = ResultKeepingRules::new(keep, high, 0, None, false);
            let processed = rule.process_results(&rolls);
            assert_eq!(processed.len(), 4);
            for roll in &processed {
                assert!(roll.kept);
                assert_eq!(roll.replaced_roll, None);
            }
        }
    }
}

#[test]
fn keep_low_takes_the_smallest() {
    let rolls = rolled(&[2, 5, 3, 6]);
    let rule = ResultKeepingRules::new(true, false, 1, None, false);

    let processed = rule.process_results(&rolls);

    assert_eq!(finals_of(&processed, true), vec![2]);
    assert_eq!(finals_of(&processed, false), vec![3, 5, 6]);
}

#[test]
fn drop_high_drops_the_largest() {
    let rolls = rolled(&[2, 5, 3, 6]);
    let rule = ResultKeepingRules::new(false, true, 1, None, false);

    let processed = rule.process_results(&rolls);

    assert_eq!(finals_of(&processed, false), vec![6]);
    assert_eq!(finals_of(&processed, true), vec![5, 3, 2]);
}

#[test]
fn drop_low_drops_the_smallest() {
    let rolls = rolled(&[4, 1, 6, 1]);
    let rule = ResultKeepingRules::new(false, false, 3, None, false);

    let processed = rule.process_results(&rolls);

    assert_eq!(finals_of(&processed, false), vec![1, 1, 4]);
    assert_eq!(finals_of(&processed, true), vec![6]);
}

#[test]
fn a_count_beyond_the_population_takes_all() {
    let rolls = rolled(&[3, 4]);

    let kept = ResultKeepingRules::new(true, true, 5, None, false).process_results(&rolls);
    assert_eq!(finals_of(&kept, true), vec![4, 3]);

    let dropped = ResultKeepingRules::new(false, true, 5, None, false).process_results(&rolls);
    assert_eq!(finals_of(&dropped, false), vec![4, 3]);
}

#[test]
fn equal_dice_stay_in_rolled_order() {
    let rolls = rolled(&[4, 4, 4, 4]);

    let high = ResultKeepingRules::new(true, true, 2, None, false).process_results(&rolls);
    assert_eq!(numbers_of(&high), vec![1, 2, 3, 4]);
    assert!(high[0].kept && high[1].kept && !high[2].kept && !high[3].kept);

    let low = ResultKeepingRules::new(true, false, 2, None, false).process_results(&rolls);
    assert_eq!(numbers_of(&low), vec![1, 2, 3, 4]);
    assert!(low[0].kept && low[1].kept && !low[2].kept && !low[3].kept);
}

#[test]
fn ties_at_the_limit_go_to_the_die_rolled_first() {
    let rolls = rolled(&[5, 6, 5, 6, 5]);

    let processed = ResultKeepingRules::new(true, true, 3, None, false).process_results(&rolls);

    assert_eq!(numbers_of(&processed), vec![2, 4, 1, 3, 5]);
    assert_eq!(finals_of(&processed, true), vec![6, 6, 5]);
}

#[test]
fn an_empty_set_gives_an_empty_result() {
    let rule = ResultKeepingRules::new(true, true, 2, Some(3), true);
    assert!(rule.can_process(&vec![]));
    assert_eq!(rule.process_results(&vec![]).len(), 0);
}

#[test]
fn a_floor_raises_the_dice_below_it() {
    let rolls = vec![
        InitialDiceRollResult::new(1, 1, 1, 6, 2, vec![1], vec![]),
        InitialDiceRollResult::new(1, 1, 2, 6, 6, vec![], vec![6, 3]),
        InitialDiceRollResult::new(1, 1, 3, 6, 4, vec![], vec![]),
    ];
    let rule = ResultKeepingRules::new(false, false, 0, Some(4), true);

    let processed = rule.process_results(&rolls);

    assert_eq!(numbers_of(&processed), vec![1, 3, 2]);
    assert_eq!(processed[0].final_roll, 4);
    assert_eq!(processed[0].replaced_roll, Some(2));
    assert_eq!(processed[0].subtotal, 4);
    assert_eq!(processed[0].discarded_rolls, vec![1]);
    assert_eq!(processed[1].final_roll, 4);
    assert_eq!(processed[1].replaced_roll, None);
    assert_eq!(processed[1].subtotal, 4);
    assert_eq!(processed[2].final_roll, 6);
    assert_eq!(processed[2].replaced_roll, None);
    assert_eq!(processed[2].subtotal, 15);
    assert_eq!(processed[2].exploded_rolls, vec![6, 3]);
    for roll in &processed {
        assert!(roll.final_roll >= 4);
    }
}

#[test]
fn a_ceiling_lowers_the_dice_above_it() {
    let rolls = vec![
        InitialDiceRollResult::new(1, 1, 1, 6, 2, vec![], vec![]),
        InitialDiceRollResult::new(2, -1, 2, 8, 6, vec![], vec![6, 3]),
        InitialDiceRollResult::new(1, 1, 3, 6, 4, vec![], vec![]),
    ];
    let rule = ResultKeepingRules::new(true, true, 1, Some(4), false);

    let processed = rule.process_results(&rolls);

    assert_eq!(processed[0].roll_number, 2);
    assert_eq!(processed[0].group, 2);
    assert_eq!(processed[0].sign, -1);
    assert_eq!(processed[0].dice_size, 8);
    assert_eq!(processed[0].final_roll, 4);
    assert_eq!(processed[0].replaced_roll, Some(6));
    assert_eq!(processed[0].subtotal, 13);
    assert!(processed[0].kept);
    assert_eq!(processed[1].final_roll, 4);
    assert_eq!(processed[1].replaced_roll, None);
    assert!(!processed[1].kept);
    assert_eq!(processed[2].final_roll, 2);
    assert_eq!(processed[2].replaced_roll, None);
    for roll in &processed {
        assert!(roll.final_roll <= 4);
    }
}

#[test]
fn a_plain_rule_changes_nothing_when_applied_again() {
    let rolls = vec![
        InitialDiceRollResult::new(1, 1, 1, 6, 2, vec![1], vec![]),
        InitialDiceRollResult::new(1, 1, 2, 6, 6, vec![], vec![6, 3]),
        InitialDiceRollResult::new(2, -1, 1, 6, 4, vec![], vec![]),
    ];
    let rule = ResultKeepingRules::new(false, true, 0, None, false);

    let once = rule.process_results(&rolls);
    let mut again_input = vec![];
    for roll in &once {
        let mut raw = InitialDiceRollResult::new(
            roll.group,
            roll.sign,
            roll.roll_number,
            roll.dice_size,
            roll.final_roll,
            roll.discarded_rolls.clone(),
            roll.exploded_rolls.clone(),
        );
        raw.subtotal = roll.subtotal;
        again_input.push(raw);
    }
    let twice = rule.process_results(&again_input);

    assert_eq!(once.len(), twice.len());
    for i in 0..once.len() {
        assert_eq!(once[i].group, twice[i].group);
        assert_eq!(once[i].sign, twice[i].sign);
        assert_eq!(once[i].roll_number, twice[i].roll_number);
        assert_eq!(once[i].final_roll, twice[i].final_roll);
        assert_eq!(once[i].discarded_rolls, twice[i].discarded_rolls);
        assert_eq!(once[i].exploded_rolls, twice[i].exploded_rolls);
        assert_eq!(once[i].subtotal, twice[i].subtotal);
        assert_eq!(once[i].kept, twice[i].kept);
        assert_eq!(once[i].replaced_roll, twice[i].replaced_roll);
    }
    assert_eq!(numbers_of(&once), vec![2, 1, 1]);
    assert_eq!(once[0].subtotal, 15);
}

#[test]
fn a_subtotal_that_would_not_fit_is_told_apart() {
    let mut roll = InitialDiceRollResult::new(1, 1, 1, 6, 1, vec![], vec![]);
    roll.subtotal = i32::MAX;
    let rolls = vec![roll];

    assert!(!ResultKeepingRules::new(true, true, 0, Some(2), true).can_process(&rolls));
    assert!(ResultKeepingRules::new(true, true, 0, Some(2), false).can_process(&rolls));
    assert!(ResultKeepingRules::new(true, true, 0, None, true).can_process(&rolls));
}

#[test]
fn single_decisions() {
    let rule = ResultKeepingRules::new(true, true, 2, Some(3), true);
    assert!(rule.should_keep_roll(0));
    assert!(rule.should_keep_roll(1));
    assert!(!rule.should_keep_roll(2));
    assert_eq!(rule.replacement_roll(2), Some(3));
    assert_eq!(rule.replacement_roll(3), None);
    assert_eq!(rule.replacement_roll(4), None);

    let other = ResultKeepingRules::new(false, true, 2, Some(3), false);
    assert!(!other.should_keep_roll(1));
    assert!(other.should_keep_roll(2));
    assert_eq!(other.replacement_roll(2), None);
    assert_eq!(other.replacement_roll(3), None);
    assert_eq!(other.replacement_roll(4), Some(3));

    let none = ResultKeepingRules::new(false, true, 0, None, true);
    assert!(none.should_keep_roll(0));
    assert_eq!(none.replacement_roll(1), None);
}

#[test]
fn applied_record_holds_what_it_is_given() {
    let roll = ResultKeepingRulesApplied::new(3, -1, 2, 8, 5, vec![1], vec![8, 2], 15, false, Some(7));
    assert_eq!(roll.group, 3);
    assert_eq!(roll.sign, -1);
    assert_eq!(roll.roll_number, 2);
    assert_eq!(roll.dice_size, 8);
    assert_eq!(roll.final_roll, 5);
    assert_eq!(roll.discarded_rolls, vec![1]);
    assert_eq!(roll.exploded_rolls, vec![8, 2]);
    assert_eq!(roll.subtotal, 15);
    assert!(!roll.kept);
    assert_eq!(roll.replaced_roll, Some(7));
    let copy = roll.clone();
    assert_eq!(copy.exploded_rolls, vec![8, 2]);
}
