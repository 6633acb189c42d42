use crate::builders::command_specs;
use crate::result_keeping_rules::{kept_outcomes, raw_outcomes, KeepRule, ResultKeepingRules};
use crate::roll_command::{
    DiceRollCommand, InitialDiceRollResult, RawOutcome, RollError, RollGroupSpec,
};
use crate::roll_result::SuccessCountingAfterResultKeeping;
use crate::success_counting_rules::{SuccessCountingRules, SuccessRule};
use vstd::prelude::*;

verus! {

/// Why an evaluation came to no result.
#[derive(Clone, Copy, Debug, PartialEq, Eq, Structural)]
pub enum EvaluationError {
    /// A group of dice has dice without faces.
    NoFaces,
    /// A die asked for more draws than a die is given.
    DrawLimitReached,
    /// The subtotal of a die does not fit in an `i32`.
    SubtotalTooLarge,
    /// A count or a total of the evaluation does not fit in its field.
    TotalsTooLarge,
}

/// `rolled` lists, group after group, one possible outcome for each die of
/// each group, the dice of a group in their order: each is what some draws
/// of faces give, and one that the policies of its group allow.
pub open spec fn rolls_of(commands: Seq<RollGroupSpec>, rolled: Seq<RawOutcome>) -> bool
    decreases commands.len(),
{
    if commands.len() == 0 {
        rolled.len() == 0
    } else {
        let count = commands.last().dice_count as int;
        let before = rolled.len() - count;
        &&& before >= 0
        &&& rolls_of(commands.drop_last(), rolled.take(before))
        &&& forall|k: int|
            0 <= k < count ==> commands.last().is_outcome(
                (k + 1) as u32,
                #[trigger] rolled[before + k],
            ) && commands.last().is_rolled((k + 1) as u32, rolled[before + k])
    }
}

/// Some group has dice without faces.
pub open spec fn has_empty_die(commands: Seq<RollGroupSpec>) -> bool {
    exists|i: int| 0 <= i < commands.len() && (#[trigger] commands[i]).dice_size == 0
}

/// Some group with dice to roll has a policy that may ask for draw after
/// draw.
pub open spec fn has_chain(commands: Seq<RollGroupSpec>) -> bool {
    exists|i: int|
        0 <= i < commands.len() && (#[trigger] commands[i]).dice_count > 0 && commands[i].chains()
}

/// Some group with dice to roll has dice so large that two of their values
/// may not fit in an `i32`.
pub open spec fn has_large_die(commands: Seq<RollGroupSpec>) -> bool {
    exists|i: int|
        0 <= i < commands.len() && (#[trigger] commands[i]).dice_count > 0 && 2
            * commands[i].dice_size > i32::MAX
}

/// Some group with dice to roll has a die that some draws leave asking for
/// more than it is given.
pub open spec fn has_exhausted_die(commands: Seq<RollGroupSpec>) -> bool {
    exists|i: int|
        0 <= i < commands.len() && (#[trigger] commands[i]).dice_count > 0
            && commands[i].may_exhaust()
}

/// Some group with dice to roll has a die that some draws settle with a
/// subtotal that cannot be recorded.
pub open spec fn has_overflowed_die(commands: Seq<RollGroupSpec>) -> bool {
    exists|i: int|
        0 <= i < commands.len() && (#[trigger] commands[i]).dice_count > 0
            && commands[i].may_overflow()
}

/// Whether some group has dice without faces.
pub fn any_empty_die(commands: &Vec<DiceRollCommand>) -> (r: bool)
    ensures
        r == has_empty_die(command_specs(commands@)),
{
    let mut i: usize = 0;
    while i < commands.len()
        invariant
            i <= commands.len(),
            forall|k: int| 0 <= k < i ==> (#[trigger] command_specs(commands@)[k]).dice_size != 0,
        decreases commands.len() - i,
    {
        if commands[i].dice_size() == 0 {
            assert(command_specs(commands@)[i as int].dice_size == 0);
            return true;
        }
        i = i + 1;
    }
    false
}

/// Rolls every group of dice, one after the other. Nothing is rolled where
/// some group has dice without faces, and the first group that cannot be
/// rolled to the end ends the roll. Groups without dice, and groups without
/// chaining policies and without very large dice, are always rolled to the
/// end.
pub fn roll_all(commands: &Vec<DiceRollCommand>) -> (r: Result<
    Vec<InitialDiceRollResult>,
    EvaluationError,
>)
    ensures
        !has_empty_die(command_specs(commands@)) && !has_chain(command_specs(commands@))
            && !has_large_die(command_specs(commands@)) ==> r.is_ok(),
        r matches Ok(rolled) ==> rolls_of(command_specs(commands@), raw_outcomes(rolled@)),
        r == Err::<Vec<InitialDiceRollResult>, EvaluationError>(EvaluationError::NoFaces)
            <==> has_empty_die(command_specs(commands@)),
        r == Err::<Vec<InitialDiceRollResult>, EvaluationError>(
            EvaluationError::DrawLimitReached,
        ) ==> has_chain(command_specs(commands@)) && has_exhausted_die(command_specs(commands@)),
        r == Err::<Vec<InitialDiceRollResult>, EvaluationError>(
            EvaluationError::SubtotalTooLarge,
        ) ==> (has_chain(command_specs(commands@)) || has_large_die(command_specs(commands@)))
            && has_overflowed_die(command_specs(commands@)),
        r != Err::<Vec<InitialDiceRollResult>, EvaluationError>(EvaluationError::TotalsTooLarge),
{
    if any_empty_die(commands) {
        return Err(EvaluationError::NoFaces);
    }
    let ghost specs = command_specs(commands@);
    let mut initial_results: Vec<InitialDiceRollResult> = Vec::new();
    let mut i: usize = 0;
    while i < commands.len()
        invariant
            i <= commands.len(),
            specs == command_specs(commands@),
            !has_empty_die(specs),
            rolls_of(specs.take(i as int), raw_outcomes(initial_results@)),
        decreases commands.len() - i,
    {
        assert(specs[i as int].dice_size != 0);
        let ghost before = raw_outcomes(initial_results@);
        match commands[i].roll_dice() {
            Ok(mut rolled) => {
                let ghost rolled_batch = rolled@;
                let ghost batch = raw_outcomes(rolled@);
                initial_results.append(&mut rolled);
                proof {
                    let after = raw_outcomes(initial_results@);
                    assert(after =~= before + batch);
                    assert(specs.take(i + 1).drop_last() =~= specs.take(i as int));
                    assert(specs.take(i + 1).last() == commands[i as int]@);
                    assert(after.take(after.len() - batch.len()) =~= before);
                    assert forall|k: int| 0 <= k < batch.len() implies commands[i as int]@.is_outcome(
                        (k + 1) as u32,
                        #[trigger] after[before.len() + k],
                    ) && commands[i as int]@.is_rolled((k + 1) as u32, after[before.len() + k]) by {
                        assert(after[before.len() + k] == batch[k]);
                        assert(batch[k] == rolled_batch[k]@);
                    }
                }
            },
            Err(RollError::DrawLimitReached) => {
                assert(specs[i as int].dice_count > 0 && specs[i as int].chains()
                    && specs[i as int].may_exhaust());
                return Err(EvaluationError::DrawLimitReached);
            },
            Err(RollError::SubtotalTooLarge) => {
                assert(specs[i as int].dice_count > 0 && (specs[i as int].chains() || 2
                    * specs[i as int].dice_size > i32::MAX) && specs[i as int].may_overflow());
                return Err(EvaluationError::SubtotalTooLarge);
            },
        }
        i = i + 1;
    }
    assert(specs.take(i as int) =~= specs);
    Ok(initial_results)
}

/// The totals of the outcomes `rolled` can be held: every subtotal after
/// replacement, and every count and total of the evaluation.
pub open spec fn totals_fit(
    keep: KeepRule,
    success: SuccessRule,
    rolled: Seq<RawOutcome>,
    modifier: i32,
) -> bool {
    &&& forall|i: int| 0 <= i < rolled.len() ==> keep.fits(#[trigger] rolled[i])
    &&& success.countable(keep.processed(rolled), modifier)
}

/// Rolls the groups of dice and takes the outcomes through selection and
/// success counting: the result is what the two rules make of some possible
/// outcome of the dice, with `modifier` as the modifier. Nothing is rolled
/// where some group has dice without faces. The evaluation ends without a
/// result where a group cannot be rolled to the end, and where a total of
/// what was rolled cannot be held. It has a result where neither can happen;
/// without groups of dice that is where the totals of no dice can be held.
pub fn evaluate(
    commands: &Vec<DiceRollCommand>,
    modifier: i32,
    result_keeping_rules: &ResultKeepingRules,
    success_counting_rules: &SuccessCountingRules,
) -> (r: Result<SuccessCountingAfterResultKeeping, EvaluationError>)
    ensures
        r matches Ok(result) ==> exists|rolled: Seq<RawOutcome>|
            rolls_of(command_specs(commands@), rolled) && totals_fit(
                result_keeping_rules@,
                success_counting_rules@,
                rolled,
                modifier,
            ) && #[trigger] success_counting_rules@.evaluated(
                result_keeping_rules@.processed(rolled),
                modifier,
            ) == result@,
        r == Err::<SuccessCountingAfterResultKeeping, EvaluationError>(EvaluationError::NoFaces)
            <==> has_empty_die(command_specs(commands@)),
        r == Err::<SuccessCountingAfterResultKeeping, EvaluationError>(
            EvaluationError::DrawLimitReached,
        ) ==> has_chain(command_specs(commands@)) && has_exhausted_die(command_specs(commands@)),
        r == Err::<SuccessCountingAfterResultKeeping, EvaluationError>(
            EvaluationError::SubtotalTooLarge,
        ) ==> (has_chain(command_specs(commands@)) || has_large_die(command_specs(commands@)))
            && has_overflowed_die(command_specs(commands@)),
        r == Err::<SuccessCountingAfterResultKeeping, EvaluationError>(
            EvaluationError::TotalsTooLarge,
        ) ==> exists|rolled: Seq<RawOutcome>|
            rolls_of(command_specs(commands@), rolled) && !#[trigger] totals_fit(
                result_keeping_rules@,
                success_counting_rules@,
                rolled,
                modifier,
            ),
        !has_empty_die(command_specs(commands@)) && !has_chain(command_specs(commands@))
            && !has_large_die(command_specs(commands@)) && (forall|rolled: Seq<RawOutcome>| #[trigger]
            rolls_of(command_specs(commands@), rolled) ==> totals_fit(
                result_keeping_rules@,
                success_counting_rules@,
                rolled,
                modifier,
            )) ==> r.is_ok(),
        commands.len() == 0 ==> (r.is_ok() <==> totals_fit(
            result_keeping_rules@,
            success_counting_rules@,
            Seq::empty(),
            modifier,
        )),
        commands.len() == 0 ==> (r matches Ok(result) ==> result@
            == success_counting_rules@.evaluated(
            result_keeping_rules@.processed(Seq::empty()),
            modifier,
        )),
{
    let initial_results = match roll_all(commands) {
        Ok(rolled) => rolled,
        Err(error) => {
            return Err(error);
        },
    };
    let ghost rolled = raw_outcomes(initial_results@);
    proof {
        if commands.len() == 0 {
            assert(rolled =~= Seq::<RawOutcome>::empty());
        }
    }
    if !result_keeping_rules.can_process(&initial_results) {
        assert(!totals_fit(result_keeping_rules@, success_counting_rules@, rolled, modifier)) by {
            let i = choose|i: int|
                0 <= i < initial_results.len() && !result_keeping_rules@.fits(
                    #[trigger] initial_results[i]@,
                );
            assert(rolled[i] == initial_results[i]@);
        }
        return Err(EvaluationError::TotalsTooLarge);
    }
    let secondary_results = result_keeping_rules.process_results(&initial_results);
    if !success_counting_rules.can_count(&secondary_results, modifier) {
        assert(!totals_fit(result_keeping_rules@, success_counting_rules@, rolled, modifier));
        return Err(EvaluationError::TotalsTooLarge);
    }
    let result = success_counting_rules.count_successes(&secondary_results, modifier);
    proof {
        assert forall|i: int| 0 <= i < rolled.len() implies result_keeping_rules@.fits(
            #[trigger] rolled[i],
        ) by {
            assert(rolled[i] == initial_results[i]@);
        }
        assert(totals_fit(result_keeping_rules@, success_counting_rules@, rolled, modifier));
        assert(success_counting_rules@.evaluated(
            result_keeping_rules@.processed(rolled),
            modifier,
        ) == result@);
    }
    Ok(result)
}

} // verus!
