use crate::enums::{ConfigError, Operator};
use crate::ordering::{is_stable_order, lemma_stable_ranking, stable_order, stable_ranking};
use crate::result_keeping_rules::{kept_outcomes, KeptOutcome, ResultKeepingRulesApplied};
use crate::roll_result::{
    aggregable, aggregate, can_aggregate, AggregateResult, SuccessCountingAfterResultKeeping,
};
use vstd::prelude::*;

verus! {

/// How the kept dice are judged: by a success or a failure comparison, by
/// parity, and with what penalties for a failure.
#[derive(Clone, Copy)]
pub struct SuccessCountingRules {
    count_success: Option<Operator>,
    count_failure: Option<Operator>,
    count_even: bool,
    count_odd: bool,
    deduct_failure: Option<u32>,
    subtract_failure: bool,
    margin_of_success: u32,
}

/// The mathematical value of a `SuccessCountingRules`.
pub struct SuccessRule {
    pub count_success: Option<Operator>,
    pub count_failure: Option<Operator>,
    pub count_even: bool,
    pub count_odd: bool,
    pub deduct_failure: Option<u32>,
    pub subtract_failure: bool,
    pub margin_of_success: u32,
}

/// The outcome of one die after success counting.
pub struct SuccessCountingRulesApplied {
    pub group: i32,
    pub sign: i32,
    pub roll_number: u32,
    pub dice_size: u32,
    pub final_roll: u32,
    pub discarded_rolls: Vec<u32>,
    pub exploded_rolls: Vec<u32>,
    pub subtotal: i32,
    pub kept: bool,
    pub replaced_roll: Option<u32>,
    pub success: Option<bool>,
    pub failure: Option<bool>,
    pub subtracted: bool,
    pub deductions: u32,
}

/// The mathematical value of a `SuccessCountingRulesApplied`.
pub struct ClassifiedOutcome {
    pub group: i32,
    pub sign: i32,
    pub roll_number: u32,
    pub dice_size: u32,
    pub final_roll: u32,
    pub discarded: Seq<u32>,
    pub exploded: Seq<u32>,
    pub subtotal: i32,
    pub kept: bool,
    pub replaced_roll: Option<u32>,
    pub success: Option<bool>,
    pub failure: Option<bool>,
    pub subtracted: bool,
    pub deductions: u32,
}

impl ClassifiedOutcome {
    /// The die was judged a success.
    pub open spec fn is_success(self) -> bool {
        self.success == Some(true) || self.failure == Some(false)
    }

    /// The die was judged a failure.
    pub open spec fn is_failure(self) -> bool {
        self.success == Some(false) || self.failure == Some(true)
    }

    /// The die enters the total: it is kept and was not judged a failure.
    pub open spec fn counts_toward_total(self) -> bool {
        self.kept && (self.is_success() || (self.success.is_none() && self.failure.is_none()))
    }

    /// What the die adds to the total of its group.
    pub open spec fn contribution(self) -> int {
        if self.counts_toward_total() {
            self.subtotal * self.sign
        } else {
            0
        }
    }
}

impl View for SuccessCountingRulesApplied {
    type V = ClassifiedOutcome;

    open spec fn view(&self) -> ClassifiedOutcome {
        ClassifiedOutcome {
            group: self.group,
            sign: self.sign,
            roll_number: self.roll_number,
            dice_size: self.dice_size,
            final_roll: self.final_roll,
            discarded: self.discarded_rolls@,
            exploded: self.exploded_rolls@,
            subtotal: self.subtotal,
            kept: self.kept,
            replaced_roll: self.replaced_roll,
            success: self.success,
            failure: self.failure,
            subtracted: self.subtracted,
            deductions: self.deductions,
        }
    }
}

impl Clone for SuccessCountingRulesApplied {
    fn clone(&self) -> (r: Self)
        ensures
            r@ == self@,
    {
        let discarded_rolls = self.discarded_rolls.clone();
        let exploded_rolls = self.exploded_rolls.clone();
        assert(discarded_rolls@ =~= self.discarded_rolls@);
        assert(exploded_rolls@ =~= self.exploded_rolls@);
        SuccessCountingRulesApplied {
            group: self.group,
            sign: self.sign,
            roll_number: self.roll_number,
            dice_size: self.dice_size,
            final_roll: self.final_roll,
            discarded_rolls,
            exploded_rolls,
            subtotal: self.subtotal,
            kept: self.kept,
            replaced_roll: self.replaced_roll,
            success: self.success,
            failure: self.failure,
            subtracted: self.subtracted,
            deductions: self.deductions,
        }
    }
}

impl SuccessCountingRulesApplied {
    pub fn new(
        group: i32,
        sign: i32,
        roll_number: u32,
        dice_size: u32,
        final_roll: u32,
        discarded_rolls: Vec<u32>,
        exploded_rolls: Vec<u32>,
        subtotal: i32,
        kept: bool,
        replaced_roll: Option<u32>,
        success: Option<bool>,
        failure: Option<bool>,
        subtracted: bool,
        deductions: u32,
    ) -> (r: Self)
        ensures
            r@ == (ClassifiedOutcome {
                group,
                sign,
                roll_number,
                dice_size,
                final_roll,
                discarded: discarded_rolls@,
                exploded: exploded_rolls@,
                subtotal,
                kept,
                replaced_roll,
                success,
                failure,
                subtracted,
                deductions,
            }),
    {
        Self {
            group,
            sign,
            roll_number,
            dice_size,
            final_roll,
            discarded_rolls,
            exploded_rolls,
            subtotal,
            kept,
            replaced_roll,
            success,
            failure,
            subtracted,
            deductions,
        }
    }

    /// Whether the die enters the total.
    pub fn counts_toward_total(&self) -> (r: bool)
        ensures
            r == self@.counts_toward_total(),
    {
        let success = match self.success {
            Some(s) => s,
            None => false,
        };
        let not_failure = match self.failure {
            Some(f) => !f,
            None => false,
        };
        self.kept && (success || not_failure || (self.success.is_none() && self.failure.is_none()))
    }
}

/// The values of a list of judged outcomes.
pub open spec fn classified_outcomes(rolls: Seq<SuccessCountingRulesApplied>) -> Seq<
    ClassifiedOutcome,
> {
    Seq::new(rolls.len(), |i: int| rolls[i]@)
}

/// What is counted or summed over the judged dice.
pub enum Measure {
    Successes,
    Failures,
    Evens,
    Odds,
    Subtractions,
    Deductions,
}

/// The roll numbers of a list of outcomes.
pub open spec fn roll_numbers(outcomes: Seq<KeptOutcome>) -> Seq<u32> {
    Seq::new(outcomes.len(), |i: int| outcomes[i].roll_number)
}

impl SuccessRule {
    /// At most one of the success and the failure comparison is set.
    pub open spec fn valid(self) -> bool {
        !(self.count_success.is_some() && self.count_failure.is_some())
    }

    /// The verdict of the success comparison on `value`, if there is one.
    pub open spec fn success_of(self, value: u32) -> Option<bool> {
        match self.count_success {
            Some(op) => Some(op.holds(value)),
            None => None,
        }
    }

    /// The verdict of the failure comparison on `value`, if there is one.
    pub open spec fn failure_of(self, value: u32) -> Option<bool> {
        match self.count_failure {
            Some(op) => Some(op.holds(value)),
            None => None,
        }
    }

    /// A die with these verdicts is a failure.
    pub open spec fn failed(success: Option<bool>, failure: Option<bool>) -> bool {
        success == Some(false) || failure == Some(true)
    }

    /// What is subtracted from the modifier for a die showing `value` with
    /// these verdicts: its value, and the fixed deduction.
    pub open spec fn penalties(self, value: u32, success: Option<bool>, failure: Option<bool>) -> (
        u32,
        u32,
    ) {
        (
            if self.subtract_failure && Self::failed(success, failure) {
                value
            } else {
                0
            },
            match self.deduct_failure {
                Some(amount) => if Self::failed(success, failure) {
                    amount
                } else {
                    0
                },
                None => 0,
            },
        )
    }

    /// The judged outcome of one die: a kept die gets its verdicts and
    /// penalties, a dropped die passes through without any.
    pub open spec fn classified(self, outcome: KeptOutcome) -> ClassifiedOutcome {
        let success = if outcome.kept {
            self.success_of(outcome.final_roll)
        } else {
            None
        };
        let failure = if outcome.kept {
            self.failure_of(outcome.final_roll)
        } else {
            None
        };
        ClassifiedOutcome {
            group: outcome.group,
            sign: outcome.sign,
            roll_number: outcome.roll_number,
            dice_size: outcome.dice_size,
            final_roll: outcome.final_roll,
            discarded: outcome.discarded,
            exploded: outcome.exploded,
            subtotal: outcome.subtotal,
            kept: outcome.kept,
            replaced_roll: outcome.replaced_roll,
            success,
            failure,
            subtracted: self.subtract_failure && Self::failed(success, failure),
            deductions: self.penalties(outcome.final_roll, success, failure).1,
        }
    }

    /// The judged dice, sorted by roll number, equal numbers in the order
    /// in which they came.
    pub open spec fn classified_all(self, outcomes: Seq<KeptOutcome>) -> Seq<ClassifiedOutcome> {
        Seq::new(
            outcomes.len(),
            |rank: int|
                self.classified(
                    outcomes[stable_ranking(roll_numbers(outcomes), false)[rank] as int],
                ),
        )
    }

    /// What one judged die adds to `measure`.
    pub open spec fn measured(self, measure: Measure, outcome: ClassifiedOutcome) -> int {
        match measure {
            Measure::Successes => if outcome.is_success() {
                1
            } else {
                0
            },
            Measure::Failures => if outcome.is_failure() {
                1
            } else {
                0
            },
            Measure::Evens => if self.count_even && outcome.kept && outcome.final_roll % 2 == 0 {
                1
            } else {
                0
            },
            Measure::Odds => if self.count_odd && outcome.kept && outcome.final_roll % 2 != 0 {
                1
            } else {
                0
            },
            Measure::Subtractions => if outcome.subtracted {
                outcome.final_roll as int
            } else {
                0
            },
            Measure::Deductions => outcome.deductions as int,
        }
    }

    /// The sum of `measure` over the judged dice.
    pub open spec fn tally(self, measure: Measure, outcomes: Seq<ClassifiedOutcome>) -> int
        decreases outcomes.len(),
    {
        if outcomes.len() == 0 {
            0
        } else {
            self.tally(measure, outcomes.drop_last()) + self.measured(measure, outcomes.last())
        }
    }

    /// Every count and total of the evaluation can be held in its field.
    pub open spec fn countable(self, outcomes: Seq<KeptOutcome>, modifier: i32) -> bool {
        let judged = self.classified_all(outcomes);
        &&& self.tally(Measure::Successes, judged) <= u32::MAX
        &&& self.tally(Measure::Failures, judged) <= u32::MAX
        &&& self.tally(Measure::Evens, judged) <= u32::MAX
        &&& self.tally(Measure::Odds, judged) <= u32::MAX
        &&& self.tally(Measure::Subtractions, judged) <= u32::MAX
        &&& self.tally(Measure::Deductions, judged) <= u32::MAX
        &&& aggregable(
            judged,
            self.tally(Measure::Deductions, judged) as u32,
            self.tally(Measure::Subtractions, judged) as u32,
            self.margin_of_success,
            modifier,
        )
    }

    /// The result of the evaluation.
    pub open spec fn evaluated(self, outcomes: Seq<KeptOutcome>, modifier: i32) -> AggregateResult {
        let judged = self.classified_all(outcomes);
        aggregate(
            judged,
            self.tally(Measure::Deductions, judged) as u32,
            self.tally(Measure::Subtractions, judged) as u32,
            self.margin_of_success,
            modifier,
            self.tally(Measure::Successes, judged) as u32,
            self.tally(Measure::Failures, judged) as u32,
            self.tally(Measure::Evens, judged) as u32,
            self.tally(Measure::Odds, judged) as u32,
        )
    }
}

/// One more die adds its measure to the tally.
pub proof fn lemma_tally_push(
    rule: SuccessRule,
    measure: Measure,
    outcomes: Seq<ClassifiedOutcome>,
    outcome: ClassifiedOutcome,
)
    ensures
        rule.tally(measure, outcomes.push(outcome)) == rule.tally(measure, outcomes)
            + rule.measured(measure, outcome),
{
    assert(outcomes.push(outcome).drop_last() =~= outcomes);
}

impl SuccessCountingRules {
    /// Every rule has at most one of the two comparisons.
    #[verifier::type_invariant]
    spec fn one_comparison(self) -> bool {
        !(self.count_success.is_some() && self.count_failure.is_some())
    }

}

impl View for SuccessCountingRules {
    type V = SuccessRule;

    closed spec fn view(&self) -> SuccessRule {
        SuccessRule {
            count_success: self.count_success,
            count_failure: self.count_failure,
            count_even: self.count_even,
            count_odd: self.count_odd,
            deduct_failure: self.deduct_failure,
            subtract_failure: self.subtract_failure,
            margin_of_success: self.margin_of_success,
        }
    }
}

/// The counts and totals over the judged dice, before they are narrowed to
/// the width of their fields.
struct Tallies {
    successes: u128,
    failures: u128,
    evens: u128,
    odds: u128,
    subtractions: u128,
    deductions: u128,
}

impl Tallies {
    spec fn matches(self, rule: SuccessRule, judged: Seq<ClassifiedOutcome>) -> bool {
        &&& self.successes == rule.tally(Measure::Successes, judged)
        &&& self.failures == rule.tally(Measure::Failures, judged)
        &&& self.evens == rule.tally(Measure::Evens, judged)
        &&& self.odds == rule.tally(Measure::Odds, judged)
        &&& self.subtractions == rule.tally(Measure::Subtractions, judged)
        &&& self.deductions == rule.tally(Measure::Deductions, judged)
    }

    spec fn below(self, bound: int) -> bool {
        &&& self.successes <= bound
        &&& self.failures <= bound
        &&& self.evens <= bound
        &&& self.odds <= bound
        &&& self.subtractions <= bound
        &&& self.deductions <= bound
    }
}

impl SuccessCountingRules {
    /// Makes a rule, which may have a success comparison or a failure
    /// comparison, not both.
    pub fn new(
        count_success: Option<Operator>,
        count_failure: Option<Operator>,
        count_even: bool,
        count_odd: bool,
        deduct_failure: Option<u32>,
        subtract_failure: bool,
        margin_of_success: u32,
    ) -> (r: Self)
        requires
            !(count_success.is_some() && count_failure.is_some()),
        ensures
            r@ == (SuccessRule {
                count_success,
                count_failure,
                count_even,
                count_odd,
                deduct_failure,
                subtract_failure,
                margin_of_success,
            }),
            r@.valid(),
    {
        SuccessCountingRules {
            count_success,
            count_failure,
            count_even,
            count_odd,
            deduct_failure,
            subtract_failure,
            margin_of_success,
        }
    }

    /// Makes a rule, unless it would have both a success and a failure
    /// comparison.
    pub fn try_new(
        count_success: Option<Operator>,
        count_failure: Option<Operator>,
        count_even: bool,
        count_odd: bool,
        deduct_failure: Option<u32>,
        subtract_failure: bool,
        margin_of_success: u32,
    ) -> (r: Result<Self, ConfigError>)
        ensures
            r.is_err() <==> count_success.is_some() && count_failure.is_some(),
            r matches Err(error) ==> error == ConfigError::ConflictingSuccessRules,
            r matches Ok(rule) ==> rule@ == (SuccessRule {
                count_success,
                count_failure,
                count_even,
                count_odd,
                deduct_failure,
                subtract_failure,
                margin_of_success,
            }) && rule@.valid(),
    {
        if count_success.is_some() && count_failure.is_some() {
            Err(ConfigError::ConflictingSuccessRules)
        } else {
            Ok(
                SuccessCountingRules::new(
                    count_success,
                    count_failure,
                    count_even,
                    count_odd,
                    deduct_failure,
                    subtract_failure,
                    margin_of_success,
                ),
            )
        }
    }

    /// The verdict of the success comparison on `roll_value`.
    pub fn check_success(&self, roll_value: u32) -> (r: Option<bool>)
        ensures
            r == self@.success_of(roll_value),
    {
        match self.count_success {
            Some(operator) => Some(operator.evaluate(roll_value)),
            None => None,
        }
    }

    /// The verdict of the failure comparison on `roll_value`.
    pub fn check_failure(&self, roll_value: u32) -> (r: Option<bool>)
        ensures
            r == self@.failure_of(roll_value),
    {
        match self.count_failure {
            Some(operator) => Some(operator.evaluate(roll_value)),
            None => None,
        }
    }

    /// What a die with these verdicts costs: its value where failures are
    /// subtracted, and the deduction for each failure.
    pub fn calculate_deductions(
        &self,
        roll_value: u32,
        success: Option<bool>,
        failure: Option<bool>,
    ) -> (r: (u32, u32))
        ensures
            r == self@.penalties(roll_value, success, failure),
    {
        let mut total_subtracted: u32 = 0;
        let mut total_deducted: u32 = 0;
        let failed = match success {
            Some(s) => !s,
            None => false,
        } || match failure {
            Some(f) => f,
            None => false,
        };
        if self.subtract_failure && failed {
            total_subtracted = roll_value;
        }
        if let Some(value) = self.deduct_failure {
            if failed {
                total_deducted = value;
            }
        }
        (total_subtracted, total_deducted)
    }

    /// Judges one die.
    pub fn classify(&self, roll: &ResultKeepingRulesApplied) -> (r: SuccessCountingRulesApplied)
        ensures
            r@ == self@.classified(roll@),
            self@.valid(),
    {
        proof {
            use_type_invariant(self);
        }
        let success = if roll.kept {
            self.check_success(roll.final_roll)
        } else {
            None
        };
        let failure = if roll.kept {
            self.check_failure(roll.final_roll)
        } else {
            None
        };
        let penalties = self.calculate_deductions(roll.final_roll, success, failure);
        let failed = match success {
            Some(s) => !s,
            None => false,
        } || match failure {
            Some(f) => f,
            None => false,
        };
        let discarded_rolls = roll.discarded_rolls.clone();
        let exploded_rolls = roll.exploded_rolls.clone();
        assert(discarded_rolls@ =~= roll.discarded_rolls@);
        assert(exploded_rolls@ =~= roll.exploded_rolls@);
        SuccessCountingRulesApplied::new(
            roll.group,
            roll.sign,
            roll.roll_number,
            roll.dice_size,
            roll.final_roll,
            discarded_rolls,
            exploded_rolls,
            roll.subtotal,
            roll.kept,
            roll.replaced_roll,
            success,
            failure,
            self.subtract_failure && failed,
            penalties.1,
        )
    }

    /// Judges every die, in the order of the roll numbers, and sums each
    /// measure over them.
    fn judge_all(&self, rolls: &[ResultKeepingRulesApplied]) -> (r: (
        Vec<SuccessCountingRulesApplied>,
        Tallies,
    ))
        ensures
            r.0.len() == rolls.len(),
            classified_outcomes(r.0@) == self@.classified_all(kept_outcomes(rolls@)),
            r.1.matches(self@, self@.classified_all(kept_outcomes(rolls@))),
    {
        let ghost outcomes = kept_outcomes(rolls@);
        let mut numbers: Vec<u32> = Vec::new();
        let mut i: usize = 0;
        while i < rolls.len()
            invariant
                i <= rolls.len(),
                numbers.len() == i,
                forall|k: int| 0 <= k < i ==> numbers[k] == rolls[k].roll_number,
            decreases rolls.len() - i,
        {
            numbers.push(rolls[i].roll_number);
            i = i + 1;
        }
        assert(numbers@ =~= roll_numbers(outcomes));
        let order = stable_order(&numbers, false);
        let mut judged: Vec<SuccessCountingRulesApplied> = Vec::new();
        let mut sums = Tallies {
            successes: 0,
            failures: 0,
            evens: 0,
            odds: 0,
            subtractions: 0,
            deductions: 0,
        };
        let mut rank: usize = 0;
        while rank < order.len()
            invariant
                rank <= order.len(),
                order.len() == rolls.len(),
                outcomes == kept_outcomes(rolls@),
                is_stable_order(numbers@, false, order@),
                numbers.len() == rolls.len(),
                order@ == stable_ranking(roll_numbers(outcomes), false),
                judged.len() == rank,
                forall|k: int|
                    0 <= k < rank ==> (#[trigger] judged[k])@ == self@.classified(
                        rolls[order[k] as int]@,
                    ),
                sums.matches(self@, classified_outcomes(judged@)),
                sums.below(rank * 0xffff_ffff),
            decreases order.len() - rank,
        {
            let one = self.classify(&rolls[order[rank]]);
            proof {
                let before = classified_outcomes(judged@);
                assert(classified_outcomes(judged@.push(one)) =~= before.push(one@));
                lemma_tally_push(self@, Measure::Successes, before, one@);
                lemma_tally_push(self@, Measure::Failures, before, one@);
                lemma_tally_push(self@, Measure::Evens, before, one@);
                lemma_tally_push(self@, Measure::Odds, before, one@);
                lemma_tally_push(self@, Measure::Subtractions, before, one@);
                lemma_tally_push(self@, Measure::Deductions, before, one@);
            }
            let is_success = match one.success {
                Some(s) => s,
                None => false,
            } || match one.failure {
                Some(f) => !f,
                None => false,
            };
            let is_failure = match one.success {
                Some(s) => !s,
                None => false,
            } || match one.failure {
                Some(f) => f,
                None => false,
            };
            if is_success {
                sums.successes = sums.successes + 1;
            }
            if is_failure {
                sums.failures = sums.failures + 1;
            }
            if self.count_even && one.kept && one.final_roll % 2 == 0 {
                sums.evens = sums.evens + 1;
            }
            if self.count_odd && one.kept && one.final_roll % 2 != 0 {
                sums.odds = sums.odds + 1;
            }
            if one.subtracted {
                sums.subtractions = sums.subtractions + one.final_roll as u128;
            }
            sums.deductions = sums.deductions + one.deductions as u128;
            judged.push(one);
            rank = rank + 1;
        }
        assert(classified_outcomes(judged@) =~= self@.classified_all(outcomes));
        (judged, sums)
    }

    /// Whether every count and total can be held in its field, which
    /// `count_successes` asks for.
    pub fn can_count(&self, rolls: &[ResultKeepingRulesApplied], modifier: i32) -> (r: bool)
        ensures
            r == self@.countable(kept_outcomes(rolls@), modifier),
    {
        let (judged, sums) = self.judge_all(rolls);
        if sums.successes > 0xffff_ffff || sums.failures > 0xffff_ffff || sums.evens > 0xffff_ffff
            || sums.odds > 0xffff_ffff || sums.subtractions > 0xffff_ffff || sums.deductions
            > 0xffff_ffff {
            return false;
        }
        can_aggregate(
            &judged,
            sums.deductions as u32,
            sums.subtractions as u32,
            self.margin_of_success,
            modifier,
        )
    }

    /// Judges the kept dice, counts successes, failures, evens and odds,
    /// sums the penalties of the failures, and folds the dice that count into
    /// the totals. The judged dice come out sorted by roll number.
    pub fn count_successes(&self, rolls: &[ResultKeepingRulesApplied], modifier: i32) -> (r:
        SuccessCountingAfterResultKeeping)
        requires
            self@.countable(kept_outcomes(rolls@), modifier),
        ensures
            r.rolls.len() == rolls.len(),
            r@ == self@.evaluated(kept_outcomes(rolls@), modifier),
            self@.valid(),
    {
        proof {
            use_type_invariant(self);
        }
        let (judged, sums) = self.judge_all(rolls);
        SuccessCountingAfterResultKeeping::new(
            judged,
            sums.deductions as u32,
            sums.subtractions as u32,
            self.margin_of_success,
            modifier,
            sums.successes as u32,
            sums.failures as u32,
            sums.evens as u32,
            sums.odds as u32,
        )
    }
}

/// A dropped die passes through unjudged: it has no verdict and no penalty,
/// and it adds to no count and to no sum.
pub proof fn lemma_dropped_die_is_not_judged(rule: SuccessRule, outcome: KeptOutcome)
    requires
        !outcome.kept,
    ensures
        rule.classified(outcome).success.is_none(),
        rule.classified(outcome).failure.is_none(),
        !rule.classified(outcome).subtracted,
        rule.classified(outcome).deductions == 0,
        !rule.classified(outcome).counts_toward_total(),
        rule.measured(Measure::Successes, rule.classified(outcome)) == 0,
        rule.measured(Measure::Failures, rule.classified(outcome)) == 0,
        rule.measured(Measure::Evens, rule.classified(outcome)) == 0,
        rule.measured(Measure::Odds, rule.classified(outcome)) == 0,
        rule.measured(Measure::Subtractions, rule.classified(outcome)) == 0,
        rule.measured(Measure::Deductions, rule.classified(outcome)) == 0,
{
}

/// Under a valid rule a kept die is a success or a failure where a
/// comparison is set, never both, and neither where none is set; a failure
/// stays out of the total, and only a failure bears a penalty.
pub proof fn lemma_kept_die_has_one_verdict(rule: SuccessRule, outcome: KeptOutcome)
    requires
        rule.valid(),
        outcome.kept,
    ensures
        !(rule.classified(outcome).is_success() && rule.classified(outcome).is_failure()),
        rule.count_success.is_some() || rule.count_failure.is_some() ==> rule.classified(
            outcome,
        ).is_success() || rule.classified(outcome).is_failure(),
        rule.count_success.is_none() && rule.count_failure.is_none() ==> !rule.classified(
            outcome,
        ).is_success() && !rule.classified(outcome).is_failure(),
        rule.classified(outcome).counts_toward_total() <==> !rule.classified(outcome).is_failure(),
        !rule.classified(outcome).is_failure() ==> !rule.classified(outcome).subtracted
            && rule.classified(outcome).deductions == 0,
{
}

/// The judged list holds every die once, in the stable order of the roll
/// numbers.
pub proof fn lemma_judged_dice_are_sorted(rule: SuccessRule, outcomes: Seq<KeptOutcome>)
    requires
        outcomes.len() <= usize::MAX,
    ensures
        rule.classified_all(outcomes).len() == outcomes.len(),
        is_stable_order(
            roll_numbers(outcomes),
            false,
            stable_ranking(roll_numbers(outcomes), false),
        ),
        forall|i: int, j: int|
            0 <= i < j < outcomes.len() ==> (#[trigger] rule.classified_all(
                outcomes,
            )[i]).roll_number <= (#[trigger] rule.classified_all(outcomes)[j]).roll_number,
{
    lemma_stable_ranking(roll_numbers(outcomes), false);
    let order = stable_ranking(roll_numbers(outcomes), false);
    assert forall|i: int, j: int| 0 <= i < j < outcomes.len() implies (#[trigger] rule.classified_all(
        outcomes,
    )[i]).roll_number <= (#[trigger] rule.classified_all(outcomes)[j]).roll_number by {
        assert(crate::ordering::precedes(
            roll_numbers(outcomes),
            false,
            order[i] as int,
            order[j] as int,
        ));
    }
}

} // verus!
