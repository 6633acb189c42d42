use crate::success_counting_rules::{
    classified_outcomes, ClassifiedOutcome, SuccessCountingRulesApplied,
};
use std::collections::HashMap;
use vstd::prelude::*;

verus! {

broadcast use vstd::std_specs::hash::group_hash_axioms;

/// Half of a whole number: `whole`, and one half more where `half` is set.
#[derive(Clone, Copy, Debug, PartialEq, Eq, Structural)]
pub struct HalfValue {
    pub whole: i32,
    pub half: bool,
}

/// The result of an evaluation: the judged dice with the totals.
pub struct SuccessCountingAfterResultKeeping {
    pub rolls: Vec<SuccessCountingRulesApplied>,
    pub deductions_from_failure: u32,
    pub subtractions_from_failure: u32,
    pub margin_of_success: u32,
    pub initial_modifier: i32,
    pub final_modifier: i32,
    pub grouped_subtotals: HashMap<i32, i32>,
    pub total_before_modifier: i32,
    pub total: i32,
    pub doubled: i32,
    pub halved: HalfValue,
    pub successes: u32,
    pub failures: u32,
    pub evens: u32,
    pub odds: u32,
}

/// The mathematical value of a `SuccessCountingAfterResultKeeping`.
pub struct AggregateResult {
    pub rolls: Seq<ClassifiedOutcome>,
    pub deductions_from_failure: u32,
    pub subtractions_from_failure: u32,
    pub margin_of_success: u32,
    pub initial_modifier: i32,
    pub final_modifier: i32,
    pub grouped_subtotals: Map<i32, i32>,
    pub total_before_modifier: i32,
    pub total: i32,
    pub doubled: i32,
    pub halved: HalfValue,
    pub successes: u32,
    pub failures: u32,
    pub evens: u32,
    pub odds: u32,
}

impl View for SuccessCountingAfterResultKeeping {
    type V = AggregateResult;

    open spec fn view(&self) -> AggregateResult {
        AggregateResult {
            rolls: classified_outcomes(self.rolls@),
            deductions_from_failure: self.deductions_from_failure,
            subtractions_from_failure: self.subtractions_from_failure,
            margin_of_success: self.margin_of_success,
            initial_modifier: self.initial_modifier,
            final_modifier: self.final_modifier,
            grouped_subtotals: self.grouped_subtotals@,
            total_before_modifier: self.total_before_modifier,
            total: self.total,
            doubled: self.doubled,
            halved: self.halved,
            successes: self.successes,
            failures: self.failures,
            evens: self.evens,
            odds: self.odds,
        }
    }
}

/// What the dice of group `group` add to the total.
pub open spec fn group_total(rolls: Seq<ClassifiedOutcome>, group: i32) -> int
    decreases rolls.len(),
{
    if rolls.len() == 0 {
        0
    } else {
        group_total(rolls.drop_last(), group) + if rolls.last().group == group {
            rolls.last().contribution()
        } else {
            0
        }
    }
}

/// What all dice add to the total.
pub open spec fn grand_total(rolls: Seq<ClassifiedOutcome>) -> int
    decreases rolls.len(),
{
    if rolls.len() == 0 {
        0
    } else {
        grand_total(rolls.drop_last()) + rolls.last().contribution()
    }
}

/// Some die of group `group` enters the total.
pub open spec fn has_counted(rolls: Seq<ClassifiedOutcome>, group: i32) -> bool {
    exists|i: int|
        0 <= i < rolls.len() && (#[trigger] rolls[i]).group == group
            && rolls[i].counts_toward_total()
}

/// The modifier that is left after the penalties.
pub open spec fn final_modifier_of(
    initial_modifier: i32,
    deductions_from_failure: u32,
    subtractions_from_failure: u32,
    margin_of_success: u32,
) -> int {
    initial_modifier - deductions_from_failure - subtractions_from_failure - margin_of_success
}

/// The subtotal of each group that has a die in the total.
pub open spec fn grouped_subtotals_of(rolls: Seq<ClassifiedOutcome>) -> Map<i32, i32> {
    Map::new(|group: i32| has_counted(rolls, group), |group: i32| group_total(rolls, group) as i32)
}

/// `value` can be held in an `i32`.
pub open spec fn fits_i32(value: int) -> bool {
    i32::MIN <= value <= i32::MAX
}

/// Half of `total`.
pub open spec fn half_of(total: int) -> HalfValue {
    HalfValue { whole: (total / 2) as i32, half: total % 2 == 1 }
}

/// Every total of the evaluation can be held in an `i32`.
pub open spec fn aggregable(
    rolls: Seq<ClassifiedOutcome>,
    deductions_from_failure: u32,
    subtractions_from_failure: u32,
    margin_of_success: u32,
    initial_modifier: i32,
) -> bool {
    let final_modifier = final_modifier_of(
        initial_modifier,
        deductions_from_failure,
        subtractions_from_failure,
        margin_of_success,
    );
    &&& fits_i32(final_modifier)
    &&& forall|group: i32| #[trigger]
        has_counted(rolls, group) ==> fits_i32(group_total(rolls, group))
    &&& fits_i32(grand_total(rolls))
    &&& fits_i32(grand_total(rolls) + final_modifier)
    &&& fits_i32(2 * (grand_total(rolls) + final_modifier))
}

/// The totals of an evaluation.
pub open spec fn aggregate(
    rolls: Seq<ClassifiedOutcome>,
    deductions_from_failure: u32,
    subtractions_from_failure: u32,
    margin_of_success: u32,
    initial_modifier: i32,
    successes: u32,
    failures: u32,
    evens: u32,
    odds: u32,
) -> AggregateResult {
    let final_modifier = final_modifier_of(
        initial_modifier,
        deductions_from_failure,
        subtractions_from_failure,
        margin_of_success,
    );
    let total = grand_total(rolls) + final_modifier;
    AggregateResult {
        rolls,
        deductions_from_failure,
        subtractions_from_failure,
        margin_of_success,
        initial_modifier,
        final_modifier: final_modifier as i32,
        grouped_subtotals: grouped_subtotals_of(rolls),
        total_before_modifier: grand_total(rolls) as i32,
        total: total as i32,
        doubled: (2 * total) as i32,
        halved: half_of(total),
        successes,
        failures,
        evens,
        odds,
    }
}

/// The product of two `i32` values is far from the limits of an `i64`.
proof fn lemma_product_bound(a: int, b: int)
    requires
        fits_i32(a),
        fits_i32(b),
    ensures
        -0x4000_0000_0000_0000 <= a * b <= 0x4000_0000_0000_0000,
{
    assert(-0x4000_0000_0000_0000 <= a * b <= 0x4000_0000_0000_0000) by (nonlinear_arith)
        requires
            -0x8000_0000 <= a <= 0x7fff_ffff,
            -0x8000_0000 <= b <= 0x7fff_ffff,
    ;
}

/// What one die adds to the total.
pub fn contribution(roll: &SuccessCountingRulesApplied) -> (r: i64)
    ensures
        r == roll@.contribution(),
        -0x4000_0000_0000_0000 <= r <= 0x4000_0000_0000_0000,
{
    proof {
        lemma_product_bound(roll.subtotal as int, roll.sign as int);
    }
    if roll.counts_toward_total() {
        roll.subtotal as i64 * roll.sign as i64
    } else {
        0
    }
}

/// Computes what the dice of group `group` add to the total.
pub fn group_sum(rolls: &Vec<SuccessCountingRulesApplied>, group: i32) -> (r: i128)
    ensures
        r == group_total(classified_outcomes(rolls@), group),
{
    let ghost all = classified_outcomes(rolls@);
    let mut sum: i128 = 0;
    let mut i: usize = 0;
    while i < rolls.len()
        invariant
            i <= rolls.len(),
            all == classified_outcomes(rolls@),
            sum == group_total(all.take(i as int), group),
            -0x4000_0000_0000_0000 * i <= sum <= 0x4000_0000_0000_0000 * i,
        decreases rolls.len() - i,
    {
        assert(all.take(i + 1).drop_last() =~= all.take(i as int));
        if rolls[i].group == group {
            sum = sum + contribution(&rolls[i]) as i128;
        }
        i = i + 1;
    }
    assert(all.take(i as int) =~= all);
    sum
}

/// Computes what all dice add to the total.
pub fn grand_sum(rolls: &Vec<SuccessCountingRulesApplied>) -> (r: i128)
    ensures
        r == grand_total(classified_outcomes(rolls@)),
{
    let ghost all = classified_outcomes(rolls@);
    let mut sum: i128 = 0;
    let mut i: usize = 0;
    while i < rolls.len()
        invariant
            i <= rolls.len(),
            all == classified_outcomes(rolls@),
            sum == grand_total(all.take(i as int)),
            -0x4000_0000_0000_0000 * i <= sum <= 0x4000_0000_0000_0000 * i,
        decreases rolls.len() - i,
    {
        assert(all.take(i + 1).drop_last() =~= all.take(i as int));
        sum = sum + contribution(&rolls[i]) as i128;
        i = i + 1;
    }
    assert(all.take(i as int) =~= all);
    sum
}

/// A group has a die in the total among the first `n + 1` dice where it has
/// one among the first `n`, or where the next die is one.
proof fn lemma_has_counted_step(rolls: Seq<ClassifiedOutcome>, n: int, group: i32)
    requires
        0 <= n < rolls.len(),
    ensures
        has_counted(rolls.take(n + 1), group) <==> has_counted(rolls.take(n), group) || (
        rolls[n].group == group && rolls[n].counts_toward_total()),
{
    let shorter = rolls.take(n);
    let longer = rolls.take(n + 1);
    if has_counted(longer, group) {
        let i = choose|i: int|
            0 <= i < longer.len() && (#[trigger] longer[i]).group == group
                && longer[i].counts_toward_total();
        if i < n {
            assert(shorter[i] == longer[i]);
        }
    }
    if has_counted(shorter, group) {
        let i = choose|i: int|
            0 <= i < shorter.len() && (#[trigger] shorter[i]).group == group
                && shorter[i].counts_toward_total();
        assert(longer[i] == shorter[i]);
    }
    if rolls[n].group == group && rolls[n].counts_toward_total() {
        assert(longer[n] == rolls[n]);
    }
}

/// Computes the subtotal of each group that has a die in the total, unless
/// one of them cannot be held in an `i32`.
pub fn grouped_sums(rolls: &Vec<SuccessCountingRulesApplied>) -> (r: Option<HashMap<i32, i32>>)
    ensures
        r.is_some() <==> forall|group: i32| #[trigger]
            has_counted(classified_outcomes(rolls@), group) ==> fits_i32(
                group_total(classified_outcomes(rolls@), group),
            ),
        r matches Some(grouped) ==> grouped@ == grouped_subtotals_of(classified_outcomes(rolls@)),
{
    let ghost all = classified_outcomes(rolls@);
    let mut grouped: HashMap<i32, i32> = HashMap::new();
    let mut i: usize = 0;
    while i < rolls.len()
        invariant
            i <= rolls.len(),
            all == classified_outcomes(rolls@),
            forall|group: i32| #[trigger]
                grouped@.contains_key(group) <==> has_counted(all.take(i as int), group),
            forall|group: i32| #[trigger]
                grouped@.contains_key(group) ==> fits_i32(group_total(all, group))
                    && grouped@[group] == group_total(all, group),
        decreases rolls.len() - i,
    {
        let group: i32 = rolls[i].group;
        proof {
            assert forall|g: i32|
                has_counted(all.take(i + 1), g) <==> #[trigger] has_counted(all.take(i as int), g)
                    || (all[i as int].group == g && all[i as int].counts_toward_total()) by {
                lemma_has_counted_step(all, i as int, g);
            }
        }
        if rolls[i].counts_toward_total() && !grouped.contains_key(&group) {
            let sum = group_sum(rolls, group);
            if sum < -0x8000_0000 || sum > 0x7fff_ffff {
                assert(all[i as int].group == group && all[i as int].counts_toward_total());
                assert(has_counted(all, group));
                return None;
            }
            grouped.insert(group, sum as i32);
        }
        assert forall|g: i32| #[trigger]
            grouped@.contains_key(g) <==> has_counted(all.take(i + 1), g) by {
            lemma_has_counted_step(all, i as int, g);
        }
        i = i + 1;
    }
    assert(all.take(i as int) =~= all);
    assert forall|g: i32| #[trigger] has_counted(all, g) implies fits_i32(group_total(all, g)) by {
        assert(grouped@.contains_key(g));
    }
    assert(grouped@ =~= grouped_subtotals_of(all));
    Some(grouped)
}

/// Half of `total`, rounded down, and whether a half is left over.
pub fn halve(total: i32) -> (r: HalfValue)
    ensures
        r == half_of(total as int),
        2 * r.whole + (if r.half { 1int } else { 0int }) == total,
{
    if total >= 0 {
        HalfValue { whole: total / 2, half: total % 2 == 1 }
    } else {
        let below: i32 = -(total + 1);
        HalfValue { whole: -(below / 2) - 1, half: below % 2 == 0 }
    }
}

/// Whether every total of the evaluation can be held in an `i32`, which
/// `SuccessCountingAfterResultKeeping::new` asks for.
pub fn can_aggregate(
    rolls: &Vec<SuccessCountingRulesApplied>,
    deductions_from_failure: u32,
    subtractions_from_failure: u32,
    margin_of_success: u32,
    initial_modifier: i32,
) -> (r: bool)
    ensures
        r == aggregable(
            classified_outcomes(rolls@),
            deductions_from_failure,
            subtractions_from_failure,
            margin_of_success,
            initial_modifier,
        ),
{
    let final_modifier: i64 = initial_modifier as i64 - deductions_from_failure as i64
        - subtractions_from_failure as i64 - margin_of_success as i64;
    if final_modifier < -0x8000_0000 || final_modifier > 0x7fff_ffff {
        return false;
    }
    if grouped_sums(rolls).is_none() {
        return false;
    }
    let before = grand_sum(rolls);
    if before < -0x8000_0000 || before > 0x7fff_ffff {
        return false;
    }
    let total: i128 = before + final_modifier as i128;
    -0x4000_0000 <= total && total <= 0x3fff_ffff
}

impl SuccessCountingAfterResultKeeping {
    /// Folds the judged dice into the totals: the subtotal of each group, the
    /// total before and after the modifier that the penalties leave, its
    /// double and its half.
    pub fn new(
        rolls: Vec<SuccessCountingRulesApplied>,
        deductions_from_failure: u32,
        subtractions_from_failure: u32,
        margin_of_success: u32,
        initial_modifier: i32,
        successes: u32,
        failures: u32,
        evens: u32,
        odds: u32,
    ) -> (r: Self)
        requires
            aggregable(
                classified_outcomes(rolls@),
                deductions_from_failure,
                subtractions_from_failure,
                margin_of_success,
                initial_modifier,
            ),
        ensures
            r.rolls@ == rolls@,
            r@ == aggregate(
                classified_outcomes(rolls@),
                deductions_from_failure,
                subtractions_from_failure,
                margin_of_success,
                initial_modifier,
                successes,
                failures,
                evens,
                odds,
            ),
    {
        let grouped_subtotals = grouped_sums(&rolls).unwrap();
        let final_modifier: i32 = (initial_modifier as i64 - deductions_from_failure as i64
            - subtractions_from_failure as i64 - margin_of_success as i64) as i32;
        let total_before_modifier: i32 = grand_sum(&rolls) as i32;
        let total: i32 = total_before_modifier + final_modifier;
        Self {
            rolls,
            deductions_from_failure,
            subtractions_from_failure,
            margin_of_success,
            initial_modifier,
            final_modifier,
            grouped_subtotals,
            total_before_modifier,
            total,
            doubled: total * 2,
            halved: halve(total),
            successes,
            failures,
            evens,
            odds,
        }
    }
}

/// The sum of the values that `subtotals` holds for the groups `groups`.
pub open spec fn sum_of_groups(subtotals: Map<i32, i32>, groups: Seq<i32>) -> int
    decreases groups.len(),
{
    if groups.len() == 0 {
        0
    } else {
        sum_of_groups(subtotals, groups.drop_last()) + subtotals[groups.last()]
    }
}

/// What the dice of the groups `groups` add to the total.
pub open spec fn groups_total(rolls: Seq<ClassifiedOutcome>, groups: Seq<i32>) -> int
    decreases groups.len(),
{
    if groups.len() == 0 {
        0
    } else {
        groups_total(rolls, groups.drop_last()) + group_total(rolls, groups.last())
    }
}

/// One more die adds what it contributes to the groups, where its own
/// group is among them.
proof fn lemma_groups_total_push(
    rolls: Seq<ClassifiedOutcome>,
    roll: ClassifiedOutcome,
    groups: Seq<i32>,
)
    requires
        groups.no_duplicates(),
    ensures
        groups_total(rolls.push(roll), groups) == groups_total(rolls, groups) + if groups.contains(
            roll.group,
        ) {
            roll.contribution()
        } else {
            0
        },
    decreases groups.len(),
{
    if groups.len() > 0 {
        let fewer = groups.drop_last();
        let last = groups.last();
        lemma_groups_total_push(rolls, roll, fewer);
        assert(rolls.push(roll).drop_last() =~= rolls);
        if fewer.contains(roll.group) {
            let i = choose|i: int| 0 <= i < fewer.len() && fewer[i] == roll.group;
            assert(groups[i] == roll.group);
            assert(groups[groups.len() - 1] == last);
        } else if last == roll.group {
            assert(groups[groups.len() - 1] == roll.group);
        } else if groups.contains(roll.group) {
            let i = choose|i: int| 0 <= i < groups.len() && groups[i] == roll.group;
            assert(fewer[i] == roll.group);
        }
    }
}

/// The dice of groups that are named once each, and that hold every die of
/// the total, add up to the total.
pub proof fn lemma_groups_make_total(rolls: Seq<ClassifiedOutcome>, groups: Seq<i32>)
    requires
        groups.no_duplicates(),
        forall|group: i32| #[trigger] has_counted(rolls, group) ==> groups.contains(group),
    ensures
        groups_total(rolls, groups) == grand_total(rolls),
    decreases rolls.len(),
{
    if rolls.len() == 0 {
        lemma_groups_total_of_nothing(rolls, groups);
    } else {
        let fewer = rolls.drop_last();
        let roll = rolls.last();
        assert(fewer.push(roll) =~= rolls);
        assert forall|group: i32| #[trigger] has_counted(fewer, group) implies groups.contains(
            group,
        ) by {
            let i = choose|i: int|
                0 <= i < fewer.len() && (#[trigger] fewer[i]).group == group
                    && fewer[i].counts_toward_total();
            assert(rolls[i] == fewer[i]);
            assert(has_counted(rolls, group));
        }
        lemma_groups_make_total(fewer, groups);
        lemma_groups_total_push(fewer, roll, groups);
        if roll.counts_toward_total() {
            assert(rolls[rolls.len() - 1] == roll);
            assert(has_counted(rolls, roll.group));
        }
    }
}

/// Without dice the groups add nothing.
proof fn lemma_groups_total_of_nothing(rolls: Seq<ClassifiedOutcome>, groups: Seq<i32>)
    requires
        rolls.len() == 0,
    ensures
        groups_total(rolls, groups) == 0,
    decreases groups.len(),
{
    if groups.len() > 0 {
        lemma_groups_total_of_nothing(rolls, groups.drop_last());
    }
}

/// The total before the modifier is the sum of the subtotals that are held
/// for the groups, each group taken once.
pub proof fn lemma_total_is_sum_of_groups(rolls: Seq<ClassifiedOutcome>, groups: Seq<i32>)
    requires
        groups.no_duplicates(),
        forall|group: i32|
            grouped_subtotals_of(rolls).contains_key(group) <==> #[trigger] groups.contains(group),
        forall|group: i32| #[trigger]
            has_counted(rolls, group) ==> fits_i32(group_total(rolls, group)),
    ensures
        sum_of_groups(grouped_subtotals_of(rolls), groups) == grand_total(rolls),
{
    assert forall|group: i32| #[trigger] has_counted(rolls, group) implies groups.contains(
        group,
    ) by {
        assert(grouped_subtotals_of(rolls).contains_key(group));
    }
    lemma_groups_make_total(rolls, groups);
    assert forall|i: int| 0 <= i < groups.len() implies has_counted(rolls, #[trigger] groups[i]) by {
        assert(groups.contains(groups[i]));
        assert(grouped_subtotals_of(rolls).contains_key(groups[i]));
    }
    lemma_sum_of_groups_is_groups_total(rolls, groups, groups.len() as int);
    assert(groups.take(groups.len() as int) =~= groups);
}

/// The subtotals that are held for groups are what their dice add to the
/// total.
proof fn lemma_sum_of_groups_is_groups_total(
    rolls: Seq<ClassifiedOutcome>,
    groups: Seq<i32>,
    n: int,
)
    requires
        0 <= n <= groups.len(),
        forall|i: int| 0 <= i < groups.len() ==> has_counted(rolls, #[trigger] groups[i]),
        forall|group: i32| #[trigger]
            has_counted(rolls, group) ==> fits_i32(group_total(rolls, group)),
    ensures
        sum_of_groups(grouped_subtotals_of(rolls), groups.take(n)) == groups_total(
            rolls,
            groups.take(n),
        ),
    decreases n,
{
    if n > 0 {
        lemma_sum_of_groups_is_groups_total(rolls, groups, n - 1);
        assert(groups.take(n).drop_last() =~= groups.take(n - 1));
        assert(groups.take(n).last() == groups[n - 1]);
        assert(has_counted(rolls, groups[n - 1]));
    }
}

} // verus!
