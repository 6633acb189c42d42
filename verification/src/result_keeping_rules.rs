use crate::ordering::{
    is_stable_order, lemma_equal_keys_keep_their_order, lemma_stable_order_unique,
    lemma_stable_ranking, precedes, stable_order, stable_ranking,
};
use crate::roll_command::{sum_of, InitialDiceRollResult, RawOutcome};
use vstd::prelude::*;

verus! {

/// Which dice of a rolled set count, by rank, and a floor or ceiling that
/// their values are brought to.
#[derive(Clone, Copy)]
pub struct ResultKeepingRules {
    keep: bool,
    high: bool,
    keep_or_drop_count: u32,
    be_replaced_with: Option<u32>,
    min: bool,
}

/// The mathematical value of a `ResultKeepingRules`: with `keep` and `high`
/// the highest `keep_or_drop_count` dice are kept, with `keep` alone the
/// lowest; without `keep` that many are dropped instead.
pub struct KeepRule {
    pub keep: bool,
    pub high: bool,
    pub keep_or_drop_count: u32,
    pub be_replaced_with: Option<u32>,
    pub min: bool,
}

/// The outcome of one die after keep/drop selection and replacement.
pub struct ResultKeepingRulesApplied {
    pub group: i32,
    pub sign: i32,
    pub roll_number: u32,
    pub dice_size: u32,
    pub final_roll: u32,
    pub discarded_rolls: Vec<u32>,
    pub exploded_rolls: Vec<u32>,
    pub subtotal: i32,
    pub kept: bool,
    pub replaced_roll: Option<u32>,
}

/// The mathematical value of a `ResultKeepingRulesApplied`.
pub struct KeptOutcome {
    pub group: i32,
    pub sign: i32,
    pub roll_number: u32,
    pub dice_size: u32,
    pub final_roll: u32,
    pub discarded: Seq<u32>,
    pub exploded: Seq<u32>,
    pub subtotal: i32,
    pub kept: bool,
    pub replaced_roll: Option<u32>,
}

impl KeptOutcome {
    /// The subtotal is the final value plus everything gained by exploding.
    pub open spec fn consistent(self) -> bool {
        self.subtotal == self.final_roll + sum_of(self.exploded)
    }

    /// The value that the die had before replacement.
    pub open spec fn rolled_value(self) -> u32 {
        match self.replaced_roll {
            Some(value) => value,
            None => self.final_roll,
        }
    }

    /// The outcome without its selection and replacement marks.
    pub open spec fn raw(self) -> RawOutcome {
        RawOutcome {
            group: self.group,
            sign: self.sign,
            roll_number: self.roll_number,
            dice_size: self.dice_size,
            final_roll: self.final_roll,
            discarded: self.discarded,
            exploded: self.exploded,
            subtotal: self.subtotal,
        }
    }
}

impl RawOutcome {
    /// The outcome marked as kept, with nothing replaced.
    pub open spec fn kept_as_is(self) -> KeptOutcome {
        KeptOutcome {
            group: self.group,
            sign: self.sign,
            roll_number: self.roll_number,
            dice_size: self.dice_size,
            final_roll: self.final_roll,
            discarded: self.discarded,
            exploded: self.exploded,
            subtotal: self.subtotal,
            kept: true,
            replaced_roll: None,
        }
    }
}

impl View for ResultKeepingRulesApplied {
    type V = KeptOutcome;

    open spec fn view(&self) -> KeptOutcome {
        KeptOutcome {
            group: self.group,
            sign: self.sign,
            roll_number: self.roll_number,
            dice_size: self.dice_size,
            final_roll: self.final_roll,
            discarded: self.discarded_rolls@,
            exploded: self.exploded_rolls@,
            subtotal: self.subtotal,
            kept: self.kept,
            replaced_roll: self.replaced_roll,
        }
    }
}

impl Clone for ResultKeepingRulesApplied {
    fn clone(&self) -> (r: Self)
        ensures
            r@ == self@,
    {
        let discarded_rolls = self.discarded_rolls.clone();
        let exploded_rolls = self.exploded_rolls.clone();
        assert(discarded_rolls@ =~= self.discarded_rolls@);
        assert(exploded_rolls@ =~= self.exploded_rolls@);
        ResultKeepingRulesApplied {
            group: self.group,
            sign: self.sign,
            roll_number: self.roll_number,
            dice_size: self.dice_size,
            final_roll: self.final_roll,
            discarded_rolls,
            exploded_rolls,
            subtotal: self.subtotal,
            kept: self.kept,
            replaced_roll: self.replaced_roll,
        }
    }
}

impl ResultKeepingRulesApplied {
    pub fn new(
        group: i32,
        sign: i32,
        roll_number: u32,
        dice_size: u32,
        final_roll: u32,
        discarded_rolls: Vec<u32>,
        exploded_rolls: Vec<u32>,
        subtotal: i32,
        kept: bool,
        replaced_roll: Option<u32>,
    ) -> (r: Self)
        ensures
            r@ == (KeptOutcome {
                group,
                sign,
                roll_number,
                dice_size,
                final_roll,
                discarded: discarded_rolls@,
                exploded: exploded_rolls@,
                subtotal,
                kept,
                replaced_roll,
            }),
    {
        Self {
            group,
            sign,
            roll_number,
            dice_size,
            final_roll,
            discarded_rolls,
            exploded_rolls,
            subtotal,
            kept,
            replaced_roll,
        }
    }
}

/// The values of a list of roll outcomes.
pub open spec fn raw_outcomes(rolls: Seq<InitialDiceRollResult>) -> Seq<RawOutcome> {
    Seq::new(rolls.len(), |i: int| rolls[i]@)
}

/// The values of a list of outcomes after selection.
pub open spec fn kept_outcomes(rolls: Seq<ResultKeepingRulesApplied>) -> Seq<KeptOutcome> {
    Seq::new(rolls.len(), |i: int| rolls[i]@)
}

/// The final values of a list of outcomes.
pub open spec fn final_rolls(outcomes: Seq<RawOutcome>) -> Seq<u32> {
    Seq::new(outcomes.len(), |i: int| outcomes[i].final_roll)
}

impl KeepRule {
    /// Whether the die at rank `rank` of the sorted set is kept.
    pub open spec fn keeps(self, rank: int) -> bool {
        if self.keep_or_drop_count == 0 {
            true
        } else if self.keep {
            rank < self.keep_or_drop_count
        } else {
            rank >= self.keep_or_drop_count
        }
    }

    /// The value that replaces `value`, if the floor or ceiling applies to it.
    pub open spec fn replacement(self, value: u32) -> Option<u32> {
        match self.be_replaced_with {
            Some(limit) => if self.min && value < limit || !self.min && value > limit {
                Some(limit)
            } else {
                None
            },
            None => None,
        }
    }

    /// The value of a die after replacement.
    pub open spec fn replaced(self, value: u32) -> u32 {
        match self.replacement(value) {
            Some(limit) => limit,
            None => value,
        }
    }

    /// The subtotal of `outcome` after replacement.
    pub open spec fn new_subtotal(self, outcome: RawOutcome) -> int {
        outcome.subtotal - outcome.final_roll + self.replaced(outcome.final_roll)
    }

    /// The subtotal of `outcome` after replacement can be recorded.
    pub open spec fn fits(self, outcome: RawOutcome) -> bool {
        i32::MIN <= self.new_subtotal(outcome) <= i32::MAX
    }

    /// What `outcome` becomes at rank `rank` of the sorted set.
    pub open spec fn applied(self, outcome: RawOutcome, rank: int) -> KeptOutcome {
        KeptOutcome {
            group: outcome.group,
            sign: outcome.sign,
            roll_number: outcome.roll_number,
            dice_size: outcome.dice_size,
            final_roll: self.replaced(outcome.final_roll),
            discarded: outcome.discarded,
            exploded: outcome.exploded,
            subtotal: self.new_subtotal(outcome) as i32,
            kept: self.keeps(rank),
            replaced_roll: if self.replacement(outcome.final_roll).is_some() {
                Some(outcome.final_roll)
            } else {
                None
            },
        }
    }

    /// The rank of each die: positions sorted by final value, highest first
    /// for `high` and lowest first otherwise, equal values in rolled order.
    pub open spec fn ranking(self, outcomes: Seq<RawOutcome>) -> Seq<usize> {
        stable_ranking(final_rolls(outcomes), self.high)
    }

    /// The outcomes in rank order, each with its selection and replacement.
    pub open spec fn processed(self, outcomes: Seq<RawOutcome>) -> Seq<KeptOutcome> {
        Seq::new(
            outcomes.len(),
            |rank: int| self.applied(outcomes[self.ranking(outcomes)[rank] as int], rank),
        )
    }
}

impl View for ResultKeepingRules {
    type V = KeepRule;

    closed spec fn view(&self) -> KeepRule {
        KeepRule {
            keep: self.keep,
            high: self.high,
            keep_or_drop_count: self.keep_or_drop_count,
            be_replaced_with: self.be_replaced_with,
            min: self.min,
        }
    }
}

impl ResultKeepingRules {
    pub fn new(
        keep: bool,
        high: bool,
        keep_or_drop_count: u32,
        be_replaced_with: Option<u32>,
        min: bool,
    ) -> (r: Self)
        ensures
            r@ == (KeepRule { keep, high, keep_or_drop_count, be_replaced_with, min }),
    {
        Self { keep, high, keep_or_drop_count, be_replaced_with, min }
    }

    /// Whether the die at position `index` of the sorted set is kept.
    pub fn should_keep_roll(&self, index: usize) -> (r: bool)
        ensures
            r == self@.keeps(index as int),
    {
        if self.keep_or_drop_count == 0 {
            return true;
        }
        let within_limit = index < self.keep_or_drop_count as usize;
        if self.keep {
            within_limit
        } else {
            !within_limit
        }
    }

    /// The floor or ceiling, where it replaces `roll_value`.
    pub fn replacement_roll(&self, roll_value: u32) -> (r: Option<u32>)
        ensures
            r == self@.replacement(roll_value),
    {
        if let Some(replacement) = self.be_replaced_with {
            if self.min && roll_value < replacement || !self.min && roll_value > replacement {
                return Some(replacement);
            }
        }
        None
    }

    /// Whether every subtotal can be recorded after replacement, which
    /// `process_results` asks for.
    pub fn can_process(&self, dice_rolls: &[InitialDiceRollResult]) -> (r: bool)
        ensures
            r == forall|i: int| 0 <= i < dice_rolls.len() ==> self@.fits(#[trigger] dice_rolls[i]@),
    {
        let mut i: usize = 0;
        while i < dice_rolls.len()
            invariant
                i <= dice_rolls.len(),
                forall|k: int| 0 <= k < i ==> self@.fits(#[trigger] dice_rolls[k]@),
            decreases dice_rolls.len() - i,
        {
            let roll = &dice_rolls[i];
            let final_roll: u32 = match self.replacement_roll(roll.final_roll) {
                Some(limit) => limit,
                None => roll.final_roll,
            };
            let subtotal: i64 = roll.subtotal as i64 - roll.final_roll as i64 + final_roll as i64;
            if subtotal < -0x8000_0000 || subtotal > 0x7fff_ffff {
                assert(!self@.fits(dice_rolls[i as int]@));
                return false;
            }
            i = i + 1;
        }
        true
    }

    /// Ranks the dice by final value and gives each its selection and
    /// replacement: the result lists the dice in rank order, one record for
    /// each die. With the count zero every die is kept. Keeping the highest
    /// `n` of at least `n` dice, for a positive `n`, keeps the first `n` of the
    /// ranking, which no dropped die beats; of dice with equal values the one
    /// rolled earlier ranks first. Under a floor no die ends below
    /// it, under a ceiling none above it, and each die that is replaced
    /// reports the value that it had.
    pub fn process_results(&self, dice_rolls: &[InitialDiceRollResult]) -> (processed: Vec<
        ResultKeepingRulesApplied,
    >)
        requires
            forall|i: int| 0 <= i < dice_rolls.len() ==> self@.fits(#[trigger] dice_rolls[i]@),
        ensures
            processed.len() == dice_rolls.len(),
            kept_outcomes(processed@) == self@.processed(raw_outcomes(dice_rolls@)),
            is_stable_order(
                final_rolls(raw_outcomes(dice_rolls@)),
                self@.high,
                self@.ranking(raw_outcomes(dice_rolls@)),
            ),
            forall|rank: int|
                0 <= rank < processed.len() ==> (#[trigger] processed[rank])@ == self@.applied(
                    dice_rolls[self@.ranking(raw_outcomes(dice_rolls@))[rank] as int]@,
                    rank,
                ),
            forall|a: int, b: int|
                0 <= a < processed.len() && 0 <= b < processed.len() && (
                #[trigger] processed[a])@.rolled_value() == (#[trigger] processed[b])@.rolled_value()
                    && self@.ranking(raw_outcomes(dice_rolls@))[a] < self@.ranking(
                    raw_outcomes(dice_rolls@),
                )[b] ==> a < b,
            self@.keep_or_drop_count == 0 ==> forall|rank: int|
                0 <= rank < processed.len() ==> (#[trigger] processed[rank]).kept,
            self@.keep && self@.high && 1 <= self@.keep_or_drop_count <= dice_rolls.len() ==> {
                &&& kept_count(kept_outcomes(processed@)) == self@.keep_or_drop_count
                &&& forall|rank: int|
                    0 <= rank < processed.len() ==> ((#[trigger] processed[rank]).kept <==> rank
                        < self@.keep_or_drop_count)
                &&& forall|a: int, b: int|
                    0 <= a < processed.len() && 0 <= b < processed.len() && (
                    #[trigger] processed[a]).kept && !(#[trigger] processed[b]).kept
                        ==> processed[a]@.rolled_value() >= processed[b]@.rolled_value()
            },
            self@.be_replaced_with matches Some(limit) ==> forall|rank: int|
                0 <= rank < processed.len() ==> {
                    let before = dice_rolls[self@.ranking(
                        raw_outcomes(dice_rolls@),
                    )[rank] as int].final_roll;
                    let after = #[trigger] processed[rank];
                    let beyond = if self@.min {
                        before < limit
                    } else {
                        before > limit
                    };
                    &&& if self@.min {
                        after.final_roll >= limit
                    } else {
                        after.final_roll <= limit
                    }
                    &&& beyond ==> after.final_roll == limit && after.replaced_roll == Some(before)
                    &&& !beyond ==> after.final_roll == before && after.replaced_roll.is_none()
                },
            (forall|i: int| 0 <= i < dice_rolls.len() ==> (#[trigger] dice_rolls[i])@.consistent())
                ==> forall|rank: int|
                0 <= rank < processed.len() ==> (#[trigger] processed[rank])@.consistent(),
    {
        let mut finals: Vec<u32> = Vec::new();
        let mut i: usize = 0;
        while i < dice_rolls.len()
            invariant
                i <= dice_rolls.len(),
                finals.len() == i,
                forall|k: int| 0 <= k < i ==> finals[k] == dice_rolls[k].final_roll,
            decreases dice_rolls.len() - i,
        {
            finals.push(dice_rolls[i].final_roll);
            i = i + 1;
        }
        assert(finals@ =~= final_rolls(raw_outcomes(dice_rolls@)));
        let order = stable_order(&finals, self.high);
        let mut processed: Vec<ResultKeepingRulesApplied> = Vec::new();
        let mut rank: usize = 0;
        while rank < order.len()
            invariant
                rank <= order.len(),
                order.len() == dice_rolls.len(),
                is_stable_order(finals@, self@.high, order@),
                finals.len() == dice_rolls.len(),
                order@ == self@.ranking(raw_outcomes(dice_rolls@)),
                forall|i: int| 0 <= i < dice_rolls.len() ==> self@.fits(#[trigger] dice_rolls[i]@),
                processed.len() == rank,
                forall|k: int|
                    0 <= k < rank ==> (#[trigger] processed[k])@ == self@.applied(
                        dice_rolls[order[k] as int]@,
                        k,
                    ),
            decreases order.len() - rank,
        {
            let roll = &dice_rolls[order[rank]];
            assert(self@.fits(roll@));
            let should_keep = self.should_keep_roll(rank);
            let replacement_roll = self.replacement_roll(roll.final_roll);
            let final_roll: u32 = match replacement_roll {
                Some(limit) => limit,
                None => roll.final_roll,
            };
            let subtotal: i32 = (roll.subtotal as i64 - roll.final_roll as i64 + final_roll as i64) as i32;
            let replaced_roll = if replacement_roll.is_some() {
                Some(roll.final_roll)
            } else {
                None
            };
            let discarded_rolls = roll.discarded_rolls.clone();
            let exploded_rolls = roll.exploded_rolls.clone();
            assert(discarded_rolls@ =~= roll.discarded_rolls@);
            assert(exploded_rolls@ =~= roll.exploded_rolls@);
            processed.push(
                ResultKeepingRulesApplied::new(
                    roll.group,
                    roll.sign,
                    roll.roll_number,
                    roll.dice_size,
                    final_roll,
                    discarded_rolls,
                    exploded_rolls,
                    subtotal,
                    should_keep,
                    replaced_roll,
                ),
            );
            rank = rank + 1;
        }
        assert(kept_outcomes(processed@) =~= self@.processed(raw_outcomes(dice_rolls@)));
        proof {
            let rolled = raw_outcomes(dice_rolls@);
            let listed = kept_outcomes(processed@);
            lemma_processed_ranks_every_die(self@, rolled);
            assert forall|rank: int| 0 <= rank < processed.len() implies (#[trigger] processed[rank])@
                == listed[rank] && self@.applied(
                dice_rolls[self@.ranking(rolled)[rank] as int]@,
                rank,
            ) == listed[rank] by {
                assert(rolled[self@.ranking(rolled)[rank] as int]
                    == dice_rolls[self@.ranking(rolled)[rank] as int]@);
            }
            assert forall|a: int, b: int|
                0 <= a < processed.len() && 0 <= b < processed.len() && (
                #[trigger] processed[a])@.rolled_value() == (#[trigger] processed[b])@.rolled_value()
                    && self@.ranking(rolled)[a] < self@.ranking(rolled)[b] implies a < b by {
                assert(processed[a]@ == listed[a] && processed[b]@ == listed[b]);
                lemma_equal_keys_keep_their_order(
                    final_rolls(rolled),
                    self@.high,
                    self@.ranking(rolled),
                    a,
                    b,
                );
            }
            if self@.keep_or_drop_count == 0 {
                lemma_zero_count_keeps_all(self@, rolled);
            }
            if self@.keep && self@.high && 1 <= self@.keep_or_drop_count <= dice_rolls.len() {
                lemma_keep_high_keeps_largest(self@, rolled);
                assert forall|a: int, b: int|
                    0 <= a < processed.len() && 0 <= b < processed.len() && (
                    #[trigger] processed[a]).kept && !(#[trigger] processed[b]).kept implies processed[a]@.rolled_value()
                    >= processed[b]@.rolled_value() by {
                    assert(processed[a]@ == listed[a] && processed[b]@ == listed[b]);
                    assert(precedes(
                        final_rolls(rolled),
                        true,
                        self@.ranking(rolled)[a] as int,
                        self@.ranking(rolled)[b] as int,
                    ));
                }
            }
            if forall|i: int| 0 <= i < dice_rolls.len() ==> (#[trigger] dice_rolls[i])@.consistent() {
                assert forall|i: int| 0 <= i < rolled.len() implies (#[trigger] rolled[i]).consistent()
                    && self@.fits(rolled[i]) by {
                    assert(rolled[i] == dice_rolls[i]@);
                }
                lemma_processed_consistent(self@, rolled);
            }
        }
        processed
    }
}

/// The outcomes without their selection and replacement marks.
pub open spec fn raw_parts(outcomes: Seq<KeptOutcome>) -> Seq<RawOutcome> {
    Seq::new(outcomes.len(), |i: int| outcomes[i].raw())
}

/// The number of outcomes that are kept.
pub open spec fn kept_count(outcomes: Seq<KeptOutcome>) -> nat
    decreases outcomes.len(),
{
    if outcomes.len() == 0 {
        0
    } else {
        kept_count(outcomes.drop_last()) + if outcomes.last().kept {
            1nat
        } else {
            0nat
        }
    }
}

/// Where exactly the first `n` outcomes are kept, `n` outcomes are kept.
proof fn lemma_kept_count_of_prefix(outcomes: Seq<KeptOutcome>, n: int)
    requires
        0 <= n <= outcomes.len(),
        forall|i: int| 0 <= i < outcomes.len() ==> ((#[trigger] outcomes[i]).kept <==> i < n),
    ensures
        kept_count(outcomes) == n,
    decreases outcomes.len(),
{
    if outcomes.len() > 0 {
        let fewer = outcomes.drop_last();
        assert forall|i: int| 0 <= i < fewer.len() implies ((#[trigger] fewer[i]).kept <==> i < n) by {
            assert(fewer[i] == outcomes[i]);
        }
        if n == outcomes.len() {
            lemma_kept_count_of_prefix(fewer, n - 1);
        } else {
            lemma_kept_count_of_prefix(fewer, n);
        }
    }
}

/// The result of processing lists every die once, in the stable order of
/// the final values that the dice had before replacement.
pub proof fn lemma_processed_ranks_every_die(rule: KeepRule, outcomes: Seq<RawOutcome>)
    requires
        outcomes.len() <= usize::MAX,
    ensures
        rule.processed(outcomes).len() == outcomes.len(),
        is_stable_order(final_rolls(outcomes), rule.high, rule.ranking(outcomes)),
{
    lemma_stable_ranking(final_rolls(outcomes), rule.high);
}

/// A rule with the count zero keeps every die, whatever its direction.
pub proof fn lemma_zero_count_keeps_all(rule: KeepRule, outcomes: Seq<RawOutcome>)
    requires
        rule.keep_or_drop_count == 0,
    ensures
        forall|rank: int|
            0 <= rank < outcomes.len() ==> (#[trigger] rule.processed(outcomes)[rank]).kept,
        kept_count(rule.processed(outcomes)) == outcomes.len(),
{
    lemma_kept_count_of_prefix(rule.processed(outcomes), outcomes.len() as int);
}

/// Keeping the highest `n` of at least `n` dice, for a positive `n`, keeps
/// exactly `n` dice, and they are the `n` largest: each kept die had a larger
/// final value than each dropped die, or an equal one and was rolled earlier.
pub proof fn lemma_keep_high_keeps_largest(rule: KeepRule, outcomes: Seq<RawOutcome>)
    requires
        rule.keep,
        rule.high,
        1 <= rule.keep_or_drop_count <= outcomes.len() <= usize::MAX,
    ensures
        kept_count(rule.processed(outcomes)) == rule.keep_or_drop_count,
        forall|rank: int|
            0 <= rank < outcomes.len() ==> ((#[trigger] rule.processed(outcomes)[rank]).kept <==> rank
                < rule.keep_or_drop_count),
        is_stable_order(final_rolls(outcomes), true, rule.ranking(outcomes)),
        forall|i: int, j: int|
            0 <= i < rule.keep_or_drop_count <= j < outcomes.len() ==> precedes(
                final_rolls(outcomes),
                true,
                #[trigger] rule.ranking(outcomes)[i] as int,
                #[trigger] rule.ranking(outcomes)[j] as int,
            ),
{
    lemma_processed_ranks_every_die(rule, outcomes);
    lemma_kept_count_of_prefix(rule.processed(outcomes), rule.keep_or_drop_count as int);
}

/// Under a floor `limit` no die ends below `limit`, each die that was below
/// it reports the value that it had, and no other die is changed.
pub proof fn lemma_floor_replacement(rule: KeepRule, outcomes: Seq<RawOutcome>, limit: u32)
    requires
        rule.be_replaced_with == Some(limit),
        rule.min,
        outcomes.len() <= usize::MAX,
    ensures
        is_stable_order(final_rolls(outcomes), rule.high, rule.ranking(outcomes)),
        forall|rank: int|
            0 <= rank < outcomes.len() ==> {
                let before = outcomes[rule.ranking(outcomes)[rank] as int].final_roll;
                let after = #[trigger] rule.processed(outcomes)[rank];
                &&& after.final_roll >= limit
                &&& before < limit ==> after.final_roll == limit && after.replaced_roll == Some(
                    before,
                )
                &&& before >= limit ==> after.final_roll == before && after.replaced_roll.is_none()
            },
{
    lemma_processed_ranks_every_die(rule, outcomes);
}

/// Under a ceiling `limit` no die ends above `limit`, each die that was
/// above it reports the value that it had, and no other die is changed.
pub proof fn lemma_ceiling_replacement(rule: KeepRule, outcomes: Seq<RawOutcome>, limit: u32)
    requires
        rule.be_replaced_with == Some(limit),
        !rule.min,
        outcomes.len() <= usize::MAX,
    ensures
        is_stable_order(final_rolls(outcomes), rule.high, rule.ranking(outcomes)),
        forall|rank: int|
            0 <= rank < outcomes.len() ==> {
                let before = outcomes[rule.ranking(outcomes)[rank] as int].final_roll;
                let after = #[trigger] rule.processed(outcomes)[rank];
                &&& after.final_roll <= limit
                &&& before > limit ==> after.final_roll == limit && after.replaced_roll == Some(
                    before,
                )
                &&& before <= limit ==> after.final_roll == before && after.replaced_roll.is_none()
            },
{
    lemma_processed_ranks_every_die(rule, outcomes);
}

/// Dice whose subtotal is their final value plus their exploded values keep
/// that relation through processing, with the final value after replacement.
pub proof fn lemma_processed_consistent(rule: KeepRule, outcomes: Seq<RawOutcome>)
    requires
        outcomes.len() <= usize::MAX,
        forall|i: int|
            0 <= i < outcomes.len() ==> (#[trigger] outcomes[i]).consistent() && rule.fits(
                outcomes[i],
            ),
    ensures
        forall|rank: int|
            0 <= rank < outcomes.len() ==> (#[trigger] rule.processed(outcomes)[rank]).consistent(),
{
    lemma_processed_ranks_every_die(rule, outcomes);
    assert forall|rank: int| 0 <= rank < outcomes.len() implies (#[trigger] rule.processed(
        outcomes,
    )[rank]).consistent() by {
        let from = rule.ranking(outcomes)[rank] as int;
        assert(outcomes[from].consistent() && rule.fits(outcomes[from]));
    }
}

/// A rule with the count zero and no replacement changes no die: each comes
/// out as it went in, marked as kept. Processing the result again, under
/// such a rule, gives the same list in the same order.
pub proof fn lemma_plain_rule_is_idempotent(rule: KeepRule, outcomes: Seq<RawOutcome>)
    requires
        rule.keep_or_drop_count == 0,
        rule.be_replaced_with.is_none(),
        outcomes.len() <= usize::MAX,
    ensures
        is_stable_order(final_rolls(outcomes), rule.high, rule.ranking(outcomes)),
        forall|rank: int|
            0 <= rank < outcomes.len() ==> #[trigger] rule.processed(outcomes)[rank]
                == outcomes[rule.ranking(outcomes)[rank] as int].kept_as_is(),
        rule.processed(raw_parts(rule.processed(outcomes))) == rule.processed(outcomes),
{
    lemma_processed_ranks_every_die(rule, outcomes);
    let order = rule.ranking(outcomes);
    let keys = final_rolls(outcomes);
    let once = rule.processed(outcomes);
    let again = raw_parts(once);
    let again_keys = final_rolls(again);
    let same = Seq::new(outcomes.len(), |i: int| i as usize);
    assert forall|i: int, j: int| 0 <= i < j < same.len() implies precedes(
        again_keys,
        rule.high,
        #[trigger] same[i] as int,
        #[trigger] same[j] as int,
    ) by {
        assert(precedes(keys, rule.high, order[i] as int, order[j] as int));
    }
    assert forall|a: int| 0 <= a < again_keys.len() implies #[trigger] crate::ordering::occurs(
        same,
        a,
    ) by {
        assert(same[a] == a);
    }
    assert(is_stable_order(again_keys, rule.high, same));
    lemma_processed_ranks_every_die(rule, again);
    lemma_stable_order_unique(again_keys, rule.high, same, rule.ranking(again));
    assert(rule.processed(again) =~= once);
}

} // verus!
