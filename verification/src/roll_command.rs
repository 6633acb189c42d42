use crate::enums::Operator;
use rand::Rng;
use vstd::prelude::*;

verus! {

/// The sum of a sequence of die values.
pub open spec fn sum_of(values: Seq<u32>) -> int
    decreases values.len(),
{
    if values.len() == 0 {
        0
    } else {
        sum_of(values.drop_last()) + values.last()
    }
}

/// The outcome of rolling one die.
pub struct InitialDiceRollResult {
    pub group: i32,
    pub sign: i32,
    pub roll_number: u32,
    pub dice_size: u32,
    pub final_roll: u32,
    pub discarded_rolls: Vec<u32>,
    pub exploded_rolls: Vec<u32>,
    pub subtotal: i32,
}

/// The mathematical value of an `InitialDiceRollResult`.
pub struct RawOutcome {
    pub group: i32,
    pub sign: i32,
    pub roll_number: u32,
    pub dice_size: u32,
    pub final_roll: u32,
    pub discarded: Seq<u32>,
    pub exploded: Seq<u32>,
    pub subtotal: i32,
}

impl RawOutcome {
    /// The subtotal is the final value plus everything gained by exploding.
    pub open spec fn consistent(self) -> bool {
        self.subtotal == self.final_roll + sum_of(self.exploded)
    }
}

impl View for InitialDiceRollResult {
    type V = RawOutcome;

    open spec fn view(&self) -> RawOutcome {
        RawOutcome {
            group: self.group,
            sign: self.sign,
            roll_number: self.roll_number,
            dice_size: self.dice_size,
            final_roll: self.final_roll,
            discarded: self.discarded_rolls@,
            exploded: self.exploded_rolls@,
            subtotal: self.subtotal,
        }
    }
}

impl Clone for InitialDiceRollResult {
    fn clone(&self) -> (r: Self)
        ensures
            r@ == self@,
    {
        let discarded_rolls = self.discarded_rolls.clone();
        let exploded_rolls = self.exploded_rolls.clone();
        assert(discarded_rolls@ =~= self.discarded_rolls@);
        assert(exploded_rolls@ =~= self.exploded_rolls@);
        InitialDiceRollResult {
            group: self.group,
            sign: self.sign,
            roll_number: self.roll_number,
            dice_size: self.dice_size,
            final_roll: self.final_roll,
            discarded_rolls,
            exploded_rolls,
            subtotal: self.subtotal,
        }
    }
}

/// Adding one value to a sequence adds it to the sum.
pub proof fn lemma_sum_of_push(values: Seq<u32>, value: u32)
    ensures
        sum_of(values.push(value)) == sum_of(values) + value,
{
    assert(values.push(value).drop_last() =~= values);
}

/// Sums the values of `values`, or reports that the sum exceeds `limit`.
pub fn checked_sum(values: &Vec<u32>, limit: u32) -> (r: Option<u32>)
    ensures
        r.is_some() <==> sum_of(values@) <= limit,
        r matches Some(total) ==> total == sum_of(values@),
{
    let mut total: u32 = 0;
    let mut i: usize = 0;
    while i < values.len()
        invariant
            i <= values.len(),
            total == sum_of(values@.take(i as int)),
            total <= limit,
        decreases values.len() - i,
    {
        proof {
            assert(values@.take(i + 1) =~= values@.take(i as int).push(values[i as int]));
            lemma_sum_of_push(values@.take(i as int), values[i as int]);
            lemma_sum_of_prefix(values@, i + 1);
        }
        if values[i] > limit - total {
            return None;
        }
        total = total + values[i];
        i = i + 1;
    }
    assert(values@.take(i as int) =~= values@);
    Some(total)
}

/// The sum of a prefix never exceeds the sum of the whole.
pub proof fn lemma_sum_of_prefix(values: Seq<u32>, n: int)
    requires
        0 <= n <= values.len(),
    ensures
        0 <= sum_of(values.take(n)) <= sum_of(values),
    decreases values.len() - n,
{
    if n == values.len() {
        assert(values.take(n) =~= values);
        lemma_sum_of_nonnegative(values);
    } else {
        lemma_sum_of_prefix(values, n + 1);
        assert(values.take(n + 1) =~= values.take(n).push(values[n]));
        lemma_sum_of_push(values.take(n), values[n]);
        lemma_sum_of_nonnegative(values.take(n));
    }
}

/// A sum of die values is never negative.
pub proof fn lemma_sum_of_nonnegative(values: Seq<u32>)
    ensures
        0 <= sum_of(values),
    decreases values.len(),
{
    if values.len() > 0 {
        lemma_sum_of_nonnegative(values.drop_last());
    }
}

impl InitialDiceRollResult {
    /// Records the outcome of one die; the subtotal is the final value plus
    /// the sum of the exploded values.
    pub fn new(
        group: i32,
        sign: i32,
        roll_number: u32,
        dice_size: u32,
        final_roll: u32,
        discarded_rolls: Vec<u32>,
        exploded_rolls: Vec<u32>,
    ) -> (r: InitialDiceRollResult)
        requires
            final_roll + sum_of(exploded_rolls@) <= i32::MAX,
        ensures
            r@ == (RawOutcome {
                group,
                sign,
                roll_number,
                dice_size,
                final_roll,
                discarded: discarded_rolls@,
                exploded: exploded_rolls@,
                subtotal: (final_roll + sum_of(exploded_rolls@)) as i32,
            }),
            r@.consistent(),
    {
        proof {
            lemma_sum_of_nonnegative(exploded_rolls@);
        }
        let bonus: u32 = checked_sum(&exploded_rolls, 0x7fff_ffff).unwrap();
        let subtotal: i32 = (bonus + final_roll) as i32;
        InitialDiceRollResult {
            group,
            sign,
            roll_number,
            dice_size,
            final_roll,
            discarded_rolls,
            exploded_rolls,
            subtotal,
        }
    }
}

/// One term of a dice expression: a batch of dice of one size with the
/// policies under which each of them is rolled.
#[derive(Clone, Copy, Debug)]
pub struct DiceRollCommand {
    group: i32,
    sign: i32,
    dice_count: u32,
    dice_size: u32,
    re_roll: Option<Operator>,
    re_roll_recursively: bool,
    explode: Option<Operator>,
    explode_once: bool,
}

/// The mathematical value of a `DiceRollCommand`.
pub struct RollGroupSpec {
    pub group: i32,
    pub sign: i32,
    pub dice_count: u32,
    pub dice_size: u32,
    pub re_roll: Option<Operator>,
    pub re_roll_recursively: bool,
    pub explode: Option<Operator>,
    pub explode_once: bool,
}

/// What the next draw of a die in progress is for.
#[derive(Clone, Copy, Debug, PartialEq, Eq, Structural)]
pub enum RollStage {
    AwaitingFirst,
    AwaitingReroll,
    AwaitingExplosion,
    Settled,
}

/// The mathematical value of a `RollInProgress`.
pub struct PartialRoll {
    pub stage: RollStage,
    pub final_roll: u32,
    pub discarded: Seq<u32>,
    pub exploded: Seq<u32>,
}

impl RollGroupSpec {
    /// `value` is a face of the die.
    pub open spec fn face(self, value: u32) -> bool {
        1 <= value <= self.dice_size
    }

    /// A die showing `value` is rolled again.
    pub open spec fn rerolls(self, value: u32) -> bool {
        self.re_roll matches Some(op) && op.holds(value)
    }

    /// A die showing `value` explodes.
    pub open spec fn explodes(self, value: u32) -> bool {
        self.explode matches Some(op) && op.holds(value)
    }

    /// Some policy may ask for draw after draw without a bound.
    pub open spec fn chains(self) -> bool {
        ||| self.re_roll.is_some() && self.re_roll_recursively
        ||| self.explode.is_some() && !self.explode_once
    }

    /// Rerolling has come to rest at `final_roll` after discarding `discarded`:
    /// every discarded value asked for a reroll, and the final value either
    /// asks for none or is the single reroll of a one-shot policy.
    pub open spec fn reroll_settled(self, discarded: Seq<u32>, final_roll: u32) -> bool {
        &&& self.face(final_roll)
        &&& forall|i: int|
            0 <= i < discarded.len() ==> self.face(#[trigger] discarded[i]) && self.rerolls(
                discarded[i],
            )
        &&& if self.re_roll_recursively {
            !self.rerolls(final_roll)
        } else {
            discarded.len() <= 1 && (discarded.len() == 0 ==> !self.rerolls(final_roll))
        }
    }

    /// Exploding from `final_roll` has come to rest with `exploded`: there are
    /// bonus values exactly when the final value explodes, every bonus value
    /// but the last exploded in turn, and the chain ended after one value
    /// (explode once) or at the first value that does not explode.
    pub open spec fn explosion_settled(self, final_roll: u32, exploded: Seq<u32>) -> bool {
        &&& forall|i: int| 0 <= i < exploded.len() ==> self.face(#[trigger] exploded[i])
        &&& (exploded.len() > 0) == self.explodes(final_roll)
        &&& forall|i: int| 0 <= i < exploded.len() - 1 ==> self.explodes(#[trigger] exploded[i])
        &&& if self.explode_once {
            exploded.len() <= 1
        } else {
            exploded.len() > 0 ==> !self.explodes(exploded.last())
        }
    }

    /// `outcome` is a possible result of rolling die number `roll_number` of
    /// this group.
    pub open spec fn is_outcome(self, roll_number: u32, outcome: RawOutcome) -> bool {
        &&& outcome.group == self.group
        &&& outcome.sign == self.sign
        &&& outcome.roll_number == roll_number
        &&& outcome.dice_size == self.dice_size
        &&& self.reroll_settled(outcome.discarded, outcome.final_roll)
        &&& self.explosion_settled(outcome.final_roll, outcome.exploded)
        &&& outcome.consistent()
    }

    /// The state of a die whose rerolling ends with `candidate`.
    pub open spec fn settle(self, roll: PartialRoll, candidate: u32) -> PartialRoll {
        PartialRoll {
            stage: if self.explodes(candidate) {
                RollStage::AwaitingExplosion
            } else {
                RollStage::Settled
            },
            final_roll: candidate,
            ..roll
        }
    }

    /// The state of a die in state `roll` after the draw `draw`.
    pub open spec fn after_draw(self, roll: PartialRoll, draw: u32) -> PartialRoll {
        match roll.stage {
            RollStage::AwaitingFirst => if self.rerolls(draw) {
                PartialRoll {
                    stage: RollStage::AwaitingReroll,
                    discarded: roll.discarded.push(draw),
                    ..roll
                }
            } else {
                self.settle(roll, draw)
            },
            RollStage::AwaitingReroll => if self.re_roll_recursively && self.rerolls(draw) {
                PartialRoll { discarded: roll.discarded.push(draw), ..roll }
            } else {
                self.settle(roll, draw)
            },
            RollStage::AwaitingExplosion => PartialRoll {
                stage: if !self.explode_once && self.explodes(draw) {
                    RollStage::AwaitingExplosion
                } else {
                    RollStage::Settled
                },
                exploded: roll.exploded.push(draw),
                ..roll
            },
            RollStage::Settled => roll,
        }
    }

    /// The state of a die after the draws `draws`, in order, from `roll`.
    pub open spec fn after_draws(self, roll: PartialRoll, draws: Seq<u32>) -> PartialRoll
        decreases draws.len(),
    {
        if draws.len() == 0 {
            roll
        } else {
            self.after_draw(self.after_draws(roll, draws.drop_last()), draws.last())
        }
    }

    /// The die `roll` has settled and its subtotal can be recorded.
    pub open spec fn completed(self, roll: PartialRoll) -> bool {
        roll.stage == RollStage::Settled && roll.final_roll + sum_of(roll.exploded) <= i32::MAX
    }

    /// What the settled die `roll` is recorded as, as die number `roll_number`.
    pub open spec fn outcome(self, roll: PartialRoll, roll_number: u32) -> RawOutcome {
        RawOutcome {
            group: self.group,
            sign: self.sign,
            roll_number,
            dice_size: self.dice_size,
            final_roll: roll.final_roll,
            discarded: roll.discarded,
            exploded: roll.exploded,
            subtotal: (roll.final_roll + sum_of(roll.exploded)) as i32,
        }
    }

    /// The draws `drawn` are faces of the die, and no more than one die is
    /// given.
    pub open spec fn draws_of_die(self, drawn: Seq<u32>) -> bool {
        &&& drawn.len() <= MAX_DRAWS_PER_DIE
        &&& forall|i: int| 0 <= i < drawn.len() ==> self.face(#[trigger] drawn[i])
    }

    /// The draws `drawn` are all that a die is given, and leave it asking
    /// for more.
    pub open spec fn exhausted_by(self, drawn: Seq<u32>) -> bool {
        &&& self.draws_of_die(drawn)
        &&& drawn.len() == MAX_DRAWS_PER_DIE
        &&& self.after_draws(fresh_roll(), drawn).stage != RollStage::Settled
    }

    /// The draws `drawn` settle a die with a subtotal that cannot be
    /// recorded.
    pub open spec fn overflowed_by(self, drawn: Seq<u32>) -> bool {
        &&& self.draws_of_die(drawn)
        &&& self.after_draws(fresh_roll(), drawn).stage == RollStage::Settled
        &&& !self.completed(self.after_draws(fresh_roll(), drawn))
    }

    /// The draws `drawn` settle a die that is recorded as `outcome`, as die
    /// number `roll_number`.
    pub open spec fn rolled_by(self, drawn: Seq<u32>, roll_number: u32, outcome: RawOutcome) -> bool {
        &&& self.draws_of_die(drawn)
        &&& self.completed(self.after_draws(fresh_roll(), drawn))
        &&& outcome == self.outcome(self.after_draws(fresh_roll(), drawn), roll_number)
    }

    /// Some draws leave a die of this group asking for more than it is
    /// given.
    pub open spec fn may_exhaust(self) -> bool {
        exists|drawn: Seq<u32>| #[trigger] self.exhausted_by(drawn)
    }

    /// Some draws settle a die of this group with a subtotal that cannot be
    /// recorded.
    pub open spec fn may_overflow(self) -> bool {
        exists|drawn: Seq<u32>| #[trigger] self.overflowed_by(drawn)
    }

    /// Some draws give `outcome` as die number `roll_number` of this group.
    pub open spec fn is_rolled(self, roll_number: u32, outcome: RawOutcome) -> bool {
        exists|drawn: Seq<u32>| #[trigger] self.rolled_by(drawn, roll_number, outcome)
    }

    /// `roll` is a state that draws of faces of the die can lead to.
    pub open spec fn admits(self, roll: PartialRoll) -> bool {
        match roll.stage {
            RollStage::AwaitingFirst => roll.discarded.len() == 0 && roll.exploded.len() == 0,
            RollStage::AwaitingReroll => {
                &&& roll.discarded.len() > 0
                &&& forall|i: int|
                    0 <= i < roll.discarded.len() ==> self.face(#[trigger] roll.discarded[i])
                        && self.rerolls(roll.discarded[i])
                &&& self.re_roll_recursively || roll.discarded.len() == 1
                &&& roll.exploded.len() == 0
            },
            RollStage::AwaitingExplosion => {
                &&& self.reroll_settled(roll.discarded, roll.final_roll)
                &&& self.explodes(roll.final_roll)
                &&& forall|i: int|
                    0 <= i < roll.exploded.len() ==> self.face(#[trigger] roll.exploded[i])
                        && self.explodes(roll.exploded[i])
                &&& self.explode_once ==> roll.exploded.len() == 0
            },
            RollStage::Settled => {
                &&& self.reroll_settled(roll.discarded, roll.final_roll)
                &&& self.explosion_settled(roll.final_roll, roll.exploded)
            },
        }
    }
}

/// How far a die has come: each stage is further than the one before.
pub open spec fn stage_rank(stage: RollStage) -> int {
    match stage {
        RollStage::AwaitingFirst => 0,
        RollStage::AwaitingReroll => 1,
        RollStage::AwaitingExplosion => 2,
        RollStage::Settled => 3,
    }
}

/// The state of a die before its first draw.
pub open spec fn fresh_roll() -> PartialRoll {
    PartialRoll {
        stage: RollStage::AwaitingFirst,
        final_roll: 0,
        discarded: Seq::empty(),
        exploded: Seq::empty(),
    }
}

/// A draw of a face keeps a die within the states that the policies allow.
pub proof fn lemma_after_draw_admits(group: RollGroupSpec, roll: PartialRoll, draw: u32)
    requires
        group.admits(roll),
        group.face(draw),
    ensures
        group.admits(group.after_draw(roll, draw)),
{
    let next = group.after_draw(roll, draw);
    match roll.stage {
        RollStage::AwaitingFirst => {
            if group.rerolls(draw) {
                assert(next.discarded[0] == draw);
            }
        },
        RollStage::AwaitingReroll => {},
        RollStage::AwaitingExplosion => {
            assert(next.exploded.last() == draw);
            assert(next.exploded.drop_last() =~= roll.exploded);
        },
        RollStage::Settled => {},
    }
}

/// Under policies that do not chain, every draw brings a die to a later stage.
pub proof fn lemma_after_draw_advances(group: RollGroupSpec, roll: PartialRoll, draw: u32)
    requires
        !group.chains(),
        group.admits(roll),
        roll.stage != RollStage::Settled,
    ensures
        stage_rank(group.after_draw(roll, draw).stage) > stage_rank(roll.stage),
{
}

/// A die that is being rolled, draw by draw.
pub struct RollInProgress {
    pub stage: RollStage,
    pub final_roll: u32,
    pub discarded_rolls: Vec<u32>,
    pub exploded_rolls: Vec<u32>,
}

impl View for RollInProgress {
    type V = PartialRoll;

    open spec fn view(&self) -> PartialRoll {
        PartialRoll {
            stage: self.stage,
            final_roll: self.final_roll,
            discarded: self.discarded_rolls@,
            exploded: self.exploded_rolls@,
        }
    }
}

/// Why a group of dice could not be rolled to the end.
#[derive(Clone, Copy, Debug, PartialEq, Eq, Structural)]
pub enum RollError {
    /// A die asked for more than `MAX_DRAWS_PER_DIE` draws.
    DrawLimitReached,
    /// The subtotal of a die does not fit in an `i32`.
    SubtotalTooLarge,
}

/// The number of draws after which a die that still asks for more is given up.
pub const MAX_DRAWS_PER_DIE: u32 = 10_000;

/// Draws one face of a die of `dice_size` faces from the thread's random
/// number generator, by `rand::Rng::gen_range` on `rand::thread_rng()` with
/// the range `1..=dice_size`. The range is not empty, and the value drawn
/// lies in it.
#[verifier::external_body]
fn draw_face(dice_size: u32) -> (face: u32)
    requires
        dice_size >= 1,
    ensures
        1 <= face <= dice_size,
{
    rand::thread_rng().gen_range(1..=dice_size)
}

impl View for DiceRollCommand {
    type V = RollGroupSpec;

    closed spec fn view(&self) -> RollGroupSpec {
        RollGroupSpec {
            group: self.group,
            sign: self.sign,
            dice_count: self.dice_count,
            dice_size: self.dice_size,
            re_roll: self.re_roll,
            re_roll_recursively: self.re_roll_recursively,
            explode: self.explode,
            explode_once: self.explode_once,
        }
    }
}

impl DiceRollCommand {
    pub fn new(
        group: i32,
        sign: i32,
        dice_count: u32,
        dice_size: u32,
        re_roll: Option<Operator>,
        re_roll_recursively: bool,
        explode: Option<Operator>,
        explode_once: bool,
    ) -> (r: Self)
        ensures
            r@ == (RollGroupSpec {
                group,
                sign,
                dice_count,
                dice_size,
                re_roll,
                re_roll_recursively,
                explode,
                explode_once,
            }),
    {
        Self {
            group,
            sign,
            dice_count,
            dice_size,
            re_roll,
            re_roll_recursively,
            explode,
            explode_once,
        }
    }

    pub fn group(&self) -> (r: i32)
        ensures
            r == self@.group,
    {
        self.group
    }

    pub fn sign(&self) -> (r: i32)
        ensures
            r == self@.sign,
    {
        self.sign
    }

    pub fn dice_count(&self) -> (r: u32)
        ensures
            r == self@.dice_count,
    {
        self.dice_count
    }

    pub fn dice_size(&self) -> (r: u32)
        ensures
            r == self@.dice_size,
    {
        self.dice_size
    }

    pub fn re_roll(&self) -> (r: Option<Operator>)
        ensures
            r == self@.re_roll,
    {
        self.re_roll
    }

    pub fn re_roll_recursively(&self) -> (r: bool)
        ensures
            r == self@.re_roll_recursively,
    {
        self.re_roll_recursively
    }

    pub fn explode(&self) -> (r: Option<Operator>)
        ensures
            r == self@.explode,
    {
        self.explode
    }

    pub fn explode_once(&self) -> (r: bool)
        ensures
            r == self@.explode_once,
    {
        self.explode_once
    }

    /// Whether a die showing `source` is rolled again under `target`.
    pub fn needs_re_roll(&self, source: &u32, target: &Operator) -> (r: bool)
        ensures
            r == target.holds(*source),
    {
        target.evaluate(*source)
    }

    /// Whether a die showing `source` explodes under `target`.
    pub fn needs_explosion(&self, source: &u32, target: &Operator) -> (r: bool)
        ensures
            r == target.holds(*source),
    {
        target.evaluate(*source)
    }

    /// A die of this group before its first draw.
    pub fn start(&self) -> (roll: RollInProgress)
        ensures
            roll@ == fresh_roll(),
            self@.admits(roll@),
    {
        RollInProgress {
            stage: RollStage::AwaitingFirst,
            final_roll: 0,
            discarded_rolls: Vec::new(),
            exploded_rolls: Vec::new(),
        }
    }

    /// Takes the die `roll` one draw further: the draw is discarded for a
    /// reroll, becomes the final value, or joins the exploded values.
    pub fn advance(&self, roll: RollInProgress, draw: u32) -> (next: RollInProgress)
        ensures
            next@ == self@.after_draw(roll@, draw),
    {
        let mut roll = roll;
        match roll.stage {
            RollStage::AwaitingFirst | RollStage::AwaitingReroll => {
                let again = match self.re_roll {
                    Some(target) => self.needs_re_roll(&draw, &target) && (self.re_roll_recursively
                        || roll.stage == RollStage::AwaitingFirst),
                    None => false,
                };
                if again {
                    roll.discarded_rolls.push(draw);
                    roll.stage = RollStage::AwaitingReroll;
                } else {
                    let explodes = match self.explode {
                        Some(target) => self.needs_explosion(&draw, &target),
                        None => false,
                    };
                    roll.final_roll = draw;
                    roll.stage = if explodes {
                        RollStage::AwaitingExplosion
                    } else {
                        RollStage::Settled
                    };
                }
            },
            RollStage::AwaitingExplosion => {
                let explodes = match self.explode {
                    Some(target) => self.needs_explosion(&draw, &target),
                    None => false,
                };
                roll.exploded_rolls.push(draw);
                roll.stage = if !self.explode_once && explodes {
                    RollStage::AwaitingExplosion
                } else {
                    RollStage::Settled
                };
            },
            RollStage::Settled => {},
        }
        roll
    }

    /// Turns the settled die `roll` into the outcome of die number
    /// `roll_number`; there is none while the die awaits a draw, nor when its
    /// subtotal does not fit.
    pub fn finish(&self, roll: RollInProgress, roll_number: u32) -> (r: Option<InitialDiceRollResult>)
        ensures
            r.is_some() <==> self@.completed(roll@),
            r matches Some(outcome) ==> outcome@ == self@.outcome(roll@, roll_number),
    {
        if roll.stage != RollStage::Settled || roll.final_roll > 0x7fff_ffff {
            proof {
                lemma_sum_of_nonnegative(roll@.exploded);
            }
            return None;
        }
        match checked_sum(&roll.exploded_rolls, 0x7fff_ffff - roll.final_roll) {
            None => None,
            Some(_) => Some(
                InitialDiceRollResult::new(
                    self.group,
                    self.sign,
                    roll_number,
                    self.dice_size,
                    roll.final_roll,
                    roll.discarded_rolls,
                    roll.exploded_rolls,
                ),
            ),
        }
    }

    /// Rolls one die on the given draws, taken in order until the die has
    /// settled; draws beyond that are left unused. There is no outcome when
    /// the draws end before the die has settled, nor when its subtotal does
    /// not fit.
    pub fn roll_with_draws(&self, roll_number: u32, draws: &Vec<u32>) -> (r: Option<
        InitialDiceRollResult,
    >)
        ensures
            r.is_some() <==> self@.completed(self@.after_draws(fresh_roll(), draws@)),
            r matches Some(outcome) ==> outcome@ == self@.outcome(
                self@.after_draws(fresh_roll(), draws@),
                roll_number,
            ),
    {
        let mut roll = self.start();
        let mut i: usize = 0;
        while i < draws.len()
            invariant
                i <= draws.len(),
                roll@ == self@.after_draws(fresh_roll(), draws@.take(i as int)),
            decreases draws.len() - i,
        {
            assert(draws@.take(i + 1).drop_last() =~= draws@.take(i as int));
            roll = self.advance(roll, draws[i]);
            i = i + 1;
        }
        assert(draws@.take(i as int) =~= draws@);
        self.finish(roll, roll_number)
    }

    /// Rolls die number `roll_number` of this group with random draws: the
    /// die is drawn for until it has settled, `MAX_DRAWS_PER_DIE` times at
    /// most. The outcome is what the draws give. The draw limit is reached
    /// only on draws that leave the die asking for more, and there is no
    /// subtotal only on draws that settle the die beyond the range.
    fn roll_single_dice(&self, roll_number: u32) -> (r: Result<InitialDiceRollResult, RollError>)
        requires
            self@.dice_size >= 1,
        ensures
            r matches Ok(outcome) ==> self@.is_outcome(roll_number, outcome@) && exists|
                drawn: Seq<u32>,
            | #[trigger] self@.rolled_by(drawn, roll_number, outcome@),
            r == Err::<InitialDiceRollResult, RollError>(RollError::DrawLimitReached)
                ==> self@.chains() && exists|drawn: Seq<u32>| #[trigger] self@.exhausted_by(drawn),
            r == Err::<InitialDiceRollResult, RollError>(RollError::SubtotalTooLarge) ==> {
                &&& self@.dice_size > i32::MAX || self@.explode.is_some() && (!self@.explode_once
                    || 2 * self@.dice_size > i32::MAX)
                &&& exists|drawn: Seq<u32>| #[trigger] self@.overflowed_by(drawn)
            },
    {
        let mut roll = self.start();
        let mut draws: u32 = 0;
        let ghost mut drawn: Seq<u32> = Seq::empty();
        while roll.stage != RollStage::Settled && draws < MAX_DRAWS_PER_DIE
            invariant
                self@.dice_size >= 1,
                self@.admits(roll@),
                draws <= MAX_DRAWS_PER_DIE,
                !self@.chains() ==> draws <= stage_rank(roll@.stage),
                drawn.len() == draws,
                self@.draws_of_die(drawn),
                roll@ == self@.after_draws(fresh_roll(), drawn),
            decreases MAX_DRAWS_PER_DIE - draws,
        {
            let draw = draw_face(self.dice_size);
            proof {
                lemma_after_draw_admits(self@, roll@, draw);
                if !self@.chains() {
                    lemma_after_draw_advances(self@, roll@, draw);
                }
                assert(drawn.push(draw).drop_last() =~= drawn);
                drawn = drawn.push(draw);
            }
            roll = self.advance(roll, draw);
            draws = draws + 1;
        }
        if roll.stage != RollStage::Settled {
            assert(self@.exhausted_by(drawn));
            return Err(RollError::DrawLimitReached);
        }
        proof {
            lemma_settled_outcome(self@, roll@, roll_number);
        }
        match self.finish(roll, roll_number) {
            Some(outcome) => {
                assert(self@.rolled_by(drawn, roll_number, outcome@));
                Ok(outcome)
            },
            None => {
                assert(self@.overflowed_by(drawn));
                Err(RollError::SubtotalTooLarge)
            },
        }
    }

    /// Rolls every die of the group, in order. Each die is drawn from the
    /// thread's random number generator until its reroll and explode policies
    /// are satisfied, so each outcome is what some draws of faces give, and
    /// one that the policies allow. A group without dice gives an empty list.
    /// A die that asks for more than `MAX_DRAWS_PER_DIE` draws, or whose
    /// subtotal does not fit, ends the roll with an error: the first only on
    /// draws that leave a die asking for more, the second only on draws that
    /// settle a die beyond the range. Neither can happen unless there is a
    /// die to roll and a policy chains or the die is very large.
    pub fn roll_dice(&self) -> (r: Result<Vec<InitialDiceRollResult>, RollError>)
        requires
            self@.dice_size >= 1,
        ensures
            self@.dice_count == 0 ==> r.is_ok(),
            !self@.chains() && 2 * self@.dice_size <= i32::MAX ==> r.is_ok(),
            r.is_err() ==> self@.dice_count > 0,
            r matches Ok(outcomes) ==> {
                &&& outcomes.len() == self@.dice_count
                &&& forall|i: int|
                    0 <= i < outcomes.len() ==> self@.is_outcome(
                        (i + 1) as u32,
                        #[trigger] outcomes[i]@,
                    ) && self@.is_rolled((i + 1) as u32, outcomes[i]@)
            },
            r == Err::<Vec<InitialDiceRollResult>, RollError>(RollError::DrawLimitReached)
                ==> self@.chains() && exists|drawn: Seq<u32>| #[trigger] self@.exhausted_by(drawn),
            r == Err::<Vec<InitialDiceRollResult>, RollError>(RollError::SubtotalTooLarge) ==> {
                &&& self@.dice_size > i32::MAX || self@.explode.is_some() && (!self@.explode_once
                    || 2 * self@.dice_size > i32::MAX)
                &&& exists|drawn: Seq<u32>| #[trigger] self@.overflowed_by(drawn)
            },
    {
        let mut individual_results: Vec<InitialDiceRollResult> = Vec::new();
        let mut current_dice_count: u32 = 0;
        while current_dice_count != self.dice_count
            invariant
                self@.dice_size >= 1,
                current_dice_count <= self@.dice_count,
                individual_results.len() == current_dice_count,
                forall|i: int|
                    0 <= i < individual_results.len() ==> self@.is_outcome(
                        (i + 1) as u32,
                        #[trigger] individual_results[i]@,
                    ) && self@.is_rolled((i + 1) as u32, individual_results[i]@),
            decreases self@.dice_count - current_dice_count,
        {
            match self.roll_single_dice(current_dice_count + 1) {
                Ok(outcome) => {
                    individual_results.push(outcome);
                },
                Err(error) => {
                    return Err(error);
                },
            }
            current_dice_count = current_dice_count + 1;
        }
        Ok(individual_results)
    }
}

/// A settled die that the policies allow is recorded as an outcome of its
/// group. Its subtotal is its final value where nothing can explode, and at
/// most twice the die's size where at most one value can.
pub proof fn lemma_settled_outcome(group: RollGroupSpec, roll: PartialRoll, roll_number: u32)
    requires
        roll.stage == RollStage::Settled,
        group.admits(roll),
    ensures
        roll.final_roll <= group.dice_size,
        group.explode.is_none() ==> sum_of(roll.exploded) == 0,
        group.explode_once ==> roll.final_roll + sum_of(roll.exploded) <= 2 * group.dice_size,
        group.completed(roll) ==> group.is_outcome(roll_number, group.outcome(roll, roll_number)),
{
    lemma_sum_of_nonnegative(roll.exploded);
    if roll.exploded.len() == 1 {
        assert(roll.exploded.drop_last().len() == 0);
        assert(sum_of(roll.exploded.drop_last()) == 0);
        assert(sum_of(roll.exploded) == roll.exploded[0]);
        assert(group.face(roll.exploded[0]));
    }
}

/// A die rolled on draws that are faces of the die comes to a state that the
/// policies allow, and where it has settled with a subtotal that fits, what
/// is recorded is an outcome of its group.
pub proof fn lemma_draws_give_outcome(group: RollGroupSpec, draws: Seq<u32>, roll_number: u32)
    requires
        forall|i: int| 0 <= i < draws.len() ==> group.face(#[trigger] draws[i]),
    ensures
        group.admits(group.after_draws(fresh_roll(), draws)),
        group.completed(group.after_draws(fresh_roll(), draws)) ==> group.is_outcome(
            roll_number,
            group.outcome(group.after_draws(fresh_roll(), draws), roll_number),
        ),
    decreases draws.len(),
{
    if draws.len() > 0 {
        let fewer = draws.drop_last();
        assert forall|i: int| 0 <= i < fewer.len() implies group.face(#[trigger] fewer[i]) by {
            assert(fewer[i] == draws[i]);
        }
        lemma_draws_give_outcome(group, fewer, roll_number);
        lemma_after_draw_admits(group, group.after_draws(fresh_roll(), fewer), draws.last());
    }
    let end = group.after_draws(fresh_roll(), draws);
    if group.completed(end) {
        lemma_settled_outcome(group, end, roll_number);
    }
}

} // verus!
