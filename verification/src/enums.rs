use vstd::prelude::*;

verus! {

/// A comparison of a die value against a fixed threshold.
#[derive(Clone, Copy, Debug, PartialEq, Eq, Structural)]
pub enum Operator {
    Eq(u32),
    Gt(u32),
    Gte(u32),
    Lt(u32),
    Lte(u32),
}

impl Operator {
    /// The threshold that the operator carries.
    pub open spec fn threshold(self) -> u32 {
        match self {
            Operator::Eq(t) => t,
            Operator::Gt(t) => t,
            Operator::Gte(t) => t,
            Operator::Lt(t) => t,
            Operator::Lte(t) => t,
        }
    }

    /// Whether `value` satisfies the comparison.
    pub open spec fn holds(self, value: u32) -> bool {
        match self {
            Operator::Eq(t) => value == t,
            Operator::Gt(t) => value > t,
            Operator::Gte(t) => value >= t,
            Operator::Lt(t) => value < t,
            Operator::Lte(t) => value <= t,
        }
    }

    /// Evaluates the comparison on `value`.
    pub fn evaluate(self, value: u32) -> (b: bool)
        ensures
            b == self.holds(value),
    {
        match self {
            Operator::Eq(t) => value == t,
            Operator::Gt(t) => value > t,
            Operator::Gte(t) => value >= t,
            Operator::Lt(t) => value < t,
            Operator::Lte(t) => value <= t,
        }
    }
}

/// Why a configuration is rejected.
#[derive(Clone, Copy, Debug, PartialEq, Eq, Structural)]
pub enum ConfigError {
    /// More than one of keep high, keep low, drop high and drop low is set.
    ConflictingKeepRules,
    /// Both a floor and a ceiling are set.
    ConflictingReplacementRules,
    /// More than one of the success and failure comparisons is set.
    ConflictingSuccessRules,
    /// A text that should write a comparison writes none.
    InvalidComparison,
    /// A text that should be a yes-or-no flag is none.
    InvalidFlag,
    /// A term of the dice expression cannot be read.
    InvalidDice,
    /// The number of the reroll comparison is larger than a die.
    ReRollExceedsDiceSize,
    /// The number of the explode comparison is larger than a die.
    ExplodeExceedsDiceSize,
    /// The dice expression has more groups than can be numbered.
    TooManyGroups,
}

} // verus!
