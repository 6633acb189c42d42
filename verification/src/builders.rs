use crate::enums::{ConfigError, Operator};
use crate::result_keeping_rules::{KeepRule, ResultKeepingRules};
use crate::roll_command::{DiceRollCommand, RollGroupSpec};
use crate::success_counting_rules::{SuccessCountingRules, SuccessRule};
use crate::text::{
    contains, has_substring, i32_of, lowercase, lowercase_of, parse_i32, parse_u32,
    regex_all_matches, regex_captures, regex_captures_iter, regex_first_groups, text_of, texts_of,
    u32_of,
};
use crate::utils::{
    find_operator, flag_of, operator_in, parse_operator, read_yn_tf, yn_tf_to_bool,
};
use vstd::prelude::*;
use vstd::string::*;

verus! {

/// How many of the four are set.
pub open spec fn count_set(a: bool, b: bool, c: bool, d: bool) -> int {
    (if a { 1int } else { 0int }) + (if b { 1int } else { 0int }) + (if c { 1int } else { 0int })
        + (if d { 1int } else { 0int })
}

/// The rule that the options ask for: keep or drop, the highest or the
/// lowest, as many as the one option that is set says, and the floor `min`
/// or the ceiling `max`. More than one keep or drop option is rejected, and
/// so are a floor and a ceiling together.
pub open spec fn keep_rule_of(
    keep_high: Option<u32>,
    keep_low: Option<u32>,
    drop_high: Option<u32>,
    drop_low: Option<u32>,
    max: Option<u32>,
    min: Option<u32>,
) -> Result<KeepRule, ConfigError> {
    if count_set(keep_high.is_some(), keep_low.is_some(), drop_high.is_some(), drop_low.is_some())
        > 1 {
        Err(ConfigError::ConflictingKeepRules)
    } else if max.is_some() && min.is_some() {
        Err(ConfigError::ConflictingReplacementRules)
    } else {
        let (keep, high, keep_or_drop_count) = match (keep_high, keep_low, drop_high, drop_low) {
            (Some(count), _, _, _) => (true, true, count),
            (_, Some(count), _, _) => (true, false, count),
            (_, _, Some(count), _) => (false, true, count),
            (_, _, _, Some(count)) => (false, false, count),
            _ => (false, false, 0u32),
        };
        let (be_replaced_with, floor) = match (min, max) {
            (Some(limit), _) => (Some(limit), true),
            (_, Some(limit)) => (Some(limit), false),
            _ => (None, false),
        };
        Ok(KeepRule { keep, high, keep_or_drop_count, be_replaced_with, min: floor })
    }
}

/// Makes the keep/drop/replace rule that the options ask for. At most one
/// of the four keep and drop options may be set, and not both `max` and
/// `min`.
pub fn build_result_keeping_rules(
    keep_high: Option<u32>,
    keep_low: Option<u32>,
    drop_high: Option<u32>,
    drop_low: Option<u32>,
    max: Option<u32>,
    min: Option<u32>,
) -> (r: ResultKeepingRules)
    requires
        count_set(keep_high.is_some(), keep_low.is_some(), drop_high.is_some(), drop_low.is_some())
            <= 1,
        !(max.is_some() && min.is_some()),
    ensures
        keep_rule_of(keep_high, keep_low, drop_high, drop_low, max, min) == Ok::<
            KeepRule,
            ConfigError,
        >(r@),
{
    let keep_input: bool;
    let high_input: bool;
    let keep_or_drop_count_input: u32;
    if let Some(value) = keep_high {
        keep_input = true;
        high_input = true;
        keep_or_drop_count_input = value;
    } else if let Some(value) = keep_low {
        keep_input = true;
        high_input = false;
        keep_or_drop_count_input = value;
    } else if let Some(value) = drop_high {
        keep_input = false;
        high_input = true;
        keep_or_drop_count_input = value;
    } else if let Some(value) = drop_low {
        keep_input = false;
        high_input = false;
        keep_or_drop_count_input = value;
    } else {
        keep_input = false;
        high_input = false;
        keep_or_drop_count_input = 0;
    }
    let be_replaced_with_input: Option<u32>;
    let min_input: bool;
    if let Some(value) = min {
        min_input = true;
        be_replaced_with_input = Some(value);
    } else if let Some(value) = max {
        min_input = false;
        be_replaced_with_input = Some(value);
    } else {
        min_input = false;
        be_replaced_with_input = None;
    }
    ResultKeepingRules::new(
        keep_input,
        high_input,
        keep_or_drop_count_input,
        be_replaced_with_input,
        min_input,
    )
}

/// Makes the keep/drop/replace rule that the options ask for, unless they
/// conflict.
pub fn try_build_result_keeping_rules(
    keep_high: Option<u32>,
    keep_low: Option<u32>,
    drop_high: Option<u32>,
    drop_low: Option<u32>,
    max: Option<u32>,
    min: Option<u32>,
) -> (r: Result<ResultKeepingRules, ConfigError>)
    ensures
        match r {
            Ok(rule) => keep_rule_of(keep_high, keep_low, drop_high, drop_low, max, min) == Ok::<
                KeepRule,
                ConfigError,
            >(rule@),
            Err(error) => keep_rule_of(keep_high, keep_low, drop_high, drop_low, max, min) == Err::<
                KeepRule,
                ConfigError,
            >(error),
        },
{
    let mut count_keeping_options: u8 = 0;
    if keep_high.is_some() {
        count_keeping_options = count_keeping_options + 1;
    }
    if keep_low.is_some() {
        count_keeping_options = count_keeping_options + 1;
    }
    if drop_high.is_some() {
        count_keeping_options = count_keeping_options + 1;
    }
    if drop_low.is_some() {
        count_keeping_options = count_keeping_options + 1;
    }
    if count_keeping_options > 1 {
        return Err(ConfigError::ConflictingKeepRules);
    }
    if max.is_some() && min.is_some() {
        return Err(ConfigError::ConflictingReplacementRules);
    }
    Ok(build_result_keeping_rules(keep_high, keep_low, drop_high, drop_low, max, min))
}

/// What a flag that may be missing says; a missing flag says no, and a
/// text that is no flag is rejected.
pub open spec fn optional_flag(value: Option<Seq<char>>) -> Result<bool, ConfigError> {
    match value {
        None => Ok(false),
        Some(text) => match flag_of(lowercase_of(text)) {
            Some(flag) => Ok(flag),
            None => Err(ConfigError::InvalidFlag),
        },
    }
}

/// The comparison that `text` writes; a text that writes none is rejected.
pub open spec fn required_operator(text: Seq<char>) -> Result<Operator, ConfigError> {
    match operator_in(text) {
        Some(operator) => Ok(operator),
        None => Err(ConfigError::InvalidComparison),
    }
}

/// The rule that the options ask for. At most one of `count_success`,
/// `count_failure` and `subtract_failures` may be set; each writes a
/// comparison, the last one a failure comparison whose failures are
/// subtracted in full.
pub open spec fn success_rule_of(
    count_success: Option<Seq<char>>,
    count_failure: Option<Seq<char>>,
    even: Option<Seq<char>>,
    odd: Option<Seq<char>>,
    deduct_failure: Option<u32>,
    subtract_failures: Option<Seq<char>>,
    margin_of_success: Option<u32>,
) -> Result<SuccessRule, ConfigError> {
    if count_set(
        count_success.is_some(),
        count_failure.is_some(),
        subtract_failures.is_some(),
        false,
    ) > 1 {
        Err(ConfigError::ConflictingSuccessRules)
    } else {
        let comparison = match (count_success, count_failure, subtract_failures) {
            (Some(text), _, _) => Some(text),
            (_, Some(text), _) => Some(text),
            (_, _, Some(text)) => Some(text),
            _ => None,
        };
        let operator = match comparison {
            Some(text) => match required_operator(text) {
                Ok(operator) => Ok(Some(operator)),
                Err(error) => Err(error),
            },
            None => Ok(None),
        };
        match (operator, optional_flag(even), optional_flag(odd)) {
            (Err(error), _, _) => Err(error),
            (_, Err(error), _) => Err(error),
            (_, _, Err(error)) => Err(error),
            (Ok(operator), Ok(count_even), Ok(count_odd)) => Ok(
                SuccessRule {
                    count_success: if count_success.is_some() {
                        operator
                    } else {
                        None
                    },
                    count_failure: if count_success.is_some() {
                        None
                    } else {
                        operator
                    },
                    count_even,
                    count_odd,
                    deduct_failure,
                    subtract_failure: count_success.is_none() && count_failure.is_none()
                        && subtract_failures.is_some(),
                    margin_of_success: match margin_of_success {
                        Some(margin) => margin,
                        None => 0,
                    },
                },
            ),
        }
    }
}

/// Reads a flag that may be missing.
pub fn read_optional_flag(value: &Option<String>) -> (r: Result<bool, ConfigError>)
    ensures
        r == optional_flag(text_of(*value)),
{
    match value {
        None => Ok(false),
        Some(text) => match read_yn_tf(text.clone()) {
            Some(flag) => Ok(flag),
            None => Err(ConfigError::InvalidFlag),
        },
    }
}

/// Reads a comparison that has to be there.
pub fn read_required_operator(text: &str) -> (r: Result<Operator, ConfigError>)
    ensures
        r == required_operator(text@),
{
    match find_operator(text) {
        Some(operator) => Ok(operator),
        None => Err(ConfigError::InvalidComparison),
    }
}

/// What a flag that may be missing says, where it is a flag.
fn flag_or_no(value: Option<String>) -> (r: bool)
    requires
        optional_flag(text_of(value)).is_ok(),
    ensures
        Ok::<bool, ConfigError>(r) == optional_flag(text_of(value)),
{
    match value {
        None => false,
        Some(value) => yn_tf_to_bool(value),
    }
}

/// Makes the success counting rule that the options ask for. At most one
/// of `count_success`, `count_failure` and `subtract_failures` may be set,
/// the one that is set has to write a comparison, and `even` and `odd` have
/// to be yes-or-no flags.
pub fn build_success_counting_rules(
    count_success: Option<String>,
    count_failure: Option<String>,
    even: Option<String>,
    odd: Option<String>,
    deduct_failure: Option<u32>,
    subtract_failures: Option<String>,
    margin_of_success: Option<u32>,
) -> (r: SuccessCountingRules)
    requires
        success_rule_of(
            text_of(count_success),
            text_of(count_failure),
            text_of(even),
            text_of(odd),
            deduct_failure,
            text_of(subtract_failures),
            margin_of_success,
        ).is_ok(),
    ensures
        success_rule_of(
            text_of(count_success),
            text_of(count_failure),
            text_of(even),
            text_of(odd),
            deduct_failure,
            text_of(subtract_failures),
            margin_of_success,
        ) == Ok::<SuccessRule, ConfigError>(r@),
{
    let count_success_input: Option<Operator>;
    let count_failure_input: Option<Operator>;
    let subtract_failures_input: bool;
    if let Some(value) = count_success {
        count_success_input = parse_operator(value.as_str());
        count_failure_input = None;
        subtract_failures_input = false;
    } else if let Some(value) = count_failure {
        count_success_input = None;
        count_failure_input = parse_operator(value.as_str());
        subtract_failures_input = false;
    } else if let Some(value) = subtract_failures {
        count_success_input = None;
        count_failure_input = parse_operator(value.as_str());
        subtract_failures_input = true;
    } else {
        count_success_input = None;
        count_failure_input = None;
        subtract_failures_input = false;
    }
    let even_input = flag_or_no(even);
    let odd_input = flag_or_no(odd);
    let margin: u32 = match margin_of_success {
        Some(margin) => margin,
        None => 0,
    };
    SuccessCountingRules::new(
        count_success_input,
        count_failure_input,
        even_input,
        odd_input,
        deduct_failure,
        subtract_failures_input,
        margin,
    )
}

/// Makes the success counting rule that the options ask for, unless they
/// conflict or one of them cannot be read.
pub fn try_build_success_counting_rules(
    count_success: Option<String>,
    count_failure: Option<String>,
    even: Option<String>,
    odd: Option<String>,
    deduct_failure: Option<u32>,
    subtract_failures: Option<String>,
    margin_of_success: Option<u32>,
) -> (r: Result<SuccessCountingRules, ConfigError>)
    ensures
        match r {
            Ok(rule) => success_rule_of(
                text_of(count_success),
                text_of(count_failure),
                text_of(even),
                text_of(odd),
                deduct_failure,
                text_of(subtract_failures),
                margin_of_success,
            ) == Ok::<SuccessRule, ConfigError>(rule@),
            Err(error) => success_rule_of(
                text_of(count_success),
                text_of(count_failure),
                text_of(even),
                text_of(odd),
                deduct_failure,
                text_of(subtract_failures),
                margin_of_success,
            ) == Err::<SuccessRule, ConfigError>(error),
        },
{
    let mut count_success_or_failure_options: u8 = 0;
    if count_success.is_some() {
        count_success_or_failure_options = count_success_or_failure_options + 1;
    }
    if count_failure.is_some() {
        count_success_or_failure_options = count_success_or_failure_options + 1;
    }
    if subtract_failures.is_some() {
        count_success_or_failure_options = count_success_or_failure_options + 1;
    }
    if count_success_or_failure_options > 1 {
        return Err(ConfigError::ConflictingSuccessRules);
    }
    let comparison = match (&count_success, &count_failure, &subtract_failures) {
        (Some(_), _, _) => read_optional_operator(&count_success),
        (_, Some(_), _) => read_optional_operator(&count_failure),
        (_, _, Some(_)) => read_optional_operator(&subtract_failures),
        _ => Ok(None),
    };
    if let Err(error) = comparison {
        return Err(error);
    }
    if let Err(error) = read_optional_flag(&even) {
        return Err(error);
    }
    if let Err(error) = read_optional_flag(&odd) {
        return Err(error);
    }
    Ok(
        build_success_counting_rules(
            count_success,
            count_failure,
            even,
            odd,
            deduct_failure,
            subtract_failures,
            margin_of_success,
        ),
    )
}

/// The regular expression of a group of dice: a count, `d` and a size.
pub const DICE: &'static str = "(\\d+)d(\\d+)";

/// The regular expression of a term of a dice expression: a group of dice
/// or a number, each with or without a sign.
pub const TERMS: &'static str = "([+-]?\\d+d\\d+)|([+-]?\\d+)";

/// The count and the size that two texts write, if each writes a `u32`.
pub open spec fn dice_of(count: Option<Seq<char>>, sides: Option<Seq<char>>) -> Option<(u32, u32)> {
    match (count, sides) {
        (Some(count), Some(sides)) => match (u32_of(count), u32_of(sides)) {
            (Some(count), Some(sides)) => Some((count, sides)),
            _ => None,
        },
        _ => None,
    }
}

/// The count and the size of the first group of dice that `text` writes.
pub open spec fn dice_in(text: Seq<char>) -> Option<(u32, u32)> {
    match regex_first_groups(DICE@, text) {
        Some(groups) => dice_of(groups.0, groups.1),
        None => None,
    }
}

/// Reads a count and a size from the two texts of a group of dice.
pub fn read_dice(count: &Option<String>, sides: &Option<String>) -> (r: Option<(u32, u32)>)
    ensures
        r == dice_of(text_of(*count), text_of(*sides)),
{
    match (count, sides) {
        (Some(count), Some(sides)) => match (
            parse_u32(count.as_str()),
            parse_u32(sides.as_str()),
        ) {
            (Some(count), Some(sides)) => Some((count, sides)),
            _ => None,
        },
        _ => None,
    }
}

/// The count and the size of the first group of dice in `dice_expr`.
pub fn parse_dice(dice_expr: &str) -> (r: (u32, u32))
    requires
        dice_in(dice_expr@).is_some(),
    ensures
        Some(r) == dice_in(dice_expr@),
{
    let groups = regex_captures(DICE, dice_expr).unwrap();
    read_dice(&groups.0, &groups.1).unwrap()
}

/// The count and the size of the first group of dice in `dice_expr`, if it
/// writes one.
pub fn find_dice(dice_expr: &str) -> (r: Option<(u32, u32)>)
    ensures
        r == dice_in(dice_expr@),
{
    match regex_captures(DICE, dice_expr) {
        Some(groups) => {
            if read_dice(&groups.0, &groups.1).is_some() {
                Some(parse_dice(dice_expr))
            } else {
                None
            }
        },
        None => None,
    }
}

/// The policies under which every die of an expression is rolled.
#[derive(Clone, Copy, Debug, PartialEq, Eq, Structural)]
pub struct RollPolicies {
    pub re_roll: Option<Operator>,
    pub re_roll_recursively: bool,
    pub explode: Option<Operator>,
    pub explode_once: bool,
}

/// A term of a dice expression.
#[derive(Clone, Copy, Debug)]
pub enum Term {
    Dice(DiceRollCommand),
    Modifier(i32),
}

/// The mathematical value of a `Term`.
pub enum TermSpec {
    Dice(RollGroupSpec),
    Modifier(i32),
}

impl View for Term {
    type V = TermSpec;

    open spec fn view(&self) -> TermSpec {
        match self {
            Term::Dice(command) => TermSpec::Dice(command@),
            Term::Modifier(value) => TermSpec::Modifier(*value),
        }
    }
}

/// The number that a comparison carries; zero where there is none.
pub open spec fn threshold_of(operator: Option<Operator>) -> u32 {
    match operator {
        Some(operator) => operator.threshold(),
        None => 0,
    }
}

/// A comparison that may be missing; a text that writes none is rejected.
pub open spec fn optional_operator(text: Option<Seq<char>>) -> Result<Option<Operator>, ConfigError> {
    match text {
        None => Ok(None),
        Some(text) => match required_operator(text) {
            Ok(operator) => Ok(Some(operator)),
            Err(error) => Err(error),
        },
    }
}

/// The policies that the options ask for.
pub open spec fn policies_of(
    re_roll: Option<Seq<char>>,
    re_roll_recursively: Option<Seq<char>>,
    explode: Option<Seq<char>>,
    explode_once: Option<Seq<char>>,
) -> Result<RollPolicies, ConfigError> {
    match (
        optional_operator(re_roll),
        optional_flag(re_roll_recursively),
        optional_operator(explode),
        optional_flag(explode_once),
    ) {
        (Err(error), _, _, _) => Err(error),
        (_, Err(error), _, _) => Err(error),
        (_, _, Err(error), _) => Err(error),
        (_, _, _, Err(error)) => Err(error),
        (Ok(re_roll), Ok(re_roll_recursively), Ok(explode), Ok(explode_once)) => Ok(
            RollPolicies { re_roll, re_roll_recursively, explode, explode_once },
        ),
    }
}

/// `c` is a plus or a minus sign.
pub open spec fn is_sign(c: char) -> bool {
    c == '+' || c == '-'
}

/// The first `n` characters of `text` are its leading signs.
pub open spec fn signs_lead(text: Seq<char>, n: int) -> bool {
    &&& 0 <= n <= text.len()
    &&& forall|k: int| 0 <= k < n ==> is_sign(#[trigger] text[k])
    &&& n < text.len() ==> !is_sign(text[n])
}

/// `text` without its leading signs.
pub open spec fn unsigned_part(text: Seq<char>) -> Seq<char> {
    text.subrange(choose|n: int| signs_lead(text, n), text.len() as int)
}

/// What the term `token` says as term number `group` under `policies`. A
/// term with a `d` is a group of dice, negative where it starts with a minus
/// sign; a comparison whose number is larger than the dice is rejected. Any
/// other term is the modifier.
pub open spec fn term_of(token: Seq<char>, group: int, policies: RollPolicies) -> Result<
    TermSpec,
    ConfigError,
> {
    if has_substring(token, "d"@) {
        match dice_in(unsigned_part(token)) {
            None => Err(ConfigError::InvalidDice),
            Some((count, sides)) => if threshold_of(policies.re_roll) > sides {
                Err(ConfigError::ReRollExceedsDiceSize)
            } else if threshold_of(policies.explode) > sides {
                Err(ConfigError::ExplodeExceedsDiceSize)
            } else if group > i32::MAX {
                Err(ConfigError::TooManyGroups)
            } else {
                Ok(
                    TermSpec::Dice(
                        RollGroupSpec {
                            group: group as i32,
                            sign: if token.len() > 0 && token[0] == '-' {
                                -1i32
                            } else {
                                1i32
                            },
                            dice_count: count,
                            dice_size: sides,
                            re_roll: policies.re_roll,
                            re_roll_recursively: policies.re_roll_recursively,
                            explode: policies.explode,
                            explode_once: policies.explode_once,
                        },
                    ),
                )
            },
        }
    } else {
        match i32_of(token) {
            Some(value) => Ok(TermSpec::Modifier(value)),
            None => Err(ConfigError::InvalidDice),
        }
    }
}

/// What the terms `tokens` say, read from left to right: the groups of
/// dice, numbered from 1 in their order, and the modifier, which is the last
/// number among the terms, or zero. The first term that cannot be read
/// rejects the expression.
pub open spec fn terms_of(tokens: Seq<Seq<char>>, policies: RollPolicies) -> Result<
    (Seq<RollGroupSpec>, i32),
    ConfigError,
>
    decreases tokens.len(),
{
    if tokens.len() == 0 {
        Ok((Seq::empty(), 0))
    } else {
        match terms_of(tokens.drop_last(), policies) {
            Err(error) => Err(error),
            Ok((commands, modifier)) => match term_of(
                tokens.last(),
                commands.len() as int + 1,
                policies,
            ) {
                Err(error) => Err(error),
                Ok(TermSpec::Dice(command)) => Ok((commands.push(command), modifier)),
                Ok(TermSpec::Modifier(value)) => Ok((commands, value)),
            },
        }
    }
}

/// What a dice expression says under the options: the groups of dice and
/// the modifier of the terms that the lower-case form of `dice_roll` holds.
pub open spec fn expression_of(
    dice_roll: Seq<char>,
    re_roll: Option<Seq<char>>,
    re_roll_recursively: Option<Seq<char>>,
    explode: Option<Seq<char>>,
    explode_once: Option<Seq<char>>,
) -> Result<(Seq<RollGroupSpec>, i32), ConfigError> {
    match policies_of(re_roll, re_roll_recursively, explode, explode_once) {
        Err(error) => Err(error),
        Ok(policies) => terms_of(regex_all_matches(TERMS@, lowercase_of(dice_roll)), policies),
    }
}

/// The values of a list of commands.
pub open spec fn command_specs(commands: Seq<DiceRollCommand>) -> Seq<RollGroupSpec> {
    Seq::new(commands.len(), |i: int| commands[i]@)
}

/// Reads a comparison that may be missing.
pub fn read_optional_operator(text: &Option<String>) -> (r: Result<Option<Operator>, ConfigError>)
    ensures
        r == optional_operator(text_of(*text)),
{
    match text {
        None => Ok(None),
        Some(text) => match read_required_operator(text.as_str()) {
            Ok(operator) => Ok(Some(operator)),
            Err(error) => Err(error),
        },
    }
}

/// Reads the policies that the options ask for.
pub fn read_policies(
    re_roll: &Option<String>,
    re_roll_recursively: &Option<String>,
    explode: &Option<String>,
    explode_once: &Option<String>,
) -> (r: Result<RollPolicies, ConfigError>)
    ensures
        r == policies_of(
            text_of(*re_roll),
            text_of(*re_roll_recursively),
            text_of(*explode),
            text_of(*explode_once),
        ),
{
    let re_roll_input = match read_optional_operator(re_roll) {
        Ok(operator) => operator,
        Err(error) => {
            return Err(error);
        },
    };
    let re_roll_recursively_input = match read_optional_flag(re_roll_recursively) {
        Ok(flag) => flag,
        Err(error) => {
            return Err(error);
        },
    };
    let explode_input = match read_optional_operator(explode) {
        Ok(operator) => operator,
        Err(error) => {
            return Err(error);
        },
    };
    let explode_once_input = match read_optional_flag(explode_once) {
        Ok(flag) => flag,
        Err(error) => {
            return Err(error);
        },
    };
    Ok(
        RollPolicies {
            re_roll: re_roll_input,
            re_roll_recursively: re_roll_recursively_input,
            explode: explode_input,
            explode_once: explode_once_input,
        },
    )
}

/// The number that a comparison carries; zero where there is none.
pub fn threshold(operator: Option<Operator>) -> (r: u32)
    ensures
        r == threshold_of(operator),
{
    match operator {
        Some(Operator::Eq(number)) => number,
        Some(Operator::Gt(number)) => number,
        Some(Operator::Gte(number)) => number,
        Some(Operator::Lt(number)) => number,
        Some(Operator::Lte(number)) => number,
        None => 0,
    }
}

/// Reads the term `token` as term number `group` under `policies`.
pub fn read_term(token: &str, group: usize, policies: RollPolicies) -> (r: Result<Term, ConfigError>)
    ensures
        match r {
            Ok(term) => term_of(token@, group as int, policies) == Ok::<TermSpec, ConfigError>(
                term@,
            ),
            Err(error) => term_of(token@, group as int, policies) == Err::<TermSpec, ConfigError>(
                error,
            ),
        },
{
    if contains(token, "d") {
        let length = token.unicode_len();
        let mut signs: usize = 0;
        while signs < length && (token.get_char(signs) == '+' || token.get_char(signs) == '-')
            invariant
                signs <= length,
                length == token@.len(),
                forall|k: int| 0 <= k < signs ==> is_sign(#[trigger] token@[k]),
            decreases length - signs,
        {
            signs = signs + 1;
        }
        proof {
            assert(signs_lead(token@, signs as int));
            let n = choose|n: int| signs_lead(token@, n);
            assert(n == signs) by {
                if n < signs {
                    assert(is_sign(token@[n]));
                } else if signs < n {
                    assert(is_sign(token@[signs as int]));
                }
            }
        }
        let clean_token = token.substring_char(signs, length);
        match find_dice(clean_token) {
            None => Err(ConfigError::InvalidDice),
            Some(count_and_sides) => {
                if threshold(policies.re_roll) > count_and_sides.1 {
                    Err(ConfigError::ReRollExceedsDiceSize)
                } else if threshold(policies.explode) > count_and_sides.1 {
                    Err(ConfigError::ExplodeExceedsDiceSize)
                } else if group > 0x7fff_ffff {
                    Err(ConfigError::TooManyGroups)
                } else {
                    let sign: i32 = if length > 0 && token.get_char(0) == '-' {
                        -1
                    } else {
                        1
                    };
                    Ok(
                        Term::Dice(
                            DiceRollCommand::new(
                                group as i32,
                                sign,
                                count_and_sides.0,
                                count_and_sides.1,
                                policies.re_roll,
                                policies.re_roll_recursively,
                                policies.explode,
                                policies.explode_once,
                            ),
                        ),
                    )
                }
            },
        }
    } else {
        match parse_i32(token) {
            Some(value) => Ok(Term::Modifier(value)),
            None => Err(ConfigError::InvalidDice),
        }
    }
}

/// Reads the terms `tokens` from left to right under `policies`.
pub fn read_terms(tokens: &Vec<String>, policies: RollPolicies) -> (r: Result<
    (Vec<DiceRollCommand>, i32),
    ConfigError,
>)
    ensures
        match r {
            Ok(read) => terms_of(texts_of(tokens@), policies) == Ok::<
                (Seq<RollGroupSpec>, i32),
                ConfigError,
            >((command_specs(read.0@), read.1)),
            Err(error) => terms_of(texts_of(tokens@), policies) == Err::<
                (Seq<RollGroupSpec>, i32),
                ConfigError,
            >(error),
        },
{
    let ghost all = texts_of(tokens@);
    let mut result: Vec<DiceRollCommand> = Vec::new();
    let mut modifier: i32 = 0;
    let mut i: usize = 0;
    assert(command_specs(result@) =~= Seq::<RollGroupSpec>::empty());
    while i < tokens.len()
        invariant
            i <= tokens.len(),
            all == texts_of(tokens@),
            result.len() <= i,
            terms_of(all.take(i as int), policies) == Ok::<(Seq<RollGroupSpec>, i32), ConfigError>(
                (command_specs(result@), modifier),
            ),
        decreases tokens.len() - i,
    {
        assert(all.take(i + 1).drop_last() =~= all.take(i as int));
        assert(all.take(i + 1).last() == tokens[i as int]@);
        match read_term(tokens[i].as_str(), result.len() + 1, policies) {
            Err(error) => {
                proof {
                    lemma_terms_of_rejected(all, i + 1, policies);
                }
                return Err(error);
            },
            Ok(Term::Dice(command)) => {
                assert(command_specs(result@.push(command)) =~= command_specs(result@).push(
                    command@,
                ));
                result.push(command);
            },
            Ok(Term::Modifier(value)) => {
                modifier = value;
            },
        }
        i = i + 1;
    }
    assert(all.take(i as int) =~= all);
    Ok((result, modifier))
}

/// Terms of which the first `n` are rejected are rejected as a whole, with
/// the same error.
pub proof fn lemma_terms_of_rejected(tokens: Seq<Seq<char>>, n: int, policies: RollPolicies)
    requires
        0 <= n <= tokens.len(),
        terms_of(tokens.take(n), policies).is_err(),
    ensures
        terms_of(tokens, policies) == terms_of(tokens.take(n), policies),
    decreases tokens.len() - n,
{
    if n == tokens.len() {
        assert(tokens.take(n) =~= tokens);
    } else {
        assert(tokens.take(n + 1).drop_last() =~= tokens.take(n));
        lemma_terms_of_rejected(tokens, n + 1, policies);
    }
}

/// Reads a dice expression, such as `2d20+2d6+5`, under the options: the
/// groups of dice, numbered from 1 in their order, and the modifier. The
/// options and every term of the expression have to be readable, and no
/// comparison may carry a number larger than a die.
pub fn build_dice_roll_commands(
    dice_roll: String,
    re_roll: Option<String>,
    re_roll_recursively: Option<String>,
    explode: Option<String>,
    explode_once: Option<String>,
) -> (r: (Vec<DiceRollCommand>, i32))
    requires
        expression_of(
            dice_roll@,
            text_of(re_roll),
            text_of(re_roll_recursively),
            text_of(explode),
            text_of(explode_once),
        ).is_ok(),
    ensures
        expression_of(
            dice_roll@,
            text_of(re_roll),
            text_of(re_roll_recursively),
            text_of(explode),
            text_of(explode_once),
        ) == Ok::<(Seq<RollGroupSpec>, i32), ConfigError>((command_specs(r.0@), r.1)),
{
    let policies = read_policies(&re_roll, &re_roll_recursively, &explode, &explode_once).unwrap();
    let lowercased = lowercase(dice_roll.as_str());
    let tokens = regex_captures_iter(TERMS, lowercased.as_str());
    read_terms(&tokens, policies).unwrap()
}

/// Reads a dice expression under the options, unless an option or a term
/// cannot be read or a comparison carries a number larger than a die.
pub fn try_build_dice_roll_commands(
    dice_roll: String,
    re_roll: Option<String>,
    re_roll_recursively: Option<String>,
    explode: Option<String>,
    explode_once: Option<String>,
) -> (r: Result<(Vec<DiceRollCommand>, i32), ConfigError>)
    ensures
        match r {
            Ok(read) => expression_of(
                dice_roll@,
                text_of(re_roll),
                text_of(re_roll_recursively),
                text_of(explode),
                text_of(explode_once),
            ) == Ok::<(Seq<RollGroupSpec>, i32), ConfigError>((command_specs(read.0@), read.1)),
            Err(error) => expression_of(
                dice_roll@,
                text_of(re_roll),
                text_of(re_roll_recursively),
                text_of(explode),
                text_of(explode_once),
            ) == Err::<(Seq<RollGroupSpec>, i32), ConfigError>(error),
        },
{
    let policies = match read_policies(&re_roll, &re_roll_recursively, &explode, &explode_once) {
        Ok(policies) => policies,
        Err(error) => {
            return Err(error);
        },
    };
    let lowercased = lowercase(dice_roll.as_str());
    let tokens = regex_captures_iter(TERMS, lowercased.as_str());
    match read_terms(&tokens, policies) {
        Err(error) => Err(error),
        Ok(_) => Ok(
            build_dice_roll_commands(dice_roll, re_roll, re_roll_recursively, explode, explode_once),
        ),
    }
}

} // verus!
