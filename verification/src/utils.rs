use crate::enums::Operator;
use crate::text::{
    contains, has_substring, lowercase, lowercase_of, parse_u32, regex_find, regex_first_match,
    regex_has_match, regex_is_match, u32_of,
};
use vstd::prelude::*;
use vstd::string::*;

verus! {

/// The regular expression of a run of digits.
pub const DIGITS: &'static str = "\\d+";

/// What a lower-cased yes-or-no flag says: yes for `y` and `t`, no for `n`
/// and `f`, nothing for any other text.
pub open spec fn flag_of(lowercased: Seq<char>) -> Option<bool> {
    if lowercased == "y"@ || lowercased == "t"@ {
        Some(true)
    } else if lowercased == "n"@ || lowercased == "f"@ {
        Some(false)
    } else {
        None
    }
}

/// The number that the first run of digits in `text` writes, if there is
/// such a run and it writes a `u32`.
pub open spec fn number_in(text: Seq<char>) -> Option<u32> {
    match regex_first_match(DIGITS@, text) {
        Some(digits) => u32_of(digits),
        None => None,
    }
}

/// The comparison that a lower-cased text names, against `number`: the
/// first of `eq`, `lte`, `gte`, `lt` and `gt` that occurs in it.
pub open spec fn operator_named(lowercased: Seq<char>, number: u32) -> Option<Operator> {
    if has_substring(lowercased, "eq"@) {
        Some(Operator::Eq(number))
    } else if has_substring(lowercased, "lte"@) {
        Some(Operator::Lte(number))
    } else if has_substring(lowercased, "gte"@) {
        Some(Operator::Gte(number))
    } else if has_substring(lowercased, "lt"@) {
        Some(Operator::Lt(number))
    } else if has_substring(lowercased, "gt"@) {
        Some(Operator::Gt(number))
    } else {
        None
    }
}

/// The comparison that `text` writes: the one that its lower-case form
/// names, against the number in it.
pub open spec fn operator_in(text: Seq<char>) -> Option<Operator> {
    match number_in(text) {
        Some(number) => operator_named(lowercase_of(text), number),
        None => None,
    }
}

/// Evaluates `operator` on `value`.
pub fn apply_operator(operator: Operator, value: &u32) -> (r: bool)
    ensures
        r == operator.holds(*value),
{
    operator.evaluate(*value)
}

/// Whether `text` is `other`.
pub fn same_text(text: &str, other: &str) -> (r: bool)
    ensures
        r == (text@ == other@),
{
    let length = text.unicode_len();
    if length != other.unicode_len() {
        return false;
    }
    let mut i: usize = 0;
    while i < length
        invariant
            i <= length,
            length == text@.len(),
            length == other@.len(),
            forall|k: int| 0 <= k < i ==> text@[k] == other@[k],
        decreases length - i,
    {
        if text.get_char(i) != other.get_char(i) {
            return false;
        }
        i = i + 1;
    }
    assert(text@ =~= other@);
    true
}

/// Reads a lower-cased yes-or-no flag.
pub fn read_flag(lowercased: &str) -> (r: Option<bool>)
    ensures
        r == flag_of(lowercased@),
{
    if same_text(lowercased, "y") || same_text(lowercased, "t") {
        Some(true)
    } else if same_text(lowercased, "n") || same_text(lowercased, "f") {
        Some(false)
    } else {
        None
    }
}

/// Reads the yes-or-no flag `value`, in either case.
pub fn yn_tf_to_bool(value: String) -> (r: bool)
    requires
        flag_of(lowercase_of(value@)).is_some(),
    ensures
        Some(r) == flag_of(lowercase_of(value@)),
{
    let lowercased = lowercase(value.as_str());
    read_flag(lowercased.as_str()).unwrap()
}

/// Reads `value` as a yes-or-no flag, if it is one.
pub fn read_yn_tf(value: String) -> (r: Option<bool>)
    ensures
        r == flag_of(lowercase_of(value@)),
{
    let lowercased = lowercase(value.as_str());
    if read_flag(lowercased.as_str()).is_some() {
        Some(yn_tf_to_bool(value))
    } else {
        None
    }
}

/// Accepts `s` where it is a yes-or-no flag, in either case.
pub fn validate_yn_tf(s: &str) -> (r: Result<String, String>)
    ensures
        r.is_ok() <==> flag_of(lowercase_of(s@)).is_some(),
        r matches Ok(accepted) ==> accepted@ == s@,
        r matches Err(message) ==> message@ == "Only Y/N/T/F or y/n/t/f is allowed"@,
{
    let lowercased = lowercase(s);
    if read_flag(lowercased.as_str()).is_some() {
        Ok(s.to_owned())
    } else {
        Err("Only Y/N/T/F or y/n/t/f is allowed".to_owned())
    }
}

/// The number that the first run of digits in `input` writes.
pub fn parse_number(input: &str) -> (r: u32)
    requires
        number_in(input@).is_some(),
    ensures
        Some(r) == number_in(input@),
{
    let digits = regex_find(DIGITS, input).unwrap();
    parse_u32(digits.as_str()).unwrap()
}

/// The number that the first run of digits in `input` writes, if there is
/// such a run and it writes a `u32`.
pub fn find_number(input: &str) -> (r: Option<u32>)
    ensures
        r == number_in(input@),
{
    match regex_find(DIGITS, input) {
        Some(digits) => {
            if parse_u32(digits.as_str()).is_some() {
                Some(parse_number(input))
            } else {
                None
            }
        },
        None => None,
    }
}

/// The comparison that the lower-cased text names, against `number`.
pub fn name_operator(lowercased: &str, number: u32) -> (r: Option<Operator>)
    ensures
        r == operator_named(lowercased@, number),
{
    if contains(lowercased, "eq") {
        Some(Operator::Eq(number))
    } else if contains(lowercased, "lte") {
        Some(Operator::Lte(number))
    } else if contains(lowercased, "gte") {
        Some(Operator::Gte(number))
    } else if contains(lowercased, "lt") {
        Some(Operator::Lt(number))
    } else if contains(lowercased, "gt") {
        Some(Operator::Gt(number))
    } else {
        None
    }
}

/// Reads `input` as a comparison: one of `eq`, `lte`, `gte`, `lt` and `gt`,
/// in either case, with a number. The text has to write one.
pub fn parse_operator(input: &str) -> (r: Option<Operator>)
    requires
        operator_in(input@).is_some(),
    ensures
        r.is_some(),
        r == operator_in(input@),
{
    let number = parse_number(input);
    let lowercased = lowercase(input);
    name_operator(lowercased.as_str(), number)
}

/// Reads `input` as a comparison, if it writes one: there is none where the
/// text names no comparison or holds no number.
pub fn find_operator(input: &str) -> (r: Option<Operator>)
    ensures
        r == operator_in(input@),
{
    match find_number(input) {
        Some(number) => {
            let lowercased = lowercase(input);
            if name_operator(lowercased.as_str(), number).is_some() {
                parse_operator(input)
            } else {
                None
            }
        },
        None => None,
    }
}

/// The regular expression of a dice roll: a group of dice, with or without
/// a signed number behind it.
pub const DICE_ROLL: &'static str = "\\b\\d+d\\d+([+-]\\d+)?\\b";

/// The regular expression of a comparison: its name and its number.
pub const COMPARISON: &'static str = "\\b(eq|lt|lte|gt|gte)\\d+\\b";

/// Accepts `s` where it holds a dice roll.
pub fn validate_dice_roll(s: &str) -> (r: Result<String, String>)
    ensures
        r.is_ok() <==> regex_has_match(DICE_ROLL@, s@),
        r matches Ok(accepted) ==> accepted@ == s@,
        r matches Err(message) ==> message@
            == "Incorrect dice roll format. Correct examples: 1d20+5, 2d6, 1d4-1"@,
{
    if regex_is_match(DICE_ROLL, s) {
        Ok(s.to_owned())
    } else {
        Err("Incorrect dice roll format. Correct examples: 1d20+5, 2d6, 1d4-1".to_owned())
    }
}

/// Accepts `s` where its lower-case form holds a comparison.
pub fn validate_comparison(s: &str) -> (r: Result<String, String>)
    ensures
        r.is_ok() <==> regex_has_match(COMPARISON@, lowercase_of(s@)),
        r matches Ok(accepted) ==> accepted@ == s@,
        r matches Err(message) ==> message@
            == "Incorrect number comparison format. Correct examples: eq10, lt10, gt10, gte10, lte10"@,
{
    let lowercased = lowercase(s);
    if regex_is_match(COMPARISON, lowercased.as_str()) {
        Ok(s.to_owned())
    } else {
        Err(
            "Incorrect number comparison format. Correct examples: eq10, lt10, gt10, gte10, lte10".to_owned(),
        )
    }
}

/// Writes a modifier with its sign: a plus sign in front of a number that
/// is not negative.
pub fn format_modifier(modifier: i32) -> (r: String)
    ensures
        exists|number: String| #[trigger]
            to_string_from_display_ensures(&modifier, number) && r@ == if modifier >= 0 {
                "+"@ + number@
            } else {
                number@
            },
{
    let number = modifier.to_string();
    if modifier >= 0 {
        String::from_str("+").concat(number.as_str())
    } else {
        number
    }
}

} // verus!
