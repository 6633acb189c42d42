use regex::Regex;
use vstd::prelude::*;
use vstd::string::*;

verus! {

/// The lower-case form of a text, as `str::to_lowercase` gives it.
pub uninterp spec fn lowercase_of(text: Seq<char>) -> Seq<char>;

/// The text of the first match of a regular expression in a text, as
/// `regex::Regex::find` gives it; none where the text has no match or the
/// expression is not one.
pub uninterp spec fn regex_first_match(pattern: Seq<char>, text: Seq<char>) -> Option<Seq<char>>;

/// The texts of the successive matches of a regular expression in a text, as
/// `regex::Regex::captures_iter` gives them.
pub uninterp spec fn regex_all_matches(pattern: Seq<char>, text: Seq<char>) -> Seq<Seq<char>>;

/// The texts of the first two groups of the first match of a regular
/// expression in a text, as `regex::Regex::captures` gives them.
pub uninterp spec fn regex_first_groups(pattern: Seq<char>, text: Seq<char>) -> Option<
    (Option<Seq<char>>, Option<Seq<char>>),
>;

/// Whether a regular expression has a match in a text, as
/// `regex::Regex::is_match` says.
pub uninterp spec fn regex_has_match(pattern: Seq<char>, text: Seq<char>) -> bool;

/// The value of a text that may be missing.
pub open spec fn text_of(text: Option<String>) -> Option<Seq<char>> {
    match text {
        Some(t) => Some(t@),
        None => None,
    }
}

/// The values of a list of texts.
pub open spec fn texts_of(texts: Seq<String>) -> Seq<Seq<char>> {
    Seq::new(texts.len(), |i: int| texts[i]@)
}

/// The values of a pair of texts that may be missing.
pub open spec fn text_pair_of(texts: Option<(Option<String>, Option<String>)>) -> Option<
    (Option<Seq<char>>, Option<Seq<char>>),
> {
    match texts {
        Some(pair) => Some((text_of(pair.0), text_of(pair.1))),
        None => None,
    }
}

/// Lower-cases `text` with `str::to_lowercase`; the result is given the name
/// `lowercase_of`.
#[verifier::external_body]
pub(crate) fn lowercase(text: &str) -> (r: String)
    ensures
        r@ == lowercase_of(text@),
{
    text.to_lowercase()
}

/// Compiles `pattern` with `regex::Regex::new` and searches `text` with
/// `regex::Regex::find`. The text of the match, if there is one, is given the
/// name `regex_first_match`.
#[verifier::external_body]
pub(crate) fn regex_find(pattern: &str, text: &str) -> (r: Option<String>)
    ensures
        text_of(r) == regex_first_match(pattern@, text@),
{
    match Regex::new(pattern) {
        Ok(re) => re.find(text).map(|m| m.as_str().to_string()),
        Err(_) => None,
    }
}

/// Compiles `pattern` with `regex::Regex::new` and walks `text` with
/// `regex::Regex::captures_iter`. The texts of the whole matches, in order,
/// are given the name `regex_all_matches`; there are none where the
/// expression is not one.
#[verifier::external_body]
pub(crate) fn regex_captures_iter(pattern: &str, text: &str) -> (r: Vec<String>)
    ensures
        texts_of(r@) == regex_all_matches(pattern@, text@),
{
    match Regex::new(pattern) {
        Ok(re) => re.captures_iter(text).map(|c| c[0].to_string()).collect(),
        Err(_) => Vec::new(),
    }
}

/// Compiles `pattern` with `regex::Regex::new` and searches `text` with
/// `regex::Regex::captures`. The texts of the groups 1 and 2 of the match,
/// each if it took part, are given the name `regex_first_groups`.
#[verifier::external_body]
pub(crate) fn regex_captures(pattern: &str, text: &str) -> (r: Option<
    (Option<String>, Option<String>),
>)
    ensures
        text_pair_of(r) == regex_first_groups(pattern@, text@),
{
    match Regex::new(pattern) {
        Ok(re) => re.captures(text).map(
            |c|
                (
                    c.get(1).map(|m| m.as_str().to_string()),
                    c.get(2).map(|m| m.as_str().to_string()),
                ),
        ),
        Err(_) => None,
    }
}

/// Compiles `pattern` with `regex::Regex::new` and tests `text` with
/// `regex::Regex::is_match`. The answer is given the name `regex_has_match`;
/// it is no where the expression is not one.
#[verifier::external_body]
pub(crate) fn regex_is_match(pattern: &str, text: &str) -> (r: bool)
    ensures
        r == regex_has_match(pattern@, text@),
{
    match Regex::new(pattern) {
        Ok(re) => re.is_match(text),
        Err(_) => false,
    }
}

/// `c` is one of the digits `0` to `9`.
pub open spec fn is_digit(c: char) -> bool {
    '0' <= c <= '9'
}

/// Every character of `text` is a digit.
pub open spec fn all_digits(text: Seq<char>) -> bool {
    forall|i: int| 0 <= i < text.len() ==> is_digit(#[trigger] text[i])
}

/// The number that the digits of `text` write in base ten.
pub open spec fn decimal_value(text: Seq<char>) -> int
    decreases text.len(),
{
    if text.len() == 0 {
        0
    } else {
        decimal_value(text.drop_last()) * 10 + (text.last() as int - '0' as int)
    }
}

/// The number that `text` writes: at least one digit, after a plus sign, after
/// a minus sign where `minus_allowed`, or after nothing.
pub open spec fn signed_value(text: Seq<char>, minus_allowed: bool) -> Option<int> {
    let negative = minus_allowed && text.len() > 0 && text[0] == '-';
    let signed = text.len() > 0 && (text[0] == '+' || negative);
    let digits = if signed {
        text.drop_first()
    } else {
        text
    };
    if digits.len() > 0 && all_digits(digits) {
        Some(
            if negative {
                -decimal_value(digits)
            } else {
                decimal_value(digits)
            },
        )
    } else {
        None
    }
}

/// The `u32` that `text` writes, if it writes one: digits, after a `+` or
/// after nothing.
pub open spec fn u32_of(text: Seq<char>) -> Option<u32> {
    match signed_value(text, false) {
        Some(value) => if value <= u32::MAX {
            Some(value as u32)
        } else {
            None
        },
        None => None,
    }
}

/// The `i32` that `text` writes, if it writes one: digits, after a `+`, a
/// `-` or nothing.
pub open spec fn i32_of(text: Seq<char>) -> Option<i32> {
    match signed_value(text, true) {
        Some(value) => if i32::MIN <= value <= i32::MAX {
            Some(value as i32)
        } else {
            None
        },
        None => None,
    }
}

/// `pattern` occurs in `text`.
pub open spec fn has_substring(text: Seq<char>, pattern: Seq<char>) -> bool {
    exists|i: int|
        0 <= i <= text.len() - pattern.len() && #[trigger] text.subrange(
            i,
            i + pattern.len() as int,
        ) == pattern
}

/// Digits in front of a number make up no more than the number.
pub proof fn lemma_decimal_value_grows(text: Seq<char>, n: int)
    requires
        all_digits(text),
        0 <= n <= text.len(),
    ensures
        0 <= decimal_value(text.take(n)) <= decimal_value(text),
    decreases text.len() - n,
{
    if n == text.len() {
        assert(text.take(n) =~= text);
        lemma_decimal_value_nonnegative(text);
    } else {
        lemma_decimal_value_grows(text, n + 1);
        assert(text.take(n + 1).drop_last() =~= text.take(n));
        assert(is_digit(text[n]));
        lemma_decimal_value_nonnegative(text.take(n));
    }
}

/// Digits write a number that is not negative.
pub proof fn lemma_decimal_value_nonnegative(text: Seq<char>)
    requires
        all_digits(text),
    ensures
        0 <= decimal_value(text),
    decreases text.len(),
{
    if text.len() > 0 {
        assert(is_digit(text.last()));
        lemma_decimal_value_nonnegative(text.drop_last());
    }
}

/// Reads the characters of `text` from position `from` on as a number of at
/// most `limit`; there is none where they are not all digits, where there is
/// no digit, or where the number is larger.
pub fn read_digits(text: &str, from: usize, limit: u64) -> (r: Option<u64>)
    requires
        from <= text@.len(),
        limit <= 0xffff_ffff,
    ensures
        ({
            let digits = text@.subrange(from as int, text@.len() as int);
            &&& r.is_some() <==> digits.len() > 0 && all_digits(digits) && decimal_value(digits)
                <= limit
            &&& r matches Some(value) ==> value == decimal_value(digits)
        }),
{
    let ghost digits = text@.subrange(from as int, text@.len() as int);
    let length = text.unicode_len();
    if from == length {
        return None;
    }
    let mut value: u64 = 0;
    let mut i: usize = from;
    while i < length
        invariant
            from <= i <= length,
            length == text@.len(),
            digits == text@.subrange(from as int, text@.len() as int),
            all_digits(digits.take(i - from)),
            value == decimal_value(digits.take(i - from)),
            value <= limit <= 0xffff_ffff,
        decreases length - i,
    {
        let c = text.get_char(i);
        assert(digits[i - from] == c);
        if c < '0' || c > '9' {
            return None;
        }
        assert(digits.take(i - from + 1).drop_last() =~= digits.take(i - from));
        assert(all_digits(digits.take(i - from + 1))) by {
            assert forall|k: int| 0 <= k < i - from + 1 implies is_digit(
                #[trigger] digits.take(i - from + 1)[k],
            ) by {
                if k < i - from {
                    assert(digits.take(i - from)[k] == digits[k]);
                }
            }
        }
        let next: u64 = value * 10 + (c as u64 - '0' as u64);
        if next > limit {
            proof {
                if all_digits(digits) {
                    lemma_decimal_value_grows(digits, i - from + 1);
                }
            }
            return None;
        }
        value = next;
        i = i + 1;
    }
    assert(digits.take(i - from) =~= digits);
    Some(value)
}

/// Reads `text` as a `u32`: digits, after a `+` or after nothing.
pub fn parse_u32(text: &str) -> (r: Option<u32>)
    ensures
        r == u32_of(text@),
{
    let length = text.unicode_len();
    let from: usize = if length > 0 && text.get_char(0) == '+' {
        1
    } else {
        0
    };
    proof {
        if length > 0 {
            assert(text@.subrange(1, text@.len() as int) =~= text@.drop_first());
        }
        assert(text@.subrange(0, text@.len() as int) =~= text@);
        let digits = text@.subrange(from as int, text@.len() as int);
        if all_digits(digits) {
            lemma_decimal_value_nonnegative(digits);
        }
    }
    match read_digits(text, from, 0xffff_ffff) {
        Some(value) => Some(value as u32),
        None => None,
    }
}

/// Reads `text` as an `i32`: digits, after a `+`, a `-` or nothing.
pub fn parse_i32(text: &str) -> (r: Option<i32>)
    ensures
        r == i32_of(text@),
{
    let length = text.unicode_len();
    let negative = length > 0 && text.get_char(0) == '-';
    let from: usize = if length > 0 && (text.get_char(0) == '+' || negative) {
        1
    } else {
        0
    };
    proof {
        if length > 0 {
            assert(text@.subrange(1, text@.len() as int) =~= text@.drop_first());
        }
        assert(text@.subrange(0, text@.len() as int) =~= text@);
        let digits = text@.subrange(from as int, text@.len() as int);
        if all_digits(digits) {
            lemma_decimal_value_nonnegative(digits);
        }
    }
    if negative {
        match read_digits(text, from, 0x8000_0000) {
            Some(value) => Some((-(value as i64)) as i32),
            None => None,
        }
    } else {
        match read_digits(text, from, 0x7fff_ffff) {
            Some(value) => Some(value as i32),
            None => None,
        }
    }
}

/// Whether `pattern` stands in `text` at position `at`.
pub fn occurs_at(text: &str, pattern: &str, at: usize) -> (r: bool)
    requires
        at + pattern@.len() <= text@.len(),
    ensures
        r == (text@.subrange(at as int, at + pattern@.len()) == pattern@),
{
    let length = pattern.unicode_len();
    let whole = text.unicode_len();
    let mut j: usize = 0;
    while j < length
        invariant
            j <= length,
            length == pattern@.len(),
            whole == text@.len(),
            at + length <= whole,
            forall|k: int| 0 <= k < j ==> text@[at + k] == pattern@[k],
        decreases length - j,
    {
        if text.get_char(at + j) != pattern.get_char(j) {
            assert(text@.subrange(at as int, at + pattern@.len())[j as int] != pattern@[j as int]);
            return false;
        }
        j = j + 1;
    }
    assert(text@.subrange(at as int, at + pattern@.len()) =~= pattern@);
    true
}

/// Whether `pattern` occurs in `text`.
pub fn contains(text: &str, pattern: &str) -> (r: bool)
    ensures
        r == has_substring(text@, pattern@),
{
    let length = text.unicode_len();
    let width = pattern.unicode_len();
    if width > length {
        return false;
    }
    let mut i: usize = 0;
    while i < length - width
        invariant
            i <= length - width,
            width <= length,
            length == text@.len(),
            width == pattern@.len(),
            forall|k: int| 0 <= k < i ==> #[trigger] text@.subrange(k, k + width) != pattern@,
        decreases length - width - i,
    {
        if occurs_at(text, pattern, i) {
            return true;
        }
        i = i + 1;
    }
    occurs_at(text, pattern, i)
}

} // verus!
