use dice_roller::enums::Operator;
use dice_roller::text::{contains, occurs_at, parse_i32, parse_u32, read_digits};
use dice_roller::utils::{
    find_number, find_operator, format_modifier, name_operator, parse_number, parse_operator, read_flag,
    read_yn_tf, same_text, validate_comparison, validate_dice_roll, validate_yn_tf, yn_tf_to_bool,
};

#[test]
fn flags_read_in_either_case() {
    for yes in ["y", "Y", "t", "T"] {
        assert!(yn_tf_to_bool(yes.to_string()));
        assert_eq!(read_yn_tf(yes.to_string()), Some(true));
        assert_eq!(validate_yn_tf(yes), Ok(yes.to_string()));
    }
    for no in ["n", "N", "f", "F"] {
        assert!(!yn_tf_to_bool(no.to_string()));
        assert_eq!(read_yn_tf(no.to_string()), Some(false));
        assert_eq!(validate_yn_tf(no), Ok(no.to_string()));
    }
}

#[test]
fn other_texts_are_no_flags() {
    for other in ["", "yes", "no", "x", "1", " y", "yn"] {
        assert_eq!(read_yn_tf(other.to_string()), None);
        assert_eq!(validate_yn_tf(other), Err("Only Y/N/T/F or y/n/t/f is allowed".to_string()));
    }
    assert_eq!(read_flag("Y"), None);
    assert_eq!(read_flag("y"), Some(true));
    assert_eq!(read_flag("f"), Some(false));
}

#[test]
fn the_first_run_of_digits_is_the_number() {
    assert_eq!(parse_number("gte15"), 15);
    assert_eq!(parse_number("eq1"), 1);
    assert_eq!(parse_number("12d34"), 12);
    assert_eq!(parse_number("a007b9"), 7);
    assert_eq!(parse_number("4294967295"), u32::MAX);
    assert_eq!(find_number("lt20"), Some(20));
    assert_eq!(find_number("none"), None);
    assert_eq!(find_number(""), None);
    assert_eq!(find_number("4294967296"), None);
}

#[test]
fn comparisons_are_read_by_name_and_number() {
    assert_eq!(parse_operator("eq1"), Some(Operator::Eq(1)));
    assert_eq!(parse_operator("gt19"), Some(Operator::Gt(19)));
    assert_eq!(parse_operator("gte5"), Some(Operator::Gte(5)));
    assert_eq!(parse_operator("lt10"), Some(Operator::Lt(10)));
    assert_eq!(parse_operator("lte10"), Some(Operator::Lte(10)));
    assert_eq!(parse_operator("LTE10"), Some(Operator::Lte(10)));
    assert_eq!(parse_operator("GtE7"), Some(Operator::Gte(7)));
}

#[test]
fn texts_without_a_comparison_give_none() {
    assert_eq!(find_operator("10"), None);
    assert_eq!(find_operator("eq"), None);
    assert_eq!(find_operator(""), None);
    assert_eq!(find_operator("ge5"), None);
    assert_eq!(find_operator("eq99999999999"), None);
    assert_eq!(find_operator("eq1"), Some(Operator::Eq(1)));
    assert_eq!(find_operator("LTE10"), Some(Operator::Lte(10)));
    assert_eq!(find_operator("xgt4y"), Some(Operator::Gt(4)));
}

#[test]
fn the_first_name_in_the_list_wins() {
    assert_eq!(name_operator("lteq3", 3), Some(Operator::Eq(3)));
    assert_eq!(name_operator("gtlte", 4), Some(Operator::Lte(4)));
    assert_eq!(name_operator("ltgte", 5), Some(Operator::Gte(5)));
    assert_eq!(name_operator("gtlt", 6), Some(Operator::Lt(6)));
    assert_eq!(name_operator("gt", 7), Some(Operator::Gt(7)));
    assert_eq!(name_operator("GT", 7), None);
    assert_eq!(name_operator("", 7), None);
}

#[test]
fn dice_rolls_are_validated() {
    for good in ["1d20+5", "2d6", "1d4-1", "10d20"] {
        assert_eq!(validate_dice_roll(good), Ok(good.to_string()));
    }
    for bad in ["abc", "d20", "2d", "", "x2d6y"] {
        assert_eq!(
            validate_dice_roll(bad),
            Err("Incorrect dice roll format. Correct examples: 1d20+5, 2d6, 1d4-1".to_string())
        );
    }
}

#[test]
fn comparisons_are_validated() {
    for good in ["eq10", "lt10", "gt10", "gte10", "lte10", "EQ10", "Gte3"] {
        assert_eq!(validate_comparison(good), Ok(good.to_string()));
    }
    for bad in ["10", "eq", "ge10", "", "xeq10"] {
        assert_eq!(
            validate_comparison(bad),
            Err(
                "Incorrect number comparison format. Correct examples: eq10, lt10, gt10, gte10, lte10"
                    .to_string()
            )
        );
    }
}

#[test]
fn modifiers_are_written_with_their_sign() {
    assert_eq!(format_modifier(5), "+5");
    assert_eq!(format_modifier(0), "+0");
    assert_eq!(format_modifier(-3), "-3");
    assert_eq!(format_modifier(i32::MAX), "+2147483647");
    assert_eq!(format_modifier(i32::MIN), "-2147483648");
}

#[test]
fn texts_are_compared_and_searched() {
    assert!(same_text("abc", "abc"));
    assert!(!same_text("abc", "abd"));
    assert!(!same_text("abc", "ab"));
    assert!(same_text("", ""));
    assert!(contains("2d20", "d"));
    assert!(!contains("220", "d"));
    assert!(contains("lte10", "lt"));
    assert!(contains("abc", ""));
    assert!(contains("", ""));
    assert!(!contains("", "a"));
    assert!(!contains("ab", "abc"));
    assert!(contains("xxabc", "abc"));
    assert!(contains("äöü", "ü"));
    assert!(occurs_at("hello", "ll", 2));
    assert!(!occurs_at("hello", "ll", 1));
    assert!(occurs_at("hello", "", 5));
}

#[test]
fn numbers_are_read_with_their_limits() {
    assert_eq!(parse_u32("0"), Some(0));
    assert_eq!(parse_u32("007"), Some(7));
    assert_eq!(parse_u32("+12"), Some(12));
    assert_eq!(parse_u32("4294967295"), Some(u32::MAX));
    assert_eq!(parse_u32("4294967296"), None);
    assert_eq!(parse_u32("99999999999999999999999"), None);
    assert_eq!(parse_u32("-1"), None);
    assert_eq!(parse_u32(""), None);
    assert_eq!(parse_u32("+"), None);
    assert_eq!(parse_u32("1a"), None);
    assert_eq!(parse_u32("١٢"), None);

    assert_eq!(parse_i32("5"), Some(5));
    assert_eq!(parse_i32("+5"), Some(5));
    assert_eq!(parse_i32("-5"), Some(-5));
    assert_eq!(parse_i32("-0"), Some(0));
    assert_eq!(parse_i32("2147483647"), Some(i32::MAX));
    assert_eq!(parse_i32("2147483648"), None);
    assert_eq!(parse_i32("-2147483648"), Some(i32::MIN));
    assert_eq!(parse_i32("-2147483649"), None);
    assert_eq!(parse_i32("-"), None);
    assert_eq!(parse_i32("+-5"), None);
    assert_eq!(parse_i32(""), None);

    assert_eq!(read_digits("ab12", 2, 100), Some(12));
    assert_eq!(read_digits("ab12", 2, 11), None);
    assert_eq!(read_digits("ab12", 4, 100), None);
    assert_eq!(read_digits("ab12", 1, 100), None);
}

#[test]
fn own_readers_agree_with_the_standard_ones() {
    for text in ["0", "12", "+7", "-7", "", "+", "-", "4294967295", "4294967296", "2147483648", "-2147483648", "1_0", " 1", "1 "] {
        assert_eq!(parse_u32(text), text.parse::<u32>().ok());
        assert_eq!(parse_i32(text), text.parse::<i32>().ok());
    }
}
