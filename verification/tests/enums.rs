use dice_roller::enums::Operator;
use dice_roller::utils::apply_operator;

#[test]
fn operators_compare_against_their_threshold() {
    let cases = [
        (Operator::Eq(3), [false, true, false]),
        (Operator::Gt(3), [false, false, true]),
        (Operator::Gte(3), [false, true, true]),
        (Operator::Lt(3), [true, false, false]),
        (Operator::Lte(3), [true, true, false]),
    ];
    for (operator, expected) in cases {
        assert_eq!(operator.evaluate(2), expected[0]);
        assert_eq!(operator.evaluate(3), expected[1]);
        assert_eq!(operator.evaluate(4), expected[2]);
        assert_eq!(apply_operator(operator, &2), expected[0]);
        assert_eq!(apply_operator(operator, &3), expected[1]);
        assert_eq!(apply_operator(operator, &4), expected[2]);
    }
}

#[test]
fn operators_at_the_ends_of_the_range() {
    assert!(Operator::Gte(0).evaluate(0));
    assert!(!Operator::Gt(u32::MAX).evaluate(u32::MAX));
    assert!(Operator::Lte(u32::MAX).evaluate(u32::MAX));
    assert!(!Operator::Lt(0).evaluate(0));
    assert!(Operator::Eq(u32::MAX).evaluate(u32::MAX));
}
