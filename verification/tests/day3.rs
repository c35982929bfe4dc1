use aoc::day3::{parse, q1, q2, Mul, Part};

const TEST_INPUT: &str = "xmul(2,4)%&mul[3,7]!@^do_not_mul(5,5)+mul(32,64]then(mul(11,8)mul(8,5))";

#[test]
fn day3_test_parser() {
    let actual = parse("mul(31,4)", Part::P1);
    assert_eq!(actual, Some(31 * 4));
}

#[test]
fn main_test_parser() {
    let actual = parse("mul(31,4)", Part::P1);
    assert_eq!(actual, Some(31 * 4));
}

#[test]
fn day3_test_q1() {
    let actual = parse(TEST_INPUT, Part::P1);
    assert_eq!(actual, Some(161));
    assert_eq!(q1(TEST_INPUT), Some(161));
}

#[test]
fn day3_test_q2() {
    let test_input = "xmul(2,4)&mul[3,7]!^don't()_mul(5,5)+mul(32,64](mul(11,8)undo()?mul(8,5))";
    let actual = parse(test_input, Part::P2);
    assert_eq!(actual, Some(48));
    assert_eq!(q2(test_input), Some(48));
    assert_eq!(parse(test_input, Part::P1), Some(161));
}

#[test]
fn numbers_have_no_leading_zero() {
    assert_eq!(parse("mul(0,7)", Part::P1), Some(0));
    assert_eq!(parse("mul(10,07)", Part::P1), Some(0));
    assert_eq!(parse("mul(010,7)", Part::P1), Some(0));
    assert_eq!(parse("mul(10,70)", Part::P1), Some(700));
    assert_eq!(parse("mul(7,0)mul(0,0)mul(1,1)", Part::P1), Some(1));
}

#[test]
fn rubbish_is_passed_over() {
    assert_eq!(parse("", Part::P1), Some(0));
    assert_eq!(parse("mul(4*", Part::P1), Some(0));
    assert_eq!(parse("mul(6,9!", Part::P1), Some(0));
    assert_eq!(parse("?(12,34)", Part::P1), Some(0));
    assert_eq!(parse("mul ( 2 , 4 )", Part::P1), Some(0));
    assert_eq!(parse("mul(2,4", Part::P1), Some(0));
    assert_eq!(parse("mul(,4)", Part::P1), Some(0));
    assert_eq!(parse("mul(-2,4)", Part::P1), Some(0));
    assert_eq!(parse("mumul(2,4)l(3,3)", Part::P1), Some(8));
    assert_eq!(parse("mul(mul(3,5),2)", Part::P1), Some(15));
    assert_eq!(parse("é\u{1F600}mul(2,4)", Part::P1), Some(8));
}

#[test]
fn switches_only_count_in_part_two() {
    let text = "don't()mul(2,3)do()mul(4,5)don't()do()mul(1,1)";
    assert_eq!(parse(text, Part::P1), Some(6 + 20 + 1));
    assert_eq!(parse(text, Part::P2), Some(20 + 1));
    assert_eq!(parse("do()do()mul(2,3)", Part::P2), Some(6));
    assert_eq!(parse("don't()don't()do()mul(2,3)", Part::P2), Some(6));
    assert_eq!(parse("don'tmul(2,3)", Part::P2), Some(6));
    assert_eq!(parse("mul(2,don't()3)mul(2,3)", Part::P2), Some(0));
}

#[test]
fn numbers_and_sums_that_do_not_fit() {
    assert_eq!(parse("mul(4294967295,1)", Part::P1), Some(u32::MAX));
    // A number above u32::MAX is no number.
    assert_eq!(parse("mul(4294967296,1)mul(2,2)", Part::P1), Some(4));
    assert_eq!(parse("mul(65536,65536)", Part::P1), None);
    assert_eq!(parse("mul(4294967295,1)mul(1,1)", Part::P1), None);
    assert_eq!(Mul(31, 4).run(), 124);
}
