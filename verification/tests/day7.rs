use aoc::day7::{is_solvable, parse, q1, q2};

const TEST_INPUT: &str = "190: 10 19
3267: 81 40 27
83: 17 5
156: 15 6
7290: 6 8 6 15
161011: 16 10 13
192: 17 8 14
21037: 9 7 18 13
292: 11 6 16 20";

#[test]
fn day7_test_q1() {
    let input = parse(TEST_INPUT).unwrap();
    assert_eq!(q1(&input), Some(3749));
}

#[test]
fn day7_test_q2() {
    let input = parse(TEST_INPUT).unwrap();
    assert_eq!(q2(&input), Some(11387));
}

#[test]
fn test_bad1() {
    let input = parse("156: 15 6").unwrap();
    let _eq = input.equations.first().unwrap();
}

#[test]
fn test_bad2() {
    let input = parse("7290: 6 8 6 15").unwrap();
    let _eq = input.equations.first().unwrap();
}

#[test]
fn test_bad3() {
    let input = parse("192: 17 8 14").unwrap();
    let _eq = input.equations.first().unwrap();
}

#[test]
fn equations_are_written_out() {
    assert_eq!(is_solvable(190, &[10, 19], false), Some("10 * 19".to_string()));
    assert_eq!(is_solvable(3267, &[81, 40, 27], false), Some("81 * 40 + 27".to_string()));
    assert_eq!(is_solvable(292, &[11, 6, 16, 20], false), Some("11 + 6 * 16 + 20".to_string()));
    assert_eq!(is_solvable(83, &[17, 5], false), None);
    assert_eq!(is_solvable(7, &[7], false), Some("7".to_string()));
    assert_eq!(is_solvable(8, &[7], true), None);
}

#[test]
fn joining_writes_digits_behind() {
    assert_eq!(is_solvable(156, &[15, 6], false), None);
    assert_eq!(is_solvable(156, &[15, 6], true), Some("15 || 6".to_string()));
    assert_eq!(is_solvable(7290, &[6, 8, 6, 15], true), Some("6 * 8 || 6 * 15".to_string()));
    assert_eq!(is_solvable(192, &[17, 8, 14], true), Some("17 || 8 + 14".to_string()));
    assert_eq!(is_solvable(1010, &[10, 10], true), Some("10 || 10".to_string()));
    assert_eq!(is_solvable(100, &[1, 0 + 100], true), Some("1 * 100".to_string()));
}

#[test]
fn negative_numbers_add_and_multiply() {
    assert_eq!(is_solvable(-6, &[2, -3], false), Some("2 * -3".to_string()));
    assert_eq!(is_solvable(-1, &[2, -3], false), Some("2 + -3".to_string()));
    assert_eq!(
        is_solvable(i64::MIN, &[i64::MAX, -1, -1], false),
        Some(format!("{} * -1 + -1", i64::MAX))
    );
    assert_eq!(is_solvable(i64::MIN, &[i64::MAX, 1, 1], false), None);
    assert_eq!(
        is_solvable(i64::MIN, &[i64::MIN + 1, -1], false),
        Some(format!("{} + -1", i64::MIN + 1))
    );
}

#[test]
fn lines_without_numbers_to_join_are_rejected() {
    assert!(parse("190: 10 19\n83:").is_none());
    assert!(parse("190").is_none());
    let input = parse("190: 10 19\n").unwrap();
    assert_eq!(input.equations.len(), 1);
    assert_eq!(input.equations[0].goal, 190);
    assert_eq!(input.equations[0].items, vec![10, 19]);
}
