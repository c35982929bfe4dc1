use aoc::day2::{
    dampen, is_report_safe, is_report_safe_with_dampener, parse_input, parse_report, q1, q2,
};

const TEST_INPUT: &str = "\
7 6 4 2 1
1 2 7 8 9
9 7 6 2 1
1 3 2 4 5
8 6 4 4 1
1 3 6 7 9
";

#[test]
fn main_test_q1() {
    let reports = parse_input(TEST_INPUT).unwrap();
    let q1 = reports.iter().filter(|report| is_report_safe(report)).count();
    assert_eq!(q1, 2);
}

#[test]
fn main_test_q2() {
    let reports = parse_input(TEST_INPUT).unwrap();
    let q1 = reports.iter().filter(|report| is_report_safe_with_dampener(report)).count();
    assert_eq!(q1, 4);
}

#[test]
fn counts_match_the_filters() {
    let reports = parse_input(TEST_INPUT).unwrap();
    assert_eq!(reports.len(), 6);
    assert_eq!(q1(&reports), 2);
    assert_eq!(q2(&reports), 4);
}

#[test]
fn parse_report_reads_signed_levels() {
    assert_eq!(parse_report(b"7 6 4 2 1"), Some(vec![7, 6, 4, 2, 1]));
    assert_eq!(parse_report(b"  -3\t+4   5 "), Some(vec![-3, 4, 5]));
    assert_eq!(parse_report(b""), Some(vec![]));
    assert_eq!(
        parse_report(b"-9223372036854775808 9223372036854775807"),
        Some(vec![i64::MIN, i64::MAX])
    );
    assert_eq!(parse_report(b"1 x 3"), None);
    assert_eq!(parse_report(b"1 - 3"), None);
    assert_eq!(parse_report(b"9223372036854775808"), None);
    assert_eq!(parse_report(b"-9223372036854775809"), None);
    assert_eq!(parse_input("1 2\n3 b\n"), None);
    assert_eq!(parse_input("1 2\n\n3"), Some(vec![vec![1, 2], vec![], vec![3]]));
}

#[test]
fn safety_of_short_and_flat_reports() {
    assert!(is_report_safe(&vec![]));
    assert!(is_report_safe(&vec![5]));
    assert!(is_report_safe(&vec![5, 6]));
    assert!(is_report_safe(&vec![5, 2]));
    assert!(!is_report_safe(&vec![5, 5]));
    assert!(!is_report_safe(&vec![5, 9]));
    assert!(!is_report_safe(&vec![1, 2, 1]));
    assert!(!is_report_safe(&vec![i64::MIN, i64::MAX]));
    assert!(is_report_safe_with_dampener(&vec![5, 5]));
    assert!(is_report_safe_with_dampener(&vec![1, 2, 1]));
    assert!(!is_report_safe_with_dampener(&vec![1, 2, 7, 8, 9]));
}

#[test]
fn dampen_takes_one_level_out() {
    let report = vec![1, 3, 2, 4, 5];
    assert_eq!(dampen(&report, 0), vec![3, 2, 4, 5]);
    assert_eq!(dampen(&report, 2), vec![1, 3, 4, 5]);
    assert_eq!(dampen(&report, 4), vec![1, 3, 2, 4]);
    assert_eq!(report, vec![1, 3, 2, 4, 5]);
}
