use aoc::day5::{contains, find_last, find_middle_page, read_pages, topological_ordering, Input};

const TEST_INPUT: &str = "47|53
97|13
97|61
97|47
75|29
61|13
75|53
29|13
97|29
53|29
61|53
97|53
61|29
47|13
75|47
97|75
47|61
75|61
47|29
75|13
53|13

75,47,61,53,29
97,61,53,29,13
75,29,13
75,97,47,61,53
61,13,29
97,13,75,29,47";

#[test]
fn day5_test_q1() {
    let input = Input::parse(TEST_INPUT).unwrap();
    assert_eq!(input.updates.len(), 6);
    assert_eq!(input.constraints.len(), 21);

    assert_eq!(input.updates_in_correct_order(), vec![0, 1, 2]);
    assert_eq!(input.solve_q1(), Some(143));
}

#[test]
fn day5_test_q2() {
    let input = Input::parse(TEST_INPUT).unwrap();

    assert_eq!(input.solve_q2(), Some(123));
}

#[test]
fn updates_are_put_in_the_order_of_the_rules() {
    let input = Input::parse(TEST_INPUT).unwrap();
    assert_eq!(
        topological_ordering(&[75, 97, 47, 61, 53], &input.constraints),
        Some(vec![97, 75, 47, 61, 53])
    );
    assert_eq!(topological_ordering(&[61, 13, 29], &input.constraints), Some(vec![61, 29, 13]));
    assert_eq!(
        topological_ordering(&[97, 13, 75, 29, 47], &input.constraints),
        Some(vec![97, 75, 47, 29, 13])
    );
    assert_eq!(find_middle_page(&[75, 97, 47, 61, 53], &input.constraints), Some(47));
    assert_eq!(find_middle_page(&[61, 13, 29], &input.constraints), Some(29));
    assert_eq!(find_middle_page(&[97, 13, 75, 29, 47], &input.constraints), Some(47));
}

#[test]
fn pages_without_rules_keep_their_order() {
    assert_eq!(topological_ordering(&[3, 1, 2], &[]), Some(vec![3, 1, 2]));
    assert_eq!(topological_ordering(&[3, 1, 2], &[(9, 3), (2, 9)]), Some(vec![3, 1, 2]));
    assert_eq!(topological_ordering(&[3, 1, 2], &[(2, 3)]), Some(vec![1, 2, 3]));
    assert_eq!(topological_ordering(&[], &[(2, 3)]), Some(vec![]));
    assert_eq!(find_middle_page(&[], &[]), None);
}

#[test]
fn rules_in_a_circle_cannot_be_kept() {
    assert_eq!(topological_ordering(&[1, 2], &[(1, 2), (2, 1)]), None);
    assert_eq!(topological_ordering(&[1, 2, 3], &[(1, 2), (2, 3), (3, 1)]), None);
    assert_eq!(topological_ordering(&[5], &[(5, 5)]), None);
    // A page that stands twice is placed once only.
    assert_eq!(topological_ordering(&[4, 4], &[]), None);
    let input = Input { constraints: vec![(1, 2), (2, 1)], updates: vec![vec![2, 1]] };
    assert_eq!(input.solve_q2(), None);
    assert_eq!(input.solve_q1(), Some(0));
}

#[test]
fn an_update_is_correct_when_each_rule_is_kept_or_does_not_apply() {
    let input = Input { constraints: vec![(1, 2), (3, 4)], updates: vec![] };
    assert!(input.update_is_correct(&[1, 2]));
    assert!(!input.update_is_correct(&[2, 1]));
    assert!(input.update_is_correct(&[2]));
    assert!(input.update_is_correct(&[]));
    assert!(input.update_is_correct(&[4, 1, 2]));
    assert!(!input.update_is_correct(&[4, 1, 3]));
    // The last place of a page counts.
    assert!(input.update_is_correct(&[2, 1, 2]));
    assert!(!input.update_is_correct(&[1, 2, 1]));
    assert_eq!(find_last(&[7, 8, 7], 7), Some(2));
    assert_eq!(find_last(&[7, 8, 7], 9), None);
    assert!(contains(&[7, 8], 8));
    assert!(!contains(&[7, 8], 9));
}

#[test]
fn text_without_an_empty_line_is_rejected() {
    assert!(Input::parse("47|53\n75,47").is_none());
    assert!(Input::parse("").is_none());
    assert!(Input::parse("47|53|9\n\n75,47").is_none());
    assert!(Input::parse("47|x\n\n75,47").is_none());
    assert!(Input::parse("47|53\n\n75,-47").is_none());
    let input = Input::parse("47|53\n\n75,47\n\n1").unwrap();
    assert_eq!(input.constraints, vec![(47, 53)]);
    assert_eq!(input.updates, vec![vec![75, 47], vec![], vec![1]]);
    let input = Input::parse("\n").unwrap();
    assert!(input.constraints.is_empty());
    assert!(input.updates.is_empty());
    assert_eq!(read_pages(b"75,47"), Some(vec![75, 47]));
    assert_eq!(read_pages(b"4294967296"), None);
}
