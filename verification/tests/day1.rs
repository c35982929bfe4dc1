use aoc::day1::{abs_diff, frequencies, parse_lists, parse_num, part1, part2};

const TEST_INPUT: &str = "\
3   4
4   3
2   5
1   3
3   9
3   3";

#[test]
fn lists_are_read_and_sorted() {
    let (l, r) = parse_lists(TEST_INPUT).unwrap();
    assert_eq!(l, vec![1, 2, 3, 3, 3, 4]);
    assert_eq!(r, vec![3, 3, 3, 4, 5, 9]);
}

#[test]
fn example_distances_and_similarity() {
    let lists = parse_lists(TEST_INPUT).unwrap();
    assert_eq!(part1(&lists), 11);
    assert_eq!(part2(&lists), 31);
}

#[test]
fn frequencies_count_each_number() {
    let d = frequencies(&vec![3, 4, 3, 9, 3]);
    assert_eq!(d.len(), 3);
    assert_eq!(d.get(&3), Some(&3));
    assert_eq!(d.get(&4), Some(&1));
    assert_eq!(d.get(&9), Some(&1));
    assert_eq!(d.get(&5), None);
}

#[test]
fn abs_diff_is_the_distance_either_way() {
    assert_eq!(abs_diff((&3, &9)), 6);
    assert_eq!(abs_diff((&9, &3)), 6);
    assert_eq!(abs_diff((&u64::MAX, &0)), u64::MAX);
    assert_eq!(abs_diff((&7, &7)), 0);
}

#[test]
fn lists_of_different_length_are_compared_as_far_as_both_go() {
    assert_eq!(part1(&(vec![1, 5], vec![4])), 3);
    assert_eq!(part2(&(vec![4, 4, 1], vec![4])), 8);
    assert_eq!(part1(&(vec![], vec![])), 0);
}

#[test]
fn malformed_lines_are_rejected() {
    assert!(parse_lists("1 2\n3\n").is_none());
    assert!(parse_lists("1 2 3").is_none());
    assert!(parse_lists("1 b").is_none());
    assert_eq!(parse_lists(""), Some((vec![], vec![])));
    assert_eq!(parse_num(b"42"), Some(42));
    assert_eq!(parse_num(b""), None);
    assert_eq!(parse_num(b"18446744073709551615"), Some(u64::MAX));
    assert_eq!(parse_num(b"18446744073709551616"), None);
}
