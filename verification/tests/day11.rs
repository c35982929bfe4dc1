use aoc::day11::{even_num_of_digits, num_digits, split};

#[test]
fn test_num_digits() {
    assert_eq!(num_digits(111), 3);
}

#[test]
fn test_split() {
    assert_eq!(split(10299234), (1029, 9234));
    assert_eq!(split(102234), (102, 234));
    assert_eq!(split(1034), (10, 34));
}

#[test]
fn digits_at_the_powers_of_ten() {
    assert_eq!(num_digits(1), 1);
    assert_eq!(num_digits(9), 1);
    assert_eq!(num_digits(10), 2);
    assert_eq!(num_digits(99), 2);
    assert_eq!(num_digits(100), 3);
    assert_eq!(num_digits(u64::MAX), 20);
    assert!(even_num_of_digits(10));
    assert!(!even_num_of_digits(100));
}

#[test]
fn split_keeps_both_halves() {
    assert_eq!(split(1234), (12, 34));
    assert_eq!(split(1000), (10, 0));
    assert_eq!(split(7), (7, 0));
    assert_eq!(split(123), (12, 3));
    let (l, r) = split(u64::MAX);
    assert_eq!(l, 1844674407);
    assert_eq!(r, 3709551615);
    assert_eq!(l * 10_000_000_000 + r, u64::MAX);
}

#[test]
fn day11_test_example() {
    let input = aoc::day11::parse("125 17").unwrap();
    let expected = 55312;
    assert_eq!(aoc::day11::q1(&input), Some(expected));
}

#[test]
fn blink_follows_the_three_rules() {
    let mut stones = aoc::day11::parse("0 1 10 99 999").unwrap();
    assert!(aoc::day11::blink(&mut stones));
    // 0 -> 1, 1 -> 2024, 10 -> 1 0, 99 -> 9 9, 999 -> 2021976
    let mut entries: Vec<(u64, usize)> = stones.iter().map(|(k, v)| (*k, *v)).collect();
    entries.sort();
    assert_eq!(entries, vec![(0, 1), (1, 2), (9, 2), (2024, 1), (2021976, 1)]);
}

#[test]
fn stones_are_counted_by_number() {
    let stones = aoc::day11::parse(" 7 7\t3 7\n").unwrap();
    assert_eq!(stones.len(), 2);
    assert_eq!(stones.get(&7), Some(&3));
    assert_eq!(stones.get(&3), Some(&1));
    assert_eq!(aoc::day11::solve(&stones, 0), Some(4));
    assert!(aoc::day11::parse("7 x").is_none());
    assert!(aoc::day11::parse("18446744073709551616").is_none());
}

#[test]
fn example_grows_blink_by_blink() {
    let stones = aoc::day11::parse("125 17").unwrap();
    let sizes: Vec<Option<usize>> = (0..7).map(|n| aoc::day11::solve(&stones, n)).collect();
    assert_eq!(
        sizes,
        vec![Some(2), Some(3), Some(4), Some(5), Some(9), Some(13), Some(22)]
    );
    assert_eq!(aoc::day11::q2(&stones), Some(65601038650482));
}

#[test]
fn blink_reports_a_number_that_does_not_fit() {
    let mut stones = aoc::day11::parse("9999999999999999999").unwrap();
    assert!(!aoc::day11::blink(&mut stones));
    let stones = aoc::day11::parse("9999999999999999999").unwrap();
    assert_eq!(aoc::day11::solve(&stones, 1), None);
    let mut counts = aoc::day11::parse("0").unwrap();
    assert!(aoc::day11::add_to(&mut counts, 0, usize::MAX - 1));
    assert!(!aoc::day11::add_to(&mut counts, 0, 1));
    assert_eq!(counts.get(&0), Some(&usize::MAX));
}
