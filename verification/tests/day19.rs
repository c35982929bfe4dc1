use aoc::day19::{parse, q1, q2, ways_to_make};

const EXAMPLE: &str = "r, wr, b, g, bwu, rb, gb, br

brwrr
bggr
gbbr
rrbgbr
ubwu
bwurrg
brgr
bbrgwb";

#[test]
fn day19_test_example() {
    let input = parse(EXAMPLE).unwrap();
    assert_eq!(q1(&input), Some(6));
    assert_eq!(q2(&input), Some(16));
}

#[test]
fn towels_and_designs_are_read() {
    let input = parse(EXAMPLE).unwrap();
    let towels: Vec<&[u8]> = input.available.iter().map(|t| t.as_slice()).collect();
    assert_eq!(towels, vec![&b"r"[..], b"wr", b"b", b"g", b"bwu", b"rb", b"gb", b"br"]);
    assert_eq!(input.targets.len(), 8);
    assert_eq!(input.targets[0], b"brwrr");
    assert_eq!(input.targets[7], b"bbrgwb");
    assert!(parse("r, wr").is_none());
    assert!(parse("r, wr\nbrwrr").is_none());
    let none = parse("r, wr\n\n").unwrap();
    assert!(none.targets.is_empty());
    assert_eq!(q1(&none), Some(0));
}

#[test]
fn ways_of_each_design() {
    let input = parse(EXAMPLE).unwrap();
    let ways: Vec<Option<usize>> =
        input.targets.iter().map(|t| ways_to_make(t, &input.available)).collect();
    assert_eq!(
        ways,
        vec![Some(2), Some(1), Some(4), Some(6), Some(0), Some(1), Some(2), Some(0)]
    );
}

#[test]
fn the_empty_design_has_one_way() {
    let available = vec![b"a".to_vec()];
    assert_eq!(ways_to_make(b"", &available), Some(1));
    assert_eq!(ways_to_make(b"a", &available), Some(1));
    assert_eq!(ways_to_make(b"b", &available), Some(0));
    assert_eq!(ways_to_make(b"a", &vec![]), Some(0));
}

#[test]
fn a_towel_listed_twice_counts_once() {
    let available = vec![b"a".to_vec(), b"a".to_vec(), b"aa".to_vec()];
    // a a a, aa a, a aa
    assert_eq!(ways_to_make(b"aaa", &available), Some(3));
}

#[test]
fn ways_double_with_each_stripe_until_they_run_over() {
    let mut available = Vec::new();
    let mut towel = Vec::new();
    for _ in 0..70 {
        towel.push(b'a');
        available.push(towel.clone());
    }
    // With every length at hand, a design of n stripes has 2^(n-1) ways.
    assert_eq!(ways_to_make(&towel[..11], &available), Some(1024));
    assert_eq!(ways_to_make(&towel[..64], &available), Some(1 << 63));
    assert_eq!(ways_to_make(&towel[..65], &available), None);
}
