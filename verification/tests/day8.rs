use aoc::day8::{in_bounds, parse, q1, q2, Input};
use aoc::point::Point;

const EXAMPLE: &str = "............
........0...
.....0......
.......0....
....0.......
......A.....
............
............
........A...
.........A..
............
............";

#[test]
fn day8_test_q1() {
    let input = parse(EXAMPLE).unwrap();
    assert_eq!(q1(&input), 14);
}

#[test]
fn day8_test_q2() {
    let input = parse(EXAMPLE).unwrap();
    assert_eq!(q2(&input), 34);
}

#[test]
fn antennas_are_paired_both_ways_round() {
    let input = parse("a.a\n.b.\na..").unwrap();
    assert_eq!(input.width, 3);
    assert_eq!(input.height, 3);
    let a0 = Point { x: 0, y: 0 };
    let a1 = Point { x: 2, y: 0 };
    let a2 = Point { x: 0, y: 2 };
    assert_eq!(
        input.antennae_pairs,
        vec![(a0, a1), (a0, a2), (a1, a0), (a1, a2), (a2, a0), (a2, a1)]
    );
    assert!(parse("a.\n.").is_none());
}

#[test]
fn bounds_are_open_at_the_far_edges() {
    assert!(in_bounds(Point { x: 0, y: 0 }, 3, 2));
    assert!(in_bounds(Point { x: 2, y: 1 }, 3, 2));
    assert!(!in_bounds(Point { x: 3, y: 1 }, 3, 2));
    assert!(!in_bounds(Point { x: 2, y: 2 }, 3, 2));
    assert!(!in_bounds(Point { x: -1, y: 0 }, 3, 2));
    assert!(!in_bounds(Point { x: 0, y: -1 }, 3, 2));
}

#[test]
fn two_antennas_in_a_row() {
    // ..a.a.... : antinodes at 0 and 6; in line are 0, 2, 4, 6, 8.
    let input = parse("..a.a....").unwrap();
    assert_eq!(q1(&input), 2);
    assert_eq!(q2(&input), 5);
    // One way round only: the same places.
    let one_way = Input {
        antennae_pairs: vec![(Point { x: 2, y: 0 }, Point { x: 4, y: 0 })],
        width: 9,
        height: 1,
    };
    assert_eq!(q1(&one_way), 2);
    assert_eq!(q2(&one_way), 5);
}

#[test]
fn antinodes_outside_the_city_do_not_count() {
    let input = parse("a.a").unwrap();
    assert_eq!(q1(&input), 0);
    assert_eq!(q2(&input), 2);
    let input = parse("...").unwrap();
    assert_eq!(q1(&input), 0);
    assert_eq!(q2(&input), 0);
}
