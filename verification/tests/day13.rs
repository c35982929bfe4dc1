use aoc::day13::{parse, q1, q2, total_cost, Machine, FAR};
use aoc::point::Point;

const EXAMPLE: &str = "Button A: X+94, Y+34
Button B: X+22, Y+67
Prize: X=8400, Y=5400

Button A: X+26, Y+66
Button B: X+67, Y+21
Prize: X=12748, Y=12176

Button A: X+17, Y+86
Button B: X+84, Y+37
Prize: X=7870, Y=6450

Button A: X+69, Y+23
Button B: X+27, Y+71
Prize: X=18641, Y=10279
";

#[test]
fn day13_test_example() {
    let input = parse(EXAMPLE).unwrap();

    let expected = 480;
    assert_eq!(q1(&input), Some(expected));
}

#[test]
fn machines_are_read_in_order() {
    let input = parse(EXAMPLE).unwrap();
    assert_eq!(input.len(), 4);
    assert_eq!(input[0].a, Point { x: 94, y: 34 });
    assert_eq!(input[0].b, Point { x: 22, y: 67 });
    assert_eq!(input[0].prize, Point { x: 8400, y: 5400 });
    assert_eq!(input[3].prize, Point { x: 18641, y: 10279 });
    assert!(parse("Button A: X+94, Y+34").is_none());
    assert_eq!(parse("").map(|m| m.len()), Some(0));
}

#[test]
fn cost_of_each_machine() {
    let input = parse(EXAMPLE).unwrap();
    assert_eq!(input[0].min_cost_to_win(0), Some(280));
    assert_eq!(input[1].min_cost_to_win(0), None);
    assert_eq!(input[2].min_cost_to_win(0), Some(200));
    assert_eq!(input[3].min_cost_to_win(0), None);
}

#[test]
fn far_prizes_change_which_machines_win() {
    let input = parse(EXAMPLE).unwrap();
    let far = 10000000000000;
    assert_eq!(input[0].min_cost_to_win(far), None);
    assert!(input[1].min_cost_to_win(far).is_some());
    assert_eq!(input[2].min_cost_to_win(far), None);
    assert!(input[3].min_cost_to_win(far).is_some());
    assert_eq!(total_cost(&input, far), Some(875318608908));
}

#[test]
fn presses_cannot_be_negative() {
    // One press of A less than none and three of B would reach the prize.
    let machine = Machine {
        a: Point { x: 1, y: 2 },
        b: Point { x: 1, y: 1 },
        prize: Point { x: 2, y: 1 },
    };
    assert_eq!(machine.min_cost_to_win(0), None);
    let machine = Machine {
        a: Point { x: 1, y: 2 },
        b: Point { x: 1, y: 1 },
        prize: Point { x: 5, y: 7 },
    };
    // 2 of A and 3 of B.
    assert_eq!(machine.min_cost_to_win(0), Some(9));
}

#[test]
fn second_part_moves_the_prizes_far_away() {
    let input = parse(EXAMPLE).unwrap();
    assert_eq!(FAR, 10_000_000_000_000);
    assert_eq!(q2(&input), Some(875318608908));
    assert_eq!(q2(&vec![]), Some(0));
}
