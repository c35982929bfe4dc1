use aoc::day14::{parse, solve_q1, walk, wrap, Quadrant, Robot};
use aoc::point::Point;

const EXAMPLE: &str = "p=0,4 v=3,-3
p=6,3 v=-1,-3
p=10,3 v=-1,2
p=2,0 v=2,-1
p=0,0 v=1,3
p=3,0 v=-2,-2
p=7,6 v=-1,-3
p=3,0 v=-1,-2
p=9,3 v=2,3
p=7,3 v=-1,2
p=2,4 v=2,-3
p=9,5 v=-3,-3";

#[test]
fn test_step() {
    let mut robot = parse("p=2,4 v=2,-3").unwrap().pop().unwrap();
    let width = 11;
    let height = 7;
    let mut seen = Vec::new();
    for _ in 0..6 {
        seen.push((robot.position.x, robot.position.y));
        robot.step(width, height);
    }
    assert_eq!(seen, vec![(2, 4), (4, 1), (6, 5), (8, 2), (10, 6), (1, 3)]);
}

#[test]
fn day14_test_example() {
    let input = parse(EXAMPLE).unwrap();
    let expected = 12;
    let width = 11;
    let height = 7;
    assert_eq!(solve_q1(input, width, height, 100), Some(expected));
}

#[test]
fn wrap_is_the_remainder_that_is_never_negative() {
    assert_eq!(wrap(0, 7), 0);
    assert_eq!(wrap(6, 7), 6);
    assert_eq!(wrap(7, 7), 0);
    assert_eq!(wrap(15, 7), 1);
    assert_eq!(wrap(-1, 7), 6);
    assert_eq!(wrap(-7, 7), 0);
    assert_eq!(wrap(-8, 7), 6);
    assert_eq!(wrap(isize::MIN, 1), 0);
    assert_eq!(wrap(isize::MIN, 3), (isize::MIN).rem_euclid(3));
    assert_eq!(wrap(isize::MAX, isize::MAX as usize), 0);
}

#[test]
fn walk_is_many_steps() {
    let robot = Robot { position: Point { x: 2, y: 4 }, velocity: Point { x: 2, y: -3 } };
    assert_eq!(walk(robot, 11, 7, 0), robot);
    assert_eq!(walk(robot, 11, 7, 5).position, Point { x: 1, y: 3 });
    let mut stepped = robot;
    for _ in 0..100 {
        stepped.step(11, 7);
    }
    assert_eq!(walk(robot, 11, 7, 100), stepped);
}

#[test]
fn middle_lines_belong_to_no_quadrant() {
    let at = |x, y| Robot { position: Point { x, y }, velocity: Point { x: 0, y: 0 } };
    assert_eq!(at(0, 0).quadrant(11, 7), Some(Quadrant::Tl));
    assert_eq!(at(10, 0).quadrant(11, 7), Some(Quadrant::Tr));
    assert_eq!(at(0, 6).quadrant(11, 7), Some(Quadrant::Bl));
    assert_eq!(at(10, 6).quadrant(11, 7), Some(Quadrant::Br));
    assert_eq!(at(5, 0).quadrant(11, 7), None);
    assert_eq!(at(0, 3).quadrant(11, 7), None);
    assert_eq!(at(5, 3).quadrant(11, 7), None);
}

#[test]
fn robots_need_four_numbers() {
    assert_eq!(
        Robot::parse(b"p=0,4 v=3,-3"),
        Some(Robot { position: Point { x: 0, y: 4 }, velocity: Point { x: 3, y: -3 } })
    );
    assert_eq!(Robot::parse(b"p=0,4 v=3"), None);
    assert_eq!(Robot::parse(b"p=0,4 v=3,-3,1"), None);
    assert!(parse("p=0,4 v=3,-3\np=1").is_none());
}
