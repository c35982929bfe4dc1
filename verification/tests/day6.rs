use aoc::day6::{guard_loops_at, loops, parse, patrol, q1, q2, Guard};
use aoc::dir::Dir;
use aoc::grid::Grid;
use aoc::point::Point;

const TEST_INPUT: &str = "\
....#.....
.........#
..........
..#.......
.......#..
..........
.#..^.....
........#.
#.........
......#...";

#[test]
fn day6_test_q1() {
    let (grid, guard) = parse(TEST_INPUT).unwrap();
    assert_eq!(q1(&(grid, guard)), 41);
}

#[test]
fn day6_test_q2() {
    let (grid, guard) = parse(TEST_INPUT).unwrap();
    assert_eq!(q2(&(grid, guard)), 6);
}

#[test]
fn parse_reads_obstacles_and_guard() {
    let (grid, guard) = parse("..#\n.^.\n").unwrap();
    assert_eq!(grid.width, 3);
    assert_eq!(grid.height, 2);
    assert_eq!(grid.inner, vec![false, false, true, false, false, false]);
    assert_eq!(guard, Guard { position: Point { x: 1, y: 1 }, direction: Dir::Up });
}

#[test]
fn parse_rejects_text_without_guard_or_shape() {
    assert!(parse("..#\n...").is_none());
    assert!(parse("").is_none());
    assert!(parse("..^\n.").is_none());
    assert!(parse("\n^").is_none());
}

#[test]
fn guard_walks_off_an_empty_map() {
    let grid = Grid::new(3, 3, false);
    let guard = Guard { position: Point { x: 1, y: 2 }, direction: Dir::Up };
    let out = patrol(&grid, guard);
    assert!(!out.looped);
    assert_eq!(out.steps, 3);
    assert_eq!(out.visited, 3);
    assert!(!loops(&grid, guard));
}

#[test]
fn boxed_in_guard_loops_within_the_bound() {
    let (grid, guard) = parse(".#.\n#^#\n.#.").unwrap();
    let out = patrol(&grid, guard);
    assert!(out.looped);
    assert_eq!(out.steps, 4);
    assert_eq!(out.visited, 1);
    assert!(out.steps <= 4 * grid.width * grid.height + 1);
}

#[test]
fn patrols_settle_within_four_moves_per_cell() {
    let (grid, guard) = parse(TEST_INPUT).unwrap();
    let mut grid = grid;
    for x in 0..grid.width {
        for y in 0..grid.height {
            let p = Point { x: x as isize, y: y as isize };
            let was = *grid.get_unchecked(p);
            grid.set(p, true);
            let out = patrol(&grid, guard);
            assert!(out.steps <= 4 * grid.width * grid.height + 1);
            grid.set(p, was);
        }
    }
}

#[test]
fn guard_outside_the_map_has_left_at_once() {
    let grid = Grid::new(2, 2, false);
    let guard = Guard { position: Point { x: -1, y: 0 }, direction: Dir::Right };
    let out = patrol(&grid, guard);
    assert!(!out.looped);
    assert_eq!(out.steps, 0);
    assert_eq!(out.visited, 0);
}

#[test]
fn obstruction_restores_the_grid() {
    let (mut grid, guard) = parse(TEST_INPUT).unwrap();
    let before = grid.inner.clone();
    assert!(guard_loops_at(3, 6, &mut grid, &guard));
    assert_eq!(grid.inner, before);
    assert!(!guard_loops_at(0, 0, &mut grid, &guard));
    assert_eq!(grid.inner, before);
    // The guard's own cell and an existing obstacle are never candidates.
    assert!(!guard_loops_at(4, 6, &mut grid, &guard));
    assert!(!guard_loops_at(4, 0, &mut grid, &guard));
}
