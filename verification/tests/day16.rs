use aoc::day16::{dijkstra, make_graph, parse, q1, q2, Cell, Edge, Input, SearchError, State};
use aoc::dir::Dir;
use aoc::grid::Grid;
use aoc::point::Point;

const EXAMPLE: &str = "\
###############
#.......#....E#
#.#.###.#.###.#
#.....#.#...#.#
#.###.#####.#.#
#.#.#.......#.#
#.#.#####.###.#
#...........#.#
###.#.#####.#.#
#...#.....#.#.#
#.#.#.###.#.#.#
#.....#...#.#.#
#.###.#.#.#.#.#
#S..#.....#...#
###############";

const EXAMPLE_2: &str = "\
    #################
#...#...#...#..E#
#.#.#.#.#.#.#.#.#
#.#.#.#...#...#.#
#.#.#.#.###.#.#.#
#...#.#.#.....#.#
#.#.#.#.#.#####.#
#.#...#.#.#.....#
#.#.#####.#.###.#
#.#.#.......#...#
#.#.###.#####.###
#.#.#...#.....#.#
#.#.#.#####.###.#
#.#.#.........#.#
#.#.#.#########.#
#S#.............#
#################";

#[test]
fn day16_test_example() {
    let input = parse(EXAMPLE).unwrap();
    assert_eq!(q1(&input), Ok(7036));
    assert_eq!(q2(&input), Ok(45));
}

#[test]
fn test_example2() {
    let input = parse(EXAMPLE_2).unwrap();
    assert_eq!(q1(&input), Ok(11048));
    assert_eq!(q2(&input), Ok(64));
}

#[test]
fn search_is_deterministic() {
    let input = parse(EXAMPLE).unwrap();
    let first = (q1(&input), q2(&input));
    for _ in 0..5 {
        let again = parse(EXAMPLE).unwrap();
        assert_eq!((q1(&again), q2(&again)), first);
    }
}

#[test]
fn parse_finds_start_and_end() {
    let input = parse("#####\n#S.E#\n#####").unwrap();
    assert_eq!(input.grid.width, 5);
    assert_eq!(input.grid.height, 3);
    assert_eq!(input.start, Point { x: 1, y: 1 });
    assert_eq!(input.end, Point { x: 3, y: 1 });
    assert_eq!(input.start(), State { position: Point { x: 1, y: 1 }, facing: Dir::Right });
    assert_eq!(input.grid.get(Point { x: 2, y: 1 }), Some(&Cell::Empty));
    assert_eq!(input.grid.get(Point { x: 2, y: 0 }), Some(&Cell::Wall));
    // Three empty cells, four facings each.
    assert_eq!(input.graph.len(), 12);
}

#[test]
fn parse_rejects_what_is_no_maze() {
    assert!(parse("").is_none());
    assert!(parse("#S.#").is_none());
    assert!(parse("#E.#").is_none());
    assert!(parse("#S?E#").is_none());
    assert!(parse("#S.E#\n###").is_none());
}

#[test]
fn straight_line_costs_one_per_step() {
    let input = parse("S...E").unwrap();
    assert_eq!(q1(&input), Ok(4));
    assert_eq!(q2(&input), Ok(5));
    let found = dijkstra(&input, input.start(), input.end);
    assert_eq!(found, Ok((State { position: Point { x: 4, y: 0 }, facing: Dir::Right }, 4)));
}

#[test]
fn a_turn_costs_a_thousand() {
    // The start faces right, the end lies behind it: two turns, then two steps.
    let input = parse("E.S").unwrap();
    assert_eq!(q1(&input), Ok(2002));
    let input = parse("S.\n.E").unwrap();
    // Two routes of equal cost: right then down, or down then right.
    assert_eq!(q1(&input), Ok(1002));
    assert_eq!(q2(&input), Ok(3));
}

#[test]
fn start_on_the_end_costs_nothing() {
    let input = parse("#S#\n#E#").unwrap();
    let start = State { position: input.end, facing: Dir::Left };
    assert_eq!(dijkstra(&input, start, input.end), Ok((start, 0)));
}

#[test]
fn walled_off_end_is_no_path() {
    let input = parse("S#E").unwrap();
    assert_eq!(q1(&input), Err(SearchError::NoPath));
    assert_eq!(q2(&input), Err(SearchError::NoPath));
    assert_eq!(dijkstra(&input, input.start(), input.end), Err(SearchError::NoPath));
}

#[test]
fn ties_keep_every_cheapest_route() {
    let input = parse(
        "\
#####
#..E#
#.#.#
#S..#
#####",
    )
    .unwrap();
    // Up then right, or right then up: both cost 4 steps and one turn more
    // for the way that starts upwards.
    assert_eq!(q1(&input), Ok(1004));
    assert_eq!(q2(&input), Ok(5));
}

#[test]
fn graph_lists_turns_and_the_step_forward() {
    let grid = Grid { width: 2, height: 1, inner: vec![Cell::Empty, Cell::Empty] };
    let graph = make_graph(&grid);
    assert_eq!(graph.len(), 8);
    let here = Point { x: 0, y: 0 };
    // State numbers: four for each cell, in the order up, down, left, right.
    assert_eq!(
        graph.get(&3),
        Some(&vec![
            Edge { next: State { position: here, facing: Dir::Up }, cost: 1000 },
            Edge { next: State { position: here, facing: Dir::Down }, cost: 1000 },
            Edge { next: State { position: Point { x: 1, y: 0 }, facing: Dir::Right }, cost: 1 },
        ])
    );
    assert_eq!(
        graph.get(&0),
        Some(&vec![
            Edge { next: State { position: here, facing: Dir::Left }, cost: 1000 },
            Edge { next: State { position: here, facing: Dir::Right }, cost: 1000 },
        ])
    );
    let blocked = Grid { width: 1, height: 1, inner: vec![Cell::Wall] };
    assert!(make_graph(&blocked).is_empty());
    let input = Input { grid, start: here, end: Point { x: 1, y: 0 }, graph };
    assert_eq!(q1(&input), Ok(1));
}
