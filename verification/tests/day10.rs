use aoc::day10::{adjacent_to, parse, q1, q2, survey, Graph};
use aoc::grid::Grid;
use aoc::point::Point;
use fxhash::FxHashSet;

const BIG: &str = "\
89010123
78121874
87430965
96549874
45678903
32019012
01329801
10456732";

#[test]
fn test_example_big() {
    let input = parse(BIG).unwrap();
    assert_eq!(input.trailheads.len(), 9);
    let expected = 36;
    assert_eq!(q1(&input), expected);
}

#[test]
fn test_example_tiny0() {
    let input = parse(
        "\
...0...
...1...
...2...
6543456
7.....7
8.....8
9.....9",
    )
    .unwrap();
    assert_eq!(input.trailheads.len(), 1);
    let expected = 2;
    assert_eq!(q1(&input), expected);
}

#[test]
fn test_example_tiny1() {
    let input = parse(
        "\
..90..9
...1.98
...2..7
6543456
765.987
876....
987....",
    )
    .unwrap();
    assert_eq!(input.trailheads.len(), 1);
    let expected = 4;
    assert_eq!(q1(&input), expected);
}

#[test]
fn test_example_tiny2() {
    let input = parse(
        "\
10..9..
2...8..
3...7..
4567654
...8..3
...9..2
.....01",
    )
    .unwrap();
    assert_eq!(input.trailheads.len(), 2);
    let expected = 3;
    assert_eq!(q1(&input), expected);
}

#[test]
fn rating_counts_trails_and_is_at_least_the_score() {
    let input = parse(BIG).unwrap();
    assert_eq!(q2(&input), 81);
    assert!(q2(&input) >= q1(&input));
    for start in &input.trailheads {
        let score = input.graph.score(*start, &input.grid, &mut FxHashSet::default());
        let rating = input.graph.rating(*start, &input.grid);
        assert!(rating >= score);
    }
}

#[test]
fn scores_and_ratings_of_each_trailhead() {
    let input = parse(BIG).unwrap();
    let scores: Vec<usize> = input
        .trailheads
        .iter()
        .map(|start| input.graph.score(*start, &input.grid, &mut FxHashSet::default()))
        .collect();
    assert_eq!(scores, vec![5, 6, 5, 3, 1, 3, 5, 3, 5]);
    let ratings: Vec<usize> =
        input.trailheads.iter().map(|start| input.graph.rating(*start, &input.grid)).collect();
    assert_eq!(ratings, vec![20, 24, 10, 4, 1, 4, 5, 8, 5]);
}

#[test]
fn rating_counts_converging_trails_separately() {
    let input = parse(
        "\
.....0.
..4321.
..5..2.
..6543.
..7..4.
..8765.
..9....",
    )
    .unwrap();
    assert_eq!(q1(&input), 1);
    assert_eq!(q2(&input), 3);
}

#[test]
fn start_without_a_way_up_counts_nothing() {
    let input = parse("0.\n.9").unwrap();
    assert_eq!(input.trailheads, vec![Point { x: 0, y: 0 }]);
    assert_eq!(q1(&input), 0);
    assert_eq!(q2(&input), 0);
    // A start off the map, or one that is closed to the search.
    let off = Point { x: -1, y: 0 };
    assert_eq!(input.graph.score(off, &input.grid, &mut FxHashSet::default()), 0);
    assert_eq!(input.graph.rating(off, &input.grid), 0);
    let mut closed = FxHashSet::default();
    closed.insert(0usize);
    assert_eq!(input.graph.score(Point { x: 0, y: 0 }, &input.grid, &mut closed), 0);
    assert_eq!(closed.len(), 1);
}

#[test]
fn a_peak_is_its_own_trail() {
    let grid = Grid { width: 2, height: 1, inner: vec![9u8, 8] };
    let (graph, trailheads) = survey(&grid);
    assert!(trailheads.is_empty());
    assert_eq!(graph.score(Point { x: 0, y: 0 }, &grid, &mut FxHashSet::default()), 1);
    assert_eq!(graph.rating(Point { x: 0, y: 0 }, &grid), 1);
    assert_eq!(graph.score(Point { x: 1, y: 0 }, &grid, &mut FxHashSet::default()), 1);
    assert_eq!(graph.rating(Point { x: 1, y: 0 }, &grid), 1);
}

#[test]
fn search_marks_what_it_reaches() {
    let grid = Grid { width: 3, height: 1, inner: vec![7u8, 8, 9] };
    let (graph, _) = survey(&grid);
    let mut discovered = FxHashSet::default();
    assert_eq!(graph.score(Point { x: 1, y: 0 }, &grid, &mut discovered), 1);
    let mut seen: Vec<usize> = discovered.iter().copied().collect();
    seen.sort();
    assert_eq!(seen, vec![1, 2]);
    // What was reached once is closed to the next search.
    assert_eq!(graph.score(Point { x: 0, y: 0 }, &grid, &mut discovered), 0);
    let mut seen: Vec<usize> = discovered.iter().copied().collect();
    seen.sort();
    assert_eq!(seen, vec![0, 1, 2]);
}

#[test]
fn graph_lists_steps_in_the_order_of_the_neighbours() {
    let grid = Grid { width: 3, height: 3, inner: vec![0u8, 2, 0, 2, 1, 2, 0, 2, 0] };
    let (graph, trailheads) = survey(&grid);
    assert_eq!(trailheads.len(), 4);
    assert_eq!(graph.edges.len(), 1);
    assert_eq!(
        graph.edges.get(&4),
        Some(&vec![
            Point { x: 1, y: 0 },
            Point { x: 0, y: 1 },
            Point { x: 2, y: 1 },
            Point { x: 1, y: 2 }
        ])
    );
    assert_eq!(
        adjacent_to(Point { x: 1, y: 1 }),
        [
            Point { x: 1, y: 0 },
            Point { x: 0, y: 1 },
            Point { x: 2, y: 1 },
            Point { x: 1, y: 2 }
        ]
    );
    let mut fresh = Graph::new();
    fresh.insert_edge(7, Point { x: 1, y: 1 });
    fresh.insert_edge(7, Point { x: 2, y: 2 });
    assert_eq!(fresh.edges.get(&7), Some(&vec![Point { x: 1, y: 1 }, Point { x: 2, y: 2 }]));
}

#[test]
fn parse_rejects_what_is_no_map() {
    assert!(parse("").is_none());
    assert!(parse("012\n34").is_none());
}
