use aoc::day18::{
    bfs, drop_bytes, find_last_block, make_graph, parse, prune, q1, q2, FALLEN, WIDTH,
};
use aoc::point::Point;

const EXAMPLE: &str = "\
5,4
4,2
4,5
3,0
2,1
6,3
2,4
1,5
0,6
3,3
2,6
5,1
1,2
5,5
2,5
6,5
1,4
0,4
6,4
1,1
6,1
1,0
0,5
1,6
2,0";

#[test]
fn day18_test_example() {
    let input = parse(EXAMPLE).unwrap();
    let width = 7;
    let num_corrupted = 12;
    let graph = make_graph(width, num_corrupted, &input);
    assert_eq!(bfs(&graph, width, Point::default()), Some(22));
    assert_eq!(find_last_block(width, num_corrupted, graph, &input), Some("(6,1)".to_string()));
}

#[test]
fn places_are_read_line_by_line() {
    let input = parse("5,4\n-1,20\n").unwrap();
    assert_eq!(input, vec![Point { x: 5, y: 4 }, Point { x: -1, y: 20 }]);
    assert!(parse("5,4\n7").is_none());
    assert!(parse("5,4,3").is_none());
}

#[test]
fn empty_space_is_walked_along_two_edges() {
    let graph = make_graph(4, 0, &vec![]);
    assert_eq!(graph.len(), 16);
    assert_eq!(bfs(&graph, 4, Point { x: 0, y: 0 }), Some(6));
    assert_eq!(bfs(&graph, 4, Point { x: 3, y: 3 }), Some(0));
    assert_eq!(bfs(&graph, 4, Point { x: 2, y: 3 }), Some(1));
    // Neighbours are listed in the order up, down, left, right.
    assert_eq!(graph[5], vec![1, 9, 4, 6]);
    assert_eq!(graph[0], vec![4, 1]);
}

#[test]
fn bytes_corrupt_cells_and_miss_when_outside() {
    let input = vec![Point { x: 1, y: 0 }, Point { x: 9, y: 9 }, Point { x: 0, y: 1 }];
    let space = drop_bytes(2, 3, &input);
    assert_eq!(space.inner, vec![false, true, true, false]);
    let space = drop_bytes(2, 1, &input);
    assert_eq!(space.inner, vec![false, true, false, false]);
    let space = drop_bytes(2, 10, &input);
    assert_eq!(space.inner, vec![false, true, true, false]);
    let graph = make_graph(2, 3, &input);
    assert_eq!(bfs(&graph, 2, Point { x: 0, y: 0 }), None);
    assert_eq!(graph, vec![vec![], vec![], vec![], vec![]]);
}

#[test]
fn prune_takes_out_the_edges_to_one_cell() {
    let mut graph = make_graph(2, 0, &vec![]);
    assert_eq!(graph, vec![vec![2, 1], vec![3, 0], vec![0, 3], vec![1, 2]]);
    prune(&mut graph, 3);
    assert_eq!(graph, vec![vec![2, 1], vec![0], vec![0], vec![1, 2]]);
    assert_eq!(bfs(&graph, 2, Point { x: 0, y: 0 }), None);
}

#[test]
fn no_block_cuts_the_way_when_bytes_run_out() {
    let input = vec![Point { x: 1, y: 1 }, Point { x: 0, y: 1 }, Point { x: 2, y: 0 }];
    let graph = make_graph(3, 1, &input);
    assert_eq!(find_last_block(3, 1, graph, &input), None);
    let input = vec![
        Point { x: 1, y: 1 },
        Point { x: 0, y: 1 },
        Point { x: 2, y: 0 },
        Point { x: 1, y: 0 },
    ];
    let graph = make_graph(3, 1, &input);
    // The byte right behind the first ones is passed over.
    assert_eq!(find_last_block(3, 1, graph, &input), None);
    let graph = make_graph(3, 0, &input);
    // With no byte fallen beforehand, the first byte is passed over instead.
    assert_eq!(find_last_block(3, 0, graph, &input), Some("(1,0)".to_string()));
}

#[test]
fn points_are_shown_in_brackets() {
    assert_eq!(Point { x: 6, y: 1 }.render(), "(6,1)");
    assert_eq!(Point { x: -12, y: 0 }.render(), "(-12,0)");
    assert_eq!(
        Point { x: isize::MIN, y: isize::MAX }.render(),
        format!("({},{})", isize::MIN, isize::MAX)
    );
}

#[test]
fn full_size_space_is_crossed_in_140_steps() {
    assert_eq!((WIDTH, FALLEN), (71, 1024));
    assert_eq!(q1(&vec![]), Some(140));
    assert_eq!(q2(&vec![]), None);
    // A wall across the second row, with a gap in the last column.
    let wall: Vec<Point> = (0..70).map(|x| Point { x, y: 1 }).collect();
    assert_eq!(q1(&wall), Some(140));
    let closed: Vec<Point> = (0..71).map(|x| Point { x, y: 1 }).collect();
    assert_eq!(q1(&closed), None);
}

#[test]
fn only_bytes_behind_the_first_ones_are_tried() {
    let mut input = vec![Point { x: 35, y: 35 }; FALLEN + 1];
    input.push(Point { x: 1, y: 0 });
    input.push(Point { x: 0, y: 1 });
    input.push(Point { x: 5, y: 5 });
    assert_eq!(q1(&input), Some(140));
    assert_eq!(q2(&input), Some("(0,1)".to_string()));
    input.truncate(FALLEN + 2);
    assert_eq!(q2(&input), None);
}
