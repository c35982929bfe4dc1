use aoc::day20::dist_btwn;
use aoc::point::Point;

#[test]
fn test_dist() {
    let p = Point { x: 1, y: 3 };
    let q = Point { x: 3, y: 7 };
    assert_eq!(dist_btwn(p, q), 6);
}

#[test]
fn dist_is_symmetric_and_zero_on_itself() {
    let p = Point { x: -4, y: 9 };
    let q = Point { x: 5, y: -2 };
    assert_eq!(dist_btwn(p, q), 20);
    assert_eq!(dist_btwn(q, p), 20);
    assert_eq!(dist_btwn(p, p), 0);
}

use aoc::day20::{cheats_over, each_cheat_saves, follow_track, parse, Cell};
use aoc::grid::Grid;

const EXAMPLE: &str = "###############
#...#...#.....#
#.#.#.#.#.###.#
#S#...#.#.#...#
#######.#.#.###
#######.#.#...#
#######.#.###.#
###..E#...#...#
###.#######.###
#...###...#...#
#.#####.#.###.#
#.#...#.#.#...#
#.#.#.#.#.#.###
#...#...#...###
###############";

#[test]
fn day20_test_example() {
    let input = parse(EXAMPLE).unwrap();
    assert_eq!(input.baseline_speed(), 84);
    assert_eq!(cheats_over(39, &input, 2), Some(2));
    assert_eq!(cheats_over(15, &input, 2), Some(5));
    assert_eq!(cheats_over(73, &input, 20), Some(7));
}

#[test]
fn cheats_of_two_steps_by_saving() {
    let input = parse(EXAMPLE).unwrap();
    let saves = each_cheat_saves(&input, 2);
    let mut by_saving: Vec<(usize, usize)> = saves.iter().map(|(k, v)| (*k, *v)).collect();
    by_saving.sort();
    assert_eq!(
        by_saving,
        vec![
            // Two steps straight along the track are a cheat that saves nothing.
            (0, 83),
            (2, 14),
            (4, 14),
            (6, 2),
            (8, 4),
            (10, 2),
            (12, 3),
            (20, 1),
            (36, 1),
            (38, 1),
            (40, 1),
            (64, 1)
        ]
    );
    assert_eq!(cheats_over(0, &input, 2), Some(127));
    assert_eq!(cheats_over(1, &input, 2), Some(44));
    assert_eq!(cheats_over(64, &input, 2), Some(1));
    assert_eq!(cheats_over(65, &input, 2), Some(0));
    assert_eq!(cheats_over(1000, &input, 2), Some(0));
}

#[test]
fn cheats_of_twenty_steps_by_saving() {
    let input = parse(EXAMPLE).unwrap();
    let saves = each_cheat_saves(&input, 20);
    assert_eq!(saves.get(&50), Some(&32));
    assert_eq!(saves.get(&52), Some(&31));
    assert_eq!(saves.get(&72), Some(&22));
    assert_eq!(saves.get(&74), Some(&4));
    assert_eq!(saves.get(&76), Some(&3));
    assert_eq!(saves.get(&78), None);
    assert_eq!(cheats_over(50, &input, 20), Some(285));
}

#[test]
fn track_is_followed_from_start_to_end() {
    let input = parse("#####\n#S.E#\n#####").unwrap();
    assert_eq!(
        input.path,
        vec![Point { x: 1, y: 1 }, Point { x: 2, y: 1 }, Point { x: 3, y: 1 }]
    );
    assert_eq!(input.grid.get(Point { x: 0, y: 0 }), Some(&Cell::Wall));
    assert_eq!(input.grid.get(Point { x: 2, y: 1 }), Some(&Cell::Empty));
    assert_eq!(input.baseline_speed(), 2);
    let input = parse("S.\n#.\nE.").unwrap();
    assert_eq!(input.path.len(), 5);
    // A straight cut from the start to the end saves two of the four steps.
    assert_eq!(cheats_over(2, &input, 2), Some(1));
    assert_eq!(cheats_over(3, &input, 2), Some(0));
}

#[test]
fn track_that_misses_the_end_is_rejected() {
    assert!(parse("S#E").is_none());
    assert!(parse("S..").is_none());
    assert!(parse("..E").is_none());
    assert!(parse("S.E.").is_none());
    assert!(parse("S?E").is_none());
    assert!(parse("").is_none());
    assert!(parse("SE").is_some());
}

#[test]
fn track_turns_to_the_last_free_neighbour() {
    // Up, down, left, right are looked at in turn and the last one wins.
    let grid = Grid {
        width: 3,
        height: 3,
        inner: vec![
            Cell::Wall,
            Cell::Empty,
            Cell::Wall,
            Cell::Empty,
            Cell::Empty,
            Cell::Empty,
            Cell::Wall,
            Cell::Empty,
            Cell::Wall,
        ],
    };
    let path = follow_track(&grid, Point { x: 1, y: 1 });
    assert_eq!(path, vec![Point { x: 1, y: 1 }, Point { x: 2, y: 1 }]);
    let path = follow_track(&grid, Point { x: 1, y: 0 });
    assert_eq!(path, vec![Point { x: 1, y: 0 }, Point { x: 1, y: 1 }, Point { x: 2, y: 1 }]);
}
