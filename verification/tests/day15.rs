use aoc::day15::{
    expand, gps, has_free_space_to, has_free_space_to2, parse, q1, q2, score, shift_blocks,
    try_move, try_wide_move, Cell,
};
use aoc::dir::Dir;
use aoc::grid::Grid;
use aoc::point::Point;

const TEST_INPUT_SMALL: &str = "\
    ########
    #..O.O.#
    ##@.O..#
    #...O..#
    #.#.O..#
    #...O..#
    #......#
    ########

    <^^>>>vv<v>>v<<";

const TEST_INPUT_MEDIUM: &str = "\
    ##########
    #..O..O.O#
    #......O.#
    #.OO..O.O#
    #..O@..O.#
    #O#..O...#
    #O..O..O.#
    #.OO.O.OO#
    #....O...#
    ##########

    <vv>^<v^>v>^vv^v>v<>v^v<v<^vv<<<^><<><>>v<vvv<>^v^>^<<<><<v<<<v^vv^v>^
    vvv<<^>^v^^><<>>><>^<<><^vv^^<>vvv<>><^^v>^>vv<>v<<<<v<^v>^<^^>>>^<v<v
    ><>vv>v^v^<>><>>>><^^>vv>v<^^^>>v^v^<^^>v^^>v^<^v>v<>>v^v^<v>v^^<^^vv<
    <<v<^>>^^^^>>>v^<>vvv^><v<<<>^^^vv^<vvv>^>v<^^^^v<>^>vvvv><>>v^<<^^^^^
    ^><^><>>><>^^<<^^v>>><^<v>^<vv>>v>>>^v><>^v><<<<v>>v<v<v>vvv>^<><<>^><
    ^>><>^v<><^vvv<^^<><v<<<<<><^v<<<><<<^^<v<^^^><^>>^<v^><<<^>>^v<v^v<v^
    >^>>^v>vv>^<<^v<>><<><<v<<v><>v<^vv<<<>^^v^>^^>>><<^v>>v^v><^^>>^<>vv^
    <><^^>^^^<><vvvvv^v<v<<>^v<v>v<<^><<><<><<<^^<<<^<<>><<><^^^>^^<>^>v<>
    ^^>vv<^v^v<vv>^<><v<^v>^^^>>>^^vvv^>vvv<>>>^<^>>>>>^<<^v>^vvv<>^<><<v>
    v^^>>><<^^<>>^v^<v^vv<>v^<<>^<^v^v><^<<<><<^<v><v<>vv>>v><v^<vv<>v^<<^";

const TEST_INPUT_WIDE: &str = "\
#######
#...#.#
#.....#
#..OO@#
#..O..#
#.....#
#######

<vv<<^^<<^^";

fn shown(grid: &Grid<Cell>) -> Vec<String> {
    (0..grid.height)
        .map(|y| {
            (0..grid.width)
                .map(|x| grid.get_unchecked(Point::from_indices(x, y)).to_char())
                .collect()
        })
        .collect()
}

fn grid_of(rows: &[&str]) -> Grid<Cell> {
    let inner = rows
        .iter()
        .flat_map(|row| row.chars())
        .map(|ch| match ch {
            '#' => Cell::Wall,
            'O' => Cell::Block,
            '[' => Cell::BlockLeft,
            ']' => Cell::BlockRight,
            _ => Cell::Empty,
        })
        .collect();
    Grid { width: rows[0].len(), height: rows.len(), inner }
}

#[test]
fn example_small() {
    let input = parse(TEST_INPUT_SMALL).unwrap();
    let expected = 2028;
    assert_eq!(q1(&input), expected);
}

#[test]
fn example_medium() {
    let input = parse(TEST_INPUT_MEDIUM).unwrap();
    assert_eq!(q2(&input), 9021)
}

#[test]
fn example_q2() {
    let input = parse(TEST_INPUT_WIDE).unwrap();
    q2(&input);
}

#[test]
fn larger_warehouse_of_narrow_boxes() {
    let input = parse(TEST_INPUT_MEDIUM).unwrap();
    assert_eq!(q1(&input), 10092);
}

#[test]
fn wide_boxes_are_pushed_side_by_side() {
    let input = parse(TEST_INPUT_WIDE).unwrap();
    assert_eq!(q2(&input), 105 + 207 + 306);
}

#[test]
fn parse_reads_map_robot_and_moves() {
    let input = parse(TEST_INPUT_SMALL).unwrap();
    assert_eq!(input.grid.width, 8);
    assert_eq!(input.grid.height, 8);
    assert_eq!(input.player, Point::new(2, 2));
    assert_eq!(
        shown(&input.grid),
        vec![
            "########", "#..O.O.#", "##..O..#", "#...O..#", "#.#.O..#", "#...O..#", "#......#",
            "########",
        ]
    );
    assert_eq!(input.instructions.len(), 15);
    assert_eq!(input.instructions[..4], [Dir::Left, Dir::Up, Dir::Up, Dir::Right]);
    assert_eq!(input.instructions[14], Dir::Left);
}

#[test]
fn parse_joins_the_lines_of_moves() {
    let input = parse(TEST_INPUT_MEDIUM).unwrap();
    assert_eq!(input.instructions.len(), 700);
    assert_eq!(input.player, Point::new(4, 4));
}

#[test]
fn parse_takes_the_last_robot() {
    let input = parse("#@@#\n\n<").unwrap();
    assert_eq!(input.player, Point::new(2, 0));
    assert_eq!(shown(&input.grid), vec!["#..#"]);
}

#[test]
fn parse_rejects_what_is_no_warehouse() {
    assert!(parse("").is_none());
    assert!(parse("#@#").is_none());
    assert!(parse("\n<").is_none());
    assert!(parse("#.#\n\n<").is_none());
    assert!(parse("#@#\n##\n\n<").is_none());
    assert!(parse("#@x\n\n<").is_none());
    assert!(parse("#@[]\n\n<").is_none());
    assert!(parse("#@#\n\n<x").is_none());
    assert!(parse("#@#\n\n").is_some());
    assert!(parse("#@#\n\n<\n\n>").is_some());
}

#[test]
fn gps_is_a_hundred_rows_plus_the_column() {
    assert_eq!(gps(Point::new(4, 1)), 104);
    assert_eq!(gps(Point::new(0, 0)), 0);
    assert_eq!(gps(Point::new(5, 0)), 5);
    assert_eq!(gps(Point::new(-100, 1)), 0);
}

#[test]
fn score_adds_up_the_cells_that_hold_the_target() {
    let grid = grid_of(&["#######", "#...O..", "#.....O"]);
    assert_eq!(score(&grid, Cell::Block), 104 + 206);
    assert_eq!(score(&grid, Cell::BlockLeft), 0);
    assert_eq!(score(&grid, Cell::Wall), 1 + 2 + 3 + 4 + 5 + 6 + 100 + 200);
}

#[test]
fn free_space_lies_behind_a_row_of_boxes() {
    let grid = grid_of(&["#.OO.@.O#", "#O......."]);
    let player = Point::new(5, 0);
    assert!(has_free_space_to(Dir::Left, player, &grid));
    assert!(has_free_space_to(Dir::Right, player, &grid));
    assert!(has_free_space_to(Dir::Down, player, &grid));
    assert!(!has_free_space_to(Dir::Up, player, &grid));
    assert!(has_free_space_to(Dir::Left, Point::new(4, 0), &grid));
    assert!(!has_free_space_to(Dir::Right, Point::new(6, 0), &grid));
    assert!(!has_free_space_to(Dir::Left, Point::new(2, 1), &grid));
    assert!(!has_free_space_to(Dir::Down, Point::new(1, 0), &grid));
}

#[test]
fn free_space_lists_the_boxes_in_the_way() {
    let grid = grid_of(&["#.[]O.@[]#"]);
    assert_eq!(has_free_space_to2(Dir::Left, Point::new(6, 0), &grid), Some(vec![]));
    assert_eq!(
        has_free_space_to2(Dir::Left, Point::new(5, 0), &grid),
        Some(vec![Cell::Block, Cell::BlockRight, Cell::BlockLeft])
    );
    assert_eq!(has_free_space_to2(Dir::Right, Point::new(6, 0), &grid), None);
    assert_eq!(has_free_space_to2(Dir::Up, Point::new(6, 0), &grid), None);
}

#[test]
fn shift_moves_a_row_of_boxes_by_one() {
    let mut grid = grid_of(&["#..OOO.@#"]);
    shift_blocks(Dir::Left, Point::new(6, 0), &mut grid);
    assert_eq!(shown(&grid), vec!["#.OOO..@#".replace('@', ".")]);
    shift_blocks(Dir::Left, Point::new(5, 0), &mut grid);
    assert_eq!(shown(&grid), vec!["#OOO....#"]);
    shift_blocks(Dir::Left, Point::new(4, 0), &mut grid);
    assert_eq!(shown(&grid), vec!["#OOO....#"]);
    shift_blocks(Dir::Left, Point::new(6, 0), &mut grid);
    assert_eq!(shown(&grid), vec!["#OOO....#"]);
}

#[test]
fn move_pushes_boxes_or_stays() {
    let mut grid = grid_of(&["#.O.O.#", "#.....#"]);
    let mut player = Point::new(5, 0);
    try_move(Dir::Right, &mut player, &mut grid);
    assert_eq!(player, Point::new(5, 0));
    try_move(Dir::Left, &mut player, &mut grid);
    assert_eq!(player, Point::new(4, 0));
    assert_eq!(shown(&grid), vec!["#.OO..#", "#.....#"]);
    try_move(Dir::Left, &mut player, &mut grid);
    assert_eq!(player, Point::new(3, 0));
    assert_eq!(shown(&grid), vec!["#OO...#", "#.....#"]);
    try_move(Dir::Left, &mut player, &mut grid);
    assert_eq!(player, Point::new(3, 0));
    assert_eq!(shown(&grid), vec!["#OO...#", "#.....#"]);
    try_move(Dir::Down, &mut player, &mut grid);
    assert_eq!(player, Point::new(3, 1));
    try_move(Dir::Down, &mut player, &mut grid);
    assert_eq!(player, Point::new(3, 1));
}

#[test]
fn expand_doubles_every_cell() {
    let wide = expand(grid_of(&["#.O#", "#O.#"]));
    assert_eq!(wide.width, 8);
    assert_eq!(wide.height, 2);
    assert_eq!(shown(&wide), vec!["##..[]##", "##[]..##"]);
}

#[test]
fn wide_boxes_slide_along_a_row() {
    let mut grid = grid_of(&["##..[][]..##"]);
    let mut player = Point::new(8, 0);
    try_wide_move(Dir::Left, &mut player, &mut grid);
    assert_eq!(player, Point::new(7, 0));
    assert_eq!(shown(&grid), vec!["##.[][]...##"]);
    try_wide_move(Dir::Left, &mut player, &mut grid);
    assert_eq!(shown(&grid), vec!["##[][]....##"]);
    try_wide_move(Dir::Left, &mut player, &mut grid);
    assert_eq!(player, Point::new(6, 0));
    assert_eq!(shown(&grid), vec!["##[][]....##"]);
    let mut player = Point::new(1, 0);
    try_wide_move(Dir::Right, &mut player, &mut grid);
    assert_eq!(player, Point::new(2, 0));
    assert_eq!(shown(&grid), vec!["##.[][]...##"]);
}

#[test]
fn wide_boxes_push_their_neighbours_up_and_down() {
    let rows = ["##########", "##......##", "##.[][].##", "##..[]..##", "##......##", "##########"];
    let mut grid = grid_of(&rows);
    let mut player = Point::new(5, 4);
    try_wide_move(Dir::Up, &mut player, &mut grid);
    assert_eq!(player, Point::new(5, 3));
    assert_eq!(
        shown(&grid),
        vec!["##########", "##.[][].##", "##..[]..##", "##......##", "##......##", "##########"]
    );
    try_wide_move(Dir::Up, &mut player, &mut grid);
    assert_eq!(player, Point::new(5, 3));
    assert_eq!(
        shown(&grid),
        vec!["##########", "##.[][].##", "##..[]..##", "##......##", "##......##", "##########"]
    );
    let mut player = Point::new(3, 0);
    try_wide_move(Dir::Down, &mut player, &mut grid);
    assert_eq!(player, Point::new(3, 1));
    assert_eq!(
        shown(&grid),
        vec!["##########", "##...[].##", "##.[]...##", "##..[]..##", "##......##", "##########"]
    );
}

#[test]
fn one_blocked_box_holds_all_of_them() {
    let rows = ["########", "#....#.#", "#.[][].#", "#..[]..#", "#......#"];
    let mut grid = grid_of(&rows);
    let mut player = Point::new(3, 4);
    try_wide_move(Dir::Up, &mut player, &mut grid);
    assert_eq!(player, Point::new(3, 4));
    assert_eq!(shown(&grid), rows.to_vec());
    let mut player = Point::new(2, 3);
    try_wide_move(Dir::Up, &mut player, &mut grid);
    assert_eq!(player, Point::new(2, 2));
    assert_eq!(
        shown(&grid),
        vec!["########", "#.[].#.#", "#...[].#", "#..[]..#", "#......#"]
    );
}

#[test]
fn boxes_are_not_pushed_out_of_the_grid() {
    let rows = ["..[]..", "......"];
    let mut grid = grid_of(&rows);
    let mut player = Point::new(2, 1);
    try_wide_move(Dir::Up, &mut player, &mut grid);
    assert_eq!(player, Point::new(2, 1));
    assert_eq!(shown(&grid), rows.to_vec());
    let mut player = Point::new(1, 0);
    try_wide_move(Dir::Up, &mut player, &mut grid);
    assert_eq!(player, Point::new(1, 0));
    try_wide_move(Dir::Down, &mut player, &mut grid);
    assert_eq!(player, Point::new(1, 1));
}
