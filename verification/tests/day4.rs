use aoc::day4::{
    count_word, parse, search_diag_top_left, search_diag_top_right, search_horizontal,
    search_vertical, solve_q1, solve_q2, XMAS,
};

const TEST_INPUT: &str = "\
MMMSXXMASM
MSAMXMSMSA
AMXSXMAAMM
MSAMASMSMX
XMASAMXAMM
XXAMMXXAMA
SMSMSASXSS
SAXAMASAAA
MAMMMXMMMM
MXMXAXMASX
";

#[test]
fn day4_test_q1() {
    let grid = parse(TEST_INPUT).unwrap();
    assert_eq!(grid.height, 10);
    assert_eq!(grid.width, 10);
    let q1 = solve_q1(&grid);
    assert_eq!(q1, 18);
}

#[test]
fn day4_test_q1_vertical_forwards() {
    let grid = parse(
        "\
XQQQ
MQQQ
AQQQ
SQQQ
",
    )
    .unwrap();
    assert_eq!(grid.height, 4);
    assert_eq!(grid.width, 4);
    let q1 = solve_q1(&grid);
    assert_eq!(q1, 1);
}

#[test]
fn main_test_q1_vertical_forwards() {
    let grid = parse("XQQQ\nMQQQ\nAQQQ\nSQQQ\n").unwrap();
    assert_eq!(grid.height, 4);
    assert_eq!(grid.width, 4);
    assert_eq!(solve_q1(&grid), 1);
}

#[test]
fn day4_test_q1_vertical_reverse() {
    let grid = parse(
        "\
SQQQ
AQQQ
MQQQ
XQQQ
",
    )
    .unwrap();
    assert_eq!(grid.height, 4);
    assert_eq!(grid.width, 4);
    let q1 = solve_q1(&grid);
    assert_eq!(q1, 1);
}

#[test]
fn main_test_q1_vertical_reverse() {
    let grid = parse("SQQQ\nAQQQ\nMQQQ\nXQQQ\n").unwrap();
    assert_eq!(grid.height, 4);
    assert_eq!(grid.width, 4);
    assert_eq!(solve_q1(&grid), 1);
}

#[test]
fn day4_test_q2() {
    let grid = parse(TEST_INPUT).unwrap();
    assert_eq!(grid.height, 10);
    assert_eq!(grid.width, 10);
    let q2 = solve_q2(&grid);
    assert_eq!(q2, 9);
}

#[test]
fn each_direction_is_counted_by_its_own_search() {
    let grid = parse(TEST_INPUT).unwrap();
    assert_eq!(search_horizontal(&grid, false), 3);
    assert_eq!(search_horizontal(&grid, true), 2);
    assert_eq!(search_vertical(&grid, false), 1);
    assert_eq!(search_vertical(&grid, true), 2);
    let diagonals = search_diag_top_left(&grid, false)
        + search_diag_top_left(&grid, true)
        + search_diag_top_right(&grid, false)
        + search_diag_top_right(&grid, true);
    assert_eq!(diagonals, 10);
}

#[test]
fn words_do_not_wrap_around_the_edges() {
    let grid = parse("ASXM\nASXM").unwrap();
    assert_eq!(solve_q1(&grid), 0);
    let grid = parse("XMAS").unwrap();
    assert_eq!(solve_q1(&grid), 1);
    assert_eq!(count_word(&grid, 1, 0, &XMAS), 1);
    assert_eq!(count_word(&grid, -1, 0, &XMAS), 0);
    let grid = parse("SAMX").unwrap();
    assert_eq!(count_word(&grid, -1, 0, &XMAS), 1);
    assert_eq!(solve_q1(&grid), 1);
    let grid = parse("X...\n.M..\n..A.\n...S").unwrap();
    assert_eq!(search_diag_top_right(&grid, false), 1);
    assert_eq!(solve_q1(&grid), 1);
    let grid = parse("...S\n..A.\n.M..\nX...").unwrap();
    assert_eq!(search_diag_top_left(&grid, false), 1);
    assert_eq!(solve_q1(&grid), 1);
}

#[test]
fn crosses_need_both_diagonals() {
    assert_eq!(solve_q2(&parse("M.S\n.A.\nM.S").unwrap()), 1);
    assert_eq!(solve_q2(&parse("S.S\n.A.\nM.M").unwrap()), 1);
    assert_eq!(solve_q2(&parse("M.S\n.A.\nS.M").unwrap()), 0);
    assert_eq!(solve_q2(&parse("M.S\n.A.\nM.M").unwrap()), 0);
    assert_eq!(solve_q2(&parse("A").unwrap()), 0);
    assert_eq!(solve_q2(&parse("MAS").unwrap()), 0);
}
