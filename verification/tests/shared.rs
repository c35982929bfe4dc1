use aoc::arith::exact_quotient;
use aoc::bfs::bfs;
use aoc::dir::Dir;
use aoc::grid::Grid;
use aoc::point::Point;
use aoc::scan::{
    parse_digits, parse_i64, parse_u64, push_int, push_number, scan_numbers, split_fields,
    split_lines, strip_spaces,
};
use aoc::text::{find_last, parse_grid, strip_blanks};

#[test]
fn grid_get_is_some_exactly_within_bounds() {
    let grid = Grid { width: 3, height: 2, inner: vec![10, 11, 12, 20, 21, 22] };
    for y in -2..4 {
        for x in -2..5 {
            let p = Point::new(x, y);
            let inside = 0 <= x && x < 3 && 0 <= y && y < 2;
            assert_eq!(grid.is_in_bounds(p), inside);
            assert_eq!(grid.get(p).is_some(), inside);
            assert_eq!(grid.get_copied(p).is_some(), inside);
            if inside {
                assert_eq!(grid.get_copied(p), Some(10 * (y + 1) + x));
                assert_eq!(*grid.get_unchecked(p), 10 * (y + 1) + x);
            }
        }
    }
    assert_eq!(grid.get(Point::new(isize::MIN, 0)), None);
    assert_eq!(grid.get(Point::new(0, isize::MAX)), None);
}

#[test]
fn grid_stores_its_cells_row_by_row() {
    let mut grid = Grid::new(4, 3, 0u8);
    assert_eq!(grid.inner, vec![0; 12]);
    grid.set(Point::new(1, 2), 7);
    assert_eq!(grid.inner[9], 7);
    assert_eq!(grid.offset(Point::new(1, 2)), 9);
    assert_eq!(grid.point_of(9), Point::new(1, 2));
    assert_eq!(grid.get(Point::new(1, 2)), Some(&7));
    assert_eq!(grid.get(Point::new(2, 1)), Some(&0));
    assert_eq!(grid.state_offset(Point::new(1, 2), Dir::Left), 38);
    assert_eq!(grid.state_of(38), (Point::new(1, 2), Dir::Left));
    let copy = grid.clone();
    assert_eq!(copy.inner, grid.inner);
    assert_eq!((copy.width, copy.height), (4, 3));
}

#[test]
fn directions_turn_and_step() {
    assert_eq!(Dir::all(), [Dir::Up, Dir::Down, Dir::Left, Dir::Right]);
    for (i, dir) in Dir::all().into_iter().enumerate() {
        assert_eq!(dir.index(), i);
        assert_eq!(Dir::from_index(i), dir);
        assert_eq!(dir.to_right().to_left(), dir);
        assert_eq!(dir.to_right().to_right().to_right().to_right(), dir);
        assert_eq!(dir.to_left().to_left(), dir.to_right().to_right());
    }
    assert_eq!(Dir::Up.to_right(), Dir::Right);
    assert_eq!(Dir::Right.to_right(), Dir::Down);
    assert_eq!(Dir::Down.to_right(), Dir::Left);
    assert_eq!(Dir::Left.to_right(), Dir::Up);
    let mut dir = Dir::Up;
    dir.turn_left();
    assert_eq!(dir, Dir::Left);
    dir.turn_right();
    dir.turn_right();
    assert_eq!(dir, Dir::Right);
    let p = Point::new(3, 5);
    assert_eq!(Dir::Up.step_from(p), Point::new(3, 4));
    assert_eq!(Dir::Down.step_from(p), Point::new(3, 6));
    assert_eq!(Dir::Left.step_from(p), Point::new(2, 5));
    assert_eq!(Dir::Right.step_from(p), Point::new(4, 5));
    let arrows: String = Dir::all().iter().map(|d| d.to_char()).collect();
    assert_eq!(arrows, "^v<>");
}

#[test]
fn points_add_and_have_four_neighbours() {
    let p = Point::new(2, -3);
    assert_eq!(p.plus(Point::new(-5, 4)), Point::new(-3, 1));
    assert_eq!(p.minus(Point::new(-5, 4)), Point::new(7, -7));
    assert_eq!(p.up(), Point::new(2, -4));
    assert_eq!(p.down(), Point::new(2, -2));
    assert_eq!(p.left(), Point::new(1, -3));
    assert_eq!(p.right(), Point::new(3, -3));
    assert_eq!(p.cardinal(), [p.up(), p.down(), p.left(), p.right()]);
    assert_eq!(Point::from_indices(4, 9), Point::new(4, 9));
    assert_eq!(Point::default(), Point::new(0, 0));
}

#[test]
fn text_is_cut_into_lines_and_fields() {
    let rows = split_lines(b"ab\n\ncd");
    assert_eq!(rows, vec![b"ab".to_vec(), vec![], b"cd".to_vec()]);
    assert_eq!(split_lines(b"ab\n"), vec![b"ab".to_vec()]);
    assert_eq!(split_lines(b""), Vec::<Vec<u8>>::new());
    assert_eq!(split_lines(b"\n"), vec![Vec::<u8>::new()]);
    let fields = split_fields(b"  12 \t x\n7 ");
    assert_eq!(fields, vec![b"12".to_vec(), b"x".to_vec(), b"7".to_vec()]);
    assert_eq!(strip_spaces(b" a b\tc\n"), b"abc".to_vec());
    assert_eq!(strip_blanks(b" a b\tc\r\n"), b"abc\n".to_vec());
}

#[test]
fn numbers_are_read_and_written() {
    assert_eq!(parse_u64(b"0"), Some(0));
    assert_eq!(parse_u64(b"007"), Some(7));
    assert_eq!(parse_u64(b"18446744073709551615"), Some(u64::MAX));
    assert_eq!(parse_u64(b"18446744073709551616"), None);
    assert_eq!(parse_u64(b""), None);
    assert_eq!(parse_u64(b"-1"), None);
    assert_eq!(parse_u64(b"1x"), None);
    assert_eq!(parse_digits(b"ab12", 2), Some(12));
    assert_eq!(parse_digits(b"ab12", 4), None);
    assert_eq!(parse_i64(b"-9223372036854775808"), Some(i64::MIN));
    assert_eq!(parse_i64(b"9223372036854775807"), Some(i64::MAX));
    assert_eq!(parse_i64(b"9223372036854775808"), None);
    assert_eq!(parse_i64(b"+5"), Some(5));
    assert_eq!(parse_i64(b"-"), None);
    assert_eq!(scan_numbers(b"p=0,4 v=3,-3"), Some(vec![0, 4, 3, -3]));
    assert_eq!(scan_numbers(b"Button A: X+94, Y+34"), Some(vec![94, 34]));
    assert_eq!(scan_numbers(b"none"), Some(vec![]));
    assert_eq!(scan_numbers(b"x 9223372036854775808"), None);
    let mut text = String::from("n=");
    push_number(&mut text, 0);
    push_number(&mut text, 1050);
    push_int(&mut text, -42);
    push_int(&mut text, i64::MIN);
    assert_eq!(text, "n=01050-42-9223372036854775808");
}

#[test]
fn maps_are_read_from_text() {
    let grid = parse_grid(b"ab\ncd\nef").unwrap();
    assert_eq!((grid.width, grid.height), (2, 3));
    assert_eq!(grid.inner, b"abcdef".to_vec());
    assert_eq!(parse_grid(b"ab\ncd\n").unwrap().inner, b"abcd".to_vec());
    assert!(parse_grid(b"").is_none());
    assert!(parse_grid(b"ab\nc").is_none());
    assert!(parse_grid(b"ab\n\ncd").is_none());
    assert!(parse_grid(b"\n").is_none());
    let grid = parse_grid(b"S.S\n..E").unwrap();
    assert_eq!(find_last(&grid, b'S'), Some(Point::new(2, 0)));
    assert_eq!(find_last(&grid, b'E'), Some(Point::new(2, 1)));
    assert_eq!(find_last(&grid, b'x'), None);
}

#[test]
fn search_finds_the_nearest_marked_node() {
    let adj = vec![vec![1, 2], vec![3], vec![3, 4], vec![5], vec![], vec![]];
    let goal = vec![false, false, false, false, false, true];
    assert_eq!(bfs(&adj, &goal, 0), Some((5, 3)));
    assert_eq!(bfs(&adj, &goal, 5), Some((5, 0)));
    assert_eq!(bfs(&adj, &goal, 4), None);
    let two = vec![false, false, false, false, true, true];
    assert_eq!(bfs(&adj, &two, 0), Some((4, 2)));
    assert_eq!(bfs(&adj, &vec![false; 6], 0), None);
}

#[test]
fn quotient_is_found_only_when_exact() {
    assert_eq!(exact_quotient(12, 4), Some(3));
    assert_eq!(exact_quotient(-12, 4), Some(-3));
    assert_eq!(exact_quotient(12, -4), Some(-3));
    assert_eq!(exact_quotient(-12, -4), Some(3));
    assert_eq!(exact_quotient(0, 5), Some(0));
    assert_eq!(exact_quotient(13, 4), None);
    assert_eq!(exact_quotient(-1, 2), None);
}

#[test]
fn points_scale_and_wrap() {
    let p = Point::new(7, -7);
    assert_eq!(p.scale(3), Point::new(21, -21));
    assert_eq!(p.scale(-1), Point::new(-7, 7));
    assert_eq!(p.scale(0), Point::new(0, 0));
    assert_eq!(p.modulo(Point::new(5, 5)), Point::new(2, -2));
    assert_eq!(p.modulo(Point::new(-5, -5)), Point::new(2, -2));
    assert_eq!(p.modulo(Point::new(7, 1)), Point::new(0, 0));
    assert_eq!(p.modulo(Point::new(8, isize::MIN)), Point::new(7, -7));
    assert_eq!(
        Point::new(isize::MIN, isize::MAX).modulo(Point::new(10, 10)),
        Point::new(isize::MIN % 10, isize::MAX % 10)
    );
    for dir in Dir::all() {
        assert_eq!(p.step_to(dir), dir.step_from(p));
    }
}
