use aoc::day12::{find_regions, parse, q1, q2};
use aoc::grid::Grid;
use aoc::point::Point;

const SMALL: &str = "AAAA
BBCD
BBCC
EEEC";

const BIGGER: &str = "RRRRIICCFF
RRRRIICCCF
VVRRRCCFFF
VVRCCCJFFF
VVVVCJJCFE
VVIVCCJJEE
VVIIICJJEE
MIIIIIJJEE
MIIISIJEEE
MMMISSJEEE";

#[test]
fn test_example_small() {
    let input = parse(SMALL).unwrap();
    let regions = find_regions(&input);
    assert_eq!(regions.regions.len(), 5);
    assert_eq!(q1(&input), 140);
    assert_eq!(q2(&input), 80);
}

#[test]
fn test_example_2() {
    let input = parse(
        "EEEEE
EXXXX
EEEEE
EXXXX
EEEEE",
    )
    .unwrap();
    let regions = find_regions(&input);
    assert_eq!(regions.regions.len(), 3);
    assert_eq!(q2(&input), 236);
}

#[test]
fn test_example_3() {
    let input = parse(
        "AAAAAA
AAABBA
AAABBA
ABBAAA
ABBAAA
AAAAAA",
    )
    .unwrap();
    let regions = find_regions(&input);
    assert_eq!(regions.regions.len(), 3);
    assert_eq!(q2(&input), 368, "wrong answer for Q2");
}

#[test]
fn test_example_bigger() {
    let input = parse(BIGGER).unwrap();
    let regions = find_regions(&input);
    assert_eq!(regions.regions.len(), 11);
    assert_eq!(q1(&input), 1930);
    assert_eq!(q2(&input), 1206);
}

#[test]
fn single_cell_is_one_region_with_four_sides() {
    let input = parse("A").unwrap();
    let found = find_regions(&input);
    assert_eq!(found.regions.len(), 1);
    assert_eq!(found.regions[0], (b'A', vec![Point { x: 0, y: 0 }]));
    assert_eq!(found.cell_to_region.inner, vec![0]);
    assert_eq!(q1(&input), 4);
    assert_eq!(q2(&input), 4);
}

#[test]
fn empty_garden_has_no_region() {
    let input: Grid<u8> = Grid::new(0, 0, 0);
    let found = find_regions(&input);
    assert!(found.regions.is_empty());
    assert_eq!(q1(&input), 0);
    assert_eq!(q2(&input), 0);
}

#[test]
fn regions_are_numbered_row_by_row() {
    let input = parse(SMALL).unwrap();
    let found = find_regions(&input);
    assert_eq!(
        found.cell_to_region.inner,
        vec![0, 0, 0, 0, 1, 1, 2, 3, 1, 1, 2, 2, 4, 4, 4, 2]
    );
    let plants: Vec<u8> = found.regions.iter().map(|r| r.0).collect();
    assert_eq!(plants, vec![b'A', b'B', b'C', b'D', b'E']);
    let areas: Vec<usize> = found.regions.iter().map(|r| r.1.len()).collect();
    assert_eq!(areas, vec![4, 4, 4, 1, 3]);
    for region in &found.regions {
        assert_eq!(input.get(region.1[0]), Some(&region.0));
    }
}

#[test]
fn every_cell_lies_in_exactly_one_region() {
    let input = parse(BIGGER).unwrap();
    let found = find_regions(&input);
    let mut seen = vec![0usize; input.width * input.height];
    for (id, region) in found.regions.iter().enumerate() {
        for p in &region.1 {
            assert!(input.is_in_bounds(*p));
            assert_eq!(found.cell_to_region.get(*p), Some(&id));
            assert_eq!(input.get(*p), Some(&region.0));
            seen[p.y as usize * input.width + p.x as usize] += 1;
        }
    }
    assert!(seen.iter().all(|n| *n == 1));
}

#[test]
fn finding_regions_twice_gives_the_same_members() {
    let input = parse(BIGGER).unwrap();
    let first = find_regions(&input);
    let second = find_regions(&input);
    assert_eq!(first.cell_to_region.inner, second.cell_to_region.inner);
    assert_eq!(first.regions.len(), second.regions.len());
    for (a, b) in first.regions.iter().zip(second.regions.iter()) {
        let mut left: Vec<(isize, isize)> = a.1.iter().map(|p| (p.y, p.x)).collect();
        let mut right: Vec<(isize, isize)> = b.1.iter().map(|p| (p.y, p.x)).collect();
        left.sort();
        right.sort();
        assert_eq!(left, right);
        assert_eq!(a.0, b.0);
    }
}

#[test]
fn wide_garden_is_scanned_whole() {
    let input = parse("AABBBA\nAABABA").unwrap();
    assert_eq!(input.width, 6);
    assert_eq!(input.height, 2);
    let found = find_regions(&input);
    assert_eq!(found.cell_to_region.inner, vec![0, 0, 1, 1, 1, 2, 0, 0, 1, 3, 1, 2]);
    // A: 4 x 8, B: 5 x 12, A: 2 x 6, A: 1 x 4
    assert_eq!(q1(&input), 32 + 60 + 12 + 4);
    // sides: 4, 8, 4, 4
    assert_eq!(q2(&input), 16 + 40 + 8 + 4);
}

#[test]
fn parse_rejects_ragged_text() {
    assert!(parse("AAA\nBB").is_none());
    assert!(parse("").is_none());
}
