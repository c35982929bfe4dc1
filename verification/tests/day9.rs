use aoc::day9::{parse, q1, q2, DiskMap};

#[test]
fn test_parse() {
    for (input, expected) in [
        ("12345", "0..111....22222"),
        ("2333133121414131402", "00...111...2...333.44.5555.6666.777.888899"),
    ] {
        let mut actual = parse(input).unwrap();
        assert_eq!(actual.render(), expected);

        println!("Fragmentd: {}", actual.render());
        actual.defrag();
        println!("Defragged: {}", actual.render());
    }
}

#[test]
fn day9_test_example() {
    let disk = parse("2333133121414131402").unwrap();
    let actual = q1(&disk);
    let expected = 1928;
    assert_eq!(actual, expected);
}

#[test]
fn day9_test_example_q2() {
    let disk = parse("2333133121414131402").unwrap();
    let actual = q2(&disk);
    let expected = 2858;
    assert_eq!(actual, expected);
}

#[test]
fn defrag_moves_blocks_from_the_end_to_the_front() {
    let mut disk = parse("12345").unwrap();
    disk.defrag();
    assert_eq!(disk.render(), "022111222......");
    let mut disk = parse("2333133121414131402\n").unwrap();
    disk.defrag();
    assert_eq!(disk.render(), "0099811188827773336446555566..............");
}

#[test]
fn defrag_entire_files_moves_files_whole() {
    let mut disk = parse("2333133121414131402").unwrap();
    disk.defrag_entire_files();
    assert_eq!(disk.render(), "00992111777.44.333....5555.6666.....8888..");
    assert_eq!(disk.checksum(), 2858);
}

#[test]
fn free_space_is_found_first_fit() {
    let disk = parse("2333133121414131402").unwrap();
    // 00...111...2...333.44.5555.6666.777.888899
    assert_eq!(disk.find_free_space_at_least(2, 0, 41), Some(2));
    assert_eq!(disk.find_free_space_at_least(3, 0, 41), Some(2));
    assert_eq!(disk.find_free_space_at_least(3, 3, 41), Some(8));
    assert_eq!(disk.find_free_space_at_least(4, 0, 41), None);
    assert_eq!(disk.find_free_space_at_least(1, 19, 41), Some(21));
    assert_eq!(disk.find_free_space_at_least(1, 0, 1), None);
    assert_eq!(disk.find_free_space_at_least(0, 0, 41), Some(2));
}

#[test]
fn checksum_is_position_times_file() {
    let disk = DiskMap { disk: vec![Some(0), Some(3), None, Some(2), None] };
    assert_eq!(disk.checksum(), 3 + 6);
    assert_eq!(DiskMap { disk: vec![] }.checksum(), 0);
    assert_eq!(disk.clone(), disk);
}

#[test]
fn files_with_long_numbers_are_shown_in_full() {
    let disk = DiskMap { disk: vec![Some(10), None, Some(4294967295)] };
    assert_eq!(disk.render(), "10.4294967295");
}

#[test]
fn empty_and_full_disks_stay_as_they_are() {
    let mut disk = parse("").unwrap();
    disk.defrag();
    disk.defrag_entire_files();
    assert_eq!(disk.render(), "");
    let mut disk = parse("3").unwrap();
    disk.defrag();
    assert_eq!(disk.render(), "000");
    disk.defrag_entire_files();
    assert_eq!(disk.render(), "000");
    let mut disk = parse("03").unwrap();
    disk.defrag();
    assert_eq!(disk.render(), "...");
}

#[test]
fn parse_rejects_what_is_no_digit() {
    assert!(parse("12a45").is_none());
    assert!(parse("-1").is_none());
}
