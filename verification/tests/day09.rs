use advent::days::day09::{
    compact, defragment, find_next_free, find_next_free_span, move_file, parse, prepare,
    solve_part1, solve_part2, Block, Disk,
};

const EXAMPLE_INPUT: &str = "2333133121414131402";

fn disk(layout: &str) -> Disk {
    Disk(
        layout
            .chars()
            .map(|c| match c.to_digit(10) {
                Some(id) => Block::File(id as u64),
                None => Block::Free,
            })
            .collect(),
    )
}

#[test]
fn day09_example_part1() {
    assert_eq!(solve_part1(EXAMPLE_INPUT), Some(1928));
}

#[test]
fn day09_example_part2() {
    assert_eq!(solve_part2(EXAMPLE_INPUT), Some(2858));
}

#[test]
fn day09_reads_the_disk() {
    assert_eq!(prepare("12345\n").0, disk("0..111....22222").0);
    assert_eq!(prepare("").0, vec![]);
    assert_eq!(prepare("90909").0, disk("000000000111111111222222222").0);
    assert!(parse("12a45").is_none());
    assert!(parse("12 45").is_none());
    assert_eq!(disk("0099811188827773336446555566").checksum(), Some(1928));
    assert_eq!(disk("..").checksum(), Some(0));
    assert_eq!(Disk(vec![Block::Free, Block::File(u64::MAX)]).checksum(), Some(u64::MAX));
    assert_eq!(Disk(vec![Block::Free, Block::Free, Block::File(u64::MAX)]).checksum(), None);
}

#[test]
fn day09_defragments() {
    let mut d = disk("0..111....22222");
    defragment(&mut d);
    assert_eq!(d.0, disk("022111222......").0);
    let mut d = disk("00...111...2...333.44.5555.6666.777.888899");
    defragment(&mut d);
    assert_eq!(d.0, disk("0099811188827773336446555566..............").0);
    let mut d = disk("");
    defragment(&mut d);
    assert!(d.0.is_empty());
    let mut d = disk("...");
    defragment(&mut d);
    assert_eq!(d.0, disk("...").0);
}

#[test]
fn day09_compacts_whole_files() {
    let mut d = disk("00...111...2...333.44.5555.6666.777.888899");
    compact(&mut d);
    assert_eq!(d.0, disk("00992111777.44.333....5555.6666.....8888..").0);
    let d = disk("00...111.2");
    assert_eq!(find_next_free(&d, 0), 2);
    assert_eq!(find_next_free(&d, 5), 8);
    assert_eq!(find_next_free(&d, 9), 10);
    assert_eq!(find_next_free_span(&d, 0, 10, 3), Some(2));
    assert_eq!(find_next_free_span(&d, 0, 10, 4), None);
    assert_eq!(find_next_free_span(&d, 3, 10, 1), Some(3));
    assert_eq!(find_next_free_span(&d, 3, 10, 2), Some(3));
    assert_eq!(find_next_free_span(&d, 4, 10, 2), None);
    assert_eq!(find_next_free_span(&d, 0, 4, 3), None);
    assert_eq!(find_next_free_span(&d, 0, 5, 3), Some(2));
    let mut d = disk("00...111.2");
    move_file(&mut d, 2, 5);
    assert_eq!(d.0, disk("00111....2").0);
    // the file may take blocks that it has just left
    let mut d = disk("00..1111.2");
    move_file(&mut d, 2, 4);
    assert_eq!(d.0, disk("001111...2").0);
    let mut d = disk(".1");
    move_file(&mut d, 0, 1);
    assert_eq!(d.0, disk("1.").0);
}

#[test]
fn day09_defragment_takes_the_last_blocks_first() {
    let mut d = prepare("12345");
    defragment(&mut d);
    let ids: Vec<Option<u64>> = d
        .0
        .iter()
        .map(|b| match b {
            Block::File(id) => Some(*id),
            Block::Free => None,
        })
        .collect();
    assert_eq!(
        ids,
        vec![
            Some(0), Some(2), Some(2), Some(1), Some(1), Some(1), Some(2), Some(2), Some(2),
            None, None, None, None, None, None
        ]
    );
}
