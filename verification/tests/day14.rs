use advent::days::day14::{
    find_clear, has_overlap, prepare, safety_factor, solve_part1, transpose_robots, wrap, Robot,
};

const EXAMPLE_INPUT: &str = "p=0,4 v=3,-3
      p=6,3 v=-1,-3
      p=10,3 v=-1,2
      p=2,0 v=2,-1
      p=0,0 v=1,3
      p=3,0 v=-2,-2
      p=7,6 v=-1,-3
      p=3,0 v=-1,-2
      p=9,3 v=2,3
      p=7,3 v=-1,2
      p=2,4 v=2,-3
      p=9,5 v=-3,-3";

fn robot(x: i64, y: i64, dx: i64, dy: i64) -> Robot {
    Robot { position: (x, y), velocity: (dx, dy) }
}

#[test]
fn day14_example_part1() {
    assert_eq!(solve_part1(EXAMPLE_INPUT, 7, 11), Some(12));
}

#[test]
fn day14_robots_wrap_around() {
    assert_eq!(wrap(2, 2, 1, 11), 4);
    assert_eq!(wrap(2, 2, 5, 11), 1);
    assert_eq!(wrap(4, -3, 1, 7), 1);
    assert_eq!(wrap(4, -3, 2, 7), 5);
    assert_eq!(wrap(4, -3, 5, 7), 3);
    assert_eq!(wrap(0, -7, 3, 7), 0);
    assert_eq!(wrap(-1, 0, 3, 7), 6);
    assert_eq!(wrap(i64::MAX, i64::MAX, u64::MAX, i64::MAX as u64), 0);
    assert_eq!(wrap(i64::MIN, i64::MIN, u64::MAX, 10), 2);
    let mut robots = vec![robot(2, 4, 2, -3)];
    transpose_robots(&mut robots, 11, 7, 5);
    assert_eq!(robots[0].position, (1, 3));
    assert_eq!(robots[0].velocity, (2, -3));
}

#[test]
fn day14_reads_robots() {
    let robots = prepare("p=0,4 v=3,-3 p=6,3 v=-1,-3").unwrap();
    assert_eq!(robots.len(), 2);
    assert_eq!(robots[1].position, (6, 3));
    assert_eq!(robots[1].velocity, (-1, -3));
    assert!(prepare("p=0,4 v=3,-9223372036854775808").is_some());
    assert!(prepare("p=0,4 v=3,-9223372036854775809").is_none());
    assert!(prepare("p=0,9223372036854775808 v=3,1").is_none());
    assert_eq!(solve_part1(EXAMPLE_INPUT, 0, 11), None);
}

#[test]
fn day14_quadrants_and_overlaps() {
    let robots = vec![robot(0, 0, 0, 0), robot(1, 0, 0, 0), robot(4, 0, 0, 0), robot(0, 4, 0, 0),
        robot(4, 4, 0, 0), robot(2, 1, 0, 0), robot(1, 2, 0, 0)];
    assert_eq!(safety_factor(&robots, 5, 5), 2);
    assert_eq!(safety_factor(&robots, 5, 3), 4);
    assert_eq!(safety_factor(&robots, 3, 5), 2);
    assert_eq!(safety_factor(&vec![robot(0, 0, 0, 0)], 5, 5), 0);
    assert!(!has_overlap(&robots));
    assert!(has_overlap(&vec![robot(0, 0, 1, 1), robot(1, 0, 0, 0), robot(0, 0, 2, 2)]));
    assert!(!has_overlap(&vec![]));
    // two robots that go together meet at every step
    let pair = vec![robot(0, 0, 1, 0), robot(0, 0, 1, 0)];
    assert_eq!(find_clear(&pair, 5), None);
    // two robots that go towards each other meet after one step
    let pair = vec![robot(0, 0, 1, 0), robot(2, 0, 100, 0)];
    assert_eq!(find_clear(&pair, 5), Some(2));
    assert_eq!(find_clear(&pair, 1), None);
    assert_eq!(find_clear(&pair, 0), None);
}
