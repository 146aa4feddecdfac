use advent::days::day12::{
    compute_regions_and_fences, corners, prepare, same_region, solve_part1, solve_part2, tally,
};
use advent::etc::disjoint::DisjointSet;
use advent::etc::grid::{Point, Position};

const EXAMPLE_INPUT: &str = "RRRRIICCFF
      RRRRIICCCF
      VVRRRCCFFF
      VVRCCCJFFF
      VVVVCJJCFE
      VVIVCCJJEE
      VVIIICJJEE
      MIIIIIJJEE
      MIIISIJEEE
      MMMISSJEEE";

#[test]
fn day12_example_part1() {
    assert_eq!(solve_part1(EXAMPLE_INPUT), 1930);
}

#[test]
fn day12_example_part2() {
    assert_eq!(
        solve_part2(
            "AAAA
        BBCD
        BBCC
        EEEC"
        ),
        80
    );
    assert_eq!(
        solve_part2(
            "EEEEE
        EXXXX
        EEEEE
        EXXXX
        EEEEE"
        ),
        236
    );
    assert_eq!(
        solve_part2(
            "AAAAAA
        AAABBA
        AAABBA
        ABBAAA
        ABBAAA
        AAAAAA"
        ),
        368
    );
    assert_eq!(solve_part2(EXAMPLE_INPUT), 1206);
}

#[test]
fn day12_small_fixtures_part1() {
    assert_eq!(
        solve_part1(
            "AAAA
        BBCD
        BBCC
        EEEC"
        ),
        140
    );
    assert_eq!(
        solve_part1(
            "OOOOO
        OXOXO
        OOOOO
        OXOXO
        OOOOO"
        ),
        772
    );
    assert_eq!(solve_part1("A"), 4);
    assert_eq!(solve_part2("A"), 4);
    assert_eq!(solve_part1("AB"), 8);
    assert_eq!(solve_part1("AA"), 12);
    assert_eq!(solve_part2("AA"), 8);
}

#[test]
fn day12_regions_and_fences() {
    let farm = prepare("AAB ABB");
    let (regions, fences) = compute_regions_and_fences(&farm);
    assert_eq!(fences, vec![2, 3, 3, 3, 3, 2]);
    assert!(regions.same_set(0, 1));
    assert!(regions.same_set(0, 3));
    assert!(regions.other_sets(0, 2));
    assert!(regions.same_set(2, 5));
    assert!(regions.same_set(4, 2));
    assert_eq!(regions.find(5), 2);
    assert_eq!(regions.find(3), 0);
    assert!(same_region(&farm, &regions, &Position(0, 0), Point(1, 0)));
    assert!(!same_region(&farm, &regions, &Position(0, 0), Point(1, 1)));
    assert!(!same_region(&farm, &regions, &Position(0, 0), Point(-1, 0)));
    assert_eq!(corners(&farm, &regions, &Position(0, 0)), 2);
    assert_eq!(corners(&farm, &regions, &Position(0, 1)), 2);
    assert_eq!(corners(&farm, &regions, &Position(1, 0)), 2);
    assert_eq!(tally(&regions, &fences), 3 * 8 + 3 * 8);
}

#[test]
fn disjoint_set_merges_classes() {
    let mut set = DisjointSet::new(6);
    assert_eq!(set.len(), 6);
    for i in 0..6 {
        assert_eq!(set.find(i), i);
    }
    set.union(4, 2);
    set.union(5, 4);
    set.union(1, 3);
    assert!(set.same_set(2, 5));
    assert!(set.other_sets(2, 3));
    assert_eq!(set.find(5), 2);
    assert_eq!(set.find(3), 1);
    set.union(3, 5);
    assert!(set.same_set(1, 4));
    assert_eq!(set.find(4), 1);
    assert_eq!(set.find(0), 0);
    set.union(0, 0);
    assert_eq!(set.find(0), 0);
}

#[test]
fn disjoint_set_never_splits_a_class() {
    let mut set = advent::etc::disjoint::DisjointSet::new(6);
    set.union(4, 5);
    set.union(1, 2);
    assert!(set.same_set(4, 5) && set.same_set(1, 2) && set.other_sets(1, 4));
    set.union(2, 5);
    for (a, b) in [(4, 5), (1, 2), (1, 4), (2, 5), (1, 5)] {
        assert!(set.same_set(a, b));
    }
    assert!(set.other_sets(0, 1) && set.other_sets(3, 4) && set.other_sets(0, 3));
    assert_eq!(set.find(5), 1);
    assert_eq!(set.find(3), 3);
}
