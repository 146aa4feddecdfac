use advent::days::day05::{
    check_update, is_before, parse, prepare, read_rule, read_update, reorder_update, solve_part1,
    solve_part2,
};

const EXAMPLE_INPUT: &str = "47|53
97|13
97|61
97|47
75|29
61|13
75|53
29|13
97|29
53|29
61|53
97|53
61|29
47|13
75|47
97|75
47|61
75|61
47|29
75|13
53|13

75,47,61,53,29
97,61,53,29,13
75,29,13
75,97,47,61,53
61,13,29
97,13,75,29,47";

#[test]
fn day05_example_part1() {
    assert_eq!(solve_part1(EXAMPLE_INPUT), 143);
}

#[test]
fn day05_example_part2() {
    assert_eq!(solve_part2(EXAMPLE_INPUT), 123);
}

#[test]
fn day05_preparation() {
    let (orderings, updates) = prepare(EXAMPLE_INPUT);
    assert!(orderings.contains(&(97, 13)));
    assert!(orderings.contains(&(53, 13)));
    assert_eq!(orderings.len(), 21);
    assert!(updates.contains(&vec![61, 13, 29]));
}

#[test]
fn day05_rules_and_updates() {
    let chars = |s: &str| s.chars().collect::<Vec<char>>();
    assert_eq!(read_rule(&chars("47|53")), Some((47, 53)));
    assert_eq!(read_rule(&chars("47|53|9")), Some((47, 53)));
    assert_eq!(read_rule(&chars("47")), None);
    assert_eq!(read_rule(&chars("47|x")), None);
    assert_eq!(read_rule(&chars("47|4294967296")), None);
    assert_eq!(read_update(&chars("75,29,13")), Some(vec![75, 29, 13]));
    assert_eq!(read_update(&chars("75")), Some(vec![75]));
    assert_eq!(read_update(&chars("75,,13")), None);
    assert!(parse("1|2\n3,4").is_none());
    assert!(parse("1|2\n\n3;4").is_none());
    assert!(parse("1-2\n\n3,4").is_none());
    let (orderings, updates) = prepare("1|2 2|3\n1|3\n\n3,1,2\n2");
    assert_eq!(orderings, vec![(1, 2), (2, 3), (1, 3)]);
    assert_eq!(updates, vec![vec![3, 1, 2], vec![2]]);
    assert!(is_before(&orderings, 1, 3));
    assert!(!is_before(&orderings, 3, 1));
    assert!(!check_update(&orderings, &vec![3, 1, 2]));
    assert!(check_update(&orderings, &vec![1, 2, 3]));
    assert!(check_update(&orderings, &vec![2]));
    assert!(check_update(&orderings, &vec![]));
    assert!(!check_update(&orderings, &vec![1, 1]));
    assert_eq!(reorder_update(&orderings, vec![3, 1, 2]), vec![1, 2, 3]);
    assert_eq!(reorder_update(&orderings, vec![3, 2, 1]), vec![1, 2, 3]);
    assert_eq!(reorder_update(&orderings, vec![]), Vec::<u32>::new());
    assert_eq!(solve_part1("1|2 2|3\n1|3\n\n3,1,2\n2\n1,3"), 2 + 3);
    assert_eq!(solve_part2("1|2 2|3\n1|3\n\n3,1,2\n2\n1,3"), 2);
}

#[test]
fn day05_settled_rules_put_an_update_in_order() {
    // of any two of the pages one rule speaks, and the rules are transitive
    let rules = vec![(1, 2), (1, 3), (1, 4), (2, 3), (2, 4), (3, 4)];
    for update in [vec![4, 3, 2, 1], vec![2, 4, 1, 3], vec![1, 2, 3, 4], vec![3, 1]] {
        let mut expected = update.clone();
        expected.sort();
        let sorted = advent::days::day05::reorder_update(&rules, update);
        assert_eq!(sorted, expected);
        assert!(advent::days::day05::check_update(&rules, &sorted));
    }
}
