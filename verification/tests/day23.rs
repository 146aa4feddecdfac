use advent::days::day23::{
    adjacency, count_triples, join, largest, name_before, network, parse, password, prepare,
    solve_part1, solve_part2, sort_names,
};

const EXAMPLE_INPUT: &str = "kh-tc
        qp-kh
        de-cg
        ka-co
        yn-aq
        qp-ub
        cg-tb
        vc-aq
        tb-ka
        wh-tc
        yn-cg
        kh-ub
        ta-co
        de-co
        tc-td
        tb-wq
        wh-td
        ta-ka
        td-qp
        aq-cg
        wq-ub
        ub-vc
        de-ta
        wq-aq
        wq-vc
        wh-yn
        ka-de
        kh-ta
        co-tc
        wh-qp
        tb-vc
        td-yn";

fn chars(s: &str) -> Vec<char> {
    s.chars().collect()
}

#[test]
fn day23_example_part1() {
    assert_eq!(solve_part1(EXAMPLE_INPUT), 7);
}

#[test]
fn day23_example_part2() {
    assert_eq!(solve_part2(EXAMPLE_INPUT), Some("co,de,ka,ta".to_string()));
}

#[test]
fn day23_network() {
    let links = prepare("a-b b-ta\n ta-a c-a");
    assert_eq!(links.len(), 4);
    assert_eq!(links[1], (chars("b"), chars("ta")));
    let (names, edges) = network(&links);
    assert_eq!(names, vec![chars("a"), chars("b"), chars("ta"), chars("c")]);
    assert_eq!(edges, vec![(0, 1), (1, 2), (2, 0), (3, 0)]);
    let adj = adjacency(4, &edges);
    assert_eq!(adj[0], vec![false, true, true, true]);
    assert_eq!(adj[3], vec![true, false, false, false]);
    assert_eq!(count_triples(&names, &edges), 1);
    assert_eq!(password(&names, &edges), Some("a,b,ta".to_string()));
    assert!(parse("a-b c").is_none());
    assert_eq!(solve_part2("a-a"), None);
    assert_eq!(solve_part1("a-b b-c c-a"), 0);
    assert_eq!(solve_part1("a-b b-tc tc-a"), 1);
    assert_eq!(solve_part2("zz-aa"), Some("aa,zz".to_string()));
}

#[test]
fn day23_names_in_order() {
    assert!(name_before(&chars("ab"), &chars("ab")));
    assert!(name_before(&chars("ab"), &chars("abc")));
    assert!(!name_before(&chars("abc"), &chars("ab")));
    assert!(name_before(&chars("ab"), &chars("b")));
    assert!(!name_before(&chars("b"), &chars("ab")));
    assert!(name_before(&chars(""), &chars("")));
    assert_eq!(
        sort_names(vec![chars("ta"), chars("co"), chars("ka"), chars("c"), chars("de"), chars("co")]),
        vec![chars("c"), chars("co"), chars("co"), chars("de"), chars("ka"), chars("ta")]
    );
    assert_eq!(join(&vec![chars("co"), chars("de"), chars("x")], ','), chars("co,de,x"));
    assert_eq!(join(&vec![chars("co")], ','), chars("co"));
    assert_eq!(join(&vec![], ','), chars(""));
    assert_eq!(largest(&vec![vec![1], vec![2, 3], vec![4, 5], vec![]]), Some(1));
    assert_eq!(largest(&vec![]), None);
}
