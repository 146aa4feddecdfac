use advent::days::day19::{count_ways, is_possible, parse, prepare, solve_part1, solve_part2};

const EXAMPLE_INPUT: &str = "r, wr, b, g, bwu, rb, gb, br

      brwrr
      bggr
      gbbr
      rrbgbr
      ubwu
      bwurrg
      brgr
      bbrgwb";

fn chars(s: &str) -> Vec<char> {
    s.chars().collect()
}

#[test]
fn day19_example_part1() {
    assert_eq!(solve_part1(EXAMPLE_INPUT), 6);
}

#[test]
fn day19_example_part2() {
    assert_eq!(solve_part2(EXAMPLE_INPUT), Some(16));
}

#[test]
fn day19_reads_patterns_and_designs() {
    let (patterns, designs) = prepare("r, wr,b\n\n  brwrr\nbggr\n");
    assert_eq!(patterns, vec![chars("r"), chars("wr"), chars("b")]);
    assert_eq!(designs, vec![chars("brwrr"), chars("bggr")]);
    assert!(parse("r,, b\n\nx").is_none());
    assert!(parse("r, w r\n\nx").is_none());
    assert!(parse("").is_none());
    let (patterns, designs) = prepare("ab");
    assert_eq!(patterns, vec![chars("ab")]);
    assert!(designs.is_empty());
}

#[test]
fn day19_counts_ways() {
    let patterns = vec![chars("a"), chars("aa"), chars("b")];
    assert!(advent::days::day19::matches(&chars("aa"), &chars("baab"), 1));
    assert!(!advent::days::day19::matches(&chars("aa"), &chars("baab"), 2));
    assert!(!advent::days::day19::matches(&chars("aa"), &chars("baab"), 3));
    assert!(!advent::days::day19::matches(&chars(""), &chars("baab"), 1));
    assert!(!advent::days::day19::matches(&chars("b"), &chars("baab"), 4));
    assert_eq!(count_ways(&patterns, &chars("aaa")), Some(3));
    assert_eq!(count_ways(&patterns, &chars("aaab")), Some(3));
    assert_eq!(count_ways(&patterns, &chars("aca")), Some(0));
    assert_eq!(count_ways(&patterns, &chars("")), Some(1));
    assert!(is_possible(&patterns, &chars("abaa")));
    assert!(!is_possible(&patterns, &chars("abc")));
    assert!(is_possible(&patterns, &chars("")));
    // the number of ways doubles with each letter: too many for 64 bits
    let many = vec![chars("a"), chars("a")];
    assert_eq!(count_ways(&many, &chars(&"a".repeat(63))), Some(1 << 63));
    assert_eq!(count_ways(&many, &chars(&"a".repeat(64))), None);
}
