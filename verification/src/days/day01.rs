use crate::etc::count::{count, lemma_count_bounds, lemma_sum_rises, same, sum};
use crate::etc::number::{is_number, number, parse_u64};
use crate::etc::solution::{Solution, SolutionPair};
use crate::etc::sort::{sort, sorted};
use crate::etc::text::{chars, lines, rows_view, split_lines, split_words, words};
use vstd::prelude::*;

verus! {

/// The two numbers that a line starts with, where it does so.
pub open spec fn pair_of(line: Seq<char>) -> Option<(u64, u64)> {
    let w = words(line);
    if w.len() >= 2 && is_number(w[0]) && number(w[0]) <= u64::MAX && is_number(w[1]) && number(w[1])
        <= u64::MAX {
        Some((number(w[0]) as u64, number(w[1]) as u64))
    } else {
        None
    }
}

/// Every line starts with two numbers.
pub open spec fn well_formed(input: Seq<char>) -> bool {
    forall|i: int| 0 <= i < lines(input).len() ==> pair_of(#[trigger] lines(input)[i]) is Some
}

/// The first numbers of the lines.
pub open spec fn left(input: Seq<char>) -> Seq<u64> {
    Seq::new(lines(input).len(), |i: int| (pair_of(lines(input)[i])->0).0)
}

/// The second numbers of the lines.
pub open spec fn right(input: Seq<char>) -> Seq<u64> {
    Seq::new(lines(input).len(), |i: int| (pair_of(lines(input)[i])->0).1)
}

/// The two numbers that a line starts with, or `None` where it does not start
/// with two numbers.
pub fn parse_line(line: &Vec<char>) -> (r: Option<(u64, u64)>)
    ensures
        r == pair_of(line@),
{
    let w = split_words(line);
    if w.len() < 2 {
        return None;
    }
    assert(words(line@)[0] == w@[0]@ && words(line@)[1] == w@[1]@);
    match (parse_u64(&w[0]), parse_u64(&w[1])) {
        (Some(a), Some(b)) => Some((a, b)),
        _ => None,
    }
}

/// The two numbers that a line starts with.
pub fn line(input: &str) -> (r: (u64, u64))
    requires
        pair_of(input@) is Some,
    ensures
        Some(r) == pair_of(input@),
{
    let text = chars(input);
    match parse_line(&text) {
        Some(r) => r,
        None => (0, 0),
    }
}

/// The first numbers of the lines and the second ones, or `None` where a line
/// does not start with two numbers.
pub fn parse(input: &str) -> (r: Option<(Vec<u64>, Vec<u64>)>)
    ensures
        match r {
            Some((a, b)) => well_formed(input@) && a@ == left(input@) && b@ == right(input@),
            None => !well_formed(input@),
        },
{
    let text = chars(input);
    let rows = split_lines(&text);
    let ghost all = lines(input@);
    let mut a: Vec<u64> = Vec::new();
    let mut b: Vec<u64> = Vec::new();
    let mut i: usize = 0;
    while i < rows.len()
        invariant
            i <= rows@.len(),
            all == lines(input@),
            all == rows_view(rows@),
            a@.len() == i,
            b@.len() == i,
            forall|k: int| 0 <= k < i ==> pair_of(#[trigger] all[k]) == Some((a@[k], b@[k])),
        decreases rows@.len() - i,
    {
        assert(all[i as int] == rows@[i as int]@);
        match parse_line(&rows[i]) {
            Some((x, y)) => {
                a.push(x);
                b.push(y);
            },
            None => {
                return None;
            },
        }
        i += 1;
    }
    proof {
        assert(a@ =~= left(input@));
        assert(b@ =~= right(input@));
    }
    Some((a, b))
}

/// The first numbers of the lines and the second ones.
pub fn prepare(input: &str) -> (r: (Vec<u64>, Vec<u64>))
    requires
        well_formed(input@),
    ensures
        r.0@ == left(input@),
        r.1@ == right(input@),
{
    match parse(input) {
        Some(r) => r,
        None => (Vec::new(), Vec::new()),
    }
}

/// How far two numbers are apart.
pub open spec fn apart(a: u64, b: u64) -> int {
    if a >= b {
        a - b
    } else {
        b - a
    }
}

/// The sum of the distances between the numbers of `a` and of `b`, both taken
/// in rising order.
pub open spec fn part1(a: Seq<u64>, b: Seq<u64>) -> int {
    sum(a.len() as int, |i: int| apart(sorted(a)[i], sorted(b)[i]))
}

/// How often `x` stands in `b`.
pub open spec fn times(b: Seq<u64>, x: u64) -> int {
    count(b.len() as int, |j: int| same(b[j], x))
}

/// The sum of the numbers of `a`, each taken as often as it stands in `b`.
pub open spec fn part2(a: Seq<u64>, b: Seq<u64>) -> int {
    sum(a.len() as int, |i: int| a[i] * times(b, a[i]))
}

/// The sum of the distances between the numbers of `a` and of `b`, both taken
/// in rising order.
pub fn total_distance(a: &Vec<u64>, b: &Vec<u64>) -> (r: u64)
    requires
        a@.len() == b@.len(),
        part1(a@, b@) <= u64::MAX,
    ensures
        r == part1(a@, b@),
{
    let x = sort(a);
    let y = sort(b);
    proof {
        a@.lemma_sort_by_ensures(crate::etc::sort::at_most());
        b@.lemma_sort_by_ensures(crate::etc::sort::at_most());
        vstd::seq_lib::to_multiset_len(a@);
        vstd::seq_lib::to_multiset_len(b@);
        vstd::seq_lib::to_multiset_len(x@);
        vstd::seq_lib::to_multiset_len(y@);
    }
    let ghost term = |i: int| apart(sorted(a@)[i], sorted(b@)[i]);
    let mut total: u64 = 0;
    let mut i: usize = 0;
    while i < x.len()
        invariant
            i <= x@.len(),
            x@.len() == y@.len(),
            x@.len() == a@.len(),
            x@ == sorted(a@),
            y@ == sorted(b@),
            term == |i: int| apart(sorted(a@)[i], sorted(b@)[i]),
            total == sum(i as int, term),
            sum(a@.len() as int, term) <= u64::MAX,
        decreases x@.len() - i,
    {
        proof {
            lemma_sum_rises(i + 1, a@.len() as int, term);
        }
        let d = if x[i] >= y[i] {
            x[i] - y[i]
        } else {
            y[i] - x[i]
        };
        total = total + d;
        i += 1;
    }
    total
}

pub fn solve_part1(input: &str) -> (r: u64)
    requires
        well_formed(input@),
        part1(left(input@), right(input@)) <= u64::MAX,
    ensures
        r == part1(left(input@), right(input@)),
{
    let (a, b) = prepare(input);
    total_distance(&a, &b)
}

/// How often `x` stands in `b`.
pub fn occurrences(b: &Vec<u64>, x: u64) -> (r: usize)
    ensures
        r == times(b@, x),
{
    let ghost holds = |j: int| same(b@[j], x);
    let mut found: usize = 0;
    let mut j: usize = 0;
    while j < b.len()
        invariant
            j <= b@.len(),
            holds == |j: int| same(b@[j], x),
            found == count(j as int, holds),
            found <= j,
        decreases b@.len() - j,
    {
        if b[j] == x {
            found += 1;
        }
        j += 1;
    }
    found
}

/// The sum of the numbers of `a`, each taken as often as it stands in `b`.
pub fn similarity(a: &Vec<u64>, b: &Vec<u64>) -> (r: u64)
    requires
        part2(a@, b@) <= u64::MAX,
    ensures
        r == part2(a@, b@),
{
    let ghost term = |i: int| a@[i] * times(b@, a@[i]);
    let mut total: u64 = 0;
    let mut i: usize = 0;
    proof {
        assert forall|k: int| 0 <= k < a@.len() implies #[trigger] term(k) >= 0 by {
            lemma_count_bounds(b@.len() as int, |j: int| same(b@[j], a@[k]));
            assert(a@[k] * times(b@, a@[k]) >= 0) by (nonlinear_arith)
                requires
                    a@[k] >= 0,
                    times(b@, a@[k]) >= 0,
            ;
        }
    }
    while i < a.len()
        invariant
            i <= a@.len(),
            term == |i: int| a@[i] * times(b@, a@[i]),
            forall|k: int| 0 <= k < a@.len() ==> #[trigger] term(k) >= 0,
            total == sum(i as int, term),
            sum(a@.len() as int, term) <= u64::MAX,
        decreases a@.len() - i,
    {
        proof {
            lemma_sum_rises(i + 1, a@.len() as int, term);
            lemma_sum_rises(i as int, a@.len() as int, term);
        }
        let n = occurrences(b, a[i]) as u64;
        assert(a@[i as int] * n == term(i as int));
        total = total + a[i] * n;
        i += 1;
    }
    total
}

pub fn solve_part2(input: &str) -> (r: u64)
    requires
        well_formed(input@),
        part2(left(input@), right(input@)) <= u64::MAX,
    ensures
        r == part2(left(input@), right(input@)),
{
    let (a, b) = prepare(input);
    similarity(&a, &b)
}

pub fn solve(input: String) -> (r: SolutionPair)
    requires
        well_formed(input@),
        part1(left(input@), right(input@)) <= u64::MAX,
        part2(left(input@), right(input@)) <= u64::MAX,
    ensures
        r.0 == Solution::U64(part1(left(input@), right(input@)) as u64),
        r.1 == Solution::U64(part2(left(input@), right(input@)) as u64),
{
    let p1: u64 = solve_part1(input.as_str());
    let p2: u64 = solve_part2(input.as_str());
    (Solution::U64(p1), Solution::U64(p2))
}

} // verus!
