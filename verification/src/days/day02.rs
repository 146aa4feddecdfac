use crate::etc::count::count;
use crate::etc::number::{all_numbers, naturals, numbers_of, parse_all};
use crate::etc::solution::{Solution, SolutionPair};
use crate::etc::text::{chars, lines, rows_view, split_lines, split_words, words};
use vstd::prelude::*;

verus! {

/// The levels that a line writes, where it writes numbers below 256.
pub open spec fn levels_of(line: Seq<char>) -> Option<Seq<nat>> {
    if all_numbers(words(line), 255) {
        Some(numbers_of(words(line)))
    } else {
        None
    }
}

/// Every line writes levels.
pub open spec fn well_formed(input: Seq<char>) -> bool {
    forall|i: int| 0 <= i < lines(input).len() ==> levels_of(#[trigger] lines(input)[i]) is Some
}

/// The levels of a vector, as natural numbers.
pub open spec fn levels(report: Seq<u8>) -> Seq<nat> {
    Seq::new(report.len(), |i: int| report[i] as nat)
}

/// The reports that the lines write.
pub open spec fn reports_of(input: Seq<char>) -> Seq<Seq<nat>> {
    Seq::new(lines(input).len(), |i: int| levels_of(lines(input)[i])->0)
}

/// The reports of some vectors.
pub open spec fn reports(all: Seq<Vec<u8>>) -> Seq<Seq<nat>> {
    Seq::new(all.len(), |i: int| levels(all[i]@))
}

/// The levels that a line writes, or `None` where it does not write numbers
/// below 256.
pub fn parse_line(line: &Vec<char>) -> (r: Option<Vec<u8>>)
    ensures
        match r {
            Some(report) => levels_of(line@) == Some(levels(report@)),
            None => levels_of(line@) is None,
        },
{
    let w = split_words(line);
    match parse_all(&w, 255) {
        Some(values) => {
            let mut report: Vec<u8> = Vec::new();
            let mut i: usize = 0;
            while i < values.len()
                invariant
                    i <= values@.len(),
                    report@.len() == i,
                    forall|k: int| 0 <= k < values@.len() ==> #[trigger] values@[k] <= 255,
                    forall|k: int| 0 <= k < i ==> #[trigger] report@[k] == values@[k],
                decreases values@.len() - i,
            {
                report.push(values[i] as u8);
                i += 1;
            }
            assert(levels(report@) =~= naturals(values@));
            Some(report)
        },
        None => None,
    }
}

/// The levels that a line writes.
pub fn line(input: &str) -> (r: Vec<u8>)
    requires
        levels_of(input@) is Some,
    ensures
        levels_of(input@) == Some(levels(r@)),
{
    let text = chars(input);
    match parse_line(&text) {
        Some(report) => report,
        None => Vec::new(),
    }
}

/// The reports that the lines write, or `None` where a line does not write
/// levels.
pub fn parse(input: &str) -> (r: Option<Vec<Vec<u8>>>)
    ensures
        match r {
            Some(all) => well_formed(input@) && reports(all@) == reports_of(input@),
            None => !well_formed(input@),
        },
{
    let text = chars(input);
    let rows = split_lines(&text);
    let ghost texts = lines(input@);
    let mut all: Vec<Vec<u8>> = Vec::new();
    let mut i: usize = 0;
    while i < rows.len()
        invariant
            i <= rows@.len(),
            texts == lines(input@),
            texts == rows_view(rows@),
            all@.len() == i,
            forall|k: int| 0 <= k < i ==> levels_of(#[trigger] texts[k]) == Some(levels(all@[k]@)),
        decreases rows@.len() - i,
    {
        assert(texts[i as int] == rows@[i as int]@);
        match parse_line(&rows[i]) {
            Some(report) => {
                all.push(report);
            },
            None => {
                return None;
            },
        }
        i += 1;
    }
    assert(reports(all@) =~= reports_of(input@));
    Some(all)
}

/// The reports that the lines write.
pub fn prepare(input: &str) -> (r: Vec<Vec<u8>>)
    requires
        well_formed(input@),
    ensures
        reports(r@) == reports_of(input@),
{
    match parse(input) {
        Some(all) => all,
        None => Vec::new(),
    }
}

/// From `a` to `b` the level rises (or falls, where `increasing` is false) by
/// one, two or three.
pub open spec fn gentle(increasing: bool, a: nat, b: nat) -> bool {
    if increasing {
        a < b <= a + 3
    } else {
        b < a <= b + 3
    }
}

/// From the level before `pos` on, each level is gentle after the one before.
pub open spec fn steady_from(increasing: bool, pos: int, report: Seq<nat>) -> bool {
    forall|i: int| pos <= i < report.len() ==> gentle(increasing, report[i - 1], #[trigger] report[i])
}

/// The whole report is steady.
pub open spec fn steady(increasing: bool, report: Seq<nat>) -> bool {
    steady_from(increasing, 1, report)
}

/// The report is steady from `pos` on when at most one level is taken out: the
/// one at `pos`, a later one, or, for `pos` 1, the first.
pub open spec fn damped_from(increasing: bool, pos: int, report: Seq<nat>) -> bool
    decreases report.len() - pos,
{
    if pos >= report.len() || pos < 1 {
        true
    } else {
        (gentle(increasing, report[pos - 1], report[pos]) && damped_from(increasing, pos + 1, report))
            || (pos == 1 && steady_from(increasing, 2, report)) || steady_from(
            increasing,
            pos,
            report.remove(pos),
        )
    }
}

// check increasing or decreasing property between two successive values.
pub fn check_xcreasing(increasing: bool, a: u8, b: u8) -> (r: bool)
    ensures
        r == gentle(increasing, a as nat, b as nat),
{
    ((increasing && a < b) || (!increasing && a > b)) && (if a > b {
        a - b <= 3
    } else {
        b - a <= 3
    })
}

pub fn check_xcreasing_from(increasing: bool, pos: usize, report: &Vec<u8>) -> (r: bool)
    requires
        pos > 0,
    ensures
        r == steady_from(increasing, pos as int, levels(report@)),
    decreases report@.len() - pos,
{
    if pos >= report.len() {
        return true;
    }
    let ghost all = levels(report@);
    let here = check_xcreasing(increasing, report[pos - 1], report[pos]);
    assert(here == gentle(increasing, all[pos - 1], all[pos as int]));
    if !here {
        return false;
    }
    let rest = check_xcreasing_from(increasing, pos + 1, report);
    proof {
        if rest {
            assert forall|i: int| pos <= i < all.len() implies gentle(
                increasing,
                all[i - 1],
                #[trigger] all[i],
            ) by {
                if i > pos {
                }
            }
        }
    }
    rest
}

pub fn check_xcreasing_with_dampener(increasing: bool, pos: usize, report: &Vec<u8>) -> (r: bool)
    requires
        pos > 0,
    ensures
        r == damped_from(increasing, pos as int, levels(report@)),
    decreases report@.len() - pos,
{
    if pos >= report.len() {
        return true;
    }
    let ghost all = levels(report@);
    let here = check_xcreasing(increasing, report[pos - 1], report[pos]);
    assert(here == gentle(increasing, all[pos - 1], all[pos as int]));
    if here && check_xcreasing_with_dampener(increasing, pos + 1, report) {
        return true;
    } else {
        if pos == 1 {
            // try skip first element of the report
            if check_xcreasing_from(increasing, 2, report) {
                return true;
            }
        }
        // drop current element from the report
        let mut report = report.clone();
        report.remove(pos);
        assert(levels(report@) =~= all.remove(pos as int));
        check_xcreasing_from(increasing, pos, &report)
    }
}

/// The number of reports that are steady, rising or falling.
pub open spec fn part1(all: Seq<Seq<nat>>) -> int {
    count(all.len() as int, |i: int| steady(true, all[i]) || steady(false, all[i]))
}

/// The number of reports that are steady, rising or falling, when at most one
/// level is taken out.
pub open spec fn part2(all: Seq<Seq<nat>>) -> int {
    count(all.len() as int, |i: int| damped_from(true, 1, all[i]) || damped_from(false, 1, all[i]))
}

/// The number of reports that are steady.
pub fn count_safe(all: &Vec<Vec<u8>>) -> (r: usize)
    ensures
        r == part1(reports(all@)),
{
    let ghost safe = |i: int| steady(true, reports(all@)[i]) || steady(false, reports(all@)[i]);
    let mut total: usize = 0;
    let mut i: usize = 0;
    while i < all.len()
        invariant
            i <= all@.len(),
            safe == |i: int| steady(true, reports(all@)[i]) || steady(false, reports(all@)[i]),
            total == count(i as int, safe),
            total <= i,
        decreases all@.len() - i,
    {
        let report = &all[i];
        assert(reports(all@)[i as int] == levels(report@));
        if check_xcreasing_from(true, 1, report) || check_xcreasing_from(false, 1, report) {
            total += 1;
        }
        i += 1;
    }
    total
}

pub fn solve_part1(input: &str) -> (r: usize)
    requires
        well_formed(input@),
    ensures
        r == part1(reports_of(input@)),
{
    let all = prepare(input);
    count_safe(&all)
}

/// The number of reports that are steady when at most one level is taken out.
pub fn count_damped(all: &Vec<Vec<u8>>) -> (r: usize)
    ensures
        r == part2(reports(all@)),
{
    let ghost safe = |i: int|
        damped_from(true, 1, reports(all@)[i]) || damped_from(false, 1, reports(all@)[i]);
    let mut total: usize = 0;
    let mut i: usize = 0;
    while i < all.len()
        invariant
            i <= all@.len(),
            safe == |i: int|
                damped_from(true, 1, reports(all@)[i]) || damped_from(false, 1, reports(all@)[i]),
            total == count(i as int, safe),
            total <= i,
        decreases all@.len() - i,
    {
        let report = &all[i];
        assert(reports(all@)[i as int] == levels(report@));
        if check_xcreasing_with_dampener(true, 1, report) || check_xcreasing_with_dampener(
            false,
            1,
            report,
        ) {
            total += 1;
        }
        i += 1;
    }
    total
}

pub fn solve_part2(input: &str) -> (r: usize)
    requires
        well_formed(input@),
    ensures
        r == part2(reports_of(input@)),
{
    let all = prepare(input);
    count_damped(&all)
}

pub fn solve(input: String) -> (r: SolutionPair)
    requires
        well_formed(input@),
    ensures
        r.0 == Solution::Usize(part1(reports_of(input@)) as usize),
        r.1 == Solution::Usize(part2(reports_of(input@)) as usize),
{
    let sol1: usize = solve_part1(input.as_str());
    let sol2: usize = solve_part2(input.as_str());
    (Solution::Usize(sol1), Solution::Usize(sol2))
}

} // verus!
