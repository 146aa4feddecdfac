use crate::etc::number::{is_number, number, parse_u64};
use crate::etc::pattern::{captures, captures_of, groups_view, matches_view};
use crate::etc::solution::{Solution, SolutionPair};
use vstd::prelude::*;

verus! {

/// What one instruction of the memory is.
#[derive(Debug, Clone, Copy, PartialEq, Eq, Structural)]
pub enum Instruction {
    /// Multiply two numbers.
    Mul(u64, u64),
    /// Enable the multiplications that follow.
    Do,
    /// Disable the multiplications that follow.
    Dont,
}

/// The group of a match took part in it and is a number that fits 64 bits.
pub open spec fn factor_of(group: Option<Seq<char>>) -> Option<u64> {
    match group {
        Some(digits) => if is_number(digits) && number(digits) <= u64::MAX {
            Some(number(digits) as u64)
        } else {
            None
        },
        None => None,
    }
}

/// The text starts with `start`.
pub open spec fn starts_with(text: Seq<char>, start: Seq<char>) -> bool {
    text.len() >= start.len() && text.take(start.len() as int) == start
}

/// The instruction that one match is: by the start of its text a
/// multiplication of its two groups, a `don't()` or a `do()`; `None` where it is
/// none of them.
pub open spec fn instruction_of(groups: Seq<Option<Seq<char>>>) -> Option<Instruction> {
    if groups.len() == 3 && groups[0] is Some {
        if starts_with(groups[0]->0, seq!['m', 'u', 'l']) {
            if factor_of(groups[1]) is Some && factor_of(groups[2]) is Some {
                Some(Instruction::Mul(factor_of(groups[1])->0, factor_of(groups[2])->0))
            } else {
                None
            }
        } else if starts_with(groups[0]->0, seq!['d', 'o', 'n']) {
            Some(Instruction::Dont)
        } else if starts_with(groups[0]->0, seq!['d', 'o']) {
            Some(Instruction::Do)
        } else {
            None
        }
    } else {
        None
    }
}

/// The instructions that the matches are, where each of them is one.
pub open spec fn program_of(found: Seq<Seq<Option<Seq<char>>>>) -> Option<Seq<Instruction>> {
    if forall|i: int| 0 <= i < found.len() ==> instruction_of(#[trigger] found[i]) is Some {
        Some(Seq::new(found.len(), |i: int| instruction_of(found[i])->0))
    } else {
        None
    }
}

/// Whether the multiplications are enabled after the first `n` instructions:
/// they are at first, and after a `do()`; they are not after a `don't()`.
pub open spec fn enabled(program: Seq<Instruction>, n: int) -> bool
    decreases n,
{
    if n <= 0 {
        true
    } else {
        match program[n - 1] {
            Instruction::Do => true,
            Instruction::Dont => false,
            Instruction::Mul(_, _) => enabled(program, n - 1),
        }
    }
}

/// The sum of the products of the first `n` instructions, those that are
/// disabled left out where `switched` is true; `None` where a product or a sum
/// does not fit 64 bits.
pub open spec fn total(program: Seq<Instruction>, switched: bool, n: int) -> Option<u64>
    decreases n,
{
    if n <= 0 {
        Some(0)
    } else {
        match total(program, switched, n - 1) {
            Some(sum) => match program[n - 1] {
                Instruction::Mul(a, b) => if switched && !enabled(program, n - 1) {
                    Some(sum)
                } else if sum + a * b <= u64::MAX {
                    Some((sum + a * b) as u64)
                } else {
                    None
                },
                _ => Some(sum),
            },
            None => None,
        }
    }
}

/// Whether the text starts with the given characters.
fn begins(text: &Vec<char>, start: &Vec<char>) -> (r: bool)
    ensures
        r == starts_with(text@, start@),
{
    if text.len() < start.len() {
        return false;
    }
    let mut i: usize = 0;
    while i < start.len()
        invariant
            i <= start@.len() <= text@.len(),
            forall|k: int| 0 <= k < i ==> text@[k] == start@[k],
        decreases start@.len() - i,
    {
        if text[i] != start[i] {
            assert(text@.take(start@.len() as int)[i as int] != start@[i as int]);
            return false;
        }
        i += 1;
    }
    assert(text@.take(start@.len() as int) =~= start@);
    true
}

fn factor(group: &Option<Vec<char>>) -> (r: Option<u64>)
    ensures
        r == factor_of(
            match group {
                Some(digits) => Some(digits@),
                None => None,
            },
        ),
{
    match group {
        Some(digits) => parse_u64(digits),
        None => None,
    }
}

/// The instruction that one match is.
pub fn instruction(groups: &Vec<Option<Vec<char>>>) -> (r: Option<Instruction>)
    ensures
        r == instruction_of(groups_view(*groups)),
{
    let ghost view = groups_view(*groups);
    if groups.len() != 3 {
        return None;
    }
    assert(view[0] == match groups@[0] {
        Some(group) => Some(group@),
        None => None,
    });
    assert(view[1] == match groups@[1] {
        Some(group) => Some(group@),
        None => None,
    });
    assert(view[2] == match groups@[2] {
        Some(group) => Some(group@),
        None => None,
    });
    let all = match &groups[0] {
        Some(all) => all,
        None => {
            return None;
        },
    };
    let mul = vec!['m', 'u', 'l'];
    let don = vec!['d', 'o', 'n'];
    let yes = vec!['d', 'o'];
    assert(mul@ =~= seq!['m', 'u', 'l']);
    assert(don@ =~= seq!['d', 'o', 'n']);
    assert(yes@ =~= seq!['d', 'o']);
    if begins(all, &mul) {
        match (factor(&groups[1]), factor(&groups[2])) {
            (Some(a), Some(b)) => Some(Instruction::Mul(a, b)),
            _ => None,
        }
    } else if begins(all, &don) {
        Some(Instruction::Dont)
    } else if begins(all, &yes) {
        Some(Instruction::Do)
    } else {
        None
    }
}

/// The instructions that the matches are, or `None` where one of them is none.
pub fn program(found: &Vec<Vec<Option<Vec<char>>>>) -> (r: Option<Vec<Instruction>>)
    ensures
        match r {
            Some(code) => program_of(matches_view(found@)) == Some(code@),
            None => program_of(matches_view(found@)) is None,
        },
{
    let ghost all = matches_view(found@);
    let mut code: Vec<Instruction> = Vec::new();
    let mut i: usize = 0;
    while i < found.len()
        invariant
            i <= found@.len(),
            all == matches_view(found@),
            code@.len() == i,
            forall|k: int| 0 <= k < i ==> instruction_of(#[trigger] all[k]) == Some(code@[k]),
        decreases found@.len() - i,
    {
        assert(all[i as int] == groups_view(found@[i as int]));
        match instruction(&found[i]) {
            Some(one) => {
                code.push(one);
            },
            None => {
                return None;
            },
        }
        i += 1;
    }
    assert(code@ =~= Seq::new(all.len(), |i: int| instruction_of(all[i])->0));
    Some(code)
}

/// The sum of the products of the instructions, those that are disabled left out
/// where `switched` is true; `None` where a product or a sum does not fit 64
/// bits.
pub fn run(code: &Vec<Instruction>, switched: bool) -> (r: Option<u64>)
    ensures
        r == total(code@, switched, code@.len() as int),
{
    let mut sum: u64 = 0;
    let mut on: bool = true;
    let mut i: usize = 0;
    while i < code.len()
        invariant
            i <= code@.len(),
            total(code@, switched, i as int) == Some(sum),
            on == enabled(code@, i as int),
        decreases code@.len() - i,
    {
        match code[i] {
            Instruction::Mul(a, b) => {
                if !switched || on {
                    let more = match a.checked_mul(b) {
                        Some(product) => sum.checked_add(product),
                        None => None,
                    };
                    match more {
                        Some(more) => {
                            sum = more;
                        },
                        None => {
                            proof {
                                assert(sum + a * b > u64::MAX) by (nonlinear_arith)
                                    requires
                                        a * b > u64::MAX || sum + a * b > u64::MAX,
                                        sum >= 0,
                                ;
                                assert(total(code@, switched, i + 1) is None);
                                lemma_total_stays_none(code@, switched, i + 1, code@.len() as int);
                            }
                            return None;
                        },
                    }
                }
            },
            Instruction::Do => {
                on = true;
            },
            Instruction::Dont => {
                on = false;
            },
        }
        i += 1;
    }
    Some(sum)
}

/// A sum that does not fit stays so.
pub proof fn lemma_total_stays_none(program: Seq<Instruction>, switched: bool, n: int, m: int)
    requires
        total(program, switched, n) is None,
        n <= m,
    ensures
        total(program, switched, m) is None,
    decreases m - n,
{
    if n < m {
        lemma_total_stays_none(program, switched, n, m - 1);
    }
}

/// What the instructions add up to: `None` where the pattern is no regular
/// expression, a match is no instruction, or a number does not fit.
pub open spec fn answer(pattern: Seq<char>, input: Seq<char>, switched: bool) -> Option<u64> {
    match captures_of(pattern, input) {
        Some(found) => match program_of(found) {
            Some(code) => total(code, switched, code.len() as int),
            None => None,
        },
        None => None,
    }
}

pub fn solve_part1(input: &str) -> (r: Option<u64>)
    ensures
        r == answer("mul\\(([0-9]+),([0-9]+)\\)"@, input@, false),
{
    match captures("mul\\(([0-9]+),([0-9]+)\\)", input) {
        Some(found) => match program(&found) {
            Some(code) => run(&code, false),
            None => None,
        },
        None => None,
    }
}

pub fn solve_part2(input: &str) -> (r: Option<u64>)
    ensures
        r == answer("mul\\(([0-9]+),([0-9]+)\\)|do\\(\\)|don't\\(\\)"@, input@, true),
{
    match captures("mul\\(([0-9]+),([0-9]+)\\)|do\\(\\)|don't\\(\\)", input) {
        Some(found) => match program(&found) {
            Some(code) => run(&code, true),
            None => None,
        },
        None => None,
    }
}

/// Both answers, or `None` where one of them is missing.
pub fn solve(input: String) -> (r: Option<SolutionPair>)
    ensures
        match r {
            Some((Solution::U64(a), Solution::U64(b))) => {
                &&& answer("mul\\(([0-9]+),([0-9]+)\\)"@, input@, false) == Some(a)
                &&& answer("mul\\(([0-9]+),([0-9]+)\\)|do\\(\\)|don't\\(\\)"@, input@, true) == Some(b)
            },
            Some(_) => false,
            None => answer("mul\\(([0-9]+),([0-9]+)\\)"@, input@, false) is None || answer(
                "mul\\(([0-9]+),([0-9]+)\\)|do\\(\\)|don't\\(\\)"@,
                input@,
                true,
            ) is None,
        },
{
    let sol1 = match solve_part1(input.as_str()) {
        Some(sum) => sum,
        None => {
            return None;
        },
    };
    let sol2 = match solve_part2(input.as_str()) {
        Some(sum) => sum,
        None => {
            return None;
        },
    };
    Some((Solution::U64(sol1), Solution::U64(sol2)))
}

} // verus!
