use crate::etc::count::{lemma_sum_rises, sum};
use crate::etc::number::{all_numbers, is_number, naturals, number, numbers_of, parse_all, parse_u64};
use crate::etc::solution::{Solution, SolutionPair};
use crate::etc::text::{chars, lines, rows_view, slice, split_lines, split_words, words};
use vstd::prelude::*;

verus! {

pub struct Equation {
    pub test_value: u64,
    pub operands: Vec<u64>,
}

pub type Equations = Vec<Equation>;

/// An operation between two numbers.
#[derive(Debug, Clone, Copy, PartialEq, Eq, Structural)]
pub enum Op {
    /// The sum.
    Add,
    /// The product.
    Mul,
    /// The number written by the digits of the first followed by those of the
    /// second.
    Con,
}

/// The number of digits of `n` in base ten.
pub open spec fn width(n: nat) -> nat
    decreases n,
{
    if n < 10 {
        1
    } else {
        1 + width(n / 10)
    }
}

/// Ten to the power of `n`.
pub open spec fn pow10(n: nat) -> nat
    decreases n,
{
    if n == 0 {
        1
    } else {
        10 * pow10((n - 1) as nat)
    }
}

/// What the operation makes of `x` and `y`.
pub open spec fn apply(op: Op, x: nat, y: nat) -> nat {
    match op {
        Op::Add => x + y,
        Op::Mul => x * y,
        Op::Con => x * pow10(width(y)) + y,
    }
}

/// With `lhs` for what the operands before `from` made, some choice of
/// operations between the operands from `from` on makes the test value. A value
/// above the test value is given up at once.
pub open spec fn solvable(ops: Seq<Op>, test: nat, lhs: nat, operands: Seq<nat>, from: int) -> bool
    decreases operands.len() - from, ops.len() + 1,
{
    if lhs > test {
        false
    } else if from >= operands.len() || from < 0 {
        lhs == test
    } else {
        any_of(ops, test, lhs, operands, from, ops.len() as int)
    }
}

/// One of the first `k` operations, put between `lhs` and the operand at `from`,
/// leads to the test value.
pub open spec fn any_of(
    ops: Seq<Op>,
    test: nat,
    lhs: nat,
    operands: Seq<nat>,
    from: int,
    k: int,
) -> bool
    decreases operands.len() - from, k,
{
    if k <= 0 || k > ops.len() || from >= operands.len() || from < 0 {
        false
    } else {
        any_of(ops, test, lhs, operands, from, k - 1) || solvable(
            ops,
            test,
            apply(ops[k - 1], lhs, operands[from]),
            operands,
            from + 1,
        )
    }
}

pub fn add(x: u64, y: u64) -> (r: Option<u64>)
    ensures
        match r {
            Some(value) => value == apply(Op::Add, x as nat, y as nat),
            None => apply(Op::Add, x as nat, y as nat) > u64::MAX,
        },
{
    x.checked_add(y)
}

pub fn mul(x: u64, y: u64) -> (r: Option<u64>)
    ensures
        match r {
            Some(value) => value == apply(Op::Mul, x as nat, y as nat),
            None => apply(Op::Mul, x as nat, y as nat) > u64::MAX,
        },
{
    x.checked_mul(y)
}

pub fn con(x: u64, y: u64) -> (r: Option<u64>)
    ensures
        match r {
            Some(value) => value == apply(Op::Con, x as nat, y as nat),
            None => apply(Op::Con, x as nat, y as nat) > u64::MAX,
        },
{
    if x == 0 {
        assert(0 * pow10(width(y as nat)) == 0) by (nonlinear_arith);
        return Some(y);
    }
    let mut shift: u64 = 10;
    let mut rest: u64 = y;
    while rest >= 10
        invariant
            shift * pow10(width(rest as nat)) == 10 * pow10(width(y as nat)),
            shift >= 1,
            x >= 1,
        decreases rest,
    {
        proof {
            let w = width((rest / 10) as nat);
            assert(pow10(width(rest as nat)) == 10 * pow10(w));
            assert(shift * (10 * pow10(w)) == (shift * 10) * pow10(w)) by (nonlinear_arith);
            lemma_pow10_positive(w);
        }
        shift = match shift.checked_mul(10) {
            Some(more) => more,
            None => {
                proof {
                    let w = width((rest / 10) as nat);
                    let p = pow10(width(y as nat));
                    assert(10 * p == (shift * 10) * pow10(w));
                    assert(pow10(w) == 10 * pow10((w - 1) as nat));
                    lemma_pow10_positive((w - 1) as nat);
                    assert(p > u64::MAX) by (nonlinear_arith)
                        requires
                            10 * p == (shift * 10) * pow10(w),
                            shift * 10 > u64::MAX,
                            pow10(w) >= 10,
                    ;
                    assert(x * p + y > u64::MAX) by (nonlinear_arith)
                        requires
                            x >= 1,
                            p > u64::MAX,
                            y >= 0,
                    ;
                }
                return None;
            },
        };
        rest = rest / 10;
    }
    assert(pow10(width(rest as nat)) == 10) by {
        assert(pow10(1) == 10 * pow10(0));
    }
    assert(shift == pow10(width(y as nat))) by (nonlinear_arith)
        requires
            shift * 10 == 10 * pow10(width(y as nat)),
    ;
    match x.checked_mul(shift) {
        Some(high) => high.checked_add(y),
        None => None,
    }
}

/// A power of ten is at least one.
pub proof fn lemma_pow10_positive(n: nat)
    ensures
        pow10(n) >= 1,
    decreases n,
{
    if n > 0 {
        lemma_pow10_positive((n - 1) as nat);
    }
}

/// What the operation makes of `x` and `y`, or `None` where it does not fit 64
/// bits.
pub fn perform(op: Op, x: u64, y: u64) -> (r: Option<u64>)
    ensures
        match r {
            Some(value) => value == apply(op, x as nat, y as nat),
            None => apply(op, x as nat, y as nat) > u64::MAX,
        },
{
    match op {
        Op::Add => self::add(x, y),
        Op::Mul => self::mul(x, y),
        Op::Con => con(x, y),
    }
}

pub fn solve_equation_rec(
    operations: &Vec<Op>,
    test_value: u64,
    lhs: u64,
    operands: &Vec<u64>,
    from: usize,
) -> (r: bool)
    ensures
        r == solvable(operations@, test_value as nat, lhs as nat, naturals(operands@), from as int),
    decreases operands@.len() - from,
{
    if lhs > test_value {
        return false;
    }
    if from >= operands.len() {
        return lhs == test_value;
    }
    let first = operands[from];
    let ghost all = naturals(operands@);
    assert(all[from as int] == first);
    let n: usize = operands.len();
    let mut k: usize = 0;
    while k < operations.len()
        invariant
            k <= operations@.len(),
            from < operands@.len(),
            from < n,
            lhs <= test_value,
            all == naturals(operands@),
            all[from as int] == first,
            !any_of(operations@, test_value as nat, lhs as nat, all, from as int, k as int),
        decreases operations@.len() - k,
    {
        match perform(operations[k], lhs, first) {
            Some(next) => {
                if solve_equation_rec(operations, test_value, next, operands, from + 1) {
                    proof {
                        lemma_any_of_more(
                            operations@,
                            test_value as nat,
                            lhs as nat,
                            all,
                            from as int,
                            k + 1,
                            operations@.len() as int,
                        );
                    }
                    return true;
                }
            },
            None => {},
        }
        proof {
            let made = apply(operations@[k as int], lhs as nat, first as nat);
            assert(!solvable(operations@, test_value as nat, made, all, from + 1));
        }
        k += 1;
    }
    false
}

/// What one of the first `k` operations leads to, one of more leads to.
pub proof fn lemma_any_of_more(
    ops: Seq<Op>,
    test: nat,
    lhs: nat,
    operands: Seq<nat>,
    from: int,
    k: int,
    m: int,
)
    requires
        any_of(ops, test, lhs, operands, from, k),
        k <= m <= ops.len(),
    ensures
        any_of(ops, test, lhs, operands, from, m),
    decreases m - k,
{
    if k < m {
        lemma_any_of_more(ops, test, lhs, operands, from, k, m - 1);
    }
}

pub fn solve_equation(operations: &Vec<Op>, eq: &Equation) -> (r: bool)
    ensures
        r == solvable(operations@, eq.test_value as nat, 0, naturals(eq.operands@), 0),
{
    solve_equation_rec(operations, eq.test_value, 0, &eq.operands, 0)
}

/// The equation that a line writes: a number followed by a colon, then numbers.
pub open spec fn equation_of(line: Seq<char>) -> Option<(nat, Seq<nat>)> {
    let w = words(line);
    if w.len() >= 1 && w[0].len() >= 1 && w[0].last() == ':' && is_number(w[0].drop_last()) && number(
        w[0].drop_last(),
    ) <= u64::MAX && all_numbers(w.skip(1), u64::MAX as nat) {
        Some((number(w[0].drop_last()), numbers_of(w.skip(1))))
    } else {
        None
    }
}

/// Every line writes an equation.
pub open spec fn well_formed(input: Seq<char>) -> bool {
    forall|i: int| 0 <= i < lines(input).len() ==> equation_of(#[trigger] lines(input)[i]) is Some
}

/// The equations that the lines write.
pub open spec fn equations_of(input: Seq<char>) -> Seq<(nat, Seq<nat>)> {
    Seq::new(lines(input).len(), |i: int| equation_of(lines(input)[i])->0)
}

/// What an equation holds.
pub open spec fn equation_view(eq: Equation) -> (nat, Seq<nat>) {
    (eq.test_value as nat, naturals(eq.operands@))
}

/// What some equations hold.
pub open spec fn equations_view(eqs: Seq<Equation>) -> Seq<(nat, Seq<nat>)> {
    Seq::new(eqs.len(), |i: int| equation_view(eqs[i]))
}

/// The equation that a line writes, or `None` where it writes none.
pub fn parse_line(line: &Vec<char>) -> (r: Option<Equation>)
    ensures
        match r {
            Some(eq) => equation_of(line@) == Some(equation_view(eq)),
            None => equation_of(line@) is None,
        },
{
    let mut w = split_words(line);
    let ghost all = words(line@);
    if w.len() < 1 {
        return None;
    }
    let head = w.remove(0);
    assert(head@ == all[0]);
    assert(rows_view(w@) =~= all.skip(1));
    let n = head.len();
    if n < 1 || head[n - 1] != ':' {
        return None;
    }
    let digits = slice(&head, 0, n - 1);
    assert(digits@ =~= all[0].drop_last());
    let test_value = match parse_u64(&digits) {
        Some(value) => value,
        None => {
            return None;
        },
    };
    match parse_all(&w, u64::MAX) {
        Some(operands) => Some(Equation { test_value, operands }),
        None => None,
    }
}

/// The equations that the lines write, or `None` where a line writes none.
pub fn parse(input: &str) -> (r: Option<Equations>)
    ensures
        match r {
            Some(eqs) => well_formed(input@) && equations_view(eqs@) == equations_of(input@),
            None => !well_formed(input@),
        },
{
    let text = chars(input);
    let rows = split_lines(&text);
    let ghost texts = lines(input@);
    let mut eqs: Vec<Equation> = Vec::new();
    let mut i: usize = 0;
    while i < rows.len()
        invariant
            i <= rows@.len(),
            texts == lines(input@),
            texts == rows_view(rows@),
            eqs@.len() == i,
            forall|k: int|
                0 <= k < i ==> equation_of(#[trigger] texts[k]) == Some(equation_view(eqs@[k])),
        decreases rows@.len() - i,
    {
        assert(texts[i as int] == rows@[i as int]@);
        match parse_line(&rows[i]) {
            Some(eq) => {
                eqs.push(eq);
            },
            None => {
                return None;
            },
        }
        i += 1;
    }
    assert(equations_view(eqs@) =~= equations_of(input@));
    Some(eqs)
}

/// The equations that the lines write.
pub fn prepare(input: &str) -> (r: Equations)
    requires
        well_formed(input@),
    ensures
        equations_view(r@) == equations_of(input@),
{
    match parse(input) {
        Some(eqs) => eqs,
        None => Vec::new(),
    }
}

/// The sum of the test values of the equations that the operations solve.
pub open spec fn calibration(ops: Seq<Op>, eqs: Seq<(nat, Seq<nat>)>) -> int {
    sum(
        eqs.len() as int,
        |i: int|
            if solvable(ops, eqs[i].0, 0, eqs[i].1, 0) {
                eqs[i].0 as int
            } else {
                0
            },
    )
}

/// The sum of the test values of the equations that the operations solve.
pub fn calibrate(operations: &Vec<Op>, eqs: &Equations) -> (r: u64)
    requires
        calibration(operations@, equations_view(eqs@)) <= u64::MAX,
    ensures
        r == calibration(operations@, equations_view(eqs@)),
{
    let ghost all = equations_view(eqs@);
    let ghost term = |i: int|
        if solvable(operations@, all[i].0, 0, all[i].1, 0) {
            all[i].0 as int
        } else {
            0
        };
    let mut total: u64 = 0;
    let mut i: usize = 0;
    while i < eqs.len()
        invariant
            i <= eqs@.len(),
            all == equations_view(eqs@),
            term == |i: int|
                if solvable(operations@, all[i].0, 0, all[i].1, 0) {
                    all[i].0 as int
                } else {
                    0
                },
            total == sum(i as int, term),
            sum(eqs@.len() as int, term) <= u64::MAX,
        decreases eqs@.len() - i,
    {
        proof {
            lemma_sum_rises(i + 1, eqs@.len() as int, term);
            assert(all[i as int] == equation_view(eqs@[i as int]));
        }
        if solve_equation(operations, &eqs[i]) {
            total = total + eqs[i].test_value;
        }
        i += 1;
    }
    total
}

/// The two operations of the first part.
pub open spec fn two_ops() -> Seq<Op> {
    seq![Op::Add, Op::Mul]
}

/// The three operations of the second part.
pub open spec fn three_ops() -> Seq<Op> {
    seq![Op::Add, Op::Mul, Op::Con]
}

pub fn solve_part1(input: &str) -> (r: u64)
    requires
        well_formed(input@),
        calibration(two_ops(), equations_of(input@)) <= u64::MAX,
    ensures
        r == calibration(two_ops(), equations_of(input@)),
{
    let eqs = prepare(input);
    let operations = vec![Op::Add, Op::Mul];
    assert(operations@ =~= two_ops());
    calibrate(&operations, &eqs)
}

pub fn solve_part2(input: &str) -> (r: u64)
    requires
        well_formed(input@),
        calibration(three_ops(), equations_of(input@)) <= u64::MAX,
    ensures
        r == calibration(three_ops(), equations_of(input@)),
{
    let eqs = prepare(input);
    let operations = vec![Op::Add, Op::Mul, Op::Con];
    assert(operations@ =~= three_ops());
    calibrate(&operations, &eqs)
}

pub fn solve(input: String) -> (r: SolutionPair)
    requires
        well_formed(input@),
        calibration(two_ops(), equations_of(input@)) <= u64::MAX,
        calibration(three_ops(), equations_of(input@)) <= u64::MAX,
    ensures
        r.0 == Solution::U64(calibration(two_ops(), equations_of(input@)) as u64),
        r.1 == Solution::U64(calibration(three_ops(), equations_of(input@)) as u64),
{
    let sol1 = solve_part1(input.as_str());
    let sol2 = solve_part2(input.as_str());
    (Solution::U64(sol1), Solution::U64(sol2))
}

} // verus!
