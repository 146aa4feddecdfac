use crate::etc::number::{is_number, number, parse_u64};
use crate::etc::pattern::{captures, captures_of, groups_view, matches_view};
use crate::etc::solution::{Solution, SolutionPair};
use vstd::prelude::*;

verus! {

#[derive(Copy, Clone, Debug, PartialEq, Eq, Structural)]
pub struct Machine {
    pub a_x: i64,
    pub a_y: i64,
    pub b_x: i64,
    pub b_y: i64,
    pub prize_x: i64,
    pub prize_y: i64,
}

/// The number that a group of a match writes, where it is at most `most`.
pub open spec fn value_of(group: Option<Seq<char>>, most: int) -> Option<i64> {
    match group {
        Some(digits) => if is_number(digits) && number(digits) <= most && number(digits)
            <= i64::MAX {
            Some(number(digits) as i64)
        } else {
            None
        },
        None => None,
    }
}

/// The most that a number of a machine can be.
pub open spec fn most_value() -> int {
    0x3FFF_FFFF_FFFF_FFFF
}

/// The machine that one match writes: its six groups are numbers.
pub open spec fn machine_of(groups: Seq<Option<Seq<char>>>) -> Option<Machine> {
    if groups.len() == 7 && forall|k: int| 1 <= k < 7 ==> (#[trigger] value_of(groups[k], most_value())) is Some {
        Some(
            Machine {
                a_x: value_of(groups[1], most_value())->0,
                a_y: value_of(groups[2], most_value())->0,
                b_x: value_of(groups[3], most_value())->0,
                b_y: value_of(groups[4], most_value())->0,
                prize_x: value_of(groups[5], most_value())->0,
                prize_y: value_of(groups[6], most_value())->0,
            },
        )
    } else {
        None
    }
}

/// The machines that the matches write, where each of them writes one.
pub open spec fn machines_of(found: Seq<Seq<Option<Seq<char>>>>) -> Option<Seq<Machine>> {
    if forall|i: int| 0 <= i < found.len() ==> machine_of(#[trigger] found[i]) is Some {
        Some(Seq::new(found.len(), |i: int| machine_of(found[i])->0))
    } else {
        None
    }
}

/// The machines that a text writes.
pub open spec fn parsed(input: Seq<char>) -> Option<Seq<Machine>> {
    match captures_of(
        "Button A: X\\+([0-9]+), Y\\+([0-9]+)\\nButton B: X\\+([0-9]+), Y\\+([0-9]+)\\nPrize: X=([0-9]+), Y=([0-9]+)"@,
        input,
    ) {
        Some(found) => machines_of(found),
        None => None,
    }
}

fn value(group: &Option<Vec<char>>) -> (r: Option<i64>)
    ensures
        r == value_of(
            match group {
                Some(text) => Some(text@),
                None => None,
            },
            most_value(),
        ),
{
    match group {
        Some(text) => match parse_u64(text) {
            Some(value) => if value <= 0x3FFF_FFFF_FFFF_FFFF {
                Some(value as i64)
            } else {
                None
            },
            None => None,
        },
        None => None,
    }
}

/// The machines that the matches write, or `None` where one of them writes
/// none.
pub fn machines(found: &Vec<Vec<Option<Vec<char>>>>) -> (r: Option<Vec<Machine>>)
    ensures
        match r {
            Some(all) => machines_of(matches_view(found@)) == Some(all@),
            None => machines_of(matches_view(found@)) is None,
        },
{
    let ghost views = matches_view(found@);
    let mut all: Vec<Machine> = Vec::new();
    let mut i: usize = 0;
    while i < found.len()
        invariant
            i <= found@.len(),
            views == matches_view(found@),
            all@.len() == i,
            forall|k: int| 0 <= k < i ==> machine_of(#[trigger] views[k]) == Some(all@[k]),
        decreases found@.len() - i,
    {
        let groups = &found[i];
        let ghost view = groups_view(*groups);
        assert(views[i as int] == view);
        if groups.len() != 7 {
            return None;
        }
        assert forall|k: int| 1 <= k < 7 implies #[trigger] view[k] == match groups@[k] {
            Some(group) => Some(group@),
            None => None,
        } by {}
        match (
            value(&groups[1]),
            value(&groups[2]),
            value(&groups[3]),
            value(&groups[4]),
            value(&groups[5]),
            value(&groups[6]),
        ) {
            (Some(a_x), Some(a_y), Some(b_x), Some(b_y), Some(prize_x), Some(prize_y)) => {
                all.push(Machine { a_x, a_y, b_x, b_y, prize_x, prize_y });
            },
            _ => {
                assert(exists|k: int| 1 <= k < 7 && (#[trigger] value_of(view[k], most_value())) is None);
                return None;
            },
        }
        i += 1;
    }
    assert(all@ =~= Seq::new(views.len(), |i: int| machine_of(views[i])->0));
    Some(all)
}

/// The machines that a text writes, or `None` where a number is too great.
pub fn prepare(input: &str) -> (r: Option<Vec<Machine>>)
    ensures
        match r {
            Some(all) => parsed(input@) == Some(all@),
            None => parsed(input@) is None,
        },
{
    match captures(
        "Button A: X\\+([0-9]+), Y\\+([0-9]+)\\nButton B: X\\+([0-9]+), Y\\+([0-9]+)\\nPrize: X=([0-9]+), Y=([0-9]+)",
        input,
    ) {
        Some(found) => machines(&found),
        None => None,
    }
}

/// The machine is well posed: no number is negative or too great.
pub open spec fn sound(m: Machine) -> bool {
    &&& 0 <= m.a_x <= most_value()
    &&& 0 <= m.a_y <= most_value()
    &&& 0 <= m.b_x <= most_value()
    &&& 0 <= m.b_y <= most_value()
    &&& 0 <= m.prize_x <= most_value()
    &&& 0 <= m.prize_y <= most_value()
}

/// Pressing the first button `a` times and the second `b` times wins the prize.
pub open spec fn wins(m: Machine, a: int, b: int) -> bool {
    a * m.a_x + b * m.b_x == m.prize_x && a * m.a_y + b * m.b_y == m.prize_y
}

/// Where `a` presses of a button that moves by `p` and `b` presses of one that
/// moves by `q` lead.
fn lands(a: u64, b: u64, p: i64, q: i64) -> (r: i128)
    requires
        a <= 100,
        b <= 100,
        0 <= p <= most_value(),
        0 <= q <= most_value(),
    ensures
        r == a * p + b * q,
{
    assert(0 <= a * p <= 100 * most_value()) by (nonlinear_arith)
        requires
            0 <= a <= 100,
            0 <= p <= most_value(),
    ;
    assert(0 <= b * q <= 100 * most_value()) by (nonlinear_arith)
        requires
            0 <= b <= 100,
            0 <= q <= most_value(),
    ;
    (a as i128) * (p as i128) + (b as i128) * (q as i128)
}

/// `cost` is the least number of tokens that wins the prize with at most a
/// hundred presses of each button, or zero where nothing does.
pub open spec fn cheapest(m: Machine, cost: int) -> bool {
    if exists|a: int, b: int| 0 <= a <= 100 && 0 <= b <= 100 && #[trigger] wins(m, a, b) {
        &&& exists|a: int, b: int|
            0 <= a <= 100 && 0 <= b <= 100 && #[trigger] wins(m, a, b) && cost == 3 * a + b
        &&& forall|a: int, b: int|
            0 <= a <= 100 && 0 <= b <= 100 && #[trigger] wins(m, a, b) ==> cost <= 3 * a + b
    } else {
        cost == 0
    }
}

/// The least number of tokens that wins the prize of a machine with at most a
/// hundred presses of each button, or zero where nothing does.
pub fn tokens(m: &Machine) -> (r: u64)
    requires
        sound(*m),
    ensures
        cheapest(*m, r as int),
        r <= 400,
{
    let mut best: Option<u64> = None;
    let mut a: u64 = 0;
    while a <= 100
        invariant
            a <= 101,
            sound(*m),
            match best {
                Some(cost) => {
                    &&& cost <= 400
                    &&& exists|x: int, y: int|
                        0 <= x < a && 0 <= y <= 100 && #[trigger] wins(*m, x, y) && cost == 3 * x + y
                    &&& forall|x: int, y: int|
                        0 <= x < a && 0 <= y <= 100 && #[trigger] wins(*m, x, y) ==> cost <= 3 * x + y
                },
                None => forall|x: int, y: int|
                    0 <= x < a && 0 <= y <= 100 ==> !#[trigger] wins(*m, x, y),
            },
        decreases 101 - a,
    {
        let mut b: u64 = 0;
        while b <= 100
            invariant
                a <= 100,
                b <= 101,
                sound(*m),
                match best {
                    Some(cost) => {
                        &&& cost <= 400
                        &&& exists|x: int, y: int|
                            (0 <= x < a && 0 <= y <= 100 || x == a && 0 <= y < b) && #[trigger] wins(
                                *m,
                                x,
                                y,
                            ) && cost == 3 * x + y
                        &&& forall|x: int, y: int|
                            (0 <= x < a && 0 <= y <= 100 || x == a && 0 <= y < b) && #[trigger] wins(
                                *m,
                                x,
                                y,
                            ) ==> cost <= 3 * x + y
                    },
                    None => forall|x: int, y: int|
                        (0 <= x < a && 0 <= y <= 100 || x == a && 0 <= y < b) ==> !#[trigger] wins(
                            *m,
                            x,
                            y,
                        ),
                },
            decreases 101 - b,
        {
            let x = lands(a, b, m.a_x, m.b_x);
            let y = lands(a, b, m.a_y, m.b_y);
            let won = x == m.prize_x as i128 && y == m.prize_y as i128;
            assert(won == wins(*m, a as int, b as int));
            if won {
                let cost = 3 * a + b;
                let better = match best {
                    Some(known) => cost < known,
                    None => true,
                };
                if better {
                    best = Some(cost);
                }
            }
            b += 1;
        }
        a += 1;
    }
    match best {
        Some(cost) => cost,
        None => 0,
    }
}

/// The sum of the least numbers of tokens of the first `n` machines.
pub open spec fn total_is(all: Seq<Machine>, n: int, total: int) -> bool
    decreases n,
{
    if n <= 0 {
        total == 0
    } else {
        exists|cost: int|
            #[trigger] cheapest(all[n - 1], cost) && total_is(all, n - 1, total - cost)
    }
}

/// The sum of the least numbers of tokens of the machines, or `None` where it
/// does not fit 64 bits.
pub fn fewest_tokens(all: &Vec<Machine>) -> (r: Option<u64>)
    requires
        forall|i: int| 0 <= i < all@.len() ==> sound(#[trigger] all@[i]),
    ensures
        r is Some ==> total_is(all@, all@.len() as int, r->0 as int),
        r is None ==> all@.len() * 400 > u64::MAX,
{
    let mut total: u64 = 0;
    let mut i: usize = 0;
    while i < all.len()
        invariant
            i <= all@.len(),
            forall|i: int| 0 <= i < all@.len() ==> sound(#[trigger] all@[i]),
            total_is(all@, i as int, total as int),
            total <= 400 * i,
        decreases all@.len() - i,
    {
        let cost = tokens(&all[i]);
        total = match total.checked_add(cost) {
            Some(more) => more,
            None => {
                return None;
            },
        };
        assert(total_is(all@, i as int, total - cost));
        assert(cheapest(all@[(i + 1) - 1], cost as int));
        assert(total_is(all@, i + 1, total as int));
        i += 1;
    }
    Some(total)
}

/// The machines that a text writes have no number that is negative.
proof fn lemma_parsed_sound(found: Seq<Seq<Option<Seq<char>>>>, i: int)
    requires
        machines_of(found) is Some,
        0 <= i < found.len(),
    ensures
        sound(machines_of(found)->0[i]),
{
    let groups = found[i];
    assert(machine_of(groups) is Some);
    assert(value_of(groups[1], most_value()) is Some);
    assert(value_of(groups[2], most_value()) is Some);
    assert(value_of(groups[3], most_value()) is Some);
    assert(value_of(groups[4], most_value()) is Some);
    assert(value_of(groups[5], most_value()) is Some);
    assert(value_of(groups[6], most_value()) is Some);
}

/// Solve each machine with a brute-force test.
/// From the puzzle, each button is pressed at most 100 times.
pub fn solve_part1(input: &str) -> (r: Option<u64>)
    ensures
        r is Some ==> parsed(input@) is Some && total_is(
            parsed(input@)->0,
            parsed(input@)->0.len() as int,
            r->0 as int,
        ),
        r is None ==> parsed(input@) is None || parsed(input@)->0.len() * 400 > u64::MAX,
{
    match prepare(input) {
        Some(all) => {
            proof {
                let found = captures_of(
                    "Button A: X\\+([0-9]+), Y\\+([0-9]+)\\nButton B: X\\+([0-9]+), Y\\+([0-9]+)\\nPrize: X=([0-9]+), Y=([0-9]+)"@,
                    input@,
                )->0;
                assert forall|i: int| 0 <= i < all@.len() implies sound(#[trigger] all@[i]) by {
                    lemma_parsed_sound(found, i);
                }
            }
            fewest_tokens(&all)
        },
        None => None,
    }
}


/// The size of a whole number.
pub open spec fn size(x: int) -> int {
    if x < 0 {
        -x
    } else {
        x
    }
}

/// The whole number that, times `d`, is `x`, where there is one.
pub open spec fn quotient(x: int, d: int) -> Option<int> {
    if d == 0 || size(x) % size(d) != 0 {
        None
    } else if (x < 0) == (d < 0) {
        Some(size(x) / size(d))
    } else {
        Some(-(size(x) / size(d)))
    }
}

/// The quotient, times the divisor, is the number that was divided; and where
/// there is no quotient, no whole number times the divisor is that number.
pub proof fn lemma_quotient(x: int, d: int, q: int)
    requires
        d != 0,
    ensures
        quotient(x, d) == Some(q) <==> q * d == x,
{
    let ax = size(x);
    let ad = size(d);
    vstd::arithmetic::div_mod::lemma_fundamental_div_mod(ax, ad);
    if q * d == x {
        let aq = size(q);
        assert(aq * ad == ax) by (nonlinear_arith)
            requires
                q * d == x,
                aq == size(q),
                ad == size(d),
                ax == size(x),
        ;
        vstd::arithmetic::div_mod::lemma_fundamental_div_mod_converse(ax, ad, aq, 0);
        assert((x < 0) == (d < 0) || q <= 0) by (nonlinear_arith)
            requires
                q * d == x,
                d != 0,
        ;
        assert(!((x < 0) == (d < 0)) || q >= 0) by (nonlinear_arith)
            requires
                q * d == x,
                d != 0,
        ;
    }
    if quotient(x, d) == Some(q) {
        let k = ax / ad;
        assert(ax == ad * k);
        assert(q * d == x) by (nonlinear_arith)
            requires
                ax == ad * k,
                ax == size(x),
                ad == size(d),
                d != 0,
                q == if (x < 0) == (d < 0) {
                    k
                } else {
                    -k
                },
        ;
    }
}

/// The whole number that, times `d`, is `x`, where there is one.
pub fn divide(x: i128, d: i128) -> (r: Option<i128>)
    requires
        x > i128::MIN,
        d > i128::MIN,
    ensures
        match r {
            Some(q) => quotient(x as int, d as int) == Some(q as int),
            None => quotient(x as int, d as int) is None,
        },
{
    if d == 0 {
        return None;
    }
    let ax = if x < 0 {
        -x
    } else {
        x
    };
    let ad = if d < 0 {
        -d
    } else {
        d
    };
    if ax % ad != 0 {
        return None;
    }
    let k = ax / ad;
    proof {
        vstd::arithmetic::div_mod::lemma_div_pos_is_pos(ax as int, ad as int);
        vstd::arithmetic::div_mod::lemma_div_is_ordered_by_denominator(ax as int, 1, ad as int);
        vstd::arithmetic::div_mod::lemma_div_basics(ax as int);
    }
    if (x < 0) == (d < 0) {
        Some(k)
    } else {
        Some(-k)
    }
}

/// How far the prizes of the second part are from where the text puts them.
pub open spec fn further() -> int {
    10000000000000
}

/// What the machine with its prize put further costs: three times the presses
/// of the first button plus the presses of the second, where whole numbers of
/// presses, negative or not, win the prize, and zero where none do. `None`
/// where the buttons move along one line, or the second does not move across.
pub open spec fn far_cost(m: Machine) -> Option<int> {
    let prize_x = m.prize_x + further();
    let prize_y = m.prize_y + further();
    let denominator = m.a_x * m.b_y - m.b_x * m.a_y;
    let a_numerator = m.b_y * prize_x - m.b_x * prize_y;
    if denominator == 0 || m.b_x == 0 {
        None
    } else {
        match quotient(a_numerator, denominator) {
            Some(a) => match quotient(prize_x - a * m.a_x, m.b_x as int) {
                Some(b) => Some(3 * a + b),
                None => Some(0),
            },
            None => Some(0),
        }
    }
}

/// The cost of a machine with its prize put further is the cost of presses that
/// win the prize.
pub proof fn lemma_far_cost_wins(m: Machine, a: int, b: int)
    requires
        m.a_x * m.b_y - m.b_x * m.a_y != 0,
        m.b_x != 0,
        quotient(
            m.b_y * (m.prize_x + further()) - m.b_x * (m.prize_y + further()),
            m.a_x * m.b_y - m.b_x * m.a_y,
        ) == Some(a),
        quotient(m.prize_x + further() - a * m.a_x, m.b_x as int) == Some(b),
    ensures
        a * m.a_x + b * m.b_x == m.prize_x + further(),
        a * m.a_y + b * m.b_y == m.prize_y + further(),
{
    let px = m.prize_x + further();
    let py = m.prize_y + further();
    let ax = m.a_x as int;
    let ay = m.a_y as int;
    let bx = m.b_x as int;
    let by = m.b_y as int;
    lemma_quotient(by * px - bx * py, ax * by - bx * ay, a);
    lemma_quotient(px - a * ax, bx, b);
    assert(bx * (a * ay + b * by) == bx * py) by (nonlinear_arith)
        requires
            a * (ax * by - bx * ay) == by * px - bx * py,
            b * bx == px - a * ax,
    ;
    vstd::arithmetic::mul::lemma_mul_equality_converse(bx, a * ay + b * by, py);
}

/// The presses of the first button that could win the prize put further are
/// more than two to the power of sixty: too many to go on with.
pub open spec fn too_far(m: Machine) -> bool {
    match quotient(
        m.b_y * (m.prize_x + further()) - m.b_x * (m.prize_y + further()),
        m.a_x * m.b_y - m.b_x * m.a_y,
    ) {
        Some(a) => size(a) > 0x1000_0000_0000_0000,
        None => false,
    }
}

/// What the machine with its prize put further costs, or `None` where it has no
/// cost or the presses are too many.
pub fn far_tokens(m: &Machine) -> (r: Option<i128>)
    requires
        sound(*m),
    ensures
        match r {
            Some(cost) => far_cost(*m) == Some(cost as int),
            None => far_cost(*m) is None || too_far(*m),
        },
{
    let prize_x = m.prize_x as i128 + 10000000000000;
    let prize_y = m.prize_y as i128 + 10000000000000;
    let a_x = m.a_x as i128;
    let a_y = m.a_y as i128;
    let b_x = m.b_x as i128;
    let b_y = m.b_y as i128;
    proof {
        lemma_product_small(a_x as int, b_y as int);
        lemma_product_small(b_x as int, a_y as int);
        lemma_product_small(b_y as int, prize_x as int);
        lemma_product_small(b_x as int, prize_y as int);
    }
    let denominator = a_x * b_y - b_x * a_y;
    let a_numerator = b_y * prize_x - b_x * prize_y;
    if denominator == 0 || b_x == 0 {
        return None;
    }
    let a = match divide(a_numerator, denominator) {
        Some(a) => a,
        None => {
            return Some(0);
        },
    };
    proof {
        lemma_quotient(a_numerator as int, denominator as int, a as int);
        assert(-0x4000_0000_0000_0000_0000_0000_0000_0000 <= a
            <= 0x4000_0000_0000_0000_0000_0000_0000_0000) by (nonlinear_arith)
            requires
                a * denominator == a_numerator,
                denominator != 0,
                -0x4000_0000_0000_0000_0000_0000_0000_0000 <= a_numerator
                    <= 0x4000_0000_0000_0000_0000_0000_0000_0000,
        ;
    }
    if a > 0x1000_0000_0000_0000 || a < -0x1000_0000_0000_0000 {
        return None;
    }
    proof {
        lemma_product_small(a as int / 4, a_x as int);
        assert(-0x1000_0000_0000_0000 * 0x4000_0000_0000_0000 <= a * a_x <= 0x1000_0000_0000_0000
            * 0x4000_0000_0000_0000) by (nonlinear_arith)
            requires
                -0x1000_0000_0000_0000 <= a <= 0x1000_0000_0000_0000,
                0 <= a_x <= 0x4000_0000_0000_0000,
        ;
    }
    match divide(prize_x - a * a_x, b_x) {
        Some(b) => {
            proof {
                lemma_quotient((prize_x - a * a_x) as int, b_x as int, b as int);
                let left = (prize_x - a * a_x) as int;
                assert(-0x800_0000_0000_0000_0000_0000_0000_0000 <= left
                    <= 0x800_0000_0000_0000_0000_0000_0000_0000);
                assert(-0x800_0000_0000_0000_0000_0000_0000_0000 <= b
                    <= 0x800_0000_0000_0000_0000_0000_0000_0000) by (nonlinear_arith)
                    requires
                        b * b_x == left,
                        b_x != 0,
                        -0x800_0000_0000_0000_0000_0000_0000_0000 <= left
                            <= 0x800_0000_0000_0000_0000_0000_0000_0000,
                ;
            }
            Some(3 * a + b)
        },
        None => Some(0),
    }
}

/// The product of two numbers of at most 63 bits fits 126 bits.
proof fn lemma_product_small(x: int, y: int)
    requires
        -0x8000_0000_0000_0000 <= x <= 0x8000_0000_0000_0000,
        -0x8000_0000_0000_0000 <= y <= 0x8000_0000_0000_0000,
    ensures
        -0x4000_0000_0000_0000_0000_0000_0000_0000 <= x * y
            <= 0x4000_0000_0000_0000_0000_0000_0000_0000,
{
    assert(-0x4000_0000_0000_0000_0000_0000_0000_0000 <= x * y
        <= 0x4000_0000_0000_0000_0000_0000_0000_0000) by (nonlinear_arith)
        requires
            -0x8000_0000_0000_0000 <= x <= 0x8000_0000_0000_0000,
            -0x8000_0000_0000_0000 <= y <= 0x8000_0000_0000_0000,
    ;
}


/// The sum of the costs of the first `n` machines with their prizes put further,
/// or `None` where a machine has no cost, or too many presses, or the sum leaves
/// the range of 128 bits.
pub open spec fn far_total(all: Seq<Machine>, n: int) -> Option<int>
    decreases n,
{
    if n <= 0 {
        Some(0)
    } else {
        match far_total(all, n - 1) {
            Some(total) => match far_cost(all[n - 1]) {
                Some(cost) => if !too_far(all[n - 1]) && i128::MIN <= total + cost <= i128::MAX {
                    Some(total + cost)
                } else {
                    None
                },
                None => None,
            },
            None => None,
        }
    }
}

/// A sum that is missing stays so.
pub proof fn lemma_far_total_stays_none(all: Seq<Machine>, n: int, m: int)
    requires
        far_total(all, n) is None,
        n <= m,
    ensures
        far_total(all, m) is None,
    decreases m - n,
{
    if n < m {
        lemma_far_total_stays_none(all, n, m - 1);
    }
}

/// The sum of the costs of the machines with their prizes put further.
pub fn fewest_far_tokens(all: &Vec<Machine>) -> (r: Option<u64>)
    requires
        forall|i: int| 0 <= i < all@.len() ==> sound(#[trigger] all@[i]),
    ensures
        match r {
            Some(total) => far_total(all@, all@.len() as int) == Some(total as int),
            None => far_total(all@, all@.len() as int) is None || far_total(
                all@,
                all@.len() as int,
            )->0 < 0 || far_total(all@, all@.len() as int)->0 > u64::MAX,
        },
{
    let mut total: i128 = 0;
    let mut i: usize = 0;
    while i < all.len()
        invariant
            i <= all@.len(),
            forall|i: int| 0 <= i < all@.len() ==> sound(#[trigger] all@[i]),
            far_total(all@, i as int) == Some(total as int),
        decreases all@.len() - i,
    {
        let more = match far_tokens(&all[i]) {
            Some(cost) => {
                if too_far_check(&all[i]) {
                    None
                } else {
                    total.checked_add(cost)
                }
            },
            None => None,
        };
        total = match more {
            Some(more) => more,
            None => {
                proof {
                    assert(far_total(all@, i + 1) is None);
                    lemma_far_total_stays_none(all@, i + 1, all@.len() as int);
                }
                return None;
            },
        };
        i += 1;
    }
    if total < 0 || total > 0xFFFF_FFFF_FFFF_FFFF {
        None
    } else {
        Some(total as u64)
    }
}

/// Whether the presses of the first button are too many.
fn too_far_check(m: &Machine) -> (r: bool)
    requires
        sound(*m),
    ensures
        r == too_far(*m),
{
    let prize_x = m.prize_x as i128 + 10000000000000;
    let prize_y = m.prize_y as i128 + 10000000000000;
    proof {
        lemma_product_small(m.a_x as int, m.b_y as int);
        lemma_product_small(m.b_x as int, m.a_y as int);
        lemma_product_small(m.b_y as int, prize_x as int);
        lemma_product_small(m.b_x as int, prize_y as int);
    }
    let denominator = (m.a_x as i128) * (m.b_y as i128) - (m.b_x as i128) * (m.a_y as i128);
    let a_numerator = (m.b_y as i128) * prize_x - (m.b_x as i128) * prize_y;
    match divide(a_numerator, denominator) {
        Some(a) => a > 0x1000_0000_0000_0000 || a < -0x1000_0000_0000_0000,
        None => false,
    }
}

/// Solve the equation system:
///
/// ```text
/// A*a + B*b = X
/// A*c + B*d = Y
/// ```
/// where `a = a_x, b = b_y, c = a_y, d = b_y, X = prize_x, Y = prize_y`.
/// and all variables are integers.
///
/// ```text
/// A = (dX - bY)/(ad - cb)
/// B = (X - aA)/b = (Y - Ac)/d
/// ```
/// We don't need to minimise for `3a+b` since these equations have either no solution
/// or a single solution for `a` and `b`.
///
pub fn solve_part2(input: &str) -> (r: Option<u64>)
    ensures
        match r {
            Some(total) => parsed(input@) is Some && far_total(
                parsed(input@)->0,
                parsed(input@)->0.len() as int,
            ) == Some(total as int),
            None => parsed(input@) is None || far_total(
                parsed(input@)->0,
                parsed(input@)->0.len() as int,
            ) is None || far_total(parsed(input@)->0, parsed(input@)->0.len() as int)->0 < 0
                || far_total(parsed(input@)->0, parsed(input@)->0.len() as int)->0 > u64::MAX,
        },
{
    match prepare(input) {
        Some(all) => {
            proof {
                let found = captures_of(
                    "Button A: X\\+([0-9]+), Y\\+([0-9]+)\\nButton B: X\\+([0-9]+), Y\\+([0-9]+)\\nPrize: X=([0-9]+), Y=([0-9]+)"@,
                    input@,
                )->0;
                assert forall|i: int| 0 <= i < all@.len() implies sound(#[trigger] all@[i]) by {
                    lemma_parsed_sound(found, i);
                }
            }
            fewest_far_tokens(&all)
        },
        None => None,
    }
}

/// Both answers, or `None` where one of them is missing.
pub fn solve(input: String) -> (r: Option<SolutionPair>)
    ensures
        match r {
            Some((Solution::U64(a), Solution::U64(b))) => {
                &&& parsed(input@) is Some
                &&& total_is(parsed(input@)->0, parsed(input@)->0.len() as int, a as int)
                &&& far_total(parsed(input@)->0, parsed(input@)->0.len() as int) == Some(b as int)
            },
            Some(_) => false,
            None => {
                ||| parsed(input@) is None
                ||| parsed(input@)->0.len() * 400 > u64::MAX
                ||| far_total(parsed(input@)->0, parsed(input@)->0.len() as int) is None
                ||| far_total(parsed(input@)->0, parsed(input@)->0.len() as int)->0 < 0
                ||| far_total(parsed(input@)->0, parsed(input@)->0.len() as int)->0 > u64::MAX
            },
        },
{
    let sol1 = match solve_part1(input.as_str()) {
        Some(total) => total,
        None => {
            return None;
        },
    };
    let sol2 = match solve_part2(input.as_str()) {
        Some(total) => total,
        None => {
            return None;
        },
    };
    Some((Solution::U64(sol1), Solution::U64(sol2)))
}

} // verus!
