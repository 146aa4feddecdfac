use crate::etc::count::count;
use crate::etc::number::{parse_i64, signed_number};
use crate::etc::pattern::{captures, captures_of, groups_view, matches_view};
use crate::etc::solution::{Solution, SolutionPair};
use vstd::prelude::*;

verus! {

#[derive(Debug, Clone, Copy)]
pub struct Robot {
    pub position: (i64, i64),
    pub velocity: (i64, i64),
}

pub type Robots = Vec<Robot>;

/// The whole number that a group of a match writes, where it fits 64 bits.
pub open spec fn value_of(group: Option<Seq<char>>) -> Option<i64> {
    match group {
        Some(text) => match signed_number(text) {
            Some(value) => if i64::MIN <= value <= i64::MAX {
                Some(value as i64)
            } else {
                None
            },
            None => None,
        },
        None => None,
    }
}

/// The robot that one match writes: its four groups are whole numbers.
pub open spec fn robot_of(groups: Seq<Option<Seq<char>>>) -> Option<Robot> {
    if groups.len() == 5 && value_of(groups[1]) is Some && value_of(groups[2]) is Some && value_of(
        groups[3],
    ) is Some && value_of(groups[4]) is Some {
        Some(
            Robot {
                position: (value_of(groups[1])->0, value_of(groups[2])->0),
                velocity: (value_of(groups[3])->0, value_of(groups[4])->0),
            },
        )
    } else {
        None
    }
}

/// The robots that the matches write, where each of them writes one.
pub open spec fn robots_of(found: Seq<Seq<Option<Seq<char>>>>) -> Option<Seq<Robot>> {
    if forall|i: int| 0 <= i < found.len() ==> robot_of(#[trigger] found[i]) is Some {
        Some(Seq::new(found.len(), |i: int| robot_of(found[i])->0))
    } else {
        None
    }
}

/// The robots that a text writes.
pub open spec fn parsed(input: Seq<char>) -> Option<Seq<Robot>> {
    match captures_of("p=([0-9]+),([0-9]+) v=(-?[0-9]+),(-?[0-9]+)"@, input) {
        Some(found) => robots_of(found),
        None => None,
    }
}

fn value(group: &Option<Vec<char>>) -> (r: Option<i64>)
    ensures
        r == value_of(
            match group {
                Some(text) => Some(text@),
                None => None,
            },
        ),
{
    match group {
        Some(text) => parse_i64(text),
        None => None,
    }
}

/// The robots that the matches write, or `None` where one of them writes none.
pub fn robots(found: &Vec<Vec<Option<Vec<char>>>>) -> (r: Option<Robots>)
    ensures
        match r {
            Some(all) => robots_of(matches_view(found@)) == Some(all@),
            None => robots_of(matches_view(found@)) is None,
        },
{
    let ghost views = matches_view(found@);
    let mut all: Robots = Vec::new();
    let mut i: usize = 0;
    while i < found.len()
        invariant
            i <= found@.len(),
            views == matches_view(found@),
            all@.len() == i,
            forall|k: int| 0 <= k < i ==> robot_of(#[trigger] views[k]) == Some(all@[k]),
        decreases found@.len() - i,
    {
        let groups = &found[i];
        let ghost view = groups_view(*groups);
        assert(views[i as int] == view);
        if groups.len() != 5 {
            return None;
        }
        assert forall|k: int| 1 <= k < 5 implies #[trigger] view[k] == match groups@[k] {
            Some(group) => Some(group@),
            None => None,
        } by {}
        match (value(&groups[1]), value(&groups[2]), value(&groups[3]), value(&groups[4])) {
            (Some(x), Some(y), Some(dx), Some(dy)) => {
                all.push(Robot { position: (x, y), velocity: (dx, dy) });
            },
            _ => {
                return None;
            },
        }
        i += 1;
    }
    assert(all@ =~= Seq::new(views.len(), |i: int| robot_of(views[i])->0));
    Some(all)
}

/// The robots that a text writes, or `None` where a number does not fit.
pub fn prepare(input: &str) -> (r: Option<Robots>)
    ensures
        match r {
            Some(all) => parsed(input@) == Some(all@),
            None => parsed(input@) is None,
        },
{
    match captures("p=([0-9]+),([0-9]+) v=(-?[0-9]+),(-?[0-9]+)", input) {
        Some(found) => robots(&found),
        None => None,
    }
}

/// Where a robot is on one axis after some steps on a torus of the given
/// length.
pub open spec fn wrapped(position: i64, velocity: i64, steps: u64, limit: u64) -> int {
    (position + velocity * steps) % (limit as int)
}

/// The robot after some steps.
pub open spec fn moved(robot: Robot, columns: u64, lines: u64, steps: u64) -> Robot {
    Robot {
        position: (
            wrapped(robot.position.0, robot.velocity.0, steps, columns) as i64,
            wrapped(robot.position.1, robot.velocity.1, steps, lines) as i64,
        ),
        velocity: robot.velocity,
    }
}

/// Where a robot is on one axis after some steps on a torus of the given
/// length.
pub fn wrap(position: i64, velocity: i64, steps: u64, limit: u64) -> (r: i64)
    requires
        0 < limit <= i64::MAX,
    ensures
        r == wrapped(position, velocity, steps, limit),
        0 <= r < limit,
{
    let l = limit as i128;
    let p = remainder(position as i128, l);
    let v = remainder(velocity as i128, l);
    let s = ((steps % limit) as i128);
    proof {
        lemma_wrap(position as int, velocity as int, steps as int, limit as int);
        assert(0 <= v * s <= l * l) by (nonlinear_arith)
            requires
                0 <= v < l,
                0 <= s < l,
        ;
        assert(l * l <= 0x4000_0000_0000_0000_0000_0000_0000_0000) by (nonlinear_arith)
            requires
                0 < l <= 0x7FFF_FFFF_FFFF_FFFF,
        ;
    }
    let there = (p + v * s) % l;
    there as i64
}

/// The remainder of the division by `l` that is not negative.
fn remainder(x: i128, l: i128) -> (r: i128)
    requires
        0 < l <= i64::MAX,
        i64::MIN <= x <= i64::MAX,
    ensures
        r == (x as int) % (l as int),
        0 <= r < l,
{
    if x >= 0 {
        x % l
    } else {
        let m = (-x) % l;
        proof {
            let k = (-x) / (l as int);
            vstd::arithmetic::div_mod::lemma_fundamental_div_mod(-x as int, l as int);
            if m > 0 {
                assert(x == l * (-k - 1) + (l - m)) by (nonlinear_arith)
                    requires
                        -x == l * k + m,
                ;
                vstd::arithmetic::div_mod::lemma_fundamental_div_mod_converse(
                    x as int,
                    l as int,
                    -k - 1,
                    (l - m) as int,
                );
            } else {
                assert(x == l * (-k) + 0) by (nonlinear_arith)
                    requires
                        -x == l * k + m,
                        m == 0,
                ;
                vstd::arithmetic::div_mod::lemma_fundamental_div_mod_converse(
                    x as int,
                    l as int,
                    -k,
                    0,
                );
            }
        }
        if m > 0 {
            l - m
        } else {
            0
        }
    }
}

/// The place on the torus can be worked out from the remainders.
proof fn lemma_wrap(position: int, velocity: int, steps: int, limit: int)
    requires
        limit > 0,
        steps >= 0,
    ensures
        (position + velocity * steps) % limit == ((position % limit) + (velocity % limit) * (steps
            % limit)) % limit,
{
    vstd::arithmetic::div_mod::lemma_mul_mod_noop_general(velocity, steps, limit);
    vstd::arithmetic::div_mod::lemma_add_mod_noop(position, velocity * steps, limit);
    vstd::arithmetic::div_mod::lemma_add_mod_noop(
        position % limit,
        (velocity % limit) * (steps % limit),
        limit,
    );
    vstd::arithmetic::div_mod::lemma_mod_twice(position, limit);
}

/// What some steps make of the robots.
pub open spec fn transposed(all: Seq<Robot>, columns: u64, lines: u64, steps: u64) -> Seq<Robot> {
    Seq::new(all.len(), |i: int| moved(all[i], columns, lines, steps))
}

/// Update robots position as a vector transposition.
pub fn transpose_robots(robots: &mut Robots, columns: u64, lines: u64, steps: u64)
    requires
        0 < columns <= i64::MAX,
        0 < lines <= i64::MAX,
    ensures
        final(robots)@ == transposed(old(robots)@, columns, lines, steps),
{
    let ghost before = robots@;
    let mut i: usize = 0;
    while i < robots.len()
        invariant
            i <= robots@.len(),
            robots@.len() == before.len(),
            0 < columns <= i64::MAX,
            0 < lines <= i64::MAX,
            forall|k: int| 0 <= k < i ==> #[trigger] robots@[k] == moved(before[k], columns, lines, steps),
            forall|k: int| i <= k < robots@.len() ==> #[trigger] robots@[k] == before[k],
        decreases robots@.len() - i,
    {
        let robot = robots[i];
        let x = wrap(robot.position.0, robot.velocity.0, steps, columns);
        let y = wrap(robot.position.1, robot.velocity.1, steps, lines);
        robots[i] = Robot { position: (x, y), velocity: robot.velocity };
        i += 1;
    }
    assert(robots@ =~= transposed(before, columns, lines, steps));
}

/// The quadrant of a place: 1 to 4, or 0 on the middle column or line.
pub open spec fn quadrant(position: (i64, i64), columns: u64, lines: u64) -> int {
    let mid_column = (columns / 2) as int;
    let mid_line = (lines / 2) as int;
    if position.0 < mid_column {
        if position.1 < mid_line {
            1
        } else if position.1 > mid_line {
            2
        } else {
            0
        }
    } else if position.0 > mid_column {
        if position.1 < mid_line {
            3
        } else if position.1 > mid_line {
            4
        } else {
            0
        }
    } else {
        0
    }
}

/// The number of robots in a quadrant.
pub open spec fn in_quadrant(all: Seq<Robot>, columns: u64, lines: u64, q: int) -> int {
    count(all.len() as int, |i: int| quadrant(all[i].position, columns, lines) == q)
}

/// The product of the numbers of robots in the four quadrants.
pub open spec fn safety(all: Seq<Robot>, columns: u64, lines: u64) -> int {
    in_quadrant(all, columns, lines, 1) * in_quadrant(all, columns, lines, 2) * in_quadrant(
        all,
        columns,
        lines,
        3,
    ) * in_quadrant(all, columns, lines, 4)
}

/// Compute the safety factor for the given robot positions.
pub fn safety_factor(robots: &Robots, columns: u64, lines: u64) -> (r: u64)
    requires
        robots@.len() <= 0xFFFF,
        columns <= i64::MAX,
        lines <= i64::MAX,
    ensures
        r == safety(robots@, columns, lines),
{
    let mid_column = (columns / 2) as i64;
    let mid_line = (lines / 2) as i64;
    let ghost all = robots@;
    let mut q1: u64 = 0;
    let mut q2: u64 = 0;
    let mut q3: u64 = 0;
    let mut q4: u64 = 0;
    let mut i: usize = 0;
    while i < robots.len()
        invariant
            i <= robots@.len(),
            all == robots@,
            all.len() <= 0xFFFF,
            mid_column == columns / 2,
            mid_line == lines / 2,
            q1 == count(i as int, |k: int| quadrant(all[k].position, columns, lines) == 1),
            q2 == count(i as int, |k: int| quadrant(all[k].position, columns, lines) == 2),
            q3 == count(i as int, |k: int| quadrant(all[k].position, columns, lines) == 3),
            q4 == count(i as int, |k: int| quadrant(all[k].position, columns, lines) == 4),
            q1 <= i && q2 <= i && q3 <= i && q4 <= i,
        decreases robots@.len() - i,
    {
        let position = robots[i].position;
        if position.0 < mid_column {
            if position.1 < mid_line {
                q1 += 1;
            } else if position.1 > mid_line {
                q2 += 1;
            }
        } else if position.0 > mid_column {
            if position.1 < mid_line {
                q3 += 1;
            } else if position.1 > mid_line {
                q4 += 1;
            }
        }
        i += 1;
    }
    proof {
        assert(q1 * q2 <= 0xFFFF * 0xFFFF) by (nonlinear_arith)
            requires
                q1 <= 0xFFFF,
                q2 <= 0xFFFF,
        ;
        assert(q1 * q2 * q3 <= 0xFFFF * 0xFFFF * 0xFFFF) by (nonlinear_arith)
            requires
                q1 * q2 <= 0xFFFF * 0xFFFF,
                q3 <= 0xFFFF,
        ;
        assert(q1 * q2 * q3 * q4 <= 0xFFFF * 0xFFFF * 0xFFFF * 0xFFFF) by (nonlinear_arith)
            requires
                q1 * q2 * q3 <= 0xFFFF * 0xFFFF * 0xFFFF,
                q4 <= 0xFFFF,
        ;
    }
    q1 * q2 * q3 * q4
}

/// Two robots stand on one place.
pub open spec fn overlapping(all: Seq<Robot>) -> bool {
    exists|i: int, j: int| 0 <= i < j < all.len() && #[trigger] all[i].position == #[trigger] all[j].position
}

pub fn has_overlap(robots: &Robots) -> (r: bool)
    ensures
        r == overlapping(robots@),
{
    let mut j: usize = 0;
    while j < robots.len()
        invariant
            j <= robots@.len(),
            forall|a: int, b: int|
                0 <= a < b < j ==> #[trigger] robots@[a].position != #[trigger] robots@[b].position,
        decreases robots@.len() - j,
    {
        let mut i: usize = 0;
        while i < j
            invariant
                i <= j < robots@.len(),
                forall|a: int| 0 <= a < i ==> #[trigger] robots@[a].position != robots@[j as int].position,
            decreases j - i,
        {
            if robots[i].position.0 == robots[j].position.0 && robots[i].position.1
                == robots[j].position.1 {
                assert(robots@[i as int].position == robots@[j as int].position);
                return true;
            }
            i += 1;
        }
        j += 1;
    }
    false
}

/// What the text and the size of the area give: the safety factor after a
/// hundred steps, or `None` where the text cannot be read, the area is empty or
/// too large, or the robots are more than 65535.
pub open spec fn answer1(input: Seq<char>, columns: u64, lines: u64) -> Option<u64> {
    match parsed(input) {
        Some(all) => if all.len() <= 0xFFFF && 0 < columns <= i64::MAX && 0 < lines <= i64::MAX {
            Some(safety(transposed(all, columns, lines, 100), columns, lines) as u64)
        } else {
            None
        },
        None => None,
    }
}

pub fn solve_part1(input: &str, columns: u64, lines: u64) -> (r: Option<u64>)
    ensures
        r == answer1(input@, columns, lines),
{
    let mut robots = match prepare(input) {
        Some(robots) => robots,
        None => {
            return None;
        },
    };
    if robots.len() > 0xFFFF || columns == 0 || lines == 0 || columns > 0x7FFF_FFFF_FFFF_FFFF
        || lines > 0x7FFF_FFFF_FFFF_FFFF {
        return None;
    }
    transpose_robots(&mut robots, columns, lines, 100);
    Some(safety_factor(&robots, columns, lines))
}

/// The first of the steps from 1 to `most` after which no two robots stand on
/// one place, in an area of 101 columns and 103 lines.
pub open spec fn first_clear(all: Seq<Robot>, n: u64, most: u64) -> Option<u64>
    decreases most - n,
{
    if n > most || n == 0 {
        None
    } else if !overlapping(transposed(all, 101, 103, n)) {
        Some(n)
    } else if n == most {
        None
    } else {
        first_clear(all, (n + 1) as u64, most)
    }
}

/// Find the number of steps required to have no robots overlapping, among the
/// first `most` steps.
pub fn find_clear(robots: &Robots, most: u64) -> (r: Option<u64>)
    ensures
        r == first_clear(robots@, 1, most),
{
    let mut steps: u64 = 1;
    while steps <= most
        invariant
            1 <= steps,
            first_clear(robots@, 1, most) == first_clear(robots@, steps, most),
        decreases most + 1 - steps,
    {
        let mut now = robots.clone();
        assert(now@ =~= robots@);
        transpose_robots(&mut now, 101, 103, steps);
        if !has_overlap(&now) {
            return Some(steps);
        }
        if steps == most {
            return None;
        }
        steps += 1;
    }
    None
}

pub fn solve_part2(input: &str) -> (r: Option<u64>)
    ensures
        r == match parsed(input@) {
            Some(all) => first_clear(all, 1, 10403),
            None => None,
        },
{
    match prepare(input) {
        Some(robots) => find_clear(&robots, 103 * 101),
        None => None,
    }
}

/// Both answers for an area of 101 columns and 103 lines, or `None` where one
/// of them is missing.
pub fn solve(input: String) -> (r: Option<SolutionPair>)
    ensures
        match r {
            Some((Solution::U64(a), Solution::U64(b))) => {
                &&& answer1(input@, 101, 103) == Some(a)
                &&& parsed(input@) is Some
                &&& first_clear(parsed(input@)->0, 1, 10403) == Some(b)
            },
            Some(_) => false,
            None => answer1(input@, 101, 103) is None || first_clear(parsed(input@)->0, 1, 10403) is None,
        },
{
    let sol1 = match solve_part1(input.as_str(), 101, 103) {
        Some(factor) => factor,
        None => {
            return None;
        },
    };
    let sol2 = match solve_part2(input.as_str()) {
        Some(steps) => steps,
        None => {
            return None;
        },
    };
    Some((Solution::U64(sol1), Solution::U64(sol2)))
}

} // verus!
