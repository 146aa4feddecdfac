use crate::days::day13::{divide, lemma_quotient};
use crate::etc::count::count;
use crate::etc::grid::{moved, rectangular, text_grid, Grid, GridView, Point, Position};
use crate::etc::outside::{
    gcd, is_gcd, items_of_pair, lemma_items_have_pair, lemma_pair_has_items, pair_of_items, pairs,
    pairs_of,
};
use crate::etc::solution::{Solution, SolutionPair};
use crate::etc::text::words;
use vstd::prelude::*;

verus! {

/// The most cells that a map can have.
pub open spec fn most_cells() -> int {
    0x1000_0000
}

/// The rows are of one width, and the cells are few enough.
pub open spec fn well_formed(rows: Seq<Seq<char>>) -> bool {
    rectangular(rows) && text_grid(rows).cells.len() <= most_cells()
}

/// There is an antenna on the cell.
pub open spec fn antenna(grid: GridView<char>, at: Position) -> bool {
    grid.valid(at) && grid.cell(at) != '.'
}

/// The antennas are the cells of the indices, in rising order, with anything but
/// a dot on them.
pub open spec fn antennas_of(grid: GridView<char>, antennas: Seq<Position>) -> bool {
    &&& forall|k: int| 0 <= k < antennas.len() ==> antenna(grid, #[trigger] antennas[k])
    &&& forall|a: int, b: int|
        0 <= a < b < antennas.len() ==> grid.index_of(#[trigger] antennas[a]) < grid.index_of(
            #[trigger] antennas[b],
        )
    &&& forall|at: Position| #[trigger] antenna(grid, at) ==> antennas.contains(at)
}

/// Read the grid, and find the antennas; `None` where the text is not well
/// formed.
pub fn parse(input: &str) -> (r: Option<(Grid<char>, Vec<Position>)>)
    ensures
        match r {
            Some((grid, antennas)) => {
                &&& well_formed(words(input@))
                &&& grid.wf()
                &&& grid@ == text_grid(words(input@))
                &&& antennas_of(grid@, antennas@)
            },
            None => !well_formed(words(input@)),
        },
{
    let grid = match Grid::try_new(input) {
        Some(grid) => grid,
        None => {
            return None;
        },
    };
    let size = grid.size();
    if size > 0x1000_0000 {
        return None;
    }
    let mut antennas: Vec<Position> = Vec::new();
    let mut i: usize = 0;
    while i < size
        invariant
            i <= size,
            size == grid@.cells.len(),
            grid.wf(),
            forall|k: int| 0 <= k < antennas@.len() ==> antenna(grid@, #[trigger] antennas@[k]),
            forall|k: int| 0 <= k < antennas@.len() ==> grid@.index_of(#[trigger] antennas@[k]) < i,
            forall|a: int, b: int|
                0 <= a < b < antennas@.len() ==> grid@.index_of(#[trigger] antennas@[a])
                    < grid@.index_of(#[trigger] antennas@[b]),
            forall|at: Position|
                #[trigger] antenna(grid@, at) && grid@.index_of(at) < i ==> antennas@.contains(at),
        decreases size - i,
    {
        let pos = grid.unchecked_position(i);
        let ghost before = antennas@;
        if *grid.unchecked_get(&pos) != '.' {
            antennas.push(pos);
        }
        proof {
            assert forall|at: Position|
                #[trigger] antenna(grid@, at) && grid@.index_of(at) < i + 1 implies antennas@.contains(
                at,
            ) by {
                if grid@.index_of(at) < i {
                    let k = choose|k: int| 0 <= k < before.len() && before[k] == at;
                    assert(antennas@[k] == at);
                } else {
                    grid@.lemma_index_injective(at, pos);
                    assert(antennas@[before.len() as int] == at);
                }
            }
        }
        i += 1;
    }
    proof {
        assert forall|at: Position| #[trigger] antenna(grid@, at) implies antennas@.contains(at) by {
            grid@.lemma_position_round_trip(at);
        }
    }
    Some((grid, antennas))
}

/// Read the grid, and find the antennas.
pub fn prepare(input: &str) -> (r: (Grid<char>, Vec<Position>))
    requires
        well_formed(words(input@)),
    ensures
        r.0.wf(),
        r.0@ == text_grid(words(input@)),
        antennas_of(r.0@, r.1@),
{
    match parse(input) {
        Some(r) => r,
        None => (Grid { lines: 0, columns: 0, items: Vec::new() }, Vec::new()),
    }
}

/// Two antennas of one frequency, on two cells.
pub open spec fn tuned(grid: GridView<char>, p: Position, q: Position) -> bool {
    antenna(grid, p) && antenna(grid, q) && p != q && grid.cell(p) == grid.cell(q)
}

/// The cell is as far from `p` as `p` is from `q`, on the other side.
pub open spec fn beyond(p: Position, q: Position, at: Position) -> bool {
    at.0 == 2 * p.0 - q.0 && at.1 == 2 * p.1 - q.1
}

/// The cell is an antinode of the pair: beyond one of the two, seen from the
/// other.
pub open spec fn echoes(grid: GridView<char>, p: Position, q: Position, at: Position) -> bool {
    tuned(grid, p, q) && (beyond(p, q, at) || beyond(q, p, at))
}

/// The marks are set on the cells that the first `done` pairs make antinodes
/// of: far ones as well as near ones where `far` is true.
pub open spec fn marked(
    grid: GridView<char>,
    all: Seq<(Position, Position)>,
    done: int,
    marks: Seq<bool>,
    far: bool,
) -> bool {
    &&& marks.len() == grid.cells.len()
    &&& forall|at: Position|
        grid.valid(at) ==> (#[trigger] marks[grid.index_of(at)] <==> exists|m: int|
            0 <= m < done && #[trigger] hits(grid, far, all[m].0, all[m].1, at))
}

/// The cell is an antinode of the pair: one of those that are as far from one
/// antenna as that is from the other, or, where `far` is true, any cell in line
/// with the two that is not between them.
pub open spec fn hits(grid: GridView<char>, far: bool, p: Position, q: Position, at: Position) -> bool {
    if far {
        resonates(grid, p, q, at)
    } else {
        echoes(grid, p, q, at)
    }
}

/// The least step from `q` towards `p`: the offset from `q` to `p` divided by
/// the greatest common divisor of its two numbers.
pub open spec fn is_step(p: Position, q: Position, step: (int, int)) -> bool {
    exists|g: int|
        #[trigger] is_gcd(p.0 - q.0, p.1 - q.1, g) && step.0 * g == p.0 - q.0 && step.1 * g == p.1
            - q.1
}

/// The cell is in line with two antennas of one frequency, beyond one of them
/// or on it, at a whole number of least steps.
pub open spec fn resonates(grid: GridView<char>, p: Position, q: Position, at: Position) -> bool {
    tuned(grid, p, q) && exists|step: (int, int), k: int| #[trigger] lines_up(p, q, step, k, at)
}

/// The cell is `k` least steps beyond `p`, seen from `q`, or beyond `q`, seen
/// from `p`.
pub open spec fn lines_up(p: Position, q: Position, step: (int, int), k: int, at: Position) -> bool {
    is_step(p, q, step) && k >= 0 && (along(p, step, k, at) || along(q, step, -k, at))
}

/// The cell is `k` steps from `from`.
pub open spec fn along(from: Position, step: (int, int), k: int, at: Position) -> bool {
    at.0 == from.0 + k * step.0 && at.1 == from.1 + k * step.1
}

/// After one more pair, the marks are set on the cells that it makes antinodes
/// of as well.
proof fn lemma_one_more_pair(
    grid: GridView<char>,
    all: Seq<(Position, Position)>,
    m: int,
    before: Seq<bool>,
    after: Seq<bool>,
    far: bool,
)
    requires
        grid.wf(),
        0 <= m < all.len(),
        marked(grid, all, m, before, far),
        after.len() == before.len(),
        forall|at: Position|
            grid.valid(at) ==> #[trigger] after[grid.index_of(at)] == (before[grid.index_of(at)]
                || hits(grid, far, all[m].0, all[m].1, at)),
    ensures
        marked(grid, all, m + 1, after, far),
{
    assert forall|at: Position| grid.valid(at) implies (#[trigger] after[grid.index_of(at)]
        <==> exists|k: int| 0 <= k < m + 1 && #[trigger] hits(grid, far, all[k].0, all[k].1, at)) by {
        if before[grid.index_of(at)] {
            let k = choose|k: int| 0 <= k < m && #[trigger] hits(grid, far, all[k].0, all[k].1, at);
            assert(hits(grid, far, all[k].0, all[k].1, at));
        }
        if exists|k: int| 0 <= k < m + 1 && #[trigger] hits(grid, far, all[k].0, all[k].1, at) {
            let k = choose|k: int|
                0 <= k < m + 1 && #[trigger] hits(grid, far, all[k].0, all[k].1, at);
            if k < m {
                assert(before[grid.index_of(at)]);
            }
        }
    }
}

/// After all pairs of antennas, the marks are set on the cells that some two
/// antennas of one frequency make antinodes of.
proof fn lemma_all_pairs(
    grid: GridView<char>,
    antennas: Seq<Position>,
    marks: Seq<bool>,
    far: bool,
    at: Position,
)
    requires
        grid.wf(),
        grid.valid(at),
        antennas_of(grid, antennas),
        marked(grid, pairs_of(antennas), pairs_of(antennas).len() as int, marks, far),
    ensures
        marks[grid.index_of(at)] <==> exists|p: Position, q: Position|
            #[trigger] hits(grid, far, p, q, at),
{
    let all = pairs_of(antennas);
    if exists|p: Position, q: Position| #[trigger] hits(grid, far, p, q, at) {
        let (p, q) = choose|p: Position, q: Position| #[trigger] hits(grid, far, p, q, at);
        assert(tuned(grid, p, q));
        assert(antennas.contains(p) && antennas.contains(q));
        let i = choose|i: int| 0 <= i < antennas.len() && antennas[i] == p;
        let j = choose|j: int| 0 <= j < antennas.len() && antennas[j] == q;
        if i < j {
            lemma_items_have_pair(antennas, i, j);
            let m = pair_of_items(antennas.len() as int, i, j);
            assert(hits(grid, far, all[m].0, all[m].1, at));
        } else {
            lemma_items_have_pair(antennas, j, i);
            let m = pair_of_items(antennas.len() as int, j, i);
            lemma_hits_both_ways(grid, far, p, q, at);
            assert(hits(grid, far, all[m].0, all[m].1, at));
        }
    }
}

/// What a pair makes an antinode of, the pair the other way round does too.
proof fn lemma_hits_both_ways(grid: GridView<char>, far: bool, p: Position, q: Position, at: Position)
    requires
        hits(grid, far, p, q, at),
    ensures
        hits(grid, far, q, p, at),
{
    if far {
        let (step, k) = choose|step: (int, int), k: int| #[trigger] lines_up(p, q, step, k, at);
        let g = choose|g: int|
            #[trigger] is_gcd(p.0 - q.0, p.1 - q.1, g) && step.0 * g == p.0 - q.0 && step.1 * g
                == p.1 - q.1;
        let back = (-step.0, -step.1);
        lemma_gcd_of_opposite(p.0 - q.0, p.1 - q.1, g);
        assert(is_gcd(q.0 - p.0, q.1 - p.1, g));
        assert(back.0 * g == q.0 - p.0 && back.1 * g == q.1 - p.1) by (nonlinear_arith)
            requires
                step.0 * g == p.0 - q.0,
                step.1 * g == p.1 - q.1,
                back.0 == -step.0,
                back.1 == -step.1,
        ;
        assert(is_step(q, p, back));
        assert(k * step.0 == (-k) * back.0 && k * step.1 == (-k) * back.1 && (-k) * step.0 == k
            * back.0 && (-k) * step.1 == k * back.1) by (nonlinear_arith)
            requires
                back.0 == -step.0,
                back.1 == -step.1,
        ;
        if along(p, step, k, at) {
            assert(along(p, back, -k, at));
        } else {
            assert(along(q, back, k, at));
        }
        assert(lines_up(q, p, back, k, at));
    }
}

/// The greatest common divisor of two numbers is that of their opposites.
proof fn lemma_gcd_of_opposite(a: int, b: int, g: int)
    requires
        is_gcd(a, b, g),
    ensures
        is_gcd(-a, -b, g),
{
    if !(a == 0 && b == 0) {
        lemma_divides_opposite(a, g);
        lemma_divides_opposite(b, g);
        assert forall|d: int| d > 0 && #[trigger] ((-a) % d) == 0 && (-b) % d == 0 implies d <= g by {
            lemma_divides_opposite(-a, d);
            lemma_divides_opposite(-b, d);
            assert(a % d == 0);
        }
    }
}

/// What divides a number divides its opposite.
proof fn lemma_divides_opposite(a: int, d: int)
    requires
        d > 0,
        a % d == 0,
    ensures
        (-a) % d == 0,
{
    vstd::arithmetic::div_mod::lemma_fundamental_div_mod(a, d);
    let q = a / d;
    assert(-a == (-q) * d + 0) by (nonlinear_arith)
        requires
            a == d * q,
    ;
    vstd::arithmetic::div_mod::lemma_fundamental_div_mod_converse(-a, d, -q, 0);
}

/// Set the mark of a cell.
fn mark(grid: &Grid<char>, marks: &mut Vec<bool>, at: &Position)
    requires
        grid.wf(),
        grid.spec_valid_position(*at),
        old(marks)@.len() == grid@.cells.len(),
    ensures
        final(marks)@ == old(marks)@.update(grid@.index_of(*at), true),
        final(marks)@.len() == old(marks)@.len(),
{
    let index = grid.unchecked_index(at);
    marks[index] = true;
}

/// The number of marks that are set.
fn count_marks(marks: &Vec<bool>) -> (r: usize)
    ensures
        r == count(marks@.len() as int, |i: int| marks@[i]),
{
    let ghost set = |i: int| marks@[i];
    let mut total: usize = 0;
    let mut i: usize = 0;
    while i < marks.len()
        invariant
            i <= marks@.len(),
            set == |i: int| marks@[i],
            total == count(i as int, set),
            total <= i,
        decreases marks@.len() - i,
    {
        if marks[i] {
            total += 1;
        }
        i += 1;
    }
    total
}

/// The offset from `q` to `p`.
fn offset(grid: &Grid<char>, p: &Position, q: &Position) -> (r: Point)
    requires
        grid.wf(),
        grid@.cells.len() <= most_cells(),
        grid.spec_valid_position(*p),
        grid.spec_valid_position(*q),
    ensures
        r@ == (p.0 - q.0, p.1 - q.1),
        -most_cells() <= r.0 <= most_cells(),
        -most_cells() <= r.1 <= most_cells(),
{
    proof {
        lemma_small(grid@, *p);
        lemma_small(grid@, *q);
    }
    Point(p.0 as isize - q.0 as isize, p.1 as isize - q.1 as isize)
}

/// The cells of a map of few cells have small coordinates.
proof fn lemma_small(grid: GridView<char>, at: Position)
    requires
        grid.wf(),
        grid.cells.len() <= most_cells(),
        grid.valid(at),
    ensures
        at.0 < most_cells(),
        at.1 < most_cells(),
{
    assert(grid.lines <= grid.lines * grid.columns && grid.columns <= grid.lines * grid.columns)
        by (nonlinear_arith)
        requires
            grid.lines >= 1,
            grid.columns >= 1,
    ;
}

/// Mark the cells that the pair makes antinodes of in the near way.
fn mark_pair(grid: &Grid<char>, marks: &mut Vec<bool>, a1: &Position, a2: &Position)
    requires
        grid.wf(),
        grid@.cells.len() <= most_cells(),
        antenna(grid@, *a1),
        antenna(grid@, *a2),
        *a1 != *a2,
        old(marks)@.len() == grid@.cells.len(),
    ensures
        final(marks)@.len() == old(marks)@.len(),
        forall|at: Position|
            grid@.valid(at) ==> #[trigger] final(marks)@[grid@.index_of(at)] == (old(
                marks,
            )@[grid@.index_of(at)] || hits(grid@, false, *a1, *a2, at)),
{
    if *grid.unchecked_get(a1) == *grid.unchecked_get(a2) {
        let d = offset(grid, a1, a2);
        if let Some(h1) = grid.step(a1, &d) {
            mark(grid, marks, &h1);
        }
        let e = offset(grid, a2, a1);
        if let Some(h2) = grid.step(a2, &e) {
            mark(grid, marks, &h2);
        }
    }
    proof {
        assert forall|at: Position| grid@.valid(at) implies #[trigger] marks@[grid@.index_of(at)]
            == (old(marks)@[grid@.index_of(at)] || hits(grid@, false, *a1, *a2, at)) by {
            grid@.lemma_position_round_trip(at);
            let h1 = moved(*a1, a1.0 - a2.0, a1.1 - a2.1);
            let h2 = moved(*a2, a2.0 - a1.0, a2.1 - a1.1);
            if h1 is Some && grid@.valid(h1->0) {
                grid@.lemma_position_round_trip(h1->0);
                if grid@.index_of(h1->0) == grid@.index_of(at) {
                    grid@.lemma_index_injective(h1->0, at);
                }
            }
            if h2 is Some && grid@.valid(h2->0) {
                grid@.lemma_position_round_trip(h2->0);
                if grid@.index_of(h2->0) == grid@.index_of(at) {
                    grid@.lemma_index_injective(h2->0, at);
                }
            }
        }
    }
}

/// The cells that are antinodes, by their indices: far ones as well as near
/// ones where `far` is true.
pub fn antinodes(grid: &Grid<char>, antennas: &Vec<Position>, far: bool) -> (r: Vec<bool>)
    requires
        grid.wf(),
        grid@.cells.len() <= most_cells(),
        antennas_of(grid@, antennas@),
    ensures
        r@.len() == grid@.cells.len(),
        forall|at: Position|
            grid@.valid(at) ==> (#[trigger] r@[grid@.index_of(at)] <==> exists|
                p: Position,
                q: Position,
            | #[trigger] hits(grid@, far, p, q, at)),
{
    let size = grid.size();
    let all = pairs(antennas);
    let mut marks: Vec<bool> = Vec::new();
    let mut i: usize = 0;
    while i < size
        invariant
            i <= size,
            marks@.len() == i,
            forall|k: int| 0 <= k < i ==> !#[trigger] marks@[k],
        decreases size - i,
    {
        marks.push(false);
        i += 1;
    }
    proof {
        assert forall|at: Position| grid@.valid(at) implies !marks@[grid@.index_of(at)] by {
            grid@.lemma_position_round_trip(at);
        }
    }
    let mut m: usize = 0;
    while m < all.len()
        invariant
            m <= all@.len(),
            grid.wf(),
            grid@.cells.len() <= most_cells(),
            antennas_of(grid@, antennas@),
            all@ == pairs_of(antennas@),
            marked(grid@, all@, m as int, marks@, far),
        decreases all@.len() - m,
    {
        let (a1, a2) = all[m];
        let ghost before = marks@;
        proof {
            lemma_pair_has_items(antennas@, m as int);
            let (i, j) = items_of_pair(antennas@.len() as int, m as int);
            assert(antenna(grid@, antennas@[i]) && antenna(grid@, antennas@[j]));
            assert(grid@.index_of(antennas@[i]) < grid@.index_of(antennas@[j]));
        }
        if far {
            mark_lines(grid, &mut marks, &a1, &a2);
        } else {
            mark_pair(grid, &mut marks, &a1, &a2);
        }
        proof {
            lemma_one_more_pair(grid@, all@, m as int, before, marks@, far);
        }
        m += 1;
    }
    proof {
        assert forall|at: Position| grid@.valid(at) implies (#[trigger] marks@[grid@.index_of(at)]
            <==> exists|p: Position, q: Position| #[trigger] hits(grid@, far, p, q, at)) by {
            lemma_all_pairs(grid@, antennas@, marks@, far, at);
        }
    }
    marks
}

/// Mark the cells that the pair makes antinodes of in the far way.
fn mark_lines(grid: &Grid<char>, marks: &mut Vec<bool>, a1: &Position, a2: &Position)
    requires
        grid.wf(),
        grid@.cells.len() <= most_cells(),
        antenna(grid@, *a1),
        antenna(grid@, *a2),
        *a1 != *a2,
        old(marks)@.len() == grid@.cells.len(),
    ensures
        final(marks)@.len() == old(marks)@.len(),
        forall|at: Position|
            grid@.valid(at) ==> #[trigger] final(marks)@[grid@.index_of(at)] == (old(
                marks,
            )@[grid@.index_of(at)] || hits(grid@, true, *a1, *a2, at)),
{
    if *grid.unchecked_get(a1) != *grid.unchecked_get(a2) {
        return ;
    }
    let d = offset(grid, a1, a2);
    let g = gcd(d.0, d.1);
    let ghost step = (d.0 as int / g as int, d.1 as int / g as int);
    proof {
        assert(g > 0);
        vstd::arithmetic::div_mod::lemma_fundamental_div_mod(d.0 as int, g as int);
        vstd::arithmetic::div_mod::lemma_fundamental_div_mod(d.1 as int, g as int);
        assert(step.0 * g == d.0 && step.1 * g == d.1) by (nonlinear_arith)
            requires
                d.0 == g * step.0,
                d.1 == g * step.1,
        ;
        assert(is_step(*a1, *a2, step));
        assert(-most_cells() <= step.0 <= most_cells() && -most_cells() <= step.1 <= most_cells())
            by (nonlinear_arith)
            requires
                step.0 * g == d.0,
                step.1 * g == d.1,
                g > 0,
                -most_cells() <= d.0 <= most_cells(),
                -most_cells() <= d.1 <= most_cells(),
        ;
        assert(a1.0 != a2.0 || a1.1 != a2.1);
        assert(step != (0int, 0int)) by {
            if step.0 == 0 && step.1 == 0 {
                assert(0 * g == 0);
            }
        }
    }
    let dx = match divide(d.0 as i128, g as i128) {
        Some(q) => q as isize,
        None => 0,
    };
    let dy = match divide(d.1 as i128, g as i128) {
        Some(q) => q as isize,
        None => 0,
    };
    proof {
        lemma_quotient(d.0 as int, g as int, step.0);
        lemma_quotient(d.1 as int, g as int, step.1);
    }
    let ghost before = marks@;
    mark_ray(grid, marks, a1, Point(dx, dy), Ghost(step), Ghost(1));
    let ghost middle = marks@;
    mark_ray(grid, marks, a2, Point(-dx, -dy), Ghost(step), Ghost(-1));
    proof {
        assert forall|at: Position| grid@.valid(at) implies #[trigger] marks@[grid@.index_of(at)]
            == (before[grid@.index_of(at)] || hits(grid@, true, *a1, *a2, at)) by {
            assert(marks@[grid@.index_of(at)] == (middle[grid@.index_of(at)] || exists|k: int|
                k >= 0 && #[trigger] along(*a2, step, -1 * k, at)));
            assert(middle[grid@.index_of(at)] == (before[grid@.index_of(at)] || exists|k: int|
                k >= 0 && #[trigger] along(*a1, step, 1 * k, at)));
            if exists|k: int| k >= 0 && #[trigger] along(*a2, step, -1 * k, at) {
                let k = choose|k: int| k >= 0 && #[trigger] along(*a2, step, -1 * k, at);
                assert(along(*a2, step, -k, at));
                assert(lines_up(*a1, *a2, step, k, at));
            }
            if exists|k: int| k >= 0 && #[trigger] along(*a1, step, 1 * k, at) {
                let k = choose|k: int| k >= 0 && #[trigger] along(*a1, step, 1 * k, at);
                assert(along(*a1, step, k, at));
                assert(lines_up(*a1, *a2, step, k, at));
            }
            if resonates(grid@, *a1, *a2, at) {
                let (other, k) = choose|other: (int, int), k: int|
                    #[trigger] lines_up(*a1, *a2, other, k, at);
                lemma_step_unique(*a1, *a2, step, other);
                if along(*a1, step, k, at) {
                    assert(along(*a1, step, 1 * k, at));
                } else {
                    assert(along(*a2, step, -1 * k, at));
                }
            }
        }
    }
}

/// There is one least step between two cells.
proof fn lemma_step_unique(p: Position, q: Position, a: (int, int), b: (int, int))
    requires
        p != q,
        is_step(p, q, a),
        is_step(p, q, b),
    ensures
        a == b,
{
    let g = choose|g: int|
        #[trigger] is_gcd(p.0 - q.0, p.1 - q.1, g) && a.0 * g == p.0 - q.0 && a.1 * g == p.1 - q.1;
    let h = choose|h: int|
        #[trigger] is_gcd(p.0 - q.0, p.1 - q.1, h) && b.0 * h == p.0 - q.0 && b.1 * h == p.1 - q.1;
    assert(p.0 != q.0 || p.1 != q.1);
    assert((p.0 - q.0) % g == 0);
    assert((p.0 - q.0) % h == 0);
    assert(g == h);
    assert(g * a.0 == g * b.0 && g * a.1 == g * b.1) by (nonlinear_arith)
        requires
            a.0 * g == b.0 * g,
            a.1 * g == b.1 * g,
    ;
    vstd::arithmetic::mul::lemma_mul_equality_converse(g, a.0, b.0);
    vstd::arithmetic::mul::lemma_mul_equality_converse(g, a.1, b.1);
}

/// Mark the cells from `from` on, one step further each, as far as the grid
/// goes. The step is `sign` times the least step `unit`.
fn mark_ray(
    grid: &Grid<char>,
    marks: &mut Vec<bool>,
    from: &Position,
    step: Point,
    Ghost(unit): Ghost<(int, int)>,
    Ghost(sign): Ghost<int>,
)
    requires
        grid.wf(),
        grid@.cells.len() <= most_cells(),
        grid.spec_valid_position(*from),
        old(marks)@.len() == grid@.cells.len(),
        sign == 1 || sign == -1,
        step@ == (sign * unit.0, sign * unit.1),
        unit != (0int, 0int),
    ensures
        final(marks)@.len() == old(marks)@.len(),
        forall|at: Position|
            grid@.valid(at) ==> #[trigger] final(marks)@[grid@.index_of(at)] == (old(
                marks,
            )@[grid@.index_of(at)] || exists|k: int| k >= 0 && #[trigger] along(*from, unit, sign * k, at)),
{
    let ghost before = marks@;
    let mut at = Some(*from);
    let ghost mut n: int = 0;
    proof {
        lemma_small(grid@, *from);
        assert(sign * 0 == 0);
        assert(0 * unit.0 == 0 && 0 * unit.1 == 0) by (nonlinear_arith);
    }
    loop
        invariant
            grid.wf(),
            grid@.cells.len() <= most_cells(),
            grid@.valid(*from),
            sign == 1 || sign == -1,
            step@ == (sign * unit.0, sign * unit.1),
            unit != (0int, 0int),
            n >= 0,
            before == old(marks)@,
            marks@.len() == before.len(),
            before.len() == grid@.cells.len(),
            match at {
                Some(here) => grid@.valid(here) && along(*from, unit, sign * n, here),
                None => !(grid@.lines > from.0 + (sign * n) * unit.0 >= 0 && grid@.columns > from.1
                    + (sign * n) * unit.1 >= 0),
            },
            forall|cell: Position|
                grid@.valid(cell) ==> #[trigger] marks@[grid@.index_of(cell)] == (before[grid@.index_of(
                    cell,
                )] || exists|k: int| 0 <= k < n && #[trigger] along(*from, unit, sign * k, cell)),
        decreases
                match at {
                    Some(here) => 1 + (if unit.0 * sign > 0 {
                        grid@.lines - here.0
                    } else if unit.0 * sign < 0 {
                        here.0 + 1
                    } else if unit.1 * sign > 0 {
                        grid@.columns - here.1
                    } else {
                        here.1 + 1
                    }),
                    None => 0,
                },
    {
        let here = match at {
            Some(here) => here,
            None => {
                proof {
                    assert forall|cell: Position| grid@.valid(cell) implies #[trigger] marks@[grid@.index_of(
                        cell,
                    )] == (before[grid@.index_of(cell)] || exists|k: int|
                        k >= 0 && #[trigger] along(*from, unit, sign * k, cell)) by {
                        if exists|k: int| k >= 0 && #[trigger] along(*from, unit, sign * k, cell) {
                            let k = choose|k: int|
                                k >= 0 && #[trigger] along(*from, unit, sign * k, cell);
                            if k >= n {
                                lemma_between(grid@, *from, unit, sign, n, k, cell);
                            }
                        }
                    }
                }
                return ;
            },
        };
        let ghost old_marks = marks@;
        mark(grid, marks, &here);
        proof {
            lemma_small(grid@, here);
            assert((sign * (n + 1)) * unit.0 == (sign * n) * unit.0 + sign * unit.0 && (sign * (n
                + 1)) * unit.1 == (sign * n) * unit.1 + sign * unit.1) by (nonlinear_arith);
            assert forall|cell: Position| grid@.valid(cell) implies #[trigger] marks@[grid@.index_of(
                cell,
            )] == (before[grid@.index_of(cell)] || exists|k: int|
                0 <= k < n + 1 && #[trigger] along(*from, unit, sign * k, cell)) by {
                grid@.lemma_position_round_trip(cell);
                grid@.lemma_position_round_trip(here);
                if grid@.index_of(cell) == grid@.index_of(here) {
                    grid@.lemma_index_injective(cell, here);
                    assert(along(*from, unit, sign * n, cell));
                }
                if exists|k: int| 0 <= k < n && #[trigger] along(*from, unit, sign * k, cell) {
                    let k = choose|k: int| 0 <= k < n && #[trigger] along(*from, unit, sign * k, cell);
                    assert(along(*from, unit, sign * k, cell));
                }
                if exists|k: int| 0 <= k < n + 1 && #[trigger] along(*from, unit, sign * k, cell) {
                    let k = choose|k: int|
                        0 <= k < n + 1 && #[trigger] along(*from, unit, sign * k, cell);
                    if k == n {
                        assert(cell == here);
                    } else {
                        assert(along(*from, unit, sign * k, cell));
                    }
                }
            }
        }
        at = grid.step(&here, &step);
        proof {
            n = n + 1;
            assert(unit.0 * sign == sign * unit.0 && unit.1 * sign == sign * unit.1) by (nonlinear_arith);
        }
    }
}

/// A cell of the grid that is `k` steps from `from` has only cells of the grid
/// between `from` and it.
proof fn lemma_between(
    grid: GridView<char>,
    from: Position,
    unit: (int, int),
    sign: int,
    n: int,
    k: int,
    cell: Position,
)
    requires
        grid.valid(from),
        grid.valid(cell),
        0 <= n <= k,
        along(from, unit, sign * k, cell),
    ensures
        grid.lines > from.0 + (sign * n) * unit.0 >= 0,
        grid.columns > from.1 + (sign * n) * unit.1 >= 0,
{
    let a = sign * unit.0;
    let b = sign * unit.1;
    assert((sign * n) * unit.0 == n * a && (sign * k) * unit.0 == k * a && (sign * n) * unit.1 == n
        * b && (sign * k) * unit.1 == k * b) by (nonlinear_arith)
        requires
            a == sign * unit.0,
            b == sign * unit.1,
    ;
    assert((0 <= n * a <= k * a) || (k * a <= n * a <= 0)) by (nonlinear_arith)
        requires
            0 <= n <= k,
    ;
    assert((0 <= n * b <= k * b) || (k * b <= n * b <= 0)) by (nonlinear_arith)
        requires
            0 <= n <= k,
    ;
}

/// The number of cells that are antinodes: far ones as well as near ones where
/// `far` is true.
pub open spec fn antinode_count(grid: GridView<char>, far: bool) -> int {
    count(
        grid.cells.len() as int,
        |i: int| exists|p: Position, q: Position| #[trigger] hits(grid, far, p, q, grid.position_of(i)),
    )
}

/// The number of cells that are antinodes.
pub fn count_antinodes(grid: &Grid<char>, antennas: &Vec<Position>, far: bool) -> (r: usize)
    requires
        grid.wf(),
        grid@.cells.len() <= most_cells(),
        antennas_of(grid@, antennas@),
    ensures
        r == antinode_count(grid@, far),
{
    let marks = antinodes(grid, antennas, far);
    proof {
        assert forall|i: int| 0 <= i < marks@.len() implies marks@[i] == (exists|
            p: Position,
            q: Position,
        | #[trigger] hits(grid@, far, p, q, grid@.position_of(i))) by {
            grid@.lemma_index_round_trip(i);
            let at = grid@.position_of(i);
            assert(marks@[grid@.index_of(at)] <==> exists|p: Position, q: Position|
                #[trigger] hits(grid@, far, p, q, at));
        }
        crate::etc::count::lemma_count_agrees(
            marks@.len() as int,
            |i: int| marks@[i],
            |i: int|
                exists|p: Position, q: Position|
                    #[trigger] hits(grid@, far, p, q, grid@.position_of(i)),
        );
    }
    count_marks(&marks)
}

pub fn solve_part1(input: &str) -> (r: usize)
    requires
        well_formed(words(input@)),
    ensures
        r == antinode_count(text_grid(words(input@)), false),
{
    let (grid, antennas) = prepare(input);
    count_antinodes(&grid, &antennas, false)
}

pub fn solve_part2(input: &str) -> (r: usize)
    requires
        well_formed(words(input@)),
    ensures
        r == antinode_count(text_grid(words(input@)), true),
{
    let (grid, antennas) = prepare(input);
    count_antinodes(&grid, &antennas, true)
}

pub fn solve(input: String) -> (r: SolutionPair)
    requires
        well_formed(words(input@)),
    ensures
        r.0 == Solution::Usize(antinode_count(text_grid(words(input@)), false) as usize),
        r.1 == Solution::Usize(antinode_count(text_grid(words(input@)), true) as usize),
{
    let sol1 = solve_part1(input.as_str());
    let sol2 = solve_part2(input.as_str());
    (Solution::Usize(sol1), Solution::Usize(sol2))
}

} // verus!
