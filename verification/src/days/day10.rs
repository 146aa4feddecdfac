use crate::days::day18::{linked, neighbour};
use crate::etc::chart::mapped;
use crate::etc::count::{count, sum};
use crate::etc::grid::{
    rectangular, taxicab_directions, taxicab_directions_spec, text_grid, Grid, GridView, Position,
};
use crate::etc::number::{digit, digit_value, is_digit, is_digit_char};
use crate::etc::solution::{Solution, SolutionPair};
use crate::etc::text::words;
use vstd::prelude::*;

verus! {

pub type Heights = Grid<u32>;

/// The rows are of one width and made of digits, and the cells are few enough
/// for the trails to be counted.
pub open spec fn well_formed(rows: Seq<Seq<char>>) -> bool {
    &&& rectangular(rows)
    &&& forall|i: int|
        0 <= i < text_grid(rows).cells.len() ==> is_digit(#[trigger] text_grid(rows).cells[i])
    &&& text_grid(rows).cells.len() <= most_cells()
}

/// The most cells that a map can have for its trails to be counted.
pub open spec fn most_cells() -> int {
    0x2000
}

/// The map of heights that the rows draw.
pub open spec fn heights_of(rows: Seq<Seq<char>>) -> GridView<u32> {
    mapped(text_grid(rows), |c: char| digit(c) as u32)
}

/// Read the map of heights, or `None` where the text is not well formed.
pub fn parse(input: &str) -> (r: Option<Heights>)
    ensures
        match r {
            Some(map) => well_formed(words(input@)) && map.wf() && map@ == heights_of(words(input@)),
            None => !well_formed(words(input@)),
        },
{
    let grid = match Grid::try_new(input) {
        Some(grid) => grid,
        None => {
            return None;
        },
    };
    if grid.size() > 0x2000 {
        return None;
    }
    let ghost cells = text_grid(words(input@)).cells;
    assert(cells == grid.items@);
    let mut items: Vec<u32> = Vec::new();
    let mut i: usize = 0;
    while i < grid.items.len()
        invariant
            i <= grid.items@.len(),
            items@.len() == i,
            cells == grid.items@,
            cells == text_grid(words(input@)).cells,
            forall|k: int| 0 <= k < i ==> is_digit(#[trigger] grid.items@[k]),
            forall|k: int| 0 <= k < i ==> #[trigger] items@[k] == digit(grid.items@[k]) as u32,
        decreases grid.items@.len() - i,
    {
        let c = grid.items[i];
        if !is_digit_char(c) {
            assert(!is_digit(cells[i as int]));
            return None;
        }
        items.push(digit_value(c) as u32);
        i += 1;
    }
    let map = Grid { lines: grid.lines, columns: grid.columns, items };
    assert(map@.cells =~= heights_of(words(input@)).cells);
    assert forall|i: int| 0 <= i < cells.len() implies is_digit(#[trigger] cells[i]) by {
        assert(is_digit(grid.items@[i]));
    }
    Some(map)
}

/// Read the map of heights.
pub fn prepare(input: &str) -> (r: Heights)
    requires
        well_formed(words(input@)),
    ensures
        r.wf(),
        r@ == heights_of(words(input@)),
{
    match parse(input) {
        Some(map) => map,
        None => Grid { lines: 0, columns: 0, items: Vec::new() },
    }
}

/// `to` is next to `from` and one higher.
pub open spec fn rises(map: GridView<u32>, from: Position, to: Position) -> bool {
    map.valid(from) && linked(map, from, to) && map.cell(to) == map.cell(from) + 1
}

/// There are `n` steps from `from` to `to`, each to a cell next to the one
/// before and one higher.
pub open spec fn climbs(map: GridView<u32>, from: Position, to: Position, n: nat) -> bool
    decreases n,
{
    if n == 0 {
        from == to && map.valid(from)
    } else {
        exists|via: Position| climbs(map, from, via, (n - 1) as nat) && #[trigger] rises(map, via, to)
    }
}

/// The number of cells that nine steps up from `head` lead to.
pub open spec fn score(map: GridView<u32>, head: Position) -> int {
    count(map.cells.len() as int, |i: int| climbs(map, head, map.position_of(i), 9))
}

/// The sum of the scores of the cells of height zero.
pub open spec fn part1(map: GridView<u32>) -> int {
    sum(
        map.cells.len() as int,
        |i: int|
            if map.cells[i] == 0 {
                score(map, map.position_of(i))
            } else {
                0
            },
    )
}

/// The number of ways that lead up from `from` in the direction `d` and on for
/// `n` steps in all.
pub open spec fn ways_by(map: GridView<u32>, from: Position, n: nat, d: int) -> nat
    decreases n, 0int,
{
    if n == 0 {
        0
    } else {
        match neighbour(map, from, d) {
            Some(to) => if map.cell(to) == map.cell(from) + 1 {
                ways(map, to, (n - 1) as nat)
            } else {
                0
            },
            None => 0,
        }
    }
}

/// The number of ways of `n` steps from `from`, each to a cell next to the one
/// before and one higher.
pub open spec fn ways(map: GridView<u32>, from: Position, n: nat) -> nat
    decreases n, 1int,
{
    if n == 0 {
        1
    } else {
        ways_by(map, from, n, 0) + ways_by(map, from, n, 1) + ways_by(map, from, n, 2) + ways_by(
            map,
            from,
            n,
            3,
        )
    }
}

/// The sum, over the cells of height zero, of the number of ways of nine steps
/// up from them.
pub open spec fn part2(map: GridView<u32>) -> int {
    sum(
        map.cells.len() as int,
        |i: int|
            if map.cells[i] == 0 {
                ways(map, map.position_of(i), 9) as int
            } else {
                0
            },
    )
}

/// Four to the power of `n`.
pub open spec fn pow4(n: nat) -> nat
    decreases n,
{
    if n == 0 {
        1
    } else {
        4 * pow4((n - 1) as nat)
    }
}

/// There are at most four to the power of `n` ways of `n` steps.
pub proof fn lemma_ways_bound(map: GridView<u32>, from: Position, n: nat)
    ensures
        ways(map, from, n) <= pow4(n),
    decreases n,
{
    if n > 0 {
        let m = (n - 1) as nat;
        assert forall|d: int| 0 <= d < 4 implies #[trigger] ways_by(map, from, n, d) <= pow4(m) by {
            match neighbour(map, from, d) {
                Some(to) => {
                    lemma_ways_bound(map, to, m);
                },
                None => {},
            }
        }
        assert(ways_by(map, from, n, 0) <= pow4(m));
        assert(ways_by(map, from, n, 1) <= pow4(m));
        assert(ways_by(map, from, n, 2) <= pow4(m));
        assert(ways_by(map, from, n, 3) <= pow4(m));
    }
}

/// Four to the power of nine.
pub proof fn lemma_pow4_nine()
    ensures
        pow4(9) == 262144,
{
    reveal_with_fuel(pow4, 10);
}

/// For each cell, by its index, whether `n` steps up from `head` lead to it.
pub open spec fn reached(map: GridView<u32>, head: Position, n: nat, marks: Seq<bool>) -> bool {
    &&& marks.len() == map.cells.len()
    &&& forall|i: int|
        0 <= i < marks.len() ==> (#[trigger] marks[i] <==> climbs(map, head, map.position_of(i), n))
}

/// One more step up: the cells that are next to a marked cell and one higher.
fn step_up(map: &Heights, marks: &Vec<bool>, Ghost(head): Ghost<Position>, Ghost(n): Ghost<nat>) -> (r:
    Vec<bool>)
    requires
        map.wf(),
        reached(map@, head, n, marks@),
    ensures
        reached(map@, head, n + 1, r@),
{
    let directions = taxicab_directions();
    let size = map.size();
    let mut next: Vec<bool> = Vec::new();
    let mut j: usize = 0;
    while j < size
        invariant
            j <= size,
            size == map@.cells.len(),
            map.wf(),
            reached(map@, head, n, marks@),
            directions@.len() == 4,
            forall|d: int|
                0 <= d < 4 ==> (#[trigger] directions@[d])@ == taxicab_directions_spec()[d],
            next@.len() == j,
            forall|i: int|
                0 <= i < j ==> (#[trigger] next@[i] <==> climbs(map@, head, map@.position_of(i), n + 1)),
        decreases size - j,
    {
        let to = map.unchecked_position(j);
        let height = *map.unchecked_get(&to);
        let mut found = false;
        let mut d: usize = 0;
        while d < 4
            invariant
                d <= 4,
                j < size,
                size == map@.cells.len(),
                map.wf(),
                map@.valid(to),
                to == map@.position_of(j as int),
                height == map@.cell(to),
                reached(map@, head, n, marks@),
                directions@.len() == 4,
                forall|d: int|
                    0 <= d < 4 ==> (#[trigger] directions@[d])@ == taxicab_directions_spec()[d],
                found <==> exists|e: int|
                    0 <= e < d && #[trigger] comes_from(map@, head, n, to, e),
            decreases 4 - d,
        {
            match map.step(&to, &directions[d]) {
                Some(via) => {
                    let index = map.unchecked_index(&via);
                    let lower = *map.unchecked_get(&via);
                    if marks[index] && lower < u32::MAX && lower + 1 == height {
                        assert(comes_from(map@, head, n, to, d as int));
                        found = true;
                    }
                },
                None => {},
            }
            d += 1;
        }
        proof {
            lemma_comes_from(map@, head, n, to);
        }
        next.push(found);
        j += 1;
    }
    next
}

/// A cell from which `n` steps up from `head` lead is next to `to` in the
/// direction `e`, and one lower.
pub open spec fn comes_from(map: GridView<u32>, head: Position, n: nat, to: Position, e: int) -> bool {
    match neighbour(map, to, e) {
        Some(via) => climbs(map, head, via, n) && map.cell(to) == map.cell(via) + 1,
        None => false,
    }
}

/// One more step leads to a cell exactly where a cell next to it, and one lower,
/// is led to.
pub proof fn lemma_comes_from(map: GridView<u32>, head: Position, n: nat, to: Position)
    requires
        map.valid(to),
    ensures
        climbs(map, head, to, n + 1) <==> exists|e: int|
            0 <= e < 4 && #[trigger] comes_from(map, head, n, to, e),
{
    if climbs(map, head, to, n + 1) {
        let via = choose|via: Position|
            climbs(map, head, via, ((n + 1) - 1) as nat) && #[trigger] rises(map, via, to);
        let d = choose|d: int| 0 <= d < 4 && #[trigger] neighbour(map, via, d) == Some(to);
        assert(neighbour(map, to, (d + 2) % 4) == Some(via));
        assert(comes_from(map, head, n, to, (d + 2) % 4));
    }
    if exists|e: int| 0 <= e < 4 && #[trigger] comes_from(map, head, n, to, e) {
        let e = choose|e: int| 0 <= e < 4 && #[trigger] comes_from(map, head, n, to, e);
        let via = neighbour(map, to, e)->0;
        assert(neighbour(map, via, (e + 2) % 4) == Some(to));
        assert(rises(map, via, to));
        assert(climbs(map, head, via, ((n + 1) - 1) as nat));
    }
}

/// The number of cells that nine steps up from `head` lead to.
pub fn trail_score(map: &Heights, head: &Position) -> (r: usize)
    requires
        map.wf(),
        map.spec_valid_position(*head),
    ensures
        r == score(map@, *head),
        r <= map@.cells.len(),
{
    let size = map.size();
    let root = map.unchecked_index(head);
    let mut marks: Vec<bool> = Vec::new();
    let mut i: usize = 0;
    while i < size
        invariant
            i <= size,
            marks@.len() == i,
            forall|k: int| 0 <= k < i ==> (#[trigger] marks@[k] <==> k == root),
        decreases size - i,
    {
        marks.push(i == root);
        i += 1;
    }
    proof {
        assert forall|i: int| 0 <= i < marks@.len() implies (#[trigger] marks@[i] <==> climbs(
            map@,
            *head,
            map@.position_of(i),
            0,
        )) by {
            map@.lemma_index_round_trip(i);
            map@.lemma_position_round_trip(*head);
        }
    }
    let mut n: usize = 0;
    while n < 9
        invariant
            n <= 9,
            map.wf(),
            reached(map@, *head, n as nat, marks@),
        decreases 9 - n,
    {
        marks = step_up(map, &marks, Ghost(*head), Ghost(n as nat));
        n += 1;
    }
    let ghost top = |i: int| climbs(map@, *head, map@.position_of(i), 9);
    let mut total: usize = 0;
    let mut j: usize = 0;
    while j < size
        invariant
            j <= size,
            size == map@.cells.len(),
            reached(map@, *head, 9, marks@),
            top == |i: int| climbs(map@, *head, map@.position_of(i), 9),
            total == count(j as int, top),
            total <= j,
        decreases size - j,
    {
        if marks[j] {
            total += 1;
        }
        j += 1;
    }
    total
}

/// The sum of the scores of the cells of height zero.
pub fn sum_of_scores(map: &Heights) -> (r: usize)
    requires
        map.wf(),
        map@.cells.len() <= most_cells(),
    ensures
        r == part1(map@),
{
    let size = map.size();
    let ghost term = |i: int|
        if map@.cells[i] == 0 {
            score(map@, map@.position_of(i))
        } else {
            0
        };
    let mut total: usize = 0;
    let mut i: usize = 0;
    while i < size
        invariant
            i <= size,
            size == map@.cells.len(),
            size <= most_cells(),
            map.wf(),
            term == |i: int|
                if map@.cells[i] == 0 {
                    score(map@, map@.position_of(i))
                } else {
                    0
                },
            total == sum(i as int, term),
            total <= i * most_cells(),
        decreases size - i,
    {
        let root = map.unchecked_position(i);
        proof {
            assert(i * most_cells() + most_cells() <= usize::MAX) by (nonlinear_arith)
                requires
                    i < most_cells(),
                    most_cells() == 0x2000,
                    usize::MAX >= 0xFFFF_FFFF,
            ;
            assert((i + 1) * most_cells() == i * most_cells() + most_cells()) by (nonlinear_arith);
        }
        if *map.unchecked_get(&root) == 0 {
            total += trail_score(map, &root);
        }
        i += 1;
    }
    total
}

pub fn solve_part1(input: &str) -> (r: usize)
    requires
        well_formed(words(input@)),
    ensures
        r == part1(heights_of(words(input@))),
{
    let map = prepare(input);
    sum_of_scores(&map)
}


/// A power of four does not go down as the exponent goes up.
pub proof fn lemma_pow4_rises(n: nat, m: nat)
    requires
        n <= m,
    ensures
        1 <= pow4(n) <= pow4(m),
    decreases m,
{
    if n < m {
        lemma_pow4_rises(n, (m - 1) as nat);
    } else if n > 0 {
        lemma_pow4_rises((n - 1) as nat, (n - 1) as nat);
    }
}

/// For each cell, by its index, the number of ways of `n` steps up from it.
pub open spec fn counted(map: GridView<u32>, n: nat, table: Seq<usize>) -> bool {
    &&& table.len() == map.cells.len()
    &&& forall|i: int| 0 <= i < table.len() ==> #[trigger] table[i] == ways(map, map.position_of(i), n)
}

/// The number of ways of `n + 1` steps up from a cell in one direction, given
/// the numbers of ways of `n` steps.
fn ways_through(
    map: &Heights,
    table: &Vec<usize>,
    from: &Position,
    d: usize,
    Ghost(n): Ghost<nat>,
) -> (r: usize)
    requires
        map.wf(),
        map.spec_valid_position(*from),
        counted(map@, n, table@),
        d < 4,
    ensures
        r == ways_by(map@, *from, n + 1, d as int),
        r <= pow4(n),
{
    let directions = taxicab_directions();
    proof {
        lemma_pow4_rises(0, n);
    }
    match map.step(from, &directions[d]) {
        Some(to) => {
            let height = *map.unchecked_get(from);
            let index = map.unchecked_index(&to);
            if height < u32::MAX && *map.unchecked_get(&to) == height + 1 {
                proof {
                    lemma_ways_bound(map@, to, n);
                    assert(((n + 1) - 1) as nat == n);
                }
                table[index]
            } else {
                0
            }
        },
        None => 0,
    }
}

/// The numbers of ways of one more step.
fn more_ways(map: &Heights, table: &Vec<usize>, Ghost(n): Ghost<nat>) -> (r: Vec<usize>)
    requires
        map.wf(),
        counted(map@, n, table@),
        n < 9,
    ensures
        counted(map@, n + 1, r@),
{
    let size = map.size();
    let mut next: Vec<usize> = Vec::new();
    let mut j: usize = 0;
    proof {
        lemma_pow4_rises(n + 1, 9);
        lemma_pow4_nine();
    }
    while j < size
        invariant
            j <= size,
            size == map@.cells.len(),
            map.wf(),
            counted(map@, n, table@),
            4 * pow4(n) <= 262144,
            next@.len() == j,
            forall|i: int|
                0 <= i < j ==> #[trigger] next@[i] == ways(map@, map@.position_of(i), n + 1),
        decreases size - j,
    {
        let from = map.unchecked_position(j);
        let a = ways_through(map, table, &from, 0, Ghost(n));
        let b = ways_through(map, table, &from, 1, Ghost(n));
        let c = ways_through(map, table, &from, 2, Ghost(n));
        let d = ways_through(map, table, &from, 3, Ghost(n));
        next.push(a + b + c + d);
        j += 1;
    }
    next
}

/// For each cell, by its index, the number of ways of nine steps up from it.
pub fn ratings(map: &Heights) -> (r: Vec<usize>)
    requires
        map.wf(),
    ensures
        counted(map@, 9, r@),
        forall|i: int| 0 <= i < r@.len() ==> #[trigger] r@[i] <= 262144,
{
    let size = map.size();
    let mut table: Vec<usize> = Vec::new();
    let mut i: usize = 0;
    while i < size
        invariant
            i <= size,
            table@.len() == i,
            forall|k: int| 0 <= k < i ==> #[trigger] table@[k] == 1,
        decreases size - i,
    {
        table.push(1);
        i += 1;
    }
    let mut n: usize = 0;
    while n < 9
        invariant
            n <= 9,
            map.wf(),
            counted(map@, n as nat, table@),
        decreases 9 - n,
    {
        table = more_ways(map, &table, Ghost(n as nat));
        n += 1;
    }
    proof {
        lemma_pow4_nine();
        assert forall|i: int| 0 <= i < table@.len() implies #[trigger] table@[i] <= 262144 by {
            lemma_ways_bound(map@, map@.position_of(i), 9);
        }
    }
    table
}

/// The sum, over the cells of height zero, of the number of ways of nine steps
/// up from them.
pub fn sum_of_ratings(map: &Heights) -> (r: usize)
    requires
        map.wf(),
        map@.cells.len() <= most_cells(),
    ensures
        r == part2(map@),
{
    let size = map.size();
    let table = ratings(map);
    let ghost term = |i: int|
        if map@.cells[i] == 0 {
            ways(map@, map@.position_of(i), 9) as int
        } else {
            0
        };
    let mut total: usize = 0;
    let mut i: usize = 0;
    while i < size
        invariant
            i <= size,
            size == map@.cells.len(),
            size <= most_cells(),
            map.wf(),
            counted(map@, 9, table@),
            forall|i: int| 0 <= i < table@.len() ==> #[trigger] table@[i] <= 262144,
            term == |i: int|
                if map@.cells[i] == 0 {
                    ways(map@, map@.position_of(i), 9) as int
                } else {
                    0
                },
            total == sum(i as int, term),
            total <= i * 262144,
        decreases size - i,
    {
        let root = map.unchecked_position(i);
        if *map.unchecked_get(&root) == 0 {
            total += table[i];
        }
        i += 1;
    }
    total
}

pub fn solve_part2(input: &str) -> (r: usize)
    requires
        well_formed(words(input@)),
    ensures
        r == part2(heights_of(words(input@))),
{
    // count the ways from each cell to every reachable nine-cell
    let map = prepare(input);
    sum_of_ratings(&map)
}

pub fn solve(input: String) -> (r: SolutionPair)
    requires
        well_formed(words(input@)),
    ensures
        r.0 == Solution::Usize(part1(heights_of(words(input@))) as usize),
        r.1 == Solution::Usize(part2(heights_of(words(input@))) as usize),
{
    let sol1 = solve_part1(input.as_str());
    let sol2 = solve_part2(input.as_str());
    (Solution::Usize(sol1), Solution::Usize(sol2))
}

} // verus!
