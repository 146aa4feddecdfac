use crate::etc::count::count;
use crate::etc::grid::{
    all_directions, all_directions_spec, rectangular, text_grid, Grid, GridView, Point, Position,
};
use crate::etc::solution::{Solution, SolutionPair};
use crate::etc::text::words;
use vstd::prelude::*;

verus! {

/// Read the grid of letters.
pub fn prepare(input: &str) -> (r: Grid)
    requires
        rectangular(words(input@)),
    ensures
        r.wf(),
        r@ == text_grid(words(input@)),
{
    Grid::new(input)
}

/// The letters of `word` stand in the grid from `at` on, one step of `(dl, dc)`
/// further each.
pub open spec fn reads(grid: GridView<char>, at: Position, dl: int, dc: int, word: Seq<char>) -> bool {
    forall|i: int|
        0 <= i < word.len() ==> (#[trigger] grid.stepped(at, i * dl, i * dc)) is Some && grid.cell(
            grid.stepped(at, i * dl, i * dc)->0,
        ) == word[i]
}

/// The word that is looked for.
pub open spec fn xmas() -> Seq<char> {
    seq!['X', 'M', 'A', 'S']
}

/// The number of the eight directions in which the word stands from `at` on.
pub open spec fn words_from(grid: GridView<char>, at: Position) -> int {
    count(
        8,
        |d: int| reads(grid, at, all_directions_spec()[d].0, all_directions_spec()[d].1, xmas()),
    )
}

/// The number of times that the word stands in the grid, in any of the eight
/// directions.
pub open spec fn part1(grid: GridView<char>) -> int {
    crate::etc::count::sum(grid.cells.len() as int, |i: int| words_from(grid, grid.position_of(i)))
}

/// Whether the word `XMAS` stands in the grid from `at` on in the given
/// direction.
pub fn reads_xmas(grid: &Grid, at: &Position, step: &Point) -> (r: bool)
    requires
        grid.wf(),
    ensures
        r == reads(grid@, *at, step.0 as int, step.1 as int, xmas()),
{
    match grid.step_extract::<4>(at, step) {
        Some(found) => {
            proof {
                assert forall|i: int| 0 <= i < 4 implies (#[trigger] grid@.stepped(
                    *at,
                    i * step.0,
                    i * step.1,
                )) is Some && grid@.cell(grid@.stepped(*at, i * step.0, i * step.1)->0)
                    == found@[i] by {
                    assert(grid.ray(*at, step@, i) is Some);
                }
            }
            let r = found[0] == 'X' && found[1] == 'M' && found[2] == 'A' && found[3] == 'S';
            proof {
                if reads(grid@, *at, step.0 as int, step.1 as int, xmas()) {
                    assert(grid@.stepped(*at, 0 * step.0, 0 * step.1) is Some);
                    assert(grid@.stepped(*at, 1 * step.0, 1 * step.1) is Some);
                    assert(grid@.stepped(*at, 2 * step.0, 2 * step.1) is Some);
                    assert(grid@.stepped(*at, 3 * step.0, 3 * step.1) is Some);
                }
            }
            r
        },
        None => {
            proof {
                let i = choose|i: int| 0 <= i < 4 && (#[trigger] grid.ray(*at, step@, i)) is None;
                assert(grid@.stepped(*at, i * step.0, i * step.1) is None);
            }
            false
        },
    }
}

/// The number of times that the word stands in the grid.
pub fn count_xmas(grid: &Grid) -> (r: usize)
    requires
        grid.wf(),
        8 * grid@.cells.len() <= usize::MAX,
    ensures
        r == part1(grid@),
{
    let directions = all_directions();
    let size = grid.size();
    let ghost per_cell = |i: int| words_from(grid@, grid@.position_of(i));
    let mut total: usize = 0;
    let mut i: usize = 0;
    while i < size
        invariant
            i <= size,
            size == grid@.cells.len(),
            8 * size <= usize::MAX,
            grid.wf(),
            directions@.len() == 8,
            forall|d: int| 0 <= d < 8 ==> (#[trigger] directions@[d])@ == all_directions_spec()[d],
            per_cell == |i: int| words_from(grid@, grid@.position_of(i)),
            total == crate::etc::count::sum(i as int, per_cell),
            total <= 8 * i,
        decreases size - i,
    {
        let at = grid.unchecked_position(i);
        let ghost here = |d: int|
            reads(grid@, at, all_directions_spec()[d].0, all_directions_spec()[d].1, xmas());
        let mut found: usize = 0;
        let mut d: usize = 0;
        while d < 8
            invariant
                d <= 8,
                grid.wf(),
                directions@.len() == 8,
                forall|d: int|
                    0 <= d < 8 ==> (#[trigger] directions@[d])@ == all_directions_spec()[d],
                here == |d: int|
                    reads(grid@, at, all_directions_spec()[d].0, all_directions_spec()[d].1, xmas()),
                found == count(d as int, here),
                found <= d,
            decreases 8 - d,
        {
            if reads_xmas(grid, &at, &directions[d]) {
                found += 1;
            }
            d += 1;
        }
        total += found;
        i += 1;
    }
    total
}

pub fn solve_part1(input: &str) -> (r: usize)
    requires
        rectangular(words(input@)),
        8 * text_grid(words(input@)).cells.len() <= usize::MAX,
    ensures
        r == part1(text_grid(words(input@))),
{
    let grid = prepare(input);
    count_xmas(&grid)
}

/// The three letters at the given offsets from `at`, where all three are in the
/// grid, spell `MAS`.
pub open spec fn spells_mas(grid: GridView<char>, at: Position, dl: int, dc: int) -> bool {
    &&& grid.stepped(at, dl, dc) is Some
    &&& grid.stepped(at, 0, 0) is Some
    &&& grid.stepped(at, -dl, -dc) is Some
    &&& grid.cell(grid.stepped(at, dl, dc)->0) == 'M'
    &&& grid.cell(at) == 'A'
    &&& grid.cell(grid.stepped(at, -dl, -dc)->0) == 'S'
}

/// Both diagonals through `at` spell `MAS`, each in one direction or the other.
pub open spec fn is_cross(grid: GridView<char>, at: Position) -> bool {
    &&& spells_mas(grid, at, -1, -1) || spells_mas(grid, at, 1, 1)
    &&& spells_mas(grid, at, 1, -1) || spells_mas(grid, at, -1, 1)
}

/// The number of cells through which both diagonals spell `MAS`.
pub open spec fn part2(grid: GridView<char>) -> int {
    count(grid.cells.len() as int, |i: int| is_cross(grid, grid.position_of(i)))
}

/// Whether the cells from the given offset from `at`, over `at`, to the opposite
/// offset spell `MAS`.
pub fn reads_mas(grid: &Grid, at: &Position, dl: isize, dc: isize) -> (r: bool)
    requires
        grid.wf(),
        -1 <= dl <= 1,
        -1 <= dc <= 1,
    ensures
        r == spells_mas(grid@, *at, dl as int, dc as int),
{
    let deltas = [Point(dl, dc), Point(0, 0), Point(-dl, -dc)];
    match grid.deltas_extract(at, deltas) {
        Some(found) => {
            proof {
                assert(grid.stepped(*at, deltas@[0]@.0, deltas@[0]@.1) is Some);
                assert(grid.stepped(*at, deltas@[1]@.0, deltas@[1]@.1) is Some);
                assert(grid.stepped(*at, deltas@[2]@.0, deltas@[2]@.1) is Some);
            }
            found[0] == 'M' && found[1] == 'A' && found[2] == 'S'
        },
        None => {
            proof {
                let i = choose|i: int|
                    0 <= i < 3 && (#[trigger] grid.stepped(*at, deltas@[i]@.0, deltas@[i]@.1)) is None;
                if i == 0 {
                } else if i == 1 {
                } else {
                    assert(i == 2);
                }
            }
            false
        },
    }
}

/// The number of cells through which both diagonals spell `MAS`.
pub fn count_crosses(grid: &Grid) -> (r: usize)
    requires
        grid.wf(),
    ensures
        r == part2(grid@),
{
    let size = grid.size();
    let ghost cross = |i: int| is_cross(grid@, grid@.position_of(i));
    let mut total: usize = 0;
    let mut i: usize = 0;
    while i < size
        invariant
            i <= size,
            size == grid@.cells.len(),
            grid.wf(),
            cross == |i: int| is_cross(grid@, grid@.position_of(i)),
            total == count(i as int, cross),
            total <= i,
        decreases size - i,
    {
        let center = grid.unchecked_position(i);
        // check the first diagonal in both directions
        let diag1 = reads_mas(grid, &center, -1, -1) || reads_mas(grid, &center, 1, 1);
        // check the second diagonal in both directions
        let diag2 = reads_mas(grid, &center, 1, -1) || reads_mas(grid, &center, -1, 1);
        if diag1 && diag2 {
            total += 1;
        }
        i += 1;
    }
    total
}

pub fn solve_part2(input: &str) -> (r: usize)
    requires
        rectangular(words(input@)),
    ensures
        r == part2(text_grid(words(input@))),
{
    let grid = prepare(input);
    count_crosses(&grid)
}

pub fn solve(input: String) -> (r: SolutionPair)
    requires
        rectangular(words(input@)),
        8 * text_grid(words(input@)).cells.len() <= usize::MAX,
    ensures
        r.0 == Solution::Usize(part1(text_grid(words(input@))) as usize),
        r.1 == Solution::Usize(part2(text_grid(words(input@))) as usize),
{
    let sol1 = solve_part1(input.as_str());
    let sol2 = solve_part2(input.as_str());
    (Solution::Usize(sol1), Solution::Usize(sol2))
}

} // verus!
