pub mod fast;
pub mod slow;

use crate::etc::count::{count, first_place, is_first, lemma_first_place};
use crate::etc::grid::{rectangular, taxicab_directions_spec, text_grid, Grid, GridView, Position};
use crate::etc::solution::{Solution, SolutionPair};
use crate::etc::text::words;
use vstd::prelude::*;

verus! {

#[derive(Debug, Clone, Copy, PartialEq, Eq, Structural, Default)]
pub enum Cell {
    #[default]
    Empty,
    Obstruction,
}

pub type Lab = Grid<Cell>;

/// A guard: where it stands and which way it faces (0 north, 1 east, 2 south,
/// 3 west).
pub struct Guard {
    pub at: Position,
    pub facing: int,
}

/// What one tick makes of a guard: it turns right in place when the cell ahead is
/// obstructed, moves ahead when that cell is free, and is gone (`None`) when
/// there is no cell ahead.
pub open spec fn tick(map: GridView<Cell>, guard: Guard) -> Option<Guard> {
    let ahead = taxicab_directions_spec()[guard.facing];
    match map.stepped(guard.at, ahead.0, ahead.1) {
        None => None,
        Some(pos) => if map.cell(pos) == Cell::Obstruction {
            Some(Guard { at: guard.at, facing: (guard.facing + 1) % 4 })
        } else {
            Some(Guard { at: pos, facing: guard.facing })
        },
    }
}

/// The guard after `n` ticks, or `None` when it has left the area by then. It
/// starts facing north.
pub open spec fn trace(map: GridView<Cell>, start: Position, n: nat) -> Option<Guard>
    decreases n,
{
    if n == 0 {
        Some(Guard { at: start, facing: 0 })
    } else {
        match trace(map, start, (n - 1) as nat) {
            None => None,
            Some(guard) => tick(map, guard),
        }
    }
}

/// The guard stands on a cell of the map and faces one of the four directions.
pub open spec fn on_map(map: GridView<Cell>, guard: Guard) -> bool {
    map.valid(guard.at) && 0 <= guard.facing < 4
}

/// The number that stands for a guard: four times the index of its cell, plus
/// the way it faces.
pub open spec fn code(map: GridView<Cell>, guard: Guard) -> int {
    4 * map.index_of(guard.at) + guard.facing
}

/// The guard is met at one of the first `n` ticks.
pub open spec fn met(map: GridView<Cell>, start: Position, n: nat, guard: Guard) -> bool {
    exists|i: nat| i < n && #[trigger] trace(map, start, i) == Some(guard)
}

/// The guard stays in the area for ever.
pub open spec fn loops(map: GridView<Cell>, start: Position) -> bool {
    forall|m: nat| (#[trigger] trace(map, start, m)) is Some
}

/// The guard stands on the cell at some tick.
pub open spec fn walked(map: GridView<Cell>, start: Position, pos: Position) -> bool {
    exists|i: nat| (#[trigger] trace(map, start, i)) is Some && trace(map, start, i)->0.at == pos
}

/// The cell is one that the guard walks on, other than the one it starts from,
/// and with an obstruction on it the guard stays in the area for ever.
pub open spec fn traps(map: GridView<Cell>, start: Position, pos: Position) -> bool {
    &&& walked(map, start, pos)
    &&& pos != start
    &&& loops(map.with(pos, Cell::Obstruction), start)
}

/// The patrol is decided at tick `n`: the guard is in the area until then, and
/// either stands where it stood at an earlier tick, facing the same way (a loop),
/// or has no cell ahead (it leaves).
pub open spec fn decided_at(map: GridView<Cell>, start: Position, n: nat, is_loop: bool) -> bool {
    &&& trace(map, start, n) is Some
    &&& is_loop ==> met(map, start, n, trace(map, start, n)->0)
    &&& !is_loop ==> trace(map, start, n + 1) is None
}

/// The guard is still in the area after `n` ticks, on a valid cell and facing one
/// of the four directions.
pub proof fn lemma_trace_stays_valid(map: GridView<Cell>, start: Position, n: nat)
    requires
        map.valid(start),
        trace(map, start, n) is Some,
    ensures
        on_map(map, trace(map, start, n)->0),
        forall|i: nat| i <= n ==> (#[trigger] trace(map, start, i)) is Some,
    decreases n,
{
    if n > 0 {
        lemma_trace_stays_valid(map, start, (n - 1) as nat);
    }
}

/// The ticks after a given one depend on the guard alone: where two ticks see the
/// same guard, the ticks that follow them see the same guards.
pub proof fn lemma_trace_repeats(map: GridView<Cell>, start: Position, j: nat, n: nat, k: nat)
    requires
        trace(map, start, j) == trace(map, start, n),
    ensures
        trace(map, start, j + k) == trace(map, start, n + k),
    decreases k,
{
    if k > 0 {
        lemma_trace_repeats(map, start, j, n, (k - 1) as nat);
    }
}

/// A guard that comes back to a place it has been in, facing the same way, never
/// leaves the area, and meets after that only guards it has met before.
pub proof fn lemma_revisit_is_a_loop(map: GridView<Cell>, start: Position, n: nat, m: nat)
    requires
        map.valid(start),
        trace(map, start, n) is Some,
        met(map, start, n, trace(map, start, n)->0),
    ensures
        trace(map, start, m) is Some,
        met(map, start, n, trace(map, start, m)->0),
    decreases m,
{
    lemma_trace_stays_valid(map, start, n);
    if m < n {
        assert(trace(map, start, m) == Some(trace(map, start, m)->0));
    } else {
        let j = choose|j: nat| j < n && #[trigger] trace(map, start, j) == trace(map, start, n);
        let k = (m - n) as nat;
        lemma_trace_repeats(map, start, j, n, k);
        lemma_revisit_is_a_loop(map, start, n, j + k);
    }
}

/// Two guards on the map with the same number are the same guard.
pub proof fn lemma_code_tells_guards_apart(map: GridView<Cell>, a: Guard, b: Guard)
    requires
        map.wf(),
        on_map(map, a),
        on_map(map, b),
        code(map, a) == code(map, b),
    ensures
        a == b,
        0 <= code(map, a) < 4 * map.cells.len(),
{
    map.lemma_position_round_trip(a.at);
    map.lemma_position_round_trip(b.at);
}

/// A guard that is ever met is met within four ticks for each cell: a patrol
/// that stays in the area repeats itself by then.
pub proof fn lemma_loop_within_bound(map: GridView<Cell>, start: Position)
    requires
        map.wf(),
        map.valid(start),
        loops(map, start),
    ensures
        exists|n: nat| n <= 4 * map.cells.len() && #[trigger] decided_at(map, start, n, true),
{
    let bound = 4 * map.cells.len();
    lemma_distinct_prefix(map, start, bound);
}

/// Among the first `n + 1` ticks of a patrol that is in the area for all of them,
/// either one sees a guard that an earlier one saw, or they see `n + 1` guards
/// with different numbers, which leaves room for no more than four for each cell.
pub proof fn lemma_distinct_prefix(map: GridView<Cell>, start: Position, n: nat)
    requires
        map.wf(),
        map.valid(start),
        trace(map, start, n) is Some,
    ensures
        (exists|k: nat| k <= n && #[trigger] decided_at(map, start, k, true)) || (met_codes(
            map,
            start,
            n + 1,
        ).finite() && met_codes(map, start, n + 1).len() == n + 1 && n + 1 <= 4 * map.cells.len()),
    decreases n,
{
    lemma_trace_stays_valid(map, start, n);
    lemma_met_codes_bounded(map, start, n + 1);
    lemma_met_codes_grow(map, start, n);
    if n == 0 {
        assert(met_codes(map, start, 0) =~= Set::<int>::empty());
    } else {
        lemma_distinct_prefix(map, start, (n - 1) as nat);
    }
    if !(exists|k: nat| k <= n && #[trigger] decided_at(map, start, k, true)) {
        assert(met_codes(map, start, n).len() == n);
        let here = trace(map, start, n)->0;
        lemma_met_by_code(map, start, n, here);
        if met(map, start, n, here) {
            assert(decided_at(map, start, n, true));
        }
    }
}

/// The numbers of the guards met at the first `n` ticks.
pub open spec fn met_codes(map: GridView<Cell>, start: Position, n: nat) -> Set<int> {
    Set::new(
        |c: int|
            exists|i: nat|
                i < n && (#[trigger] trace(map, start, i)) is Some && code(
                    map,
                    trace(map, start, i)->0,
                ) == c,
    )
}

/// A guard on the map is met at the first `n` ticks exactly when its number is
/// among the numbers of the guards met then.
pub proof fn lemma_met_by_code(map: GridView<Cell>, start: Position, n: nat, guard: Guard)
    requires
        map.wf(),
        map.valid(start),
        on_map(map, guard),
    ensures
        met(map, start, n, guard) <==> met_codes(map, start, n).contains(code(map, guard)),
{
    if met(map, start, n, guard) {
        let i = choose|i: nat| i < n && #[trigger] trace(map, start, i) == Some(guard);
        assert(trace(map, start, i) is Some);
    }
    if met_codes(map, start, n).contains(code(map, guard)) {
        let i = choose|i: nat|
            i < n && (#[trigger] trace(map, start, i)) is Some && code(
                map,
                trace(map, start, i)->0,
            ) == code(map, guard);
        lemma_trace_stays_valid(map, start, i);
        lemma_code_tells_guards_apart(map, trace(map, start, i)->0, guard);
    }
}

/// The guards met at the first `n` ticks are at most four for each cell.
pub proof fn lemma_met_codes_bounded(map: GridView<Cell>, start: Position, n: nat)
    requires
        map.wf(),
        map.valid(start),
    ensures
        met_codes(map, start, n).finite(),
        met_codes(map, start, n).len() <= 4 * map.cells.len(),
{
    let bound = 4 * map.cells.len() as int;
    let all = vstd::set_lib::set_int_range(0, bound);
    vstd::set_lib::lemma_int_range(0, bound);
    assert forall|c: int| met_codes(map, start, n).contains(c) implies all.contains(c) by {
        let i = choose|i: nat|
            i < n && (#[trigger] trace(map, start, i)) is Some && code(
                map,
                trace(map, start, i)->0,
            ) == c;
        lemma_trace_stays_valid(map, start, i);
        lemma_code_tells_guards_apart(map, trace(map, start, i)->0, trace(map, start, i)->0);
    }
    vstd::set_lib::lemma_len_subset(met_codes(map, start, n), all);
}

/// One more tick adds the number of the guard met at it.
pub proof fn lemma_met_codes_grow(map: GridView<Cell>, start: Position, n: nat)
    requires
        trace(map, start, n) is Some,
    ensures
        met_codes(map, start, n + 1) == met_codes(map, start, n).insert(
            code(map, trace(map, start, n)->0),
        ),
{
    let c = code(map, trace(map, start, n)->0);
    let grown = met_codes(map, start, n).insert(c);
    assert forall|x: int| met_codes(map, start, n + 1).contains(x) implies grown.contains(x) by {
        let i = choose|i: nat|
            i < n + 1 && (#[trigger] trace(map, start, i)) is Some && code(
                map,
                trace(map, start, i)->0,
            ) == x;
        if i < n {
            assert(met_codes(map, start, n).contains(x));
        }
    }
    assert forall|x: int| grown.contains(x) implies met_codes(map, start, n + 1).contains(x) by {
        if x == c {
            assert(trace(map, start, n) is Some);
        } else {
            let i = choose|i: nat|
                i < n && (#[trigger] trace(map, start, i)) is Some && code(
                    map,
                    trace(map, start, i)->0,
                ) == x;
            assert(i < n + 1);
        }
    }
    assert(met_codes(map, start, n + 1) =~= grown);
}

/// The cell that a character of the text stands for.
pub open spec fn cell_of(c: char) -> Cell {
    if c == '#' {
        Cell::Obstruction
    } else {
        Cell::Empty
    }
}

/// The rows are of one width, made of `.`, `#` and `^`, with a `^` among them.
pub open spec fn well_formed(rows: Seq<Seq<char>>) -> bool {
    &&& rectangular(rows)
    &&& forall|i: int|
        0 <= i < text_grid(rows).cells.len() ==> {
            let c = #[trigger] text_grid(rows).cells[i];
            c == '.' || c == '#' || c == '^'
        }
    &&& exists|i: int| is_first(text_grid(rows).cells, '^', i)
}

/// The map that the rows draw.
pub open spec fn lab_of(rows: Seq<Seq<char>>) -> GridView<Cell> {
    GridView {
        lines: text_grid(rows).lines,
        columns: text_grid(rows).columns,
        cells: Seq::new(text_grid(rows).cells.len(), |i: int| cell_of(text_grid(rows).cells[i])),
    }
}

/// The cell of the first `^` of the rows: where the guard starts.
pub open spec fn start_of(rows: Seq<Seq<char>>) -> Position {
    text_grid(rows).position_of(first_place(text_grid(rows).cells, '^'))
}

/// Read the map and the guard's starting cell, or `None` where the text is not
/// well formed.
pub fn parse(input: &str) -> (r: Option<(Lab, Position)>)
    ensures
        match r {
            Some((map, guard)) => {
                &&& well_formed(words(input@))
                &&& map.wf()
                &&& map@ == lab_of(words(input@))
                &&& guard == start_of(words(input@))
                &&& map.spec_valid_position(guard)
            },
            None => !well_formed(words(input@)),
        },
{
    let grid = match Grid::try_new(input) {
        Some(grid) => grid,
        None => {
            return None;
        },
    };
    let ghost rows = words(input@);
    let known = |c: &char| -> (r: bool)
        ensures
            r == (*c == '.' || *c == '#' || *c == '^'),
        { *c == '.' || *c == '#' || *c == '^' };
    let unknown = |c: &char| -> (r: bool)
        ensures
            r == !(*c == '.' || *c == '#' || *c == '^'),
        { !(*c == '.' || *c == '#' || *c == '^') };
    if grid.find(unknown).is_some() {
        return None;
    }
    let is_guard = |c: &char| -> (r: bool)
        ensures
            r == (*c == '^'),
        { *c == '^' };
    let guard = match grid.position(is_guard) {
        Some(guard) => guard,
        None => {
            proof {
                assert forall|i: int| !is_first(text_grid(rows).cells, '^', i) by {
                    if 0 <= i < grid.items@.len() {
                        assert(is_guard.ensures((&grid.items@[i],), false));
                    }
                }
            }
            return None;
        },
    };
    let to_cell = |c: &char| -> (r: Cell)
        ensures
            r == cell_of(*c),
        {
            if *c == '#' {
                Cell::Obstruction
            } else {
                Cell::Empty
            }
        };
    let map = grid.new_from(to_cell);
    proof {
        grid.lemma_position_round_trip(guard);
        let i = grid.index_of(guard);
        assert forall|j: int| 0 <= j < i implies #[trigger] grid.items@[j] != '^' by {
            assert(is_guard.ensures((&grid.items@[j],), false));
        }
        assert(is_first(text_grid(rows).cells, '^', i));
        lemma_first_place(text_grid(rows).cells, '^', i);
        assert forall|j: int| 0 <= j < text_grid(rows).cells.len() implies {
            let c = #[trigger] text_grid(rows).cells[j];
            c == '.' || c == '#' || c == '^'
        } by {
            assert(unknown.ensures((&grid.items@[j],), false));
        }
        assert(map@.cells =~= lab_of(rows).cells);
    }
    Some((map, guard))
}

/// Read the map and the guard's starting cell.
pub fn prepare(input: &str) -> (r: (Lab, Position))
    requires
        well_formed(words(input@)),
    ensures
        r.0.wf(),
        r.0@ == lab_of(words(input@)),
        r.1 == start_of(words(input@)),
        r.0.spec_valid_position(r.1),
{
    match parse(input) {
        Some(r) => r,
        None => {
            proof {
                assert(false);
            }
            (Grid { lines: 0, columns: 0, items: Vec::new() }, Position(0, 0))
        },
    }
}

/// The number of cells that the guard walks on.
pub open spec fn part1(map: GridView<Cell>, start: Position) -> int {
    count(map.cells.len() as int, |i: int| walked(map, start, map.position_of(i)))
}

/// The number of cells that trap the guard when an obstruction is put on them.
pub open spec fn part2(map: GridView<Cell>, start: Position) -> int {
    count(map.cells.len() as int, |i: int| traps(map, start, map.position_of(i)))
}

pub fn solve(input: String) -> (r: SolutionPair)
    requires
        well_formed(words(input@)),
    ensures
        r.0 == Solution::Usize(part1(lab_of(words(input@)), start_of(words(input@))) as usize),
        r.1 == Solution::Usize(part2(lab_of(words(input@)), start_of(words(input@))) as usize),
{
    let sol1 = fast::solve_part1(input.as_str());
    let sol2 = fast::solve_part2(input.as_str());
    (Solution::Usize(sol1), Solution::Usize(sol2))
}

} // verus!
