use crate::days::day18::{
    flood, flooded, lemma_least_steps, neighbour, reach,
    steps_to, within,
};
use crate::etc::chart::{drawn_with, find_first, first_cell, is_drawn_with, mapped};
use crate::etc::count::{count, sum};
use crate::etc::grid::{
    rectangular, taxicab_directions, taxicab_directions_spec, text_grid, Grid, GridView, Point,
    Position,
};
use crate::etc::solution::{Solution, SolutionPair};
use crate::etc::text::words;
use vstd::prelude::*;

verus! {

#[derive(Debug, Clone, Copy, PartialEq, Eq, Structural)]
pub enum Cell {
    Wall,
    // track with distance from start
    Track(Option<u64>),
}

pub type Racetrack = Grid<Cell>;

/// The cell that a character of the text stands for.
pub open spec fn cell_of(c: char) -> Cell {
    if c == '#' {
        Cell::Wall
    } else {
        Cell::Track(None)
    }
}

/// The most cells that a map can have for its cheats to be counted.
pub open spec fn most_cells() -> int {
    0x1_0000
}

/// The rows are of one width, made of `#`, `.`, `S` and `E`, with an `S` among
/// them, and the cells are few enough.
pub open spec fn well_formed(rows: Seq<Seq<char>>) -> bool {
    &&& rectangular(rows)
    &&& drawn_with(text_grid(rows).cells, seq!['#', '.', 'S', 'E'])
    &&& text_grid(rows).cells.contains('S')
    &&& text_grid(rows).cells.len() <= most_cells()
}

/// The map that the rows draw.
pub open spec fn track_of(rows: Seq<Seq<char>>) -> GridView<Cell> {
    mapped(text_grid(rows), |c: char| cell_of(c))
}

/// Read the map and the start, or `None` where the text is not well formed.
pub fn parse(input: &str) -> (r: Option<(Racetrack, Position)>)
    ensures
        match r {
            Some((map, start)) => {
                &&& well_formed(words(input@))
                &&& map.wf()
                &&& map@ == track_of(words(input@))
                &&& start == first_cell(text_grid(words(input@)), 'S')
                &&& map.spec_valid_position(start)
            },
            None => !well_formed(words(input@)),
        },
{
    let grid = match Grid::try_new(input) {
        Some(grid) => grid,
        None => {
            return None;
        },
    };
    let allowed = vec!['#', '.', 'S', 'E'];
    assert(allowed@ =~= seq!['#', '.', 'S', 'E']);
    if !is_drawn_with(&grid, &allowed) || grid.size() > 0x1_0000 {
        return None;
    }
    let start = match find_first(&grid, 'S') {
        Some(start) => start,
        None => {
            return None;
        },
    };
    let to_cell = |c: &char| -> (r: Cell)
        ensures
            r == cell_of(*c),
        {
            if *c == '#' {
                Cell::Wall
            } else {
                Cell::Track(None)
            }
        };
    let map = grid.new_from(to_cell);
    proof {
        assert(grid@.cells[grid@.index_of(start)] == 'S');
        assert(map@.cells =~= track_of(words(input@)).cells);
    }
    Some((map, start))
}

/// Read the map and the start.
pub fn prepare(input: &str) -> (r: (Racetrack, Position))
    requires
        well_formed(words(input@)),
    ensures
        r.0.wf(),
        r.0@ == track_of(words(input@)),
        r.1 == first_cell(text_grid(words(input@)), 'S'),
        r.0.spec_valid_position(r.1),
{
    match parse(input) {
        Some(r) => r,
        None => (Grid { lines: 0, columns: 0, items: Vec::new() }, Position(0, 0)),
    }
}

/// The cell next to `at` in the first of the four directions in which there
/// is track without a distance.
pub open spec fn next_of(map: GridView<Cell>, at: Position, d: int) -> Option<Position>
    decreases 4 - d,
{
    if d < 0 || d >= 4 {
        None
    } else {
        match neighbour(map, at, d) {
            Some(to) => if map.cell(to) == Cell::Track(None) {
                Some(to)
            } else {
                next_of(map, at, d + 1)
            },
            None => next_of(map, at, d + 1),
        }
    }
}

/// The number of cells of track without a distance.
pub open spec fn unmeasured(map: GridView<Cell>) -> int {
    count(map.cells.len() as int, |i: int| map.cells[i] == Cell::Track(None))
}

/// The map after the track was walked from `at` on, as far as it goes and for
/// at most `fuel` cells more: each cell gets its distance, one more than the
/// cell before.
pub open spec fn measured(map: GridView<Cell>, at: Position, dist: u64, fuel: nat) -> GridView<Cell>
    decreases fuel,
{
    let marked = map.with(at, Cell::Track(Some(dist)));
    match next_of(marked, at, 0) {
        Some(to) => if fuel == 0 || dist == u64::MAX {
            marked
        } else {
            measured(marked, to, (dist + 1) as u64, (fuel - 1) as nat)
        },
        None => marked,
    }
}

/// The cell next to `at` in the first direction in which there is track
/// without a distance.
fn find_next(map: &Racetrack, at: &Position) -> (r: Option<Position>)
    requires
        map.wf(),
    ensures
        r == next_of(map@, *at, 0),
        r is Some ==> map@.valid(r->0) && map@.cell(r->0) == Cell::Track(None),
{
    let directions = taxicab_directions();
    let mut d: usize = 0;
    while d < 4
        invariant
            d <= 4,
            map.wf(),
            directions@.len() == 4,
            forall|d: int|
                0 <= d < 4 ==> (#[trigger] directions@[d])@ == taxicab_directions_spec()[d],
            next_of(map@, *at, 0) == next_of(map@, *at, d as int),
        decreases 4 - d,
    {
        match map.step(at, &directions[d]) {
            Some(to) => {
                let free = match map.unchecked_get(&to) {
                    Cell::Track(None) => true,
                    _ => false,
                };
                if free {
                    return Some(to);
                }
            },
            None => {},
        }
        d += 1;
    }
    None
}

/// The number of cells of track without a distance, the cell `at` left out.
pub open spec fn unmeasured_but(map: GridView<Cell>, at: Position) -> int {
    unmeasured(map.with(at, Cell::Wall))
}

/// A cell that is not track without a distance does not count.
proof fn lemma_unmeasured_but(map: GridView<Cell>, at: Position)
    requires
        map.wf(),
        map.valid(at),
    ensures
        map.cell(at) != Cell::Track(None) ==> unmeasured(map) == unmeasured_but(map, at),
        map.cell(at) == Cell::Track(None) ==> unmeasured(map) == unmeasured_but(map, at) + 1,
        0 <= unmeasured_but(map, at) < map.cells.len(),
{
    map.lemma_position_round_trip(at);
    let j = map.index_of(at);
    let other = map.with(at, Cell::Wall);
    if map.cells[j] == Cell::Track(None) {
        crate::etc::count::lemma_count_drop(
            map.cells.len() as int,
            |i: int| map.cells[i] == Cell::Track(None),
            |i: int| other.cells[i] == Cell::Track(None),
            j,
        );
    } else {
        crate::etc::count::lemma_count_agrees(
            map.cells.len() as int,
            |i: int| map.cells[i] == Cell::Track(None),
            |i: int| other.cells[i] == Cell::Track(None),
        );
    }
    crate::etc::count::lemma_count_rise(
        map.cells.len() as int,
        |i: int| other.cells[i] == Cell::Track(None),
        |i: int| i == j || other.cells[i] == Cell::Track(None),
        j,
    );
    crate::etc::count::lemma_count_bounds(
        map.cells.len() as int,
        |i: int| other.cells[i] == Cell::Track(None),
    );
}

/// Compute track distance from start, update the track distances accordingly.
pub fn compute_distances(map: &mut Racetrack, start: Position)
    requires
        old(map).wf(),
        old(map).spec_valid_position(start),
        old(map)@.cells.len() <= most_cells(),
    ensures
        final(map).wf(),
        final(map)@.cells.len() == old(map)@.cells.len(),
        final(map)@ == measured(old(map)@, start, 0, old(map)@.cells.len()),
{
    let ghost before = map@;
    let size = map.size();
    let mut at = start;
    let mut dist: u64 = 0;
    let ghost mut fuel: nat = size as nat;
    proof {
        lemma_unmeasured_but(map@, at);
    }
    loop
        invariant
            map.wf(),
            map@.valid(at),
            map@.cells.len() == size,
            size <= most_cells(),
            before == old(map)@,
            before.cells.len() == size,
            dist + fuel == size,
            unmeasured_but(map@, at) + 1 <= fuel,
            measured(before, start, 0, size as nat) == measured(map@, at, dist, fuel),
        decreases fuel,
    {
        let ghost now = map@;
        map.update(&at, Cell::Track(Some(dist)));
        proof {
            now.lemma_position_round_trip(at);
            assert(map@.with(at, Cell::Wall).cells =~= now.with(at, Cell::Wall).cells);
            lemma_unmeasured_but(map@, at);
        }
        match find_next(map, &at) {
            Some(to) => {
                proof {
                    lemma_unmeasured_but(map@, to);
                }
                at = to;
                dist += 1;
                proof {
                    fuel = (fuel - 1) as nat;
                }
            },
            None => {
                proof {
                    assert(map@ == now.with(at, Cell::Track(Some(dist))));
                    assert(next_of(map@, at, 0) is None);
                    assert(measured(now, at, dist, fuel) == map@);
                }
                return ;
            },
        }
    }
}


/// The distance of a cell of track that has one.
pub open spec fn distance(map: GridView<Cell>, at: Position) -> Option<u64> {
    match map.cell(at) {
        Cell::Track(dist) => dist,
        Cell::Wall => None,
    }
}

/// Going two cells from `at` in the direction `d`, through whatever is there,
/// leads from track to track with a greater distance, and saves at least
/// `save_min` and at most `save_max` steps.
pub open spec fn jump_saves(
    map: GridView<Cell>,
    at: Position,
    d: int,
    save_min: u64,
    save_max: u64,
) -> bool {
    let by = taxicab_directions_spec()[d];
    match map.stepped(at, 2 * by.0, 2 * by.1) {
        Some(to) => {
            &&& distance(map, at) is Some
            &&& distance(map, to) is Some
            &&& distance(map, to)->0 > distance(map, at)->0 + 2
            &&& save_min <= distance(map, to)->0 - distance(map, at)->0 - 2 <= save_max
        },
        None => false,
    }
}

/// The number of jumps of two cells that save at least `save_min` and at most
/// `save_max` steps.
pub open spec fn part1(map: GridView<Cell>, save_min: u64, save_max: u64) -> int {
    sum(
        map.cells.len() as int,
        |i: int| count(4, |d: int| jump_saves(map, map.position_of(i), d, save_min, save_max)),
    )
}

/// The distance of a cell of track that has one.
fn distance_at(map: &Racetrack, at: &Position) -> (r: Option<u64>)
    requires
        map.wf(),
        map.spec_valid_position(*at),
    ensures
        r == distance(map@, *at),
{
    match map.unchecked_get(at) {
        Cell::Track(dist) => *dist,
        Cell::Wall => None,
    }
}

/// The steps that going two cells from `at` in the direction `d` saves.
pub open spec fn saving(map: GridView<Cell>, at: Position, d: int) -> u64 {
    let by = taxicab_directions_spec()[d];
    let to = map.stepped(at, 2 * by.0, 2 * by.1)->0;
    (distance(map, to)->0 - distance(map, at)->0 - 2) as u64
}

/// How much each of the first `n` jumps saves, for those that save at least
/// `save_min` and at most `save_max` steps: the jumps are taken cell by cell
/// in storage order, and from each cell to the north, east, south and west.
pub open spec fn cheats_of(map: GridView<Cell>, n: int, save_min: u64, save_max: u64) -> Seq<u64>
    decreases n,
{
    if n <= 0 {
        Seq::empty()
    } else {
        let before = cheats_of(map, n - 1, save_min, save_max);
        let at = map.position_of((n - 1) / 4);
        if jump_saves(map, at, (n - 1) % 4, save_min, save_max) {
            before.push(saving(map, at, (n - 1) % 4))
        } else {
            before
        }
    }
}

/// Compute the list of how much each distinct cheat saves.
///
/// For each position on the track, evaluate the possible cheats in the four directions.
pub fn compute_cheats(map: &Racetrack, save_min: u64, save_max: u64) -> (r: Vec<u64>)
    requires
        map.wf(),
    ensures
        r@ == cheats_of(map@, 4 * (map@.cells.len() as int), save_min, save_max),
        r@.len() == part1(map@, save_min, save_max),
        forall|i: int| 0 <= i < r@.len() ==> save_min <= #[trigger] r@[i] <= save_max,
{
    let jumps = [Point(-2, 0), Point(0, 2), Point(2, 0), Point(0, -2)];
    let size = map.size();
    let ghost per_cell = |i: int|
        count(4, |d: int| jump_saves(map@, map@.position_of(i), d, save_min, save_max));
    let mut cheats: Vec<u64> = Vec::new();
    let mut i: usize = 0;
    while i < size
        invariant
            i <= size,
            size == map@.cells.len(),
            map.wf(),
            jumps@.len() == 4,
            forall|d: int|
                0 <= d < 4 ==> (#[trigger] jumps@[d])@ == (
                    2 * taxicab_directions_spec()[d].0,
                    2 * taxicab_directions_spec()[d].1,
                ),
            per_cell == |i: int|
                count(4, |d: int| jump_saves(map@, map@.position_of(i), d, save_min, save_max)),
            cheats@.len() == sum(i as int, per_cell),
            cheats@ == cheats_of(map@, 4 * (i as int), save_min, save_max),
            forall|k: int| 0 <= k < cheats@.len() ==> save_min <= #[trigger] cheats@[k] <= save_max,
        decreases size - i,
    {
        let pos = map.unchecked_position(i);
        let ghost here = |d: int| jump_saves(map@, pos, d, save_min, save_max);
        let ghost start = cheats@.len();
        let mut d: usize = 0;
        while d < 4
            invariant
                d <= 4,
                map.wf(),
                map@.valid(pos),
                jumps@.len() == 4,
                forall|d: int|
                    0 <= d < 4 ==> (#[trigger] jumps@[d])@ == (
                        2 * taxicab_directions_spec()[d].0,
                        2 * taxicab_directions_spec()[d].1,
                    ),
                here == |d: int| jump_saves(map@, pos, d, save_min, save_max),
                cheats@.len() == start + count(d as int, here),
                cheats@ == cheats_of(map@, 4 * (i as int) + d, save_min, save_max),
                pos == map@.position_of(i as int),
                forall|k: int|
                    0 <= k < cheats@.len() ==> save_min <= #[trigger] cheats@[k] <= save_max,
            decreases 4 - d,
        {
            assert((4 * i + d + 1 - 1) / 4 == i && (4 * i + d + 1 - 1) % 4 == d);
            if let Some(dist) = distance_at(map, &pos) {
                if let Some(at) = map.step(&pos, &jumps[d]) {
                    if let Some(other_dist) = distance_at(map, &at) {
                        if other_dist > 2 && other_dist - 2 > dist {
                            let saves = other_dist - dist - 2;
                            if saves >= save_min && saves <= save_max {
                                cheats.push(saves);
                            }
                        }
                    }
                }
            }
            d += 1;
        }
        i += 1;
    }
    cheats
}

pub fn solve_part1(input: &str, save_min: u64, save_max: u64) -> (r: u64)
    requires
        well_formed(words(input@)),
    ensures
        r == part1(
            measured(
                track_of(words(input@)),
                first_cell(text_grid(words(input@)), 'S'),
                0,
                track_of(words(input@)).cells.len(),
            ),
            save_min,
            save_max,
        ),
{
    let (mut map, start) = prepare(input);
    compute_distances(&mut map, start);
    let cheats = compute_cheats(&map, save_min, save_max);
    cheats.len() as u64
}

/// What a cell is for a cheat: track without a distance cannot be gone through,
/// anything else can.
pub open spec fn ground_of(cell: Cell) -> crate::days::day18::Cell {
    if cell == Cell::Track(None) {
        crate::days::day18::Cell::Corrupted
    } else {
        crate::days::day18::Cell::Free
    }
}

/// The map as a cheat sees it.
pub open spec fn ground(map: GridView<Cell>) -> GridView<crate::days::day18::Cell> {
    mapped(map, |cell: Cell| ground_of(cell))
}

/// Going from `from` to `to` through anything but track without a distance, in
/// at most `max_len` steps and no more than needed, leads from track to track
/// with a greater distance, and saves at least `save_min` and at most `save_max`
/// steps.
pub open spec fn cheat_saves(
    map: GridView<Cell>,
    from: Position,
    to: Position,
    save_min: u64,
    save_max: u64,
    max_len: u64,
) -> bool {
    &&& distance(map, from) is Some
    &&& distance(map, to) is Some
    &&& distance(map, to)->0 > distance(map, from)->0
    &&& exists|steps: nat|
        {
            &&& #[trigger] steps_to(ground(map), from, to, steps)
            &&& steps <= max_len
            &&& distance(map, from)->0 + steps <= distance(map, to)->0
            &&& save_min <= distance(map, to)->0 - distance(map, from)->0 - steps <= save_max
        }
}

/// The number of cheats of at most `max_len` steps that save at least `save_min`
/// and at most `save_max` steps.
pub open spec fn part2(map: GridView<Cell>, save_min: u64, save_max: u64, max_len: u64) -> int {
    sum(
        map.cells.len() as int,
        |i: int|
            count(
                map.cells.len() as int,
                |j: int|
                    cheat_saves(
                        map,
                        map.position_of(i),
                        map.position_of(j),
                        save_min,
                        save_max,
                        max_len,
                    ),
            ),
    )
}

/// What a flood of the ground from `from`, of at most `max_len` rounds, tells of
/// a cheat to `to`.
proof fn lemma_cheat(
    map: GridView<Cell>,
    trial: GridView<crate::days::day18::Cell>,
    from: Position,
    to: Position,
    save_min: u64,
    save_max: u64,
    max_len: u64,
)
    requires
        map.wf(),
        map.valid(from),
        map.valid(to),
        flooded(ground(map), from, Some(max_len), trial),
    ensures
        cheat_saves(map, from, to, save_min, save_max, max_len) <==> {
            &&& distance(map, from) is Some
            &&& distance(map, to) is Some
            &&& distance(map, to)->0 > distance(map, from)->0
            &&& trial.cell(to) is Reached
            &&& distance(map, from)->0 + trial.cell(to)->0 <= distance(map, to)->0
            &&& save_min <= distance(map, to)->0 - distance(map, from)->0 - trial.cell(to)->0
                <= save_max
        },
{
    let base = ground(map);
    map.lemma_position_round_trip(to);
    assert(base.cell(to) == ground_of(map.cell(to)));
    if trial.cell(to) is Reached {
        if exists|n: nat| within(Some(max_len), n) && reach(base, from, to, n) {
            let n = choose|n: nat| within(Some(max_len), n) && reach(base, from, to, n);
            lemma_least_steps(base, from, to, n);
            let d = choose|d: nat| d <= n && #[trigger] steps_to(base, from, to, d);
            assert(within(Some(max_len), d));
            assert(trial.cell(to) == crate::days::day18::Cell::Reached(d as u64));
        } else {
            assert forall|n: nat| within(Some(max_len), n) implies !#[trigger] reach(
                base,
                from,
                to,
                n,
            ) by {}
            assert(trial.cell(to) == base.cell(to));
        }
    }
    if cheat_saves(map, from, to, save_min, save_max, max_len) {
        let steps = choose|steps: nat|
            {
                &&& #[trigger] steps_to(base, from, to, steps)
                &&& steps <= max_len
                &&& distance(map, from)->0 + steps <= distance(map, to)->0
                &&& save_min <= distance(map, to)->0 - distance(map, from)->0 - steps <= save_max
            };
        assert(within(Some(max_len), steps));
        assert(trial.cell(to) == crate::days::day18::Cell::Reached(steps as u64));
    }
}

/// The map as a cheat sees it.
fn ground_map(map: &Racetrack) -> (r: Grid<crate::days::day18::Cell>)
    requires
        map.wf(),
    ensures
        r.wf(),
        r@ == ground(map@),
{
    let to_ground = |cell: &Cell| -> (r: crate::days::day18::Cell)
        ensures
            r == ground_of(*cell),
        {
            match cell {
                Cell::Track(None) => crate::days::day18::Cell::Corrupted,
                _ => crate::days::day18::Cell::Free,
            }
        };
    let r = map.new_from(to_ground);
    assert(r@.cells =~= ground(map@).cells);
    r
}

/// The number of cheats from `from`.
fn cheats_from(
    map: &Racetrack,
    base: &Grid<crate::days::day18::Cell>,
    from: &Position,
    save_min: u64,
    save_max: u64,
    max_len: u64,
) -> (r: u64)
    requires
        map.wf(),
        base.wf(),
        base@ == ground(map@),
        map.spec_valid_position(*from),
    ensures
        r == count(
            map@.cells.len() as int,
            |j: int| cheat_saves(map@, *from, map@.position_of(j), save_min, save_max, max_len),
        ),
        r <= map@.cells.len(),
{
    let size = map.size();
    let ghost saves = |j: int|
        cheat_saves(map@, *from, map@.position_of(j), save_min, save_max, max_len);
    let dist = match distance_at(map, from) {
        Some(dist) => dist,
        None => {
            proof {
                crate::etc::count::lemma_count_agrees(size as int, saves, |j: int| false);
                lemma_none(size as int);
            }
            return 0;
        },
    };
    let mut trial = base.copy();
    flood(&mut trial, *from, Some(max_len));
    let mut total: u64 = 0;
    let mut j: usize = 0;
    while j < size
        invariant
            j <= size,
            size == map@.cells.len(),
            map.wf(),
            trial.wf(),
            trial@.lines == map@.lines,
            trial@.columns == map@.columns,
            map@.valid(*from),
            distance(map@, *from) == Some(dist),
            flooded(ground(map@), *from, Some(max_len), trial@),
            saves == |j: int|
                cheat_saves(map@, *from, map@.position_of(j), save_min, save_max, max_len),
            total == count(j as int, saves),
            total <= j,
        decreases size - j,
    {
        let to = map.unchecked_position(j);
        proof {
            lemma_cheat(map@, trial@, *from, to, save_min, save_max, max_len);
        }
        if let Some(other_dist) = distance_at(map, &to) {
            if let crate::days::day18::Cell::Reached(steps) = *trial.unchecked_get(&to) {
                if other_dist > dist && other_dist - dist >= steps {
                    let saved = other_dist - dist - steps;
                    if saved >= save_min && saved <= save_max {
                        total += 1;
                    }
                }
            }
        }
        j += 1;
    }
    total
}

/// Nothing is counted where nothing has the property.
proof fn lemma_none(n: int)
    ensures
        count(n, |j: int| false) == 0,
    decreases n,
{
    if n > 0 {
        lemma_none(n - 1);
    }
}

/// Compute the number of distinct cheats that save at least `save_min` and at
/// most `save_max` steps. Cheats can be up to `max_len` long.
pub fn compute_cheats_upto(map: &Racetrack, save_min: u64, save_max: u64, max_len: u64) -> (r: u64)
    requires
        map.wf(),
        map@.cells.len() <= most_cells(),
    ensures
        r == part2(map@, save_min, save_max, max_len),
{
    let base = ground_map(map);
    let size = map.size();
    let ghost term = |i: int|
        count(
            map@.cells.len() as int,
            |j: int|
                cheat_saves(
                    map@,
                    map@.position_of(i),
                    map@.position_of(j),
                    save_min,
                    save_max,
                    max_len,
                ),
        );
    let mut total: u64 = 0;
    let mut i: usize = 0;
    while i < size
        invariant
            i <= size,
            size == map@.cells.len(),
            size <= most_cells(),
            map.wf(),
            base.wf(),
            base@ == ground(map@),
            term == |i: int|
                count(
                    map@.cells.len() as int,
                    |j: int|
                        cheat_saves(
                            map@,
                            map@.position_of(i),
                            map@.position_of(j),
                            save_min,
                            save_max,
                            max_len,
                        ),
                ),
            total == sum(i as int, term),
            total <= i * most_cells(),
        decreases size - i,
    {
        let from = map.unchecked_position(i);
        let found = cheats_from(map, &base, &from, save_min, save_max, max_len);
        proof {
            assert((i + 1) * most_cells() == i * most_cells() + most_cells()) by (nonlinear_arith);
            assert((i + 1) * most_cells() <= 0x1_0000 * 0x1_0000) by (nonlinear_arith)
                requires
                    i + 1 <= most_cells(),
                    most_cells() == 0x1_0000,
            ;
        }
        total += found;
        i += 1;
    }
    total
}

pub fn solve_part2(input: &str, save_min: u64, save_max: u64, max_len: u64) -> (r: u64)
    requires
        well_formed(words(input@)),
    ensures
        r == part2(
            measured(
                track_of(words(input@)),
                first_cell(text_grid(words(input@)), 'S'),
                0,
                track_of(words(input@)).cells.len(),
            ),
            save_min,
            save_max,
            max_len,
        ),
{
    let (mut map, start) = prepare(input);
    compute_distances(&mut map, start);
    compute_cheats_upto(&map, save_min, save_max, max_len)
}

/// The numbers of cheats that save at least a hundred steps: of jumps of two
/// cells, and of cheats of at most twenty steps.
pub fn solve(input: String) -> (r: SolutionPair)
    requires
        well_formed(words(input@)),
    ensures
        r.0 == Solution::U64(
            part1(
                measured(
                    track_of(words(input@)),
                    first_cell(text_grid(words(input@)), 'S'),
                    0,
                    track_of(words(input@)).cells.len(),
                ),
                100,
                u64::MAX,
            ) as u64,
        ),
        r.1 == Solution::U64(
            part2(
                measured(
                    track_of(words(input@)),
                    first_cell(text_grid(words(input@)), 'S'),
                    0,
                    track_of(words(input@)).cells.len(),
                ),
                100,
                u64::MAX,
                20,
            ) as u64,
        ),
{
    let sol1 = solve_part1(input.as_str(), 100, u64::MAX);
    let sol2 = solve_part2(input.as_str(), 100, u64::MAX, 20);
    (Solution::U64(sol1), Solution::U64(sol2))
}

} // verus!
