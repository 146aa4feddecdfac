//! Simple but slow implementation: the guards met are kept in a list.
use crate::days::day06::{
    decided_at, lab_of, lemma_distinct_prefix, lemma_revisit_is_a_loop, lemma_trace_stays_valid,
    loops, met, prepare, start_of, tick, trace, traps, walked, well_formed, Cell, Guard, Lab,
};
use crate::etc::grid::{taxicab_directions, taxicab_directions_spec, GridView, Position};
use crate::etc::text::words;
use vstd::prelude::*;

verus! {

/// The cells that the guard walks on.
pub open spec fn walked_cells(map: GridView<Cell>, start: Position) -> Set<Position> {
    Set::new(|pos: Position| walked(map, start, pos))
}

/// The cells that trap the guard when an obstruction is put on them.
pub open spec fn trapping_cells(map: GridView<Cell>, start: Position) -> Set<Position> {
    Set::new(|pos: Position| traps(map, start, pos))
}

/// What a patrol reports: the cells that the guard walks on, each once, and
/// whether the guard stays in the area for ever.
pub open spec fn reported(
    map: GridView<Cell>,
    start: Position,
    locations: Seq<Position>,
    is_loop: bool,
) -> bool {
    &&& locations.no_duplicates()
    &&& locations.to_set() == walked_cells(map, start)
    &&& is_loop <==> loops(map, start)
    &&& exists|n: nat| n <= 4 * map.cells.len() && #[trigger] decided_at(map, start, n, is_loop)
}

/// Whether the list holds the cell.
fn holds(locations: &Vec<Position>, pos: &Position) -> (r: bool)
    ensures
        r == locations@.contains(*pos),
{
    let mut i: usize = 0;
    while i < locations.len()
        invariant
            i <= locations@.len(),
            forall|k: int| 0 <= k < i ==> locations@[k] != *pos,
        decreases locations@.len() - i,
    {
        if locations[i] == *pos {
            return true;
        }
        i += 1;
    }
    false
}

/// Whether the list holds the guard.
fn met_before(patrolled: &Vec<(Position, usize)>, at: &Position, facing: usize) -> (r: bool)
    ensures
        r == exists|k: int| 0 <= k < patrolled@.len() && #[trigger] patrolled@[k] == (*at, facing),
{
    let mut i: usize = 0;
    while i < patrolled.len()
        invariant
            i <= patrolled@.len(),
            forall|k: int| 0 <= k < i ==> #[trigger] patrolled@[k] != (*at, facing),
        decreases patrolled@.len() - i,
    {
        let (pos, way) = patrolled[i];
        if pos == *at && way == facing {
            return true;
        }
        i += 1;
    }
    false
}

/// The list holds the guards met at the first `n` ticks, in order, and the
/// cells hold the cells they stood on, each once.
pub open spec fn logged(
    map: GridView<Cell>,
    start: Position,
    n: nat,
    patrolled: Seq<(Position, usize)>,
    locations: Seq<Position>,
) -> bool {
    &&& patrolled.len() == n
    &&& forall|k: int|
        0 <= k < n ==> trace(map, start, k as nat) == Some(
            Guard { at: (#[trigger] patrolled[k]).0, facing: patrolled[k].1 as int },
        )
    &&& locations.no_duplicates()
    &&& forall|pos: Position|
        #[trigger] locations.contains(pos) <==> exists|k: int|
            0 <= k < n && (#[trigger] patrolled[k]).0 == pos
}

/// The report of a patrol that is decided at tick `n`.
proof fn lemma_report(
    map: GridView<Cell>,
    start: Position,
    n: nat,
    patrolled: Seq<(Position, usize)>,
    locations: Seq<Position>,
    is_loop: bool,
)
    requires
        map.wf(),
        map.valid(start),
        n <= 4 * map.cells.len(),
        decided_at(map, start, n, is_loop),
        logged(map, start, if is_loop {
            n
        } else {
            n + 1
        }, patrolled, locations),
    ensures
        reported(map, start, locations, is_loop),
{
    let seen = if is_loop {
        n
    } else {
        n + 1
    };
    if is_loop {
        assert forall|m: nat| (#[trigger] trace(map, start, m)) is Some by {
            lemma_revisit_is_a_loop(map, start, n, m);
        }
    } else {
        assert(trace(map, start, n + 1) is None);
    }
    assert forall|pos: Position| locations.to_set().contains(pos) <==> walked_cells(
        map,
        start,
    ).contains(pos) by {
        if locations.contains(pos) {
            let k = choose|k: int| 0 <= k < seen && (#[trigger] patrolled[k]).0 == pos;
            assert(trace(map, start, k as nat) is Some);
        }
        if walked(map, start, pos) {
            let i = choose|i: nat|
                (#[trigger] trace(map, start, i)) is Some && trace(map, start, i)->0.at == pos;
            if is_loop {
                lemma_revisit_is_a_loop(map, start, n, i);
                let k = choose|k: nat|
                    k < n && #[trigger] trace(map, start, k) == Some(trace(map, start, i)->0);
                assert(patrolled[k as int].0 == pos);
            } else {
                if i > n {
                    lemma_trace_stays_valid(map, start, i);
                    assert(trace(map, start, n + 1) is Some);
                }
                assert(patrolled[i as int].0 == pos);
            }
        }
    }
    assert(locations.to_set() =~= walked_cells(map, start));
}

/// Execute the guard's patrol, return the set of positions visited by the guard
/// and whether the patrol is a loop.
pub fn patrol(map: &Lab, guard: Position) -> (r: (Vec<Position>, bool))
    requires
        map.wf(),
        map.spec_valid_position(guard),
    ensures
        reported(map@, guard, r.0@, r.1),
{
    let directions = taxicab_directions();
    let mut at = guard;
    let mut facing: usize = 0;
    let mut patrolled: Vec<(Position, usize)> = Vec::new();
    let mut locations: Vec<Position> = Vec::new();
    let ghost mut n: nat = 0;
    loop
        invariant
            map.wf(),
            map.spec_valid_position(guard),
            map.spec_valid_position(at),
            facing < 4,
            directions@.len() == 4,
            forall|i: int|
                0 <= i < 4 ==> (#[trigger] directions@[i])@ == taxicab_directions_spec()[i],
            trace(map@, guard, n) == Some(Guard { at, facing: facing as int }),
            logged(map@, guard, n, patrolled@, locations@),
            forall|k: nat| k < n ==> !#[trigger] decided_at(map@, guard, k, true),
            n <= 4 * map@.cells.len(),
        decreases 4 * map@.cells.len() - n,
    {
        let ghost here = Guard { at, facing: facing as int };
        if met_before(&patrolled, &at, facing) {
            proof {
                let k = choose|k: int|
                    0 <= k < patrolled@.len() && #[trigger] patrolled@[k] == (at, facing);
                assert(trace(map@, guard, k as nat) == Some(here));
                assert(met(map@, guard, n, here));
                assert(decided_at(map@, guard, n, true));
                lemma_report(map@, guard, n, patrolled@, locations@, true);
            }
            return (locations, true);
        }
        proof {
            if met(map@, guard, n, here) {
                let i = choose|i: nat| i < n && #[trigger] trace(map@, guard, i) == Some(here);
                assert(patrolled@[i as int] == (at, facing));
            }
            assert(!decided_at(map@, guard, n, true));
            lemma_distinct_prefix(map@, guard, n);
        }
        let ghost before = patrolled@;
        let ghost cells = locations@;
        patrolled.push((at, facing));
        if !holds(&locations, &at) {
            locations.push(at);
        }
        proof {
            assert forall|k: int| 0 <= k < n + 1 implies trace(map@, guard, k as nat) == Some(
                Guard { at: (#[trigger] patrolled@[k]).0, facing: patrolled@[k].1 as int },
            ) by {
                if k < n {
                    assert(patrolled@[k] == before[k]);
                }
            }
            assert forall|pos: Position| #[trigger]
                locations@.contains(pos) <==> exists|k: int|
                    0 <= k < n + 1 && (#[trigger] patrolled@[k]).0 == pos by {
                if locations@.contains(pos) {
                    if cells.contains(pos) {
                        let k = choose|k: int| 0 <= k < n && (#[trigger] before[k]).0 == pos;
                        assert(patrolled@[k].0 == pos);
                    } else {
                        let j = choose|j: int| 0 <= j < locations@.len() && locations@[j] == pos;
                        if j < cells.len() {
                            assert(cells[j] == pos);
                        }
                        assert(patrolled@[n as int].0 == pos);
                    }
                }
                if exists|k: int| 0 <= k < n + 1 && (#[trigger] patrolled@[k]).0 == pos {
                    let k = choose|k: int| 0 <= k < n + 1 && (#[trigger] patrolled@[k]).0 == pos;
                    if k < n {
                        assert(before[k].0 == pos);
                        assert(cells.contains(pos));
                        let j = choose|j: int| 0 <= j < cells.len() && cells[j] == pos;
                        assert(locations@[j] == pos);
                    } else {
                        if cells.contains(at) {
                            let j = choose|j: int| 0 <= j < cells.len() && cells[j] == at;
                            assert(locations@[j] == at);
                        } else {
                            assert(locations@[cells.len() as int] == at);
                        }
                    }
                }
            }
            assert(locations@.no_duplicates()) by {
                if !cells.contains(at) {
                    assert forall|i: int, j: int|
                        0 <= i < locations@.len() && 0 <= j < locations@.len() && i != j implies locations@[i]
                        != locations@[j] by {
                        if i < cells.len() && j < cells.len() {
                            assert(cells[i] != cells[j]);
                        } else if i < cells.len() {
                            assert(cells[i] == locations@[i]);
                        } else {
                            assert(cells[j] == locations@[j]);
                        }
                    }
                }
            }
        }
        match map.step(&at, &directions[facing]) {
            None => {
                proof {
                    assert(trace(map@, guard, n + 1) is None);
                    assert(decided_at(map@, guard, n, false));
                    lemma_report(map@, guard, n, patrolled@, locations@, false);
                }
                return (locations, false);
            },
            Some(ahead) => {
                match map.unchecked_get(&ahead) {
                    Cell::Empty => {
                        at = ahead;
                    },
                    Cell::Obstruction => {
                        facing = (facing + 1) % 4;
                    },
                }
            },
        }
        proof {
            n = n + 1;
        }
    }
}

pub fn solve_part1(input: &str) -> (r: usize)
    requires
        well_formed(words(input@)),
    ensures
        r == walked_cells(lab_of(words(input@)), start_of(words(input@))).len(),
        walked_cells(lab_of(words(input@)), start_of(words(input@))).finite(),
{
    let (map, guard) = prepare(input);
    let (locations, _) = patrol(&map, guard);
    proof {
        locations@.unique_seq_to_set();
        vstd::seq_lib::seq_to_set_is_finite(locations@);
    }
    locations.len()
}

/// The number of cells that trap the guard when an obstruction is put on them.
/// The map is the same after the call as before it.
pub fn count_traps(map: &mut Lab, guard: Position) -> (r: usize)
    requires
        old(map).wf(),
        old(map).spec_valid_position(guard),
    ensures
        final(map)@ == old(map)@,
        trapping_cells(old(map)@, guard).finite(),
        r == trapping_cells(old(map)@, guard).len(),
{
    let ghost lab = map@;
    let (positions, _) = patrol(map, guard);
    let ghost mut found: Set<Position> = Set::empty();
    let mut total: usize = 0;
    let mut i: usize = 0;
    while i < positions.len()
        invariant
            i <= positions@.len(),
            map.wf(),
            map@ == lab,
            lab.valid(guard),
            positions@.no_duplicates(),
            positions@.to_set() == walked_cells(lab, guard),
            found.finite(),
            total == found.len(),
            total <= i,
            forall|pos: Position|
                found.contains(pos) <==> traps(lab, guard, pos) && exists|k: int|
                    0 <= k < i && #[trigger] positions@[k] == pos,
        decreases positions@.len() - i,
    {
        let obstruction = positions[i];
        proof {
            assert(positions@.contains(obstruction));
            assert(walked_cells(lab, guard).contains(obstruction));
            let t = choose|t: nat|
                (#[trigger] trace(lab, guard, t)) is Some && trace(lab, guard, t)->0.at
                    == obstruction;
            lemma_trace_stays_valid(lab, guard, t);
        }
        let mut is_loop = false;
        if !(obstruction == guard) {
            let before = *map.unchecked_get(&obstruction);
            map.update(&obstruction, Cell::Obstruction);
            let (_, trapped) = patrol(map, guard);
            map.update(&obstruction, before);
            is_loop = trapped;
            proof {
                lab.lemma_position_round_trip(obstruction);
                assert(map@.cells =~= lab.cells);
            }
        }
        proof {
            let ghost old_found = found;
            if is_loop {
                assert(traps(lab, guard, obstruction));
                assert(!found.contains(obstruction)) by {
                    if found.contains(obstruction) {
                        let k = choose|k: int| 0 <= k < i && #[trigger] positions@[k] == obstruction;
                    }
                }
                found = found.insert(obstruction);
            }
            assert forall|pos: Position|
                found.contains(pos) <==> traps(lab, guard, pos) && exists|k: int|
                    0 <= k < i + 1 && #[trigger] positions@[k] == pos by {
                if old_found.contains(pos) {
                    let k = choose|k: int| 0 <= k < i && #[trigger] positions@[k] == pos;
                    assert(positions@[k] == pos);
                }
                if traps(lab, guard, pos) && exists|k: int|
                    0 <= k < i + 1 && #[trigger] positions@[k] == pos {
                    let k = choose|k: int| 0 <= k < i + 1 && #[trigger] positions@[k] == pos;
                    if k < i {
                    } else {
                        assert(pos == obstruction);
                    }
                }
            }
        }
        if is_loop {
            total += 1;
        }
        i += 1;
    }
    proof {
        assert forall|pos: Position| found.contains(pos) <==> trapping_cells(lab, guard).contains(
            pos,
        ) by {
            if traps(lab, guard, pos) {
                assert(walked_cells(lab, guard).contains(pos));
                assert(positions@.contains(pos));
            }
        }
        assert(found =~= trapping_cells(lab, guard));
    }
    total
}

pub fn solve_part2(input: &str) -> (r: usize)
    requires
        well_formed(words(input@)),
    ensures
        trapping_cells(lab_of(words(input@)), start_of(words(input@))).finite(),
        r == trapping_cells(lab_of(words(input@)), start_of(words(input@))).len(),
{
    let (mut map, guard) = prepare(input);
    count_traps(&mut map, guard)
}

} // verus!
