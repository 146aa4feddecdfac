//! Fast implementation: the guards met are kept as four flags for each cell.
use crate::days::day06::{
    decided_at, lab_of, lemma_met_by_code, lemma_met_codes_bounded, lemma_met_codes_grow,
    lemma_revisit_is_a_loop, lemma_trace_stays_valid, loops, met, met_codes, part1, part2,
    prepare, start_of, trace, traps, walked, well_formed, Cell, Guard, Lab,
};
use crate::etc::count::count;
use crate::etc::grid::{taxicab_directions, taxicab_directions_spec, GridView, Position};
use crate::etc::text::words;
use vstd::prelude::*;

verus! {

/// What a patrol reports: for each cell and direction whether the guard is ever
/// met there, and whether the guard stays in the area for ever. The report is
/// decided after at most four ticks for each cell.
pub open spec fn reported(
    map: GridView<Cell>,
    start: Position,
    marks: Seq<[bool; 4]>,
    is_loop: bool,
) -> bool {
    &&& marks.len() == map.cells.len()
    &&& exists|n: nat| n <= 4 * map.cells.len() && #[trigger] decided_at(map, start, n, is_loop)
    &&& is_loop <==> loops(map, start)
    &&& forall|pos: Position, facing: int|
        map.valid(pos) && 0 <= facing < 4 ==> (#[trigger] marks[map.index_of(pos)]@[facing]
            <==> exists|i: nat| #[trigger] trace(map, start, i) == Some(Guard { at: pos, facing }))
}

/// The marks are set for the guards whose numbers are in `seen`, and for no other.
pub open spec fn marks_show(map: GridView<Cell>, marks: Seq<[bool; 4]>, seen: Set<int>) -> bool {
    &&& marks.len() == map.cells.len()
    &&& forall|i: int, d: int|
        0 <= i < marks.len() && 0 <= d < 4 ==> (#[trigger] marks[i]@[d] <==> seen.contains(
            4 * i + d,
        ))
}

/// The report of a patrol that finds, at tick `n`, a guard that it has met
/// before.
proof fn lemma_report_loop(map: GridView<Cell>, start: Position, n: nat, marks: Seq<[bool; 4]>)
    requires
        map.wf(),
        map.valid(start),
        n <= 4 * map.cells.len(),
        trace(map, start, n) is Some,
        met(map, start, n, trace(map, start, n)->0),
        marks_show(map, marks, met_codes(map, start, n)),
    ensures
        reported(map, start, marks, true),
{
    assert(decided_at(map, start, n, true));
    assert forall|m: nat| (#[trigger] trace(map, start, m)) is Some by {
        lemma_revisit_is_a_loop(map, start, n, m);
    }
    assert forall|pos: Position, facing: int|
        map.valid(pos) && 0 <= facing < 4 implies (#[trigger] marks[map.index_of(pos)]@[facing]
        <==> exists|i: nat| #[trigger] trace(map, start, i) == Some(Guard { at: pos, facing })) by {
        let g = Guard { at: pos, facing };
        map.lemma_position_round_trip(pos);
        lemma_met_by_code(map, start, n, g);
        if exists|i: nat| #[trigger] trace(map, start, i) == Some(g) {
            let m = choose|i: nat| #[trigger] trace(map, start, i) == Some(g);
            lemma_revisit_is_a_loop(map, start, n, m);
        }
    }
}

/// The report of a patrol whose guard has, at tick `n`, no cell ahead.
proof fn lemma_report_exit(map: GridView<Cell>, start: Position, n: nat, marks: Seq<[bool; 4]>)
    requires
        map.wf(),
        map.valid(start),
        n <= 4 * map.cells.len(),
        trace(map, start, n) is Some,
        trace(map, start, n + 1) is None,
        marks_show(map, marks, met_codes(map, start, n + 1)),
    ensures
        reported(map, start, marks, false),
{
    assert(decided_at(map, start, n, false));
    assert forall|pos: Position, facing: int|
        map.valid(pos) && 0 <= facing < 4 implies (#[trigger] marks[map.index_of(pos)]@[facing]
        <==> exists|i: nat| #[trigger] trace(map, start, i) == Some(Guard { at: pos, facing })) by {
        let g = Guard { at: pos, facing };
        map.lemma_position_round_trip(pos);
        lemma_met_by_code(map, start, n + 1, g);
        if exists|i: nat| #[trigger] trace(map, start, i) == Some(g) {
            let m = choose|i: nat| #[trigger] trace(map, start, i) == Some(g);
            if m > n {
                lemma_trace_stays_valid(map, start, m);
                assert(trace(map, start, n + 1) is Some);
            }
        }
    }
}

/// Setting the mark of one guard adds its number to the numbers that the marks
/// show.
proof fn lemma_mark_one(
    map: GridView<Cell>,
    before: Seq<[bool; 4]>,
    after: Seq<[bool; 4]>,
    seen: Set<int>,
    index: int,
    facing: int,
)
    requires
        marks_show(map, before, seen),
        0 <= index < before.len(),
        0 <= facing < 4,
        after == before.update(index, after[index]),
        after[index]@ == before[index]@.update(facing, true),
    ensures
        marks_show(map, after, seen.insert(4 * index + facing)),
{
    assert forall|i: int, d: int| 0 <= i < after.len() && 0 <= d < 4 implies (
    #[trigger] after[i]@[d] <==> seen.insert(4 * index + facing).contains(4 * i + d)) by {
        if i == index {
            assert(before[i]@[d] <==> seen.contains(4 * i + d));
        } else {
            assert(after[i] == before[i]);
            assert(before[i]@[d] <==> seen.contains(4 * i + d));
        }
    }
}

/// Execute the guard's patrol, return for each cell the directions in which the
/// guard stood on it, and whether the patrol is a loop.
///
/// The patrol is decided after at most four ticks for each cell of the map.
pub fn patrol(map: &Lab, guard: Position) -> (r: (Vec<[bool; 4]>, bool))
    requires
        map.wf(),
        map.spec_valid_position(guard),
    ensures
        reported(map@, guard, r.0@, r.1),
{
    let directions = taxicab_directions();
    let size = map.size();
    let mut patrolled: Vec<[bool; 4]> = Vec::new();
    let mut k: usize = 0;
    while k < size
        invariant
            k <= size,
            patrolled@.len() == k,
            forall|i: int, d: int| 0 <= i < k && 0 <= d < 4 ==> !(#[trigger] patrolled@[i]@[d]),
        decreases size - k,
    {
        patrolled.push([false, false, false, false]);
        k += 1;
    }
    let mut at = guard;
    let mut facing: usize = 0;
    let ghost mut n: nat = 0;
    proof {
        assert(met_codes(map@, guard, 0) =~= Set::<int>::empty());
    }
    loop
        invariant
            map.wf(),
            size == map.items@.len(),
            directions@.len() == 4,
            forall|i: int|
                0 <= i < 4 ==> (#[trigger] directions@[i])@ == taxicab_directions_spec()[i],
            map.spec_valid_position(guard),
            map.spec_valid_position(at),
            facing < 4,
            trace(map@, guard, n) == Some(Guard { at, facing: facing as int }),
            met_codes(map@, guard, n).finite(),
            met_codes(map@, guard, n).len() == n,
            marks_show(map@, patrolled@, met_codes(map@, guard, n)),
        decreases 4 * size - n,
    {
        let index = map.unchecked_index(&at);
        let ghost here = Guard { at, facing: facing as int };
        proof {
            lemma_met_codes_bounded(map@, guard, n);
            lemma_met_codes_bounded(map@, guard, n + 1);
            lemma_met_codes_grow(map@, guard, n);
            lemma_met_by_code(map@, guard, n, here);
        }
        let mut flags = patrolled[index];
        if flags[facing] {
            proof {
                lemma_report_loop(map@, guard, n, patrolled@);
            }
            return (patrolled, true);
        }
        flags[facing] = true;
        let ghost before = patrolled@;
        patrolled[index] = flags;
        proof {
            lemma_mark_one(
                map@,
                before,
                patrolled@,
                met_codes(map@, guard, n),
                index as int,
                facing as int,
            );
        }
        match map.step(&at, &directions[facing]) {
            None => {
                proof {
                    lemma_report_exit(map@, guard, n, patrolled@);
                }
                return (patrolled, false);
            },
            Some(ahead) => {
                match map.unchecked_get(&ahead) {
                    Cell::Empty => {
                        at = ahead;
                    },
                    Cell::Obstruction => {
                        facing = (facing + 1) % 4;
                    },
                }
            },
        }
        proof {
            n = n + 1;
        }
    }
}

/// Whether one of the four marks of a cell is set.
fn any(flags: &[bool; 4]) -> (r: bool)
    ensures
        r == (flags@[0] || flags@[1] || flags@[2] || flags@[3]),
{
    flags[0] || flags[1] || flags[2] || flags[3]
}

/// The marks of a cell tell whether the guard walks on it.
proof fn lemma_marks_tell_walked(
    map: GridView<Cell>,
    start: Position,
    marks: Seq<[bool; 4]>,
    is_loop: bool,
    index: int,
)
    requires
        map.wf(),
        map.lines <= usize::MAX,
        map.columns <= usize::MAX,
        map.valid(start),
        reported(map, start, marks, is_loop),
        0 <= index < map.cells.len(),
    ensures
        (marks[index]@[0] || marks[index]@[1] || marks[index]@[2] || marks[index]@[3]) == walked(
            map,
            start,
            map.position_of(index),
        ),
{
    map.lemma_index_round_trip(index);
    let pos = map.position_of(index);
    assert(marks[map.index_of(pos)]@[0] <==> exists|i: nat|
        #[trigger] trace(map, start, i) == Some(Guard { at: pos, facing: 0 }));
    assert(marks[map.index_of(pos)]@[1] <==> exists|i: nat|
        #[trigger] trace(map, start, i) == Some(Guard { at: pos, facing: 1 }));
    assert(marks[map.index_of(pos)]@[2] <==> exists|i: nat|
        #[trigger] trace(map, start, i) == Some(Guard { at: pos, facing: 2 }));
    assert(marks[map.index_of(pos)]@[3] <==> exists|i: nat|
        #[trigger] trace(map, start, i) == Some(Guard { at: pos, facing: 3 }));
    if walked(map, start, pos) {
        let i = choose|i: nat|
            (#[trigger] trace(map, start, i)) is Some && trace(map, start, i)->0.at == pos;
        lemma_trace_stays_valid(map, start, i);
        let facing = trace(map, start, i)->0.facing;
        assert(trace(map, start, i) == Some(Guard { at: pos, facing }));
    }
}

/// The number of cells that the guard walks on.
pub fn walked_cells(map: &Lab, guard: Position) -> (r: usize)
    requires
        map.wf(),
        map.spec_valid_position(guard),
    ensures
        r == part1(map@, guard),
{
    let (marks, is_loop) = patrol(map, guard);
    let size = map.size();
    let ghost p = |i: int| walked(map@, guard, map@.position_of(i));
    let mut total: usize = 0;
    let mut i: usize = 0;
    while i < size
        invariant
            map.wf(),
            map.spec_valid_position(guard),
            reported(map@, guard, marks@, is_loop),
            size == map.items@.len(),
            i <= size,
            total == count(i as int, p),
            total <= i,
            p == |i: int| walked(map@, guard, map@.position_of(i)),
        decreases size - i,
    {
        proof {
            lemma_marks_tell_walked(map@, guard, marks@, is_loop, i as int);
        }
        if any(&marks[i]) {
            total += 1;
        }
        i += 1;
    }
    total
}

pub fn solve_part1(input: &str) -> (r: usize)
    requires
        well_formed(words(input@)),
    ensures
        r == part1(lab_of(words(input@)), start_of(words(input@))),
{
    let (map, guard) = prepare(input);
    walked_cells(&map, guard)
}

/// Replace the item of a cell of the map.
fn put(map: &mut Lab, pos: &Position, cell: Cell)
    requires
        old(map).wf(),
        old(map).spec_valid_position(*pos),
    ensures
        final(map).wf(),
        final(map)@ == old(map)@.with(*pos, cell),
{
    match map.get_mut(pos) {
        Some(item) => {
            *item = cell;
        },
        None => {},
    }
}

/// The number of cells that trap the guard when an obstruction is put on them.
/// The map is the same after the call as before it.
pub fn trapping_cells(map: &mut Lab, guard: Position) -> (r: usize)
    requires
        old(map).wf(),
        old(map).spec_valid_position(guard),
    ensures
        r == part2(old(map)@, guard),
        final(map)@ == old(map)@,
{
    let (marks, is_loop) = patrol(map, guard);
    let size = map.size();
    let guard_index = map.strict_index(&guard);
    let ghost lab = map@;
    let ghost p = |i: int| traps(lab, guard, lab.position_of(i));
    let mut total: usize = 0;
    let mut i: usize = 0;
    while i < size
        invariant
            map.wf(),
            map@ == lab,
            lab.valid(guard),
            guard_index == lab.index_of(guard),
            reported(lab, guard, marks@, is_loop),
            size == lab.cells.len(),
            i <= size,
            total == count(i as int, p),
            total <= i,
            p == |i: int| traps(lab, guard, lab.position_of(i)),
        decreases size - i,
    {
        proof {
            lemma_marks_tell_walked(lab, guard, marks@, is_loop, i as int);
            lab.lemma_index_round_trip(i as int);
        }
        if i != guard_index && any(&marks[i]) {
            let pos = map.unchecked_position(i);
            let before = *map.unchecked_get(&pos);
            put(map, &pos, Cell::Obstruction);
            let (_, trapped) = patrol(map, guard);
            put(map, &pos, before);
            proof {
                assert(map@.cells =~= lab.cells);
                assert(pos != guard);
            }
            if trapped {
                total += 1;
            }
        } else {
            proof {
                if i == guard_index {
                    lab.lemma_position_round_trip(guard);
                }
            }
        }
        i += 1;
    }
    total
}

pub fn solve_part2(input: &str) -> (r: usize)
    requires
        well_formed(words(input@)),
    ensures
        r == part2(lab_of(words(input@)), start_of(words(input@))),
{
    let (mut map, guard) = prepare(input);
    trapping_cells(&mut map, guard)
}

} // verus!
