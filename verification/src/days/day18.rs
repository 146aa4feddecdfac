use crate::etc::count::count;
use crate::etc::grid::{taxicab_directions, taxicab_directions_spec, Grid, GridView, Position};
use crate::etc::number::{decimal, digits, is_number, number, parse_usize};
use crate::etc::pattern::{captures, captures_of, groups_view, matches_view};
use crate::etc::solution::{Solution, SolutionPair};
use crate::etc::text::text;
use vstd::prelude::*;

verus! {

#[derive(Debug, Clone, Copy, PartialEq, Eq, Structural, Default)]
pub enum Cell {
    #[default]
    Free,
    Corrupted,
    Reached(u64),
}

/// The cell next to `from` in the direction `d` (0 north, 1 east, 2 south,
/// 3 west), if the grid has one.
pub open spec fn neighbour<T>(map: GridView<T>, from: Position, d: int) -> Option<Position> {
    map.stepped(from, taxicab_directions_spec()[d].0, taxicab_directions_spec()[d].1)
}

/// `to` is next to `from`.
pub open spec fn linked<T>(map: GridView<T>, from: Position, to: Position) -> bool {
    exists|d: int| 0 <= d < 4 && #[trigger] neighbour(map, from, d) == Some(to)
}

/// `to` can be reached from `start` in at most `n` steps, each to a free cell
/// next to the one before.
pub open spec fn reach(map: GridView<Cell>, start: Position, to: Position, n: nat) -> bool
    decreases n,
{
    if n == 0 {
        to == start
    } else {
        reach(map, start, to, (n - 1) as nat) || (map.cell(to) == Cell::Free && exists|
            from: Position,
        |
            reach(map, start, from, (n - 1) as nat) && #[trigger] linked(map, from, to))
    }
}

/// `to` can be reached from `start` in `n` steps and in no fewer.
pub open spec fn steps_to(map: GridView<Cell>, start: Position, to: Position, n: nat) -> bool {
    reach(map, start, to, n) && (n == 0 || !reach(map, start, to, (n - 1) as nat))
}

/// Whether `n` rounds are within the limit, where there is one.
pub open spec fn within(limit: Option<u64>, n: nat) -> bool {
    match limit {
        Some(most) => n <= most,
        None => true,
    }
}

/// What a flood from `start`, of at most `limit` rounds, makes of a map: a cell
/// that can be reached within the limit holds the least number of steps to it, and
/// every other cell is as before.
pub open spec fn flooded(
    before: GridView<Cell>,
    start: Position,
    limit: Option<u64>,
    after: GridView<Cell>,
) -> bool {
    &&& after.lines == before.lines
    &&& after.columns == before.columns
    &&& after.wf()
    &&& forall|pos: Position, n: nat|
        before.valid(pos) && within(limit, n) && #[trigger] steps_to(before, start, pos, n)
            ==> n <= u64::MAX && after.cell(pos) == Cell::Reached(n as u64)
    &&& forall|pos: Position|
        before.valid(pos) && (forall|n: nat|
            within(limit, n) ==> !#[trigger] reach(before, start, pos, n)) ==> #[trigger] after.cell(
            pos,
        ) == before.cell(pos)
}

/// What can be reached in some number of steps can be reached in more.
pub proof fn lemma_reach_more(map: GridView<Cell>, start: Position, to: Position, n: nat, m: nat)
    requires
        reach(map, start, to, n),
        n <= m,
    ensures
        reach(map, start, to, m),
    decreases m,
{
    if n < m {
        lemma_reach_more(map, start, to, n, (m - 1) as nat);
    }
}

/// Only cells of the grid can be reached.
pub proof fn lemma_reach_valid(map: GridView<Cell>, start: Position, to: Position, n: nat)
    requires
        map.valid(start),
        reach(map, start, to, n),
    ensures
        map.valid(to),
    decreases n,
{
    if n > 0 {
        if reach(map, start, to, (n - 1) as nat) {
            lemma_reach_valid(map, start, to, (n - 1) as nat);
        } else {
            let from = choose|from: Position|
                reach(map, start, from, (n - 1) as nat) && #[trigger] linked(map, from, to);
            let d = choose|d: int| 0 <= d < 4 && #[trigger] neighbour(map, from, d) == Some(to);
        }
    }
}

/// A cell that can be reached has a least number of steps to it.
pub proof fn lemma_least_steps(map: GridView<Cell>, start: Position, to: Position, n: nat)
    requires
        reach(map, start, to, n),
    ensures
        exists|d: nat| d <= n && #[trigger] steps_to(map, start, to, d),
    decreases n,
{
    if n == 0 {
        assert(steps_to(map, start, to, 0));
    } else if reach(map, start, to, (n - 1) as nat) {
        lemma_least_steps(map, start, to, (n - 1) as nat);
    } else {
        assert(steps_to(map, start, to, n));
    }
}

/// The least number of steps to a cell is one number.
pub proof fn lemma_steps_unique(map: GridView<Cell>, start: Position, to: Position, a: nat, b: nat)
    requires
        steps_to(map, start, to, a),
        steps_to(map, start, to, b),
    ensures
        a == b,
{
    if a < b {
        lemma_reach_more(map, start, to, a, (b - 1) as nat);
    }
    if b < a {
        lemma_reach_more(map, start, to, b, (a - 1) as nat);
    }
}

/// A cell that takes `n + 1` steps is free and next to a cell that takes `n`.
pub proof fn lemma_last_step(map: GridView<Cell>, start: Position, to: Position, n: nat)
    requires
        steps_to(map, start, to, n + 1),
    ensures
        map.cell(to) == Cell::Free,
        exists|from: Position| #[trigger] steps_to(map, start, from, n) && linked(map, from, to),
{
    let m = (n + 1) as nat;
    assert((m - 1) as nat == n);
    assert(reach(map, start, to, m) && !reach(map, start, to, n));
    let from = choose|from: Position|
        reach(map, start, from, (m - 1) as nat) && #[trigger] linked(map, from, to);
    if n > 0 && reach(map, start, from, (n - 1) as nat) {
        assert(reach(map, start, to, n));
    }
    assert(steps_to(map, start, from, n));
}

/// Where no cell takes exactly `n` steps, none takes more.
pub proof fn lemma_no_further(map: GridView<Cell>, start: Position, to: Position, n: nat, m: nat)
    requires
        forall|pos: Position| !#[trigger] steps_to(map, start, pos, n),
        reach(map, start, to, m),
        n >= 1,
    ensures
        reach(map, start, to, (n - 1) as nat),
    decreases m,
{
    if m >= n {
        lemma_least_steps(map, start, to, m);
        let d = choose|d: nat| d <= m && #[trigger] steps_to(map, start, to, d);
        if d < n {
            lemma_reach_more(map, start, to, d, (n - 1) as nat);
        } else {
            lemma_last_step(map, start, to, (d - 1) as nat);
            let from = choose|from: Position| #[trigger]
                steps_to(map, start, from, (d - 1) as nat) && linked(map, from, to);
            lemma_no_further(map, start, from, n, (d - 1) as nat);
            if d - 1 >= n {
                lemma_reach_more(map, start, from, (n - 1) as nat, (d - 2) as nat);
            }
            assert(reach(map, start, to, n));
            lemma_least_steps(map, start, to, n);
            let e = choose|e: nat| e <= n && #[trigger] steps_to(map, start, to, e);
            lemma_steps_unique(map, start, to, d, e);
        }
    } else {
        lemma_reach_more(map, start, to, m, (n - 1) as nat);
    }
}


/// The number of free cells of a map.
pub open spec fn free_cells(map: GridView<Cell>) -> int {
    count(map.cells.len() as int, |i: int| map.cells[i] == Cell::Free)
}

/// `now` is what `k` rounds of a flood from `start` make of `before`.
pub open spec fn swept(
    before: GridView<Cell>,
    start: Position,
    now: GridView<Cell>,
    k: nat,
) -> bool {
    &&& now.lines == before.lines
    &&& now.columns == before.columns
    &&& now.wf()
    &&& before.wf()
    &&& before.valid(start)
    &&& forall|pos: Position, n: nat|
        before.valid(pos) && n <= k && #[trigger] steps_to(before, start, pos, n) ==> now.cell(pos)
            == Cell::Reached(n as u64)
    &&& forall|pos: Position|
        before.valid(pos) && !reach(before, start, pos, k) ==> #[trigger] now.cell(pos)
            == before.cell(pos)
}

/// The layer holds the cells that take exactly `k` steps.
pub open spec fn is_layer(
    before: GridView<Cell>,
    start: Position,
    layer: Seq<Position>,
    k: nat,
) -> bool {
    &&& forall|i: int|
        0 <= i < layer.len() ==> before.valid(#[trigger] layer[i]) && steps_to(
            before,
            start,
            layer[i],
            k,
        )
    &&& forall|pos: Position| #[trigger]
        steps_to(before, start, pos, k) ==> exists|i: int|
            0 <= i < layer.len() && #[trigger] layer[i] == pos
}

/// One of the first `done` looks, each from a cell of the layer in one direction,
/// falls on `pos`.
pub open spec fn touched<T>(map: GridView<T>, layer: Seq<Position>, done: int, pos: Position) -> bool {
    exists|i: int, d: int|
        0 <= i < layer.len() && 0 <= d < 4 && 4 * i + d < done && #[trigger] neighbour(
            map,
            layer[i],
            d,
        ) == Some(pos)
}

/// The state of a round after `done` looks: the free cells that were looked at,
/// and that fewer than `k + 1` steps do not reach, hold `k + 1` and stand in
/// `next`.
pub open spec fn sweeping(
    before: GridView<Cell>,
    start: Position,
    now: GridView<Cell>,
    layer: Seq<Position>,
    next: Seq<Position>,
    k: nat,
    done: int,
) -> bool {
    &&& now.lines == before.lines
    &&& now.columns == before.columns
    &&& now.wf()
    &&& before.wf()
    &&& before.valid(start)
    &&& forall|pos: Position, n: nat|
        before.valid(pos) && n <= k && #[trigger] steps_to(before, start, pos, n) ==> now.cell(pos)
            == Cell::Reached(n as u64)
    &&& forall|pos: Position|
        before.valid(pos) && !reach(before, start, pos, k) ==> #[trigger] now.cell(pos) == (if before.cell(
            pos,
        ) == Cell::Free && touched(before, layer, done, pos) {
            Cell::Reached((k + 1) as u64)
        } else {
            before.cell(pos)
        })
    &&& forall|j: int|
        0 <= j < next.len() ==> {
            &&& before.valid(#[trigger] next[j])
            &&& !reach(before, start, next[j], k)
            &&& before.cell(next[j]) == Cell::Free
            &&& touched(before, layer, done, next[j])
        }
    &&& forall|pos: Position|
        before.valid(pos) && !reach(before, start, pos, k) && before.cell(pos) == Cell::Free
            && #[trigger] touched(before, layer, done, pos) ==> exists|j: int|
            0 <= j < next.len() && #[trigger] next[j] == pos
}

/// A round starts from what the rounds before it left.
proof fn lemma_round_starts(
    before: GridView<Cell>,
    start: Position,
    now: GridView<Cell>,
    layer: Seq<Position>,
    k: nat,
)
    requires
        swept(before, start, now, k),
    ensures
        sweeping(before, start, now, layer, Seq::<Position>::empty(), k, 0),
{
    assert forall|pos: Position| !touched(before, layer, 0, pos) by {}
}

/// A look that falls on no cell, or on a cell that is not free, changes nothing.
proof fn lemma_look_idle(
    before: GridView<Cell>,
    start: Position,
    now: GridView<Cell>,
    layer: Seq<Position>,
    next: Seq<Position>,
    k: nat,
    i: int,
    d: int,
)
    requires
        sweeping(before, start, now, layer, next, k, 4 * i + d),
        0 <= i < layer.len(),
        0 <= d < 4,
        match neighbour(before, layer[i], d) {
            Some(pos) => now.cell(pos) != Cell::Free,
            None => true,
        },
    ensures
        sweeping(before, start, now, layer, next, k, 4 * i + d + 1),
{
    let done = 4 * i + d;
    let at = neighbour(before, layer[i], d);
    assert forall|pos: Position| touched(before, layer, done, pos) implies touched(
        before,
        layer,
        done + 1,
        pos,
    ) by {
        let (a, b) = choose|a: int, b: int|
            0 <= a < layer.len() && 0 <= b < 4 && 4 * a + b < done && #[trigger] neighbour(
                before,
                layer[a],
                b,
            ) == Some(pos);
        assert(4 * a + b < done + 1);
    }
    assert forall|pos: Position| Some(pos) != at && touched(
        before,
        layer,
        done + 1,
        pos,
    ) implies touched(before, layer, done, pos) by {
        let (a, b) = choose|a: int, b: int|
            0 <= a < layer.len() && 0 <= b < 4 && 4 * a + b < done + 1 && #[trigger] neighbour(
                before,
                layer[a],
                b,
            ) == Some(pos);
        if 4 * a + b == done {
            assert(a == i && b == d);
        }
    }
    assert forall|pos: Position|
        before.valid(pos) && !reach(before, start, pos, k) implies #[trigger] now.cell(pos) == (
    if before.cell(pos) == Cell::Free && touched(before, layer, done + 1, pos) {
        Cell::Reached((k + 1) as u64)
    } else {
        before.cell(pos)
    }) by {}
    assert forall|pos: Position|
        before.valid(pos) && !reach(before, start, pos, k) && before.cell(pos) == Cell::Free
            && #[trigger] touched(before, layer, done + 1, pos) implies exists|j: int|
        0 <= j < next.len() && #[trigger] next[j] == pos by {
        if Some(pos) == at {
            assert(now.cell(pos) != Cell::Free);
            assert(touched(before, layer, done, pos));
        } else {
            assert(touched(before, layer, done, pos));
        }
    }
}

/// A look that falls on a free cell marks it and puts it in the next layer.
proof fn lemma_look_marks(
    before: GridView<Cell>,
    start: Position,
    now: GridView<Cell>,
    layer: Seq<Position>,
    next: Seq<Position>,
    k: nat,
    i: int,
    d: int,
    at: Position,
)
    requires
        sweeping(before, start, now, layer, next, k, 4 * i + d),
        is_layer(before, start, layer, k),
        0 <= i < layer.len(),
        0 <= d < 4,
        neighbour(before, layer[i], d) == Some(at),
        now.cell(at) == Cell::Free,
    ensures
        sweeping(
            before,
            start,
            now.with(at, Cell::Reached((k + 1) as u64)),
            layer,
            next.push(at),
            k,
            4 * i + d + 1,
        ),
        free_cells(now.with(at, Cell::Reached((k + 1) as u64))) == free_cells(now) - 1,
        free_cells(now) >= 1,
{
    let done = 4 * i + d;
    let marked = now.with(at, Cell::Reached((k + 1) as u64));
    let grown = next.push(at);
    now.lemma_position_round_trip(at);
    before.lemma_position_round_trip(at);
    if reach(before, start, at, k) {
        lemma_least_steps(before, start, at, k);
        let n = choose|n: nat| n <= k && #[trigger] steps_to(before, start, at, n);
        assert(now.cell(at) == Cell::Reached(n as u64));
    }
    assert(now.cell(at) == (if before.cell(at) == Cell::Free && touched(before, layer, done, at) {
        Cell::Reached((k + 1) as u64)
    } else {
        before.cell(at)
    }));
    assert(touched(before, layer, done + 1, at));
    assert forall|pos: Position| touched(before, layer, done, pos) implies touched(
        before,
        layer,
        done + 1,
        pos,
    ) by {
        let (a, b) = choose|a: int, b: int|
            0 <= a < layer.len() && 0 <= b < 4 && 4 * a + b < done && #[trigger] neighbour(
                before,
                layer[a],
                b,
            ) == Some(pos);
        assert(4 * a + b < done + 1);
    }
    assert forall|pos: Position| pos != at && touched(before, layer, done + 1, pos) implies touched(
        before,
        layer,
        done,
        pos,
    ) by {
        let (a, b) = choose|a: int, b: int|
            0 <= a < layer.len() && 0 <= b < 4 && 4 * a + b < done + 1 && #[trigger] neighbour(
                before,
                layer[a],
                b,
            ) == Some(pos);
        if 4 * a + b == done {
            assert(a == i && b == d);
        }
    }
    assert forall|pos: Position| before.valid(pos) && pos != at implies marked.cell(pos)
        == now.cell(pos) by {
        before.lemma_position_round_trip(pos);
        if before.index_of(pos) == before.index_of(at) {
            before.lemma_index_injective(pos, at);
        }
    }
    assert(marked.cell(at) == Cell::Reached((k + 1) as u64));
    assert forall|pos: Position, n: nat|
        before.valid(pos) && n <= k && #[trigger] steps_to(
            before,
            start,
            pos,
            n,
        ) implies marked.cell(pos) == Cell::Reached(n as u64) by {
        assert(now.cell(pos) == Cell::Reached(n as u64));
    }
    assert forall|pos: Position|
        before.valid(pos) && !reach(before, start, pos, k) implies #[trigger] marked.cell(pos)
        == (if before.cell(pos) == Cell::Free && touched(before, layer, done + 1, pos) {
        Cell::Reached((k + 1) as u64)
    } else {
        before.cell(pos)
    }) by {
        if pos != at {
            assert(now.cell(pos) == (if before.cell(pos) == Cell::Free && touched(
                before,
                layer,
                done,
                pos,
            ) {
                Cell::Reached((k + 1) as u64)
            } else {
                before.cell(pos)
            }));
        }
    }
    assert forall|j: int| 0 <= j < grown.len() implies {
        &&& before.valid(#[trigger] grown[j])
        &&& !reach(before, start, grown[j], k)
        &&& before.cell(grown[j]) == Cell::Free
        &&& touched(before, layer, done + 1, grown[j])
    } by {
        if j < next.len() {
            assert(grown[j] == next[j]);
        }
    }
    assert forall|pos: Position|
        before.valid(pos) && !reach(before, start, pos, k) && before.cell(pos) == Cell::Free
            && #[trigger] touched(before, layer, done + 1, pos) implies exists|j: int|
        0 <= j < grown.len() && #[trigger] grown[j] == pos by {
        if pos == at {
            assert(grown[next.len() as int] == at);
        } else {
            assert(touched(before, layer, done, pos));
            let j = choose|j: int| 0 <= j < next.len() && #[trigger] next[j] == pos;
            assert(grown[j] == pos);
        }
    }
    let j = now.index_of(at);
    crate::etc::count::lemma_count_drop(
        now.cells.len() as int,
        |i: int| now.cells[i] == Cell::Free,
        |i: int| marked.cells[i] == Cell::Free,
        j,
    );
    crate::etc::count::lemma_count_bounds(
        marked.cells.len() as int,
        |i: int| marked.cells[i] == Cell::Free,
    );
}

/// After all the looks of a round, the map is what one more round makes of it,
/// and `next` is the next layer.
proof fn lemma_round_ends(
    before: GridView<Cell>,
    start: Position,
    now: GridView<Cell>,
    layer: Seq<Position>,
    next: Seq<Position>,
    k: nat,
)
    requires
        sweeping(before, start, now, layer, next, k, 4 * layer.len() as int),
        is_layer(before, start, layer, k),
    ensures
        swept(before, start, now, k + 1),
        is_layer(before, start, next, k + 1),
{
    let done = 4 * layer.len() as int;
    assert forall|pos: Position| #[trigger] steps_to(before, start, pos, k + 1) implies {
        &&& before.valid(pos)
        &&& !reach(before, start, pos, k)
        &&& before.cell(pos) == Cell::Free
        &&& touched(before, layer, done, pos)
    } by {
        lemma_reach_valid(before, start, pos, k + 1);
        lemma_last_step(before, start, pos, k);
        let from = choose|from: Position| #[trigger]
            steps_to(before, start, from, k) && linked(before, from, pos);
        let i = choose|i: int| 0 <= i < layer.len() && #[trigger] layer[i] == from;
        let d = choose|d: int| 0 <= d < 4 && #[trigger] neighbour(before, from, d) == Some(pos);
        assert(4 * i + d < done);
        assert(neighbour(before, layer[i], d) == Some(pos));
    }
    assert forall|pos: Position, n: nat|
        before.valid(pos) && n <= k + 1 && #[trigger] steps_to(
            before,
            start,
            pos,
            n,
        ) implies now.cell(pos) == Cell::Reached(n as u64) by {
        if n == k + 1 {
            assert(touched(before, layer, done, pos));
        }
    }
    assert forall|pos: Position|
        before.valid(pos) && !reach(before, start, pos, k + 1) implies #[trigger] now.cell(pos)
        == before.cell(pos) by {
        if reach(before, start, pos, k) {
            lemma_reach_more(before, start, pos, k, k + 1);
        }
        if before.cell(pos) == Cell::Free && touched(before, layer, done, pos) {
            let (a, b) = choose|a: int, b: int|
                0 <= a < layer.len() && 0 <= b < 4 && 4 * a + b < done && #[trigger] neighbour(
                    before,
                    layer[a],
                    b,
                ) == Some(pos);
            assert(linked(before, layer[a], pos));
            assert(reach(before, start, layer[a], k));
            assert(reach(before, start, pos, k + 1));
        }
    }
    assert forall|j: int| 0 <= j < next.len() implies before.valid(#[trigger] next[j]) && steps_to(
        before,
        start,
        next[j],
        k + 1,
    ) by {
        let pos = next[j];
        let (a, b) = choose|a: int, b: int|
            0 <= a < layer.len() && 0 <= b < 4 && 4 * a + b < done && #[trigger] neighbour(
                before,
                layer[a],
                b,
            ) == Some(pos);
        assert(linked(before, layer[a], pos));
        assert(reach(before, start, layer[a], k));
        assert(reach(before, start, pos, k + 1));
    }
}

/// A flood that finds no cell `k` steps away is complete after `k - 1` rounds.
proof fn lemma_flood_complete(
    before: GridView<Cell>,
    start: Position,
    limit: Option<u64>,
    now: GridView<Cell>,
    k: nat,
)
    requires
        swept(before, start, now, k),
        is_layer(before, start, Seq::<Position>::empty(), k),
        k >= 1,
        k - 1 <= u64::MAX,
        within(limit, k),
    ensures
        flooded(before, start, limit, now),
{
    assert forall|pos: Position| !#[trigger] steps_to(before, start, pos, k) by {
        if steps_to(before, start, pos, k) {
            let i = choose|i: int|
                0 <= i < Seq::<Position>::empty().len() && #[trigger] Seq::<Position>::empty()[i]
                    == pos;
        }
    }
    assert forall|pos: Position, n: nat|
        before.valid(pos) && within(limit, n) && #[trigger] steps_to(
            before,
            start,
            pos,
            n,
        ) implies n <= u64::MAX && now.cell(pos) == Cell::Reached(n as u64) by {
        if n > k {
            lemma_no_further(before, start, pos, k, n);
            lemma_reach_more(before, start, pos, (k - 1) as nat, (n - 1) as nat);
        }
    }
}

/// A flood that has made as many rounds as the limit allows is complete.
proof fn lemma_flood_limited(
    before: GridView<Cell>,
    start: Position,
    limit: Option<u64>,
    now: GridView<Cell>,
    k: nat,
)
    requires
        swept(before, start, now, k),
        limit == Some(k as u64),
        k <= u64::MAX,
    ensures
        flooded(before, start, limit, now),
{
}

/// One round of a flood: look from each cell of the layer in the four
/// directions, mark the free cells found and return them.
fn expand(
    map: &mut Grid<Cell>,
    layer: &Vec<Position>,
    k: u64,
    Ghost(before): Ghost<GridView<Cell>>,
    Ghost(start): Ghost<Position>,
) -> (next: Vec<Position>)
    requires
        swept(before, start, old(map)@, k as nat),
        is_layer(before, start, layer@, k as nat),
        k + free_cells(old(map)@) <= usize::MAX,
    ensures
        swept(before, start, final(map)@, (k + 1) as nat),
        is_layer(before, start, next@, (k + 1) as nat),
        free_cells(final(map)@) == free_cells(old(map)@) - next@.len(),
        free_cells(final(map)@) >= 0,
        final(map).wf(),
{
    let directions = taxicab_directions();
    let mut next: Vec<Position> = Vec::new();
    let mut i: usize = 0;
    proof {
        lemma_round_starts(before, start, map@, layer@, k as nat);
        crate::etc::count::lemma_count_bounds(
            map@.cells.len() as int,
            |i: int| map@.cells[i] == Cell::Free,
        );
    }
    while i < layer.len()
        invariant
            i <= layer@.len(),
            directions@.len() == 4,
            forall|d: int|
                0 <= d < 4 ==> (#[trigger] directions@[d])@ == taxicab_directions_spec()[d],
            is_layer(before, start, layer@, k as nat),
            sweeping(before, start, map@, layer@, next@, k as nat, 4 * i),
            free_cells(map@) == free_cells(old(map)@) - next@.len(),
            free_cells(map@) >= 0,
            k + free_cells(old(map)@) <= usize::MAX,
            map.wf(),
        decreases layer@.len() - i,
    {
        let from = layer[i];
        let mut d: usize = 0;
        while d < 4
            invariant
                i < layer@.len(),
                d <= 4,
                from == layer@[i as int],
                directions@.len() == 4,
                forall|d: int|
                    0 <= d < 4 ==> (#[trigger] directions@[d])@ == taxicab_directions_spec()[d],
                is_layer(before, start, layer@, k as nat),
                sweeping(before, start, map@, layer@, next@, k as nat, 4 * i + d),
                free_cells(map@) == free_cells(old(map)@) - next@.len(),
                free_cells(map@) >= 0,
                k + free_cells(old(map)@) <= usize::MAX,
                    map.wf(),
            decreases 4 - d,
        {
            let ghost now = map@;
            assert(neighbour(now, from, d as int) == neighbour(before, from, d as int));
            match map.step(&from, &directions[d]) {
                Some(at) => {
                    let free = match map.unchecked_get(&at) {
                        Cell::Free => true,
                        _ => false,
                    };
                    if free {
                        proof {
                            lemma_look_marks(
                                before,
                                start,
                                now,
                                layer@,
                                next@,
                                k as nat,
                                i as int,
                                d as int,
                                at,
                            );
                        }
                        map.update(&at, Cell::Reached(k + 1));
                        next.push(at);
                    } else {
                        proof {
                            lemma_look_idle(
                                before,
                                start,
                                now,
                                layer@,
                                next@,
                                k as nat,
                                i as int,
                                d as int,
                            );
                        }
                    }
                },
                None => {
                    proof {
                        lemma_look_idle(
                            before,
                            start,
                            now,
                            layer@,
                            next@,
                            k as nat,
                            i as int,
                            d as int,
                        );
                    }
                },
            }
            d += 1;
        }
        i += 1;
    }
    proof {
        lemma_round_ends(before, start, map@, layer@, next@, k as nat);
    }
    next
}


/// Flood the map from `start`: every cell that can be reached over free cells, in
/// at most `limit` steps where there is a limit, gets the least number of steps
/// to it; the other cells stay as they are. The starting cell gets zero whatever
/// it held.
pub fn flood(map: &mut Grid<Cell>, start: Position, limit: Option<u64>)
    requires
        old(map).wf(),
        old(map).spec_valid_position(start),
    ensures
        flooded(old(map)@, start, limit, final(map)@),
{
    let ghost before = map@;
    map.update(&start, Cell::Reached(0));
    let mut layer: Vec<Position> = Vec::new();
    layer.push(start);
    let mut k: u64 = 0;
    let size = map.size();
    proof {
        before.lemma_position_round_trip(start);
        assert forall|pos: Position| before.valid(pos) && pos != start implies map@.cell(pos)
            == before.cell(pos) by {
            before.lemma_position_round_trip(pos);
            if before.index_of(pos) == before.index_of(start) {
                before.lemma_index_injective(pos, start);
            }
        }
        assert(layer@[0] == start);
        assert(steps_to(before, start, start, 0));
        crate::etc::count::lemma_count_bounds(
            map@.cells.len() as int,
            |i: int| map@.cells[i] == Cell::Free,
        );
    }
    loop
        invariant
            map.wf(),
            before == old(map)@,
            swept(before, start, map@, k as nat),
            is_layer(before, start, layer@, k as nat),
            within(limit, k as nat),
            k + free_cells(map@) <= usize::MAX,
            free_cells(map@) >= 0,
        decreases free_cells(map@),
    {
        match limit {
            Some(most) => {
                if k >= most {
                    proof {
                        lemma_flood_limited(before, start, limit, map@, k as nat);
                    }
                    return ;
                }
            },
            None => {},
        }
        let next = expand(map, &layer, k, Ghost(before), Ghost(start));
        if next.len() == 0 {
            proof {
                lemma_flood_complete(before, start, limit, map@, (k + 1) as nat);
            }
            return ;
        }
        k = k + 1;
        layer = next;
    }
}

/// Flood the map from `start`, without a limit.
pub fn bfs(map: &mut Grid<Cell>, start: Position)
    requires
        old(map).wf(),
        old(map).spec_valid_position(start),
    ensures
        flooded(old(map)@, start, None, final(map)@),
{
    flood(map, start, None)
}


/// The cell that one match of the pattern names: its two groups are numbers
/// that fit `usize`.
pub open spec fn point_of(groups: Seq<Option<Seq<char>>>) -> Option<Position> {
    if groups.len() == 3 && groups[1] is Some && groups[2] is Some && is_number(groups[1]->0)
        && number(groups[1]->0) <= usize::MAX && is_number(groups[2]->0) && number(groups[2]->0)
        <= usize::MAX {
        Some(Position(number(groups[1]->0) as usize, number(groups[2]->0) as usize))
    } else {
        None
    }
}

/// The cells that the matches name, where each of them names one.
pub open spec fn points_of(found: Seq<Seq<Option<Seq<char>>>>) -> Option<Seq<Position>> {
    if forall|i: int| 0 <= i < found.len() ==> point_of(#[trigger] found[i]) is Some {
        Some(Seq::new(found.len(), |i: int| point_of(found[i])->0))
    } else {
        None
    }
}

/// The cells that a text names: one for each `number,number` in it.
pub open spec fn parsed(input: Seq<char>) -> Option<Seq<Position>> {
    match captures_of("([0-9]+),([0-9]+)"@, input) {
        Some(found) => points_of(found),
        None => None,
    }
}

/// The cells that the matches name.
pub fn points(found: &Vec<Vec<Option<Vec<char>>>>) -> (r: Option<Vec<Position>>)
    ensures
        match r {
            Some(cells) => points_of(matches_view(found@)) == Some(cells@),
            None => points_of(matches_view(found@)) is None,
        },
{
    let ghost all = matches_view(found@);
    let mut cells: Vec<Position> = Vec::new();
    let mut i: usize = 0;
    while i < found.len()
        invariant
            i <= found@.len(),
            all == matches_view(found@),
            cells@.len() == i,
            forall|k: int| 0 <= k < i ==> point_of(#[trigger] all[k]) == Some(cells@[k]),
        decreases found@.len() - i,
    {
        let groups = &found[i];
        let ghost view = groups_view(*groups);
        assert(all[i as int] == view);
        if groups.len() != 3 {
            assert(point_of(all[i as int]) is None);
            return None;
        }
        assert(view[1] == match groups@[1] {
            Some(group) => Some(group@),
            None => None,
        });
        assert(view[2] == match groups@[2] {
            Some(group) => Some(group@),
            None => None,
        });
        let first = match &groups[1] {
            Some(group) => parse_usize(group),
            None => None,
        };
        let second = match &groups[2] {
            Some(group) => parse_usize(group),
            None => None,
        };
        match (first, second) {
            (Some(a), Some(b)) => {
                cells.push(Position(a, b));
            },
            _ => {
                assert(point_of(all[i as int]) is None);
                return None;
            },
        }
        i += 1;
    }
    assert(cells@ =~= Seq::new(all.len(), |i: int| point_of(all[i])->0));
    Some(cells)
}

/// The cells that a text names: one for each `number,number` in it.
pub fn prepare(input: &str) -> (r: Option<Vec<Position>>)
    ensures
        match r {
            Some(cells) => parsed(input@) == Some(cells@),
            None => parsed(input@) is None,
        },
{
    match captures("([0-9]+),([0-9]+)", input) {
        Some(found) => points(&found),
        None => None,
    }
}

/// A memory of the given shape with no corrupted cell.
pub open spec fn empty_memory(lines: nat, columns: nat) -> GridView<Cell> {
    GridView { lines, columns, cells: Seq::new(lines * columns, |i: int| Cell::Free) }
}

/// The map after the given cells were corrupted, one after the other; a cell
/// outside the map is passed over.
pub open spec fn dropped(map: GridView<Cell>, fallen: Seq<Position>) -> GridView<Cell>
    decreases fallen.len(),
{
    if fallen.len() == 0 {
        map
    } else {
        let rest = dropped(map, fallen.drop_last());
        if rest.valid(fallen.last()) {
            rest.with(fallen.last(), Cell::Corrupted)
        } else {
            rest
        }
    }
}

/// No cell of the map holds a number of steps.
pub open spec fn unmarked(map: GridView<Cell>) -> bool {
    forall|i: int| 0 <= i < map.cells.len() ==> !((#[trigger] map.cells[i]) is Reached)
}

/// Corrupting cells of an unmarked map leaves it unmarked, and of the same shape.
pub proof fn lemma_dropped_unmarked(map: GridView<Cell>, fallen: Seq<Position>)
    requires
        unmarked(map),
        map.wf(),
    ensures
        unmarked(dropped(map, fallen)),
        dropped(map, fallen).wf(),
        dropped(map, fallen).lines == map.lines,
        dropped(map, fallen).columns == map.columns,
    decreases fallen.len(),
{
    if fallen.len() > 0 {
        lemma_dropped_unmarked(map, fallen.drop_last());
        let rest = dropped(map, fallen.drop_last());
        if rest.valid(fallen.last()) {
            rest.lemma_position_round_trip(fallen.last());
        }
    }
}

/// `r` is the least number of steps from `start` to `end`, or `None` where
/// there is no way.
pub open spec fn way_out(map: GridView<Cell>, start: Position, end: Position, r: Option<u64>) -> bool {
    match r {
        Some(steps) => steps_to(map, start, end, steps as nat),
        None => forall|n: nat| !reach(map, start, end, n),
    }
}

/// The least number of steps from `start` to `end` over free cells, or `None`
/// where there is no way.
pub fn steps(map: &Grid<Cell>, start: Position, end: Position) -> (r: Option<u64>)
    requires
        map.wf(),
        unmarked(map@),
        map.spec_valid_position(start),
        map.spec_valid_position(end),
    ensures
        way_out(map@, start, end, r),
{
    let mut trial = map.copy();
    bfs(&mut trial, start);
    proof {
        map@.lemma_position_round_trip(end);
        if exists|n: nat| reach(map@, start, end, n) {
            let n = choose|n: nat| reach(map@, start, end, n);
            lemma_least_steps(map@, start, end, n);
            let d = choose|d: nat| d <= n && #[trigger] steps_to(map@, start, end, d);
            assert(trial@.cell(end) == Cell::Reached(d as u64));
        } else {
            assert forall|n: nat| within(None, n) implies !#[trigger] reach(
                map@,
                start,
                end,
                n,
            ) by {}
            assert(trial@.cell(end) == map@.cell(end));
        }
    }
    match trial.unchecked_get(&end) {
        Cell::Reached(steps) => Some(*steps),
        _ => None,
    }
}

/// The shape is one in which the corner opposite to the origin is a cell.
pub open spec fn square(lines: usize, columns: usize) -> bool {
    &&& lines * columns <= usize::MAX
    &&& 0 < columns <= lines
    &&& 0 < lines <= columns
}

/// `r` is the least number of steps from the origin to the opposite corner after
/// the first `count` cells were corrupted, or `None` where there is no way, the
/// text names fewer cells, or the shape is not square.
pub open spec fn answers1(
    fallen: Seq<Position>,
    columns: usize,
    lines: usize,
    count: u64,
    r: Option<u64>,
) -> bool {
    if count <= fallen.len() && square(lines, columns) {
        way_out(
            dropped(empty_memory(lines as nat, columns as nat), fallen.take(count as int)),
            Position(0, 0),
            Position((columns - 1) as usize, (lines - 1) as usize),
            r,
        )
    } else {
        r is None
    }
}

/// The end is free and there is no way to it.
pub open spec fn cut_off(map: GridView<Cell>, start: Position, end: Position) -> bool {
    map.cell(end) == Cell::Free && forall|n: nat| !reach(map, start, end, n)
}

/// The opposite corner is cut off once the cells up to the one at `i` are
/// corrupted.
pub open spec fn cuts(fallen: Seq<Position>, lines: usize, columns: usize, i: int) -> bool {
    cut_off(
        dropped(empty_memory(lines as nat, columns as nat), fallen.take(i + 1)),
        Position(0, 0),
        Position((columns - 1) as usize, (lines - 1) as usize),
    )
}

/// How a cell is written: its two numbers with a comma between them.
pub open spec fn written(cell: Position) -> Seq<char> {
    digits(cell.0 as nat) + seq![','] + digits(cell.1 as nat)
}

/// `r` writes the first cell whose corruption cuts the opposite corner off from
/// the origin, or is `None` where no cell does so or the shape is not square.
pub open spec fn answers2(
    fallen: Seq<Position>,
    lines: usize,
    columns: usize,
    r: Option<Seq<char>>,
) -> bool {
    if square(lines, columns) {
        match r {
            Some(name) => exists|i: int|
                {
                    &&& 0 <= i < fallen.len()
                    &&& #[trigger] cuts(fallen, lines, columns, i)
                    &&& forall|j: int| 0 <= j < i ==> !cuts(fallen, lines, columns, j)
                    &&& name == written(fallen[i])
                },
            None => forall|i: int| 0 <= i < fallen.len() ==> !cuts(fallen, lines, columns, i),
        }
    } else {
        r is None
    }
}

/// A memory of the given shape with no corrupted cell, or `None` where the
/// shape is not square.
fn fresh(lines: usize, columns: usize) -> (r: Option<Grid<Cell>>)
    ensures
        match r {
            Some(map) => {
                &&& square(lines, columns)
                &&& map.wf()
                &&& map@ == empty_memory(lines as nat, columns as nat)
                &&& unmarked(map@)
                &&& map.spec_valid_position(Position(0, 0))
                &&& map.spec_valid_position(Position((columns - 1) as usize, (lines - 1) as usize))
            },
            None => !square(lines, columns),
        },
{
    if columns == 0 || lines == 0 || columns != lines {
        return None;
    }
    match Grid::filled(lines, columns, Cell::Free) {
        Some(map) => {
            assert(map@.cells =~= empty_memory(lines as nat, columns as nat).cells);
            Some(map)
        },
        None => None,
    }
}

/// The least number of steps from the origin to the opposite corner after the
/// first `count` cells were corrupted.
pub fn shortest_way(fallen: &Vec<Position>, columns: usize, lines: usize, count: u64) -> (r:
    Option<u64>)
    ensures
        answers1(fallen@, columns, lines, count, r),
{
    if count > fallen.len() as u64 {
        return None;
    }
    let mut map = match fresh(lines, columns) {
        Some(map) => map,
        None => {
            return None;
        },
    };
    let ghost empty = map@;
    let mut i: usize = 0;
    assert(fallen@.take(0) =~= Seq::<Position>::empty());
    while i < count as usize
        invariant
            i <= count <= fallen@.len(),
            map.wf(),
            unmarked(empty),
            empty.wf(),
            map@ == dropped(empty, fallen@.take(i as int)),
        decreases count - i,
    {
        proof {
            assert(fallen@.take(i + 1).drop_last() =~= fallen@.take(i as int));
            lemma_dropped_unmarked(empty, fallen@.take(i as int));
        }
        map.update(&fallen[i], Cell::Corrupted);
        i += 1;
    }
    proof {
        lemma_dropped_unmarked(empty, fallen@.take(i as int));
    }
    steps(&map, Position(0, 0), Position(columns - 1, lines - 1))
}

pub fn solve_part1(input: &str, columns: usize, lines: usize, steps: u64) -> (r: Option<u64>)
    ensures
        match parsed(input@) {
            Some(fallen) => answers1(fallen, columns, lines, steps, r),
            None => r is None,
        },
{
    match prepare(input) {
        Some(fallen) => shortest_way(&fallen, columns, lines, steps),
        None => None,
    }
}

/// The first cell whose corruption cuts the opposite corner off from the
/// origin, written as its two numbers with a comma between them.
pub fn first_cut(fallen: &Vec<Position>, lines: usize, columns: usize) -> (r: Option<String>)
    ensures
        answers2(
            fallen@,
            lines,
            columns,
            match r {
                Some(name) => Some(name@),
                None => None,
            },
        ),
{
    let mut map = match fresh(lines, columns) {
        Some(map) => map,
        None => {
            return None;
        },
    };
    let ghost empty = map@;
    let start = Position(0, 0);
    let end = Position(columns - 1, lines - 1);
    let mut i: usize = 0;
    assert(fallen@.take(0) =~= Seq::<Position>::empty());
    while i < fallen.len()
        invariant
            i <= fallen@.len(),
            square(lines, columns),
            map.wf(),
            unmarked(empty),
            empty.wf(),
            empty == empty_memory(lines as nat, columns as nat),
            map@ == dropped(empty, fallen@.take(i as int)),
            start == Position(0, 0),
            end == Position((columns - 1) as usize, (lines - 1) as usize),
            empty.valid(start),
            empty.valid(end),
            forall|j: int| 0 <= j < i ==> !cuts(fallen@, lines, columns, j),
        decreases fallen@.len() - i,
    {
        proof {
            assert(fallen@.take(i + 1).drop_last() =~= fallen@.take(i as int));
            lemma_dropped_unmarked(empty, fallen@.take(i as int));
            lemma_dropped_unmarked(empty, fallen@.take(i + 1));
        }
        let corrupt = fallen[i];
        map.update(&corrupt, Cell::Corrupted);
        let free = match map.unchecked_get(&end) {
            Cell::Free => true,
            _ => false,
        };
        if free && steps(&map, start, end).is_none() {
            let mut name = decimal(corrupt.0 as u64);
            name.push(',');
            let mut second = decimal(corrupt.1 as u64);
            name.append(&mut second);
            proof {
                assert(cuts(fallen@, lines, columns, i as int));
                assert(name@ =~= written(fallen@[i as int]));
            }
            return Some(text(&name));
        }
        i += 1;
    }
    None
}

pub fn solve_part2(input: &str, lines: usize, columns: usize) -> (r: Option<String>)
    ensures
        match parsed(input@) {
            Some(fallen) => answers2(
                fallen,
                lines,
                columns,
                match r {
                    Some(name) => Some(name@),
                    None => None,
                },
            ),
            None => r is None,
        },
{
    match prepare(input) {
        Some(fallen) => first_cut(&fallen, lines, columns),
        None => None,
    }
}

/// Both answers for a memory of 71 lines and 71 columns, the first after 1024
/// corruptions; `None` where one of them is missing.
pub fn solve(input: String) -> (r: Option<SolutionPair>)
    ensures
        match r {
            Some((Solution::U64(steps), Solution::Str(name))) => {
                &&& parsed(input@) is Some
                &&& answers1(parsed(input@)->0, 71, 71, 1024, Some(steps))
                &&& answers2(parsed(input@)->0, 71, 71, Some(name@))
            },
            Some(_) => false,
            None => parsed(input@) is None || answers1(parsed(input@)->0, 71, 71, 1024, None)
                || answers2(parsed(input@)->0, 71, 71, None),
        },
{
    let sol1 = match solve_part1(input.as_str(), 71, 71, 1024) {
        Some(steps) => steps,
        None => {
            return None;
        },
    };
    let sol2 = match solve_part2(input.as_str(), 71, 71) {
        Some(name) => name,
        None => {
            return None;
        },
    };
    Some((Solution::U64(sol1), Solution::Str(sol2)))
}

} // verus!
