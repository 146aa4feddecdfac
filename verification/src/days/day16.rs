use crate::days::day18::neighbour;
use crate::etc::chart::{drawn_with, find_first, first_cell, is_drawn_with, mapped};
use crate::etc::count::count;
use crate::etc::grid::{
    rectangular, taxicab_directions, taxicab_directions_spec, text_grid, Grid, GridView, Position,
};
use crate::etc::solution::{Solution, SolutionPair};
use crate::etc::text::words;
use vstd::prelude::*;

verus! {

#[derive(Debug, Clone, Copy, PartialEq, Eq, Structural)]
pub enum Cell {
    /// A wall
    Wall,
    /// Not reached yet
    Unreached,
    /// Reached with minimum cost
    Reached(u64),
}

pub type Maze = Grid<Cell>;

/// A state of the search: a cell and a heading (0 north, 1 east, 2 south,
/// 3 west).
pub struct State {
    pub at: Position,
    pub facing: int,
}

/// The state stands on a cell of the map, with one of the four headings.
pub open spec fn on_map(map: GridView<Cell>, s: State) -> bool {
    map.valid(s.at) && 0 <= s.facing < 4
}

/// The number that stands for a state: four times the index of its cell, plus
/// its heading.
pub open spec fn code(map: GridView<Cell>, s: State) -> int {
    4 * map.index_of(s.at) + s.facing
}

/// The state that a number stands for.
pub open spec fn state_of(map: GridView<Cell>, c: int) -> State {
    State { at: map.position_of(c / 4), facing: c % 4 }
}

/// The cost of going from one heading to another: 1 straight on, 1001 after a
/// quarter turn to either side, and no way back.
pub open spec fn turn_cost(from: int, to: int) -> Option<nat> {
    if to == from {
        Some(1)
    } else if to == (from + 1) % 4 || to == (from + 3) % 4 {
        Some(1001)
    } else {
        None
    }
}

/// The cost of the move from `a` to `b`, where there is one: `b` is on the cell
/// next to `a` in the heading of `b`, which is no wall, and the heading of `b`
/// is that of `a` or a quarter turn from it.
pub open spec fn edge(map: GridView<Cell>, a: State, b: State) -> Option<nat> {
    if on_map(map, a) && on_map(map, b) && neighbour(map, a.at, b.facing) == Some(b.at) && map.cell(
        b.at,
    ) != Cell::Wall {
        turn_cost(a.facing, b.facing)
    } else {
        None
    }
}

/// There are `n` moves from `from` to `to` that cost `cost` in all; the first
/// stands on no wall. (The moves are taken off from the end.)
pub open spec fn path(map: GridView<Cell>, from: State, to: State, cost: int, n: nat) -> bool
    decreases n,
{
    if n == 0 {
        to == from && cost == 0 && on_map(map, from) && map.cell(from.at) != Cell::Wall
    } else {
        exists|via: State|
            (#[trigger] edge(map, via, to)) is Some && path(
                map,
                from,
                via,
                cost - edge(map, via, to)->0,
                (n - 1) as nat,
            )
    }
}

/// There are moves from `from` to `to` that cost `cost` in all.
pub open spec fn arrives(map: GridView<Cell>, from: State, to: State, cost: int) -> bool {
    exists|n: nat| path(map, from, to, cost, n)
}

/// `cost` is the least cost of moves from `from` to `to`.
pub open spec fn least(map: GridView<Cell>, from: State, to: State, cost: int) -> bool {
    arrives(map, from, to, cost) && forall|c: int| c < cost ==> !arrives(map, from, to, c)
}

/// No moves lead from `from` to `to`.
pub open spec fn unreachable(map: GridView<Cell>, from: State, to: State) -> bool {
    forall|c: int| !arrives(map, from, to, c)
}

/// There are `n` moves from `from` to the cell `end`, under any heading, that
/// cost `cost` in all. (The moves are taken off from the start.)
pub open spec fn finish(map: GridView<Cell>, from: State, end: Position, cost: int, n: nat) -> bool
    decreases n,
{
    if n == 0 {
        from.at == end && cost == 0 && on_map(map, from)
    } else {
        exists|next: State|
            (#[trigger] edge(map, from, next)) is Some && finish(
                map,
                next,
                end,
                cost - edge(map, from, next)->0,
                (n - 1) as nat,
            )
    }
}

/// Moves cost at least one each, and lead to states on the map that stand on no
/// wall.
pub proof fn lemma_path_facts(map: GridView<Cell>, from: State, to: State, cost: int, n: nat)
    requires
        path(map, from, to, cost, n),
    ensures
        cost >= n,
        on_map(map, to),
        on_map(map, from),
        map.cell(to.at) != Cell::Wall,
        map.cell(from.at) != Cell::Wall,
    decreases n,
{
    if n > 0 {
        let via = choose|via: State|
            (#[trigger] edge(map, via, to)) is Some && path(
                map,
                from,
                via,
                cost - edge(map, via, to)->0,
                (n - 1) as nat,
            );
        lemma_path_facts(map, from, via, cost - edge(map, via, to)->0, (n - 1) as nat);
    }
}

/// Moves to the end cost at least one each.
pub proof fn lemma_finish_facts(map: GridView<Cell>, from: State, end: Position, cost: int, n: nat)
    requires
        finish(map, from, end, cost, n),
    ensures
        cost >= n,
        on_map(map, from),
    decreases n,
{
    if n > 0 {
        let next = choose|next: State|
            (#[trigger] edge(map, from, next)) is Some && finish(
                map,
                next,
                end,
                cost - edge(map, from, next)->0,
                (n - 1) as nat,
            );
        lemma_finish_facts(map, next, end, cost - edge(map, from, next)->0, (n - 1) as nat);
    }
}

/// One more move at the end of some moves.
pub proof fn lemma_path_extend(
    map: GridView<Cell>,
    from: State,
    via: State,
    to: State,
    cost: int,
)
    requires
        arrives(map, from, via, cost),
        edge(map, via, to) is Some,
    ensures
        arrives(map, from, to, cost + edge(map, via, to)->0),
{
    let n = choose|n: nat| path(map, from, via, cost, n);
    let w = edge(map, via, to)->0;
    assert(path(map, from, via, (cost + w) - w, ((n + 1) - 1) as nat));
    assert(path(map, from, to, cost + w, n + 1));
}

/// Moves to a state, followed by moves from it to the end, are moves to the end
/// under some heading.
pub proof fn lemma_path_joins(
    map: GridView<Cell>,
    from: State,
    via: State,
    end: Position,
    before: int,
    after: int,
    n: nat,
)
    requires
        arrives(map, from, via, before),
        finish(map, via, end, after, n),
    ensures
        exists|facing: int|
            0 <= facing < 4 && #[trigger] arrives(
                map,
                from,
                State { at: end, facing },
                before + after,
            ),
    decreases n,
{
    if n == 0 {
        assert(via == State { at: end, facing: via.facing });
        assert(arrives(map, from, State { at: end, facing: via.facing }, before + after));
    } else {
        let next = choose|next: State|
            (#[trigger] edge(map, via, next)) is Some && finish(
                map,
                next,
                end,
                after - edge(map, via, next)->0,
                (n - 1) as nat,
            );
        let w = edge(map, via, next)->0;
        lemma_path_extend(map, from, via, next, before);
        lemma_path_joins(map, from, next, end, before + w, after - w, (n - 1) as nat);
        let facing = choose|facing: int|
            0 <= facing < 4 && #[trigger] arrives(
                map,
                from,
                State { at: end, facing },
                (before + w) + (after - w),
            );
        assert((before + w) + (after - w) == before + after);
        assert(arrives(map, from, State { at: end, facing }, before + after));
    }
}

/// The triangle inequality: the least cost to a state is at most the least cost
/// to a state before it, plus the cost of the move between them.
pub proof fn lemma_triangle(
    map: GridView<Cell>,
    from: State,
    a: State,
    b: State,
    cost_a: int,
    cost_b: int,
)
    requires
        least(map, from, a, cost_a),
        least(map, from, b, cost_b),
        edge(map, a, b) is Some,
    ensures
        cost_b <= cost_a + edge(map, a, b)->0,
{
    lemma_path_extend(map, from, a, b, cost_a);
}

/// Two states on the map with the same number are the same state, and the
/// number leads back to the state.
pub proof fn lemma_code_tells_states_apart(map: GridView<Cell>, a: State, b: State)
    requires
        map.wf(),
        map.lines <= usize::MAX,
        map.columns <= usize::MAX,
        on_map(map, a),
        on_map(map, b),
    ensures
        0 <= code(map, a) < 4 * map.cells.len(),
        state_of(map, code(map, a)) == a,
        code(map, a) == code(map, b) ==> a == b,
{
    map.lemma_position_round_trip(a.at);
    map.lemma_position_round_trip(b.at);
}

/// A number below four times the number of cells stands for a state on the map.
pub proof fn lemma_state_of_code(map: GridView<Cell>, c: int)
    requires
        map.wf(),
        map.lines <= usize::MAX,
        map.columns <= usize::MAX,
        0 <= c < 4 * map.cells.len(),
    ensures
        on_map(map, state_of(map, c)),
        code(map, state_of(map, c)) == c,
{
    map.lemma_index_round_trip(c / 4);
}


/// The map is small enough for the costs of all states to be told apart and
/// counted in 64 bits.
pub open spec fn small(map: GridView<Cell>) -> bool {
    &&& map.wf()
    &&& 4004 * (map.cells.len() + 1) <= usize::MAX
    &&& map.lines <= usize::MAX
    &&& map.columns <= usize::MAX
}

/// The number of states that are settled.
pub open spec fn settled_count(settled: Seq<bool>) -> int {
    count(settled.len() as int, |c: int| settled[c])
}

/// The state of a search from `start`: the costs found so far are costs of moves
/// from `start`; the moves out of the settled states are all taken into account;
/// no settled state costs more than one that is not; and every cost is at most
/// 1001 for each settled state.
pub open spec fn searching(
    map: GridView<Cell>,
    start: State,
    dist: Seq<Option<u64>>,
    settled: Seq<bool>,
) -> bool {
    &&& small(map)
    &&& dist.len() == 4 * map.cells.len()
    &&& settled.len() == dist.len()
    &&& on_map(map, start)
    &&& map.cell(start.at) != Cell::Wall
    &&& dist[code(map, start)] == Some(0u64)
    &&& forall|c: int|
        0 <= c < dist.len() && (#[trigger] dist[c]) is Some ==> arrives(
            map,
            start,
            state_of(map, c),
            dist[c]->0 as int,
        ) && dist[c]->0 <= 1001 * settled_count(settled)
    &&& forall|c: int| 0 <= c < dist.len() && #[trigger] settled[c] ==> dist[c] is Some
    &&& forall|a: State, b: State|
        on_map(map, a) && settled[code(map, a)] && (#[trigger] edge(map, a, b)) is Some ==> dist[code(
            map,
            b,
        )] is Some && dist[code(map, b)]->0 <= dist[code(map, a)]->0 + edge(map, a, b)->0
    &&& forall|c1: int, c2: int|
        0 <= c1 < dist.len() && 0 <= c2 < dist.len() && #[trigger] settled[c1] && !#[trigger] settled[c2]
            && dist[c2] is Some ==> dist[c1]->0 <= dist[c2]->0
}

/// The search is over: every state that has a cost is settled.
pub open spec fn searched(
    map: GridView<Cell>,
    start: State,
    dist: Seq<Option<u64>>,
    settled: Seq<bool>,
) -> bool {
    &&& searching(map, start, dist, settled)
    &&& forall|c: int| 0 <= c < dist.len() && (#[trigger] dist[c]) is Some ==> settled[c]
}

/// After the search, the cost of a state is at most the cost of any moves to it.
pub proof fn lemma_searched_is_least(
    map: GridView<Cell>,
    start: State,
    dist: Seq<Option<u64>>,
    settled: Seq<bool>,
    to: State,
    cost: int,
    n: nat,
)
    requires
        searched(map, start, dist, settled),
        path(map, start, to, cost, n),
    ensures
        dist[code(map, to)] is Some,
        dist[code(map, to)]->0 <= cost,
    decreases n,
{
    if n > 0 {
        let via = choose|via: State|
            (#[trigger] edge(map, via, to)) is Some && path(
                map,
                start,
                via,
                cost - edge(map, via, to)->0,
                (n - 1) as nat,
            );
        lemma_searched_is_least(
            map,
            start,
            dist,
            settled,
            via,
            cost - edge(map, via, to)->0,
            (n - 1) as nat,
        );
        lemma_code_tells_states_apart(map, via, via);
    }
}

/// After the search, a state has the least cost of moves to it, and has none
/// where no moves lead to it.
pub proof fn lemma_searched(
    map: GridView<Cell>,
    start: State,
    dist: Seq<Option<u64>>,
    settled: Seq<bool>,
    to: State,
)
    requires
        searched(map, start, dist, settled),
        on_map(map, to),
    ensures
        match dist[code(map, to)] {
            Some(cost) => least(map, start, to, cost as int),
            None => unreachable(map, start, to),
        },
{
    lemma_code_tells_states_apart(map, to, to);
    assert forall|c: int| arrives(map, start, to, c) implies dist[code(map, to)] is Some && dist[code(
        map,
        to,
    )]->0 <= c by {
        let n = choose|n: nat| path(map, start, to, c, n);
        lemma_searched_is_least(map, start, dist, settled, to, c, n);
    }
}

/// Take a cost into account: the target gets it where it had none or a greater
/// one. No cost is ever raised.
pub fn relax(dist: &mut Vec<Option<u64>>, target: usize, cost: u64)
    requires
        target < old(dist)@.len(),
    ensures
        final(dist)@ == old(dist)@.update(
            target as int,
            match old(dist)@[target as int] {
                Some(known) => if cost < known {
                    Some(cost)
                } else {
                    Some(known)
                },
                None => Some(cost),
            },
        ),
        forall|c: int|
            0 <= c < old(dist)@.len() && (#[trigger] old(dist)@[c]) is Some ==> final(dist)@[c] is Some
                && final(dist)@[c]->0 <= old(dist)@[c]->0,
{
    let better = match dist[target] {
        Some(known) => cost < known,
        None => true,
    };
    if better {
        dist[target] = Some(cost);
    }
    assert(dist@ =~= old(dist)@.update(
        target as int,
        match old(dist)@[target as int] {
            Some(known) => if cost < known {
                Some(cost)
            } else {
                Some(known)
            },
            None => Some(cost),
        },
    ));
}

/// The state with the least cost among those that have one and are not settled.
pub fn select(dist: &Vec<Option<u64>>, settled: &Vec<bool>) -> (r: Option<usize>)
    requires
        dist@.len() == settled@.len(),
    ensures
        match r {
            Some(pick) => {
                &&& pick < dist@.len()
                &&& !settled@[pick as int]
                &&& dist@[pick as int] is Some
                &&& forall|c: int|
                    0 <= c < dist@.len() && !#[trigger] settled@[c] && dist@[c] is Some
                        ==> dist@[pick as int]->0 <= dist@[c]->0
            },
            None => forall|c: int|
                0 <= c < dist@.len() && (#[trigger] dist@[c]) is Some ==> settled@[c],
        },
{
    let mut best: Option<usize> = None;
    let mut low: u64 = 0;
    let mut c: usize = 0;
    while c < dist.len()
        invariant
            c <= dist@.len(),
            dist@.len() == settled@.len(),
            match best {
                Some(pick) => {
                    &&& pick < c
                    &&& !settled@[pick as int]
                    &&& dist@[pick as int] == Some(low)
                    &&& forall|k: int|
                        0 <= k < c && !#[trigger] settled@[k] && dist@[k] is Some ==> low
                            <= dist@[k]->0
                },
                None => forall|k: int| 0 <= k < c && (#[trigger] dist@[k]) is Some ==> settled@[k],
            },
        decreases dist@.len() - c,
    {
        if !settled[c] {
            match dist[c] {
                Some(cost) => {
                    if best.is_none() || cost < low {
                        best = Some(c);
                        low = cost;
                    }
                },
                None => {},
            }
        }
        c += 1;
    }
    best
}

/// The quarter turns of the three moves out of a state: none, one to the
/// right, one to the left.
pub open spec fn turn(k: int) -> int {
    if k == 0 {
        0
    } else if k == 1 {
        1
    } else {
        3
    }
}

/// The moves out of `a` under the first `k` turns are taken into account.
pub open spec fn relaxed(
    map: GridView<Cell>,
    dist: Seq<Option<u64>>,
    a: State,
    cost: int,
    k: int,
) -> bool {
    forall|b: State|
        (#[trigger] edge(map, a, b)) is Some && (exists|j: int|
            0 <= j < k && b.facing == (a.facing + turn(j)) % 4) ==> dist[code(map, b)] is Some
            && dist[code(map, b)]->0 <= cost + edge(map, a, b)->0
}

/// What settling the state `pick` made of the costs: none was raised, each new
/// one is the cost of `pick` and of a move out of it, and all moves out of it are
/// taken into account.
pub open spec fn settled_from(
    map: GridView<Cell>,
    before: Seq<Option<u64>>,
    after: Seq<Option<u64>>,
    pick: int,
) -> bool {
    &&& after.len() == before.len()
    &&& forall|c: int|
        0 <= c < before.len() && (#[trigger] before[c]) is Some ==> after[c] is Some && after[c]->0
            <= before[c]->0
    &&& forall|c: int|
        0 <= c < before.len() && #[trigger] after[c] != before[c] ==> (edge(
            map,
            state_of(map, pick),
            state_of(map, c),
        )) is Some && after[c] == Some(
            (before[pick]->0 + edge(map, state_of(map, pick), state_of(map, c))->0) as u64,
        )
    &&& relaxed(map, after, state_of(map, pick), before[pick]->0 as int, 3)
}

/// The cost recorded for a settled state never changes when the search goes
/// on: settling another state neither lowers nor raises it.
pub proof fn lemma_settled_cost_stays(
    map: GridView<Cell>,
    start: State,
    before: Seq<Option<u64>>,
    settled: Seq<bool>,
    after: Seq<Option<u64>>,
    pick: int,
    c: int,
)
    requires
        searching(map, start, before, settled),
        0 <= pick < before.len(),
        !settled[pick],
        before[pick] is Some,
        settled_from(map, before, after, pick),
        0 <= c < before.len(),
        settled[c],
    ensures
        after[c] == before[c],
{
    if after[c] != before[c] {
        let w = edge(map, state_of(map, pick), state_of(map, c))->0;
        assert(w >= 1);
        assert(before[c] is Some);
        assert(before[c]->0 <= before[pick]->0);
        assert(after[c]->0 <= before[c]->0);
        assert(before[pick]->0 <= 1001 * settled_count(settled));
        crate::etc::count::lemma_count_bounds(settled.len() as int, |c: int| settled[c]);
        assert(before[pick]->0 + w <= u64::MAX);
    }
}

/// Settling the state of least cost among those that are not settled keeps the
/// search in order.
pub proof fn lemma_settle(
    map: GridView<Cell>,
    start: State,
    before: Seq<Option<u64>>,
    settled: Seq<bool>,
    after: Seq<Option<u64>>,
    pick: int,
)
    requires
        searching(map, start, before, settled),
        0 <= pick < before.len(),
        !settled[pick],
        before[pick] is Some,
        forall|c: int|
            0 <= c < before.len() && !#[trigger] settled[c] && before[c] is Some ==> before[pick]->0
                <= before[c]->0,
        settled_from(map, before, after, pick),
    ensures
        searching(map, start, after, settled.update(pick, true)),
        settled_count(settled.update(pick, true)) == settled_count(settled) + 1,
        settled_count(settled) < settled.len(),
{
    let now = settled.update(pick, true);
    let u = state_of(map, pick);
    let cu = before[pick]->0;
    lemma_state_of_code(map, pick);
    crate::etc::count::lemma_count_rise(
        settled.len() as int,
        |c: int| settled[c],
        |c: int| now[c],
        pick,
    );
    assert forall|c: int| 0 <= c < after.len() && settled[c] implies after[c] == before[c] by {
        if after[c] != before[c] {
            assert(before[c] is Some);
            assert(before[c]->0 <= cu);
        }
    }
    assert(after[pick] == before[pick]) by {
        if after[pick] != before[pick] {
            assert(after[pick]->0 <= before[pick]->0);
        }
    }
    lemma_code_tells_states_apart(map, start, start);
    assert(after[code(map, start)] == Some(0u64)) by {
        let c = code(map, start);
        if after[c] != before[c] {
            assert(after[c]->0 <= before[c]->0);
        }
    }
    assert forall|c: int| 0 <= c < after.len() && (#[trigger] after[c]) is Some implies arrives(
        map,
        start,
        state_of(map, c),
        after[c]->0 as int,
    ) && after[c]->0 <= 1001 * settled_count(now) by {
        if after[c] != before[c] {
            lemma_path_extend(map, start, u, state_of(map, c), cu as int);
            assert(edge(map, u, state_of(map, c))->0 <= 1001);
            assert(cu + edge(map, u, state_of(map, c))->0 <= 1001 * settled_count(now));
            assert(1001 * settled_count(now) <= u64::MAX) by (nonlinear_arith)
                requires
                    settled_count(now) <= 4 * map.cells.len(),
                    4004 * (map.cells.len() + 1) <= usize::MAX,
                    usize::MAX <= u64::MAX,
            ;
        }
    }
    assert forall|a: State, b: State|
        on_map(map, a) && now[code(map, a)] && (#[trigger] edge(map, a, b)) is Some implies after[code(
        map,
        b,
    )] is Some && after[code(map, b)]->0 <= after[code(map, a)]->0 + edge(map, a, b)->0 by {
        lemma_code_tells_states_apart(map, a, u);
        lemma_code_tells_states_apart(map, b, b);
        let ca = code(map, a);
        let cb = code(map, b);
        if ca == pick {
            assert(exists|j: int| 0 <= j < 3 && b.facing == (a.facing + turn(j)) % 4) by {
                if b.facing == a.facing {
                    assert(b.facing == (a.facing + turn(0)) % 4);
                } else if b.facing == (a.facing + 1) % 4 {
                    assert(b.facing == (a.facing + turn(1)) % 4);
                } else {
                    assert(b.facing == (a.facing + turn(2)) % 4);
                }
            }
        } else {
            assert(settled[ca]);
            assert(before[cb] is Some && before[cb]->0 <= before[ca]->0 + edge(map, a, b)->0);
            assert(after[cb]->0 <= before[cb]->0);
        }
    }
    assert forall|c1: int, c2: int|
        0 <= c1 < after.len() && 0 <= c2 < after.len() && #[trigger] now[c1] && !#[trigger] now[c2]
            && after[c2] is Some implies after[c1]->0 <= after[c2]->0 by {
        assert(!settled[c2]);
        if c1 != pick {
            assert(settled[c1]);
            assert(before[c1]->0 <= cu);
        }
        if after[c2] != before[c2] {
        } else {
            assert(before[c2] is Some);
        }
    }
}


/// The state of a settling after the first `k` turns: no cost was raised, each
/// new one is the cost of `pick` and of a move out of it, and the moves out of it
/// under the first `k` turns are taken into account.
pub open spec fn settling(
    map: GridView<Cell>,
    before: Seq<Option<u64>>,
    now: Seq<Option<u64>>,
    pick: int,
    k: int,
) -> bool {
    &&& now.len() == before.len()
    &&& forall|c: int|
        0 <= c < before.len() && (#[trigger] before[c]) is Some ==> now[c] is Some && now[c]->0
            <= before[c]->0
    &&& forall|c: int|
        0 <= c < before.len() && #[trigger] now[c] != before[c] ==> (edge(
            map,
            state_of(map, pick),
            state_of(map, c),
        )) is Some && now[c] == Some(
            (before[pick]->0 + edge(map, state_of(map, pick), state_of(map, c))->0) as u64,
        )
    &&& relaxed(map, now, state_of(map, pick), before[pick]->0 as int, k)
}

/// A turn that leads to no cell, or to a wall, leaves nothing to take into
/// account.
proof fn lemma_turn_blocked(
    map: GridView<Cell>,
    before: Seq<Option<u64>>,
    now: Seq<Option<u64>>,
    pick: int,
    k: int,
)
    requires
        small(map),
        0 <= pick < 4 * map.cells.len(),
        0 <= k < 3,
        settling(map, before, now, pick, k),
        match neighbour(
            map,
            state_of(map, pick).at,
            (state_of(map, pick).facing + turn(k)) % 4,
        ) {
            Some(to) => map.cell(to) == Cell::Wall,
            None => true,
        },
    ensures
        settling(map, before, now, pick, k + 1),
{
    let a = state_of(map, pick);
    assert forall|b: State|
        (#[trigger] edge(map, a, b)) is Some && (exists|j: int|
            0 <= j < k + 1 && b.facing == (a.facing + turn(j)) % 4) implies now[code(map, b)] is Some
        && now[code(map, b)]->0 <= before[pick]->0 + edge(map, a, b)->0 by {
        let j = choose|j: int| 0 <= j < k + 1 && b.facing == (a.facing + turn(j)) % 4;
        if j < k {
            assert(exists|j: int| 0 <= j < k && b.facing == (a.facing + turn(j)) % 4);
        }
    }
}

/// A turn that leads to a cell that is no wall: the state there gets the cost
/// of `pick` and of the move, where it had none or a greater one.
proof fn lemma_turn_relaxed(
    map: GridView<Cell>,
    before: Seq<Option<u64>>,
    now: Seq<Option<u64>>,
    after: Seq<Option<u64>>,
    pick: int,
    k: int,
    to: State,
)
    requires
        small(map),
        0 <= pick < 4 * map.cells.len(),
        before.len() == 4 * map.cells.len(),
        before[pick] is Some,
        before[pick]->0 + 1001 <= u64::MAX,
        0 <= k < 3,
        settling(map, before, now, pick, k),
        to.facing == (state_of(map, pick).facing + turn(k)) % 4,
        neighbour(map, state_of(map, pick).at, to.facing) == Some(to.at),
        map.cell(to.at) != Cell::Wall,
        after == now.update(
            code(map, to),
            match now[code(map, to)] {
                Some(known) => if before[pick]->0 + edge(map, state_of(map, pick), to)->0 < known {
                    Some((before[pick]->0 + edge(map, state_of(map, pick), to)->0) as u64)
                } else {
                    Some(known)
                },
                None => Some((before[pick]->0 + edge(map, state_of(map, pick), to)->0) as u64),
            },
        ),
    ensures
        settling(map, before, after, pick, k + 1),
        edge(map, state_of(map, pick), to) == Some(
            if k == 0 {
                1nat
            } else {
                1001nat
            },
        ),
        0 <= code(map, to) < before.len(),
{
    let a = state_of(map, pick);
    lemma_state_of_code(map, pick);
    lemma_code_tells_states_apart(map, to, to);
    let target = code(map, to);
    let w = edge(map, a, to)->0;
    assert forall|c: int| 0 <= c < before.len() && #[trigger] after[c] != before[c] implies (edge(
        map,
        a,
        state_of(map, c),
    )) is Some && after[c] == Some((before[pick]->0 + edge(map, a, state_of(map, c))->0) as u64) by {
        if c != target {
            assert(after[c] == now[c]);
        } else if after[c] == now[c] {
        }
    }
    assert forall|c: int| 0 <= c < before.len() && (#[trigger] before[c]) is Some implies after[c] is Some
        && after[c]->0 <= before[c]->0 by {
        assert(now[c] is Some && now[c]->0 <= before[c]->0);
    }
    assert forall|b: State|
        (#[trigger] edge(map, a, b)) is Some && (exists|j: int|
            0 <= j < k + 1 && b.facing == (a.facing + turn(j)) % 4) implies after[code(map, b)] is Some
        && after[code(map, b)]->0 <= before[pick]->0 + edge(map, a, b)->0 by {
        let j = choose|j: int| 0 <= j < k + 1 && b.facing == (a.facing + turn(j)) % 4;
        lemma_code_tells_states_apart(map, b, to);
        if j < k {
            assert(exists|j: int| 0 <= j < k && b.facing == (a.facing + turn(j)) % 4);
            assert(now[code(map, b)] is Some);
            if code(map, b) == target {
            } else {
                assert(after[code(map, b)] == now[code(map, b)]);
            }
        } else {
            assert(b == to);
        }
    }
}

/// Take the three moves out of the state `pick` into account.
fn settle(map: &Maze, dist: &mut Vec<Option<u64>>, pick: usize)
    requires
        small(map@),
        old(dist)@.len() == 4 * map@.cells.len(),
        pick < old(dist)@.len(),
        old(dist)@[pick as int] is Some,
        old(dist)@[pick as int]->0 + 1001 <= u64::MAX,
    ensures
        settled_from(map@, old(dist)@, final(dist)@, pick as int),
{
    let directions = taxicab_directions();
    let at = map.unchecked_position(pick / 4);
    let facing = pick % 4;
    let cost = match dist[pick] {
        Some(cost) => cost,
        None => 0,
    };
    let turns: [usize; 3] = [0, 1, 3];
    let ghost before = dist@;
    let mut k: usize = 0;
    proof {
        lemma_state_of_code(map@, pick as int);
    }
    while k < 3
        invariant
            k <= 3,
            small(map@),
            map.wf(),
            before == old(dist)@,
            before.len() == 4 * map@.cells.len(),
            pick < before.len(),
            before[pick as int] == Some(cost),
            cost + 1001 <= u64::MAX,
            state_of(map@, pick as int) == (State { at, facing: facing as int }),
            on_map(map@, state_of(map@, pick as int)),
            directions@.len() == 4,
            forall|d: int|
                0 <= d < 4 ==> (#[trigger] directions@[d])@ == taxicab_directions_spec()[d],
            turns@.len() == 3,
            forall|j: int| 0 <= j < 3 ==> #[trigger] turns@[j] == turn(j),
            settling(map@, before, dist@, pick as int, k as int),
        decreases 3 - k,
    {
        let heading = (facing + turns[k]) % 4;
        let ghost now = dist@;
        match map.step(&at, &directions[heading]) {
            Some(to) => {
                let wall = match map.unchecked_get(&to) {
                    Cell::Wall => true,
                    _ => false,
                };
                if wall {
                    proof {
                        lemma_turn_blocked(map@, before, now, pick as int, k as int);
                    }
                } else {
                    let target = 4 * map.unchecked_index(&to) + heading;
                    let step: u64 = if k == 0 {
                        1
                    } else {
                        1001
                    };
                    proof {
                        let ghost b = State { at: to, facing: heading as int };
                        lemma_code_tells_states_apart(map@, b, b);
                        assert(edge(map@, state_of(map@, pick as int), b) == Some(
                            if k == 0 {
                                1nat
                            } else {
                                1001nat
                            },
                        ));
                    }
                    relax(dist, target, cost + step);
                    proof {
                        lemma_turn_relaxed(
                            map@,
                            before,
                            now,
                            dist@,
                            pick as int,
                            k as int,
                            State { at: to, facing: heading as int },
                        );
                    }
                }
            },
            None => {
                proof {
                    lemma_turn_blocked(map@, before, now, pick as int, k as int);
                }
            },
        }
        k += 1;
    }
}

/// The least costs of the moves from a state to every state, by the number of
/// the state, with the states that were settled: all that have a cost.
pub fn search(map: &Maze, start: Position, facing: usize) -> (r: (Vec<Option<u64>>, Vec<bool>))
    requires
        small(map@),
        map.spec_valid_position(start),
        map.cell(start) != Cell::Wall,
        facing < 4,
    ensures
        searched(map@, State { at: start, facing: facing as int }, r.0@, r.1@),
{
    let ghost from = State { at: start, facing: facing as int };
    let size = map.size();
    let mut dist: Vec<Option<u64>> = Vec::new();
    let mut settled: Vec<bool> = Vec::new();
    let mut c: usize = 0;
    while c < 4 * size
        invariant
            c <= 4 * size,
            4 * size <= usize::MAX,
            dist@.len() == c,
            settled@.len() == c,
            forall|k: int| 0 <= k < c ==> (#[trigger] dist@[k]) is None,
            forall|k: int| 0 <= k < c ==> !#[trigger] settled@[k],
        decreases 4 * size - c,
    {
        dist.push(None);
        settled.push(false);
        c += 1;
    }
    let origin = 4 * map.unchecked_index(&start) + facing;
    dist[origin] = Some(0);
    let ghost mut done: int = 0;
    proof {
        lemma_code_tells_states_apart(map@, from, from);
        assert(path(map@, from, from, 0, 0));
        assert(arrives(map@, from, state_of(map@, origin as int), 0));
        lemma_no_true(settled@, settled@.len() as int);
        assert(settled_count(settled@) == 0);
        assert(dist@[code(map@, from)] == Some(0u64));
        assert forall|c: int| 0 <= c < dist@.len() && (#[trigger] dist@[c]) is Some implies arrives(
            map@,
            from,
            state_of(map@, c),
            dist@[c]->0 as int,
        ) && dist@[c]->0 <= 1001 * settled_count(settled@) by {
            assert(c == origin);
        }
        assert forall|a: State, b: State|
            on_map(map@, a) && settled@[code(map@, a)] && (#[trigger] edge(
                map@,
                a,
                b,
            )) is Some implies dist@[code(map@, b)] is Some && dist@[code(map@, b)]->0 <= dist@[code(
            map@,
            a,
        )]->0 + edge(map@, a, b)->0 by {
            lemma_code_tells_states_apart(map@, a, a);
        }
    }
    loop
        invariant
            small(map@),
            map.wf(),
            size == map@.cells.len(),
            from == (State { at: start, facing: facing as int }),
            searching(map@, from, dist@, settled@),
        decreases dist@.len() - settled_count(settled@),
    {
        let pick = match select(&dist, &settled) {
            Some(pick) => pick,
            None => {
                return (dist, settled);
            },
        };
        let ghost before = dist@;
        let ghost marks = settled@;
        proof {
            crate::etc::count::lemma_count_rise(
                marks.len() as int,
                |c: int| marks[c],
                |c: int| marks.update(pick as int, true)[c],
                pick as int,
            );
            assert(before[pick as int]->0 <= 1001 * settled_count(marks));
            assert(1001 * settled_count(marks) + 1001 <= u64::MAX) by (nonlinear_arith)
                requires
                    settled_count(marks) < 4 * map@.cells.len(),
                    4004 * (map@.cells.len() + 1) <= usize::MAX,
                    usize::MAX <= u64::MAX,
            ;
        }
        settle(map, &mut dist, pick);
        settled[pick] = true;
        proof {
            lemma_settle(map@, from, before, marks, dist@, pick as int);
            assert(settled@ == marks.update(pick as int, true));
        }
    }
}

/// Where no state is settled, the number of settled states is zero.
proof fn lemma_no_true(settled: Seq<bool>, n: int)
    requires
        0 <= n <= settled.len(),
        forall|k: int| 0 <= k < settled.len() ==> !#[trigger] settled[k],
    ensures
        count(n, |c: int| settled[c]) == 0,
    decreases n,
{
    if n > 0 {
        lemma_no_true(settled, n - 1);
    }
}


/// The costs are the least costs of the moves from `from`: each state, by its
/// number, has the least cost of moves to it, and none where no moves lead to it.
pub open spec fn exact(map: GridView<Cell>, from: State, dist: Seq<Option<u64>>) -> bool {
    &&& small(map)
    &&& dist.len() == 4 * map.cells.len()
    &&& forall|s: State|
        on_map(map, s) ==> match #[trigger] dist[code(map, s)] {
            Some(cost) => least(map, from, s, cost as int),
            None => unreachable(map, from, s),
        }
}

/// The least costs of the moves from the state on `start` with the heading
/// `facing` to every state, by the number of the state.
pub fn costs(map: &Maze, start: Position, facing: usize) -> (r: Vec<Option<u64>>)
    requires
        small(map@),
        map.spec_valid_position(start),
        facing < 4,
    ensures
        exact(map@, State { at: start, facing: facing as int }, r@),
{
    let ghost from = State { at: start, facing: facing as int };
    let wall = match map.unchecked_get(&start) {
        Cell::Wall => true,
        _ => false,
    };
    if wall {
        let size = map.size();
        let mut dist: Vec<Option<u64>> = Vec::new();
        let mut c: usize = 0;
        while c < 4 * size
            invariant
                c <= 4 * size,
                4 * size <= usize::MAX,
                dist@.len() == c,
                forall|k: int| 0 <= k < c ==> (#[trigger] dist@[k]) is None,
            decreases 4 * size - c,
        {
            dist.push(None);
            c += 1;
        }
        proof {
            assert forall|s: State| on_map(map@, s) implies match #[trigger] dist@[code(map@, s)] {
                Some(cost) => least(map@, from, s, cost as int),
                None => unreachable(map@, from, s),
            } by {
                lemma_code_tells_states_apart(map@, s, s);
                assert forall|c: int| !arrives(map@, from, s, c) by {
                    if arrives(map@, from, s, c) {
                        let n = choose|n: nat| path(map@, from, s, c, n);
                        lemma_path_facts(map@, from, s, c, n);
                    }
                }
            }
        }
        dist
    } else {
        let (dist, settled) = search(map, start, facing);
        proof {
            assert forall|s: State| on_map(map@, s) implies match #[trigger] dist@[code(map@, s)] {
                Some(cost) => least(map@, from, s, cost as int),
                None => unreachable(map@, from, s),
            } by {
                lemma_searched(map@, from, dist@, settled@, s);
            }
        }
        dist
    }
}

/// The lower of two costs, where `None` is no cost.
pub open spec fn lower(a: Option<u64>, b: Option<u64>) -> Option<u64> {
    match (a, b) {
        (Some(x), Some(y)) => if x <= y {
            a
        } else {
            b
        },
        (Some(_), None) => a,
        _ => b,
    }
}

/// The lowest of the costs of the four states on the cell of index `i`.
pub open spec fn lowest(dist: Seq<Option<u64>>, i: int) -> Option<u64> {
    lower(lower(dist[4 * i], dist[4 * i + 1]), lower(dist[4 * i + 2], dist[4 * i + 3]))
}

fn lower_of(a: Option<u64>, b: Option<u64>) -> (r: Option<u64>)
    ensures
        r == lower(a, b),
{
    match (a, b) {
        (Some(x), Some(y)) => if x <= y {
            a
        } else {
            b
        },
        (Some(_), None) => a,
        _ => b,
    }
}

/// The lowest of the costs of the four states on the cell of index `i`.
pub fn cheapest(dist: &Vec<Option<u64>>, i: usize) -> (r: Option<u64>)
    requires
        4 * i + 3 < dist@.len(),
    ensures
        r == lowest(dist@, i as int),
{
    let states: usize = dist.len();
    assert(4 * i + 3 < states);
    lower_of(lower_of(dist[4 * i], dist[4 * i + 1]), lower_of(dist[4 * i + 2], dist[4 * i + 3]))
}

/// `cost` is the least cost of moves from `from` to the cell, under any heading.
pub open spec fn cell_cost(map: GridView<Cell>, from: State, at: Position, cost: int) -> bool {
    &&& exists|d: int| 0 <= d < 4 && #[trigger] arrives(map, from, State { at, facing: d }, cost)
    &&& forall|d: int, c: int|
        0 <= d < 4 && #[trigger] arrives(map, from, State { at, facing: d }, c) ==> cost <= c
}

/// No moves lead from `from` to the cell.
pub open spec fn cell_unreachable(map: GridView<Cell>, from: State, at: Position) -> bool {
    forall|d: int, c: int| 0 <= d < 4 ==> !#[trigger] arrives(map, from, State { at, facing: d }, c)
}

/// The lowest of the exact costs of the four states on a cell is the least cost
/// of moves to the cell.
pub proof fn lemma_lowest(map: GridView<Cell>, from: State, dist: Seq<Option<u64>>, at: Position)
    requires
        exact(map, from, dist),
        map.valid(at),
    ensures
        match lowest(dist, map.index_of(at)) {
            Some(cost) => cell_cost(map, from, at, cost as int),
            None => cell_unreachable(map, from, at),
        },
{
    let i = map.index_of(at);
    let s0 = State { at, facing: 0 };
    let s1 = State { at, facing: 1 };
    let s2 = State { at, facing: 2 };
    let s3 = State { at, facing: 3 };
    map.lemma_position_round_trip(at);
    assert(code(map, s0) == 4 * i && code(map, s1) == 4 * i + 1 && code(map, s2) == 4 * i + 2
        && code(map, s3) == 4 * i + 3);
    let d0 = dist[code(map, s0)];
    let d1 = dist[code(map, s1)];
    let d2 = dist[code(map, s2)];
    let d3 = dist[code(map, s3)];
    match lowest(dist, i) {
        Some(cost) => {
            assert forall|d: int, c: int|
                0 <= d < 4 && #[trigger] arrives(map, from, State { at, facing: d }, c) implies cost
                <= c by {
                if d == 0 {
                    assert(State { at, facing: d } == s0);
                } else if d == 1 {
                    assert(State { at, facing: d } == s1);
                } else if d == 2 {
                    assert(State { at, facing: d } == s2);
                } else {
                    assert(State { at, facing: d } == s3);
                }
            }
            if d0 == Some(cost) {
                assert(arrives(map, from, State { at, facing: 0 }, cost as int));
            } else if d1 == Some(cost) {
                assert(arrives(map, from, State { at, facing: 1 }, cost as int));
            } else if d2 == Some(cost) {
                assert(arrives(map, from, State { at, facing: 2 }, cost as int));
            } else {
                assert(d3 == Some(cost));
                assert(arrives(map, from, State { at, facing: 3 }, cost as int));
            }
        },
        None => {
            assert forall|d: int, c: int| 0 <= d < 4 implies !#[trigger] arrives(
                map,
                from,
                State { at, facing: d },
                c,
            ) by {
                if d == 0 {
                    assert(State { at, facing: d } == s0);
                } else if d == 1 {
                    assert(State { at, facing: d } == s1);
                } else if d == 2 {
                    assert(State { at, facing: d } == s2);
                } else {
                    assert(State { at, facing: d } == s3);
                }
            }
        },
    }
}

/// What the search records in a cell: a wall stays a wall; a cell to which
/// moves lead from `from` holds the least cost of such moves; any other cell is
/// unreached.
pub open spec fn recorded(
    before: GridView<Cell>,
    from: State,
    after: GridView<Cell>,
) -> bool {
    &&& after.lines == before.lines
    &&& after.columns == before.columns
    &&& after.wf()
    &&& forall|pos: Position|
        before.valid(pos) ==> match #[trigger] after.cell(pos) {
            Cell::Wall => before.cell(pos) == Cell::Wall,
            Cell::Reached(cost) => before.cell(pos) != Cell::Wall && cell_cost(
                before,
                from,
                pos,
                cost as int,
            ),
            Cell::Unreached => before.cell(pos) != Cell::Wall && cell_unreachable(before, from, pos),
        }
}

/// The heading at the start of every search: east.
pub open spec fn setting_out(start: Position) -> State {
    State { at: start, facing: 1 }
}

/// Record in each cell the least cost of moves to it from `start`, setting out
/// eastwards, and return the least cost of moves to `end`, or `None` where no
/// moves lead there.
pub fn compute_least_distances(map: &mut Maze, start: Position, end: Position) -> (r: Option<u64>)
    requires
        small(old(map)@),
        old(map).spec_valid_position(start),
        old(map).spec_valid_position(end),
    ensures
        recorded(old(map)@, setting_out(start), final(map)@),
        match r {
            Some(cost) => cell_cost(old(map)@, setting_out(start), end, cost as int),
            None => cell_unreachable(old(map)@, setting_out(start), end),
        },
{
    let ghost before = map@;
    let ghost from = setting_out(start);
    let dist = costs(map, start, 1);
    let size = map.size();
    let mut i: usize = 0;
    while i < size
        invariant
            i <= size,
            size == before.cells.len(),
            map.wf(),
            map@.lines == before.lines,
            map@.columns == before.columns,
            exact(before, from, dist@),
            forall|k: int| i <= k < size ==> #[trigger] map@.cells[k] == before.cells[k],
            forall|k: int|
                0 <= k < i ==> match #[trigger] map@.cells[k] {
                    Cell::Wall => before.cells[k] == Cell::Wall,
                    Cell::Reached(cost) => before.cells[k] != Cell::Wall && lowest(dist@, k) == Some(
                        cost,
                    ),
                    Cell::Unreached => before.cells[k] != Cell::Wall && lowest(dist@, k) is None,
                },
        decreases size - i,
    {
        let pos = map.unchecked_position(i);
        let wall = match map.unchecked_get(&pos) {
            Cell::Wall => true,
            _ => false,
        };
        if !wall {
            let cell = match cheapest(&dist, i) {
                Some(cost) => Cell::Reached(cost),
                None => Cell::Unreached,
            };
            map.update(&pos, cell);
        }
        i += 1;
    }
    proof {
        assert forall|pos: Position| before.valid(pos) implies match #[trigger] map@.cell(pos) {
            Cell::Wall => before.cell(pos) == Cell::Wall,
            Cell::Reached(cost) => before.cell(pos) != Cell::Wall && cell_cost(
                before,
                from,
                pos,
                cost as int,
            ),
            Cell::Unreached => before.cell(pos) != Cell::Wall && cell_unreachable(before, from, pos),
        } by {
            before.lemma_position_round_trip(pos);
            lemma_lowest(before, from, dist@, pos);
            let k = before.index_of(pos);
            assert(map@.cell(pos) == map@.cells[k]);
        }
        lemma_lowest(before, from, dist@, end);
    }
    cheapest(&dist, map.unchecked_index(&end))
}

/// The state lies on moves from `from` to the cell `end` that cost `best` in
/// all: some moves lead to it, and some lead on from it to the end, at that cost.
pub open spec fn lies_on(map: GridView<Cell>, from: State, end: Position, best: int, s: State) -> bool {
    exists|before: int, n: nat|
        arrives(map, from, s, before) && #[trigger] finish(map, s, end, best - before, n)
}

/// The cell lies on moves from `from` to the cell `end` that cost `best` in all.
pub open spec fn on_best_path(
    map: GridView<Cell>,
    from: State,
    end: Position,
    best: int,
    at: Position,
) -> bool {
    exists|d: int| 0 <= d < 4 && #[trigger] lies_on(map, from, end, best, State { at, facing: d })
}

/// The state has a cost, and moves lead on from it to the end at what is left of
/// `best`.
pub open spec fn tight(
    map: GridView<Cell>,
    dist: Seq<Option<u64>>,
    end: Position,
    best: int,
    s: State,
) -> bool {
    dist[code(map, s)] is Some && exists|n: nat| #[trigger]
        finish(map, s, end, best - dist[code(map, s)]->0, n)
}

/// The move from `a` to `b` is one of moves of least cost: the cost of `b` is
/// that of `a` and of the move.
pub open spec fn tight_move(map: GridView<Cell>, dist: Seq<Option<u64>>, a: State, b: State) -> bool {
    &&& edge(map, a, b) is Some
    &&& dist[code(map, a)] is Some
    &&& dist[code(map, b)] is Some
    &&& dist[code(map, a)]->0 + edge(map, a, b)->0 == dist[code(map, b)]->0
}

/// The state of the way back from the end. Every marked state is tight; the
/// states on the end that cost `best` are marked; and a state is marked where a
/// tight move leads from it to a marked state that is not waiting on the stack,
/// nor the state `v` whose moves are being looked at (`v` is `-1` where there is
/// none): of `v`, this holds for the first `k` turns.
pub open spec fn tracing(
    map: GridView<Cell>,
    from: State,
    dist: Seq<Option<u64>>,
    end: Position,
    best: int,
    marks: Seq<bool>,
    stack: Seq<usize>,
    v: int,
    k: int,
) -> bool {
    &&& exact(map, from, dist)
    &&& map.valid(end)
    &&& cell_cost(map, from, end, best)
    &&& marks.len() == dist.len()
    &&& forall|i: int|
        0 <= i < stack.len() ==> (#[trigger] stack[i]) < marks.len() && marks[stack[i] as int]
    &&& forall|c: int|
        0 <= c < marks.len() && #[trigger] marks[c] ==> tight(map, dist, end, best, state_of(map, c))
    &&& forall|d: int|
        0 <= d < 4 && dist[4 * map.index_of(end) + d] == Some(best as u64) ==> #[trigger] marks[4
            * map.index_of(end) + d]
    &&& forall|a: State, b: State|
        #![trigger edge(map, a, b)]
        tight_move(map, dist, a, b) && marks[code(map, b)] && !stack.contains(code(map, b) as usize)
            && code(map, b) != v ==> marks[code(map, a)]
    &&& v >= 0 ==> {
        &&& v < marks.len()
        &&& marks[v]
        &&& forall|a: State|
            #![trigger edge(map, a, state_of(map, v))]
            tight_move(map, dist, a, state_of(map, v)) && (exists|j: int|
                0 <= j < k && state_of(map, v).facing == (a.facing + turn(j)) % 4)
                ==> marks[code(map, a)]
    }
}

/// The cell behind a cell is the one from which a step ahead leads to it.
pub proof fn lemma_step_back(map: GridView<Cell>, a: Position, b: Position, d: int)
    requires
        map.valid(a),
        0 <= d < 4,
        neighbour(map, a, d) == Some(b),
    ensures
        neighbour(map, b, (d + 2) % 4) == Some(a),
        a != b,
{
}

/// The cell ahead of the cell behind a cell is that cell.
pub proof fn lemma_step_ahead(map: GridView<Cell>, a: Position, b: Position, d: int)
    requires
        map.valid(b),
        0 <= d < 4,
        neighbour(map, b, (d + 2) % 4) == Some(a),
    ensures
        neighbour(map, a, d) == Some(b),
{
}

/// After the way back, the marked states are those that lie on moves of least
/// cost to the end.
pub proof fn lemma_traced(
    map: GridView<Cell>,
    from: State,
    dist: Seq<Option<u64>>,
    end: Position,
    best: int,
    marks: Seq<bool>,
    s: State,
    before: int,
    n: nat,
)
    requires
        tracing(map, from, dist, end, best, marks, Seq::<usize>::empty(), -1, 0),
        arrives(map, from, s, before),
        finish(map, s, end, best - before, n),
    ensures
        marks[code(map, s)],
        dist[code(map, s)] is Some,
        dist[code(map, s)]->0 == before,
    decreases n,
{
    lemma_finish_facts(map, s, end, best - before, n);
    lemma_code_tells_states_apart(map, s, s);
    let known = dist[code(map, s)];
    assert(known is Some) by {
        if known is None {
            assert(unreachable(map, from, s));
        }
    }
    let ls = known->0 as int;
    assert(least(map, from, s, ls));
    lemma_path_joins(map, from, s, end, ls, best - before, n);
    assert(ls == before);
    if n == 0 {
        map.lemma_position_round_trip(end);
        assert(code(map, s) == 4 * map.index_of(end) + s.facing);
    } else {
        let next = choose|next: State|
            (#[trigger] edge(map, s, next)) is Some && finish(
                map,
                next,
                end,
                (best - before) - edge(map, s, next)->0,
                (n - 1) as nat,
            );
        let w = edge(map, s, next)->0;
        lemma_path_extend(map, from, s, next, before);
        assert(best - (before + w) == (best - before) - w);
        lemma_traced(map, from, dist, end, best, marks, next, before + w, (n - 1) as nat);
        lemma_code_tells_states_apart(map, next, next);
        assert(tight_move(map, dist, s, next));
        assert(!Seq::<usize>::empty().contains(code(map, next) as usize));
    }
}

/// The number of states that are not marked.
pub open spec fn unmarked(marks: Seq<bool>) -> int {
    count(marks.len() as int, |c: int| !marks[c])
}

/// Looking at the moves into a state that waits on the stack starts with no turn
/// looked at.
proof fn lemma_trace_pop(
    map: GridView<Cell>,
    from: State,
    dist: Seq<Option<u64>>,
    end: Position,
    best: int,
    marks: Seq<bool>,
    stack: Seq<usize>,
)
    requires
        tracing(map, from, dist, end, best, marks, stack, -1, 0),
        stack.len() > 0,
    ensures
        tracing(map, from, dist, end, best, marks, stack.drop_last(), stack.last() as int, 0),
{
    let rest = stack.drop_last();
    let v = stack.last() as int;
    assert(stack[stack.len() - 1] == stack.last());
    assert forall|i: int| 0 <= i < rest.len() implies (#[trigger] rest[i]) < marks.len() && marks[rest[i] as int] by {
        assert(rest[i] == stack[i]);
    }
    assert forall|a: State, b: State|
        #![trigger edge(map, a, b)]
        tight_move(map, dist, a, b) && marks[code(map, b)] && !rest.contains(code(map, b) as usize)
            && code(map, b) != v implies marks[code(map, a)] by {
        lemma_code_tells_states_apart(map, b, b);
        let cb = code(map, b) as usize;
        if stack.contains(cb) {
            let i = choose|i: int| 0 <= i < stack.len() && stack[i] == cb;
            if i < rest.len() {
                assert(rest[i] == cb);
            }
        }
    }
}

/// A turn under which no tight move leads into the state.
proof fn lemma_trace_skip(
    map: GridView<Cell>,
    from: State,
    dist: Seq<Option<u64>>,
    end: Position,
    best: int,
    marks: Seq<bool>,
    stack: Seq<usize>,
    v: int,
    k: int,
)
    requires
        tracing(map, from, dist, end, best, marks, stack, v, k),
        v >= 0,
        0 <= k < 3,
        forall|a: State|
            #![trigger edge(map, a, state_of(map, v))]
            tight_move(map, dist, a, state_of(map, v)) && state_of(map, v).facing == (a.facing + turn(
                k,
            )) % 4 ==> marks[code(map, a)],
    ensures
        tracing(map, from, dist, end, best, marks, stack, v, k + 1),
{
    assert forall|a: State|
        #![trigger edge(map, a, state_of(map, v))]
        tight_move(map, dist, a, state_of(map, v)) && (exists|j: int|
            0 <= j < k + 1 && state_of(map, v).facing == (a.facing + turn(j)) % 4) implies marks[code(
        map,
        a,
    )] by {
        let j = choose|j: int| 0 <= j < k + 1 && state_of(map, v).facing == (a.facing + turn(j)) % 4;
        if j < k {
            assert(exists|j: int| 0 <= j < k && state_of(map, v).facing == (a.facing + turn(j)) % 4);
        }
    }
}

/// Marking the state from which a tight move leads into the state looked at, and
/// putting it on the stack.
proof fn lemma_trace_mark(
    map: GridView<Cell>,
    from: State,
    dist: Seq<Option<u64>>,
    end: Position,
    best: int,
    marks: Seq<bool>,
    stack: Seq<usize>,
    v: int,
    k: int,
    a: State,
)
    requires
        tracing(map, from, dist, end, best, marks, stack, v, k),
        v >= 0,
        0 <= k < 3,
        tight_move(map, dist, a, state_of(map, v)),
        !marks[code(map, a)],
        code(map, a) <= usize::MAX,
    ensures
        tracing(
            map,
            from,
            dist,
            end,
            best,
            marks.update(code(map, a), true),
            stack.push(code(map, a) as usize),
            v,
            k,
        ),
        unmarked(marks.update(code(map, a), true)) == unmarked(marks) - 1,
        0 <= code(map, a) < marks.len(),
{
    let ca = code(map, a);
    let b = state_of(map, v);
    let after = marks.update(ca, true);
    let grown = stack.push(ca as usize);
    lemma_state_of_code(map, v);
    lemma_code_tells_states_apart(map, a, a);
    assert forall|i: int| 0 <= i < grown.len() implies (#[trigger] grown[i]) < after.len()
        && after[grown[i] as int] by {
        if i < stack.len() {
            assert(grown[i] == stack[i]);
        }
    }
    assert(tight(map, dist, end, best, a)) by {
        assert(tight(map, dist, end, best, b));
        let n = choose|n: nat| #[trigger] finish(map, b, end, best - dist[code(map, b)]->0, n);
        let w = edge(map, a, b)->0;
        assert((best - dist[ca]->0) - w == best - dist[code(map, b)]->0);
        assert(finish(map, b, end, (best - dist[ca]->0) - w, ((n + 1) - 1) as nat));
        assert(finish(map, a, end, best - dist[ca]->0, n + 1));
    }
    assert forall|x: State, y: State|
        #![trigger edge(map, x, y)]
        tight_move(map, dist, x, y) && after[code(map, y)] && !grown.contains(code(map, y) as usize)
            && code(map, y) != v implies after[code(map, x)] by {
        lemma_code_tells_states_apart(map, y, y);
        lemma_code_tells_states_apart(map, x, x);
        let cy = code(map, y);
        if cy == ca {
            assert(grown[stack.len() as int] == ca as usize);
        } else {
            if stack.contains(cy as usize) {
                let i = choose|i: int| 0 <= i < stack.len() && stack[i] == cy as usize;
                assert(grown[i] == cy as usize);
            }
            assert(marks[code(map, x)]);
        }
    }
    assert forall|x: State|
        #![trigger edge(map, x, state_of(map, v))]
        tight_move(map, dist, x, state_of(map, v)) && (exists|j: int|
            0 <= j < k && state_of(map, v).facing == (x.facing + turn(j)) % 4) implies after[code(
        map,
        x,
    )] by {
        lemma_code_tells_states_apart(map, x, x);
        assert(marks[code(map, x)]);
    }
    assert forall|c: int| 0 <= c < after.len() && #[trigger] after[c] implies tight(
        map,
        dist,
        end,
        best,
        state_of(map, c),
    ) by {
        if c != ca {
            assert(marks[c]);
        }
    }
    assert forall|d: int|
        0 <= d < 4 && dist[4 * map.index_of(end) + d] == Some(best as u64) implies #[trigger] after[4
        * map.index_of(end) + d] by {
        map.lemma_position_round_trip(end);
        assert(marks[4 * map.index_of(end) + d]);
    }
    assert(after[v]);
    crate::etc::count::lemma_count_drop(
        marks.len() as int,
        |c: int| !marks[c],
        |c: int| !after[c],
        ca,
    );
}

/// Once the three turns are looked at, the state looked at is done with.
proof fn lemma_trace_done(
    map: GridView<Cell>,
    from: State,
    dist: Seq<Option<u64>>,
    end: Position,
    best: int,
    marks: Seq<bool>,
    stack: Seq<usize>,
    v: int,
)
    requires
        tracing(map, from, dist, end, best, marks, stack, v, 3),
        v >= 0,
    ensures
        tracing(map, from, dist, end, best, marks, stack, -1, 0),
{
    assert forall|a: State, b: State|
        #![trigger edge(map, a, b)]
        tight_move(map, dist, a, b) && marks[code(map, b)] && !stack.contains(code(map, b) as usize)
            && code(map, b) != -1 implies marks[code(map, a)] by {
        lemma_code_tells_states_apart(map, b, b);
        if code(map, b) == v {
            assert(state_of(map, v) == b);
            assert(exists|j: int| 0 <= j < 3 && b.facing == (a.facing + turn(j)) % 4) by {
                if b.facing == a.facing {
                    assert(b.facing == (a.facing + turn(0)) % 4);
                } else if b.facing == (a.facing + 1) % 4 {
                    assert(b.facing == (a.facing + turn(1)) % 4);
                } else {
                    assert(b.facing == (a.facing + turn(2)) % 4);
                }
            }
        }
    }
}


/// The states on the end that cost `best` are marked and wait on the stack, and
/// no other state is marked: the way back can start.
proof fn lemma_trace_start(
    map: GridView<Cell>,
    from: State,
    dist: Seq<Option<u64>>,
    end: Position,
    best: int,
    marks: Seq<bool>,
    stack: Seq<usize>,
)
    requires
        exact(map, from, dist),
        map.valid(end),
        cell_cost(map, from, end, best),
        0 <= best <= u64::MAX,
        marks.len() == dist.len(),
        forall|i: int|
            0 <= i < stack.len() ==> (#[trigger] stack[i]) < marks.len() && marks[stack[i] as int],
        forall|c: int| 0 <= c < marks.len() && #[trigger] marks[c] ==> stack.contains(c as usize),
        forall|c: int|
            0 <= c < marks.len() ==> (#[trigger] marks[c] <==> 4 * map.index_of(end) <= c < 4
                * map.index_of(end) + 4 && dist[c] == Some(best as u64)),
    ensures
        tracing(map, from, dist, end, best, marks, stack, -1, 0),
{
    map.lemma_position_round_trip(end);
    assert forall|c: int| 0 <= c < marks.len() && #[trigger] marks[c] implies tight(
        map,
        dist,
        end,
        best,
        state_of(map, c),
    ) by {
        lemma_state_of_code(map, c);
        let s = state_of(map, c);
        assert(c / 4 == map.index_of(end));
        assert(s.at == end);
        assert(finish(map, s, end, best - dist[code(map, s)]->0, 0));
    }
    assert forall|a: State, b: State|
        #![trigger edge(map, a, b)]
        tight_move(map, dist, a, b) && marks[code(map, b)] && !stack.contains(code(map, b) as usize)
            && code(map, b) != -1 implies marks[code(map, a)] by {
        lemma_code_tells_states_apart(map, b, b);
    }
}

/// A turn is looked at: the one state from which a move under this turn leads
/// into the state looked at is marked, or the move is not tight, or there is no
/// such state.
#[verifier::spinoff_prover]
#[verifier::rlimit(50)]
proof fn lemma_trace_turn(
    map: GridView<Cell>,
    from: State,
    dist: Seq<Option<u64>>,
    end: Position,
    best: int,
    marks: Seq<bool>,
    stack: Seq<usize>,
    v: int,
    k: int,
)
    requires
        tracing(map, from, dist, end, best, marks, stack, v, k),
        v >= 0,
        0 <= k < 3,
        match neighbour(map, state_of(map, v).at, (state_of(map, v).facing + 2) % 4) {
            Some(prev) => {
                let a = State { at: prev, facing: (state_of(map, v).facing + 4 - turn(k)) % 4 };
                marks[code(map, a)] || !tight_move(map, dist, a, state_of(map, v))
            },
            None => true,
        },
    ensures
        tracing(map, from, dist, end, best, marks, stack, v, k + 1),
{
    let here = state_of(map, v);
    lemma_state_of_code(map, v);
    assert forall|x: State|
        #![trigger edge(map, x, state_of(map, v))]
        tight_move(map, dist, x, state_of(map, v)) && state_of(map, v).facing == (x.facing + turn(
            k,
        )) % 4 implies marks[code(map, x)] by {
        lemma_step_back(map, x.at, here.at, here.facing);
        let prev = neighbour(map, here.at, (here.facing + 2) % 4)->0;
        let a = State { at: prev, facing: (here.facing + 4 - turn(k)) % 4 };
        assert(x.facing == a.facing);
        assert(x == a);
    }
    lemma_trace_skip(map, from, dist, end, best, marks, stack, v, k);
}

/// Look at the move into the state `v` under the turn `k`: where it is tight, the
/// state it comes from is marked, and put on the stack if it was not marked.
#[verifier::spinoff_prover]
#[verifier::rlimit(100)]
fn look_back(
    map: &Maze,
    dist: &Vec<Option<u64>>,
    marks: &mut Vec<bool>,
    stack: &mut Vec<usize>,
    v: usize,
    k: usize,
    behind: Option<Position>,
    Ghost(from): Ghost<State>,
    Ghost(end): Ghost<Position>,
    Ghost(best): Ghost<int>,
)
    requires
        map.wf(),
        k < 3,
        v < dist@.len(),
        dist@[v as int] is Some,
        map@.cell(state_of(map@, v as int).at) != Cell::Wall,
        behind == neighbour(
            map@,
            state_of(map@, v as int).at,
            (state_of(map@, v as int).facing + 2) % 4,
        ),
        tracing(map@, from, dist@, end, best, old(marks)@, old(stack)@, v as int, k as int),
    ensures
        tracing(map@, from, dist@, end, best, final(marks)@, final(stack)@, v as int, k + 1),
        (unmarked(final(marks)@) == unmarked(old(marks)@) && final(stack)@.len() == old(stack)@.len())
            || unmarked(final(marks)@) < unmarked(old(marks)@),
{
    let prev = match behind {
        Some(prev) => prev,
        None => {
            proof {
                lemma_trace_turn(map@, from, dist@, end, best, marks@, stack@, v as int, k as int);
            }
            return ;
        },
    };
    let facing = v % 4;
    let turned: usize = if k == 0 {
        0
    } else if k == 1 {
        1
    } else {
        3
    };
    let heading = (facing + 4 - turned) % 4;
    let step: u64 = if k == 0 {
        1
    } else {
        1001
    };
    let cost = match dist[v] {
        Some(cost) => cost,
        None => 0,
    };
    let states: usize = dist.len();
    let origin = 4 * map.unchecked_index(&prev) + heading;
    let ghost here = state_of(map@, v as int);
    let ghost a = State { at: prev, facing: heading as int };
    proof {
        lemma_state_of_code(map@, v as int);
        lemma_code_tells_states_apart(map@, a, a);
        lemma_step_ahead(map@, prev, here.at, here.facing);
        assert(edge(map@, a, here) == Some(
            if k == 0 {
                1nat
            } else {
                1001nat
            },
        ));
    }
    let leads = match dist[origin] {
        Some(known) => cost >= step && known == cost - step,
        None => false,
    };
    if leads && !marks[origin] {
        proof {
            lemma_trace_mark(map@, from, dist@, end, best, marks@, stack@, v as int, k as int, a);
        }
        marks[origin] = true;
        stack.push(origin);
    }
    proof {
        lemma_trace_turn(map@, from, dist@, end, best, marks@, stack@, v as int, k as int);
    }
}

/// Mark the states that lie on moves of least cost from `from` to the end, by
/// going back from the end over the moves of least cost.
fn trace_back(
    map: &Maze,
    dist: &Vec<Option<u64>>,
    end: Position,
    best: u64,
    Ghost(from): Ghost<State>,
) -> (marks: Vec<bool>)
    requires
        exact(map@, from, dist@),
        map.spec_valid_position(end),
        cell_cost(map@, from, end, best as int),
    ensures
        marks@.len() == dist@.len(),
        forall|s: State|
            on_map(map@, s) ==> (#[trigger] marks@[code(map@, s)] <==> lies_on(
                map@,
                from,
                end,
                best as int,
                s,
            )),
{
    let directions = taxicab_directions();
    let turns: [usize; 3] = [0, 1, 3];
    let states = dist.len();
    let mut marks: Vec<bool> = Vec::new();
    let mut c: usize = 0;
    while c < states
        invariant
            c <= states,
            marks@.len() == c,
            forall|k: int| 0 <= k < c ==> !#[trigger] marks@[k],
        decreases states - c,
    {
        marks.push(false);
        c += 1;
    }
    let mut stack: Vec<usize> = Vec::new();
    let end_index = map.unchecked_index(&end);
    let mut d: usize = 0;
    while d < 4
        invariant
            d <= 4,
            states == dist@.len(),
            states == 4 * map@.cells.len(),
            end_index == map@.index_of(end),
            end_index < map@.cells.len(),
            marks@.len() == states,
            forall|i: int|
                0 <= i < stack@.len() ==> (#[trigger] stack@[i]) < marks@.len() && marks@[stack@[i] as int],
            forall|c: int|
                0 <= c < marks@.len() && #[trigger] marks@[c] ==> stack@.contains(c as usize),
            forall|c: int|
                0 <= c < marks@.len() ==> (#[trigger] marks@[c] <==> 4 * end_index <= c < 4 * end_index
                    + d && dist@[c] == Some(best)),
        decreases 4 - d,
    {
        let here = 4 * end_index + d;
        let costs_best = match dist[here] {
            Some(cost) => cost == best,
            None => false,
        };
        if costs_best {
            let ghost before = stack@;
            marks[here] = true;
            stack.push(here);
            proof {
                assert forall|i: int| 0 <= i < stack@.len() implies (#[trigger] stack@[i]) < marks@.len()
                    && marks@[stack@[i] as int] by {
                    if i < before.len() {
                        assert(stack@[i] == before[i]);
                    }
                }
                assert forall|c: int|
                    0 <= c < marks@.len() && #[trigger] marks@[c] implies stack@.contains(
                    c as usize,
                ) by {
                    if c == here {
                        assert(stack@[before.len() as int] == here);
                    } else {
                        let i = choose|i: int| 0 <= i < before.len() && before[i] == c as usize;
                        assert(stack@[i] == c as usize);
                    }
                }
            }
        }
        d += 1;
    }
    proof {
        lemma_trace_start(map@, from, dist@, end, best as int, marks@, stack@);
    }
    while stack.len() > 0
        invariant
            map.wf(),
            states == dist@.len(),
            directions@.len() == 4,
            forall|d: int|
                0 <= d < 4 ==> (#[trigger] directions@[d])@ == taxicab_directions_spec()[d],
            turns@.len() == 3,
            forall|j: int| 0 <= j < 3 ==> #[trigger] turns@[j] == turn(j),
            tracing(map@, from, dist@, end, best as int, marks@, stack@, -1, 0),
        decreases unmarked(marks@), stack@.len(),
    {
        let ghost at_pop = unmarked(marks@);
        let ghost waiting = stack@.len();
        proof {
            lemma_trace_pop(map@, from, dist@, end, best as int, marks@, stack@);
        }
        let v = match stack.pop() {
            Some(v) => v,
            None => 0,
        };
        let at = map.unchecked_position(v / 4);
        let facing = v % 4;
        let ghost here = state_of(map@, v as int);
        proof {
            lemma_state_of_code(map@, v as int);
            assert(tight(map@, dist@, end, best as int, here));
            assert(least(map@, from, here, dist@[v as int]->0 as int));
            let n = choose|n: nat| path(map@, from, here, dist@[v as int]->0 as int, n);
            lemma_path_facts(map@, from, here, dist@[v as int]->0 as int, n);
        }
        let cost = match dist[v] {
            Some(cost) => cost,
            None => 0,
        };
        let behind = map.step(&at, &directions[(facing + 2) % 4]);
        let mut k: usize = 0;
        while k < 3
            invariant
                k <= 3,
                map.wf(),
                states == dist@.len(),
                v < states,
                dist@[v as int] == Some(cost),
                here == state_of(map@, v as int),
                here == (State { at, facing: facing as int }),
                on_map(map@, here),
                code(map@, here) == v,
                map@.cell(at) != Cell::Wall,
                behind == neighbour(map@, at, (facing + 2) % 4),
                tracing(map@, from, dist@, end, best as int, marks@, stack@, v as int, k as int),
                unmarked(marks@) < at_pop || (unmarked(marks@) == at_pop && stack@.len() == waiting
                    - 1),
            decreases 3 - k,
        {
            look_back(
                map,
                dist,
                &mut marks,
                &mut stack,
                v,
                k,
                behind,
                Ghost(from),
                Ghost(end),
                Ghost(best as int),
            );
            k += 1;
        }
        proof {
            crate::etc::count::lemma_count_bounds(marks@.len() as int, |c: int| !marks@[c]);
            lemma_trace_done(map@, from, dist@, end, best as int, marks@, stack@, v as int);
        }
    }
    proof {
        assert(stack@ =~= Seq::<usize>::empty());
        assert forall|s: State| on_map(map@, s) implies (#[trigger] marks@[code(map@, s)] <==> lies_on(
            map@,
            from,
            end,
            best as int,
            s,
        )) by {
            lemma_code_tells_states_apart(map@, s, s);
            if lies_on(map@, from, end, best as int, s) {
                let (before, n) = choose|before: int, n: nat|
                    arrives(map@, from, s, before) && #[trigger] finish(
                        map@,
                        s,
                        end,
                        best - before,
                        n,
                    );
                lemma_traced(map@, from, dist@, end, best as int, marks@, s, before, n);
            }
            if marks@[code(map@, s)] {
                assert(tight(map@, dist@, end, best as int, s));
                let cs = dist@[code(map@, s)]->0 as int;
                let n = choose|n: nat| #[trigger] finish(map@, s, end, best - cs, n);
                assert(least(map@, from, s, cs));
                assert(arrives(map@, from, s, cs) && finish(map@, s, end, best - cs, n));
            }
        }
    }
    marks
}

/// The cell lies on moves of least cost from `from` to the cell `end`.
pub open spec fn on_a_best_path(map: GridView<Cell>, from: State, end: Position, at: Position) -> bool {
    exists|best: int| cell_cost(map, from, end, best) && #[trigger] on_best_path(map, from, end, best, at)
}

/// For each cell, by its index, whether it lies on moves of least cost from
/// `start`, setting out eastwards, to `end`. No cell does where no moves lead to
/// `end`.
pub fn best_path_cells(map: &Maze, start: Position, end: Position) -> (r: Vec<bool>)
    requires
        small(map@),
        map.spec_valid_position(start),
        map.spec_valid_position(end),
    ensures
        r@.len() == map@.cells.len(),
        forall|pos: Position|
            map@.valid(pos) ==> (#[trigger] r@[map@.index_of(pos)] <==> on_a_best_path(
                map@,
                setting_out(start),
                end,
                pos,
            )),
{
    let ghost from = setting_out(start);
    let dist = costs(map, start, 1);
    let size = map.size();
    let end_index = map.unchecked_index(&end);
    let best = cheapest(&dist, end_index);
    proof {
        lemma_lowest(map@, from, dist@, end);
    }
    let mut cells: Vec<bool> = Vec::new();
    match best {
        Some(best) => {
            let marks = trace_back(map, &dist, end, best, Ghost(from));
            let total: usize = marks.len();
            let mut i: usize = 0;
            while i < size
                invariant
                    i <= size,
                    size == map@.cells.len(),
                    marks@.len() == 4 * size,
                    total == 4 * size,
                    cells@.len() == i,
                    forall|k: int|
                        0 <= k < i ==> (#[trigger] cells@[k] <==> marks@[4 * k] || marks@[4 * k + 1]
                            || marks@[4 * k + 2] || marks@[4 * k + 3]),
                decreases size - i,
            {
                cells.push(marks[4 * i] || marks[4 * i + 1] || marks[4 * i + 2] || marks[4 * i + 3]);
                i += 1;
            }
            proof {
                assert forall|pos: Position| map@.valid(pos) implies (#[trigger] cells@[map@.index_of(
                    pos,
                )] <==> on_a_best_path(map@, from, end, pos)) by {
                    map@.lemma_position_round_trip(pos);
                    let k = map@.index_of(pos);
                    let s0 = State { at: pos, facing: 0 };
                    let s1 = State { at: pos, facing: 1 };
                    let s2 = State { at: pos, facing: 2 };
                    let s3 = State { at: pos, facing: 3 };
                    assert(code(map@, s0) == 4 * k && code(map@, s1) == 4 * k + 1 && code(map@, s2) == 4
                        * k + 2 && code(map@, s3) == 4 * k + 3);
                    assert(marks@[code(map@, s0)] <==> lies_on(map@, from, end, best as int, s0));
                    assert(marks@[code(map@, s1)] <==> lies_on(map@, from, end, best as int, s1));
                    assert(marks@[code(map@, s2)] <==> lies_on(map@, from, end, best as int, s2));
                    assert(marks@[code(map@, s3)] <==> lies_on(map@, from, end, best as int, s3));
                    if on_a_best_path(map@, from, end, pos) {
                        let other = choose|other: int|
                            cell_cost(map@, from, end, other) && #[trigger] on_best_path(
                                map@,
                                from,
                                end,
                                other,
                                pos,
                            );
                        lemma_cell_cost_unique(map@, from, end, other, best as int);
                        let d = choose|d: int|
                            0 <= d < 4 && #[trigger] lies_on(
                                map@,
                                from,
                                end,
                                best as int,
                                State { at: pos, facing: d },
                            );
                        if d == 0 {
                        } else if d == 1 {
                        } else if d == 2 {
                        } else {
                            assert(d == 3);
                        }
                    }
                    if cells@[k] {
                        assert(on_best_path(map@, from, end, best as int, pos));
                    }
                }
            }
        },
        None => {
            let mut i: usize = 0;
            while i < size
                invariant
                    i <= size,
                    cells@.len() == i,
                    forall|k: int| 0 <= k < i ==> !#[trigger] cells@[k],
                decreases size - i,
            {
                cells.push(false);
                i += 1;
            }
            proof {
                assert forall|pos: Position| map@.valid(pos) implies (#[trigger] cells@[map@.index_of(
                    pos,
                )] <==> on_a_best_path(map@, from, end, pos)) by {
                    map@.lemma_position_round_trip(pos);
                    if on_a_best_path(map@, from, end, pos) {
                        let other = choose|other: int|
                            cell_cost(map@, from, end, other) && #[trigger] on_best_path(
                                map@,
                                from,
                                end,
                                other,
                                pos,
                            );
                        let d = choose|d: int|
                            0 <= d < 4 && #[trigger] arrives(
                                map@,
                                from,
                                State { at: end, facing: d },
                                other,
                            );
                    }
                }
            }
        },
    }
    cells
}

/// The least cost of moves to a cell is one number.
pub proof fn lemma_cell_cost_unique(map: GridView<Cell>, from: State, at: Position, a: int, b: int)
    requires
        cell_cost(map, from, at, a),
        cell_cost(map, from, at, b),
    ensures
        a == b,
{
}


/// The cell that a character of the text stands for.
pub open spec fn cell_of(c: char) -> Cell {
    if c == '#' {
        Cell::Wall
    } else {
        Cell::Unreached
    }
}

/// The rows are of one width, made of `#`, `.`, `S` and `E`, with an `S` and an
/// `E` among them, and the map is small enough to be searched.
pub open spec fn well_formed(rows: Seq<Seq<char>>) -> bool {
    &&& rectangular(rows)
    &&& drawn_with(text_grid(rows).cells, seq!['#', '.', 'S', 'E'])
    &&& text_grid(rows).cells.contains('S')
    &&& text_grid(rows).cells.contains('E')
    &&& 4004 * (text_grid(rows).cells.len() + 1) <= usize::MAX
}

/// The map that the rows draw.
pub open spec fn maze_of(rows: Seq<Seq<char>>) -> GridView<Cell> {
    mapped(text_grid(rows), |c: char| cell_of(c))
}

/// Read the map, the start and the end, or `None` where the text is not well
/// formed.
pub fn parse(input: &str) -> (r: Option<(Maze, Position, Position)>)
    ensures
        match r {
            Some((map, start, end)) => {
                &&& well_formed(words(input@))
                &&& small(map@)
                &&& map@ == maze_of(words(input@))
                &&& start == first_cell(text_grid(words(input@)), 'S')
                &&& end == first_cell(text_grid(words(input@)), 'E')
                &&& map.spec_valid_position(start)
                &&& map.spec_valid_position(end)
            },
            None => !well_formed(words(input@)),
        },
{
    let grid = match Grid::try_new(input) {
        Some(grid) => grid,
        None => {
            return None;
        },
    };
    let allowed = vec!['#', '.', 'S', 'E'];
    assert(allowed@ =~= seq!['#', '.', 'S', 'E']);
    if !is_drawn_with(&grid, &allowed) {
        return None;
    }
    let start = match find_first(&grid, 'S') {
        Some(start) => start,
        None => {
            return None;
        },
    };
    let end = match find_first(&grid, 'E') {
        Some(end) => end,
        None => {
            return None;
        },
    };
    let size = grid.size();
    if size >= usize::MAX / 4004 {
        assert(4004 * (size + 1) > usize::MAX) by (nonlinear_arith)
            requires
                size >= usize::MAX / 4004,
        ;
        return None;
    }
    assert(4004 * (size + 1) <= usize::MAX) by (nonlinear_arith)
        requires
            size < usize::MAX / 4004,
    ;
    let to_cell = |c: &char| -> (r: Cell)
        ensures
            r == cell_of(*c),
        {
            if *c == '#' {
                Cell::Wall
            } else {
                Cell::Unreached
            }
        };
    let map = grid.new_from(to_cell);
    proof {
        assert(grid@.cells[grid@.index_of(start)] == 'S');
        assert(grid@.cells[grid@.index_of(end)] == 'E');
        assert(map@.cells =~= maze_of(words(input@)).cells);
    }
    Some((map, start, end))
}

/// Read the map, the start and the end.
pub fn prepare(input: &str) -> (r: (Maze, Position, Position))
    requires
        well_formed(words(input@)),
    ensures
        small(r.0@),
        r.0@ == maze_of(words(input@)),
        r.1 == first_cell(text_grid(words(input@)), 'S'),
        r.2 == first_cell(text_grid(words(input@)), 'E'),
        r.0.spec_valid_position(r.1),
        r.0.spec_valid_position(r.2),
{
    match parse(input) {
        Some(r) => r,
        None => {
            proof {
                assert(false);
            }
            (Grid { lines: 0, columns: 0, items: Vec::new() }, Position(0, 0), Position(0, 0))
        },
    }
}

/// The least cost of moves from the start, setting out eastwards, to the end, or
/// `None` where no moves lead there.
pub fn solve_part1(input: &str) -> (r: Option<u64>)
    requires
        well_formed(words(input@)),
    ensures
        match r {
            Some(cost) => cell_cost(
                maze_of(words(input@)),
                setting_out(first_cell(text_grid(words(input@)), 'S')),
                first_cell(text_grid(words(input@)), 'E'),
                cost as int,
            ),
            None => cell_unreachable(
                maze_of(words(input@)),
                setting_out(first_cell(text_grid(words(input@)), 'S')),
                first_cell(text_grid(words(input@)), 'E'),
            ),
        },
{
    let (mut map, start, end) = prepare(input);
    compute_least_distances(&mut map, start, end)
}

/// The number of cells that lie on moves of least cost from `start`, setting out
/// eastwards, to `end`.
pub open spec fn part2(map: GridView<Cell>, start: Position, end: Position) -> int {
    count(
        map.cells.len() as int,
        |i: int| on_a_best_path(map, setting_out(start), end, map.position_of(i)),
    )
}

/// The number of cells that lie on moves of least cost from `start`, setting out
/// eastwards, to `end`.
pub fn count_best_path_cells(map: &Maze, start: Position, end: Position) -> (r: u64)
    requires
        small(map@),
        map.spec_valid_position(start),
        map.spec_valid_position(end),
    ensures
        r == part2(map@, start, end),
{
    let cells = best_path_cells(map, start, end);
    let size = map.size();
    let ghost p = |i: int| on_a_best_path(map@, setting_out(start), end, map@.position_of(i));
    let mut total: u64 = 0;
    let mut i: usize = 0;
    while i < size
        invariant
            i <= size,
            small(map@),
            size == map@.cells.len(),
            cells@.len() == size,
            total == count(i as int, p),
            total <= i,
            p == |i: int| on_a_best_path(map@, setting_out(start), end, map@.position_of(i)),
            forall|pos: Position|
                map@.valid(pos) ==> (#[trigger] cells@[map@.index_of(pos)] <==> on_a_best_path(
                    map@,
                    setting_out(start),
                    end,
                    pos,
                )),
        decreases size - i,
    {
        proof {
            map@.lemma_index_round_trip(i as int);
            let pos = map@.position_of(i as int);
            assert(cells@[map@.index_of(pos)] <==> on_a_best_path(
                map@,
                setting_out(start),
                end,
                pos,
            ));
        }
        if cells[i] {
            total += 1;
        }
        i += 1;
    }
    total
}

pub fn solve_part2(input: &str) -> (r: u64)
    requires
        well_formed(words(input@)),
    ensures
        r == part2(
            maze_of(words(input@)),
            first_cell(text_grid(words(input@)), 'S'),
            first_cell(text_grid(words(input@)), 'E'),
        ),
{
    let (map, start, end) = prepare(input);
    count_best_path_cells(&map, start, end)
}

/// Both answers, or `None` where no moves lead from the start to the end.
pub fn solve(input: String) -> (r: Option<SolutionPair>)
    requires
        well_formed(words(input@)),
    ensures
        match r {
            Some((Solution::U64(cost), Solution::U64(cells))) => {
                &&& cell_cost(
                    maze_of(words(input@)),
                    setting_out(first_cell(text_grid(words(input@)), 'S')),
                    first_cell(text_grid(words(input@)), 'E'),
                    cost as int,
                )
                &&& cells == part2(
                    maze_of(words(input@)),
                    first_cell(text_grid(words(input@)), 'S'),
                    first_cell(text_grid(words(input@)), 'E'),
                )
            },
            Some(_) => false,
            None => cell_unreachable(
                maze_of(words(input@)),
                setting_out(first_cell(text_grid(words(input@)), 'S')),
                first_cell(text_grid(words(input@)), 'E'),
            ),
        },
{
    let sol1 = match solve_part1(input.as_str()) {
        Some(cost) => cost,
        None => {
            return None;
        },
    };
    let sol2 = solve_part2(input.as_str());
    Some((Solution::U64(sol1), Solution::U64(sol2)))
}

} // verus!
