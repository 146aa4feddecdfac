use crate::days::day05::{blank_at, find_blank, is_first_blank};
use crate::etc::chart::{drawn_with, find_first, first_cell, is_drawn_with, mapped};
use crate::etc::count::{lemma_sum_rises, sum};
use crate::etc::grid::{rectangular, text_grid, Grid, GridView, Point, Position};
use crate::etc::solution::{Solution, SolutionPair};
use crate::etc::text::{chars, slice, text, words};
use vstd::prelude::*;

verus! {

#[derive(Copy, Clone, PartialEq, Eq, Debug)]
pub enum Cell {
    /// a free space
    Free,
    /// a narrow box
    Pack,
    /// a wall
    Wall,
    /// the left part of a wide box
    BoxLeft,
    /// the right part of a wide box
    BoxRight,
}

pub type Warehouse = Grid<Cell>;

pub type Moves = Vec<Point>;

/// One step to the north, east, south or west.
pub open spec fn unit(d: (int, int)) -> bool {
    d == (-1int, 0int) || d == (0int, 1int) || d == (1int, 0int) || d == (0int, -1int)
}

/// How many cells lie between `p`, itself counted, and the edge of the grid in
/// the direction `d`.
pub open spec fn room(grid: GridView<Cell>, d: (int, int), p: Position) -> int {
    if d == (-1int, 0int) {
        p.0 + 1
    } else if d == (1int, 0int) {
        grid.lines - p.0
    } else if d == (0int, -1int) {
        p.1 + 1
    } else {
        grid.columns - p.1
    }
}

/// Changes to a map: cells to free, and then cells to fill.
pub struct Plan {
    pub free: Seq<Position>,
    pub update: Seq<(Position, Cell)>,
}

/// The plan that takes one item a cell further after what lies ahead has made
/// way.
pub open spec fn carried(ahead: Plan, from: Position, to: Position, item: Cell) -> Plan {
    Plan { free: ahead.free.push(from), update: ahead.update.push((to, item)) }
}

/// The plan that takes a wide box a line further after what lies ahead of each
/// of its halves has made way.
pub open spec fn lifted(
    left_ahead: Plan,
    right_ahead: Plan,
    left: Position,
    right: Position,
    left_to: Position,
    right_to: Position,
) -> Plan {
    Plan {
        free: (left_ahead.free + right_ahead.free).push(left).push(right),
        update: (left_ahead.update + right_ahead.update).push((left_to, Cell::BoxLeft)).push(
            (right_to, Cell::BoxRight),
        ),
    }
}

/// The changes that make `target` free by pushing what stands on it, and all
/// that stands in its way, one cell in the direction `d`; `None` where a wall
/// or the edge of the map is in the way.
pub open spec fn pushed(grid: GridView<Cell>, d: (int, int), target: Position) -> Option<Plan>
    decreases room(grid, d, target),
{
    if !grid.wf() || !unit(d) || !grid.valid(target) {
        None
    } else {
        let item = grid.cell(target);
        if item == Cell::Free {
            Some(Plan { free: Seq::empty(), update: Seq::empty() })
        } else if item == Cell::Wall {
            None
        } else if item == Cell::Pack || d.0 == 0 {
            match grid.stepped(target, d.0, d.1) {
                Some(next) => match pushed(grid, d, next) {
                    Some(ahead) => Some(carried(ahead, target, next, item)),
                    None => None,
                },
                None => None,
            }
        } else {
            let left = if item == Cell::BoxLeft {
                Some(target)
            } else {
                grid.stepped(target, 0, -1)
            };
            match left {
                Some(l) => match grid.stepped(l, 0, 1) {
                    Some(r) => match (grid.stepped(l, d.0, d.1), grid.stepped(r, d.0, d.1)) {
                        (Some(left_to), Some(right_to)) => match (
                            pushed(grid, d, left_to),
                            pushed(grid, d, right_to),
                        ) {
                            (Some(left_ahead), Some(right_ahead)) => Some(
                                lifted(left_ahead, right_ahead, l, r, left_to, right_to),
                            ),
                            _ => None,
                        },
                        _ => None,
                    },
                    None => None,
                },
                None => None,
            }
        }
    }
}

/// Every cell of the plan lies on the grid.
pub open spec fn fits(grid: GridView<Cell>, plan: Plan) -> bool {
    &&& forall|i: int| 0 <= i < plan.free.len() ==> grid.valid(#[trigger] plan.free[i])
    &&& forall|i: int| 0 <= i < plan.update.len() ==> grid.valid((#[trigger] plan.update[i]).0)
}

/// A push changes cells of the grid only.
pub proof fn lemma_pushed_fits(grid: GridView<Cell>, d: (int, int), target: Position)
    ensures
        match pushed(grid, d, target) {
            Some(plan) => fits(grid, plan),
            None => true,
        },
    decreases room(grid, d, target),
{
    if grid.wf() && unit(d) && grid.valid(target) {
        let item = grid.cell(target);
        if item == Cell::Free || item == Cell::Wall {
        } else if item == Cell::Pack || d.0 == 0 {
            match grid.stepped(target, d.0, d.1) {
                Some(next) => {
                    lemma_pushed_fits(grid, d, next);
                },
                None => {},
            }
        } else {
            let left = if item == Cell::BoxLeft {
                Some(target)
            } else {
                grid.stepped(target, 0, -1)
            };
            match left {
                Some(l) => match grid.stepped(l, 0, 1) {
                    Some(r) => match (grid.stepped(l, d.0, d.1), grid.stepped(r, d.0, d.1)) {
                        (Some(left_to), Some(right_to)) => {
                            lemma_pushed_fits(grid, d, left_to);
                            lemma_pushed_fits(grid, d, right_to);
                        },
                        _ => {},
                    },
                    None => {},
                },
                None => {},
            }
        }
    }
}

/// The grid with the first `n` cells of the list made free.
pub open spec fn freed(grid: GridView<Cell>, free: Seq<Position>, n: int) -> GridView<Cell>
    decreases n,
{
    if n <= 0 {
        grid
    } else {
        freed(grid, free, n - 1).with(free[n - 1], Cell::Free)
    }
}

/// The grid with the first `n` cells of the list filled, one after the other.
pub open spec fn filled(grid: GridView<Cell>, update: Seq<(Position, Cell)>, n: int) -> GridView<
    Cell,
>
    decreases n,
{
    if n <= 0 {
        grid
    } else {
        filled(grid, update, n - 1).with(update[n - 1].0, update[n - 1].1)
    }
}

/// The grid after the plan: first its cells to free, then its cells to fill.
pub open spec fn applied(grid: GridView<Cell>, plan: Plan) -> GridView<Cell> {
    filled(freed(grid, plan.free, plan.free.len() as int), plan.update, plan.update.len() as int)
}

/// Some changes to be applied to a map.
pub struct Changes {
    pub free: Vec<Position>,
    pub update: Vec<(Position, Cell)>,
}

impl View for Changes {
    type V = Plan;

    open spec fn view(&self) -> Plan {
        Plan { free: self.free@, update: self.update@ }
    }
}

impl Changes {
    /// No change.
    pub fn none() -> (r: Changes)
        ensures
            r@ == (Plan { free: Seq::empty(), update: Seq::empty() }),
    {
        let r = Changes { free: Vec::new(), update: Vec::new() };
        assert(r@.free =~= Seq::empty());
        assert(r@.update =~= Seq::empty());
        r
    }

    /// Append some changes to this one.
    pub fn append(&mut self, other: &mut Changes)
        ensures
            final(self)@.free == old(self)@.free + old(other)@.free,
            final(self)@.update == old(self)@.update + old(other)@.update,
            final(other)@.free.len() == 0,
            final(other)@.update.len() == 0,
    {
        self.free.append(&mut other.free);
        self.update.append(&mut other.update);
    }

    /// Apply the changes to the given map.
    ///
    /// First apply the `free` changes and then the updates.
    pub fn apply(&self, map: &mut Warehouse)
        requires
            old(map).wf(),
            fits(old(map)@, self@),
        ensures
            final(map).wf(),
            final(map)@ == applied(old(map)@, self@),
            final(map)@.lines == old(map)@.lines,
            final(map)@.columns == old(map)@.columns,
    {
        let mut i: usize = 0;
        while i < self.free.len()
            invariant
                i <= self.free@.len(),
                map.wf(),
                map@.lines == old(map)@.lines,
                map@.columns == old(map)@.columns,
                fits(old(map)@, self@),
                map@ == freed(old(map)@, self.free@, i as int),
            decreases self.free@.len() - i,
        {
            assert(old(map)@.valid(self@.free[i as int]));
            map.update(&self.free[i], Cell::Free);
            i += 1;
        }
        let ghost cleared = map@;
        let mut k: usize = 0;
        while k < self.update.len()
            invariant
                k <= self.update@.len(),
                map.wf(),
                map@.lines == old(map)@.lines,
                map@.columns == old(map)@.columns,
                fits(old(map)@, self@),
                map@ == filled(cleared, self.update@, k as int),
            decreases self.update@.len() - k,
        {
            assert(old(map)@.valid(self@.update[k as int].0));
            let change = self.update[k];
            map.update(&change.0, change.1);
            k += 1;
        }
    }
}

/// Try to make `target` free by pushing in the given direction.
///
/// Return the changes to apply to the grid when possible.
pub fn try_make_free(grid: &Warehouse, direction: &Point, target: &Position) -> (r: Option<
    Changes,
>)
    requires
        grid.wf(),
        unit(direction@),
    ensures
        match r {
            Some(changes) => pushed(grid@, direction@, *target) == Some(changes@),
            None => pushed(grid@, direction@, *target) is None,
        },
    decreases room(grid@, direction@, *target), 1nat,
{
    let item = match grid.get(target) {
        Some(item) => *item,
        None => {
            return None;
        },
    };
    match item {
        Cell::Free => Some(Changes::none()),
        Cell::Wall => None,
        Cell::Pack => push_one(grid, direction, target, item),
        Cell::BoxLeft | Cell::BoxRight => {
            if direction.0 == 0 {
                return push_one(grid, direction, target, item);
            }
            let left = match item {
                Cell::BoxLeft => *target,
                _ => match grid.step(target, &Point::west()) {
                    Some(left) => left,
                    None => {
                        return None;
                    },
                },
            };
            let right = match grid.step(&left, &Point::east()) {
                Some(right) => right,
                None => {
                    return None;
                },
            };
            let left_target = match grid.step(&left, direction) {
                Some(cell) => cell,
                None => {
                    return None;
                },
            };
            let right_target = match grid.step(&right, direction) {
                Some(cell) => cell,
                None => {
                    return None;
                },
            };
            if let Some(mut left_changes) = try_make_free(grid, direction, &left_target) {
                if let Some(mut right_changes) = try_make_free(grid, direction, &right_target) {
                    let mut changes = Changes::none();
                    let ghost left_ahead = left_changes@;
                    let ghost right_ahead = right_changes@;
                    changes.append(&mut left_changes);
                    changes.append(&mut right_changes);
                    changes.update.push((left_target, Cell::BoxLeft));
                    changes.update.push((right_target, Cell::BoxRight));
                    changes.free.push(left);
                    changes.free.push(right);
                    proof {
                        let plan = lifted(left_ahead, right_ahead, left, right, left_target, right_target);
                        assert(changes@.free =~= plan.free);
                        assert(changes@.update =~= plan.update);
                    }
                    return Some(changes);
                }
            }
            None
        },
    }
}

/// Push the item on `target`, which takes one cell, one cell further.
fn push_one(grid: &Warehouse, direction: &Point, target: &Position, item: Cell) -> (r: Option<
    Changes,
>)
    requires
        grid.wf(),
        unit(direction@),
        grid@.valid(*target),
        grid@.cell(*target) == item,
        item == Cell::Pack || ((item == Cell::BoxLeft || item == Cell::BoxRight) && direction@.0 == 0),
    ensures
        match r {
            Some(changes) => pushed(grid@, direction@, *target) == Some(changes@),
            None => pushed(grid@, direction@, *target) is None,
        },
    decreases room(grid@, direction@, *target), 0nat,
{
    let next_target = match grid.step(target, direction) {
        Some(cell) => cell,
        None => {
            return None;
        },
    };
    match try_make_free(grid, direction, &next_target) {
        Some(mut changes) => {
            changes.update.push((next_target, item));
            changes.free.push(*target);
            Some(changes)
        },
        None => None,
    }
}

/// The map and the robot's cell after one move: where what stands ahead can
/// be pushed, it is, and the robot follows; else nothing changes.
pub open spec fn moved_by(grid: GridView<Cell>, robot: Position, d: (int, int)) -> (
    GridView<Cell>,
    Position,
) {
    match grid.stepped(robot, d.0, d.1) {
        Some(target) => match pushed(grid, d, target) {
            Some(plan) => (applied(grid, plan), target),
            None => (grid, robot),
        },
        None => (grid, robot),
    }
}

/// The map and the robot's cell after the first `n` moves.
pub open spec fn after(grid: GridView<Cell>, robot: Position, moves: Seq<(int, int)>, n: int) -> (
    GridView<Cell>,
    Position,
)
    decreases n,
{
    if n <= 0 {
        (grid, robot)
    } else {
        let before = after(grid, robot, moves, n - 1);
        moved_by(before.0, before.1, moves[n - 1])
    }
}

/// The offsets of a list of moves.
pub open spec fn offsets(moves: Seq<Point>) -> Seq<(int, int)> {
    Seq::new(moves.len(), |i: int| moves[i]@)
}

/// Move the robot one cell in the given direction, pushing what stands ahead,
/// where that can be done; tell whether it was.
pub fn try_move(grid: &mut Warehouse, direction: &Point, robot: &mut Position) -> (r: bool)
    requires
        old(grid).wf(),
        unit(direction@),
    ensures
        final(grid).wf(),
        (final(grid)@, *final(robot)) == moved_by(old(grid)@, *old(robot), direction@),
        r <==> match old(grid)@.stepped(*old(robot), direction@.0, direction@.1) {
            Some(target) => pushed(old(grid)@, direction@, target) is Some,
            None => false,
        },
{
    if let Some(target) = grid.step(robot, direction) {
        if let Some(changes) = try_make_free(grid, direction, &target) {
            proof {
                lemma_pushed_fits(grid@, direction@, target);
            }
            changes.apply(grid);
            *robot = target;
            return true;
        }
    }
    false
}

/// Make all the moves, one after the other.
pub fn walk(grid: &mut Warehouse, robot: &mut Position, moves: &Moves)
    requires
        old(grid).wf(),
        forall|i: int| 0 <= i < moves@.len() ==> unit(#[trigger] moves@[i]@),
    ensures
        final(grid).wf(),
        (final(grid)@, *final(robot)) == after(
            old(grid)@,
            *old(robot),
            offsets(moves@),
            moves@.len() as int,
        ),
{
    let mut i: usize = 0;
    while i < moves.len()
        invariant
            i <= moves@.len(),
            grid.wf(),
            forall|i: int| 0 <= i < moves@.len() ==> unit(#[trigger] moves@[i]@),
            (grid@, *robot) == after(old(grid)@, *old(robot), offsets(moves@), i as int),
        decreases moves@.len() - i,
    {
        assert(offsets(moves@)[i as int] == moves@[i as int]@);
        try_move(grid, &moves[i], robot);
        i += 1;
    }
}

/// What the cell with the given index adds to the score: a hundred times its
/// line plus its column where it holds a narrow box or the left part of a wide
/// one.
pub open spec fn gps(grid: GridView<Cell>, i: int) -> int {
    if grid.cells[i] == Cell::Pack || grid.cells[i] == Cell::BoxLeft {
        100 * grid.position_of(i).0 + grid.position_of(i).1
    } else {
        0
    }
}

/// The score of a map.
pub open spec fn score(grid: GridView<Cell>) -> int {
    sum(grid.cells.len() as int, |i: int| gps(grid, i))
}

/// The score of the map, or `None` where it is too great a number.
pub fn compute_score(grid: &Warehouse) -> (r: Option<u64>)
    requires
        grid.wf(),
    ensures
        match r {
            Some(value) => value == score(grid@),
            None => score(grid@) > u64::MAX,
        },
{
    let ghost f = |i: int| gps(grid@, i);
    let mut total: u64 = 0;
    let mut i: usize = 0;
    while i < grid.items.len()
        invariant
            grid.wf(),
            i <= grid.items@.len(),
            f == |i: int| gps(grid@, i),
            total == sum(i as int, f),
        decreases grid.items@.len() - i,
    {
        let pos = grid.unchecked_position(i);
        let term: u128 = match grid.items[i] {
            Cell::Pack | Cell::BoxLeft => 100 * (pos.0 as u128) + (pos.1 as u128),
            _ => 0,
        };
        assert(term == f(i as int));
        assert(sum(i + 1, f) == sum(i as int, f) + f(i as int));
        if term > (u64::MAX - total) as u128 {
            proof {
                assert forall|k: int| 0 <= k < grid.items@.len() implies #[trigger] f(k) >= 0 by {}
                lemma_sum_rises(i + 1, grid.items@.len() as int, f);
            }
            return None;
        }
        total = total + term as u64;
        i += 1;
    }
    Some(total)
}

/// The place of the first empty line of the text.
pub open spec fn split_place(content: Seq<char>) -> int {
    choose|i: int| is_first_blank(content, i)
}

/// The part of the text that draws the map.
pub open spec fn map_rows(content: Seq<char>) -> Seq<Seq<char>> {
    words(content.subrange(0, split_place(content)))
}

/// The part of the text that lists the moves.
pub open spec fn moves_text(content: Seq<char>) -> Seq<char> {
    content.subrange(split_place(content) + 2, content.len() as int)
}

/// The characters that draw a map.
pub open spec fn drawing() -> Seq<char> {
    seq!['.', '@', 'O', '#', '[', ']']
}

/// The text holds an empty line, and before it a map of one width, drawn with
/// the characters of a map, with a robot on it.
pub open spec fn well_formed(content: Seq<char>) -> bool {
    &&& exists|i: int| is_first_blank(content, i)
    &&& rectangular(map_rows(content))
    &&& drawn_with(text_grid(map_rows(content)).cells, drawing())
    &&& text_grid(map_rows(content)).cells.contains('@')
}

/// The cell that a character of the map stands for.
pub open spec fn cell_of(c: char) -> Cell {
    if c == 'O' {
        Cell::Pack
    } else if c == '#' {
        Cell::Wall
    } else if c == '[' {
        Cell::BoxLeft
    } else if c == ']' {
        Cell::BoxRight
    } else {
        Cell::Free
    }
}

/// The move that a character stands for, if any.
pub open spec fn direction_of(c: char) -> Option<(int, int)> {
    if c == '<' {
        Some((0int, -1int))
    } else if c == '^' {
        Some((-1int, 0int))
    } else if c == '>' {
        Some((0int, 1int))
    } else if c == 'v' {
        Some((1int, 0int))
    } else {
        None
    }
}

/// The moves that the first `n` characters list; other characters are passed
/// over.
pub open spec fn moves_in(s: Seq<char>, n: int) -> Seq<(int, int)>
    decreases n,
{
    if n <= 0 {
        Seq::empty()
    } else {
        match direction_of(s[n - 1]) {
            Some(d) => moves_in(s, n - 1).push(d),
            None => moves_in(s, n - 1),
        }
    }
}

/// The map that the text draws.
pub open spec fn warehouse_of(content: Seq<char>) -> GridView<Cell> {
    mapped(text_grid(map_rows(content)), |c: char| cell_of(c))
}

/// The cell on which the robot starts.
pub open spec fn start_of(content: Seq<char>) -> Position {
    first_cell(text_grid(map_rows(content)), '@')
}

/// The moves that the text lists.
pub open spec fn moves_of(content: Seq<char>) -> Seq<(int, int)> {
    moves_in(moves_text(content), moves_text(content).len() as int)
}

/// There is at most one first empty line.
pub proof fn lemma_split_place(content: Seq<char>, at: int)
    requires
        is_first_blank(content, at),
    ensures
        split_place(content) == at,
{
    let other = split_place(content);
    if other < at {
        assert(!blank_at(content, other));
    }
    if at < other {
        assert(!blank_at(content, at));
    }
}

/// The moves that the characters from `from` on list.
pub fn read_moves(content: &Vec<char>, from: usize) -> (r: Moves)
    requires
        from <= content@.len(),
    ensures
        offsets(r@) == moves_in(
            content@.subrange(from as int, content@.len() as int),
            content@.len() - from,
        ),
        forall|i: int| 0 <= i < r@.len() ==> unit(#[trigger] r@[i]@),
{
    let ghost s = content@.subrange(from as int, content@.len() as int);
    let mut r: Vec<Point> = Vec::new();
    let mut i: usize = from;
    while i < content.len()
        invariant
            from <= i <= content@.len(),
            s == content@.subrange(from as int, content@.len() as int),
            offsets(r@) == moves_in(s, i - from),
            forall|i: int| 0 <= i < r@.len() ==> unit(#[trigger] r@[i]@),
        decreases content@.len() - i,
    {
        let c = content[i];
        assert(s[i - from] == c);
        let ghost before = offsets(r@);
        if c == '<' {
            r.push(Point::west());
            assert(offsets(r@) =~= before.push((0int, -1int)));
        } else if c == '^' {
            r.push(Point::north());
            assert(offsets(r@) =~= before.push((-1int, 0int)));
        } else if c == '>' {
            r.push(Point::east());
            assert(offsets(r@) =~= before.push((0int, 1int)));
        } else if c == 'v' {
            r.push(Point::south());
            assert(offsets(r@) =~= before.push((1int, 0int)));
        }
        i += 1;
    }
    r
}

/// Read the grid of cells, the robot starting point and the moves, or `None`
/// where the text is not well formed.
pub fn parse(content: &Vec<char>) -> (r: Option<(Warehouse, Position, Moves)>)
    ensures
        match r {
            Some((map, start, moves)) => {
                &&& well_formed(content@)
                &&& map.wf()
                &&& map@ == warehouse_of(content@)
                &&& start == start_of(content@)
                &&& map@.valid(start)
                &&& offsets(moves@) == moves_of(content@)
                &&& forall|i: int| 0 <= i < moves@.len() ==> unit(#[trigger] moves@[i]@)
            },
            None => !well_formed(content@),
        },
{
    let at = match find_blank(content) {
        Some(at) => at,
        None => {
            return None;
        },
    };
    proof {
        lemma_split_place(content@, at as int);
    }
    let drawn = text(&slice(content, 0, at));
    let grid = match Grid::try_new(drawn.as_str()) {
        Some(grid) => grid,
        None => {
            return None;
        },
    };
    let allowed = vec!['.', '@', 'O', '#', '[', ']'];
    assert(allowed@ =~= drawing());
    if !is_drawn_with(&grid, &allowed) {
        return None;
    }
    let start = match find_first(&grid, '@') {
        Some(start) => start,
        None => {
            return None;
        },
    };
    let to_cell = |c: &char| -> (r: Cell)
        ensures
            r == cell_of(*c),
        {
            if *c == 'O' {
                Cell::Pack
            } else if *c == '#' {
                Cell::Wall
            } else if *c == '[' {
                Cell::BoxLeft
            } else if *c == ']' {
                Cell::BoxRight
            } else {
                Cell::Free
            }
        };
    let map = grid.new_from(to_cell);
    proof {
        assert(grid@.cells[grid@.index_of(start)] == '@');
        assert(map@.cells =~= warehouse_of(content@).cells);
    }
    let n = content.len();
    assert(blank_at(content@, at as int));
    let moves = read_moves(content, at + 2);
    Some((map, start, moves))
}

/// Read the grid of cells, the robot starting point and the moves.
pub fn prepare(input: &str) -> (r: (Warehouse, Position, Moves))
    requires
        well_formed(input@),
    ensures
        r.0.wf(),
        r.0@ == warehouse_of(input@),
        r.1 == start_of(input@),
        r.0@.valid(r.1),
        offsets(r.2@) == moves_of(input@),
{
    match parse(&chars(input)) {
        Some(r) => r,
        None => {
            proof {
                assert(false);
            }
            (Grid { lines: 0, columns: 0, items: Vec::new() }, Position(0, 0), Vec::new())
        },
    }
}

/// The score of the map that the text draws after the moves that it lists.
pub open spec fn answer(content: Seq<char>) -> int {
    score(
        after(
            warehouse_of(content),
            start_of(content),
            moves_of(content),
            moves_of(content).len() as int,
        ).0,
    )
}

/// The score after all the moves, or `None` where the text is not well formed
/// or the score is too great a number.
pub fn simulate(content: &Vec<char>) -> (r: Option<u64>)
    ensures
        match r {
            Some(value) => well_formed(content@) && value == answer(content@),
            None => !well_formed(content@) || answer(content@) > u64::MAX,
        },
{
    match parse(content) {
        Some((mut grid, mut robot, moves)) => {
            assert(offsets(moves@).len() == moves@.len());
            walk(&mut grid, &mut robot, &moves);
            compute_score(&grid)
        },
        None => None,
    }
}

/// What a character of a map becomes when the map is made twice as wide.
pub open spec fn wide(c: char) -> Seq<char> {
    if c == '#' {
        seq!['#', '#']
    } else if c == 'O' {
        seq!['[', ']']
    } else if c == '.' {
        seq!['.', '.']
    } else if c == '@' {
        seq!['@', '.']
    } else {
        seq![c]
    }
}

/// The first `n` characters of a text, each made wide.
pub open spec fn widened(content: Seq<char>, n: int) -> Seq<char>
    decreases n,
{
    if n <= 0 {
        Seq::empty()
    } else {
        widened(content, n - 1) + wide(content[n - 1])
    }
}

/// The text with its map made twice as wide.
pub fn widen(content: &Vec<char>) -> (r: Vec<char>)
    ensures
        r@ == widened(content@, content@.len() as int),
{
    let mut r: Vec<char> = Vec::new();
    let mut i: usize = 0;
    while i < content.len()
        invariant
            i <= content@.len(),
            r@ == widened(content@, i as int),
        decreases content@.len() - i,
    {
        let c = content[i];
        let ghost before = r@;
        if c == '#' {
            r.push('#');
            r.push('#');
        } else if c == 'O' {
            r.push('[');
            r.push(']');
        } else if c == '.' {
            r.push('.');
            r.push('.');
        } else if c == '@' {
            r.push('@');
            r.push('.');
        } else {
            r.push(c);
        }
        assert(r@ =~= before + wide(c));
        i += 1;
    }
    r
}

/// The score of the map after the moves.
pub open spec fn part1(input: Seq<char>) -> int {
    answer(input)
}

/// The score of the map made twice as wide after the moves.
pub open spec fn part2(input: Seq<char>) -> int {
    answer(widened(input, input.len() as int))
}

pub fn solve_part1(input: &str) -> (r: Option<u64>)
    ensures
        match r {
            Some(value) => well_formed(input@) && value == part1(input@),
            None => !well_formed(input@) || part1(input@) > u64::MAX,
        },
{
    simulate(&chars(input))
}

pub fn solve_part2(input: &str) -> (r: Option<u64>)
    ensures
        match r {
            Some(value) => well_formed(widened(input@, input@.len() as int)) && value == part2(
                input@,
            ),
            None => !well_formed(widened(input@, input@.len() as int)) || part2(input@) > u64::MAX,
        },
{
    simulate(&widen(&chars(input)))
}

pub fn solve(input: String) -> (r: Option<SolutionPair>)
    ensures
        match r {
            Some(pair) => {
                &&& pair.0 == Solution::U64(part1(input@) as u64)
                &&& pair.1 == Solution::U64(part2(input@) as u64)
                &&& well_formed(input@)
                &&& well_formed(widened(input@, input@.len() as int))
                &&& part1(input@) <= u64::MAX
                &&& part2(input@) <= u64::MAX
            },
            None => {
                ||| !well_formed(input@)
                ||| !well_formed(widened(input@, input@.len() as int))
                ||| part1(input@) > u64::MAX
                ||| part2(input@) > u64::MAX
            },
        },
{
    let one = solve_part1(input.as_str());
    let two = solve_part2(input.as_str());
    match (one, two) {
        (Some(first), Some(second)) => Some((Solution::U64(first), Solution::U64(second))),
        _ => None,
    }
}

} // verus!
