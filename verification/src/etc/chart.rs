use crate::etc::count::{first_place, is_first, lemma_first_place};
use crate::etc::grid::{Grid, GridView, Position};
use vstd::prelude::*;

verus! {

/// Every item is one of the allowed ones.
pub open spec fn drawn_with<T>(cells: Seq<T>, allowed: Seq<T>) -> bool {
    forall|i: int| 0 <= i < cells.len() ==> allowed.contains(#[trigger] cells[i])
}

/// The cell of the first item equal to `c`, in storage order.
pub open spec fn first_cell(grid: GridView<char>, c: char) -> Position {
    grid.position_of(first_place(grid.cells, c))
}

/// The grid in which each cell holds what `f` makes of the item of the same cell.
pub open spec fn mapped<T, B>(grid: GridView<T>, f: spec_fn(T) -> B) -> GridView<B> {
    GridView {
        lines: grid.lines,
        columns: grid.columns,
        cells: Seq::new(grid.cells.len(), |i: int| f(grid.cells[i])),
    }
}

/// Whether the character is one of the allowed ones.
pub fn allows(allowed: &Vec<char>, c: char) -> (r: bool)
    ensures
        r == allowed@.contains(c),
{
    let mut i: usize = 0;
    while i < allowed.len()
        invariant
            i <= allowed@.len(),
            forall|k: int| 0 <= k < i ==> allowed@[k] != c,
        decreases allowed@.len() - i,
    {
        if allowed[i] == c {
            return true;
        }
        i += 1;
    }
    false
}

/// Whether every character of the grid is one of the allowed ones.
pub fn is_drawn_with(grid: &Grid<char>, allowed: &Vec<char>) -> (r: bool)
    ensures
        r == drawn_with(grid@.cells, allowed@),
{
    let mut i: usize = 0;
    while i < grid.items.len()
        invariant
            i <= grid.items@.len(),
            forall|k: int| 0 <= k < i ==> allowed@.contains(#[trigger] grid.items@[k]),
        decreases grid.items@.len() - i,
    {
        if !allows(allowed, grid.items[i]) {
            return false;
        }
        i += 1;
    }
    true
}

/// The cell of the first character equal to `c`, in storage order, or `None`
/// where the grid holds none.
pub fn find_first(grid: &Grid<char>, c: char) -> (r: Option<Position>)
    requires
        grid.wf(),
    ensures
        match r {
            Some(pos) => {
                &&& grid@.valid(pos)
                &&& is_first(grid@.cells, c, grid@.index_of(pos))
                &&& pos == first_cell(grid@, c)
            },
            None => !grid@.cells.contains(c),
        },
{
    let mut i: usize = 0;
    while i < grid.items.len()
        invariant
            grid.wf(),
            i <= grid.items@.len(),
            forall|k: int| 0 <= k < i ==> #[trigger] grid.items@[k] != c,
        decreases grid.items@.len() - i,
    {
        if grid.items[i] == c {
            let pos = grid.unchecked_position(i);
            proof {
                lemma_first_place(grid@.cells, c, i as int);
            }
            return Some(pos);
        }
        i += 1;
    }
    None
}

} // verus!
