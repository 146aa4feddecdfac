use vstd::prelude::*;
use vstd::std_specs::ops::AddSpecImpl;
use vstd::std_specs::ops::MulSpecImpl;
use vstd::std_specs::ops::SubSpecImpl;

verus! {

broadcast use vstd::function::group_function_axioms;

/// An absolute cell address `(line, column)`.
///
/// The origin `(0,0)` is the top-left-most cell.
#[derive(Debug, Clone, Copy, PartialEq, Eq, PartialOrd, Ord, Hash, Structural)]
pub struct Position(pub usize, pub usize);

/// A relative offset `(delta-line, delta-column)` between two positions.
#[derive(Debug, Clone, Copy, PartialEq, Eq, PartialOrd, Ord, Hash, Structural)]
pub struct Point(pub isize, pub isize);

/// A 2D grid, where coordinates are expressed as a couple `(line, column)`.
///
/// The origin `(0,0)` is the top-left-most item.
/// The bottom-right-most item is at coordinates (height-1, width-1).
pub struct Grid<T = char> {
    pub lines: usize,
    pub columns: usize,
    pub items: Vec<T>,
}

/// Where `origin` moved by the offset `(dl, dc)` lands, when both coordinates stay
/// within the range of `usize`.
pub open spec fn moved(origin: Position, dl: int, dc: int) -> Option<Position> {
    if 0 <= origin.0 + dl <= usize::MAX && 0 <= origin.1 + dc <= usize::MAX {
        Some(Position((origin.0 + dl) as usize, (origin.1 + dc) as usize))
    } else {
        None
    }
}

/// The offset `(dl, dc)` turned by a quarter, clockwise.
pub open spec fn turned_clockwise(d: (int, int)) -> (int, int) {
    (d.1, -d.0)
}

/// The offset `(dl, dc)` turned by a quarter, counterclockwise.
pub open spec fn turned_counterclockwise(d: (int, int)) -> (int, int) {
    (-d.1, d.0)
}

/// The offset `(dl, dc)` turned by a half.
pub open spec fn turned_around(d: (int, int)) -> (int, int) {
    (-d.0, -d.1)
}

impl View for Point {
    type V = (int, int);

    open spec fn view(&self) -> (int, int) {
        (self.0 as int, self.1 as int)
    }
}

impl Position {
    /// This position moved by `delta`, or `None` when a coordinate would leave
    /// the range of `usize`.
    pub fn add(&self, delta: &Point) -> (r: Option<Self>)
        ensures
            r == moved(*self, delta.0 as int, delta.1 as int),
    {
        if let Some(line) = self.0.checked_add_signed(delta.0) {
            if let Some(column) = self.1.checked_add_signed(delta.1) {
                return Some(Position(line, column));
            }
        }
        None
    }

    /// The offset from the origin to this position.
    pub fn into_point(&self) -> (r: Point)
        requires
            self.0 <= isize::MAX,
            self.1 <= isize::MAX,
        ensures
            r@ == (self.0 as int, self.1 as int),
    {
        Point(self.0 as isize, self.1 as isize)
    }
}

impl Point {
    /// Whether both components can be negated.
    pub open spec fn can_turn(&self) -> bool {
        self.0 > isize::MIN && self.1 > isize::MIN
    }

    pub fn north() -> (r: Point)
        ensures
            r@ == (-1int, 0int),
    {
        Point(-1, 0)
    }

    pub fn east() -> (r: Point)
        ensures
            r@ == (0int, 1int),
    {
        Point(0, 1)
    }

    pub fn south() -> (r: Point)
        ensures
            r@ == (1int, 0int),
    {
        Point(1, 0)
    }

    pub fn west() -> (r: Point)
        ensures
            r@ == (0int, -1int),
    {
        Point(0, -1)
    }

    pub fn is_identity(&self) -> (r: bool)
        ensures
            r == (self@ == (0int, 0int)),
    {
        self.0 == 0 && self.1 == 0
    }

    pub fn rotate_90_clockwise(&self) -> (r: Self)
        requires
            self.can_turn(),
        ensures
            r@ == turned_clockwise(self@),
    {
        Self(self.1, -self.0)
    }

    pub fn rotate_90_counterclockwise(&self) -> (r: Self)
        requires
            self.can_turn(),
        ensures
            r@ == turned_counterclockwise(self@),
    {
        Self(-self.1, self.0)
    }

    pub fn rotate_180(&self) -> (r: Self)
        requires
            self.can_turn(),
        ensures
            r@ == turned_around(self@),
    {
        Self(-self.0, -self.1)
    }
}

/// Four quarter turns clockwise give the offset back.
pub proof fn lemma_four_clockwise_turns(d: (int, int))
    ensures
        turned_clockwise(turned_clockwise(turned_clockwise(turned_clockwise(d)))) == d,
{
}

/// A quarter turn clockwise undoes a quarter turn counterclockwise, and the
/// other way round.
pub proof fn lemma_opposite_turns_cancel(d: (int, int))
    ensures
        turned_clockwise(turned_counterclockwise(d)) == d,
        turned_counterclockwise(turned_clockwise(d)) == d,
{
}

/// Two quarter turns in the same direction are a half turn, and two half turns
/// give the offset back.
pub proof fn lemma_half_turn(d: (int, int))
    ensures
        turned_clockwise(turned_clockwise(d)) == turned_around(d),
        turned_counterclockwise(turned_counterclockwise(d)) == turned_around(d),
        turned_around(turned_around(d)) == d,
{
}

impl From<(i32, i32)> for Point {
    fn from(value: (i32, i32)) -> (r: Self) {
        Self(value.0 as isize, value.1 as isize)
    }
}

impl vstd::std_specs::convert::FromSpecImpl<(i32, i32)> for Point {
    open spec fn obeys_from_spec() -> bool {
        true
    }

    open spec fn from_spec(value: (i32, i32)) -> Self {
        Point(value.0 as isize, value.1 as isize)
    }
}

impl core::ops::Add for Point {
    type Output = Self;

    fn add(self, other: Self) -> (r: Self) {
        Point(self.0 + other.0, self.1 + other.1)
    }
}

impl AddSpecImpl for Point {
    open spec fn obeys_add_spec() -> bool {
        true
    }

    open spec fn add_req(self, other: Self) -> bool {
        &&& isize::MIN <= self.0 + other.0 <= isize::MAX
        &&& isize::MIN <= self.1 + other.1 <= isize::MAX
    }

    open spec fn add_spec(self, other: Self) -> Self {
        Point((self.0 + other.0) as isize, (self.1 + other.1) as isize)
    }
}

impl core::ops::Sub for Point {
    type Output = Self;

    fn sub(self, other: Self) -> (r: Self) {
        Point(self.0 - other.0, self.1 - other.1)
    }
}

impl SubSpecImpl for Point {
    open spec fn obeys_sub_spec() -> bool {
        true
    }

    open spec fn sub_req(self, other: Self) -> bool {
        &&& isize::MIN <= self.0 - other.0 <= isize::MAX
        &&& isize::MIN <= self.1 - other.1 <= isize::MAX
    }

    open spec fn sub_spec(self, other: Self) -> Self {
        Point((self.0 - other.0) as isize, (self.1 - other.1) as isize)
    }
}

impl core::ops::Mul<isize> for Point {
    type Output = Self;

    fn mul(self, rhs: isize) -> (r: Self) {
        Point(rhs * self.0, rhs * self.1)
    }
}

impl MulSpecImpl<isize> for Point {
    open spec fn obeys_mul_spec() -> bool {
        true
    }

    open spec fn mul_req(self, rhs: isize) -> bool {
        &&& isize::MIN <= rhs * self.0 <= isize::MAX
        &&& isize::MIN <= rhs * self.1 <= isize::MAX
    }

    open spec fn mul_spec(self, rhs: isize) -> Self {
        Point((rhs * self.0) as isize, (rhs * self.1) as isize)
    }
}

/// The eight direction vectors `(delta-line, delta-column)`, clockwise from east:
///
/// ```text
///   o---> column
///   |
///   |
///   v
///  line
///
///
///  -1,-1 -1,0 -1,1
///       \  |  /
///        \ | /
/// 0,-1 <---o---> 0,1
///        / | \
///       /  |  \
///   1,-1  1,0  1,1
/// ```
pub open spec fn all_directions_spec() -> Seq<(int, int)> {
    seq![
        (0int, 1int),
        (1int, 1int),
        (1int, 0int),
        (1int, -1int),
        (0int, -1int),
        (-1int, -1int),
        (-1int, 0int),
        (-1int, 1int),
    ]
}

/// The four direction vectors of the taxicab geometry: north, east, south, west.
pub open spec fn taxicab_directions_spec() -> Seq<(int, int)> {
    seq![(-1int, 0int), (0int, 1int), (1int, 0int), (0int, -1int)]
}

pub fn all_directions() -> (r: [Point; 8])
    ensures
        r@.len() == 8,
        forall|i: int| 0 <= i < 8 ==> (#[trigger] r@[i])@ == all_directions_spec()[i],
{
    [
        Point(0, 1),
        Point(1, 1),
        Point(1, 0),
        Point(1, -1),
        Point(0, -1),
        Point(-1, -1),
        Point(-1, 0),
        Point(-1, 1),
    ]
}

pub fn taxicab_directions() -> (r: [Point; 4])
    ensures
        r@.len() == 4,
        forall|i: int| 0 <= i < 4 ==> (#[trigger] r@[i])@ == taxicab_directions_spec()[i],
{
    [Point(-1, 0), Point(0, 1), Point(1, 0), Point(0, -1)]
}


/// The shape and the contents of a grid: what contracts speak of.
pub struct GridView<T> {
    pub lines: nat,
    pub columns: nat,
    pub cells: Seq<T>,
}

impl<T> GridView<T> {
    /// There is exactly one item for each cell, line after line.
    pub open spec fn wf(self) -> bool {
        self.cells.len() == self.lines * self.columns
    }

    pub open spec fn valid(self, pos: Position) -> bool {
        pos.0 < self.lines && pos.1 < self.columns
    }

    /// The place in the storage of the cell at `pos`.
    pub open spec fn index_of(self, pos: Position) -> int {
        self.columns * pos.0 + pos.1
    }

    /// The cell whose place in the storage is `index`.
    pub open spec fn position_of(self, index: int) -> Position {
        Position((index / self.columns as int) as usize, (index % self.columns as int) as usize)
    }

    /// The item of the cell at `pos`.
    pub open spec fn cell(self, pos: Position) -> T {
        self.cells[self.index_of(pos)]
    }

    /// The in-bounds cell that `origin` moved by `(dl, dc)` lands on, if any.
    pub open spec fn stepped(self, origin: Position, dl: int, dc: int) -> Option<Position> {
        match moved(origin, dl, dc) {
            Some(pos) => if self.valid(pos) {
                Some(pos)
            } else {
                None
            },
            None => None,
        }
    }

    /// The same grid with the item of the cell at `pos` replaced.
    pub open spec fn with(self, pos: Position, item: T) -> Self {
        GridView {
            lines: self.lines,
            columns: self.columns,
            cells: self.cells.update(self.index_of(pos), item),
        }
    }

    /// A valid position has a valid index, and the index leads back to the position.
    pub proof fn lemma_position_round_trip(self, pos: Position)
        requires
            self.wf(),
            self.valid(pos),
        ensures
            0 <= self.index_of(pos) < self.cells.len(),
            self.position_of(self.index_of(pos)) == pos,
    {
        let c = self.columns as int;
        let l = self.lines as int;
        let a = pos.0 as int;
        let b = pos.1 as int;
        assert(c * a + b < l * c) by (nonlinear_arith)
            requires
                0 <= a < l,
                0 <= b < c,
        ;
        assert(0 <= c * a + b) by (nonlinear_arith)
            requires
                0 <= a,
                0 <= b,
                0 <= c,
        ;
        vstd::arithmetic::div_mod::lemma_fundamental_div_mod_converse(c * a + b, c, a, b);
    }

    /// A valid index has a valid position, and the position leads back to the index.
    pub proof fn lemma_index_round_trip(self, index: int)
        requires
            self.wf(),
            0 <= index < self.cells.len(),
            self.lines <= usize::MAX,
            self.columns <= usize::MAX,
        ensures
            self.valid(self.position_of(index)),
            self.index_of(self.position_of(index)) == index,
            self.position_of(index).0 == index / self.columns as int,
            self.position_of(index).1 == index % self.columns as int,
    {
        let c = self.columns as int;
        let l = self.lines as int;
        assert(c > 0) by (nonlinear_arith)
            requires
                0 <= index < l * c,
                0 <= c,
        ;
        vstd::arithmetic::div_mod::lemma_fundamental_div_mod(index, c);
        vstd::arithmetic::div_mod::lemma_mod_bound(index, c);
        vstd::arithmetic::div_mod::lemma_div_pos_is_pos(index, c);
        let q = index / c;
        let r = index % c;
        assert(q < l) by (nonlinear_arith)
            requires
                index == c * q + r,
                0 <= r,
                index < l * c,
                c > 0,
        ;
    }

    /// Two valid positions with the same index are the same position.
    pub proof fn lemma_index_injective(self, p: Position, q: Position)
        requires
            self.wf(),
            self.valid(p),
            self.valid(q),
            self.index_of(p) == self.index_of(q),
        ensures
            p == q,
    {
        self.lemma_position_round_trip(p);
        self.lemma_position_round_trip(q);
    }
}

impl<T> View for Grid<T> {
    type V = GridView<T>;

    open spec fn view(&self) -> GridView<T> {
        GridView { lines: self.lines as nat, columns: self.columns as nat, cells: self.items@ }
    }
}

impl<T> Grid<T> {
    /// The storage holds exactly one item for each cell, line after line.
    pub open spec fn wf(&self) -> bool {
        self@.wf()
    }

    pub open spec fn spec_valid_position(&self, pos: Position) -> bool {
        self@.valid(pos)
    }

    /// The place in the storage of the cell at `pos`.
    pub open spec fn index_of(&self, pos: Position) -> int {
        self@.index_of(pos)
    }

    /// The cell whose place in the storage is `index`.
    pub open spec fn position_of(&self, index: int) -> Position {
        self@.position_of(index)
    }

    /// The item of the cell at `pos`.
    pub open spec fn cell(&self, pos: Position) -> T {
        self@.cell(pos)
    }

    /// The in-bounds cell that `origin` moved by `(dl, dc)` lands on, if any.
    pub open spec fn stepped(&self, origin: Position, dl: int, dc: int) -> Option<Position> {
        self@.stepped(origin, dl, dc)
    }

    /// A valid position has a valid index, and the index leads back to the position.
    pub proof fn lemma_position_round_trip(&self, pos: Position)
        requires
            self.wf(),
            self.spec_valid_position(pos),
        ensures
            0 <= self.index_of(pos) < self.items@.len(),
            self.position_of(self.index_of(pos)) == pos,
    {
        self@.lemma_position_round_trip(pos);
    }

    /// A valid index has a valid position, and the position leads back to the index.
    pub proof fn lemma_index_round_trip(&self, index: int)
        requires
            self.wf(),
            0 <= index < self.items@.len(),
        ensures
            self.spec_valid_position(self.position_of(index)),
            self.index_of(self.position_of(index)) == index,
            self.position_of(index).0 == index / self.columns as int,
            self.position_of(index).1 == index % self.columns as int,
    {
        self@.lemma_index_round_trip(index);
    }

    /// Two valid positions with the same index are the same position.
    pub proof fn lemma_index_injective(&self, p: Position, q: Position)
        requires
            self.wf(),
            self.spec_valid_position(p),
            self.spec_valid_position(q),
            self.index_of(p) == self.index_of(q),
        ensures
            p == q,
    {
        self@.lemma_index_injective(p, q);
    }

    pub fn valid_position(&self, pos: &Position) -> (r: bool)
        ensures
            r == self.spec_valid_position(*pos),
    {
        pos.0 < self.lines && pos.1 < self.columns
    }

    pub fn valid_coordinates(&self, line: usize, column: usize) -> (r: bool)
        ensures
            r == self.spec_valid_position(Position(line, column)),
    {
        line < self.lines && column < self.columns
    }

    pub fn valid_index(&self, index: usize) -> (r: bool)
        ensures
            r == (index < self.items@.len()),
    {
        index < self.items.len()
    }

    /// Return the number of cells.
    pub fn size(&self) -> (r: usize)
        requires
            self.wf(),
        ensures
            r == self.lines * self.columns,
            r == self.items@.len(),
    {
        self.items.len()
    }

    /// Unchecked conversion from cell index to position.
    pub fn unchecked_position(&self, index: usize) -> (r: Position)
        requires
            self.wf(),
            index < self.items@.len(),
        ensures
            r == self.position_of(index as int),
            self.spec_valid_position(r),
            self.index_of(r) == index,
    {
        proof {
            self.lemma_index_round_trip(index as int);
        }
        Position(index / self.columns, index % self.columns)
    }

    pub fn checked_position(&self, index: usize) -> (r: Option<Position>)
        requires
            self.wf(),
        ensures
            r == if index < self.items@.len() {
                Some(self.position_of(index as int))
            } else {
                None
            },
    {
        if self.valid_index(index) {
            Some(self.unchecked_position(index))
        } else {
            None
        }
    }

    pub fn strict_position(&self, index: usize) -> (r: Position)
        requires
            self.wf(),
            index < self.items@.len(),
        ensures
            r == self.position_of(index as int),
            self.spec_valid_position(r),
            self.index_of(r) == index,
    {
        self.unchecked_position(index)
    }

    pub fn unchecked_index(&self, pos: &Position) -> (r: usize)
        requires
            self.wf(),
            self.spec_valid_position(*pos),
        ensures
            r == self.index_of(*pos),
            r < self.items@.len(),
            self.position_of(r as int) == *pos,
    {
        let size: usize = self.items.len();
        proof {
            self.lemma_position_round_trip(*pos);
            let c = self.columns as int;
            let a = pos.0 as int;
            assert(c * a + pos.1 < size);
            assert(0 <= c * a) by (nonlinear_arith)
                requires
                    0 <= c,
                    0 <= a,
            ;
        }
        self.columns * pos.0 + pos.1
    }

    pub fn checked_index(&self, pos: &Position) -> (r: Option<usize>)
        requires
            self.wf(),
        ensures
            match r {
                Some(index) => {
                    &&& self.spec_valid_position(*pos)
                    &&& index == self.index_of(*pos)
                    &&& index < self.items@.len()
                },
                None => !self.spec_valid_position(*pos),
            },
    {
        if self.valid_position(pos) {
            Some(self.unchecked_index(pos))
        } else {
            None
        }
    }

    pub fn strict_index(&self, pos: &Position) -> (r: usize)
        requires
            self.wf(),
            self.spec_valid_position(*pos),
        ensures
            r == self.index_of(*pos),
            r < self.items@.len(),
            self.position_of(r as int) == *pos,
    {
        self.unchecked_index(pos)
    }

    /// Retrieve value at given line and column coordinates.
    pub fn at(&self, line: usize, column: usize) -> (r: Option<&T>)
        requires
            self.wf(),
        ensures
            r == if self.spec_valid_position(Position(line, column)) {
                Some(&self.cell(Position(line, column)))
            } else {
                None
            },
    {
        if self.valid_coordinates(line, column) {
            let index = self.unchecked_index(&Position(line, column));
            Some(&self.items[index])
        } else {
            None
        }
    }

    /// Retrieve value at given position.
    pub fn get(&self, pos: &Position) -> (r: Option<&T>)
        requires
            self.wf(),
        ensures
            r == if self.spec_valid_position(*pos) {
                Some(&self.cell(*pos))
            } else {
                None
            },
    {
        match self.checked_index(pos) {
            Some(index) => Some(&self.items[index]),
            None => None,
        }
    }

    pub fn strict_get(&self, pos: &Position) -> (r: &T)
        requires
            self.wf(),
            self.spec_valid_position(*pos),
        ensures
            *r == self.cell(*pos),
    {
        &self.items[self.strict_index(pos)]
    }

    pub fn unchecked_get(&self, pos: &Position) -> (r: &T)
        requires
            self.wf(),
            self.spec_valid_position(*pos),
        ensures
            *r == self.cell(*pos),
    {
        &self.items[self.unchecked_index(pos)]
    }

    /// A handle on the item at the given position, through which it can be replaced.
    pub fn get_mut(&mut self, pos: &Position) -> (r: Option<&mut T>)
        requires
            old(self).wf(),
        ensures
            final(self).wf(),
            final(self).lines == old(self).lines,
            final(self).columns == old(self).columns,
            match r {
                Some(item) => {
                    &&& old(self).spec_valid_position(*pos)
                    &&& *item == old(self).cell(*pos)
                    &&& final(self).items@ == old(self).items@.update(
                        old(self).index_of(*pos),
                        *final(item),
                    )
                },
                None => {
                    &&& !old(self).spec_valid_position(*pos)
                    &&& final(self).items@ == old(self).items@
                },
            },
    {
        match self.checked_index(pos) {
            Some(index) => Some(&mut self.items[index]),
            None => None,
        }
    }

    /// A grid of the given shape with the same item in every cell, or `None` where
    /// the number of cells does not fit `usize`.
    pub fn filled(lines: usize, columns: usize, item: T) -> (r: Option<Self>) where T: Copy
        ensures
            match r {
                Some(grid) => {
                    &&& lines * columns <= usize::MAX
                    &&& grid.wf()
                    &&& grid@ == (GridView {
                        lines: lines as nat,
                        columns: columns as nat,
                        cells: Seq::new((lines * columns) as nat, |i: int| item),
                    })
                },
                None => lines * columns > usize::MAX,
            },
    {
        let size = match lines.checked_mul(columns) {
            Some(size) => size,
            None => {
                return None;
            },
        };
        let mut items: Vec<T> = Vec::new();
        let mut i: usize = 0;
        while i < size
            invariant
                i <= size,
                items@.len() == i,
                forall|k: int| 0 <= k < i ==> items@[k] == item,
            decreases size - i,
        {
            items.push(item);
            i += 1;
        }
        let grid = Grid { lines, columns, items };
        assert(grid@.cells =~= Seq::new((lines * columns) as nat, |i: int| item));
        Some(grid)
    }

    /// A copy of the grid.
    pub fn copy(&self) -> (r: Self) where T: Copy
        ensures
            r@ == self@,
    {
        let mut items: Vec<T> = Vec::new();
        let mut i: usize = 0;
        while i < self.items.len()
            invariant
                i <= self.items@.len(),
                items@ == self.items@.take(i as int),
            decreases self.items@.len() - i,
        {
            items.push(self.items[i]);
            i += 1;
        }
        assert(self.items@.take(self.items@.len() as int) =~= self.items@);
        Grid { lines: self.lines, columns: self.columns, items }
    }

    /// Replace the item at the given position; a position outside the grid is
    /// left alone.
    pub fn update(&mut self, pos: &Position, item: T)
        requires
            old(self).wf(),
        ensures
            final(self).wf(),
            final(self)@ == if old(self).spec_valid_position(*pos) {
                old(self)@.with(*pos, item)
            } else {
                old(self)@
            },
    {
        match self.get_mut(pos) {
            Some(place) => {
                *place = item;
            },
            None => {},
        }
    }

    /// Search for an element, returning the position of the first one, in storage
    /// order, that the predicate accepts.
    pub fn position<P>(&self, predicate: P) -> (r: Option<Position>) where P: Fn(&T) -> bool
        requires
            self.wf(),
            forall|i: int| 0 <= i < self.items@.len() ==> predicate.requires((&self.items@[i],)),
        ensures
            match r {
                Some(pos) => {
                    &&& self.spec_valid_position(pos)
                    &&& predicate.ensures((&self.cell(pos),), true)
                    &&& forall|i: int|
                        0 <= i < self.index_of(pos) ==> predicate.ensures(
                            (&#[trigger] self.items@[i],),
                            false,
                        )
                },
                None => forall|i: int|
                    0 <= i < self.items@.len() ==> predicate.ensures(
                        (&#[trigger] self.items@[i],),
                        false,
                    ),
            },
    {
        let mut i: usize = 0;
        while i < self.items.len()
            invariant
                self.wf(),
                i <= self.items@.len(),
                forall|k: int|
                    0 <= k < self.items@.len() ==> predicate.requires((&self.items@[k],)),
                forall|k: int|
                    0 <= k < i ==> predicate.ensures((&#[trigger] self.items@[k],), false),
            decreases self.items@.len() - i,
        {
            if predicate(&self.items[i]) {
                return Some(self.unchecked_position(i));
            }
            i += 1;
        }
        None
    }

    /// Search for an element, returning the first one, in storage order, that the
    /// predicate accepts.
    pub fn find<P>(&self, predicate: P) -> (r: Option<&T>) where P: Fn(&T) -> bool
        requires
            forall|i: int| 0 <= i < self.items@.len() ==> predicate.requires((&self.items@[i],)),
        ensures
            match r {
                Some(item) => exists|n: int|
                    {
                        &&& 0 <= n < self.items@.len()
                        &&& *item == self.items@[n]
                        &&& predicate.ensures((&self.items@[n],), true)
                        &&& forall|i: int|
                            0 <= i < n ==> predicate.ensures((&#[trigger] self.items@[i],), false)
                    },
                None => forall|i: int|
                    0 <= i < self.items@.len() ==> predicate.ensures(
                        (&#[trigger] self.items@[i],),
                        false,
                    ),
            },
    {
        let mut i: usize = 0;
        while i < self.items.len()
            invariant
                i <= self.items@.len(),
                forall|k: int|
                    0 <= k < self.items@.len() ==> predicate.requires((&self.items@[k],)),
                forall|k: int|
                    0 <= k < i ==> predicate.ensures((&#[trigger] self.items@[k],), false),
            decreases self.items@.len() - i,
        {
            if predicate(&self.items[i]) {
                return Some(&self.items[i]);
            }
            i += 1;
        }
        None
    }

    /// Call `f` on every cell, in storage order, with the cell's position and item.
    pub fn for_each_with_position<F>(&self, mut f: F) where F: FnMut(Position, &T)
        requires
            self.wf(),
            forall|i: int|
                0 <= i < self.items@.len() ==> f.requires(
                    (self.position_of(i), &#[trigger] self.items@[i]),
                ),
    {
        let mut i: usize = 0;
        while i < self.items.len()
            invariant
                self.wf(),
                i <= self.items@.len(),
                forall|k: int|
                    0 <= k < self.items@.len() ==> f.requires(
                        (self.position_of(k), &#[trigger] self.items@[k]),
                    ),
            decreases self.items@.len() - i,
        {
            f(self.unchecked_position(i), &self.items[i]);
            i += 1;
        }
    }

    /// The in-bounds cell that `origin` moved by `delta` lands on, if any.
    pub fn step(&self, origin: &Position, delta: &Point) -> (r: Option<Position>)
        ensures
            r == self.stepped(*origin, delta.0 as int, delta.1 as int),
    {
        match origin.add(delta) {
            Some(pos) => if self.valid_position(&pos) {
                Some(pos)
            } else {
                None
            },
            None => None,
        }
    }

    /// The in-bounds neighbours of `origin` in the first `n` of the directions
    /// north, east, south and west, in that order.
    pub open spec fn neighbours_among(&self, origin: Position, n: int) -> Seq<Position>
        decreases n,
    {
        if n <= 0 {
            Seq::empty()
        } else {
            let d = taxicab_directions_spec()[n - 1];
            match self.stepped(origin, d.0, d.1) {
                Some(pos) => self.neighbours_among(origin, n - 1).push(pos),
                None => self.neighbours_among(origin, n - 1),
            }
        }
    }

    /// The in-bounds neighbours of `origin`: north, east, south, west.
    pub fn neighbours(&self, origin: &Position) -> (r: Vec<Position>)
        ensures
            r@ == self.neighbours_among(*origin, 4),
            forall|i: int| 0 <= i < r@.len() ==> self.spec_valid_position(#[trigger] r@[i]),
    {
        let directions = taxicab_directions();
        let mut r: Vec<Position> = Vec::new();
        let mut i: usize = 0;
        while i < 4
            invariant
                i <= 4,
                directions@.len() == 4,
                forall|k: int| 0 <= k < 4 ==> (#[trigger] directions@[k])@ == taxicab_directions_spec()[k],
                r@ == self.neighbours_among(*origin, i as int),
                forall|k: int| 0 <= k < r@.len() ==> self.spec_valid_position(#[trigger] r@[k]),
            decreases 4 - i,
        {
            assert(directions@[i as int]@ == taxicab_directions_spec()[i as int]);
            if let Some(pos) = self.step(origin, &directions[i]) {
                r.push(pos);
            }
            i += 1;
        }
        r
    }

    /// Call `f` on each in-bounds neighbour of `origin`, as `neighbours` lists
    /// them: north, east, south, west.
    pub fn for_each_neighbour<F>(&self, origin: &Position, mut f: F) where F: FnMut(Position, &T)
        requires
            self.wf(),
            forall|pos: Position|
                self.spec_valid_position(pos) ==> f.requires((pos, &#[trigger] self.cell(pos))),
    {
        let all = self.neighbours(origin);
        let mut i: usize = 0;
        while i < all.len()
            invariant
                self.wf(),
                i <= all@.len(),
                forall|k: int| 0 <= k < all@.len() ==> self.spec_valid_position(#[trigger] all@[k]),
                forall|pos: Position|
                    self.spec_valid_position(pos) ==> f.requires(
                        (pos, &#[trigger] self.cell(pos)),
                    ),
            decreases all@.len() - i,
        {
            let pos = all[i];
            let item = self.unchecked_get(&pos);
            assert(f.requires((pos, &self.cell(pos))));
            f(pos, item);
            i += 1;
        }
    }

    /// A grid of the same shape, each item being what `f` makes of the item at the
    /// same place.
    pub fn new_from<B, F>(&self, f: F) -> (r: Grid<B>) where F: Fn(&T) -> B
        requires
            forall|i: int| 0 <= i < self.items@.len() ==> f.requires((&self.items@[i],)),
        ensures
            r.lines == self.lines,
            r.columns == self.columns,
            r.items@.len() == self.items@.len(),
            self.wf() ==> r.wf(),
            forall|i: int|
                0 <= i < self.items@.len() ==> f.ensures(
                    (&self.items@[i],),
                    #[trigger] r.items@[i],
                ),
    {
        let mut items: Vec<B> = Vec::new();
        let mut i: usize = 0;
        while i < self.items.len()
            invariant
                i <= self.items@.len(),
                items@.len() == i,
                forall|k: int| 0 <= k < self.items@.len() ==> f.requires((&self.items@[k],)),
                forall|k: int|
                    0 <= k < i ==> f.ensures((&self.items@[k],), #[trigger] items@[k]),
            decreases self.items@.len() - i,
        {
            items.push(f(&self.items[i]));
            i += 1;
        }
        Grid { lines: self.lines, columns: self.columns, items }
    }
}


/// An array of `N` default values, made by `std::array::from_fn`. Nothing is
/// claimed of the values.
#[verifier::external_body]
fn default_array<T: Default, const N: usize>() -> (r: [T; N]) {
    std::array::from_fn(|_| T::default())
}

impl<T> Grid<T> where T: Default + Clone {
    /// The in-bounds cell reached from `origin` by applying `step` `i` times, if any.
    pub open spec fn ray(&self, origin: Position, step: (int, int), i: int) -> Option<Position> {
        self.stepped(origin, i * step.0, i * step.1)
    }

    /// Extract N items by applying the given step N-1 times starting from the given origin position.
    ///
    /// Return `None` if any generated coordinates is outside the grid's boundaries.
    pub fn step_extract<const N: usize>(&self, origin: &Position, step: &Point) -> (r: Option<
        [T; N],
    >)
        requires
            self.wf(),
        ensures
            match r {
                Some(items) => forall|i: int|
                    0 <= i < N ==> {
                        &&& #[trigger] self.ray(*origin, step@, i) is Some
                        &&& cloned(self.cell(self.ray(*origin, step@, i)->0), items@[i])
                    },
                None => exists|i: int| 0 <= i < N && #[trigger] self.ray(*origin, step@, i) is None,
            },
    {
        let mut items: [T; N] = default_array();
        let mut at: Option<Position> = Some(*origin);
        let mut i: usize = 0;
        while i < N
            invariant
                self.wf(),
                i <= N,
                at == moved(*origin, i * step@.0, i * step@.1),
                forall|k: int|
                    0 <= k < i ==> {
                        &&& #[trigger] self.ray(*origin, step@, k) is Some
                        &&& cloned(self.cell(self.ray(*origin, step@, k)->0), items@[k])
                    },
            decreases N - i,
        {
            let pos = match at {
                Some(pos) => pos,
                None => {
                    assert(self.ray(*origin, step@, i as int) is None);
                    return None;
                },
            };
            match self.get(&pos) {
                Some(item) => {
                    items[i] = item.clone();
                },
                None => {
                    assert(self.ray(*origin, step@, i as int) is None);
                    return None;
                },
            }
            assert(self.ray(*origin, step@, i as int) == Some(pos));
            at = pos.add(step);
            proof {
                let a = step@.0;
                let b = step@.1;
                let n = i as int;
                assert((n + 1) * a == n * a + a && (n + 1) * b == n * b + b) by (nonlinear_arith);
            }
            i += 1;
        }
        Some(items)
    }

    /// Extract N items by applying the given deltas to the given origin.
    ///
    /// Return `None` if any generated coordinates is outside the grid's boundaries.
    pub fn deltas_extract<const N: usize>(&self, origin: &Position, deltas: [Point; N]) -> (r:
        Option<[T; N]>)
        requires
            self.wf(),
        ensures
            match r {
                Some(items) => forall|i: int|
                    0 <= i < N ==> {
                        &&& #[trigger] self.stepped(*origin, deltas@[i]@.0, deltas@[i]@.1) is Some
                        &&& cloned(
                            self.cell(self.stepped(*origin, deltas@[i]@.0, deltas@[i]@.1)->0),
                            items@[i],
                        )
                    },
                None => exists|i: int|
                    0 <= i < N && #[trigger] self.stepped(
                        *origin,
                        deltas@[i]@.0,
                        deltas@[i]@.1,
                    ) is None,
            },
    {
        let mut items: [T; N] = default_array();
        let mut i: usize = 0;
        while i < N
            invariant
                self.wf(),
                i <= N,
                forall|k: int|
                    0 <= k < i ==> {
                        &&& #[trigger] self.stepped(*origin, deltas@[k]@.0, deltas@[k]@.1) is Some
                        &&& cloned(
                            self.cell(self.stepped(*origin, deltas@[k]@.0, deltas@[k]@.1)->0),
                            items@[k],
                        )
                    },
            decreases N - i,
        {
            let pos = match self.step(origin, &deltas[i]) {
                Some(pos) => pos,
                None => {
                    assert(self.stepped(*origin, deltas@[i as int]@.0, deltas@[i as int]@.1) is None);
                    return None;
                },
            };
            items[i] = self.unchecked_get(&pos).clone();
            i += 1;
        }
        Some(items)
    }
}


/// The grid that holds one line for each row and one cell for each character of a
/// row.
pub open spec fn text_grid(rows: Seq<Seq<char>>) -> GridView<char> {
    let columns = rows[0].len();
    GridView {
        lines: rows.len(),
        columns,
        cells: Seq::new(rows.len() * columns, |i: int| rows[i / columns as int][i % columns as int]),
    }
}

/// There is at least one row, and all rows have the same width.
pub open spec fn rectangular(rows: Seq<Seq<char>>) -> bool {
    &&& rows.len() > 0
    &&& forall|i: int| 0 <= i < rows.len() ==> (#[trigger] rows[i]).len() == rows[0].len()
}

impl Grid<char> {
    /// The grid has one line for each row and one cell for each character of a row.
    pub open spec fn holds(&self, rows: Seq<Seq<char>>) -> bool {
        &&& self.wf()
        &&& rectangular(rows)
        &&& self.lines == rows.len()
        &&& self.columns == rows[0].len()
        &&& forall|l: int, c: int|
            0 <= l < self.lines && 0 <= c < self.columns ==> self.items@[self.columns * l + c]
                == #[trigger] rows[l][c]
    }

    /// A grid that holds the rows is the grid of their characters.
    pub proof fn lemma_holds_text_grid(&self, rows: Seq<Seq<char>>)
        requires
            self.holds(rows),
        ensures
            self@ == text_grid(rows),
    {
        let c = self.columns as int;
        let l = self.lines as int;
        assert forall|i: int| 0 <= i < self.items@.len() implies self.items@[i] == text_grid(
            rows,
        ).cells[i] by {
            self.lemma_index_round_trip(i);
            let p = self.position_of(i);
            assert(p.0 == i / c && p.1 == i % c);
            assert(self.items@[c * (p.0 as int) + p.1 as int] == rows[p.0 as int][p.1 as int]);
        }
        assert(self@.cells =~= text_grid(rows).cells);
    }

    /// Read a grid from the given string, lines are separated by ascii whitespace.
    ///
    /// Return `None` when the string holds no line, or lines of different widths.
    pub fn try_new(input: &str) -> (r: Option<Self>)
        ensures
            match r {
                Some(grid) => {
                    &&& grid.holds(crate::etc::text::words(input@))
                    &&& grid@ == text_grid(crate::etc::text::words(input@))
                },
                None => !rectangular(crate::etc::text::words(input@)),
            },
    {
        let text = crate::etc::text::chars(input);
        let rows = crate::etc::text::split_words(&text);
        let ghost words = crate::etc::text::words(input@);
        assert(words == crate::etc::text::rows_view(rows@));
        if rows.len() == 0 {
            return None;
        }
        let columns = rows[0].len();
        assert(words[0] == rows@[0]@);
        let mut items: Vec<char> = Vec::new();
        let mut l: usize = 0;
        while l < rows.len()
            invariant
                l <= rows@.len(),
                rows@.len() > 0,
                words == crate::etc::text::rows_view(rows@),
                words == crate::etc::text::words(input@),
                columns == words[0].len(),
                items@.len() == l * columns,
                forall|i: int| 0 <= i < l ==> (#[trigger] words[i]).len() == columns,
                forall|i: int, c: int|
                    0 <= i < l && 0 <= c < columns ==> items@[columns * i + c]
                        == #[trigger] words[i][c],
            decreases rows@.len() - l,
        {
            let row = &rows[l];
            assert(words[l as int] == row@);
            if row.len() != columns {
                return None;
            }
            let mut c: usize = 0;
            while c < columns
                invariant
                    c <= columns,
                    l < rows@.len(),
                    row@ == words[l as int],
                    row@.len() == columns,
                    items@.len() == l * columns + c,
                    forall|i: int, k: int|
                        0 <= i < l && 0 <= k < columns ==> items@[columns * i + k]
                            == #[trigger] words[i][k],
                    forall|k: int| 0 <= k < c ==> items@[columns * l + k] == #[trigger] row@[k],
                decreases columns - c,
            {
                let ghost before = items@;
                items.push(row[c]);
                proof {
                    assert(columns * l == l * columns) by (nonlinear_arith);
                    assert forall|i: int, k: int| 0 <= i < l && 0 <= k < columns implies items@[columns
                        * i + k] == #[trigger] words[i][k] by {
                        assert(columns * i + k < l * columns) by (nonlinear_arith)
                            requires
                                0 <= i < l,
                                0 <= k < columns,
                        ;
                        assert(items@[columns * i + k] == before[columns * i + k]);
                    }
                }
                c += 1;
            }
            proof {
                assert(l * columns + columns == (l + 1) * columns) by (nonlinear_arith);
                assert forall|i: int, k: int| 0 <= i < l + 1 && 0 <= k < columns implies items@[columns
                    * i + k] == #[trigger] words[i][k] by {
                    if i == l {
                    }
                }
            }
            l += 1;
        }
        let grid = Grid { lines: rows.len(), columns, items };
        proof {
            grid.lemma_holds_text_grid(words);
        }
        Some(grid)
    }

    /// Read a grid from the given string, lines are separated by ascii whitespace.
    pub fn new(input: &str) -> (r: Self)
        requires
            rectangular(crate::etc::text::words(input@)),
        ensures
            r.holds(crate::etc::text::words(input@)),
            r@ == text_grid(crate::etc::text::words(input@)),
    {
        match Self::try_new(input) {
            Some(grid) => grid,
            None => {
                proof {
                    assert(false);
                }
                Grid { lines: 0, columns: 0, items: Vec::new() }
            },
        }
    }
}

} // verus!
