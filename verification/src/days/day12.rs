use crate::days::day18::{linked, neighbour};
use crate::etc::count::{count, sum};
use crate::etc::disjoint::{merged, DisjointSet};
use crate::etc::grid::{
    rectangular, taxicab_directions, taxicab_directions_spec, text_grid, Grid, GridView, Point,
    Position,
};
use crate::etc::solution::{Solution, SolutionPair};
use crate::etc::text::words;
use vstd::prelude::*;

verus! {

pub type Farm = Grid<char>;

/// `to` is next to `from`, and grows the same plant.
pub open spec fn touches(farm: GridView<char>, from: Position, to: Position) -> bool {
    farm.valid(from) && linked(farm, from, to) && farm.cell(from) == farm.cell(to)
}

/// There are `n` steps from `from` to `to`, each to a plot that touches the one
/// before.
pub open spec fn chain(farm: GridView<char>, from: Position, to: Position, n: nat) -> bool
    decreases n,
{
    if n == 0 {
        from == to && farm.valid(from)
    } else {
        exists|via: Position|
            chain(farm, from, via, (n - 1) as nat) && #[trigger] touches(farm, via, to)
    }
}

/// The two plots are of one region: steps lead from one to the other, each to a
/// plot that touches the one before.
pub open spec fn joined(farm: GridView<char>, from: Position, to: Position) -> bool {
    exists|n: nat| chain(farm, from, to, n)
}

/// A plot that touches another is on the farm, and is touched by it.
pub proof fn lemma_touches_back(farm: GridView<char>, from: Position, to: Position)
    requires
        touches(farm, from, to),
    ensures
        touches(farm, to, from),
        farm.valid(to),
{
    let d = choose|d: int| 0 <= d < 4 && #[trigger] neighbour(farm, from, d) == Some(to);
    assert(neighbour(farm, to, (d + 2) % 4) == Some(from));
}

/// Plots of one region are on the farm and grow the same plant.
pub proof fn lemma_chain_facts(farm: GridView<char>, from: Position, to: Position, n: nat)
    requires
        chain(farm, from, to, n),
    ensures
        farm.valid(from),
        farm.valid(to),
        farm.cell(from) == farm.cell(to),
    decreases n,
{
    if n > 0 {
        let via = choose|via: Position|
            chain(farm, from, via, (n - 1) as nat) && #[trigger] touches(farm, via, to);
        lemma_chain_facts(farm, from, via, (n - 1) as nat);
        lemma_touches_back(farm, via, to);
    }
}

/// A plot is of the region of the plots of its region.
pub proof fn lemma_joined_on(farm: GridView<char>, from: Position, via: Position, to: Position, n: nat)
    requires
        joined(farm, from, via),
        chain(farm, via, to, n),
    ensures
        joined(farm, from, to),
    decreases n,
{
    if n > 0 {
        let last = choose|last: Position|
            chain(farm, via, last, (n - 1) as nat) && #[trigger] touches(farm, last, to);
        lemma_joined_on(farm, from, via, last, (n - 1) as nat);
        let m = choose|m: nat| chain(farm, from, last, m);
        assert(chain(farm, from, last, ((m + 1) - 1) as nat));
        assert(chain(farm, from, to, m + 1));
    }
}

/// Being of one region goes both ways.
pub proof fn lemma_joined_back(farm: GridView<char>, from: Position, to: Position, n: nat)
    requires
        chain(farm, from, to, n),
    ensures
        joined(farm, to, from),
    decreases n,
{
    if n == 0 {
        assert(chain(farm, to, from, 0));
    } else {
        let via = choose|via: Position|
            chain(farm, from, via, (n - 1) as nat) && #[trigger] touches(farm, via, to);
        lemma_joined_back(farm, from, via, (n - 1) as nat);
        lemma_touches_back(farm, via, to);
        assert(chain(farm, to, to, 0));
        assert(chain(farm, to, via, 1));
        let m = choose|m: nat| chain(farm, via, from, m);
        lemma_joined_on(farm, to, via, from, m);
    }
}

/// Being of one region is an equivalence: what is of the region of a plot of
/// the region of another is of the region of that other, both ways.
pub proof fn lemma_joined_is_equivalence(
    farm: GridView<char>,
    a: Position,
    b: Position,
    c: Position,
)
    requires
        joined(farm, a, b),
    ensures
        joined(farm, b, a),
        joined(farm, b, c) ==> joined(farm, a, c),
        joined(farm, c, b) ==> joined(farm, c, a),
        joined(farm, a, c) ==> joined(farm, b, c),
{
    let n = choose|n: nat| chain(farm, a, b, n);
    lemma_joined_back(farm, a, b, n);
    let back = choose|m: nat| chain(farm, b, a, m);
    if joined(farm, b, c) {
        let m = choose|m: nat| chain(farm, b, c, m);
        lemma_joined_on(farm, a, b, c, m);
    }
    if joined(farm, c, b) {
        lemma_joined_on(farm, c, b, a, back);
    }
    if joined(farm, a, c) {
        let m = choose|m: nat| chain(farm, a, c, m);
        lemma_joined_on(farm, b, a, c, m);
    }
}

/// The classes are the regions of the farm: two plots are in one class exactly
/// when they are of one region.
pub open spec fn regions_of(farm: GridView<char>, heads: Seq<int>) -> bool {
    &&& heads.len() == farm.cells.len()
    &&& forall|i: int, j: int|
        0 <= i < heads.len() && 0 <= j < heads.len() ==> (#[trigger] heads[i] == #[trigger] heads[j]
            <==> joined(farm, farm.position_of(i), farm.position_of(j)))
}

/// The plot next to `from` in the direction `d` grows the same plant.
pub open spec fn same_plant(farm: GridView<char>, from: Position, d: int) -> bool {
    match neighbour(farm, from, d) {
        Some(to) => farm.cell(to) == farm.cell(from),
        None => false,
    }
}

/// The number of fences of a plot: one on each of its four sides where no plot
/// with the same plant is next to it.
pub open spec fn fences_of(farm: GridView<char>, at: Position) -> int {
    4 - count(4, |d: int| same_plant(farm, at, d))
}

/// The state of the partitioning after `done` looks, each from a plot in one
/// direction: plots in one class are of one region, and a plot looked at is in
/// the class of the plot it was looked at from, where it grows the same plant.
pub open spec fn partitioning(farm: GridView<char>, heads: Seq<int>, done: int) -> bool {
    &&& farm.wf()
    &&& farm.lines <= usize::MAX
    &&& farm.columns <= usize::MAX
    &&& heads.len() == farm.cells.len()
    &&& forall|i: int, j: int|
        0 <= i < heads.len() && 0 <= j < heads.len() && #[trigger] heads[i] == #[trigger] heads[j]
            ==> joined(farm, farm.position_of(i), farm.position_of(j))
    &&& forall|i: int, d: int|
        0 <= i < heads.len() && 0 <= d < 4 && 4 * i + d < done && #[trigger] same_plant(
            farm,
            farm.position_of(i),
            d,
        ) ==> heads[i] == heads[farm.index_of(neighbour(farm, farm.position_of(i), d)->0)]
}

/// Before any look, every plot is alone in its class.
proof fn lemma_partition_starts(farm: GridView<char>, heads: Seq<int>)
    requires
        farm.wf(),
        farm.lines <= usize::MAX,
        farm.columns <= usize::MAX,
        heads == Seq::new(farm.cells.len(), |i: int| i),
    ensures
        partitioning(farm, heads, 0),
{
    assert forall|i: int, j: int|
        0 <= i < heads.len() && 0 <= j < heads.len() && #[trigger] heads[i] == #[trigger] heads[j] implies joined(
        farm,
        farm.position_of(i),
        farm.position_of(j),
    ) by {
        farm.lemma_index_round_trip(i);
        assert(chain(farm, farm.position_of(i), farm.position_of(j), 0));
    }
}

/// A look at a plot with another plant, or at no plot, merges nothing.
proof fn lemma_partition_idle(farm: GridView<char>, heads: Seq<int>, i: int, d: int)
    requires
        partitioning(farm, heads, 4 * i + d),
        0 <= i < heads.len(),
        0 <= d < 4,
        !same_plant(farm, farm.position_of(i), d),
    ensures
        partitioning(farm, heads, 4 * i + d + 1),
{
    assert forall|x: int, e: int|
        0 <= x < heads.len() && 0 <= e < 4 && 4 * x + e < 4 * i + d + 1 && #[trigger] same_plant(
            farm,
            farm.position_of(x),
            e,
        ) implies heads[x] == heads[farm.index_of(neighbour(farm, farm.position_of(x), e)->0)] by {
        if 4 * x + e == 4 * i + d {
            assert(x == i && e == d);
        }
    }
}

/// A look at a plot with the same plant merges the two classes.
proof fn lemma_partition_merges(farm: GridView<char>, heads: Seq<int>, i: int, d: int, j: int)
    requires
        partitioning(farm, heads, 4 * i + d),
        0 <= i < heads.len(),
        0 <= d < 4,
        same_plant(farm, farm.position_of(i), d),
        j == farm.index_of(neighbour(farm, farm.position_of(i), d)->0),
    ensures
        0 <= j < heads.len(),
        partitioning(farm, merged(heads, i, j), 4 * i + d + 1),
{
    let from = farm.position_of(i);
    let to = neighbour(farm, from, d)->0;
    farm.lemma_index_round_trip(i);
    farm.lemma_position_round_trip(to);
    let after = merged(heads, i, j);
    assert(touches(farm, from, to));
    assert(chain(farm, from, from, 0));
    assert(chain(farm, from, to, 1));
    assert(joined(farm, from, to));
    assert forall|x: int, y: int|
        0 <= x < after.len() && 0 <= y < after.len() && #[trigger] after[x] == #[trigger] after[y] implies joined(
        farm,
        farm.position_of(x),
        farm.position_of(y),
    ) by {
        let px = farm.position_of(x);
        let py = farm.position_of(y);
        if heads[x] != heads[y] {
            // one is of the class of `i`, the other of the class of `j`
            if heads[x] == heads[i] {
                assert(heads[y] == heads[j]);
                assert(joined(farm, px, from));
                assert(joined(farm, to, py));
                lemma_joined_is_equivalence(farm, from, to, py);
                lemma_joined_is_equivalence(farm, px, from, py);
                lemma_joined_is_equivalence(farm, from, px, py);
            } else {
                assert(heads[x] == heads[j] && heads[y] == heads[i]);
                assert(joined(farm, px, to));
                assert(joined(farm, from, py));
                lemma_joined_is_equivalence(farm, from, to, px);
                lemma_joined_is_equivalence(farm, to, from, py);
                lemma_joined_is_equivalence(farm, to, px, py);
                lemma_joined_is_equivalence(farm, px, to, py);
            }
        }
    }
    assert forall|x: int, e: int|
        0 <= x < after.len() && 0 <= e < 4 && 4 * x + e < 4 * i + d + 1 && #[trigger] same_plant(
            farm,
            farm.position_of(x),
            e,
        ) implies after[x] == after[farm.index_of(neighbour(farm, farm.position_of(x), e)->0)] by {
        let y = farm.index_of(neighbour(farm, farm.position_of(x), e)->0);
        farm.lemma_index_round_trip(x);
        farm.lemma_position_round_trip(neighbour(farm, farm.position_of(x), e)->0);
        if 4 * x + e == 4 * i + d {
            assert(x == i && e == d);
        } else {
            assert(heads[x] == heads[y]);
        }
    }
}

/// After all looks, the classes are the regions.
proof fn lemma_partition_ends(farm: GridView<char>, heads: Seq<int>)
    requires
        partitioning(farm, heads, 4 * heads.len() as int),
    ensures
        regions_of(farm, heads),
{
    assert forall|i: int, j: int|
        0 <= i < heads.len() && 0 <= j < heads.len() && joined(
            farm,
            farm.position_of(i),
            farm.position_of(j),
        ) implies #[trigger] heads[i] == #[trigger] heads[j] by {
        let n = choose|n: nat| chain(farm, farm.position_of(i), farm.position_of(j), n);
        farm.lemma_index_round_trip(i);
        farm.lemma_index_round_trip(j);
        lemma_chain_in_class(farm, heads, farm.position_of(i), farm.position_of(j), n);
    }
}

/// After all looks, plots of one region are in one class.
proof fn lemma_chain_in_class(
    farm: GridView<char>,
    heads: Seq<int>,
    from: Position,
    to: Position,
    n: nat,
)
    requires
        partitioning(farm, heads, 4 * heads.len() as int),
        chain(farm, from, to, n),
    ensures
        heads[farm.index_of(from)] == heads[farm.index_of(to)],
    decreases n,
{
    if n > 0 {
        let via = choose|via: Position|
            chain(farm, from, via, (n - 1) as nat) && #[trigger] touches(farm, via, to);
        lemma_chain_in_class(farm, heads, from, via, (n - 1) as nat);
        let d = choose|d: int| 0 <= d < 4 && #[trigger] neighbour(farm, via, d) == Some(to);
        farm.lemma_position_round_trip(via);
        let x = farm.index_of(via);
        assert(same_plant(farm, farm.position_of(x), d));
        assert(4 * x + d < 4 * heads.len());
    }
}

/// Compute regions by computing the equivalence class of touching farm plots growing the same
/// type of plant. Compute the number of fences for each farm's plot.
pub fn compute_regions_and_fences(farm: &Farm) -> (r: (DisjointSet, Vec<u64>))
    requires
        farm.wf(),
    ensures
        r.0.wf(),
        regions_of(farm@, r.0@),
        r.1@.len() == farm@.cells.len(),
        forall|i: int|
            0 <= i < r.1@.len() ==> #[trigger] r.1@[i] == fences_of(farm@, farm@.position_of(i)),
{
    let directions = taxicab_directions();
    let size = farm.size();
    let mut regions = DisjointSet::new(size);
    let mut plot_fences: Vec<u64> = Vec::new();
    let mut i: usize = 0;
    proof {
        lemma_partition_starts(farm@, regions@);
    }
    while i < size
        invariant
            i <= size,
            size == farm@.cells.len(),
            farm.wf(),
            regions.wf(),
            directions@.len() == 4,
            forall|d: int|
                0 <= d < 4 ==> (#[trigger] directions@[d])@ == taxicab_directions_spec()[d],
            partitioning(farm@, regions@, 4 * i),
            plot_fences@.len() == i,
            forall|k: int|
                0 <= k < i ==> #[trigger] plot_fences@[k] == fences_of(farm@, farm@.position_of(k)),
        decreases size - i,
    {
        let plot = farm.unchecked_position(i);
        let plant = *farm.unchecked_get(&plot);
        let mut fences: u64 = 4;
        let mut d: usize = 0;
        let ghost same = |d: int| same_plant(farm@, plot, d);
        while d < 4
            invariant
                d <= 4,
                i < size,
                size == farm@.cells.len(),
                farm.wf(),
                regions.wf(),
                plot == farm@.position_of(i as int),
                farm@.valid(plot),
                plant == farm@.cell(plot),
                directions@.len() == 4,
                forall|d: int|
                    0 <= d < 4 ==> (#[trigger] directions@[d])@ == taxicab_directions_spec()[d],
                partitioning(farm@, regions@, 4 * i + d),
                same == |d: int| same_plant(farm@, plot, d),
                fences == 4 - count(d as int, same),
                count(d as int, same) <= d,
            decreases 4 - d,
        {
            let mut merge: Option<usize> = None;
            match farm.step(&plot, &directions[d]) {
                Some(neigh) => {
                    if *farm.unchecked_get(&neigh) == plant {
                        merge = Some(farm.unchecked_index(&neigh));
                    }
                },
                None => {},
            }
            match merge {
                Some(other) => {
                    proof {
                        lemma_partition_merges(farm@, regions@, i as int, d as int, other as int);
                    }
                    // neighbour in same region
                    regions.union(i, other);
                    // no fence needed with that neighbour
                    fences -= 1;
                },
                None => {
                    proof {
                        lemma_partition_idle(farm@, regions@, i as int, d as int);
                    }
                },
            }
            d += 1;
        }
        plot_fences.push(fences);
        i += 1;
    }
    proof {
        lemma_partition_ends(farm@, regions@);
    }
    (regions, plot_fences)
}


/// The plot at the given offset from `at` is on the farm and of the region of
/// `at`.
pub open spec fn in_region(farm: GridView<char>, at: Position, dl: int, dc: int) -> bool {
    match farm.stepped(at, dl, dc) {
        Some(to) => joined(farm, at, to),
        None => false,
    }
}

/// One for true, zero for false.
pub open spec fn one_if(b: bool) -> int {
    if b {
        1
    } else {
        0
    }
}

/// The number of corners of its region at a plot. There is a corner in each
/// of the four quarters round the plot where neither of the two plots beside it
/// is of its region, and where both are but the plot between them is not:
///
/// ```text
/// .x  x.  .?  ?.
/// ?.  .?  x.  .x
///
/// xX  Xx  x.  .x
/// .x  x.  Xx  xX
/// ```
pub open spec fn corners_of(farm: GridView<char>, at: Position) -> int {
    let north = in_region(farm, at, -1, 0);
    let east = in_region(farm, at, 0, 1);
    let south = in_region(farm, at, 1, 0);
    let west = in_region(farm, at, 0, -1);
    one_if(!west && !south) + one_if(!east && !south) + one_if(!north && !east) + one_if(
        !north && !west,
    ) + one_if(west && south && !in_region(farm, at, 1, -1)) + one_if(
        east && south && !in_region(farm, at, 1, 1),
    ) + one_if(north && east && !in_region(farm, at, -1, 1)) + one_if(
        north && west && !in_region(farm, at, -1, -1),
    )
}

/// Whether the plot at the offset `delta` from `at` is on the farm and of the
/// region of `at`.
pub fn same_region(farm: &Farm, regions: &DisjointSet, at: &Position, delta: Point) -> (r: bool)
    requires
        farm.wf(),
        regions.wf(),
        regions_of(farm@, regions@),
        farm.spec_valid_position(*at),
    ensures
        r == in_region(farm@, *at, delta.0 as int, delta.1 as int),
{
    match farm.step(at, &delta) {
        Some(to) => {
            let i = farm.unchecked_index(at);
            let j = farm.unchecked_index(&to);
            proof {
                let heads = regions@;
                assert(heads[i as int] == heads[j as int] <==> joined(
                    farm@,
                    farm@.position_of(i as int),
                    farm@.position_of(j as int),
                ));
            }
            regions.same_set(i, j)
        },
        None => false,
    }
}

fn one(b: bool) -> (r: u64)
    ensures
        r == one_if(b),
{
    if b {
        1
    } else {
        0
    }
}

/// The number of corners of its region at a plot.
pub fn corners(farm: &Farm, regions: &DisjointSet, at: &Position) -> (r: u64)
    requires
        farm.wf(),
        regions.wf(),
        regions_of(farm@, regions@),
        farm.spec_valid_position(*at),
    ensures
        r == corners_of(farm@, *at),
        r <= 8,
{
    let north = same_region(farm, regions, at, Point(-1, 0));
    let east = same_region(farm, regions, at, Point(0, 1));
    let south = same_region(farm, regions, at, Point(1, 0));
    let west = same_region(farm, regions, at, Point(0, -1));
    let south_west = same_region(farm, regions, at, Point(1, -1));
    let south_east = same_region(farm, regions, at, Point(1, 1));
    let north_east = same_region(farm, regions, at, Point(-1, 1));
    let north_west = same_region(farm, regions, at, Point(-1, -1));
    one(!west && !south) + one(!east && !south) + one(!north && !east) + one(!north && !west) + one(
        west && south && !south_west,
    ) + one(east && south && !south_east) + one(north && east && !north_east) + one(
        north && west && !north_west,
    )
}

/// The number of numbers in the class that `head` stands for.
pub open spec fn class_size(heads: Seq<int>, head: int) -> int {
    count(heads.len() as int, |j: int| heads[j] == head)
}

/// The sum of the weights of the numbers in the class that `head` stands for.
pub open spec fn class_weight(heads: Seq<int>, weights: Seq<u64>, head: int) -> int {
    sum(
        heads.len() as int,
        |j: int|
            if heads[j] == head {
                weights[j] as int
            } else {
                0
            },
    )
}

/// The sum, over the classes, of the size of the class times the sum of the
/// weights of its numbers.
pub open spec fn price(heads: Seq<int>, weights: Seq<u64>) -> int {
    sum(heads.len() as int, |head: int| class_size(heads, head) * class_weight(heads, weights, head))
}

/// The most plots that a farm can have for its prices to be counted in 64 bits.
pub open spec fn most_plots() -> int {
    0x10_0000
}

/// The sum, over the classes, of the size of the class times the sum of the
/// weights of its numbers.
pub fn tally(regions: &DisjointSet, weights: &Vec<u64>) -> (r: u64)
    requires
        regions.wf(),
        weights@.len() == regions@.len(),
        regions@.len() <= most_plots(),
        forall|j: int| 0 <= j < weights@.len() ==> #[trigger] weights@[j] <= 8,
    ensures
        r == price(regions@, weights@),
{
    let size = regions.len();
    let ghost heads = regions@;
    let mut area: Vec<u64> = Vec::new();
    let mut weight: Vec<u64> = Vec::new();
    let mut k: usize = 0;
    while k < size
        invariant
            k <= size,
            area@.len() == k,
            weight@.len() == k,
            forall|r: int| 0 <= r < k ==> #[trigger] area@[r] == 0 && weight@[r] == 0,
        decreases size - k,
    {
        area.push(0);
        weight.push(0);
        k += 1;
    }
    let mut j: usize = 0;
    proof {
        assert forall|r: int| 0 <= r < size implies #[trigger] weight@[r] == sum(
            0,
            |x: int|
                if heads[x] == r {
                    weights@[x] as int
                } else {
                    0
                },
        ) by {
            assert(area@[r] == 0);
        }
    }
    while j < size
        invariant
            j <= size,
            size == heads.len(),
            size <= most_plots(),
            heads == regions@,
            regions.wf(),
            weights@.len() == size,
            forall|j: int| 0 <= j < weights@.len() ==> #[trigger] weights@[j] <= 8,
            area@.len() == size,
            weight@.len() == size,
            forall|r: int|
                0 <= r < size ==> #[trigger] area@[r] == count(j as int, |x: int| heads[x] == r),
            forall|r: int|
                0 <= r < size ==> #[trigger] weight@[r] == sum(
                    j as int,
                    |x: int|
                        if heads[x] == r {
                            weights@[x] as int
                        } else {
                            0
                        },
                ),
            forall|r: int| 0 <= r < size ==> #[trigger] area@[r] <= j && weight@[r] <= 8 * j,
        decreases size - j,
    {
        let head = regions.find(j);
        let ghost before_area = area@;
        let ghost before_weight = weight@;
        area[head] = area[head] + 1;
        weight[head] = weight[head] + weights[j];
        proof {
            assert forall|r: int| 0 <= r < size implies #[trigger] area@[r] == count(
                j + 1,
                |x: int| heads[x] == r,
            ) by {
                assert(before_area[r] == count(j as int, |x: int| heads[x] == r));
            }
            assert forall|r: int| 0 <= r < size implies #[trigger] weight@[r] == sum(
                j + 1,
                |x: int|
                    if heads[x] == r {
                        weights@[x] as int
                    } else {
                        0
                    },
            ) by {
                assert(before_weight[r] == sum(
                    j as int,
                    |x: int|
                        if heads[x] == r {
                            weights@[x] as int
                        } else {
                            0
                        },
                ));
            }
            assert forall|r: int| 0 <= r < size implies #[trigger] area@[r] <= j + 1 && weight@[r] <= 8
                * (j + 1) by {
                assert(before_area[r] <= j && before_weight[r] <= 8 * j);
            }
        }
        j += 1;
    }
    let ghost term = |head: int| class_size(heads, head) * class_weight(heads, weights@, head);
    let mut total: u64 = 0;
    let mut r: usize = 0;
    while r < size
        invariant
            r <= size,
            size == heads.len(),
            size <= most_plots(),
            area@.len() == size,
            weight@.len() == size,
            term == |head: int| class_size(heads, head) * class_weight(heads, weights@, head),
            forall|r: int| 0 <= r < size ==> #[trigger] area@[r] == class_size(heads, r),
            forall|r: int| 0 <= r < size ==> #[trigger] weight@[r] == class_weight(heads, weights@, r),
            forall|r: int| 0 <= r < size ==> #[trigger] area@[r] <= size && weight@[r] <= 8 * size,
            total == sum(r as int, term),
            total <= r * (8 * most_plots() * most_plots()),
        decreases size - r,
    {
        let a = area[r];
        let w = weight[r];
        proof {
            assert(a <= size && w <= 8 * size);
            assert(a * w <= 8 * most_plots() * most_plots()) by (nonlinear_arith)
                requires
                    0 <= a <= most_plots(),
                    0 <= w <= 8 * most_plots(),
            ;
            assert((r + 1) * (8 * most_plots() * most_plots()) <= u64::MAX) by (nonlinear_arith)
                requires
                    r + 1 <= most_plots(),
                    most_plots() == 0x10_0000,
            ;
            assert((r + 1) * (8 * most_plots() * most_plots()) == r * (8 * most_plots()
                * most_plots()) + 8 * most_plots() * most_plots()) by (nonlinear_arith);
        }
        total = total + a * w;
        r += 1;
    }
    total
}

/// The plot of index `head` is of the region of the plot of index `i`, and no
/// plot before it is.
pub open spec fn is_head(farm: GridView<char>, i: int, head: int) -> bool {
    &&& 0 <= head < farm.cells.len()
    &&& joined(farm, farm.position_of(head), farm.position_of(i))
    &&& forall|k: int|
        0 <= k < head ==> !#[trigger] joined(farm, farm.position_of(k), farm.position_of(i))
}

/// For each plot, by its index, the index of the first plot of its region.
pub open spec fn heads_of(farm: GridView<char>) -> Seq<int> {
    Seq::new(farm.cells.len(), |i: int| choose|head: int| is_head(farm, i, head))
}

/// The classes of a partition into the regions stand for the first plot of each
/// region.
pub proof fn lemma_heads_of(farm: GridView<char>, regions: &DisjointSet)
    requires
        regions.wf(),
        regions_of(farm, regions@),
    ensures
        regions@ == heads_of(farm),
{
    let heads = regions@;
    assert forall|i: int| 0 <= i < heads.len() implies heads[i] == heads_of(farm)[i] by {
        regions.lemma_heads(i);
        let h = heads[i];
        assert(heads[h] == heads[i]);
        assert forall|k: int| 0 <= k < h implies !#[trigger] joined(
            farm,
            farm.position_of(k),
            farm.position_of(i),
        ) by {
            regions.lemma_heads(k);
            if joined(farm, farm.position_of(k), farm.position_of(i)) {
                assert(heads[k] == heads[i]);
            }
        }
        assert(is_head(farm, i, h));
        let other = choose|head: int| is_head(farm, i, head);
        assert(is_head(farm, i, other));
        if other < h {
            assert(!joined(farm, farm.position_of(other), farm.position_of(i)));
        }
        if h < other {
            assert(!joined(farm, farm.position_of(h), farm.position_of(i)));
        }
    }
    assert(heads =~= heads_of(farm));
}

/// The rows are of one width, and the plots are few enough for the prices to be
/// counted.
pub open spec fn well_formed(rows: Seq<Seq<char>>) -> bool {
    rectangular(rows) && text_grid(rows).cells.len() <= most_plots()
}

/// The price of the fences of a farm: for each region, the number of its plots
/// times the number of its fences.
pub open spec fn part1(farm: GridView<char>) -> int {
    price(
        heads_of(farm),
        Seq::new(farm.cells.len(), |i: int| fences_of(farm, farm.position_of(i)) as u64),
    )
}

/// The price of the fences of a farm by sides: for each region, the number of
/// its plots times the number of its corners.
pub open spec fn part2(farm: GridView<char>) -> int {
    price(
        heads_of(farm),
        Seq::new(farm.cells.len(), |i: int| corners_of(farm, farm.position_of(i)) as u64),
    )
}

/// Read the farm, or `None` where the text is not well formed.
pub fn parse(input: &str) -> (r: Option<Farm>)
    ensures
        match r {
            Some(farm) => well_formed(words(input@)) && farm.wf() && farm@ == text_grid(
                words(input@),
            ),
            None => !well_formed(words(input@)),
        },
{
    match Grid::try_new(input) {
        Some(farm) => {
            if farm.size() <= 0x10_0000 {
                Some(farm)
            } else {
                None
            }
        },
        None => None,
    }
}

/// Read the farm.
pub fn prepare(input: &str) -> (r: Farm)
    requires
        well_formed(words(input@)),
    ensures
        r.wf(),
        r@ == text_grid(words(input@)),
{
    Grid::new(input)
}

/// The price of the fences of a farm.
pub fn fence_price(farm: &Farm) -> (r: u64)
    requires
        farm.wf(),
        farm@.cells.len() <= most_plots(),
    ensures
        r == part1(farm@),
{
    let (regions, plot_fences) = compute_regions_and_fences(farm);
    proof {
        lemma_heads_of(farm@, &regions);
        assert forall|i: int| 0 <= i < plot_fences@.len() implies #[trigger] plot_fences@[i] <= 8 by {
            crate::etc::count::lemma_count_bounds(
                4,
                |d: int| same_plant(farm@, farm@.position_of(i), d),
            );
        }
        assert(plot_fences@ =~= Seq::new(
            farm@.cells.len(),
            |i: int| fences_of(farm@, farm@.position_of(i)) as u64,
        ));
    }
    tally(&regions, &plot_fences)
}

/// The price of the fences of a farm by sides.
pub fn side_price(farm: &Farm) -> (r: u64)
    requires
        farm.wf(),
        farm@.cells.len() <= most_plots(),
    ensures
        r == part2(farm@),
{
    let (regions, _) = compute_regions_and_fences(farm);
    let size = farm.size();
    let mut plot_corners: Vec<u64> = Vec::new();
    let mut i: usize = 0;
    while i < size
        invariant
            i <= size,
            size == farm@.cells.len(),
            farm.wf(),
            regions.wf(),
            regions_of(farm@, regions@),
            plot_corners@.len() == i,
            forall|k: int|
                0 <= k < i ==> #[trigger] plot_corners@[k] == corners_of(farm@, farm@.position_of(k))
                    && plot_corners@[k] <= 8,
        decreases size - i,
    {
        let pos = farm.unchecked_position(i);
        plot_corners.push(corners(farm, &regions, &pos));
        i += 1;
    }
    proof {
        lemma_heads_of(farm@, &regions);
        assert(plot_corners@ =~= Seq::new(
            farm@.cells.len(),
            |i: int| corners_of(farm@, farm@.position_of(i)) as u64,
        ));
    }
    tally(&regions, &plot_corners)
}

pub fn solve_part1(input: &str) -> (r: u64)
    requires
        well_formed(words(input@)),
    ensures
        r == part1(text_grid(words(input@))),
{
    let farm = prepare(input);
    fence_price(&farm)
}

pub fn solve_part2(input: &str) -> (r: u64)
    requires
        well_formed(words(input@)),
    ensures
        r == part2(text_grid(words(input@))),
{
    let farm = prepare(input);
    side_price(&farm)
}

pub fn solve(input: String) -> (r: SolutionPair)
    requires
        well_formed(words(input@)),
    ensures
        r.0 == Solution::U64(part1(text_grid(words(input@))) as u64),
        r.1 == Solution::U64(part2(text_grid(words(input@))) as u64),
{
    let sol1 = solve_part1(input.as_str());
    let sol2 = solve_part2(input.as_str());
    (Solution::U64(sol1), Solution::U64(sol2))
}

} // verus!
