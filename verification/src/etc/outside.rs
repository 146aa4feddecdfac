use crate::etc::grid::Position;
use itertools::Itertools;
use vstd::prelude::*;

verus! {

/// `g` is the greatest common divisor of `a` and `b`: zero where both are zero,
/// else the greatest number that divides both.
pub open spec fn is_gcd(a: int, b: int, g: int) -> bool {
    if a == 0 && b == 0 {
        g == 0
    } else {
        &&& g > 0
        &&& a % g == 0
        &&& b % g == 0
        &&& forall|d: int| d > 0 && #[trigger] (a % d) == 0 && b % d == 0 ==> d <= g
    }
}

/// The pairs of items of `s`, the first of a pair standing before the second in
/// `s`: those with the first item of `s`, in the order of their second items,
/// then the pairs of the other items.
pub open spec fn pairs_of<T>(s: Seq<T>) -> Seq<(T, T)>
    decreases s.len(),
{
    if s.len() < 2 {
        Seq::empty()
    } else {
        Seq::new((s.len() - 1) as nat, |j: int| (s[0], s[j + 1])) + pairs_of(s.drop_first())
    }
}

/// The places, in a sequence of `n` items, of the two items of the pair at `k`.
pub open spec fn items_of_pair(n: int, k: int) -> (int, int)
    decreases n,
{
    if n < 2 || k < n - 1 {
        (0, k + 1)
    } else {
        let (i, j) = items_of_pair(n - 1, k - (n - 1));
        (i + 1, j + 1)
    }
}

/// The place, among the pairs of a sequence of `n` items, of the pair of the
/// items at `i` and `j`.
pub open spec fn pair_of_items(n: int, i: int, j: int) -> int
    decreases i,
{
    if i <= 0 {
        j - 1
    } else {
        (n - 1) + pair_of_items(n - 1, i - 1, j - 1)
    }
}

/// Every pair is made of an item and of one that stands after it.
pub proof fn lemma_pair_has_items<T>(s: Seq<T>, k: int)
    requires
        0 <= k < pairs_of(s).len(),
    ensures
        0 <= items_of_pair(s.len() as int, k).0 < items_of_pair(s.len() as int, k).1 < s.len(),
        pairs_of(s)[k] == (
            s[items_of_pair(s.len() as int, k).0],
            s[items_of_pair(s.len() as int, k).1],
        ),
    decreases s.len(),
{
    if s.len() >= 2 {
        let n = s.len() as int;
        let rest = s.drop_first();
        let first = Seq::new((s.len() - 1) as nat, |j: int| (s[0], s[j + 1]));
        if k < n - 1 {
            assert(pairs_of(s)[k] == first[k]);
        } else {
            let m = k - (n - 1);
            assert(pairs_of(s)[k] == pairs_of(rest)[m]);
            lemma_pair_has_items(rest, m);
            let (i, j) = items_of_pair(n - 1, m);
            assert(rest[i] == s[i + 1] && rest[j] == s[j + 1]);
        }
    }
}

/// Every two items, one standing after the other, make a pair.
pub proof fn lemma_items_have_pair<T>(s: Seq<T>, i: int, j: int)
    requires
        0 <= i < j < s.len(),
    ensures
        0 <= pair_of_items(s.len() as int, i, j) < pairs_of(s).len(),
        pairs_of(s)[pair_of_items(s.len() as int, i, j)] == (s[i], s[j]),
    decreases s.len(),
{
    let n = s.len() as int;
    let rest = s.drop_first();
    let first = Seq::new((s.len() - 1) as nat, |j: int| (s[0], s[j + 1]));
    if i == 0 {
        assert(pairs_of(s)[j - 1] == first[j - 1]);
    } else {
        lemma_items_have_pair(rest, i - 1, j - 1);
        let m = pair_of_items(n - 1, i - 1, j - 1);
        assert(rest[i - 1] == s[i] && rest[j - 1] == s[j]);
        assert(pairs_of(s)[(n - 1) + m] == pairs_of(rest)[m]);
    }
}

/// `num::integer::gcd`: the greatest common divisor of the two numbers, which
/// is never negative. The least number of the type is left out: the function
/// may panic on it.
#[verifier::external_body]
pub(crate) fn gcd(a: isize, b: isize) -> (r: isize)
    requires
        a > isize::MIN,
        b > isize::MIN,
    ensures
        is_gcd(a as int, b as int, r as int),
{
    num::integer::gcd(a, b)
}

/// `itertools::Itertools::array_combinations` with arrays of two: the pairs of
/// items, the first of a pair standing before the second in the vector, in the
/// order of the places of their items.
#[verifier::external_body]
pub(crate) fn pairs(items: &Vec<Position>) -> (r: Vec<(Position, Position)>)
    ensures
        r@ == pairs_of(items@),
{
    items.iter().copied().array_combinations().map(|[a, b]| (a, b)).collect()
}


/// The two nodes are joined by an edge.
pub open spec fn adjacent(edges: Seq<(usize, usize)>, a: int, b: int) -> bool {
    exists|e: int|
        0 <= e < edges.len() && ((#[trigger] edges[e]).0 == a && edges[e].1 == b || edges[e].0 == b
            && edges[e].1 == a)
}

/// The number is a node of the graph of the edges: it is not negative, and not
/// greater than every end of an edge.
pub open spec fn is_node(edges: Seq<(usize, usize)>, a: int) -> bool {
    a >= 0 && exists|e: int| 0 <= e < edges.len() && (a <= (#[trigger] edges[e]).0 || a <= edges[e].1)
}

/// The nodes are joined to each other, each to every other.
pub open spec fn is_clique(edges: Seq<(usize, usize)>, nodes: Set<int>) -> bool {
    &&& nodes.finite()
    &&& forall|a: int| #[trigger] nodes.contains(a) ==> is_node(edges, a)
    &&& forall|a: int, b: int|
        #[trigger] nodes.contains(a) && #[trigger] nodes.contains(b) && a != b ==> adjacent(
            edges,
            a,
            b,
        )
}

/// The nodes are a clique that no further node can be added to.
pub open spec fn is_maximal_clique(edges: Seq<(usize, usize)>, nodes: Set<int>) -> bool {
    &&& is_clique(edges, nodes)
    &&& forall|v: int|
        is_node(edges, v) && !nodes.contains(v) ==> !#[trigger] is_clique(edges, nodes.insert(v))
}

/// The numbers of a vector, as a set.
pub open spec fn members(nodes: Seq<usize>) -> Set<int> {
    Set::new(|a: int| exists|i: int| 0 <= i < nodes.len() && #[trigger] nodes[i] == a)
}

/// `petgraph::algo::maximal_cliques` on the undirected graph that
/// `petgraph::graph::UnGraph::from_edges` makes of the edges. Each of the sets
/// that come back is a maximal clique, with each of its nodes once, and every
/// maximal clique comes back; nothing is claimed of their order. Edges from a
/// node to itself, and numbers that the graph has no index for, are left out.
#[verifier::external_body]
pub(crate) fn maximal_cliques(edges: &Vec<(usize, usize)>) -> (r: Vec<Vec<usize>>)
    requires
        edges@.len() < u32::MAX,
        forall|e: int|
            0 <= e < edges@.len() ==> (#[trigger] edges@[e]).0 < u32::MAX && edges@[e].1 < u32::MAX
                && edges@[e].0 != edges@[e].1,
    ensures
        forall|k: int|
            0 <= k < r@.len() ==> (#[trigger] r@[k])@.no_duplicates() && is_maximal_clique(
                edges@,
                members(r@[k]@),
            ),
        forall|nodes: Set<int>| #[trigger]
            is_maximal_clique(edges@, nodes) ==> exists|k: int|
                0 <= k < r@.len() && members((#[trigger] r@[k])@) == nodes,
{
    let graph = petgraph::graph::UnGraph::<(), ()>::from_edges(
        edges.iter().map(|(a, b)| (*a as u32, *b as u32)),
    );
    petgraph::algo::maximal_cliques(&graph)
        .into_iter()
        .map(|clique| clique.into_iter().map(|node| node.index()).collect())
        .collect()
}


/// There are `n` edges, each from the node that the one before leads to, from
/// `from` to `to`.
pub open spec fn walk(edges: Seq<(usize, usize)>, from: int, to: int, n: nat) -> bool
    decreases n,
{
    if n == 0 {
        from == to
    } else {
        exists|e: int|
            0 <= e < edges.len() && (#[trigger] edges[e]).1 == to && walk(
                edges,
                from,
                edges[e].0 as int,
                (n - 1) as nat,
            )
    }
}

/// `petgraph::algo::dijkstra` with the cost 1 for every edge, on the directed
/// graph that `petgraph::graph::DiGraph::from_edges` makes of the edges: the
/// least number of edges from `start` to `goal`, or `None` where no edges lead
/// from one to the other. Both must be nodes of the graph.
#[verifier::external_body]
pub(crate) fn shortest_path(edges: &Vec<(usize, usize)>, start: usize, goal: usize) -> (r: Option<
    u64,
>)
    requires
        edges@.len() < u32::MAX,
        forall|e: int|
            0 <= e < edges@.len() ==> (#[trigger] edges@[e]).0 < u32::MAX && edges@[e].1 < u32::MAX,
        is_node(edges@, start as int),
        is_node(edges@, goal as int),
    ensures
        match r {
            Some(least) => walk(edges@, start as int, goal as int, least as nat) && forall|m: nat|
                m < least ==> !walk(edges@, start as int, goal as int, m),
            None => forall|n: nat| !walk(edges@, start as int, goal as int, n),
        },
{
    let graph = petgraph::graph::DiGraph::<(), ()>::from_edges(
        edges.iter().map(|(a, b)| (*a as u32, *b as u32)),
    );
    let to = petgraph::graph::NodeIndex::new(goal);
    petgraph::algo::dijkstra(&graph, petgraph::graph::NodeIndex::new(start), Some(to), |_| 1u64)
        .get(&to)
        .copied()
}

} // verus!
