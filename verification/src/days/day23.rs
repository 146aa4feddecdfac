use crate::etc::count::{count, sum};
use crate::etc::outside::{adjacent, is_maximal_clique, maximal_cliques, members};
use crate::etc::solution::{Solution, SolutionPair};
use crate::etc::text::{chars, pieces, rows_view, split_on, split_words, text, words};
use vstd::prelude::*;

verus! {

/// The most connections that a network can have.
pub open spec fn most_links() -> int {
    0x1_0000
}

/// Every word is made of two names with a dash between them, and the words are
/// few enough.
pub open spec fn well_formed(input: Seq<char>) -> bool {
    &&& words(input).len() <= most_links()
    &&& forall|i: int|
        0 <= i < words(input).len() ==> pieces(#[trigger] words(input)[i], '-').len() >= 2
}

/// The pairs of names that the words write.
pub open spec fn links_of(input: Seq<char>) -> Seq<(Seq<char>, Seq<char>)> {
    Seq::new(
        words(input).len(),
        |i: int| (pieces(words(input)[i], '-')[0], pieces(words(input)[i], '-')[1]),
    )
}

/// What some pairs of names hold.
pub open spec fn links_view(links: Seq<(Vec<char>, Vec<char>)>) -> Seq<(Seq<char>, Seq<char>)> {
    Seq::new(links.len(), |i: int| (links[i].0@, links[i].1@))
}

/// Read the pairs of names, or `None` where the text is not well formed.
pub fn parse(input: &str) -> (r: Option<Vec<(Vec<char>, Vec<char>)>>)
    ensures
        match r {
            Some(links) => well_formed(input@) && links_view(links@) == links_of(input@),
            None => !well_formed(input@),
        },
{
    let content = chars(input);
    let all = split_words(&content);
    let ghost texts = words(input@);
    if all.len() > 0x1_0000 {
        return None;
    }
    let mut links: Vec<(Vec<char>, Vec<char>)> = Vec::new();
    let mut i: usize = 0;
    while i < all.len()
        invariant
            i <= all@.len(),
            texts == words(input@),
            texts == rows_view(all@),
            links@.len() == i,
            forall|k: int| 0 <= k < i ==> pieces(#[trigger] texts[k], '-').len() >= 2,
            forall|k: int|
                0 <= k < i ==> (#[trigger] links@[k]).0@ == pieces(texts[k], '-')[0] && links@[k].1@
                    == pieces(texts[k], '-')[1],
        decreases all@.len() - i,
    {
        assert(texts[i as int] == all@[i as int]@);
        let mut parts = split_on(&all[i], '-');
        if parts.len() < 2 {
            return None;
        }
        let ghost names = rows_view(parts@);
        let a = parts.remove(0);
        let b = parts.remove(0);
        assert(a@ == names[0] && b@ == names[1]);
        let ghost before = links@;
        links.push((a, b));
        proof {
            assert forall|k: int| 0 <= k < i + 1 implies (#[trigger] links@[k]).0@ == pieces(
                texts[k],
                '-',
            )[0] && links@[k].1@ == pieces(texts[k], '-')[1] by {
                if k < i {
                    assert(links@[k] == before[k]);
                }
            }
        }
        i += 1;
    }
    assert(links_view(links@) =~= links_of(input@));
    Some(links)
}

/// Read the pairs of names.
pub fn prepare(input: &str) -> (r: Vec<(Vec<char>, Vec<char>)>)
    requires
        well_formed(input@),
    ensures
        links_view(r@) == links_of(input@),
{
    match parse(input) {
        Some(links) => links,
        None => Vec::new(),
    }
}

/// Whether two names are the same.
fn same_name(a: &Vec<char>, b: &Vec<char>) -> (r: bool)
    ensures
        r == (a@ == b@),
{
    if a.len() != b.len() {
        return false;
    }
    let mut i: usize = 0;
    while i < a.len()
        invariant
            i <= a@.len(),
            a@.len() == b@.len(),
            forall|k: int| 0 <= k < i ==> a@[k] == b@[k],
        decreases a@.len() - i,
    {
        if a[i] != b[i] {
            return false;
        }
        i += 1;
    }
    assert(a@ =~= b@);
    true
}

/// The place of a name among the names, where it is one of them.
fn find_name(names: &Vec<Vec<char>>, name: &Vec<char>) -> (r: Option<usize>)
    ensures
        match r {
            Some(id) => id < names@.len() && names@[id as int]@ == name@,
            None => forall|k: int| 0 <= k < names@.len() ==> (#[trigger] names@[k])@ != name@,
        },
{
    let mut i: usize = 0;
    while i < names.len()
        invariant
            i <= names@.len(),
            forall|k: int| 0 <= k < i ==> (#[trigger] names@[k])@ != name@,
        decreases names@.len() - i,
    {
        if same_name(&names[i], name) {
            return Some(i);
        }
        i += 1;
    }
    None
}

/// The place of a name among the names, the name being added where it was not
/// among them.
fn name_id(names: &mut Vec<Vec<char>>, name: &Vec<char>) -> (r: usize)
    requires
        distinct(rows_view(old(names)@)),
    ensures
        distinct(rows_view(final(names)@)),
        r < final(names)@.len(),
        final(names)@[r as int]@ == name@,
        final(names)@.len() >= old(names)@.len(),
        final(names)@.len() <= old(names)@.len() + 1,
        forall|k: int| 0 <= k < old(names)@.len() ==> #[trigger] final(names)@[k]@ == old(names)@[k]@,
{
    match find_name(names, name) {
        Some(id) => id,
        None => {
            let ghost before = rows_view(names@);
            let mut copy: Vec<char> = Vec::new();
            let mut i: usize = 0;
            while i < name.len()
                invariant
                    i <= name@.len(),
                    copy@ == name@.take(i as int),
                decreases name@.len() - i,
            {
                copy.push(name[i]);
                i += 1;
            }
            assert(name@.take(name@.len() as int) =~= name@);
            names.push(copy);
            proof {
                let after = rows_view(names@);
                assert forall|a: int, b: int| 0 <= a < b < after.len() implies #[trigger] after[a]
                    != #[trigger] after[b] by {
                    if b < before.len() {
                        assert(before[a] != before[b]);
                    } else {
                        assert(names@[a]@ == old(names)@[a]@);
                    }
                }
            }
            names.len() - 1
        },
    }
}

/// No name stands twice.
pub open spec fn distinct(names: Seq<Seq<char>>) -> bool {
    forall|a: int, b: int| 0 <= a < b < names.len() ==> #[trigger] names[a] != #[trigger] names[b]
}

/// The names are those of the pairs, each once, and each edge joins the places
/// of the two names of a pair.
pub open spec fn network_of(
    links: Seq<(Seq<char>, Seq<char>)>,
    names: Seq<Seq<char>>,
    edges: Seq<(usize, usize)>,
) -> bool {
    &&& distinct(names)
    &&& edges.len() == links.len()
    &&& names.len() <= 2 * links.len()
    &&& forall|i: int|
        0 <= i < edges.len() ==> (#[trigger] edges[i]).0 < names.len() && edges[i].1 < names.len()
            && names[edges[i].0 as int] == links[i].0 && names[edges[i].1 as int] == links[i].1
}

/// Give each name a number, and make an edge of each pair.
pub fn network(links: &Vec<(Vec<char>, Vec<char>)>) -> (r: (Vec<Vec<char>>, Vec<(usize, usize)>))
    ensures
        network_of(links_view(links@), rows_view(r.0@), r.1@),
{
    let ghost all = links_view(links@);
    let mut names: Vec<Vec<char>> = Vec::new();
    let mut edges: Vec<(usize, usize)> = Vec::new();
    let mut i: usize = 0;
    while i < links.len()
        invariant
            i <= links@.len(),
            all == links_view(links@),
            distinct(rows_view(names@)),
            edges@.len() == i,
            names@.len() <= 2 * i,
            forall|k: int|
                0 <= k < i ==> (#[trigger] edges@[k]).0 < names@.len() && edges@[k].1 < names@.len()
                    && names@[edges@[k].0 as int]@ == all[k].0 && names@[edges@[k].1 as int]@
                    == all[k].1,
        decreases links@.len() - i,
    {
        let ghost before = edges@;
        let a = name_id(&mut names, &links[i].0);
        let b = name_id(&mut names, &links[i].1);
        edges.push((a, b));
        proof {
            assert(all[i as int] == (links@[i as int].0@, links@[i as int].1@));
            assert forall|k: int| 0 <= k < i + 1 implies (#[trigger] edges@[k]).0 < names@.len()
                && edges@[k].1 < names@.len() && names@[edges@[k].0 as int]@ == all[k].0
                && names@[edges@[k].1 as int]@ == all[k].1 by {
                if k < i {
                    assert(edges@[k] == before[k]);
                }
            }
        }
        i += 1;
    }
    proof {
        let n = rows_view(names@);
        assert forall|i: int| 0 <= i < edges@.len() implies (#[trigger] edges@[i]).0 < n.len()
            && edges@[i].1 < n.len() && n[edges@[i].0 as int] == all[i].0 && n[edges@[i].1 as int]
            == all[i].1 by {}
    }
    (names, edges)
}

/// The name starts with a `t`.
pub open spec fn starts_with_t(name: Seq<char>) -> bool {
    name.len() > 0 && name[0] == 't'
}

/// Three computers, in rising order, each joined to the two others, one of them
/// with a name that starts with a `t`.
pub open spec fn is_triple(
    names: Seq<Seq<char>>,
    edges: Seq<(usize, usize)>,
    a: int,
    b: int,
    c: int,
) -> bool {
    &&& a < b < c
    &&& adjacent(edges, a, b)
    &&& adjacent(edges, b, c)
    &&& adjacent(edges, a, c)
    &&& starts_with_t(names[a]) || starts_with_t(names[b]) || starts_with_t(names[c])
}

/// The number of such triples.
pub open spec fn part1(names: Seq<Seq<char>>, edges: Seq<(usize, usize)>) -> int {
    sum(
        names.len() as int,
        |a: int|
            sum(
                names.len() as int,
                |b: int| count(names.len() as int, |c: int| is_triple(names, edges, a, b, c)),
            ),
    )
}

/// For each two computers, whether they are joined.
pub fn adjacency(nodes: usize, edges: &Vec<(usize, usize)>) -> (r: Vec<Vec<bool>>)
    requires
        forall|e: int|
            0 <= e < edges@.len() ==> (#[trigger] edges@[e]).0 < nodes && edges@[e].1 < nodes,
    ensures
        r@.len() == nodes,
        forall|a: int| 0 <= a < nodes ==> (#[trigger] r@[a])@.len() == nodes,
        forall|a: int, b: int|
            0 <= a < nodes && 0 <= b < nodes ==> r@[a]@[b] == #[trigger] adjacent(edges@, a, b),
{
    let mut table: Vec<Vec<bool>> = Vec::new();
    let mut a: usize = 0;
    while a < nodes
        invariant
            a <= nodes,
            table@.len() == a,
            forall|i: int| 0 <= i < a ==> (#[trigger] table@[i])@.len() == nodes,
            forall|i: int, j: int| 0 <= i < a && 0 <= j < nodes ==> !#[trigger] table@[i]@[j],
        decreases nodes - a,
    {
        let mut row: Vec<bool> = Vec::new();
        let mut b: usize = 0;
        while b < nodes
            invariant
                b <= nodes,
                row@.len() == b,
                forall|j: int| 0 <= j < b ==> !#[trigger] row@[j],
            decreases nodes - b,
        {
            row.push(false);
            b += 1;
        }
        table.push(row);
        a += 1;
    }
    let mut e: usize = 0;
    while e < edges.len()
        invariant
            e <= edges@.len(),
            table@.len() == nodes,
            forall|e: int|
                0 <= e < edges@.len() ==> (#[trigger] edges@[e]).0 < nodes && edges@[e].1 < nodes,
            forall|i: int| 0 <= i < nodes ==> (#[trigger] table@[i])@.len() == nodes,
            forall|i: int, j: int|
                0 <= i < nodes && 0 <= j < nodes ==> (#[trigger] table@[i]@[j] <==> exists|k: int|
                    0 <= k < e && ((#[trigger] edges@[k]).0 == i && edges@[k].1 == j || edges@[k].0
                        == j && edges@[k].1 == i)),
        decreases edges@.len() - e,
    {
        let (x, y) = edges[e];
        let ghost before = table@;
        let mut row = table[x].clone();
        assert(row@ =~= before[x as int]@);
        row[y] = true;
        table[x] = row;
        let ghost middle = table@;
        let mut other = table[y].clone();
        assert(other@ =~= middle[y as int]@);
        other[x] = true;
        table[y] = other;
        proof {
            assert forall|i: int, j: int| 0 <= i < nodes && 0 <= j < nodes implies (
            #[trigger] table@[i]@[j] <==> exists|k: int|
                0 <= k < e + 1 && ((#[trigger] edges@[k]).0 == i && edges@[k].1 == j || edges@[k].0
                    == j && edges@[k].1 == i)) by {
                let was = before[i]@[j];
                assert(table@[i]@[j] == (was || (i == x && j == y) || (i == y && j == x)));
                if was {
                    let k = choose|k: int|
                        0 <= k < e && ((#[trigger] edges@[k]).0 == i && edges@[k].1 == j
                            || edges@[k].0 == j && edges@[k].1 == i);
                    assert(edges@[k].0 == i && edges@[k].1 == j || edges@[k].0 == j && edges@[k].1
                        == i);
                }
                if (i == x && j == y) || (i == y && j == x) {
                    assert(edges@[e as int].0 == i && edges@[e as int].1 == j || edges@[e as int].0
                        == j && edges@[e as int].1 == i);
                }
            }
        }
        e += 1;
    }
    table
}

/// Whether the name starts with a `t`.
fn has_t(name: &Vec<char>) -> (r: bool)
    ensures
        r == starts_with_t(name@),
{
    name.len() > 0 && name[0] == 't'
}

/// Count the sets of three computers, each joined to the two others, that
/// contain at least one computer with a name starting with 't'.
pub fn count_triples(names: &Vec<Vec<char>>, edges: &Vec<(usize, usize)>) -> (r: u64)
    requires
        names@.len() <= 2 * most_links(),
        forall|e: int|
            0 <= e < edges@.len() ==> (#[trigger] edges@[e]).0 < names@.len() && edges@[e].1
                < names@.len(),
    ensures
        r == part1(rows_view(names@), edges@),
{
    let n = names.len();
    let adj = adjacency(n, edges);
    let ghost ns = rows_view(names@);
    let ghost outer = |a: int|
        sum(n as int, |b: int| count(n as int, |c: int| is_triple(ns, edges@, a, b, c)));
    let mut total: u64 = 0;
    let mut a: usize = 0;
    while a < n
        invariant
            a <= n,
            n == names@.len(),
            n <= 2 * most_links(),
            ns == rows_view(names@),
            adj@.len() == n,
            forall|i: int| 0 <= i < n ==> (#[trigger] adj@[i])@.len() == n,
            forall|i: int, j: int|
                0 <= i < n && 0 <= j < n ==> adj@[i]@[j] == #[trigger] adjacent(edges@, i, j),
            outer == |a: int|
                sum(n as int, |b: int| count(n as int, |c: int| is_triple(ns, edges@, a, b, c))),
            total == sum(a as int, outer),
            total <= a * (n * n),
        decreases n - a,
    {
        let ghost inner = |b: int| count(n as int, |c: int| is_triple(ns, edges@, a as int, b, c));
        let mut row: u64 = 0;
        let mut b: usize = 0;
        while b < n
            invariant
                b <= n,
                a < n,
                n == names@.len(),
                n <= 2 * most_links(),
                ns == rows_view(names@),
                adj@.len() == n,
                forall|i: int| 0 <= i < n ==> (#[trigger] adj@[i])@.len() == n,
                forall|i: int, j: int|
                    0 <= i < n && 0 <= j < n ==> adj@[i]@[j] == #[trigger] adjacent(edges@, i, j),
                inner == |b: int| count(n as int, |c: int| is_triple(ns, edges@, a as int, b, c)),
                row == sum(b as int, inner),
                row <= b * n,
            decreases n - b,
        {
            let ghost third = |c: int| is_triple(ns, edges@, a as int, b as int, c);
            let mut found: u64 = 0;
            let mut c: usize = 0;
            while c < n
                invariant
                    c <= n,
                    a < n,
                    b < n,
                    n == names@.len(),
                    ns == rows_view(names@),
                    adj@.len() == n,
                    forall|i: int| 0 <= i < n ==> (#[trigger] adj@[i])@.len() == n,
                    forall|i: int, j: int|
                        0 <= i < n && 0 <= j < n ==> adj@[i]@[j] == #[trigger] adjacent(edges@, i, j),
                    third == |c: int| is_triple(ns, edges@, a as int, b as int, c),
                    found == count(c as int, third),
                    found <= c,
                decreases n - c,
            {
                proof {
                    assert(adj@[a as int]@[b as int] == adjacent(edges@, a as int, b as int));
                    assert(adj@[b as int]@[c as int] == adjacent(edges@, b as int, c as int));
                    assert(adj@[a as int]@[c as int] == adjacent(edges@, a as int, c as int));
                    assert(ns[a as int] == names@[a as int]@ && ns[b as int] == names@[b as int]@
                        && ns[c as int] == names@[c as int]@);
                }
                if a < b && b < c && adj[a][b] && adj[b][c] && adj[a][c] && (has_t(&names[a])
                    || has_t(&names[b]) || has_t(&names[c])) {
                    found += 1;
                }
                c += 1;
            }
            proof {
                assert((b + 1) * n == b * n + n) by (nonlinear_arith);
                assert((b + 1) * n <= n * n) by (nonlinear_arith)
                    requires
                        b + 1 <= n,
                ;
                assert(n * n <= 0x4_0000_0000) by (nonlinear_arith)
                    requires
                        n <= 0x2_0000,
                ;
            }
            row += found;
            b += 1;
        }
        proof {
            assert(0 <= n * n <= 0x4_0000_0000) by (nonlinear_arith)
                requires
                    0 <= n <= 0x2_0000,
            ;
            assert((a + 1) * (n * n) == a * (n * n) + n * n) by (nonlinear_arith);
            assert((a + 1) * (n * n) <= 0x2_0000 * 0x4_0000_0000) by (nonlinear_arith)
                requires
                    a + 1 <= n,
                    n <= 0x2_0000,
                    0 <= n * n <= 0x4_0000_0000,
            ;
        }
        total += row;
        a += 1;
    }
    total
}


/// The order of the names: by their first characters that differ, a name
/// standing before those that it starts.
pub open spec fn name_le(a: Seq<char>, b: Seq<char>) -> bool
    decreases a.len(),
{
    if a.len() == 0 {
        true
    } else if b.len() == 0 {
        false
    } else if a[0] != b[0] {
        a[0] < b[0]
    } else {
        name_le(a.drop_first(), b.drop_first())
    }
}

/// Of two names, one stands before the other.
pub proof fn lemma_name_le_total(a: Seq<char>, b: Seq<char>)
    ensures
        name_le(a, b) || name_le(b, a),
    decreases a.len(),
{
    if a.len() > 0 && b.len() > 0 && a[0] == b[0] {
        lemma_name_le_total(a.drop_first(), b.drop_first());
    }
}

/// A name that stands before a name that stands before a third stands before
/// the third.
pub proof fn lemma_name_le_transitive(a: Seq<char>, b: Seq<char>, c: Seq<char>)
    requires
        name_le(a, b),
        name_le(b, c),
    ensures
        name_le(a, c),
    decreases a.len(),
{
    if a.len() > 0 && b.len() > 0 && c.len() > 0 {
        if a[0] == b[0] && b[0] == c[0] {
            lemma_name_le_transitive(a.drop_first(), b.drop_first(), c.drop_first());
        }
    }
}

/// Whether the first name stands before the second, or is the same.
pub fn name_before(a: &Vec<char>, b: &Vec<char>) -> (r: bool)
    ensures
        r == name_le(a@, b@),
{
    let mut i: usize = 0;
    assert(a@.skip(0) =~= a@ && b@.skip(0) =~= b@);
    loop
        invariant
            i <= a@.len(),
            i <= b@.len(),
            name_le(a@, b@) == name_le(a@.skip(i as int), b@.skip(i as int)),
        decreases a@.len() - i,
    {
        if i >= a.len() {
            return true;
        }
        if i >= b.len() {
            return false;
        }
        proof {
            assert(a@.skip(i as int)[0] == a@[i as int]);
            assert(b@.skip(i as int)[0] == b@[i as int]);
            assert(a@.skip(i as int).drop_first() =~= a@.skip(i + 1));
            assert(b@.skip(i as int).drop_first() =~= b@.skip(i + 1));
        }
        if a[i] != b[i] {
            return a[i] < b[i];
        }
        i += 1;
    }
}

/// The names stand in order.
pub open spec fn in_order(names: Seq<Seq<char>>) -> bool {
    forall|a: int, b: int| 0 <= a < b < names.len() ==> name_le(#[trigger] names[a], #[trigger] names[b])
}

/// The names in order.
pub fn sort_names(names: Vec<Vec<char>>) -> (r: Vec<Vec<char>>)
    ensures
        in_order(rows_view(r@)),
        rows_view(r@).to_multiset() == rows_view(names@).to_multiset(),
{
    let mut names = names;
    let ghost all = rows_view(names@);
    let mut r: Vec<Vec<char>> = Vec::new();
    proof {
        assert(all =~= rows_view(names@) + rows_view(r@));
    }
    while names.len() > 0
        invariant
            in_order(rows_view(r@)),
            all.to_multiset() == (rows_view(names@) + rows_view(r@)).to_multiset(),
        decreases names@.len(),
    {
        let ghost left = rows_view(names@);
        let ghost done = rows_view(r@);
        let x = match names.pop() {
            Some(x) => x,
            None => Vec::new(),
        };
        let mut p: usize = 0;
        while p < r.len() && name_before(&r[p], &x)
            invariant
                p <= r@.len(),
                done == rows_view(r@),
                forall|k: int| 0 <= k < p ==> name_le(#[trigger] done[k], x@),
            decreases r@.len() - p,
        {
            assert(done[p as int] == r@[p as int]@);
            p += 1;
        }
        proof {
            if p < r.len() {
                assert(done[p as int] == r@[p as int]@);
                lemma_name_le_total(done[p as int], x@);
            }
        }
        r.insert(p, x);
        proof {
            let after = rows_view(r@);
            let rest = rows_view(names@);
            assert(after =~= done.insert(p as int, x@));
            assert(left =~= rest.push(x@));
            assert(left + done =~= (rest + done).insert(rest.len() as int, x@));
            assert(rest + after =~= (rest + done).insert(rest.len() + p, x@));
            vstd::seq_lib::to_multiset_insert(rest + done, rest.len() as int, x@);
            vstd::seq_lib::to_multiset_insert(rest + done, rest.len() + p, x@);
            assert forall|a: int, b: int| 0 <= a < b < after.len() implies name_le(
                #[trigger] after[a],
                #[trigger] after[b],
            ) by {
                if b < p {
                    assert(name_le(done[a], done[b]));
                } else if b == p {
                    assert(name_le(done[a], x@));
                } else if a < p {
                    assert(name_le(done[a], done[b - 1]));
                } else if a == p {
                    if b - 1 > p {
                        assert(name_le(done[p as int], done[b - 1]));
                        lemma_name_le_transitive(x@, done[p as int], done[b - 1]);
                    }
                } else {
                    assert(name_le(done[a - 1], done[b - 1]));
                }
            }
        }
    }
    proof {
        assert(rows_view(names@) + rows_view(r@) =~= rows_view(r@));
    }
    r
}

/// The names one after the other, with `sep` between one and the next.
pub open spec fn joined(names: Seq<Seq<char>>, sep: char) -> Seq<char>
    decreases names.len(),
{
    if names.len() == 0 {
        Seq::empty()
    } else if names.len() == 1 {
        names[0]
    } else {
        joined(names.drop_last(), sep) + seq![sep] + names.last()
    }
}

/// The names one after the other, with `sep` between one and the next.
pub fn join(names: &Vec<Vec<char>>, sep: char) -> (r: Vec<char>)
    ensures
        r@ == joined(rows_view(names@), sep),
{
    let ghost all = rows_view(names@);
    let mut r: Vec<char> = Vec::new();
    let mut i: usize = 0;
    assert(all.take(0) =~= Seq::<Seq<char>>::empty());
    while i < names.len()
        invariant
            i <= names@.len(),
            all == rows_view(names@),
            r@ == joined(all.take(i as int), sep),
        decreases names@.len() - i,
    {
        let ghost before = r@;
        if i > 0 {
            r.push(sep);
        }
        let name = &names[i];
        let ghost start = r@;
        let mut k: usize = 0;
        while k < name.len()
            invariant
                k <= name@.len(),
                r@ == start + name@.take(k as int),
            decreases name@.len() - k,
        {
            r.push(name[k]);
            k += 1;
        }
        proof {
            assert(name@.take(name@.len() as int) =~= name@);
            let now = all.take(i + 1);
            assert(now.last() == name@);
            assert(now.drop_last() =~= all.take(i as int));
            if i == 0 {
                assert(r@ =~= name@);
            } else {
                assert(r@ =~= before + seq![sep] + name@);
            }
        }
        i += 1;
    }
    assert(all.take(names@.len() as int) =~= all);
    r
}

/// The names of the nodes of a clique.
pub open spec fn names_at(names: Seq<Seq<char>>, clique: Seq<usize>) -> Seq<Seq<char>> {
    Seq::new(clique.len(), |i: int| names[clique[i] as int])
}

/// The first of the cliques that have the most nodes.
pub fn largest(cliques: &Vec<Vec<usize>>) -> (r: Option<usize>)
    ensures
        match r {
            Some(best) => best < cliques@.len() && forall|k: int|
                0 <= k < cliques@.len() ==> (#[trigger] cliques@[k])@.len()
                    <= cliques@[best as int]@.len(),
            None => cliques@.len() == 0,
        },
{
    if cliques.len() == 0 {
        return None;
    }
    let mut best: usize = 0;
    let mut k: usize = 1;
    while k < cliques.len()
        invariant
            1 <= k <= cliques@.len(),
            best < k,
            forall|j: int|
                0 <= j < k ==> (#[trigger] cliques@[j])@.len() <= cliques@[best as int]@.len(),
        decreases cliques@.len() - k,
    {
        if cliques[k].len() > cliques[best].len() {
            best = k;
        }
        k += 1;
    }
    Some(best)
}

/// The text is the password of the network: the names of the computers of a
/// maximal clique that has the most computers, in order, with commas between
/// them.
pub open spec fn is_password(names: Seq<Seq<char>>, edges: Seq<(usize, usize)>, password: Seq<char>) -> bool {
    exists|clique: Seq<usize>, sorted: Seq<Seq<char>>|
        {
            &&& #[trigger] is_maximal_clique(edges, members(clique))
            &&& forall|other: Seq<usize>|
                other.no_duplicates() && #[trigger] is_maximal_clique(edges, members(other))
                    ==> other.len() <= clique.len()
            &&& in_order(sorted)
            &&& sorted.to_multiset() == names_at(names, clique).to_multiset()
            &&& password == #[trigger] joined(sorted, ',')
        }
}

/// An edge joins a node to itself.
pub open spec fn has_loop(edges: Seq<(usize, usize)>) -> bool {
    exists|e: int| 0 <= e < edges.len() && (#[trigger] edges[e]).0 == edges[e].1
}

/// Whether an edge joins a node to itself.
fn finds_loop(edges: &Vec<(usize, usize)>) -> (r: bool)
    ensures
        r == has_loop(edges@),
{
    let mut e: usize = 0;
    while e < edges.len()
        invariant
            e <= edges@.len(),
            forall|k: int| 0 <= k < e ==> (#[trigger] edges@[k]).0 != edges@[k].1,
        decreases edges@.len() - e,
    {
        if edges[e].0 == edges[e].1 {
            return true;
        }
        e += 1;
    }
    false
}

/// Two vectors without repetitions that hold the same nodes have the same
/// length.
proof fn lemma_same_members(a: Seq<usize>, b: Seq<usize>)
    requires
        a.no_duplicates(),
        b.no_duplicates(),
        members(a) == members(b),
    ensures
        a.len() == b.len(),
{
    a.unique_seq_to_set();
    b.unique_seq_to_set();
    assert forall|x: usize| a.to_set().contains(x) <==> b.to_set().contains(x) by {
        if a.contains(x) {
            assert(members(a).contains(x as int));
            let i = choose|i: int| 0 <= i < b.len() && #[trigger] b[i] == x as int;
            assert(b[i] == x);
        }
        if b.contains(x) {
            assert(members(b).contains(x as int));
            let i = choose|i: int| 0 <= i < a.len() && #[trigger] a[i] == x as int;
            assert(a[i] == x);
        }
    }
    assert(a.to_set() =~= b.to_set());
}

/// Find the maximum clique in the network graph: the largest complete subgraph.
///
/// Use `petgraph`'s `maximal_clique` algorithm.
///
pub fn password(names: &Vec<Vec<char>>, edges: &Vec<(usize, usize)>) -> (r: Option<String>)
    requires
        edges@.len() <= most_links(),
        forall|e: int|
            0 <= e < edges@.len() ==> (#[trigger] edges@[e]).0 < names@.len() && edges@[e].1
                < names@.len(),
        names@.len() <= 2 * most_links(),
    ensures
        match r {
            Some(text) => is_password(rows_view(names@), edges@, text@),
            None => has_loop(edges@) || forall|nodes: Set<int>|
                !#[trigger] is_maximal_clique(edges@, nodes),
        },
{
    if finds_loop(edges) {
        return None;
    }
    let cliques = maximal_cliques(edges);
    let best = match largest(&cliques) {
        Some(best) => best,
        None => {
            return None;
        },
    };
    let clique = &cliques[best];
    let ghost ns = rows_view(names@);
    let mut found: Vec<Vec<char>> = Vec::new();
    let mut i: usize = 0;
    proof {
        assert(is_maximal_clique(edges@, members(clique@)));
    }
    while i < clique.len()
        invariant
            i <= clique@.len(),
            ns == rows_view(names@),
            found@.len() == i,
            is_maximal_clique(edges@, members(clique@)),
            forall|e: int|
                0 <= e < edges@.len() ==> (#[trigger] edges@[e]).0 < names@.len() && edges@[e].1
                    < names@.len(),
            forall|k: int| 0 <= k < i ==> (#[trigger] found@[k])@ == ns[clique@[k] as int],
        decreases clique@.len() - i,
    {
        let id = clique[i];
        let mut name: Vec<char> = Vec::new();
        proof {
            // a node of a clique is an end of an edge, or below one
            assert(clique@[i as int] == id as int);
            assert(members(clique@).contains(id as int));
            assert(crate::etc::outside::is_node(edges@, id as int));
        }
        if id < names.len() {
            let source = &names[id];
            let mut k: usize = 0;
            while k < source.len()
                invariant
                    k <= source@.len(),
                    name@ == source@.take(k as int),
                decreases source@.len() - k,
            {
                name.push(source[k]);
                k += 1;
            }
            assert(source@.take(source@.len() as int) =~= source@);
        }
        let ghost before = found@;
        found.push(name);
        proof {
            assert forall|k: int| 0 <= k < i + 1 implies (#[trigger] found@[k])@ == ns[clique@[k] as int] by {
                if k < i {
                    assert(found@[k] == before[k]);
                }
            }
        }
        i += 1;
    }
    proof {
        assert(rows_view(found@) =~= names_at(ns, clique@));
    }
    let sorted = sort_names(found);
    let text = join(&sorted, ',');
    proof {
        assert forall|other: Seq<usize>|
            other.no_duplicates() && #[trigger] is_maximal_clique(
                edges@,
                members(other),
            ) implies other.len() <= clique@.len() by {
            let k = choose|k: int|
                0 <= k < cliques@.len() && members((#[trigger] cliques@[k])@) == members(other);
            lemma_same_members(other, cliques@[k]@);
        }
        assert(is_maximal_clique(edges@, members(clique@)));
        assert(text@ == joined(rows_view(sorted@), ','));
    }
    Some(crate::etc::text::text(&text))
}


/// Find cliques of size 3 that contain at least one computer with a name starting with 't'.
/// `r` is the number of triples of computers, each linked to the two others
/// and one of them with a name that starts with `t`, in the network that the
/// text writes.
pub open spec fn answers1(input: Seq<char>, r: u64) -> bool {
    exists|names: Seq<Seq<char>>, edges: Seq<(usize, usize)>|
        #[trigger] network_of(links_of(input), names, edges) && r == part1(names, edges)
}

/// `r` is the password of the network that the text writes; or it is `None`,
/// and the network links a computer to itself or has no largest party.
pub open spec fn answers2(input: Seq<char>, r: Option<Seq<char>>) -> bool {
    exists|names: Seq<Seq<char>>, edges: Seq<(usize, usize)>|
        #[trigger] network_of(links_of(input), names, edges) && match r {
            Some(text) => is_password(names, edges, text),
            None => has_loop(edges) || forall|nodes: Set<int>|
                !#[trigger] is_maximal_clique(edges, nodes),
        }
}

pub fn solve_part1(input: &str) -> (r: u64)
    requires
        well_formed(input@),
    ensures
        answers1(input@, r),
{
    let links = prepare(input);
    let (names, edges) = network(&links);
    count_triples(&names, &edges)
}

/// The password of the network, or `None` where a computer is joined to itself.
pub fn solve_part2(input: &str) -> (r: Option<String>)
    requires
        well_formed(input@),
    ensures
        answers2(
            input@,
            match r {
                Some(text) => Some(text@),
                None => None,
            },
        ),
{
    let links = prepare(input);
    let (names, edges) = network(&links);
    password(&names, &edges)
}

/// Both answers, or `None` where a computer is joined to itself.
pub fn solve(input: String) -> (r: Option<SolutionPair>)
    requires
        well_formed(input@),
    ensures
        match r {
            Some((Solution::U64(first), Solution::Str(second))) => answers1(input@, first) && answers2(
                input@,
                Some(second@),
            ),
            Some(_) => false,
            None => answers2(input@, None),
        },
{
    let sol1 = solve_part1(input.as_str());
    match solve_part2(input.as_str()) {
        Some(sol2) => Some((Solution::U64(sol1), Solution::Str(sol2))),
        None => None,
    }
}

} // verus!
