use vstd::prelude::*;

verus! {

/// A partition of the numbers `0, ..., n - 1` into classes that can only be
/// merged. Each number points to a smaller number of its class, or to itself:
/// the one number of a class that points to itself is its least, and stands for
/// the class.
pub struct DisjointSet {
    parent: Vec<usize>,
}

/// The number that stands for the class of `i`: the end of the chain of
/// pointers from `i`.
pub open spec fn root(parent: Seq<usize>, i: int) -> int
    decreases i,
{
    if 0 <= i < parent.len() && parent[i] < i {
        root(parent, parent[i] as int)
    } else {
        i
    }
}

/// No number points to a greater one.
pub open spec fn pointing_down(parent: Seq<usize>) -> bool {
    forall|i: int| 0 <= i < parent.len() ==> #[trigger] parent[i] <= i
}

/// What merging the classes of `a` and `b` makes of the numbers that stand for
/// the classes: the greater of the two that stand for `a` and for `b` gives way
/// to the smaller.
pub open spec fn merged(heads: Seq<int>, a: int, b: int) -> Seq<int> {
    let low = if heads[a] <= heads[b] {
        heads[a]
    } else {
        heads[b]
    };
    let high = if heads[a] <= heads[b] {
        heads[b]
    } else {
        heads[a]
    };
    Seq::new(
        heads.len(),
        |i: int|
            if heads[i] == high {
                low
            } else {
                heads[i]
            },
    )
}

/// Merging never splits a class: two members of one class are members of one
/// class afterwards, the two merged are in one class, and a class apart from
/// both stays as it was.
pub proof fn lemma_merge_keeps_classes(heads: Seq<int>, a: int, b: int, x: int, y: int)
    requires
        0 <= a < heads.len(),
        0 <= b < heads.len(),
        0 <= x < heads.len(),
        0 <= y < heads.len(),
    ensures
        merged(heads, a, b).len() == heads.len(),
        heads[x] == heads[y] ==> merged(heads, a, b)[x] == merged(heads, a, b)[y],
        merged(heads, a, b)[a] == merged(heads, a, b)[b],
        heads[x] != heads[a] && heads[x] != heads[b] ==> merged(heads, a, b)[x] == heads[x],
        heads[x] != heads[a] && heads[x] != heads[b] && heads[y] != heads[x] ==> merged(
            heads,
            a,
            b,
        )[y] != merged(heads, a, b)[x],
{
}

/// The chain of pointers from a number ends at a number that points to itself
/// and is not greater.
pub proof fn lemma_root(parent: Seq<usize>, i: int)
    requires
        pointing_down(parent),
        0 <= i < parent.len(),
    ensures
        0 <= root(parent, i) <= i,
        parent[root(parent, i)] == root(parent, i),
        root(parent, root(parent, i)) == root(parent, i),
    decreases i,
{
    if parent[i] < i {
        lemma_root(parent, parent[i] as int);
    }
}

/// Making a number that points to itself point to a smaller such number moves
/// the numbers of its class to the class of the other, and no other number.
pub proof fn lemma_link(parent: Seq<usize>, high: int, low: int, i: int)
    requires
        pointing_down(parent),
        0 <= low < high < parent.len(),
        parent[high] == high,
        parent[low] == low,
        0 <= i < parent.len(),
    ensures
        root(parent.update(high, low as usize), i) == if root(parent, i) == high {
            low
        } else {
            root(parent, i)
        },
    decreases i,
{
    let linked = parent.update(high, low as usize);
    if i == high {
        assert(linked[high] == low);
        assert(root(linked, low) == low);
    } else if parent[i] < i {
        lemma_link(parent, high, low, parent[i] as int);
    }
}

impl View for DisjointSet {
    type V = Seq<int>;

    /// For each number, the least number of its class.
    closed spec fn view(&self) -> Seq<int> {
        Seq::new(self.parent@.len(), |i: int| root(self.parent@, i))
    }
}

impl DisjointSet {
    /// No number points to a greater one.
    pub closed spec fn wf(&self) -> bool {
        pointing_down(self.parent@)
    }

    /// The number that stands for a class is the least of the class, and stands
    /// for itself.
    pub proof fn lemma_heads(&self, i: int)
        requires
            self.wf(),
            0 <= i < self@.len(),
        ensures
            0 <= self@[i] <= i,
            self@[self@[i]] == self@[i],
    {
        lemma_root(self.parent@, i);
    }

    /// The partition of `n` numbers in which every number is alone in its class.
    pub fn new(n: usize) -> (r: Self)
        ensures
            r.wf(),
            r@ == Seq::new(n as nat, |i: int| i),
    {
        let mut parent: Vec<usize> = Vec::new();
        let mut i: usize = 0;
        while i < n
            invariant
                i <= n,
                parent@.len() == i,
                forall|k: int| 0 <= k < i ==> #[trigger] parent@[k] == k,
            decreases n - i,
        {
            parent.push(i);
            i += 1;
        }
        let r = DisjointSet { parent };
        assert(r@ =~= Seq::new(n as nat, |i: int| i));
        r
    }

    /// The number of numbers.
    pub fn len(&self) -> (r: usize)
        ensures
            r == self@.len(),
    {
        self.parent.len()
    }

    /// The least number of the class of `i`.
    pub fn find(&self, i: usize) -> (r: usize)
        requires
            self.wf(),
            i < self@.len(),
        ensures
            r == self@[i as int],
            r <= i,
    {
        let mut at = i;
        proof {
            lemma_root(self.parent@, i as int);
        }
        while self.parent[at] != at
            invariant
                at < self.parent@.len(),
                pointing_down(self.parent@),
                root(self.parent@, at as int) == root(self.parent@, i as int),
                at <= i,
            decreases at,
        {
            at = self.parent[at];
        }
        at
    }

    /// Whether `a` and `b` are in the same class.
    pub fn same_set(&self, a: usize, b: usize) -> (r: bool)
        requires
            self.wf(),
            a < self@.len(),
            b < self@.len(),
        ensures
            r == (self@[a as int] == self@[b as int]),
    {
        self.find(a) == self.find(b)
    }

    /// Whether `a` and `b` are in different classes.
    pub fn other_sets(&self, a: usize, b: usize) -> (r: bool)
        requires
            self.wf(),
            a < self@.len(),
            b < self@.len(),
        ensures
            r == (self@[a as int] != self@[b as int]),
    {
        !self.same_set(a, b)
    }

    /// Merge the classes of `a` and `b`.
    pub fn union(&mut self, a: usize, b: usize)
        requires
            old(self).wf(),
            a < old(self)@.len(),
            b < old(self)@.len(),
        ensures
            final(self).wf(),
            final(self)@ == merged(old(self)@, a as int, b as int),
    {
        let ra = self.find(a);
        let rb = self.find(b);
        let ghost before = self.parent@;
        proof {
            lemma_root(before, a as int);
            lemma_root(before, b as int);
        }
        if ra < rb {
            self.parent[rb] = ra;
            proof {
                assert forall|i: int| 0 <= i < before.len() implies root(self.parent@, i) == merged(
                    old(self)@,
                    a as int,
                    b as int,
                )[i] by {
                    lemma_link(before, rb as int, ra as int, i);
                }
            }
        } else if rb < ra {
            self.parent[ra] = rb;
            proof {
                assert forall|i: int| 0 <= i < before.len() implies root(self.parent@, i) == merged(
                    old(self)@,
                    a as int,
                    b as int,
                )[i] by {
                    lemma_link(before, ra as int, rb as int, i);
                }
            }
        }
        assert(self@ =~= merged(old(self)@, a as int, b as int));
    }
}

} // verus!
