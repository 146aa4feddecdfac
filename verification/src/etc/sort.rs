use vstd::prelude::*;
use vstd::relations::{sorted_by, total_ordering};

verus! {

/// The order of the numbers.
pub open spec fn at_most() -> spec_fn(u64, u64) -> bool {
    |a: u64, b: u64| a <= b
}

/// The numbers of `s` in rising order.
pub open spec fn sorted(s: Seq<u64>) -> Seq<u64> {
    s.sort_by(at_most())
}

/// A sequence in rising order that holds the numbers of `s`, each as often as
/// `s` does, is `s` in rising order.
pub proof fn lemma_is_sorted(s: Seq<u64>, r: Seq<u64>)
    requires
        sorted_by(r, at_most()),
        r.to_multiset() == s.to_multiset(),
    ensures
        r == sorted(s),
{
    assert(total_ordering(at_most()));
    s.lemma_sort_by_ensures(at_most());
    vstd::seq_lib::lemma_sorted_unique(r, sorted(s), at_most());
}

/// The numbers in rising order.
pub fn sort(v: &Vec<u64>) -> (r: Vec<u64>)
    ensures
        r@ == sorted(v@),
{
    let mut r: Vec<u64> = Vec::new();
    let mut i: usize = 0;
    assert(v@.take(0) =~= Seq::<u64>::empty());
    while i < v.len()
        invariant
            i <= v@.len(),
            r@.len() == i,
            sorted_by(r@, at_most()),
            r@.to_multiset() == v@.take(i as int).to_multiset(),
        decreases v@.len() - i,
    {
        let x = v[i];
        let mut p: usize = 0;
        while p < r.len() && r[p] <= x
            invariant
                p <= r@.len(),
                forall|k: int| 0 <= k < p ==> #[trigger] r@[k] <= x,
            decreases r@.len() - p,
        {
            p += 1;
        }
        let ghost before = r@;
        r.insert(p, x);
        proof {
            assert(r@ == before.insert(p as int, x));
            vstd::seq_lib::to_multiset_insert(before, p as int, x);
            assert(v@.take(i + 1) =~= v@.take(i as int).push(x));
            vstd::seq_lib::to_multiset_build(v@.take(i as int), x);
            assert forall|a: int, b: int| 0 <= a < b < r@.len() implies #[trigger] at_most()(
                r@[a],
                r@[b],
            ) by {
                if b < p {
                    assert(at_most()(before[a], before[b]));
                } else if b == p {
                } else if a < p {
                    assert(at_most()(before[a], before[b - 1]));
                } else if a == p {
                    assert(at_most()(before[p as int], before[b - 1]));
                } else {
                    assert(at_most()(before[a - 1], before[b - 1]));
                }
            }
        }
        i += 1;
    }
    proof {
        assert(v@.take(i as int) =~= v@);
        lemma_is_sorted(v@, r@);
    }
    r
}

} // verus!
