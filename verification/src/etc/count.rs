use vstd::prelude::*;

verus! {

/// The two values are the same.
pub open spec fn same<T>(a: T, b: T) -> bool {
    a == b
}

/// How many of the numbers `0, ..., n - 1` have the property `p`.
pub open spec fn count(n: int, p: spec_fn(int) -> bool) -> int
    decreases n,
{
    if n <= 0 {
        0
    } else {
        count(n - 1, p) + if p(n - 1) {
            1int
        } else {
            0int
        }
    }
}

/// The sum of `f` over the numbers `0, ..., n - 1`.
pub open spec fn sum(n: int, f: spec_fn(int) -> int) -> int
    decreases n,
{
    if n <= 0 {
        0
    } else {
        sum(n - 1, f) + f(n - 1)
    }
}

/// The place `i` holds `c`, and no place before it does.
pub open spec fn is_first<T>(s: Seq<T>, c: T, i: int) -> bool {
    &&& 0 <= i < s.len()
    &&& s[i] == c
    &&& forall|j: int| 0 <= j < i ==> #[trigger] s[j] != c
}

/// The first place of `s` that holds `c`, where there is one.
pub open spec fn first_place<T>(s: Seq<T>, c: T) -> int {
    choose|i: int| is_first(s, c, i)
}

/// A count is between zero and the number of candidates.
pub proof fn lemma_count_bounds(n: int, p: spec_fn(int) -> bool)
    ensures
        0 <= count(n, p),
        n >= 0 ==> count(n, p) <= n,
    decreases n,
{
    if n > 0 {
        lemma_count_bounds(n - 1, p);
    }
}

/// Two properties that agree on the candidates are counted alike.
pub proof fn lemma_count_agrees(n: int, p: spec_fn(int) -> bool, q: spec_fn(int) -> bool)
    requires
        forall|i: int| 0 <= i < n ==> #[trigger] p(i) == q(i),
    ensures
        count(n, p) == count(n, q),
    decreases n,
{
    if n > 0 {
        lemma_count_agrees(n - 1, p, q);
    }
}

/// Two functions that agree on the candidates have the same sum.
pub proof fn lemma_sum_agrees(n: int, f: spec_fn(int) -> int, g: spec_fn(int) -> int)
    requires
        forall|i: int| 0 <= i < n ==> #[trigger] f(i) == g(i),
    ensures
        sum(n, f) == sum(n, g),
    decreases n,
{
    if n > 0 {
        lemma_sum_agrees(n - 1, f, g);
    }
}

/// Where one candidate loses the property and the others keep what they had,
/// the count goes down by one.
pub proof fn lemma_count_drop(n: int, p: spec_fn(int) -> bool, q: spec_fn(int) -> bool, j: int)
    requires
        0 <= j < n,
        p(j),
        !q(j),
        forall|i: int| 0 <= i < n && i != j ==> #[trigger] p(i) == q(i),
    ensures
        count(n, q) == count(n, p) - 1,
    decreases n,
{
    if j == n - 1 {
        lemma_count_agrees(n - 1, p, q);
    } else {
        lemma_count_drop(n - 1, p, q, j);
    }
}

/// Where one candidate gains the property and the others keep what they had,
/// the count goes up by one.
pub proof fn lemma_count_rise(n: int, p: spec_fn(int) -> bool, q: spec_fn(int) -> bool, j: int)
    requires
        0 <= j < n,
        !p(j),
        q(j),
        forall|i: int| 0 <= i < n && i != j ==> #[trigger] p(i) == q(i),
    ensures
        count(n, q) == count(n, p) + 1,
        count(n, p) < n,
{
    lemma_count_drop(n, q, p, j);
    lemma_count_bounds(n, q);
}

/// A sum of numbers that are not negative does not go down as it goes on.
pub proof fn lemma_sum_rises(i: int, n: int, f: spec_fn(int) -> int)
    requires
        0 <= i <= n,
        forall|k: int| 0 <= k < n ==> #[trigger] f(k) >= 0,
    ensures
        0 <= sum(i, f) <= sum(n, f),
    decreases n - i,
{
    if i < n {
        lemma_sum_rises(i + 1, n, f);
    }
    lemma_sum_not_negative(i, f);
}

/// A sum of numbers that are not negative is not negative.
pub proof fn lemma_sum_not_negative(n: int, f: spec_fn(int) -> int)
    requires
        forall|k: int| 0 <= k < n ==> #[trigger] f(k) >= 0,
    ensures
        0 <= sum(n, f),
    decreases n,
{
    if n > 0 {
        lemma_sum_not_negative(n - 1, f);
    }
}

/// There is at most one first place.
pub proof fn lemma_first_place<T>(s: Seq<T>, c: T, i: int)
    requires
        is_first(s, c, i),
    ensures
        first_place(s, c) == i,
{
    let j = first_place(s, c);
    assert(is_first(s, c, j));
    if j < i {
        assert(s[j] != c);
    }
    if i < j {
        assert(s[i] != c);
    }
}

/// What is counted is a set of that size.
pub proof fn lemma_count_is_cardinality(n: int, p: spec_fn(int) -> bool)
    ensures
        Set::new(|i: int| 0 <= i < n && p(i)).finite(),
        Set::new(|i: int| 0 <= i < n && p(i)).len() == count(n, p),
    decreases n,
{
    let all = Set::new(|i: int| 0 <= i < n && p(i));
    if n <= 0 {
        assert(all =~= Set::<int>::empty());
    } else {
        lemma_count_is_cardinality(n - 1, p);
        let fewer = Set::new(|i: int| 0 <= i < n - 1 && p(i));
        if p(n - 1) {
            assert(all =~= fewer.insert(n - 1));
        } else {
            assert(all =~= fewer);
        }
    }
}

} // verus!
