use crate::etc::count::sum;
use crate::etc::number::{all_numbers, naturals, numbers_of, parse_all};
use crate::etc::solution::{Solution, SolutionPair};
use crate::etc::text::{chars, pieces, rows_view, slice, split_on, split_words, words};
use vstd::prelude::*;

verus! {

pub type Page = u32;

pub type PageOrdering = Vec<(Page, Page)>;

pub type Updates = Vec<Vec<Page>>;

/// The place holds the first of two line feeds.
pub open spec fn blank_at(s: Seq<char>, i: int) -> bool {
    0 <= i && i + 1 < s.len() && s[i] == '\n' && s[i + 1] == '\n'
}

/// The first place that holds the first of two line feeds.
pub open spec fn is_first_blank(s: Seq<char>, i: int) -> bool {
    blank_at(s, i) && forall|j: int| 0 <= j < i ==> !#[trigger] blank_at(s, j)
}

/// The text before the first empty line.
pub open spec fn rules_text(input: Seq<char>) -> Seq<char> {
    input.subrange(0, choose|i: int| is_first_blank(input, i))
}

/// The text from the first empty line on.
pub open spec fn updates_text(input: Seq<char>) -> Seq<char> {
    input.subrange(choose|i: int| is_first_blank(input, i), input.len() as int)
}

/// The two pages that a rule writes: numbers with a bar between them.
pub open spec fn rule_of(word: Seq<char>) -> Option<(Page, Page)> {
    let parts = pieces(word, '|');
    if parts.len() >= 2 && all_numbers(parts.take(2), u32::MAX as nat) {
        Some((numbers_of(parts)[0] as u32, numbers_of(parts)[1] as u32))
    } else {
        None
    }
}

/// The pages that an update writes: numbers with commas between them.
pub open spec fn update_of(word: Seq<char>) -> Option<Seq<Page>> {
    let parts = pieces(word, ',');
    if all_numbers(parts, u32::MAX as nat) {
        Some(Seq::new(parts.len(), |i: int| numbers_of(parts)[i] as u32))
    } else {
        None
    }
}

/// There is an empty line, every word before it is a rule, and every word
/// after it is an update.
pub open spec fn well_formed(input: Seq<char>) -> bool {
    &&& exists|i: int| is_first_blank(input, i)
    &&& forall|k: int|
        0 <= k < words(rules_text(input)).len() ==> rule_of(#[trigger] words(rules_text(input))[k]) is Some
    &&& forall|k: int|
        0 <= k < words(updates_text(input)).len() ==> update_of(
            #[trigger] words(updates_text(input))[k],
        ) is Some
    &&& words(updates_text(input)).len() <= 0xFFFF_FFFF
}

/// The rules that a text writes.
pub open spec fn rules_of(input: Seq<char>) -> Seq<(Page, Page)> {
    Seq::new(
        words(rules_text(input)).len(),
        |k: int| rule_of(words(rules_text(input))[k])->0,
    )
}

/// The updates that a text writes.
pub open spec fn updates_of(input: Seq<char>) -> Seq<Seq<Page>> {
    Seq::new(
        words(updates_text(input)).len(),
        |k: int| update_of(words(updates_text(input))[k])->0,
    )
}

/// The numbers of a vector, as pages.
fn pages(values: &Vec<u64>) -> (r: Vec<Page>)
    requires
        forall|k: int| 0 <= k < values@.len() ==> #[trigger] values@[k] <= u32::MAX,
    ensures
        r@.len() == values@.len(),
        forall|k: int| 0 <= k < r@.len() ==> #[trigger] r@[k] == values@[k],
{
    let mut r: Vec<Page> = Vec::new();
    let mut i: usize = 0;
    while i < values.len()
        invariant
            i <= values@.len(),
            r@.len() == i,
            forall|k: int| 0 <= k < values@.len() ==> #[trigger] values@[k] <= u32::MAX,
            forall|k: int| 0 <= k < i ==> #[trigger] r@[k] == values@[k],
        decreases values@.len() - i,
    {
        r.push(values[i] as u32);
        i += 1;
    }
    r
}

/// The two pages that a rule writes.
pub fn read_rule(word: &Vec<char>) -> (r: Option<(Page, Page)>)
    ensures
        r == rule_of(word@),
{
    let mut parts = split_on(word, '|');
    let ghost all = pieces(word@, '|');
    if parts.len() < 2 {
        return None;
    }
    parts.truncate(2);
    assert(rows_view(parts@) =~= all.take(2));
    match parse_all(&parts, 0xFFFF_FFFF) {
        Some(values) => {
            proof {
                assert(naturals(values@).len() == values@.len());
                assert(numbers_of(rows_view(parts@)).len() == 2);
                assert(naturals(values@)[0] == values@[0] && naturals(values@)[1] == values@[1]);
                assert(numbers_of(all.take(2))[0] == numbers_of(all)[0]);
                assert(numbers_of(all.take(2))[1] == numbers_of(all)[1]);
            }
            Some((values[0] as u32, values[1] as u32))
        },
        None => None,
    }
}

/// The pages that an update writes.
pub fn read_update(word: &Vec<char>) -> (r: Option<Vec<Page>>)
    ensures
        match r {
            Some(update) => update_of(word@) == Some(update@),
            None => update_of(word@) is None,
        },
{
    let parts = split_on(word, ',');
    let ghost all = pieces(word@, ',');
    match parse_all(&parts, 0xFFFF_FFFF) {
        Some(values) => {
            let update = pages(&values);
            proof {
                assert(naturals(values@).len() == values@.len());
                assert forall|i: int| 0 <= i < update@.len() implies update@[i] == numbers_of(all)[i] as u32 by {
                    assert(naturals(values@)[i] == values@[i]);
                }
                assert(update@ =~= Seq::new(all.len(), |i: int| numbers_of(all)[i] as u32));
            }
            Some(update)
        },
        None => None,
    }
}

/// The first place that holds the first of two line feeds.
pub fn find_blank(content: &Vec<char>) -> (r: Option<usize>)
    ensures
        match r {
            Some(at) => is_first_blank(content@, at as int) && at < content@.len(),
            None => forall|i: int| !is_first_blank(content@, i),
        },
{
    let n = content.len();
    let mut at: usize = 0;
    while at < n && n - at >= 2
        invariant
            at <= n,
            n == content@.len(),
            forall|j: int| 0 <= j < at ==> !#[trigger] blank_at(content@, j),
        decreases n - at,
    {
        if content[at] == '\n' && content[at + 1] == '\n' {
            return Some(at);
        }
        at += 1;
    }
    proof {
        assert forall|i: int| !is_first_blank(content@, i) by {
            if blank_at(content@, i) {
                assert(i < at);
            }
        }
    }
    None
}

/// Read the rules and the updates, or `None` where the text is not well
/// formed.
pub fn parse(input: &str) -> (r: Option<(PageOrdering, Updates)>)
    ensures
        match r {
            Some((orderings, updates)) => {
                &&& well_formed(input@)
                &&& orderings@ == rules_of(input@)
                &&& rows_view(updates@) == updates_of(input@)
            },
            None => !well_formed(input@),
        },
{
    let content = chars(input);
    let n = content.len();
    let at = match find_blank(&content) {
        Some(at) => at,
        None => {
            return None;
        },
    };
    proof {
        let other = choose|i: int| is_first_blank(input@, i);
        if other < at {
            assert(!blank_at(input@, other));
        }
        if at < other {
            assert(!blank_at(input@, at as int));
        }
    }
    let first = slice(&content, 0, at);
    let second = slice(&content, at, n);
    assert(first@ == rules_text(input@));
    assert(second@ == updates_text(input@));
    let rule_words = split_words(&first);
    let update_words = split_words(&second);
    if update_words.len() > 0xFFFF_FFFF {
        return None;
    }
    let ghost rw = words(rules_text(input@));
    let ghost uw = words(updates_text(input@));
    let mut orderings: PageOrdering = Vec::new();
    let mut i: usize = 0;
    while i < rule_words.len()
        invariant
            i <= rule_words@.len(),
            rw == rows_view(rule_words@),
            rw == words(rules_text(input@)),
            orderings@.len() == i,
            forall|k: int| 0 <= k < i ==> rule_of(#[trigger] rw[k]) == Some(orderings@[k]),
        decreases rule_words@.len() - i,
    {
        assert(rw[i as int] == rule_words@[i as int]@);
        match read_rule(&rule_words[i]) {
            Some(rule) => {
                orderings.push(rule);
            },
            None => {
                return None;
            },
        }
        i += 1;
    }
    let mut updates: Updates = Vec::new();
    let mut i: usize = 0;
    while i < update_words.len()
        invariant
            i <= update_words@.len(),
            uw == rows_view(update_words@),
            uw == words(updates_text(input@)),
            updates@.len() == i,
            forall|k: int| 0 <= k < i ==> update_of(#[trigger] uw[k]) == Some(updates@[k]@),
        decreases update_words@.len() - i,
    {
        assert(uw[i as int] == update_words@[i as int]@);
        match read_update(&update_words[i]) {
            Some(update) => {
                updates.push(update);
            },
            None => {
                return None;
            },
        }
        i += 1;
    }
    proof {
        assert(orderings@ =~= rules_of(input@));
        assert(rows_view(updates@) =~= updates_of(input@));
    }
    Some((orderings, updates))
}

/// Read the rules and the updates.
pub fn prepare(input: &str) -> (r: (PageOrdering, Updates))
    requires
        well_formed(input@),
    ensures
        r.0@ == rules_of(input@),
        rows_view(r.1@) == updates_of(input@),
{
    match parse(input) {
        Some(r) => r,
        None => (Vec::new(), Vec::new()),
    }
}

/// A rule puts the page `a` before the page `b`.
pub open spec fn before(orderings: Seq<(Page, Page)>, a: Page, b: Page) -> bool {
    exists|k: int| 0 <= k < orderings.len() && #[trigger] orderings[k] == (a, b)
}

/// Every page of the update is put before every page after it by a rule.
pub open spec fn in_order(orderings: Seq<(Page, Page)>, update: Seq<Page>) -> bool {
    forall|i: int, j: int|
        0 <= i < j < update.len() ==> before(orderings, #[trigger] update[i], #[trigger] update[j])
}

/// Whether a rule puts the page `a` before the page `b`.
pub fn is_before(orderings: &PageOrdering, a: Page, b: Page) -> (r: bool)
    ensures
        r == before(orderings@, a, b),
{
    let mut k: usize = 0;
    while k < orderings.len()
        invariant
            k <= orderings@.len(),
            forall|j: int| 0 <= j < k ==> #[trigger] orderings@[j] != (a, b),
        decreases orderings@.len() - k,
    {
        let (x, y) = orderings[k];
        if x == a && y == b {
            assert(orderings@[k as int] == (a, b));
            return true;
        }
        k += 1;
    }
    false
}

pub fn check_update(orderings: &PageOrdering, update: &Vec<Page>) -> (r: bool)
    ensures
        r == in_order(orderings@, update@),
{
    let mut j: usize = 0;
    while j < update.len()
        invariant
            j <= update@.len(),
            forall|a: int, b: int|
                0 <= a < b < j ==> before(orderings@, #[trigger] update@[a], #[trigger] update@[b]),
        decreases update@.len() - j,
    {
        let mut i: usize = 0;
        while i < j
            invariant
                i <= j < update@.len(),
                forall|a: int| 0 <= a < i ==> before(orderings@, #[trigger] update@[a], update@[j as int]),
            decreases j - i,
        {
            if !is_before(orderings, update[i], update[j]) {
                return false;
            }
            i += 1;
        }
        j += 1;
    }
    true
}

/// The page in the middle of an update, or zero for an update without pages.
pub open spec fn middle(update: Seq<Page>) -> int {
    if update.len() == 0 {
        0
    } else {
        update[update.len() as int / 2] as int
    }
}

/// The sum of the middle pages of the updates that are in order.
pub open spec fn part1(orderings: Seq<(Page, Page)>, updates: Seq<Seq<Page>>) -> int {
    sum(
        updates.len() as int,
        |i: int|
            if in_order(orderings, updates[i]) {
                middle(updates[i])
            } else {
                0
            },
    )
}

/// The page in the middle of an update, or zero for an update without pages.
fn middle_of(update: &Vec<Page>) -> (r: u64)
    ensures
        r == middle(update@),
        r <= u32::MAX,
{
    if update.len() == 0 {
        0
    } else {
        update[update.len() / 2] as u64
    }
}

/// The sum of the middle pages of the updates that are in order.
pub fn sum_in_order(orderings: &PageOrdering, updates: &Updates) -> (r: u64)
    requires
        updates@.len() <= 0xFFFF_FFFF,
    ensures
        r == part1(orderings@, rows_view(updates@)),
{
    let ghost all = rows_view(updates@);
    let ghost term = |i: int|
        if in_order(orderings@, all[i]) {
            middle(all[i])
        } else {
            0
        };
    let mut total: u64 = 0;
    let mut i: usize = 0;
    while i < updates.len()
        invariant
            i <= updates@.len(),
            updates@.len() <= 0xFFFF_FFFF,
            all == rows_view(updates@),
            term == |i: int|
                if in_order(orderings@, all[i]) {
                    middle(all[i])
                } else {
                    0
                },
            total == sum(i as int, term),
            total <= i * 0xFFFF_FFFF,
        decreases updates@.len() - i,
    {
        assert(all[i as int] == updates@[i as int]@);
        if check_update(orderings, &updates[i]) {
            total += middle_of(&updates[i]);
        }
        i += 1;
    }
    total
}

pub fn solve_part1(input: &str) -> (r: u64)
    requires
        well_formed(input@),
    ensures
        r == part1(rules_of(input@), updates_of(input@)),
{
    let (orderings, updates) = prepare(input);
    assert(rows_view(updates@).len() == updates@.len());
    sum_in_order(&orderings, &updates)
}

/// The rules settle the order of the pages of the update: of any two of its
/// pages, a rule puts one before the other, and a page is put before every page
/// that a page after it is put before.
pub open spec fn settled(orderings: Seq<(Page, Page)>, update: Seq<Page>) -> bool {
    &&& forall|i: int, j: int|
        0 <= i < update.len() && 0 <= j < update.len() && i != j ==> before(
            orderings,
            #[trigger] update[i],
            #[trigger] update[j],
        ) || before(orderings, update[j], update[i])
    &&& forall|i: int, j: int, k: int|
        0 <= i < update.len() && 0 <= j < update.len() && 0 <= k < update.len() && before(
            orderings,
            #[trigger] update[i],
            #[trigger] update[j],
        ) && before(orderings, update[j], #[trigger] update[k]) ==> before(
            orderings,
            update[i],
            update[k],
        )
}

/// The first place from `p` on that holds a page that a rule puts `x` before,
/// or the length.
pub open spec fn place(orderings: Seq<(Page, Page)>, r: Seq<Page>, x: Page, p: int) -> int
    decreases r.len() - p,
{
    if 0 <= p < r.len() && !before(orderings, x, r[p]) {
        place(orderings, r, x, p + 1)
    } else {
        p
    }
}

/// The first `n` pages of the update, each put before the first of those put so
/// far that a rule puts it before.
pub open spec fn reordered(orderings: Seq<(Page, Page)>, update: Seq<Page>, n: int) -> Seq<Page>
    decreases n,
{
    if n <= 0 {
        Seq::empty()
    } else {
        let r = reordered(orderings, update, n - 1);
        r.insert(place(orderings, r, update[n - 1], 0), update[n - 1])
    }
}

/// The place of a page is within the list; no page before it is one that a
/// rule puts the page before, and the page at it, if any, is one.
pub proof fn lemma_place(orderings: Seq<(Page, Page)>, r: Seq<Page>, x: Page, p: int)
    requires
        0 <= p <= r.len(),
    ensures
        p <= place(orderings, r, x, p) <= r.len(),
        forall|k: int| p <= k < place(orderings, r, x, p) ==> !before(orderings, x, #[trigger] r[k]),
        place(orderings, r, x, p) < r.len() ==> before(orderings, x, r[place(orderings, r, x, p)]),
    decreases r.len() - p,
{
    if p < r.len() && !before(orderings, x, r[p]) {
        lemma_place(orderings, r, x, p + 1);
    }
}

/// Where the rules settle the order of the pages of an update, the reordered
/// update is in order, and holds pages of the update only.
pub proof fn lemma_reordered_in_order(orderings: Seq<(Page, Page)>, update: Seq<Page>, n: int)
    requires
        settled(orderings, update),
        0 <= n <= update.len(),
    ensures
        in_order(orderings, reordered(orderings, update, n)),
        reordered(orderings, update, n).len() == n,
        forall|k: int|
            0 <= k < n ==> exists|i: int|
                0 <= i < n && #[trigger] reordered(orderings, update, n)[k] == update[i],
    decreases n,
{
    if n > 0 {
        lemma_reordered_in_order(orderings, update, n - 1);
        let r = reordered(orderings, update, n - 1);
        let x = update[n - 1];
        let p = place(orderings, r, x, 0);
        lemma_place(orderings, r, x, 0);
        let now = reordered(orderings, update, n);
        assert(now == r.insert(p, x));
        assert forall|k: int| 0 <= k < n implies exists|i: int|
            0 <= i < n && #[trigger] now[k] == update[i] by {
            if k < p {
                let i = choose|i: int| 0 <= i < n - 1 && r[k] == update[i];
                assert(now[k] == update[i]);
            } else if k == p {
                assert(now[k] == update[n - 1]);
            } else {
                let i = choose|i: int| 0 <= i < n - 1 && r[k - 1] == update[i];
                assert(now[k] == update[i]);
            }
        }
        assert forall|a: int, b: int| 0 <= a < b < now.len() implies before(
            orderings,
            #[trigger] now[a],
            #[trigger] now[b],
        ) by {
            if b < p {
                assert(before(orderings, r[a], r[b]));
            } else if b == p {
                let i = choose|i: int| 0 <= i < n - 1 && r[a] == update[i];
                assert(!before(orderings, x, r[a]));
                assert(before(orderings, update[i], update[n - 1]) || before(
                    orderings,
                    update[n - 1],
                    update[i],
                ));
            } else if a < p {
                assert(before(orderings, r[a], r[b - 1]));
            } else if a == p {
                if b - 1 > p {
                    let i = choose|i: int| 0 <= i < n - 1 && r[p] == update[i];
                    let j = choose|j: int| 0 <= j < n - 1 && r[b - 1] == update[j];
                    assert(before(orderings, r[p], r[b - 1]));
                    assert(before(orderings, update[n - 1], update[i]));
                    assert(before(orderings, update[i], update[j]));
                    assert(before(orderings, update[n - 1], update[j]));
                }
            } else {
                assert(before(orderings, r[a - 1], r[b - 1]));
            }
        }
    }
}

/// The pages of the update, each put before the first of those put so far that
/// a rule puts it before.
pub fn reorder_update(orderings: &PageOrdering, update: Vec<Page>) -> (r: Vec<Page>)
    ensures
        r@ == reordered(orderings@, update@, update@.len() as int),
        r@.to_multiset() == update@.to_multiset(),
        r@.len() == update@.len(),
{
    let mut r: Vec<Page> = Vec::new();
    let mut i: usize = 0;
    assert(update@.take(0) =~= Seq::<Page>::empty());
    while i < update.len()
        invariant
            i <= update@.len(),
            r@.len() == i,
            r@ == reordered(orderings@, update@, i as int),
            r@.to_multiset() == update@.take(i as int).to_multiset(),
        decreases update@.len() - i,
    {
        let x = update[i];
        let mut p: usize = 0;
        while p < r.len() && !is_before(orderings, x, r[p])
            invariant
                p <= r@.len(),
                place(orderings@, r@, x, 0) == place(orderings@, r@, x, p as int),
            decreases r@.len() - p,
        {
            p += 1;
        }
        let ghost before_insert = r@;
        r.insert(p, x);
        proof {
            vstd::seq_lib::to_multiset_insert(before_insert, p as int, x);
            assert(update@.take(i + 1) =~= update@.take(i as int).push(x));
            vstd::seq_lib::to_multiset_build(update@.take(i as int), x);
        }
        i += 1;
    }
    assert(update@.take(update@.len() as int) =~= update@);
    r
}

/// The sum of the middle pages of the updates that are not in order, once they
/// are put in order.
pub open spec fn part2(orderings: Seq<(Page, Page)>, updates: Seq<Seq<Page>>) -> int {
    sum(
        updates.len() as int,
        |i: int|
            if in_order(orderings, updates[i]) {
                0
            } else {
                middle(reordered(orderings, updates[i], updates[i].len() as int))
            },
    )
}

/// The sum of the middle pages of the updates that are not in order, once they
/// are put in order.
pub fn sum_reordered(orderings: &PageOrdering, updates: &Updates) -> (r: u64)
    requires
        updates@.len() <= 0xFFFF_FFFF,
    ensures
        r == part2(orderings@, rows_view(updates@)),
{
    let ghost all = rows_view(updates@);
    let ghost term = |i: int|
        if in_order(orderings@, all[i]) {
            0
        } else {
            middle(reordered(orderings@, all[i], all[i].len() as int))
        };
    let mut total: u64 = 0;
    let mut i: usize = 0;
    while i < updates.len()
        invariant
            i <= updates@.len(),
            updates@.len() <= 0xFFFF_FFFF,
            all == rows_view(updates@),
            term == |i: int|
                if in_order(orderings@, all[i]) {
                    0
                } else {
                    middle(reordered(orderings@, all[i], all[i].len() as int))
                },
            total == sum(i as int, term),
            total <= i * 0xFFFF_FFFF,
        decreases updates@.len() - i,
    {
        assert(all[i as int] == updates@[i as int]@);
        if !check_update(orderings, &updates[i]) {
            let copy = updates[i].clone();
            assert(copy@ =~= updates@[i as int]@);
            let reordered = reorder_update(orderings, copy);
            total += middle_of(&reordered);
        }
        i += 1;
    }
    total
}

pub fn solve_part2(input: &str) -> (r: u64)
    requires
        well_formed(input@),
    ensures
        r == part2(rules_of(input@), updates_of(input@)),
{
    let (orderings, updates) = prepare(input);
    assert(rows_view(updates@).len() == updates@.len());
    sum_reordered(&orderings, &updates)
}

pub fn solve(input: String) -> (r: SolutionPair)
    requires
        well_formed(input@),
    ensures
        r.0 == Solution::U64(part1(rules_of(input@), updates_of(input@)) as u64),
        r.1 == Solution::U64(part2(rules_of(input@), updates_of(input@)) as u64),
{
    let sol1 = solve_part1(input.as_str());
    let sol2 = solve_part2(input.as_str());
    (Solution::U64(sol1), Solution::U64(sol2))
}

} // verus!
