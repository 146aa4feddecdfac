use crate::etc::count::{count, same, sum};
use crate::etc::solution::{Solution, SolutionPair};
use crate::etc::text::{chars, rows_view, split_words, words};
use vstd::prelude::*;

verus! {

pub type Heights = [i32; 5];

pub type Locks = Vec<Heights>;

pub type Keys = Vec<Heights>;

/// The rows come in schematics of seven rows, each row of five characters.
pub open spec fn well_formed(rows: Seq<Seq<char>>) -> bool {
    &&& rows.len() % 7 == 0
    &&& rows.len() <= 0xFFFF_FFFF
    &&& forall|i: int| 0 <= i < rows.len() ==> (#[trigger] rows[i]).len() == 5
}

/// The number of `#` in the column `i` of the five middle rows of the
/// schematic `b`.
pub open spec fn pin(rows: Seq<Seq<char>>, b: int, i: int) -> int {
    count(5, |r: int| same(rows[7 * b + 1 + r][i], '#'))
}

/// The heights of the five columns of the schematic `b`.
pub open spec fn heights_of(rows: Seq<Seq<char>>, b: int) -> Seq<int> {
    Seq::new(5, |i: int| pin(rows, b, i))
}

/// The schematic `b` is a key: its first row is empty.
pub open spec fn is_key(rows: Seq<Seq<char>>, b: int) -> bool {
    rows[7 * b] == seq!['.', '.', '.', '.', '.']
}

/// The heights of the schematics among the first `n` that are keys (or that are
/// locks, where `keys` is false), in order.
pub open spec fn schematics(rows: Seq<Seq<char>>, keys: bool, n: int) -> Seq<Seq<int>>
    decreases n,
{
    if n <= 0 {
        Seq::empty()
    } else if is_key(rows, n - 1) == keys {
        schematics(rows, keys, n - 1).push(heights_of(rows, n - 1))
    } else {
        schematics(rows, keys, n - 1)
    }
}

/// The heights of some schematics.
pub open spec fn heights_view(all: Seq<Heights>) -> Seq<Seq<int>> {
    Seq::new(all.len(), |i: int| Seq::new(5, |k: int| all[i]@[k] as int))
}

/// The heights of the five columns of the schematic `b`.
pub fn heights(rows: &Vec<Vec<char>>, b: usize) -> (r: Heights)
    requires
        well_formed(rows_view(rows@)),
        7 * b + 6 < rows@.len(),
    ensures
        Seq::new(5, |k: int| r@[k] as int) == heights_of(rows_view(rows@), b as int),
        forall|k: int| 0 <= k < 5 ==> 0 <= #[trigger] r@[k] <= 5,
{
    let ghost all = rows_view(rows@);
    let mut r: Heights = [0, 0, 0, 0, 0];
    let total: usize = rows.len();
    let mut i: usize = 0;
    while i < 5
        invariant
            i <= 5,
            all == rows_view(rows@),
            well_formed(all),
            7 * b + 6 < rows@.len(),
            total == rows@.len(),
            forall|k: int| 0 <= k < i ==> #[trigger] r@[k] == pin(all, b as int, k),
            forall|k: int| 0 <= k < i ==> 0 <= #[trigger] r@[k] <= 5,
        decreases 5 - i,
    {
        let ghost full = |line: int| same(all[7 * b + 1 + line][i as int], '#');
        let mut height: i32 = 0;
        let mut line: usize = 0;
        while line < 5
            invariant
                line <= 5,
                i < 5,
                all == rows_view(rows@),
                well_formed(all),
                7 * b + 6 < rows@.len(),
                total == rows@.len(),
                full == |line: int| same(all[7 * b + 1 + line][i as int], '#'),
                height == count(line as int, full),
                0 <= height <= line,
            decreases 5 - line,
        {
            let row = &rows[7 * b + 1 + line];
            assert(all[7 * b + 1 + line] == row@);
            assert(all[7 * b + 1 + line].len() == 5);
            if row[i] == '#' {
                height += 1;
            }
            line += 1;
        }
        r[i] = height;
        i += 1;
    }
    assert(Seq::new(5, |k: int| r@[k] as int) =~= heights_of(all, b as int));
    r
}

/// Whether the row is made of five dots.
fn is_empty_row(row: &Vec<char>) -> (r: bool)
    ensures
        r == (row@ == seq!['.', '.', '.', '.', '.']),
{
    if row.len() != 5 {
        return false;
    }
    let r = row[0] == '.' && row[1] == '.' && row[2] == '.' && row[3] == '.' && row[4] == '.';
    if r {
        assert(row@ =~= seq!['.', '.', '.', '.', '.']);
    }
    r
}

/// Read the locks and the keys, or `None` where the text is not well formed.
pub fn parse(input: &str) -> (r: Option<(Locks, Keys)>)
    ensures
        match r {
            Some((locks, keys)) => {
                &&& well_formed(words(input@))
                &&& in_range(locks@)
                &&& in_range(keys@)
                &&& locks@.len() <= words(input@).len() / 7
                &&& keys@.len() <= words(input@).len() / 7
                &&& heights_view(locks@) == schematics(
                    words(input@),
                    false,
                    words(input@).len() as int / 7,
                )
                &&& heights_view(keys@) == schematics(
                    words(input@),
                    true,
                    words(input@).len() as int / 7,
                )
            },
            None => !well_formed(words(input@)),
        },
{
    let text = chars(input);
    let rows = split_words(&text);
    let ghost all = words(input@);
    if rows.len() % 7 != 0 || rows.len() > 0xFFFF_FFFF {
        return None;
    }
    let mut i: usize = 0;
    while i < rows.len()
        invariant
            i <= rows@.len(),
            all == rows_view(rows@),
            all == words(input@),
            forall|k: int| 0 <= k < i ==> (#[trigger] all[k]).len() == 5,
        decreases rows@.len() - i,
    {
        assert(all[i as int] == rows@[i as int]@);
        if rows[i].len() != 5 {
            return None;
        }
        i += 1;
    }
    let mut locks: Locks = Vec::new();
    let mut keys: Keys = Vec::new();
    let blocks = rows.len() / 7;
    let mut b: usize = 0;
    assert(heights_view(locks@) =~= schematics(all, false, 0));
    assert(heights_view(keys@) =~= schematics(all, true, 0));
    while b < blocks
        invariant
            b <= blocks,
            blocks == rows@.len() / 7,
            rows@.len() % 7 == 0,
            all == rows_view(rows@),
            all == words(input@),
            well_formed(all),
            heights_view(locks@) == schematics(all, false, b as int),
            heights_view(keys@) == schematics(all, true, b as int),
            in_range(locks@),
            in_range(keys@),
            locks@.len() <= b,
            keys@.len() <= b,
        decreases blocks - b,
    {
        let found = heights(&rows, b);
        assert(all[7 * b] == rows@[7 * b]@);
        let ghost old_locks = heights_view(locks@);
        let ghost old_keys = heights_view(keys@);
        if is_empty_row(&rows[7 * b]) {
            keys.push(found);
            assert(heights_view(keys@) =~= old_keys.push(heights_of(all, b as int)));
        } else {
            locks.push(found);
            assert(heights_view(locks@) =~= old_locks.push(heights_of(all, b as int)));
        }
        b += 1;
    }
    Some((locks, keys))
}

/// Read the locks and the keys.
pub fn prepare(input: &str) -> (r: (Locks, Keys))
    requires
        well_formed(words(input@)),
    ensures
        in_range(r.0@),
        in_range(r.1@),
        r.0@.len() <= words(input@).len() / 7,
        r.1@.len() <= words(input@).len() / 7,
        heights_view(r.0@) == schematics(words(input@), false, words(input@).len() as int / 7),
        heights_view(r.1@) == schematics(words(input@), true, words(input@).len() as int / 7),
{
    match parse(input) {
        Some(r) => r,
        None => (Vec::new(), Vec::new()),
    }
}

/// The key fits the lock: in no column do their heights add up to more than
/// five.
pub open spec fn fits(lock: Seq<int>, key: Seq<int>) -> bool {
    forall|i: int| 0 <= i < 5 ==> #[trigger] lock[i] + key[i] < 6
}

/// The number of pairs of a lock and a key that fits it.
pub open spec fn part1(locks: Seq<Seq<int>>, keys: Seq<Seq<int>>) -> int {
    sum(locks.len() as int, |a: int| count(keys.len() as int, |b: int| fits(locks[a], keys[b])))
}

/// Whether the key fits the lock.
pub fn key_fits(lock: &Heights, key: &Heights) -> (r: bool)
    requires
        forall|i: int| 0 <= i < 5 ==> 0 <= #[trigger] lock@[i] <= 5,
        forall|i: int| 0 <= i < 5 ==> 0 <= #[trigger] key@[i] <= 5,
    ensures
        r == fits(Seq::new(5, |k: int| lock@[k] as int), Seq::new(5, |k: int| key@[k] as int)),
{
    let ghost l = Seq::new(5, |k: int| lock@[k] as int);
    let ghost k = Seq::new(5, |k: int| key@[k] as int);
    let mut i: usize = 0;
    while i < 5
        invariant
            i <= 5,
            l == Seq::new(5, |k: int| lock@[k] as int),
            k == Seq::new(5, |k: int| key@[k] as int),
            forall|i: int| 0 <= i < 5 ==> 0 <= #[trigger] lock@[i] <= 5,
            forall|i: int| 0 <= i < 5 ==> 0 <= #[trigger] key@[i] <= 5,
            forall|j: int| 0 <= j < i ==> #[trigger] l[j] + k[j] < 6,
        decreases 5 - i,
    {
        if lock[i] + key[i] >= 6 {
            assert(!(l[i as int] + k[i as int] < 6));
            return false;
        }
        i += 1;
    }
    true
}

/// The heights are from zero to five.
pub open spec fn in_range(all: Seq<Heights>) -> bool {
    forall|a: int, i: int| 0 <= a < all.len() && 0 <= i < 5 ==> 0 <= #[trigger] all[a]@[i] <= 5
}

/// The number of pairs of a lock and a key that fits it.
pub fn count_fits(locks: &Locks, keys: &Keys) -> (r: u64)
    requires
        in_range(locks@),
        in_range(keys@),
        locks@.len() * keys@.len() <= u64::MAX,
    ensures
        r == part1(heights_view(locks@), heights_view(keys@)),
{
    let ghost ls = heights_view(locks@);
    let ghost ks = heights_view(keys@);
    let ghost term = |a: int| count(ks.len() as int, |b: int| fits(ls[a], ks[b]));
    let mut total: u64 = 0;
    let mut a: usize = 0;
    while a < locks.len()
        invariant
            a <= locks@.len(),
            ls == heights_view(locks@),
            ks == heights_view(keys@),
            in_range(locks@),
            in_range(keys@),
            locks@.len() * keys@.len() <= u64::MAX,
            term == |a: int| count(ks.len() as int, |b: int| fits(ls[a], ks[b])),
            total == sum(a as int, term),
            total <= a * keys@.len(),
        decreases locks@.len() - a,
    {
        let lock = &locks[a];
        let ghost fit = |b: int| fits(ls[a as int], ks[b]);
        let mut found: u64 = 0;
        let mut b: usize = 0;
        while b < keys.len()
            invariant
                b <= keys@.len(),
                a < locks@.len(),
                lock == locks@[a as int],
                ls == heights_view(locks@),
                ks == heights_view(keys@),
                in_range(locks@),
                in_range(keys@),
                fit == |b: int| fits(ls[a as int], ks[b]),
                found == count(b as int, fit),
                found <= b,
            decreases keys@.len() - b,
        {
            let key = &keys[b];
            proof {
                assert forall|i: int| 0 <= i < 5 implies 0 <= #[trigger] lock@[i] <= 5 by {
                    assert(0 <= locks@[a as int]@[i] <= 5);
                }
                assert forall|i: int| 0 <= i < 5 implies 0 <= #[trigger] key@[i] <= 5 by {
                    assert(0 <= keys@[b as int]@[i] <= 5);
                }
                assert(ls[a as int] =~= Seq::new(5, |k: int| lock@[k] as int));
                assert(ks[b as int] =~= Seq::new(5, |k: int| key@[k] as int));
            }
            if key_fits(lock, key) {
                found += 1;
            }
            b += 1;
        }
        proof {
            assert((a + 1) * keys@.len() == a * keys@.len() + keys@.len()) by (nonlinear_arith);
            assert((a + 1) * keys@.len() <= locks@.len() * keys@.len()) by (nonlinear_arith)
                requires
                    a + 1 <= locks@.len(),
            ;
        }
        total += found;
        a += 1;
    }
    total
}


/// The locks of the rows.
pub open spec fn locks_of(rows: Seq<Seq<char>>) -> Seq<Seq<int>> {
    schematics(rows, false, rows.len() as int / 7)
}

/// The keys of the rows.
pub open spec fn keys_of(rows: Seq<Seq<char>>) -> Seq<Seq<int>> {
    schematics(rows, true, rows.len() as int / 7)
}

pub fn solve_part1(input: &str) -> (r: u64)
    requires
        well_formed(words(input@)),
    ensures
        r == part1(locks_of(words(input@)), keys_of(words(input@))),
{
    let (locks, keys) = prepare(input);
    proof {
        let n = words(input@).len() as int / 7;
        assert(locks@.len() * keys@.len() <= u64::MAX) by (nonlinear_arith)
            requires
                0 <= locks@.len() <= n,
                0 <= keys@.len() <= n,
                n <= 0xFFFF_FFFFint / 7,
        ;
    }
    count_fits(&locks, &keys)
}

/// There is no second part.
pub fn solve_part2(input: &str) -> (r: ()) {
    ()
}

pub fn solve(input: String) -> (r: SolutionPair)
    requires
        well_formed(words(input@)),
    ensures
        r.0 == Solution::U64(part1(locks_of(words(input@)), keys_of(words(input@))) as u64),
        r.1 == Solution::Nothing,
{
    let sol1 = solve_part1(input.as_str());
    let sol2 = solve_part2(input.as_str());
    (Solution::U64(sol1), Solution::Nothing)
}

} // verus!
