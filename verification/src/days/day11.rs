use crate::days::day07::{lemma_pow10_positive, pow10, width};
use crate::etc::count::{lemma_sum_rises, sum};
use crate::etc::number::{all_numbers, naturals, numbers_of, parse_all};
use crate::etc::solution::{Solution, SolutionPair};
use crate::etc::text::{chars, split_words, words};
use std::collections::HashMap;
use vstd::prelude::*;

verus! {

broadcast use vstd::std_specs::hash::group_hash_axioms;

pub type Stones = Vec<u64>;

/// The words are numbers of at most 64 bits.
pub open spec fn well_formed(input: Seq<char>) -> bool {
    all_numbers(words(input), u64::MAX as nat)
}

/// Read the stones, or `None` where the text is not well formed.
pub fn parse(input: &str) -> (r: Option<Stones>)
    ensures
        match r {
            Some(stones) => well_formed(input@) && naturals(stones@) == numbers_of(words(input@)),
            None => !well_formed(input@),
        },
{
    let content = chars(input);
    let all = split_words(&content);
    parse_all(&all, u64::MAX)
}

/// The stones that a well formed text writes.
pub open spec fn stones_of(input: Seq<char>) -> Seq<u64> {
    Seq::new(words(input).len(), |i: int| numbers_of(words(input))[i] as u64)
}

/// Read the stones.
pub fn prepare(input: &str) -> (r: Stones)
    requires
        well_formed(input@),
    ensures
        naturals(r@) == numbers_of(words(input@)),
        r@ == stones_of(input@),
{
    match parse(input) {
        Some(stones) => {
            assert(naturals(stones@).len() == stones@.len());
            assert(numbers_of(words(input@)).len() == words(input@).len());
            assert forall|i: int| 0 <= i < stones@.len() implies stones@[i] == stones_of(input@)[i] by {
                assert(naturals(stones@)[i] == stones@[i] as nat);
            }
            assert(stones@ =~= stones_of(input@));
            stones
        },
        None => Vec::new(),
    }
}

/// What a blink makes of a stone: a stone with zero becomes one with one; a
/// stone with a number of an even number of digits becomes two, with the two
/// halves of the digits; any other has its number multiplied by 2024.
pub open spec fn blinked(stone: nat) -> (nat, Option<nat>) {
    if stone == 0 {
        (1, None)
    } else if width(stone) % 2 == 0 {
        (stone / pow10(width(stone) / 2), Some(stone % pow10(width(stone) / 2)))
    } else {
        (2024 * stone, None)
    }
}

/// The number of stones that `blinks` blinks make of a stone.
pub open spec fn stones_after(stone: nat, blinks: nat) -> nat
    decreases blinks,
{
    if blinks == 0 {
        1
    } else {
        stones_after(blinked(stone).0, (blinks - 1) as nat) + match blinked(stone).1 {
            Some(right) => stones_after(right, (blinks - 1) as nat),
            None => 0,
        }
    }
}

/// A number is below ten to the power of the number of its digits, and, from
/// ten on, not below the power before.
proof fn lemma_width(n: nat)
    ensures
        n < pow10(width(n)),
        n >= 10 ==> pow10((width(n) - 1) as nat) <= n,
        width(n) >= 1,
    decreases n,
{
    reveal_with_fuel(pow10, 3);
    if n >= 10 {
        lemma_width(n / 10);
        let w = width(n / 10);
        assert(pow10(w + 1) == 10 * pow10(w));
        if n / 10 >= 10 {
            assert(pow10(w) == 10 * pow10((w - 1) as nat));
        } else {
            assert(w == 1);
            assert(pow10(1) == 10);
        }
    }
}

/// The number of digits of a number.
fn digits_of(stone: u64) -> (r: u32)
    ensures
        r == width(stone as nat),
        1 <= r <= 20,
{
    let mut count: u32 = 1;
    let mut limit: u64 = 10;
    proof {
        reveal_with_fuel(pow10, 3);
        lemma_width(stone as nat);
    }
    while stone >= limit
        invariant
            1 <= count <= 19,
            limit == pow10(count as nat),
            count > 1 ==> stone >= pow10((count - 1) as nat),
            (stone as nat) < pow10(width(stone as nat)),
            stone >= 10 ==> pow10((width(stone as nat) - 1) as nat) <= stone,
            width(stone as nat) >= 1,
        decreases 20 - count,
    {
        if count == 19 {
            proof {
                reveal_with_fuel(pow10, 21);
                assert(pow10(20) > u64::MAX);
                let w = width(stone as nat);
                if w < 20 {
                    lemma_pow10_rises(w, 19);
                }
                if w > 20 {
                    lemma_pow10_rises(20, (w - 1) as nat);
                }
            }
            return 20;
        }
        proof {
            lemma_pow10_rises((count + 1) as nat, 19);
            reveal_with_fuel(pow10, 20);
            assert(pow10(19) == 10000000000000000000);
            assert(pow10((count + 1) as nat) == 10 * pow10(count as nat));
        }
        limit = limit * 10;
        count += 1;
    }
    proof {
        let w = width(stone as nat);
        if w < count {
            lemma_pow10_rises(w, (count - 1) as nat);
        }
        if w > count {
            lemma_pow10_rises(count as nat, (w - 1) as nat);
        }
    }
    count
}

/// A power of ten does not go down as the exponent goes up.
proof fn lemma_pow10_rises(n: nat, m: nat)
    requires
        n <= m,
    ensures
        pow10(n) <= pow10(m),
    decreases m,
{
    if n < m {
        lemma_pow10_rises(n, (m - 1) as nat);
        lemma_pow10_positive((m - 1) as nat);
    }
}

/// Ten to the power of `n`, for `n` up to nineteen.
fn power_of_ten(n: u32) -> (r: u64)
    requires
        n <= 19,
    ensures
        r == pow10(n as nat),
        r >= 1,
{
    let mut r: u64 = 1;
    let mut i: u32 = 0;
    while i < n
        invariant
            i <= n <= 19,
            r == pow10(i as nat),
            r >= 1,
        decreases n - i,
    {
        proof {
            lemma_pow10_rises((i + 1) as nat, 19);
            reveal_with_fuel(pow10, 20);
            assert(pow10(19) == 10000000000000000000);
        }
        r = r * 10;
        i += 1;
    }
    r
}

/// stone evolution after a single blink; `None` where the number of the new
/// stone does not fit 64 bits.
pub fn blink_once(stone: u64) -> (r: Option<(u64, Option<u64>)>)
    ensures
        match r {
            Some((left, right)) => left == blinked(stone as nat).0 && match right {
                Some(number) => blinked(stone as nat).1 == Some(number as nat),
                None => blinked(stone as nat).1 is None,
            },
            None => blinked(stone as nat).0 > u64::MAX,
        },
{
    if stone == 0 {
        Some((1, None))
    } else {
        let digits = digits_of(stone);
        if digits % 2 == 0 {
            let half = power_of_ten(digits / 2);
            Some((stone / half, Some(stone % half)))
        } else {
            match stone.checked_mul(2024) {
                Some(more) => Some((more, None)),
                None => None,
            }
        }
    }
}

/// What a blink makes of the first `n` stones, in order.
pub open spec fn blinked_all(stones: Seq<u64>, n: int) -> Seq<nat>
    decreases n,
{
    if n <= 0 {
        Seq::empty()
    } else {
        let before = blinked_all(stones, n - 1);
        match blinked(stones[n - 1] as nat).1 {
            Some(right) => before.push(blinked(stones[n - 1] as nat).0).push(right),
            None => before.push(blinked(stones[n - 1] as nat).0),
        }
    }
}

/// A blink makes of one of the stones a number that does not fit 64 bits.
pub open spec fn breaks_at(stones: Seq<u64>) -> bool {
    exists|i: int| 0 <= i < stones.len() && blinked(#[trigger] stones[i] as nat).0 > u64::MAX
}

/// stones evolution after a single blink; `None` where a number does not fit 64
/// bits.
pub fn blink_all(stones: &Stones) -> (r: Option<Stones>)
    ensures
        match r {
            Some(later) => naturals(later@) == blinked_all(stones@, stones@.len() as int),
            None => breaks_at(stones@),
        },
{
    let mut result: Stones = Vec::new();
    let mut i: usize = 0;
    assert(naturals(result@) =~= blinked_all(stones@, 0));
    while i < stones.len()
        invariant
            i <= stones@.len(),
            naturals(result@) == blinked_all(stones@, i as int),
        decreases stones@.len() - i,
    {
        let ghost before = naturals(result@);
        match blink_once(stones[i]) {
            Some((left, maybe_right)) => {
                result.push(left);
                if let Some(right) = maybe_right {
                    result.push(right);
                    assert(naturals(result@) =~= before.push(left as nat).push(right as nat));
                } else {
                    assert(naturals(result@) =~= before.push(left as nat));
                }
            },
            None => {
                return None;
            },
        }
        i += 1;
    }
    Some(result)
}

/// The stones after some blinks.
pub open spec fn after_blinks(stones: Seq<u64>, blinks: nat, later: Seq<u64>) -> bool
    decreases blinks,
{
    if blinks == 0 {
        later == stones
    } else {
        exists|between: Seq<u64>|
            after_blinks(stones, (blinks - 1) as nat, between) && naturals(later)
                == #[trigger] blinked_all(between, between.len() as int)
    }
}

/// `r` is the number of stones after the blinks; or it is `None`, and one of
/// the blinks makes a number that does not fit 64 bits.
pub open spec fn counts(stones: Seq<u64>, blinks: nat, r: Option<usize>) -> bool {
    match r {
        Some(count) => exists|later: Seq<u64>|
            #[trigger] after_blinks(stones, blinks, later) && later.len() == count,
        None => exists|k: nat, between: Seq<u64>|
            k < blinks && #[trigger] after_blinks(stones, k, between) && breaks_at(between),
    }
}

/// The number of stones after some blinks, counted by making them; `None` where
/// a number does not fit 64 bits.
pub fn count_by_blinking(stones: &Stones, blinks_times: usize) -> (r: Option<usize>)
    ensures
        counts(stones@, blinks_times as nat, r),
{
    let mut v: Stones = Vec::new();
    let mut k: usize = 0;
    while k < stones.len()
        invariant
            k <= stones@.len(),
            v@ == stones@.take(k as int),
        decreases stones@.len() - k,
    {
        v.push(stones[k]);
        k += 1;
    }
    assert(v@ =~= stones@);
    let mut i: usize = 0;
    assert(after_blinks(stones@, 0, v@));
    while i < blinks_times
        invariant
            i <= blinks_times,
            after_blinks(stones@, i as nat, v@),
        decreases blinks_times - i,
    {
        let ghost between = v@;
        v = match blink_all(&v) {
            Some(next) => next,
            None => {
                assert(after_blinks(stones@, i as nat, between) && breaks_at(between));
                return None;
            },
        };
        assert(after_blinks(stones@, ((i + 1) - 1) as nat, between));
        assert(after_blinks(stones@, (i + 1) as nat, v@));
        i += 1;
    }
    Some(v.len())
}

pub fn solve_part1(input: &str, blinks_times: usize) -> (r: Option<usize>)
    requires
        well_formed(input@),
    ensures
        counts(stones_of(input@), blinks_times as nat, r),
{
    let stones = prepare(input);
    count_by_blinking(&stones, blinks_times)
}

/// The key of the memory for a stone and a number of blinks.
pub open spec fn memo_key(stone: u64, blinks: usize) -> u128 {
    (stone as u128 * 0x1_0000_0000_0000_0000 + (blinks as u128 % 0x1_0000_0000_0000_0000)) as u128
}

/// Every number that the blinks make of the stone fits 64 bits.
pub open spec fn fits(stone: nat, blinks: nat) -> bool
    decreases blinks,
{
    if blinks == 0 {
        true
    } else {
        &&& blinked(stone).0 <= u64::MAX
        &&& fits(blinked(stone).0, (blinks - 1) as nat)
        &&& match blinked(stone).1 {
            Some(right) => fits(right, (blinks - 1) as nat),
            None => true,
        }
    }
}

/// What the memory holds is right: the number of stones that the blinks make of
/// the stone, all of which fit 64 bits.
pub open spec fn remembers(memo: Map<u128, u64>) -> bool {
    forall|stone: u64, blinks: usize| #[trigger]
        memo.contains_key(memo_key(stone, blinks)) ==> memo[memo_key(stone, blinks)] == stones_after(
            stone as nat,
            blinks as nat,
        ) && fits(stone as nat, blinks as nat)
}

/// `r` is the number of stones that the blinks make of the stone; or it is
/// `None`, and that number or one on a stone does not fit 64 bits.
pub open spec fn counted(stone: nat, blinks: nat, r: Option<u64>) -> bool {
    match r {
        Some(count) => count == stones_after(stone, blinks) && fits(stone, blinks),
        None => !fits(stone, blinks) || stones_after(stone, blinks) > u64::MAX,
    }
}

/// Two keys of the memory that are the same are for the same stone and the same
/// number of blinks.
proof fn lemma_memo_key(a: u64, x: usize, b: u64, y: usize)
    requires
        memo_key(a, x) == memo_key(b, y),
    ensures
        a == b,
        x == y,
{
    assert(usize::MAX <= u64::MAX);
}

/// Recursive count the number of stones after remaining number of blinks using memoization.
/// `None` where a number does not fit 64 bits.
pub fn fast_blink_all(memo: &mut HashMap<u128, u64>, stone: u64, remaining_blinks: usize) -> (r:
    Option<u64>)
    requires
        remembers(old(memo)@),
    ensures
        remembers(final(memo)@),
        counted(stone as nat, remaining_blinks as nat, r),
    decreases remaining_blinks,
{
    if remaining_blinks == 0 {
        return Some(1);
    }
    let key = (stone as u128) * 0x1_0000_0000_0000_0000 + (remaining_blinks as u128);
    assert(key == memo_key(stone, remaining_blinks)) by {
        assert(usize::MAX <= u64::MAX);
    }
    if let Some(count) = memo.get(&key) {
        // memoized
        return Some(*count);
    }
    // compute and memoize one blink
    let (left, maybe_right) = match blink_once(stone) {
        Some(both) => both,
        None => {
            return None;
        },
    };
    let first = match fast_blink_all(memo, left, remaining_blinks - 1) {
        Some(first) => first,
        None => {
            return None;
        },
    };
    let second = match maybe_right {
        Some(right) => match fast_blink_all(memo, right, remaining_blinks - 1) {
            Some(second) => second,
            None => {
                return None;
            },
        },
        None => 0,
    };
    let count = match first.checked_add(second) {
        Some(count) => count,
        None => {
            return None;
        },
    };
    let ghost before = memo@;
    memo.insert(key, count);
    proof {
        assert forall|s: u64, b: usize| #[trigger]
            memo@.contains_key(memo_key(s, b)) implies memo@[memo_key(s, b)] == stones_after(
            s as nat,
            b as nat,
        ) && fits(s as nat, b as nat) by {
            if memo_key(s, b) == key {
                lemma_memo_key(s, b, stone, remaining_blinks);
            } else {
                assert(before.contains_key(memo_key(s, b)));
            }
        }
    }
    Some(count)
}

/// The number of stones that the blinks make of the stones.
pub open spec fn part2(stones: Seq<u64>, blinks: nat) -> int {
    sum(stones.len() as int, |i: int| stones_after(stones[i] as nat, blinks) as int)
}

/// `r` is the number of stones that the blinks make of the stones; or it is
/// `None`, and that number or one on a stone does not fit 64 bits.
pub open spec fn answers2(stones: Seq<u64>, blinks: nat, r: Option<u64>) -> bool {
    match r {
        Some(count) => count == part2(stones, blinks),
        None => part2(stones, blinks) > u64::MAX || exists|i: int|
            0 <= i < stones.len() && !fits(#[trigger] stones[i] as nat, blinks),
    }
}

/// The number of stones that the blinks make of the stones, counted without
/// making them; `None` where a number does not fit 64 bits.
pub fn count_by_memory(stones: &Stones, blinks_times: usize) -> (r: Option<u64>)
    ensures
        answers2(stones@, blinks_times as nat, r),
{
    let mut memo: HashMap<u128, u64> = HashMap::new();
    let ghost term = |i: int| stones_after(stones@[i] as nat, blinks_times as nat) as int;
    let mut total: u64 = 0;
    let mut i: usize = 0;
    while i < stones.len()
        invariant
            i <= stones@.len(),
            remembers(memo@),
            term == |i: int| stones_after(stones@[i] as nat, blinks_times as nat) as int,
            total == sum(i as int, term),
        decreases stones@.len() - i,
    {
        let more = match fast_blink_all(&mut memo, stones[i], blinks_times) {
            Some(count) => total.checked_add(count),
            None => None,
        };
        proof {
            assert(sum(i + 1, term) == sum(i as int, term) + term(i as int));
            lemma_sum_rises(i + 1, stones@.len() as int, term);
        }
        total = match more {
            Some(sum) => sum,
            None => {
                return None;
            },
        };
        i += 1;
    }
    Some(total)
}

pub fn solve_part2(input: &str, blinks_times: usize) -> (r: Option<u64>)
    requires
        well_formed(input@),
    ensures
        answers2(stones_of(input@), blinks_times as nat, r),
{
    let stones = prepare(input);
    count_by_memory(&stones, blinks_times)
}

/// Both answers, after 25 and after 75 blinks, or `None` where a number does
/// not fit 64 bits.
pub fn solve(input: String) -> (r: Option<SolutionPair>)
    requires
        well_formed(input@),
    ensures
        match r {
            Some((Solution::Usize(first), Solution::U64(second))) => {
                &&& counts(stones_of(input@), 25, Some(first))
                &&& answers2(stones_of(input@), 75, Some(second))
            },
            Some(_) => false,
            None => counts(stones_of(input@), 25, None) || answers2(stones_of(input@), 75, None),
        },
{
    let sol1 = match solve_part1(input.as_str(), 25) {
        Some(count) => count,
        None => {
            return None;
        },
    };
    let sol2 = match solve_part2(input.as_str(), 75) {
        Some(count) => count,
        None => {
            return None;
        },
    };
    Some((Solution::Usize(sol1), Solution::U64(sol2)))
}

} // verus!
