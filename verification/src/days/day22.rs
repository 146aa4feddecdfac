use crate::etc::count::sum;
use crate::etc::number::{all_numbers, naturals, numbers_of, parse_all};
use crate::etc::solution::{Solution, SolutionPair};
use crate::etc::text::{chars, split_words, words};
use vstd::prelude::*;

verus! {

/// The words are numbers of at most 32 bits, and not too many.
pub open spec fn well_formed(input: Seq<char>) -> bool {
    all_numbers(words(input), u32::MAX as nat) && words(input).len() <= 0xFFFF_FFFF
}

/// Read the secrets, or `None` where the text is not well formed.
pub fn parse(input: &str) -> (r: Option<Vec<u32>>)
    ensures
        match r {
            Some(secrets) => well_formed(input@) && secrets@.len() == words(input@).len() && forall|
                i: int,
            |
                0 <= i < secrets@.len() ==> #[trigger] secrets@[i] == numbers_of(words(input@))[i],
            None => !well_formed(input@),
        },
{
    let content = chars(input);
    let all = split_words(&content);
    if all.len() > 0xFFFF_FFFF {
        return None;
    }
    match parse_all(&all, 0xFFFF_FFFF) {
        Some(values) => {
            let mut secrets: Vec<u32> = Vec::new();
            let mut i: usize = 0;
            while i < values.len()
                invariant
                    i <= values@.len(),
                    secrets@.len() == i,
                    forall|k: int| 0 <= k < values@.len() ==> #[trigger] values@[k] <= 0xFFFF_FFFF,
                    forall|k: int| 0 <= k < i ==> #[trigger] secrets@[k] == values@[k],
                decreases values@.len() - i,
            {
                secrets.push(values[i] as u32);
                i += 1;
            }
            proof {
                assert(naturals(values@).len() == values@.len());
                assert(numbers_of(words(input@)).len() == words(input@).len());
                assert forall|i: int| 0 <= i < secrets@.len() implies #[trigger] secrets@[i]
                    == numbers_of(words(input@))[i] by {
                    assert(naturals(values@)[i] == values@[i]);
                }
            }
            Some(secrets)
        },
        None => None,
    }
}

/// Read the secrets.
pub fn prepare(input: &str) -> (r: Vec<u32>)
    requires
        well_formed(input@),
    ensures
        r@.len() == words(input@).len(),
        forall|i: int| 0 <= i < r@.len() ==> #[trigger] r@[i] == numbers_of(words(input@))[i],
{
    match parse(input) {
        Some(secrets) => secrets,
        None => Vec::new(),
    }
}

/// The secret that follows a secret: three times over, the secret is shifted,
/// mixed into itself with `xor`, and cut down to 24 bits.
pub open spec fn evolve(secret: u64) -> u64 {
    let a = ((secret << 6) ^ secret) & 0xffffff;
    let b = ((a >> 5) ^ a) & 0xffffff;
    ((b << 11) ^ b) & 0xffffff
}

pub fn next_secret(secret: u32) -> (r: u32)
    ensures
        r == evolve(secret as u64),
        r <= 0xffffff,
{
    let s = secret as u64;
    let a = ((s << 6) ^ s) & 0xffffff;
    let b = ((a >> 5) ^ a) & 0xffffff;
    let c = ((b << 11) ^ b) & 0xffffff;
    assert(c <= 0xffffff) by (bit_vector)
        requires
            c == ((b << 11) ^ b) & 0xffffff,
    ;
    c as u32
}

/// The secret after `n` more secrets.
pub open spec fn nth_secret(secret: u32, n: nat) -> u32
    decreases n,
{
    if n == 0 {
        secret
    } else {
        evolve(nth_secret(secret, (n - 1) as nat) as u64) as u32
    }
}

/// The secret after `n` more secrets.
pub fn advance(secret: u32, n: u32) -> (r: u32)
    ensures
        r == nth_secret(secret, n as nat),
        n > 0 ==> r <= 0xffffff,
{
    let mut now = secret;
    let mut i: u32 = 0;
    while i < n
        invariant
            i <= n,
            now == nth_secret(secret, i as nat),
            i > 0 ==> now <= 0xffffff,
        decreases n - i,
    {
        now = next_secret(now);
        i += 1;
    }
    now
}

/// The sum of the secrets that follow each secret after two thousand steps.
pub open spec fn part1(secrets: Seq<u32>) -> int {
    sum(secrets.len() as int, |i: int| nth_secret(secrets[i], 2000) as int)
}

/// The sum of the secrets that follow each secret after two thousand steps.
pub fn sum_of_secrets(secrets: &Vec<u32>) -> (r: u64)
    requires
        secrets@.len() <= 0xFFFF_FFFF,
    ensures
        r == part1(secrets@),
{
    let ghost term = |i: int| nth_secret(secrets@[i], 2000) as int;
    let mut total: u64 = 0;
    let mut i: usize = 0;
    while i < secrets.len()
        invariant
            i <= secrets@.len(),
            secrets@.len() <= 0xFFFF_FFFF,
            term == |i: int| nth_secret(secrets@[i], 2000) as int,
            total == sum(i as int, term),
            total <= i * 0xffffff,
        decreases secrets@.len() - i,
    {
        let last = advance(secrets[i], 2000);
        total += last as u64;
        i += 1;
    }
    total
}

pub fn solve_part1(input: &str) -> (r: u64)
    requires
        well_formed(input@),
    ensures
        r == part1(prepared(input@)),
{
    let secrets = prepare(input);
    assert(secrets@ =~= prepared(input@));
    sum_of_secrets(&secrets)
}

/// The secrets that a text writes.
pub open spec fn prepared(input: Seq<char>) -> Seq<u32> {
    Seq::new(words(input).len(), |i: int| numbers_of(words(input))[i] as u32)
}


/// The price that a buyer offers after `n` secrets: the last digit of the
/// secret.
pub open spec fn price(secret: u32, n: nat) -> int {
    (nth_secret(secret, n) % 10) as int
}

/// The number that stands for the four changes of price up to the one at `n`.
pub open spec fn signal_at(secret: u32, n: nat) -> int {
    (((price(secret, (n - 3) as nat) - price(secret, (n - 4) as nat) + 9) * 19 + (price(
        secret,
        (n - 2) as nat,
    ) - price(secret, (n - 3) as nat) + 9)) * 19 + (price(secret, (n - 1) as nat) - price(
        secret,
        (n - 2) as nat,
    ) + 9)) * 19 + (price(secret, n) - price(secret, (n - 1) as nat) + 9)
}

/// The number of signals.
pub open spec fn signals() -> int {
    130321
}

/// The price at which a buyer sells on a signal: the one at the first time,
/// among the first `n` changes, that the signal is seen.
pub open spec fn sold(secret: u32, signal: int, n: nat) -> Option<int>
    decreases n,
{
    if n < 4 {
        None
    } else {
        match sold(secret, signal, (n - 1) as nat) {
            Some(p) => Some(p),
            None => if signal_at(secret, n) == signal {
                Some(price(secret, n))
            } else {
                None
            },
        }
    }
}

/// The bananas that a buyer gives on a signal, within two thousand changes.
pub open spec fn gain(secret: u32, signal: int) -> int {
    match sold(secret, signal, 2000) {
        Some(p) => p,
        None => 0,
    }
}

/// The bananas that the buyers give on a signal.
pub open spec fn bananas(secrets: Seq<u32>, signal: int) -> int {
    sum(secrets.len() as int, |b: int| gain(secrets[b], signal))
}

/// `most` is the most bananas that a signal gets.
pub open spec fn is_best(secrets: Seq<u32>, most: int) -> bool {
    &&& exists|signal: int| 0 <= signal < signals() && #[trigger] bananas(secrets, signal) == most
    &&& forall|signal: int| 0 <= signal < signals() ==> #[trigger] bananas(secrets, signal) <= most
}

/// The number that stands for four changes of price, given the five prices.
fn signal_of(q0: u32, q1: u32, q2: u32, q3: u32, q4: u32) -> (r: usize)
    requires
        q0 <= 9 && q1 <= 9 && q2 <= 9 && q3 <= 9 && q4 <= 9,
    ensures
        r == (((q1 - q0 + 9) * 19 + (q2 - q1 + 9)) * 19 + (q3 - q2 + 9)) * 19 + (q4 - q3 + 9),
        r < signals(),
{
    let a = (q1 + 9 - q0) as usize;
    let b = (q2 + 9 - q1) as usize;
    let c = (q3 + 9 - q2) as usize;
    let d = (q4 + 9 - q3) as usize;
    ((a * 19 + b) * 19 + c) * 19 + d
}

/// A buyer sells: each signal gets the price at which the buyer sells on it.
/// The marks of the signals are set to `stamp` for the signals that the buyer
/// sells on.
pub fn sell(secret: u32, table: &mut Vec<u64>, seen: &mut Vec<usize>, stamp: usize)
    requires
        old(table)@.len() == signals(),
        old(seen)@.len() == signals(),
        forall|k: int| 0 <= k < signals() ==> #[trigger] old(seen)@[k] < stamp,
        forall|k: int| 0 <= k < signals() ==> #[trigger] old(table)@[k] <= u64::MAX - 9,
    ensures
        final(table)@.len() == signals(),
        final(seen)@.len() == signals(),
        forall|k: int| 0 <= k < signals() ==> #[trigger] final(seen)@[k] <= stamp,
        forall|k: int|
            0 <= k < signals() ==> #[trigger] final(table)@[k] == old(table)@[k] + gain(secret, k),
        forall|k: int| 0 <= k < signals() ==> 0 <= #[trigger] gain(secret, k) <= 9,
{
    let ghost base = table@;
    let mut now = secret;
    let mut q0: u32 = 0;
    let mut q1: u32 = 0;
    let mut q2: u32 = 0;
    let mut q3: u32 = 0;
    let mut q4: u32 = secret % 10;
    let mut n: u32 = 0;
    while n < 2000
        invariant
            n <= 2000,
            base == old(table)@,
            table@.len() == signals(),
            seen@.len() == signals(),
            now == nth_secret(secret, n as nat),
            q4 == price(secret, n as nat),
            n >= 1 ==> q3 == price(secret, (n - 1) as nat),
            n >= 2 ==> q2 == price(secret, (n - 2) as nat),
            n >= 3 ==> q1 == price(secret, (n - 3) as nat),
            n >= 4 ==> q0 == price(secret, (n - 4) as nat),
            q0 <= 9 && q1 <= 9 && q2 <= 9 && q3 <= 9 && q4 <= 9,
            forall|k: int| 0 <= k < signals() ==> #[trigger] base[k] <= u64::MAX - 9,
            forall|k: int| 0 <= k < signals() ==> #[trigger] seen@[k] <= stamp,
            forall|k: int|
                0 <= k < signals() ==> (#[trigger] seen@[k] == stamp <==> sold(
                    secret,
                    k,
                    n as nat,
                ) is Some),
            forall|k: int|
                0 <= k < signals() ==> #[trigger] table@[k] == base[k] + match sold(
                    secret,
                    k,
                    n as nat,
                ) {
                    Some(p) => p,
                    None => 0,
                },
            forall|k: int|
                0 <= k < signals() ==> match #[trigger] sold(secret, k, n as nat) {
                    Some(p) => 0 <= p <= 9,
                    None => true,
                },
        decreases 2000 - n,
    {
        now = next_secret(now);
        n += 1;
        q0 = q1;
        q1 = q2;
        q2 = q3;
        q3 = q4;
        q4 = now % 10;
        let ghost marks = seen@;
        let ghost sums = table@;
        if n >= 4 {
            let signal = signal_of(q0, q1, q2, q3, q4);
            assert(signal == signal_at(secret, n as nat));
            if seen[signal] != stamp {
                seen[signal] = stamp;
                table[signal] = table[signal] + q4 as u64;
            }
        }
        proof {
            assert forall|k: int| 0 <= k < signals() implies (#[trigger] seen@[k] == stamp <==> sold(
                secret,
                k,
                n as nat,
            ) is Some) by {
                assert(marks[k] == stamp <==> sold(secret, k, (n - 1) as nat) is Some);
            }
            assert forall|k: int| 0 <= k < signals() implies #[trigger] table@[k] == base[k] + match sold(
                secret,
                k,
                n as nat,
            ) {
                Some(p) => p,
                None => 0,
            } by {
                assert(marks[k] == stamp <==> sold(secret, k, (n - 1) as nat) is Some);
                assert(sums[k] == base[k] + match sold(secret, k, (n - 1) as nat) {
                    Some(p) => p,
                    None => 0,
                });
            }
            assert forall|k: int| 0 <= k < signals() implies match #[trigger] sold(
                secret,
                k,
                n as nat,
            ) {
                Some(p) => 0 <= p <= 9,
                None => true,
            } by {
                match sold(secret, k, (n - 1) as nat) {
                    Some(p) => {},
                    None => {},
                }
            }
            assert forall|k: int| 0 <= k < signals() implies #[trigger] seen@[k] <= stamp by {
                assert(marks[k] <= stamp);
            }
        }
    }
    proof {
        assert forall|k: int| 0 <= k < signals() implies 0 <= #[trigger] gain(secret, k) <= 9 by {
            match sold(secret, k, 2000) {
                Some(p) => {},
                None => {},
            }
        }
    }
}

/// The most bananas that a signal gets.
pub fn most_bananas(secrets: &Vec<u32>) -> (r: u64)
    requires
        secrets@.len() <= 0xFFFF_FFFF,
    ensures
        is_best(secrets@, r as int),
{
    let mut table: Vec<u64> = Vec::new();
    let mut seen: Vec<usize> = Vec::new();
    let mut k: usize = 0;
    while k < 130321
        invariant
            k <= 130321,
            table@.len() == k,
            seen@.len() == k,
            forall|j: int| 0 <= j < k ==> #[trigger] table@[j] == 0,
            forall|j: int| 0 <= j < k ==> #[trigger] seen@[j] == 0,
        decreases 130321 - k,
    {
        table.push(0);
        seen.push(0);
        k += 1;
    }
    let mut b: usize = 0;
    while b < secrets.len()
        invariant
            b <= secrets@.len(),
            secrets@.len() <= 0xFFFF_FFFF,
            table@.len() == signals(),
            seen@.len() == signals(),
            forall|j: int| 0 <= j < signals() ==> #[trigger] seen@[j] <= b,
            forall|j: int| 0 <= j < signals() ==> #[trigger] table@[j] <= 9 * b,
            forall|j: int|
                0 <= j < signals() ==> #[trigger] table@[j] == sum(
                    b as int,
                    |x: int| gain(secrets@[x], j),
                ),
        decreases secrets@.len() - b,
    {
        let ghost before = table@;
        sell(secrets[b], &mut table, &mut seen, b + 1);
        proof {
            assert forall|j: int| 0 <= j < signals() implies #[trigger] table@[j] == sum(
                b + 1,
                |x: int| gain(secrets@[x], j),
            ) && table@[j] <= 9 * (b + 1) by {
                assert(before[j] == sum(b as int, |x: int| gain(secrets@[x], j)));
                assert(table@[j] == before[j] + gain(secrets@[b as int], j));
                assert(0 <= gain(secrets@[b as int], j) <= 9);
            }
        }
        b += 1;
    }
    let mut best: u64 = table[0];
    let ghost mut at: int = 0;
    let mut j: usize = 1;
    while j < 130321
        invariant
            1 <= j <= 130321,
            table@.len() == signals(),
            0 <= at < j,
            best == table@[at],
            forall|i: int| 0 <= i < j ==> #[trigger] table@[i] <= best,
        decreases 130321 - j,
    {
        if table[j] > best {
            best = table[j];
            proof {
                at = j as int;
            }
        }
        j += 1;
    }
    proof {
        assert(bananas(secrets@, at) == best);
        assert forall|signal: int| 0 <= signal < signals() implies #[trigger] bananas(
            secrets@,
            signal,
        ) <= best by {
            assert(table@[signal] <= best);
        }
    }
    best
}

pub fn solve_part2(input: &str) -> (r: u64)
    requires
        well_formed(input@),
    ensures
        is_best(prepared(input@), r as int),
{
    let secrets = prepare(input);
    assert(secrets@ =~= prepared(input@));
    most_bananas(&secrets)
}

pub fn solve(input: String) -> (r: SolutionPair)
    requires
        well_formed(input@),
    ensures
        r.0 == Solution::U64(part1(prepared(input@)) as u64),
        match r.1 {
            Solution::U64(most) => is_best(prepared(input@), most as int),
            _ => false,
        },
{
    let sol1 = solve_part1(input.as_str());
    let sol2 = solve_part2(input.as_str());
    (Solution::U64(sol1), Solution::U64(sol2))
}

} // verus!
