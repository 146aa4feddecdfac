use crate::etc::count::{count, lemma_sum_rises, sum};
use crate::etc::solution::{Solution, SolutionPair};
use crate::etc::text::{
    chars, piece_end, pieces, rows_view, slice, split_on, split_words, words,
};
use vstd::prelude::*;

verus! {

pub type Pattern = Vec<char>;

pub type Design = Vec<char>;

pub type Patterns = Vec<Pattern>;

pub type Designs = Vec<Design>;

/// The pattern is not empty and stands in the design from `from` on.
pub open spec fn matches_at(pattern: Seq<char>, design: Seq<char>, from: int) -> bool {
    &&& pattern.len() > 0
    &&& 0 <= from
    &&& from + pattern.len() <= design.len()
    &&& design.subrange(from, from + pattern.len()) == pattern
}

/// The number of ways to make the design from `from` on out of patterns, one
/// after the other.
pub open spec fn ways(patterns: Seq<Seq<char>>, design: Seq<char>, from: int) -> nat
    decreases design.len() - from, patterns.len() + 1,
{
    if from >= design.len() || from < 0 {
        1
    } else {
        ways_with(patterns, design, from, patterns.len() as int)
    }
}

/// The number of ways to make the design from `from` on out of patterns, the
/// first of them being one of the first `k`.
pub open spec fn ways_with(patterns: Seq<Seq<char>>, design: Seq<char>, from: int, k: int) -> nat
    decreases design.len() - from, k,
{
    if k <= 0 || k > patterns.len() || from >= design.len() || from < 0 {
        0
    } else {
        ways_with(patterns, design, from, k - 1) + if matches_at(patterns[k - 1], design, from) {
            ways(patterns, design, from + patterns[k - 1].len())
        } else {
            0
        }
    }
}

/// With more patterns to start with there are not fewer ways.
pub proof fn lemma_ways_with_rises(
    patterns: Seq<Seq<char>>,
    design: Seq<char>,
    from: int,
    k: int,
    m: int,
)
    requires
        0 <= k <= m <= patterns.len(),
    ensures
        ways_with(patterns, design, from, k) <= ways_with(patterns, design, from, m),
    decreases m - k,
{
    if k < m {
        lemma_ways_with_rises(patterns, design, from, k, m - 1);
    }
}

/// Whether the pattern is not empty and stands in the design from `from` on.
pub fn matches(pattern: &Pattern, design: &Design, from: usize) -> (r: bool)
    ensures
        r == matches_at(pattern@, design@, from as int),
{
    let n = pattern.len();
    if n == 0 || from > design.len() || n > design.len() - from {
        return false;
    }
    let total: usize = design.len();
    let mut i: usize = 0;
    while i < n
        invariant
            i <= n,
            n == pattern@.len(),
            from + n <= design@.len(),
            total == design@.len(),
            forall|k: int| 0 <= k < i ==> design@[from + k] == pattern@[k],
        decreases n - i,
    {
        if design[from + i] != pattern[i] {
            assert(design@.subrange(from as int, from + n)[i as int] != pattern@[i as int]);
            return false;
        }
        i += 1;
    }
    assert(design@.subrange(from as int, from + n) =~= pattern@);
    true
}

/// Whether the design can be made out of patterns.
pub fn is_possible(patterns: &Patterns, design: &Design) -> (r: bool)
    ensures
        r == (ways(rows_view(patterns@), design@, 0) > 0),
{
    let ghost ps = rows_view(patterns@);
    let n = design.len();
    let mut can: Vec<bool> = Vec::new();
    let mut i: usize = 0;
    while i < n
        invariant
            i <= n,
            n == design@.len(),
            can@.len() == i,
        decreases n - i,
    {
        can.push(false);
        i += 1;
    }
    can.push(true);
    let mut from = n;
    while from > 0
        invariant
            from <= n,
            n == design@.len(),
            ps == rows_view(patterns@),
            can@.len() == n + 1,
            forall|i: int| from <= i <= n ==> #[trigger] can@[i] == (ways(ps, design@, i) > 0),
        decreases from,
    {
        from -= 1;
        let mut found = false;
        let mut k: usize = 0;
        while k < patterns.len()
            invariant
                k <= patterns@.len(),
                from < n,
                n == design@.len(),
                ps == rows_view(patterns@),
                can@.len() == n + 1,
                forall|i: int| from < i <= n ==> #[trigger] can@[i] == (ways(ps, design@, i) > 0),
                found == (ways_with(ps, design@, from as int, k as int) > 0),
            decreases patterns@.len() - k,
        {
            let pattern = &patterns[k];
            assert(ps[k as int] == pattern@);
            if matches(pattern, design, from) && can[from + pattern.len()] {
                found = true;
            }
            k += 1;
        }
        can[from] = found;
    }
    can[0]
}

/// The number of designs that can be made out of patterns.
pub open spec fn part1(patterns: Seq<Seq<char>>, designs: Seq<Seq<char>>) -> int {
    count(designs.len() as int, |i: int| ways(patterns, designs[i], 0) > 0)
}

/// The number of designs that can be made out of patterns.
pub fn count_possible(patterns: &Patterns, designs: &Designs) -> (r: usize)
    ensures
        r == part1(rows_view(patterns@), rows_view(designs@)),
{
    let ghost ps = rows_view(patterns@);
    let ghost ds = rows_view(designs@);
    let ghost possible = |i: int| ways(ps, ds[i], 0) > 0;
    let mut total: usize = 0;
    let mut i: usize = 0;
    while i < designs.len()
        invariant
            i <= designs@.len(),
            ps == rows_view(patterns@),
            ds == rows_view(designs@),
            possible == |i: int| ways(ps, ds[i], 0) > 0,
            total == count(i as int, possible),
            total <= i,
        decreases designs@.len() - i,
    {
        assert(ds[i as int] == designs@[i as int]@);
        if is_possible(patterns, &designs[i]) {
            total += 1;
        }
        i += 1;
    }
    total
}

/// Every number of ways to make the design from some place on fits 64 bits.
pub open spec fn countable(patterns: Seq<Seq<char>>, design: Seq<char>) -> bool {
    forall|from: int| 0 <= from <= design.len() ==> #[trigger] ways(patterns, design, from) <= u64::MAX
}

/// The number of ways to make the design out of patterns, or `None` where a
/// number of ways does not fit 64 bits.
pub fn count_ways(patterns: &Patterns, design: &Design) -> (r: Option<u64>)
    ensures
        match r {
            Some(n) => n == ways(rows_view(patterns@), design@, 0),
            None => !countable(rows_view(patterns@), design@),
        },
{
    let ghost ps = rows_view(patterns@);
    let n = design.len();
    let mut table: Vec<u64> = Vec::new();
    let mut i: usize = 0;
    while i < n
        invariant
            i <= n,
            n == design@.len(),
            table@.len() == i,
        decreases n - i,
    {
        table.push(0);
        i += 1;
    }
    table.push(1);
    let mut from = n;
    while from > 0
        invariant
            from <= n,
            n == design@.len(),
            ps == rows_view(patterns@),
            table@.len() == n + 1,
            forall|i: int| from <= i <= n ==> #[trigger] table@[i] == ways(ps, design@, i),
        decreases from,
    {
        from -= 1;
        let mut found: u64 = 0;
        let mut k: usize = 0;
        while k < patterns.len()
            invariant
                k <= patterns@.len(),
                from < n,
                n == design@.len(),
                ps == rows_view(patterns@),
                table@.len() == n + 1,
                forall|i: int| from < i <= n ==> #[trigger] table@[i] == ways(ps, design@, i),
                found == ways_with(ps, design@, from as int, k as int),
            decreases patterns@.len() - k,
        {
            let pattern = &patterns[k];
            assert(ps[k as int] == pattern@);
            if matches(pattern, design, from) {
                found = match found.checked_add(table[from + pattern.len()]) {
                    Some(more) => more,
                    None => {
                        proof {
                            lemma_ways_with_rises(
                                ps,
                                design@,
                                from as int,
                                k + 1,
                                patterns@.len() as int,
                            );
                            assert(ways(ps, design@, from as int) > u64::MAX);
                        }
                        return None;
                    },
                };
            }
            k += 1;
        }
        table[from] = found;
    }
    Some(table[0])
}

/// The sum of the numbers of ways to make the designs out of patterns.
pub open spec fn part2(patterns: Seq<Seq<char>>, designs: Seq<Seq<char>>) -> int {
    sum(designs.len() as int, |i: int| ways(patterns, designs[i], 0) as int)
}

/// Every number of ways fits 64 bits, and so does their sum.
pub open spec fn all_countable(patterns: Seq<Seq<char>>, designs: Seq<Seq<char>>) -> bool {
    &&& forall|i: int| 0 <= i < designs.len() ==> countable(patterns, #[trigger] designs[i])
    &&& part2(patterns, designs) <= u64::MAX
}

/// The sum of the numbers of ways to make the designs out of patterns, or `None`
/// where a number does not fit 64 bits.
pub fn count_all_ways(patterns: &Patterns, designs: &Designs) -> (r: Option<u64>)
    ensures
        match r {
            Some(n) => n == part2(rows_view(patterns@), rows_view(designs@)),
            None => !all_countable(rows_view(patterns@), rows_view(designs@)),
        },
{
    let ghost ps = rows_view(patterns@);
    let ghost ds = rows_view(designs@);
    let ghost term = |i: int| ways(ps, ds[i], 0) as int;
    let mut total: u64 = 0;
    let mut i: usize = 0;
    while i < designs.len()
        invariant
            i <= designs@.len(),
            ps == rows_view(patterns@),
            ds == rows_view(designs@),
            term == |i: int| ways(ps, ds[i], 0) as int,
            total == sum(i as int, term),
        decreases designs@.len() - i,
    {
        assert(ds[i as int] == designs@[i as int]@);
        let found = match count_ways(patterns, &designs[i]) {
            Some(found) => found,
            None => {
                return None;
            },
        };
        total = match total.checked_add(found) {
            Some(more) => more,
            None => {
                proof {
                    lemma_sum_rises(i + 1, designs@.len() as int, term);
                }
                return None;
            },
        };
        i += 1;
    }
    Some(total)
}

/// The text up to the first line feed.
pub open spec fn first_line(input: Seq<char>) -> Seq<char> {
    input.subrange(0, piece_end(input, '\n', 0))
}

/// The text after the first line feed.
pub open spec fn other_lines(input: Seq<char>) -> Seq<char> {
    if piece_end(input, '\n', 0) < input.len() {
        input.subrange(piece_end(input, '\n', 0) + 1, input.len() as int)
    } else {
        Seq::empty()
    }
}

/// The first line is made of words with commas between them.
pub open spec fn well_formed(input: Seq<char>) -> bool {
    forall|i: int|
        0 <= i < pieces(first_line(input), ',').len() ==> words(
            #[trigger] pieces(first_line(input), ',')[i],
        ).len() == 1
}

/// The patterns: the words of the first line.
pub open spec fn patterns_of(input: Seq<char>) -> Seq<Seq<char>> {
    Seq::new(
        pieces(first_line(input), ',').len(),
        |i: int| words(pieces(first_line(input), ',')[i])[0],
    )
}

/// The designs: the words of the other lines.
pub open spec fn designs_of(input: Seq<char>) -> Seq<Seq<char>> {
    words(other_lines(input))
}

/// Read the patterns and the designs, or `None` where the text is not well
/// formed.
pub fn parse(input: &str) -> (r: Option<(Patterns, Designs)>)
    ensures
        match r {
            Some((patterns, designs)) => {
                &&& well_formed(input@)
                &&& rows_view(patterns@) == patterns_of(input@)
                &&& rows_view(designs@) == designs_of(input@)
            },
            None => !well_formed(input@),
        },
{
    let text = chars(input);
    let mut end: usize = 0;
    while end < text.len() && text[end] != '\n'
        invariant
            end <= text@.len(),
            piece_end(text@, '\n', 0) == piece_end(text@, '\n', end as int),
        decreases text@.len() - end,
    {
        end += 1;
    }
    let first = slice(&text, 0, end);
    let rest = if end < text.len() {
        slice(&text, end + 1, text.len())
    } else {
        Vec::new()
    };
    assert(first@ == first_line(input@));
    assert(rest@ =~= other_lines(input@));
    let parts = split_on(&first, ',');
    let ghost all = pieces(first_line(input@), ',');
    let mut patterns: Patterns = Vec::new();
    let mut i: usize = 0;
    while i < parts.len()
        invariant
            i <= parts@.len(),
            all == rows_view(parts@),
            all == pieces(first_line(input@), ','),
            patterns@.len() == i,
            forall|k: int|
                0 <= k < i ==> words(#[trigger] all[k]).len() == 1 && words(all[k])[0]
                    == patterns@[k]@,
        decreases parts@.len() - i,
    {
        assert(all[i as int] == parts@[i as int]@);
        let mut found = split_words(&parts[i]);
        if found.len() != 1 {
            return None;
        }
        let word = found.remove(0);
        patterns.push(word);
        i += 1;
    }
    let designs = split_words(&rest);
    assert(rows_view(patterns@) =~= patterns_of(input@));
    Some((patterns, designs))
}

/// Read the patterns and the designs.
pub fn prepare(input: &str) -> (r: (Patterns, Designs))
    requires
        well_formed(input@),
    ensures
        rows_view(r.0@) == patterns_of(input@),
        rows_view(r.1@) == designs_of(input@),
{
    match parse(input) {
        Some(r) => r,
        None => (Vec::new(), Vec::new()),
    }
}

pub fn solve_part1(input: &str) -> (r: usize)
    requires
        well_formed(input@),
    ensures
        r == part1(patterns_of(input@), designs_of(input@)),
{
    let (patterns, designs) = prepare(input);
    count_possible(&patterns, &designs)
}

pub fn solve_part2(input: &str) -> (r: Option<u64>)
    requires
        well_formed(input@),
    ensures
        match r {
            Some(n) => n == part2(patterns_of(input@), designs_of(input@)),
            None => !all_countable(patterns_of(input@), designs_of(input@)),
        },
{
    let (patterns, designs) = prepare(input);
    count_all_ways(&patterns, &designs)
}

/// Both answers, or `None` where a number of ways does not fit 64 bits.
pub fn solve(input: String) -> (r: Option<SolutionPair>)
    requires
        well_formed(input@),
    ensures
        match r {
            Some((Solution::Usize(a), Solution::U64(b))) => {
                &&& a == part1(patterns_of(input@), designs_of(input@))
                &&& b == part2(patterns_of(input@), designs_of(input@))
            },
            Some(_) => false,
            None => !all_countable(patterns_of(input@), designs_of(input@)),
        },
{
    let sol1 = solve_part1(input.as_str());
    match solve_part2(input.as_str()) {
        Some(sol2) => Some((Solution::Usize(sol1), Solution::U64(sol2))),
        None => None,
    }
}

} // verus!
