use vstd::prelude::*;

verus! {

/// The characters that separate words: space, tab, line feed, form feed and
/// carriage return.
pub open spec fn is_space(c: char) -> bool {
    c == ' ' || c == '\t' || c == '\n' || c == '\x0C' || c == '\r'
}

/// The first place at or after `from` that holds no space, or the length.
pub open spec fn skip_spaces(s: Seq<char>, from: int) -> int
    decreases s.len() - from,
{
    if 0 <= from < s.len() && is_space(s[from]) {
        skip_spaces(s, from + 1)
    } else {
        from
    }
}

/// The first place at or after `from` that holds a space, or the length.
pub open spec fn word_end(s: Seq<char>, from: int) -> int
    decreases s.len() - from,
{
    if 0 <= from < s.len() && !is_space(s[from]) {
        word_end(s, from + 1)
    } else {
        from
    }
}

/// The words of `s` that start at or after `from`: the maximal runs of
/// characters that are not spaces, in order.
pub open spec fn words_from(s: Seq<char>, from: int) -> Seq<Seq<char>>
    decreases s.len() - from,
{
    let start = skip_spaces(s, from);
    let end = word_end(s, start);
    if 0 <= from <= start < end <= s.len() {
        seq![s.subrange(start, end)] + words_from(s, end)
    } else {
        Seq::empty()
    }
}

/// The words of `s`.
pub open spec fn words(s: Seq<char>) -> Seq<Seq<char>> {
    words_from(s, 0)
}

/// What a vector of vectors holds, as a sequence of sequences.
pub open spec fn rows_view<T>(rows: Seq<Vec<T>>) -> Seq<Seq<T>> {
    Seq::new(rows.len(), |i: int| rows[i]@)
}

pub proof fn lemma_skip_spaces_bounds(s: Seq<char>, from: int)
    requires
        0 <= from <= s.len(),
    ensures
        from <= skip_spaces(s, from) <= s.len(),
        skip_spaces(s, from) < s.len() ==> !is_space(s[skip_spaces(s, from)]),
    decreases s.len() - from,
{
    if from < s.len() && is_space(s[from]) {
        lemma_skip_spaces_bounds(s, from + 1);
    }
}

pub proof fn lemma_word_end_bounds(s: Seq<char>, from: int)
    requires
        0 <= from <= s.len(),
    ensures
        from <= word_end(s, from) <= s.len(),
        from < s.len() && !is_space(s[from]) ==> from < word_end(s, from),
        forall|k: int| from <= k < word_end(s, from) ==> !is_space(#[trigger] s[k]),
    decreases s.len() - from,
{
    if from < s.len() && !is_space(s[from]) {
        lemma_word_end_bounds(s, from + 1);
    }
}

/// Every word is a run of at least one character, none of them a space.
pub proof fn lemma_words_hold_no_space(s: Seq<char>, from: int)
    requires
        0 <= from <= s.len(),
    ensures
        forall|i: int|
            0 <= i < words_from(s, from).len() ==> {
                &&& (#[trigger] words_from(s, from)[i]).len() > 0
                &&& forall|k: int|
                    0 <= k < words_from(s, from)[i].len() ==> !is_space(
                        #[trigger] words_from(s, from)[i][k],
                    )
            },
    decreases s.len() - from,
{
    lemma_skip_spaces_bounds(s, from);
    let start = skip_spaces(s, from);
    if start < s.len() {
        lemma_word_end_bounds(s, start);
        let end = word_end(s, start);
        lemma_words_hold_no_space(s, end);
        let first = s.subrange(start, end);
        assert forall|i: int| 0 <= i < words_from(s, from).len() implies {
            &&& (#[trigger] words_from(s, from)[i]).len() > 0
            &&& forall|k: int|
                0 <= k < words_from(s, from)[i].len() ==> !is_space(
                    #[trigger] words_from(s, from)[i][k],
                )
        } by {
            if i == 0 {
                assert(words_from(s, from)[0] == first);
                assert forall|k: int| 0 <= k < first.len() implies !is_space(
                    #[trigger] first[k],
                ) by {
                    assert(first[k] == s[start + k]);
                }
            } else {
                assert(words_from(s, from)[i] == words_from(s, end)[i - 1]);
            }
        }
    }
}

pub fn is_space_char(c: char) -> (r: bool)
    ensures
        r == is_space(c),
{
    c == ' ' || c == '\t' || c == '\n' || c == '\x0C' || c == '\r'
}

/// The characters of the text, in order.
pub fn chars(input: &str) -> (r: Vec<char>)
    ensures
        r@ == input@,
{
    let mut r: Vec<char> = Vec::new();
    for c in it: input.chars()
        invariant
            it.seq() == input@,
            r@ == it.seq().take(it.index() as int),
    {
        r.push(c);
    }
    r
}

/// `String::push` appends the given character to the end of the string.
pub assume_specification[ String::push ](s: &mut String, c: char)
    ensures
        final(s)@ == old(s)@.push(c),
;

/// The text that holds the given characters, in order.
pub fn text(s: &Vec<char>) -> (r: String)
    ensures
        r@ == s@,
{
    let mut r = String::new();
    let mut i: usize = 0;
    while i < s.len()
        invariant
            i <= s@.len(),
            r@ == s@.take(i as int),
        decreases s@.len() - i,
    {
        r.push(s[i]);
        i += 1;
    }
    r
}

/// A copy of the characters of `s` from `from` up to, not including, `to`.
pub fn slice(s: &Vec<char>, from: usize, to: usize) -> (r: Vec<char>)
    requires
        from <= to <= s@.len(),
    ensures
        r@ == s@.subrange(from as int, to as int),
{
    let mut r: Vec<char> = Vec::new();
    let mut i: usize = from;
    while i < to
        invariant
            from <= i <= to <= s@.len(),
            r@ == s@.subrange(from as int, i as int),
        decreases to - i,
    {
        r.push(s[i]);
        i += 1;
    }
    r
}

/// The words of `s`: the maximal runs of characters that are not spaces, in order.
pub fn split_words(s: &Vec<char>) -> (r: Vec<Vec<char>>)
    ensures
        rows_view(r@) == words(s@),
{
    let mut r: Vec<Vec<char>> = Vec::new();
    let mut i: usize = 0;
    loop
        invariant
            i <= s@.len(),
            words(s@) == rows_view(r@) + words_from(s@, i as int),
        decreases s@.len() - i,
    {
        let ghost from = i as int;
        while i < s.len() && is_space_char(s[i])
            invariant
                from <= i <= s@.len(),
                skip_spaces(s@, from) == skip_spaces(s@, i as int),
            decreases s@.len() - i,
        {
            i += 1;
        }
        if i >= s.len() {
            proof {
                assert(words_from(s@, from) == Seq::<Seq<char>>::empty());
                assert(words(s@) == rows_view(r@));
            }
            return r;
        }
        let start = i;
        while i < s.len() && !is_space_char(s[i])
            invariant
                start <= i <= s@.len(),
                word_end(s@, start as int) == word_end(s@, i as int),
            decreases s@.len() - i,
        {
            i += 1;
        }
        let ghost before = rows_view(r@);
        let word = slice(s, start, i);
        r.push(word);
        proof {
            assert(skip_spaces(s@, from) == start);
            assert(word_end(s@, start as int) == i);
            assert(i > start);
            assert(words_from(s@, from) == seq![s@.subrange(start as int, i as int)] + words_from(
                s@,
                i as int,
            ));
            assert(rows_view(r@) == before + seq![s@.subrange(start as int, i as int)]);
        }
    }
}

/// The first place at or after `from` that holds `sep`, or the length.
pub open spec fn piece_end(s: Seq<char>, sep: char, from: int) -> int
    decreases s.len() - from,
{
    if 0 <= from < s.len() && s[from] != sep {
        piece_end(s, sep, from + 1)
    } else {
        from
    }
}

/// The pieces of `s` from `from` on, between one `sep` and the next: one more
/// than there are separators.
pub open spec fn pieces_from(s: Seq<char>, sep: char, from: int) -> Seq<Seq<char>>
    decreases s.len() - from,
{
    let end = piece_end(s, sep, from);
    if 0 <= from <= end < s.len() {
        seq![s.subrange(from, end)] + pieces_from(s, sep, end + 1)
    } else {
        seq![s.subrange(from, s.len() as int)]
    }
}

/// The pieces of `s` between one `sep` and the next.
pub open spec fn pieces(s: Seq<char>, sep: char) -> Seq<Seq<char>> {
    pieces_from(s, sep, 0)
}

/// The lines of `s`: its pieces between line feeds, without the last one where
/// it is empty.
pub open spec fn lines(s: Seq<char>) -> Seq<Seq<char>> {
    let all = pieces(s, '\n');
    if all.last().len() == 0 {
        all.drop_last()
    } else {
        all
    }
}

pub proof fn lemma_piece_end_bounds(s: Seq<char>, sep: char, from: int)
    requires
        0 <= from <= s.len(),
    ensures
        from <= piece_end(s, sep, from) <= s.len(),
        piece_end(s, sep, from) < s.len() ==> s[piece_end(s, sep, from)] == sep,
        forall|k: int| from <= k < piece_end(s, sep, from) ==> #[trigger] s[k] != sep,
    decreases s.len() - from,
{
    if from < s.len() && s[from] != sep {
        lemma_piece_end_bounds(s, sep, from + 1);
    }
}

/// The pieces of `s` between one `sep` and the next.
pub fn split_on(s: &Vec<char>, sep: char) -> (r: Vec<Vec<char>>)
    ensures
        rows_view(r@) == pieces(s@, sep),
        r@.len() > 0,
{
    let mut r: Vec<Vec<char>> = Vec::new();
    let mut from: usize = 0;
    loop
        invariant
            from <= s@.len(),
            pieces(s@, sep) == rows_view(r@) + pieces_from(s@, sep, from as int),
        decreases s@.len() - from,
    {
        let mut end = from;
        while end < s.len() && s[end] != sep
            invariant
                from <= end <= s@.len(),
                piece_end(s@, sep, from as int) == piece_end(s@, sep, end as int),
            decreases s@.len() - end,
        {
            end += 1;
        }
        let ghost before = rows_view(r@);
        let piece = slice(s, from, end);
        r.push(piece);
        proof {
            assert(piece_end(s@, sep, from as int) == end);
            assert(rows_view(r@) == before + seq![s@.subrange(from as int, end as int)]);
        }
        if end >= s.len() {
            proof {
                assert(pieces_from(s@, sep, from as int) == seq![
                    s@.subrange(from as int, s@.len() as int),
                ]);
            }
            return r;
        }
        from = end + 1;
    }
}

/// The lines of `s`: its pieces between line feeds, without the last one where
/// it is empty.
pub fn split_lines(s: &Vec<char>) -> (r: Vec<Vec<char>>)
    ensures
        rows_view(r@) == lines(s@),
{
    let mut r = split_on(s, '\n');
    let ghost all = rows_view(r@);
    let n = r.len();
    assert(all.last() == r@[n - 1]@);
    if r[n - 1].len() == 0 {
        r.pop();
        assert(rows_view(r@) == all.drop_last());
    }
    r
}

} // verus!
