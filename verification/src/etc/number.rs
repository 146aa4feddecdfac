use vstd::prelude::*;

verus! {

/// The character is one of `0` to `9`.
pub open spec fn is_digit(c: char) -> bool {
    '0' <= c <= '9'
}

/// The value of a digit.
pub open spec fn digit(c: char) -> nat {
    (c as int - '0' as int) as nat
}

/// The characters are digits, and there is at least one.
pub open spec fn is_number(s: Seq<char>) -> bool {
    s.len() > 0 && forall|i: int| 0 <= i < s.len() ==> is_digit(#[trigger] s[i])
}

/// The number that the digits write in base ten.
pub open spec fn number(s: Seq<char>) -> nat
    decreases s.len(),
{
    if s.len() == 0 {
        0
    } else {
        10 * number(s.drop_last()) + digit(s.last())
    }
}

/// The digits that write `n` in base ten, without leading zeros (one `0` for
/// zero).
pub open spec fn digits(n: nat) -> Seq<char>
    decreases n,
{
    if n < 10 {
        seq![('0' as int + n) as char]
    } else {
        digits(n / 10).push(('0' as int + n % 10) as char)
    }
}

/// The start of a number writes a number that is not greater.
pub proof fn lemma_number_of_prefix(s: Seq<char>, n: int)
    requires
        0 <= n <= s.len(),
    ensures
        number(s.take(n)) <= number(s),
    decreases s.len() - n,
{
    if n < s.len() {
        lemma_number_of_prefix(s, n + 1);
        assert(s.take(n + 1).drop_last() =~= s.take(n));
    } else {
        assert(s.take(n) =~= s);
    }
}

/// The digits of a number write that number.
pub proof fn lemma_digits_write(n: nat)
    ensures
        is_number(digits(n)),
        number(digits(n)) == n,
    decreases n,
{
    if n < 10 {
        let s = digits(n);
        assert(s.drop_last() =~= Seq::<char>::empty());
        assert(number(s.drop_last()) == 0);
    } else {
        lemma_digits_write(n / 10);
        let s = digits(n);
        assert(s.drop_last() =~= digits(n / 10));
    }
}

pub fn is_digit_char(c: char) -> (r: bool)
    ensures
        r == is_digit(c),
{
    '0' <= c && c <= '9'
}

/// The value of a digit.
pub fn digit_value(c: char) -> (r: u8)
    requires
        is_digit(c),
    ensures
        r == digit(c),
        r <= 9,
{
    (c as u32 - '0' as u32) as u8
}

/// Read a number in base ten: `None` where the characters are not all digits,
/// where there is none, and where the number does not fit.
pub fn parse_u64(s: &Vec<char>) -> (r: Option<u64>)
    ensures
        match r {
            Some(value) => is_number(s@) && value == number(s@),
            None => !is_number(s@) || number(s@) > u64::MAX,
        },
{
    if s.len() == 0 {
        return None;
    }
    let mut value: u64 = 0;
    let mut i: usize = 0;
    while i < s.len()
        invariant
            i <= s@.len(),
            value == number(s@.take(i as int)),
            forall|k: int| 0 <= k < i ==> is_digit(#[trigger] s@[k]),
        decreases s@.len() - i,
    {
        let c = s[i];
        if !is_digit_char(c) {
            return None;
        }
        let d = digit_value(c);
        proof {
            assert(s@.take(i + 1).drop_last() =~= s@.take(i as int));
            assert(s@.take(i + 1).last() == c);
            lemma_number_of_prefix(s@, i + 1);
        }
        value = match value.checked_mul(10) {
            Some(tens) => match tens.checked_add(d as u64) {
                Some(sum) => sum,
                None => {
                    return None;
                },
            },
            None => {
                return None;
            },
        };
        i += 1;
    }
    proof {
        assert(s@.take(i as int) =~= s@);
    }
    Some(value)
}

/// Read a number in base ten that fits `usize`.
pub fn parse_usize(s: &Vec<char>) -> (r: Option<usize>)
    ensures
        match r {
            Some(value) => is_number(s@) && value == number(s@),
            None => !is_number(s@) || number(s@) > usize::MAX,
        },
{
    match parse_u64(s) {
        Some(value) => if value <= usize::MAX as u64 {
            Some(value as usize)
        } else {
            None
        },
        None => None,
    }
}

/// Write a number in base ten.
pub fn decimal(n: u64) -> (r: Vec<char>)
    ensures
        r@ == digits(n as nat),
    decreases n,
{
    if n < 10 {
        let mut r: Vec<char> = Vec::new();
        r.push(digit_char((n % 10) as u8));
        r
    } else {
        let mut r = decimal(n / 10);
        r.push(digit_char((n % 10) as u8));
        r
    }
}

/// The character of a digit.
pub fn digit_char(d: u8) -> (r: char)
    requires
        d <= 9,
    ensures
        r == ('0' as int + d) as char,
        digit(r) == d,
        is_digit(r),
{
    (48u8 + d) as char
}


/// Every row is a number, and none is greater than `most`.
pub open spec fn all_numbers(rows: Seq<Seq<char>>, most: nat) -> bool {
    forall|i: int| 0 <= i < rows.len() ==> is_number(#[trigger] rows[i]) && number(rows[i]) <= most
}

/// The numbers that the rows write.
pub open spec fn numbers_of(rows: Seq<Seq<char>>) -> Seq<nat> {
    Seq::new(rows.len(), |i: int| number(rows[i]))
}

/// The numbers of a vector, as natural numbers.
pub open spec fn naturals(v: Seq<u64>) -> Seq<nat> {
    Seq::new(v.len(), |i: int| v[i] as nat)
}

/// Read the numbers that the rows write: `None` where a row is no number, or
/// is a number greater than `most`.
pub fn parse_all(rows: &Vec<Vec<char>>, most: u64) -> (r: Option<Vec<u64>>)
    ensures
        match r {
            Some(values) => {
                &&& all_numbers(crate::etc::text::rows_view(rows@), most as nat)
                &&& naturals(values@) == numbers_of(crate::etc::text::rows_view(rows@))
                &&& forall|i: int| 0 <= i < values@.len() ==> #[trigger] values@[i] <= most
            },
            None => !all_numbers(crate::etc::text::rows_view(rows@), most as nat),
        },
{
    let ghost all = crate::etc::text::rows_view(rows@);
    let mut values: Vec<u64> = Vec::new();
    let mut i: usize = 0;
    while i < rows.len()
        invariant
            i <= rows@.len(),
            all == crate::etc::text::rows_view(rows@),
            values@.len() == i,
            forall|k: int|
                0 <= k < i ==> is_number(#[trigger] all[k]) && number(all[k]) == values@[k]
                    && values@[k] <= most,
        decreases rows@.len() - i,
    {
        assert(all[i as int] == rows@[i as int]@);
        match parse_u64(&rows[i]) {
            Some(value) => {
                if value > most {
                    return None;
                }
                let ghost before = values@;
                values.push(value);
                proof {
                    assert forall|k: int| 0 <= k < i + 1 implies is_number(#[trigger] all[k])
                        && number(all[k]) == values@[k] && values@[k] <= most by {
                        if k < i {
                            assert(values@[k] == before[k]);
                        }
                    }
                }
            },
            None => {
                return None;
            },
        }
        i += 1;
    }
    proof {
        assert forall|k: int| 0 <= k < values@.len() implies #[trigger] values@[k] <= most by {
            assert(is_number(all[k]));
        }
        assert(naturals(values@) =~= numbers_of(all));
    }
    Some(values)
}


/// The whole number that the characters write: digits, after a `-` or not.
pub open spec fn signed_number(s: Seq<char>) -> Option<int> {
    if s.len() > 0 && s[0] == '-' {
        if is_number(s.skip(1)) {
            Some(-(number(s.skip(1)) as int))
        } else {
            None
        }
    } else if is_number(s) {
        Some(number(s) as int)
    } else {
        None
    }
}

/// Read a whole number in base ten, with a `-` before it or not: `None` where
/// the characters write none, and where the number does not fit.
pub fn parse_i64(s: &Vec<char>) -> (r: Option<i64>)
    ensures
        match r {
            Some(value) => signed_number(s@) == Some(value as int),
            None => signed_number(s@) is None || signed_number(s@)->0 > i64::MAX || signed_number(
                s@,
            )->0 < i64::MIN,
        },
{
    if s.len() > 0 && s[0] == '-' {
        let digits = crate::etc::text::slice(s, 1, s.len());
        assert(digits@ == s@.skip(1));
        match parse_u64(&digits) {
            Some(value) => if value <= 0x8000_0000_0000_0000 {
                if value == 0x8000_0000_0000_0000 {
                    Some(i64::MIN)
                } else {
                    Some(-(value as i64))
                }
            } else {
                None
            },
            None => None,
        }
    } else {
        match parse_u64(s) {
            Some(value) => if value <= 0x7FFF_FFFF_FFFF_FFFF {
                Some(value as i64)
            } else {
                None
            },
            None => None,
        }
    }
}

} // verus!
