use vstd::prelude::*;

verus! {

/// The longest numeric literal that the parser accepts.
pub const MAX_NUMERIC_LITERAL_LENGTH: usize = 63;

pub open spec fn is_digit(b: u8) -> bool {
    48 <= b <= 57
}

/// A byte that may occur in a number literal.
pub open spec fn is_number_char(b: u8) -> bool {
    is_digit(b) || b == 43 || b == 45 || b == 101 || b == 69 || b == 46
}

/// The end of the run of digits in `s` that starts at `i`.
pub open spec fn digits_end(s: Seq<u8>, i: int) -> int
    decreases s.len() - i,
{
    if 0 <= i < s.len() && is_digit(s[i]) {
        digits_end(s, i + 1)
    } else {
        i
    }
}

/// JSON's integer part starting at `i`: `0` alone, or a nonzero digit
/// followed by digits. Gives the position after it.
pub open spec fn integer_part_end(s: Seq<u8>, i: int) -> Option<int> {
    if 0 <= i < s.len() && s[i] == 48 {
        if i + 1 < s.len() && is_digit(s[i + 1]) {
            None
        } else {
            Some(i + 1)
        }
    } else if 0 <= i < s.len() && 49 <= s[i] <= 57 {
        Some(digits_end(s, i + 1))
    } else {
        None
    }
}

/// An optional fraction: `.` followed by at least one digit.
pub open spec fn fractional_part_end(s: Seq<u8>, i: int) -> Option<int> {
    if 0 <= i < s.len() && s[i] == 46 {
        let j = digits_end(s, i + 1);
        if j == i + 1 {
            None
        } else {
            Some(j)
        }
    } else {
        Some(i)
    }
}

/// The position after an optional sign at `i`.
pub open spec fn after_sign(s: Seq<u8>, i: int) -> int {
    if 0 <= i < s.len() && (s[i] == 43 || s[i] == 45) {
        i + 1
    } else {
        i
    }
}

/// An optional exponent: `e` or `E`, an optional sign, at least one digit.
pub open spec fn exponent_part_end(s: Seq<u8>, i: int) -> Option<int> {
    if 0 <= i < s.len() && (s[i] == 101 || s[i] == 69) {
        let k = after_sign(s, i + 1);
        let j = digits_end(s, k);
        if j == k {
            None
        } else {
            Some(j)
        }
    } else {
        Some(i)
    }
}

/// The length of the JSON number at the start of `s`, if one is there.
pub open spec fn number_token_len(s: Seq<u8>) -> Option<int> {
    let i0 = if 0 < s.len() && s[0] == 45 {
        1int
    } else {
        0int
    };
    match integer_part_end(s, i0) {
        None => None,
        Some(i1) => match fractional_part_end(s, i1) {
            None => None,
            Some(i2) => exponent_part_end(s, i2),
        },
    }
}

/// The length of the run of number bytes at the start of `s`.
pub open spec fn numeric_candidate_len(s: Seq<u8>) -> int
    decreases s.len(),
{
    if s.len() > 0 && is_number_char(s[0]) {
        1 + numeric_candidate_len(s.drop_first())
    } else {
        0
    }
}

/// How many bytes C's `strtod` reads from a run of number bytes: an optional
/// sign, digits with an optional point (at least one digit in all), then an
/// exponent only where at least one digit follows it; 0 when there is no
/// digit before the exponent.
pub open spec fn strtod_len(s: Seq<u8>) -> int {
    let i = after_sign(s, 0);
    let j = digits_end(s, i);
    let (k, digits) = if j < s.len() && s[j] == 46 {
        let k = digits_end(s, j + 1);
        (k, (j - i) + (k - j - 1))
    } else {
        (j, j - i)
    };
    if digits == 0 {
        0
    } else if k < s.len() && (s[k] == 101 || s[k] == 69) {
        let m = after_sign(s, k + 1);
        let e = digits_end(s, m);
        if e == m {
            k
        } else {
            e
        }
    } else {
        k
    }
}

/// What the scan of a number literal gives: its length, or the offset of
/// the error within it.
pub enum NumberParseResult {
    Success { length: usize },
    Failure { error_offset: usize },
}

/// The outcome of scanning a number at the start of `s`.
pub open spec fn spec_parse_number_token(s: Seq<u8>) -> NumberParseResult {
    let c = numeric_candidate_len(s);
    let t = s.take(c);
    let consumed = strtod_len(t);
    let failure = NumberParseResult::Failure {
        error_offset: (if consumed < c {
            consumed
        } else {
            c
        }) as usize,
    };
    if c == 0 || c > 63 || consumed == 0 {
        NumberParseResult::Failure { error_offset: 0 }
    } else {
        match number_token_len(s) {
            Some(n) => if n == c && consumed == c {
                NumberParseResult::Success { length: n as usize }
            } else {
                failure
            },
            None => failure,
        }
    }
}

pub fn is_digit_byte(b: u8) -> (r: bool)
    ensures
        r == is_digit(b),
{
    48 <= b && b <= 57
}

/// Advances `index` past a run of digits.
pub fn skip_digits(input: &[u8], index: &mut usize)
    requires
        *old(index) <= input@.len(),
    ensures
        *final(index) == digits_end(input@, *old(index) as int),
{
    while *index < input.len() && is_digit_byte(input[*index])
        invariant
            *index <= input@.len(),
            digits_end(input@, *index as int) == digits_end(input@, *old(index) as int),
        decreases input.len() - *index,
    {
        *index = *index + 1;
    }
}

/// Reads JSON's integer part at `index`.
pub fn consume_integer_part(input: &[u8], index: &mut usize) -> (r: Option<()>)
    ensures
        match integer_part_end(input@, *old(index) as int) {
            Some(e) => r is Some && *final(index) == e,
            None => r is None && *final(index) == (if *old(index) < input@.len() && input@[*old(
                index,
            ) as int] == 48 {
                *old(index) + 1
            } else {
                *old(index) as int
            }),
        },
        *old(index) <= input@.len() ==> *final(index) <= input@.len(),
        *old(index) > input@.len() ==> *final(index) == *old(index),
{
    let i = *index;
    if i < input.len() && input[i] == 48u8 {
        *index = i + 1;
        if *index < input.len() && is_digit_byte(input[*index]) {
            return None;
        }
        Some(())
    } else if i < input.len() && 49u8 <= input[i] && input[i] <= 57u8 {
        *index = i + 1;
        skip_digits(input, index);
        proof {
            lemma_digits_end_bounds(input@, i + 1);
        }
        Some(())
    } else {
        None
    }
}

/// Reads an optional fraction at `index`.
pub fn consume_fractional_part(input: &[u8], index: &mut usize) -> (r: Option<()>)
    ensures
        match fractional_part_end(input@, *old(index) as int) {
            Some(e) => r is Some && *final(index) == e,
            None => r is None,
        },
        *old(index) <= input@.len() ==> *final(index) <= input@.len(),
        *old(index) > input@.len() ==> *final(index) == *old(index),
{
    let i = *index;
    if !(i < input.len() && input[i] == 46u8) {
        return Some(());
    }
    *index = i + 1;
    let start = *index;
    skip_digits(input, index);
    proof {
        lemma_digits_end_bounds(input@, start as int);
    }
    if *index == start {
        return None;
    }
    Some(())
}

/// Reads an optional exponent at `index`.
pub fn consume_exponent_part(input: &[u8], index: &mut usize) -> (r: Option<()>)
    ensures
        match exponent_part_end(input@, *old(index) as int) {
            Some(e) => r is Some && *final(index) == e,
            None => r is None,
        },
        *old(index) <= input@.len() ==> *final(index) <= input@.len(),
        *old(index) > input@.len() ==> *final(index) == *old(index),
{
    let i = *index;
    if !(i < input.len() && (input[i] == 101u8 || input[i] == 69u8)) {
        return Some(());
    }
    *index = i + 1;
    if *index < input.len() && (input[*index] == 43u8 || input[*index] == 45u8) {
        *index = *index + 1;
    }
    let start = *index;
    skip_digits(input, index);
    proof {
        lemma_digits_end_bounds(input@, start as int);
    }
    if *index == start {
        return None;
    }
    Some(())
}

/// The length of the JSON number at the start of `input`, if there is one.
pub fn consume_number_token(input: &[u8]) -> (r: Option<usize>)
    ensures
        match r {
            Some(n) => number_token_len(input@) == Some(n as int),
            None => number_token_len(input@) is None,
        },
        r matches Some(n) ==> n <= input@.len(),
{
    let mut index: usize = 0;
    if 0 < input.len() && input[0] == 45u8 {
        index = 1;
    }
    if consume_integer_part(input, &mut index).is_none() {
        return None;
    }
    if consume_fractional_part(input, &mut index).is_none() {
        return None;
    }
    if consume_exponent_part(input, &mut index).is_none() {
        return None;
    }
    Some(index)
}

pub fn is_number_char_byte(b: u8) -> (r: bool)
    ensures
        r == is_number_char(b),
{
    is_digit_byte(b) || b == 43u8 || b == 45u8 || b == 101u8 || b == 69u8 || b == 46u8
}

/// The length of the run of number bytes at the start of `input`.
pub fn consume_numeric_candidate(input: &[u8]) -> (r: usize)
    ensures
        r == numeric_candidate_len(input@),
        r <= input@.len(),
{
    let mut index: usize = 0;
    assert(input@.skip(0) =~= input@);
    while index < input.len() && is_number_char_byte(input[index])
        invariant
            index <= input@.len(),
            numeric_candidate_len(input@) == index + numeric_candidate_len(
                input@.skip(index as int),
            ),
        decreases input.len() - index,
    {
        assert(input@.skip(index as int).drop_first() =~= input@.skip(index + 1));
        index = index + 1;
    }
    if index < input.len() {
        assert(!is_number_char(input@.skip(index as int)[0]));
    } else {
        assert(input@.skip(index as int).len() == 0);
    }
    index
}

pub proof fn lemma_digits_end_bounds(s: Seq<u8>, i: int)
    requires
        0 <= i <= s.len(),
    ensures
        i <= digits_end(s, i) <= s.len(),
    decreases s.len() - i,
{
    if i < s.len() && is_digit(s[i]) {
        lemma_digits_end_bounds(s, i + 1);
    }
}

pub proof fn lemma_numeric_candidate_bound(s: Seq<u8>)
    ensures
        0 <= numeric_candidate_len(s) <= s.len(),
    decreases s.len(),
{
    if s.len() > 0 && is_number_char(s[0]) {
        lemma_numeric_candidate_bound(s.drop_first());
    }
}

pub proof fn lemma_number_token_bounds(s: Seq<u8>)
    ensures
        number_token_len(s) matches Some(n) ==> 0 <= n <= s.len(),
{
    let i0 = if 0 < s.len() && s[0] == 45 {
        1int
    } else {
        0int
    };
    if 0 <= i0 < s.len() && 49 <= s[i0] <= 57 {
        lemma_digits_end_bounds(s, i0 + 1);
    }
    if let Some(i1) = integer_part_end(s, i0) {
        if 0 <= i1 < s.len() && s[i1] == 46 {
            lemma_digits_end_bounds(s, i1 + 1);
        }
        if let Some(i2) = fractional_part_end(s, i1) {
            if 0 <= i2 < s.len() && (s[i2] == 101 || s[i2] == 69) {
                lemma_digits_end_bounds(s, after_sign(s, i2 + 1));
            }
        }
    }
}

pub proof fn lemma_strtod_len_bound(s: Seq<u8>)
    ensures
        0 <= strtod_len(s) <= s.len(),
{
    let i = after_sign(s, 0);
    lemma_digits_end_bounds(s, i);
    let j = digits_end(s, i);
    if j < s.len() && s[j] == 46 {
        lemma_digits_end_bounds(s, j + 1);
    }
    let k = if j < s.len() && s[j] == 46 {
        digits_end(s, j + 1)
    } else {
        j
    };
    if k < s.len() && (s[k] == 101 || s[k] == 69) {
        lemma_digits_end_bounds(s, after_sign(s, k + 1));
    }
}

/// The scan result stays within the run of number bytes.
pub proof fn lemma_parse_number_token_bounds(s: Seq<u8>)
    ensures
        match spec_parse_number_token(s) {
            NumberParseResult::Success { length } => 1 <= length <= numeric_candidate_len(s)
                <= s.len(),
            NumberParseResult::Failure { error_offset } => error_offset <= numeric_candidate_len(
                s,
            ) <= s.len(),
        },
{
    lemma_numeric_candidate_bound(s);
    let c = numeric_candidate_len(s);
    lemma_strtod_len_bound(s.take(c));
    lemma_number_token_bounds(s);
}

/// How many bytes `strtod` reads from `s`, as `strtod_len` states it.
pub fn strtod_prefix_len(s: &[u8]) -> (r: usize)
    ensures
        r == strtod_len(s@),
        r <= s@.len(),
{
    let mut i: usize = 0;
    if i < s.len() && (s[i] == 43u8 || s[i] == 45u8) {
        i = 1;
    }
    let mut j = i;
    skip_digits(s, &mut j);
    proof {
        lemma_digits_end_bounds(s@, i as int);
    }
    let mut k = j;
    let digits: usize;
    if j < s.len() && s[j] == 46u8 {
        k = j + 1;
        skip_digits(s, &mut k);
        proof {
            lemma_digits_end_bounds(s@, j + 1);
        }
        digits = (j - i) + (k - j - 1);
    } else {
        digits = j - i;
    }
    if digits == 0 {
        return 0;
    }
    if k < s.len() && (s[k] == 101u8 || s[k] == 69u8) {
        let mut m = k + 1;
        if m < s.len() && (s[m] == 43u8 || s[m] == 45u8) {
            m = m + 1;
        }
        let mut e = m;
        skip_digits(s, &mut e);
        proof {
            lemma_digits_end_bounds(s@, m as int);
        }
        if e == m {
            k
        } else {
            e
        }
    } else {
        k
    }
}

/// Scans the number literal at the start of `input`: its length when the
/// whole run of number bytes (at most 63 of them) is a JSON number, else the
/// offset at which reading it stopped.
pub fn parse_number_token(input: &[u8]) -> (r: NumberParseResult)
    ensures
        r == spec_parse_number_token(input@),
{
    let candidate_length = consume_numeric_candidate(input);
    if candidate_length == 0 || candidate_length > MAX_NUMERIC_LITERAL_LENGTH {
        return NumberParseResult::Failure { error_offset: 0 };
    }
    let token = slice_prefix(input, candidate_length);
    let consumed = strtod_prefix_len(token.as_slice());
    if consumed == 0 {
        return NumberParseResult::Failure { error_offset: 0 };
    }
    let error_offset = if consumed < candidate_length {
        consumed
    } else {
        candidate_length
    };
    proof {
        lemma_number_token_bounds(input@);
    }
    match consume_number_token(input) {
        Some(token_length) => {
            if token_length != candidate_length || consumed != candidate_length {
                NumberParseResult::Failure { error_offset }
            } else {
                NumberParseResult::Success { length: token_length }
            }
        },
        None => NumberParseResult::Failure { error_offset },
    }
}

/// The first `n` bytes of `s`.
pub fn slice_prefix(s: &[u8], n: usize) -> (r: Vec<u8>)
    requires
        n <= s@.len(),
    ensures
        r@ == s@.take(n as int),
{
    let mut r: Vec<u8> = Vec::with_capacity(n);
    let mut i: usize = 0;
    while i < n
        invariant
            i <= n <= s@.len(),
            r@ == s@.take(i as int),
        decreases n - i,
    {
        r.push(s[i]);
        i = i + 1;
        assert(r@ =~= s@.take(i as int));
    }
    r
}

} // verus!

verus! {

// ---------------------------------------------------------------------
// The scan of a number token and JSON's number grammar
// ---------------------------------------------------------------------

pub open spec fn all_digits(s: Seq<u8>) -> bool {
    forall|p: int| 0 <= p < s.len() ==> is_digit(#[trigger] s[p])
}

/// `0`, or a nonzero digit followed by digits.
pub open spec fn int_grammar(s: Seq<u8>) -> bool {
    (s.len() == 1 && s[0] == 48) || (s.len() >= 1 && 49 <= s[0] <= 57 && all_digits(
        s.drop_first(),
    ))
}

/// Nothing, or `.` followed by one digit or more.
pub open spec fn frac_grammar(s: Seq<u8>) -> bool {
    s.len() == 0 || (s.len() >= 2 && s[0] == 46 && all_digits(s.drop_first()))
}

/// Nothing, or `e` or `E`, an optional sign and one digit or more.
pub open spec fn exp_grammar(s: Seq<u8>) -> bool {
    s.len() == 0 || (s.len() >= 2 && (s[0] == 101 || s[0] == 69) && (all_digits(s.drop_first())
        || (s.len() >= 3 && (s[1] == 43 || s[1] == 45) && all_digits(s.subrange(2, s.len() as int)))))
}

/// `s` split at `i`, `j` and `k` into an optional minus, an integer part, a
/// fraction and an exponent.
pub open spec fn number_split(s: Seq<u8>, i: int, j: int, k: int) -> bool {
    &&& 0 <= i <= j <= k <= s.len()
    &&& (i == 0 || (i == 1 && s[0] == 45))
    &&& int_grammar(s.subrange(i, j))
    &&& frac_grammar(s.subrange(j, k))
    &&& exp_grammar(s.subrange(k, s.len() as int))
}

/// `s` is a JSON number: `-?(0|[1-9][0-9]*)(\.[0-9]+)?([eE][+-]?[0-9]+)?`.
pub open spec fn json_number(s: Seq<u8>) -> bool {
    exists|i: int, j: int, k: int| #[trigger] number_split(s, i, j, k)
}

proof fn lemma_digits_run(s: Seq<u8>, i: int, e: int)
    requires
        0 <= i <= e <= s.len(),
        forall|p: int| i <= p < e ==> is_digit(#[trigger] s[p]),
        e == s.len() || !is_digit(s[e]),
    ensures
        digits_end(s, i) == e,
    decreases e - i,
{
    if i < e {
        lemma_digits_run(s, i + 1, e);
    }
}

proof fn lemma_digits_end_all(s: Seq<u8>, i: int)
    requires
        0 <= i <= s.len(),
    ensures
        i <= digits_end(s, i) <= s.len(),
        forall|p: int| i <= p < digits_end(s, i) ==> is_digit(#[trigger] s[p]),
        digits_end(s, i) == s.len() || !is_digit(s[digits_end(s, i)]),
    decreases s.len() - i,
{
    if i < s.len() && is_digit(s[i]) {
        lemma_digits_end_all(s, i + 1);
    }
}

/// The token that the scan finds is a JSON number, split where the scan
/// found its parts.
proof fn lemma_token_is_number(s: Seq<u8>, n: int)
    requires
        number_token_len(s) == Some(n),
    ensures
        1 <= n <= s.len(),
        json_number(s.take(n)),
{
    let w = s.take(n);
    let i0: int = if 0 < s.len() && s[0] == 45 {
        1
    } else {
        0
    };
    let i1 = integer_part_end(s, i0)->0;
    let i2 = fractional_part_end(s, i1)->0;
    if s[i0] == 48 {
        assert(i1 == i0 + 1);
    } else {
        lemma_digits_end_all(s, i0 + 1);
    }
    assert(i0 < i1 <= s.len());
    if i1 < s.len() && s[i1] == 46 {
        lemma_digits_end_all(s, i1 + 1);
        assert(i2 > i1 + 1);
    } else {
        assert(i2 == i1);
    }
    assert(i1 <= i2 <= s.len());
    if i2 < s.len() && (s[i2] == 101 || s[i2] == 69) {
        let k = after_sign(s, i2 + 1);
        assert(i2 + 1 <= s.len());
        lemma_digits_end_all(s, k);
        assert(n > k);
    } else {
        assert(n == i2);
    }
    assert(i2 <= n <= s.len());
    assert(w.subrange(i0, i1) =~= s.subrange(i0, i1));
    assert(w.subrange(i1, i2) =~= s.subrange(i1, i2));
    assert(w.subrange(i2, n) =~= s.subrange(i2, n));
    let a = s.subrange(i0, i1);
    if s[i0] != 48 {
        assert forall|p: int| 0 <= p < a.drop_first().len() implies is_digit(
            #[trigger] a.drop_first()[p],
        ) by {
            assert(a.drop_first()[p] == s[i0 + 1 + p]);
        }
    }
    assert(int_grammar(a));
    let b = s.subrange(i1, i2);
    if i2 > i1 {
        assert forall|p: int| 0 <= p < b.drop_first().len() implies is_digit(
            #[trigger] b.drop_first()[p],
        ) by {
            assert(b.drop_first()[p] == s[i1 + 1 + p]);
        }
    }
    assert(frac_grammar(b));
    let c = s.subrange(i2, n);
    if n > i2 {
        let k = after_sign(s, i2 + 1);
        if k == i2 + 1 {
            assert forall|p: int| 0 <= p < c.drop_first().len() implies is_digit(
                #[trigger] c.drop_first()[p],
            ) by {
                assert(c.drop_first()[p] == s[i2 + 1 + p]);
            }
        } else {
            assert forall|p: int| 0 <= p < c.subrange(2, c.len() as int).len() implies is_digit(
                #[trigger] c.subrange(2, c.len() as int)[p],
            ) by {
                assert(c.subrange(2, c.len() as int)[p] == s[i2 + 2 + p]);
            }
        }
    }
    assert(exp_grammar(c));
    assert(w.subrange(i2, w.len() as int) == c);
    assert(i0 == 1 ==> w[0] == 45);
    assert(number_split(w, i0, i1, i2));
}

/// A JSON number is read whole by the scan.
proof fn lemma_number_is_token(w: Seq<u8>, i: int, j: int, k: int)
    requires
        number_split(w, i, j, k),
    ensures
        number_token_len(w) == Some(w.len() as int),
{
    let a = w.subrange(i, j);
    let b = w.subrange(j, k);
    let c = w.subrange(k, w.len() as int);
    assert(w[i] == a[0]);
    // what stands at the end of the fraction: an exponent or the end
    assert(k == w.len() || w[k] == 101 || w[k] == 69) by {
        if c.len() > 0 {
            assert(w[k] == c[0]);
        }
    }
    // what stands at the end of the integer part: a fraction, an exponent or
    // the end
    assert(j == w.len() || w[j] == 46 || w[j] == 101 || w[j] == 69) by {
        if b.len() > 0 {
            assert(w[j] == b[0]);
        }
    }
    assert(i == (if 0 < w.len() && w[0] == 45 {
        1int
    } else {
        0int
    }));
    if w[i] == 48 {
        assert(j == i + 1);
        assert(integer_part_end(w, i) == Some(j));
    } else {
        assert forall|p: int| i + 1 <= p < j implies is_digit(#[trigger] w[p]) by {
            assert(a.drop_first()[p - i - 1] == w[p]);
        }
        lemma_digits_run(w, i + 1, j);
        assert(integer_part_end(w, i) == Some(j));
    }
    if b.len() > 0 {
        assert(w[j] == 46);
        assert forall|p: int| j + 1 <= p < k implies is_digit(#[trigger] w[p]) by {
            assert(b.drop_first()[p - j - 1] == w[p]);
        }
        lemma_digits_run(w, j + 1, k);
    }
    assert(fractional_part_end(w, j) == Some(k));
    if c.len() > 0 {
        assert(w[k] == c[0]);
        if all_digits(c.drop_first()) {
            assert(w[k + 1] == c.drop_first()[0]);
            assert(after_sign(w, k + 1) == k + 1);
            assert forall|p: int| k + 1 <= p < w.len() implies is_digit(#[trigger] w[p]) by {
                assert(c.drop_first()[p - k - 1] == w[p]);
            }
            lemma_digits_run(w, k + 1, w.len() as int);
        } else {
            assert(w[k + 1] == c[1]);
            assert(after_sign(w, k + 1) == k + 2);
            assert forall|p: int| k + 2 <= p < w.len() implies is_digit(#[trigger] w[p]) by {
                assert(c.subrange(2, c.len() as int)[p - k - 2] == w[p]);
            }
            lemma_digits_run(w, k + 2, w.len() as int);
        }
    }
    assert(exponent_part_end(w, k) == Some(w.len() as int));
}

/// `u` and `w` agree before `m` and on what kind of byte stands at `m`.
pub open spec fn agree_until(u: Seq<u8>, w: Seq<u8>, m: int) -> bool {
    &&& 0 <= m <= u.len()
    &&& m <= w.len()
    &&& forall|p: int| 0 <= p < m ==> #[trigger] u[p] == w[p]
    &&& (m < u.len() && is_digit(u[m])) == (m < w.len() && is_digit(w[m]))
    &&& (m < u.len() && u[m] == 46) == (m < w.len() && w[m] == 46)
    &&& (m < u.len() && (u[m] == 101 || u[m] == 69)) == (m < w.len() && (w[m] == 101 || w[m]
        == 69))
}

proof fn lemma_digits_agree(u: Seq<u8>, w: Seq<u8>, m: int, i: int)
    requires
        agree_until(u, w, m),
        0 <= i <= m,
        digits_end(u, i) <= m,
    ensures
        digits_end(w, i) == digits_end(u, i),
    decreases m - i,
{
    if i < m {
        assert(u[i] == w[i]);
        if is_digit(u[i]) {
            lemma_digits_agree(u, w, m, i + 1);
        }
    } else if m < u.len() && is_digit(u[m]) {
        lemma_digits_end_bounds(u, m + 1);
    }
}

/// The scan reads no further than the byte after the token.
proof fn lemma_token_agree(u: Seq<u8>, w: Seq<u8>, n: int)
    requires
        number_token_len(u) == Some(n),
        agree_until(u, w, n),
    ensures
        number_token_len(w) == Some(n),
{
    lemma_token_is_number(u, n);
    let i0: int = if 0 < u.len() && u[0] == 45 {
        1
    } else {
        0
    };
    assert(u[0] == w[0]);
    let i1 = integer_part_end(u, i0)->0;
    let i2 = fractional_part_end(u, i1)->0;
    if u[i0] == 48 {
        assert(i1 == i0 + 1);
    } else {
        lemma_digits_end_bounds(u, i0 + 1);
    }
    assert(i0 < i1);
    if i1 < u.len() && u[i1] == 46 {
        lemma_digits_end_bounds(u, i1 + 1);
    }
    assert(i1 <= i2);
    if i2 < u.len() && (u[i2] == 101 || u[i2] == 69) {
        let k = after_sign(u, i2 + 1);
        lemma_digits_end_bounds(u, k);
        assert(n > k);
    }
    assert(i2 <= n);
    assert(u[i0] == w[i0]);
    if u[i0] == 48 {
        if i0 + 1 < n {
            assert(u[i0 + 1] == w[i0 + 1]);
        }
    } else {
        lemma_digits_agree(u, w, n, i0 + 1);
    }
    assert(integer_part_end(w, i0) == Some(i1));
    if i1 < n {
        assert(u[i1] == w[i1]);
    }
    if i1 < u.len() && u[i1] == 46 {
        lemma_digits_agree(u, w, n, i1 + 1);
    }
    assert(fractional_part_end(w, i1) == Some(i2));
    if i2 < n {
        assert(u[i2] == w[i2]);
    }
    if i2 < u.len() && (u[i2] == 101 || u[i2] == 69) {
        assert(u[i2 + 1] == w[i2 + 1]);
        let k = after_sign(u, i2 + 1);
        assert(after_sign(w, i2 + 1) == k);
        lemma_digits_agree(u, w, n, k);
    }
    assert(exponent_part_end(w, i2) == Some(n));
}

/// The token that the number scan reads is the longest start of the text
/// that is a JSON number: the token is one, and no longer start is.
pub proof fn lemma_number_token_longest(s: Seq<u8>)
    ensures
        number_token_len(s) matches Some(n) ==> {
            &&& 1 <= n <= s.len()
            &&& json_number(s.take(n))
            &&& forall|m: int| n < m <= s.len() ==> !json_number(#[trigger] s.take(m))
        },
{
    if let Some(n) = number_token_len(s) {
        lemma_token_is_number(s, n);
        assert forall|m: int| n < m <= s.len() implies !json_number(#[trigger] s.take(m)) by {
            let w = s.take(m);
            assert(agree_until(s, w, n));
            lemma_token_agree(s, w, n);
            if json_number(w) {
                let (i, j, k) = choose|i: int, j: int, k: int| number_split(w, i, j, k);
                lemma_number_is_token(w, i, j, k);
            }
        }
    }
}

/// A JSON number followed by nothing, or by a byte that cannot continue
/// it (not a digit, `.`, `e` or `E`), is read as a token of its length.
pub proof fn lemma_number_token_of_grammar(s: Seq<u8>, t: Seq<u8>)
    requires
        json_number(s),
        t.len() == 0 || !(is_digit(t[0]) || t[0] == 46 || t[0] == 101 || t[0] == 69),
    ensures
        number_token_len(s + t) == Some(s.len() as int),
{
    let (i, j, k) = choose|i: int, j: int, k: int| number_split(s, i, j, k);
    lemma_number_is_token(s, i, j, k);
    let w = s + t;
    if t.len() > 0 {
        assert(w[s.len() as int] == t[0]);
    }
    assert(agree_until(s, w, s.len() as int));
    lemma_token_agree(s, w, s.len() as int);
}

} // verus!
