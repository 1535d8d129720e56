use vstd::prelude::*;
use vstd::utf8::encode_scalar;
use crate::types::{first_index, lemma_first_index};

verus! {

// ---------------------------------------------------------------------
// Reading escapes
// ---------------------------------------------------------------------

/// The value of a hexadecimal digit.
pub open spec fn hex_value(b: u8) -> Option<int> {
    if 48 <= b <= 57 {
        Some(b - 48)
    } else if 97 <= b <= 102 {
        Some(b - 97 + 10)
    } else if 65 <= b <= 70 {
        Some(b - 65 + 10)
    } else {
        None
    }
}

/// The number written by the first four bytes of `s` in hexadecimal.
pub open spec fn hex4(s: Seq<u8>) -> Option<u16> {
    if s.len() < 4 {
        None
    } else {
        match (hex_value(s[0]), hex_value(s[1]), hex_value(s[2]), hex_value(s[3])) {
            (Some(a), Some(b), Some(c), Some(d)) => Some((a * 4096 + b * 256 + c * 16 + d) as u16),
            _ => None,
        }
    }
}

pub fn hex_digit(b: u8) -> (r: Option<u16>)
    ensures
        match hex_value(b) {
            Some(v) => r == Some(v as u16),
            None => r is None,
        },
{
    if 48 <= b && b <= 57 {
        Some((b - 48) as u16)
    } else if 97 <= b && b <= 102 {
        Some((b - 97 + 10) as u16)
    } else if 65 <= b && b <= 70 {
        Some((b - 65 + 10) as u16)
    } else {
        None
    }
}

/// Reads four hexadecimal digits.
pub fn parse_hex4(input: &[u8]) -> (r: Option<u16>)
    ensures
        r == hex4(input@),
{
    if input.len() < 4 {
        return None;
    }
    let a = hex_digit(input[0]);
    let b = hex_digit(input[1]);
    let c = hex_digit(input[2]);
    let d = hex_digit(input[3]);
    match (a, b, c, d) {
        (Some(a), Some(b), Some(c), Some(d)) => {
            Some(a * 4096 + b * 256 + c * 16 + d)
        },
        _ => None,
    }
}

/// Appends the UTF-8 encoding of `codepoint`; refuses a value that is not a
/// Unicode scalar.
pub fn push_codepoint_utf8(output: &mut Vec<u8>, codepoint: u32) -> (r: Option<()>)
    ensures
        vstd::utf8::is_scalar(codepoint) ==> r is Some && final(output)@ == old(output)@
            + encode_scalar(codepoint),
        !vstd::utf8::is_scalar(codepoint) ==> r is None && final(output)@ == old(output)@,
{
    let ghost before = output@;
    if codepoint <= 0x7F {
        output.push((codepoint & 0x7F) as u8);
    } else if codepoint <= 0x7FF {
        output.push(0xC0 | ((codepoint >> 6) & 0x1F) as u8);
        output.push(0x80 | (codepoint & 0x3F) as u8);
    } else if codepoint <= 0xFFFF {
        if 0xD800 <= codepoint && codepoint <= 0xDFFF {
            return None;
        }
        output.push(0xE0 | ((codepoint >> 12) & 0x0F) as u8);
        output.push(0x80 | ((codepoint >> 6) & 0x3F) as u8);
        output.push(0x80 | (codepoint & 0x3F) as u8);
    } else if codepoint <= 0x10FFFF {
        output.push(0xF0 | ((codepoint >> 18) & 0x7) as u8);
        output.push(0x80 | ((codepoint >> 12) & 0x3F) as u8);
        output.push(0x80 | ((codepoint >> 6) & 0x3F) as u8);
        output.push(0x80 | (codepoint & 0x3F) as u8);
    } else {
        return None;
    }
    assert(output@ =~= before + encode_scalar(codepoint));
    Some(())
}

/// The bytes and the length of a `\uXXXX` escape (or surrogate pair) at the
/// start of `s`.
pub open spec fn utf16_literal(s: Seq<u8>) -> Option<(Seq<u8>, int)> {
    if s.len() < 6 || s[0] != 92 || s[1] != 117 {
        None
    } else {
        match hex4(s.subrange(2, 6)) {
            None => None,
            Some(first) => if 0xDC00 <= first <= 0xDFFF {
                None
            } else if 0xD800 <= first <= 0xDBFF {
                if s.len() < 12 || s[6] != 92 || s[7] != 117 {
                    None
                } else {
                    match hex4(s.subrange(8, 12)) {
                        None => None,
                        Some(second) => if !(0xDC00 <= second <= 0xDFFF) {
                            None
                        } else {
                            let cp = (0x10000 + (first - 0xD800) * 1024 + (second
                                - 0xDC00)) as u32;
                            Some((encode_scalar(cp), 12))
                        },
                    }
                }
            } else {
                Some((encode_scalar(first as u32), 6))
            },
        }
    }
}

pub fn sub_slice(s: &[u8], start: usize, end: usize) -> (r: &[u8])
    requires
        start <= end <= s@.len(),
    ensures
        r@ == s@.subrange(start as int, end as int),
{
    &s[start..end]
}

/// Decodes a `\uXXXX` escape (or a surrogate pair of them) at the start of
/// `input` to UTF-8 and appends it; gives the number of bytes read.
pub fn utf16_literal_to_utf8(input: &[u8], output: &mut Vec<u8>) -> (r: Option<usize>)
    ensures
        match utf16_literal(input@) {
            Some((bytes, n)) => r == Some(n as usize) && final(output)@ == old(output)@ + bytes,
            None => r is None && final(output)@ == old(output)@,
        },
{
    if input.len() < 6 || input[0] != 92u8 || input[1] != 117u8 {
        return None;
    }
    let first_code = match parse_hex4(sub_slice(input, 2, 6)) {
        Some(c) => c,
        None => return None,
    };
    if 0xDC00 <= first_code && first_code <= 0xDFFF {
        return None;
    }
    let codepoint: u32;
    let consumed: usize;
    if 0xD800 <= first_code && first_code <= 0xDBFF {
        if input.len() < 12 || input[6] != 92u8 || input[7] != 117u8 {
            return None;
        }
        let second_code = match parse_hex4(sub_slice(input, 8, 12)) {
            Some(c) => c,
            None => return None,
        };
        if !(0xDC00 <= second_code && second_code <= 0xDFFF) {
            return None;
        }
        codepoint = 0x10000 + (first_code as u32 - 0xD800) * 1024 + (second_code as u32 - 0xDC00);
        consumed = 12;
    } else {
        codepoint = first_code as u32;
        consumed = 6;
    }
    assert(vstd::utf8::is_scalar(codepoint));
    let _ = push_codepoint_utf8(output, codepoint);
    Some(consumed)
}

/// The end of the string literal whose body starts at `i` (the position of
/// its closing quote), or where reading it failed.
pub open spec fn string_end(buf: Seq<u8>, i: int) -> Result<int, int>
    decreases buf.len() - i,
{
    if 0 <= i < buf.len() && buf[i] != 34 {
        if buf[i] == 92 {
            if i + 1 >= buf.len() {
                Err(i)
            } else {
                string_end(buf, i + 2)
            }
        } else {
            string_end(buf, i + 1)
        }
    } else if i >= buf.len() {
        Err(
            if i < buf.len() - 1 {
                i
            } else {
                buf.len() - 1
            },
        )
    } else {
        Ok(i)
    }
}

/// The byte that a one-letter escape stands for.
pub open spec fn simple_escape(c: u8) -> Option<u8> {
    if c == 98 {
        Some(8u8)
    } else if c == 102 {
        Some(12u8)
    } else if c == 110 {
        Some(10u8)
    } else if c == 114 {
        Some(13u8)
    } else if c == 116 {
        Some(9u8)
    } else if c == 34 || c == 92 || c == 47 {
        Some(c)
    } else {
        None
    }
}

/// The bytes that the literal body `buf[p..end]` stands for, appended to
/// `out`, or the position of a bad escape.
pub open spec fn decode_body(buf: Seq<u8>, p: int, end: int, out: Seq<u8>) -> Result<Seq<u8>, int>
    decreases end + 12 - p,
{
    if p >= end || p < 0 || end >= buf.len() {
        Ok(out)
    } else if buf[p] != 92 {
        decode_body(buf, p + 1, end, out.push(buf[p]))
    } else {
        let c = buf[p + 1];
        if c == 117 {
            match utf16_literal(buf.subrange(p, end)) {
                None => Err(p),
                Some((bytes, n)) => decode_body(buf, p + n, end, out + bytes),
            }
        } else {
            match simple_escape(c) {
                Some(b) => decode_body(buf, p + 2, end, out.push(b)),
                None => Err(p),
            }
        }
    }
}

/// A C string holds the bytes before the first zero.
pub open spec fn c_prefix(s: Seq<u8>) -> Seq<u8> {
    s.take(first_index(s, |b: u8| b == 0))
}

/// A string literal at `off`: its value (as a C string) and the position
/// after it, or the position of the error.
pub open spec fn spec_parse_string(buf: Seq<u8>, off: int) -> Result<(Seq<u8>, int), int> {
    if !(0 <= off < buf.len()) || buf[off] != 34 {
        Err(off)
    } else {
        match string_end(buf, off + 1) {
            Err(e) => Err(e),
            Ok(end) => match decode_body(buf, off + 1, end, Seq::empty()) {
                Err(e) => Err(e),
                Ok(out) => Ok((c_prefix(out), end + 1)),
            },
        }
    }
}

pub proof fn lemma_string_end_bounds(buf: Seq<u8>, i: int)
    requires
        0 <= i,
        buf.len() > 0,
    ensures
        match string_end(buf, i) {
            Ok(e) => i <= e < buf.len() && buf[e] == 34,
            Err(e) => 0 <= e < buf.len(),
        },
    decreases buf.len() - i,
{
    if 0 <= i < buf.len() && buf[i] != 34 {
        if buf[i] == 92 {
            if i + 1 < buf.len() {
                lemma_string_end_bounds(buf, i + 2);
            }
        } else {
            lemma_string_end_bounds(buf, i + 1);
        }
    }
}

/// The C string held by `s`.
pub fn c_string_prefix(s: Vec<u8>) -> (r: Vec<u8>)
    ensures
        r@ == c_prefix(s@),
{
    let mut i: usize = 0;
    while i < s.len() && s[i] != 0
        invariant
            i <= s@.len(),
            forall|j: int| 0 <= j < i ==> s@[j] != 0,
        decreases s.len() - i,
    {
        i = i + 1;
    }
    proof {
        lemma_first_index(s@, |b: u8| b == 0, i as int);
    }
    let ghost sv = s@;
    let mut s = s;
    s.truncate(i);
    assert(s@ =~= sv.take(i as int));
    s
}

} // verus!

verus! {

/// Reads the string literal at `off`: its value (up to the first zero byte)
/// and the position after the closing quote, or the position of the error.
pub fn parse_string(input: &[u8], off: usize) -> (r: Result<(Vec<u8>, usize), usize>)
    ensures
        match spec_parse_string(input@, off as int) {
            Ok((s, e)) => r matches Ok((v, x)) && v@ == s && x as int == e && off < x
                <= input@.len(),
            Err(e) => r matches Err(x) && x as int == e,
        },
{
    if !(off < input.len()) || input[off] != 34u8 {
        return Err(off);
    }
    let len = input.len();
    proof {
        lemma_string_end_bounds(input@, off + 1);
    }
    // Find the closing quote, stepping over escaped bytes.
    let mut input_end: usize = off + 1;
    while input_end < len && input[input_end] != 34u8
        invariant
            len == input@.len(),
            off < input_end <= len + 1,
            off < len,
            input[off as int] == 34,
            string_end(input@, off + 1) == string_end(input@, input_end as int),
        decreases len + 2 - input_end,
    {
        if input[input_end] == 92u8 {
            if input_end + 1 >= len {
                assert(string_end(input@, input_end as int) == Err::<int, int>(input_end as int));
                return Err(input_end);
            }
            input_end = input_end + 1;
        }
        input_end = input_end + 1;
    }
    if input_end >= len {
        return Err(if input_end < len - 1 { input_end } else { len - 1 });
    }
    assert(string_end(input@, input_end as int) == Ok::<int, int>(input_end as int));
    // Decode the body.
    let mut out: Vec<u8> = Vec::new();
    let mut p: usize = off + 1;
    assert(out@ =~= Seq::<u8>::empty());
    while p < input_end
        invariant
            len == input@.len(),
            input_end < len,
            off < p <= input_end + 1,
            input[off as int] == 34,
            string_end(input@, off + 1) == Ok::<int, int>(input_end as int),
            decode_body(input@, off + 1, input_end as int, Seq::empty()) == decode_body(
                input@,
                p as int,
                input_end as int,
                out@,
            ),
        decreases input_end + 12 - p,
    {
        if input[p] != 92u8 {
            out.push(input[p]);
            p = p + 1;
        } else {
            let c = input[p + 1];
            if c == 117u8 {
                match utf16_literal_to_utf8(sub_slice(input, p, input_end), &mut out) {
                    Some(n) => {
                        p = p + n;
                    },
                    None => {
                        assert(decode_body(input@, p as int, input_end as int, out@) == Err::<
                            Seq<u8>,
                            int,
                        >(p as int));
                        return Err(p);
                    },
                }
            } else {
                let b: u8 = if c == 98u8 {
                    8
                } else if c == 102u8 {
                    12
                } else if c == 110u8 {
                    10
                } else if c == 114u8 {
                    13
                } else if c == 116u8 {
                    9
                } else if c == 34u8 || c == 92u8 || c == 47u8 {
                    c
                } else {
                    assert(decode_body(input@, p as int, input_end as int, out@) == Err::<
                        Seq<u8>,
                        int,
                    >(p as int));
                    return Err(p);
                };
                out.push(b);
                p = p + 2;
            }
        }
    }
    let value = c_string_prefix(out);
    Ok((value, input_end + 1))
}

} // verus!

verus! {

/// Each one-letter escape of JSON (RFC 8259) reads as the byte it stands
/// for: `\"` a quote, `\\` a backslash, `\/` a solidus, `\b` backspace,
/// `\f` form feed, `\n` line feed, `\r` carriage return, `\t` tab; the
/// literal that holds just it ends after its closing quote.
pub proof fn lemma_one_letter_escapes(buf: Seq<u8>, off: int, c: u8)
    requires
        0 <= off,
        off + 4 <= buf.len(),
        buf[off] == 34,
        buf[off + 1] == 92,
        buf[off + 2] == c,
        buf[off + 3] == 34,
        c == 34 || c == 92 || c == 47 || c == 98 || c == 102 || c == 110 || c == 114 || c == 116,
    ensures
        spec_parse_string(buf, off) == Ok::<(Seq<u8>, int), int>(
            (
                seq![
                    if c == 98 {
                        8u8
                    } else if c == 102 {
                        12u8
                    } else if c == 110 {
                        10u8
                    } else if c == 114 {
                        13u8
                    } else if c == 116 {
                        9u8
                    } else {
                        c
                    },
                ],
                off + 4,
            ),
        ),
{
    let b: u8 = if c == 98 {
        8u8
    } else if c == 102 {
        12u8
    } else if c == 110 {
        10u8
    } else if c == 114 {
        13u8
    } else if c == 116 {
        9u8
    } else {
        c
    };
    assert(string_end(buf, off + 3) == Ok::<int, int>(off + 3));
    assert(string_end(buf, off + 1) == Ok::<int, int>(off + 3));
    assert(simple_escape(c) == Some(b));
    assert(decode_body(buf, off + 3, off + 3, seq![b]) == Ok::<Seq<u8>, int>(seq![b]));
    assert(decode_body(buf, off + 1, off + 3, Seq::empty()) == Ok::<Seq<u8>, int>(seq![b]));
    let z = |x: u8| x == 0;
    crate::types::lemma_first_index(seq![b], z, 1);
    assert(seq![b].take(1) =~= seq![b]);
}

} // verus!
