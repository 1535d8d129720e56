use vstd::prelude::*;
use crate::types::{
    cJSON, JsonValue, views, lemma_view_fields, with_children, fresh, new_typed_item, opt_bytes,
    cJSON_False, cJSON_True, cJSON_NULL, cJSON_Number, cJSON_String, cJSON_Array, cJSON_Object,
};
use crate::tree::string_node;
use crate::number::{
    numeric_candidate_len, spec_parse_number_token, NumberParseResult, parse_number_token,
    consume_numeric_candidate, is_digit,
};
use crate::string::{spec_parse_string, c_prefix, sub_slice, c_string_prefix};

verus! {

/// How deep arrays and objects may nest.
pub const CJSON_NESTING_LIMIT: usize = 1000;

/// A value read from the input: the node, the position after it, and the
/// (start, length) of each number literal in it, in document order. Number
/// nodes hold 0 until the values of their literals are filled in.
pub struct Parsed {
    pub value: JsonValue,
    pub end: int,
    pub numbers: Seq<(usize, usize)>,
}

// ---------------------------------------------------------------------
// Model
// ---------------------------------------------------------------------

pub open spec fn ws_end(buf: Seq<u8>, i: int) -> int
    decreases buf.len() - i,
{
    if 0 <= i < buf.len() && buf[i] <= 32 {
        ws_end(buf, i + 1)
    } else {
        i
    }
}

/// Where skipping white space (every byte up to 32) at `off` stops; the last
/// byte when the input ends in white space.
pub open spec fn skip_ws(buf: Seq<u8>, off: int) -> int {
    if !(0 <= off < buf.len()) {
        off
    } else {
        let e = ws_end(buf, off);
        if e == buf.len() {
            buf.len() - 1
        } else {
            e
        }
    }
}

pub open spec fn at(buf: Seq<u8>, off: int, b: u8) -> bool {
    0 <= off < buf.len() && buf[off] == b
}

pub open spec fn lit4(buf: Seq<u8>, off: int, a: u8, b: u8, c: u8, d: u8) -> bool {
    0 <= off && off + 4 <= buf.len() && buf[off] == a && buf[off + 1] == b && buf[off + 2] == c
        && buf[off + 3] == d
}

pub open spec fn is_false_lit(buf: Seq<u8>, off: int) -> bool {
    0 <= off && off + 5 <= buf.len() && buf[off] == 102 && buf[off + 1] == 97 && buf[off + 2] == 108
        && buf[off + 3] == 115 && buf[off + 4] == 101
}

pub open spec fn leaf(v: JsonValue, end: int) -> Result<Parsed, int> {
    Ok(Parsed { value: v, end: end, numbers: Seq::empty() })
}

/// The value at `off`, `depth` arrays and objects deep.
#[verifier::opaque]
pub open spec fn spec_parse_value(buf: Seq<u8>, off: int, depth: int) -> Result<Parsed, int>
    decreases buf.len() - off, 2int,
{
    if off < 0 || off > buf.len() {
        Err(off)
    } else if lit4(buf, off, 110, 117, 108, 108) {
        leaf(fresh(cJSON_NULL), off + 4)
    } else if is_false_lit(buf, off) {
        leaf(fresh(cJSON_False), off + 5)
    } else if lit4(buf, off, 116, 114, 117, 101) {
        leaf(JsonValue { valueint: 1, ..fresh(cJSON_True) }, off + 4)
    } else if at(buf, off, 34) {
        match spec_parse_string(buf, off) {
            Ok((s, e)) => leaf(string_node(cJSON_String, s), e),
            Err(e) => Err(e),
        }
    } else if 0 <= off < buf.len() && (buf[off] == 45 || is_digit(buf[off])) {
        spec_parse_number(buf, off)
    } else if at(buf, off, 91) {
        spec_parse_array(buf, off, depth)
    } else if at(buf, off, 123) {
        spec_parse_object(buf, off, depth)
    } else {
        Err(off)
    }
}

/// A number literal at `off`.
pub open spec fn spec_parse_number(buf: Seq<u8>, off: int) -> Result<Parsed, int> {
    let rest = buf.subrange(off, buf.len() as int);
    if numeric_candidate_len(rest) > 63 {
        Err(off)
    } else {
        match spec_parse_number_token(rest) {
            NumberParseResult::Failure { error_offset } => Err(off + error_offset),
            NumberParseResult::Success { length } => Ok(
                Parsed {
                    value: fresh(cJSON_Number),
                    end: off + length,
                    numbers: seq![(off as usize, length)],
                },
            ),
        }
    }
}

/// An array whose `[` is at `off`.
#[verifier::opaque]
pub open spec fn spec_parse_array(buf: Seq<u8>, off: int, depth: int) -> Result<Parsed, int>
    decreases buf.len() - off, 1int,
{
    if depth >= 1000 {
        Err(off)
    } else if off < 0 || off >= buf.len() {
        Err(off)
    } else {
        let o = skip_ws(buf, off + 1);
        if at(buf, o, 93) {
            leaf(fresh(cJSON_Array), o + 1)
        } else if !(o < buf.len()) {
            Err(o - 1)
        } else if o - 1 < off {
            Err(o)
        } else {
            spec_array_items(buf, o - 1, depth + 1, Seq::empty(), Seq::empty())
        }
    }
}

/// The elements of an array after the `[` or `,` at `prev`, appended to the
/// elements `acc` (whose number literals are `nums`).
#[verifier::opaque]
pub open spec fn spec_array_items(
    buf: Seq<u8>,
    prev: int,
    depth: int,
    acc: Seq<JsonValue>,
    nums: Seq<(usize, usize)>,
) -> Result<Parsed, int>
    decreases buf.len() - prev, 0int,
{
    if prev < 0 || prev >= buf.len() {
        Err(prev)
    } else {
        let o = skip_ws(buf, prev + 1);
        if o <= prev || o > buf.len() {
            Err(o)
        } else {
            match spec_parse_value(buf, o, depth) {
                Err(e) => Err(e),
                Ok(p) => {
                    let o2 = skip_ws(buf, p.end);
                    let acc2 = acc.push(p.value);
                    let nums2 = nums + p.numbers;
                    if at(buf, o2, 44) {
                        if o2 <= prev {
                            Err(o2)
                        } else {
                            spec_array_items(buf, o2, depth, acc2, nums2)
                        }
                    } else if !at(buf, o2, 93) {
                        Err(o2)
                    } else {
                        Ok(
                            Parsed {
                                value: with_children(fresh(cJSON_Array), acc2),
                                end: o2 + 1,
                                numbers: nums2,
                            },
                        )
                    }
                },
            }
        }
    }
}

/// An object whose `{` is at `off`.
#[verifier::opaque]
pub open spec fn spec_parse_object(buf: Seq<u8>, off: int, depth: int) -> Result<Parsed, int>
    decreases buf.len() - off, 1int,
{
    if depth >= 1000 {
        Err(off)
    } else if !at(buf, off, 123) {
        Err(off)
    } else {
        let o = skip_ws(buf, off + 1);
        if at(buf, o, 125) {
            leaf(fresh(cJSON_Object), o + 1)
        } else if !(o < buf.len()) {
            Err(o - 1)
        } else if o - 1 < off {
            Err(o)
        } else {
            spec_object_items(buf, o - 1, depth + 1, Seq::empty(), Seq::empty())
        }
    }
}

/// The members of an object after the `{` or `,` at `prev`.
#[verifier::opaque]
pub open spec fn spec_object_items(
    buf: Seq<u8>,
    prev: int,
    depth: int,
    acc: Seq<JsonValue>,
    nums: Seq<(usize, usize)>,
) -> Result<Parsed, int>
    decreases buf.len() - prev, 0int,
{
    if prev < 0 || prev >= buf.len() {
        Err(prev)
    } else {
        let o1 = skip_ws(buf, prev + 1);
        match spec_parse_string(buf, o1) {
            Err(e) => Err(e),
            Ok((key, o2)) => {
                let o3 = skip_ws(buf, o2);
                if !at(buf, o3, 58) {
                    Err(o3)
                } else {
                    let o4 = skip_ws(buf, o3 + 1);
                    if o4 <= prev || o4 > buf.len() {
                        Err(o4)
                    } else {
                        match spec_parse_value(buf, o4, depth) {
                            Err(e) => Err(e),
                            Ok(p) => {
                                let member = JsonValue { string: Some(key), ..p.value };
                                let o5 = skip_ws(buf, p.end);
                                let acc2 = acc.push(member);
                                let nums2 = nums + p.numbers;
                                if at(buf, o5, 44) {
                                    if o5 <= prev {
                                        Err(o5)
                                    } else {
                                        spec_object_items(buf, o5, depth, acc2, nums2)
                                    }
                                } else if !at(buf, o5, 125) {
                                    Err(o5)
                                } else {
                                    Ok(
                                        Parsed {
                                            value: with_children(fresh(cJSON_Object), acc2),
                                            end: o5 + 1,
                                            numbers: nums2,
                                        },
                                    )
                                }
                            },
                        }
                    }
                }
            },
        }
    }
}

/// Where a failed parse reports its error: the offset, or the last byte
/// when the offset is past the end.
pub open spec fn error_position(buf: Seq<u8>, e: int) -> int {
    if e < buf.len() {
        e
    } else if buf.len() > 0 {
        buf.len() - 1
    } else {
        0
    }
}

/// Where reading starts: after a UTF-8 byte order mark when the input is
/// longer than four bytes and starts with one.
pub open spec fn start_offset(buf: Seq<u8>) -> int {
    if 4 < buf.len() && buf[0] == 0xEF && buf[1] == 0xBB && buf[2] == 0xBF {
        3
    } else {
        0
    }
}

/// A whole document: the value, and, when `require_null_terminated`, only
/// white space and a zero byte after it. A failure gives the error
/// position, none for an empty input.
pub open spec fn spec_parse_document(buf: Seq<u8>, require_null_terminated: bool) -> Result<
    Parsed,
    Option<int>,
> {
    if buf.len() == 0 {
        Err(None)
    } else {
        let o1 = skip_ws(buf, start_offset(buf));
        match spec_parse_value(buf, o1, 0) {
            Err(e) => Err(Some(error_position(buf, e))),
            Ok(p) => if require_null_terminated {
                let o2 = skip_ws(buf, p.end);
                if o2 >= buf.len() || buf[o2] != 0 {
                    Err(Some(error_position(buf, o2)))
                } else {
                    Ok(Parsed { end: o2, ..p })
                }
            } else {
                Ok(p)
            },
        }
    }
}

} // verus!

verus! {

pub proof fn lemma_ws_end(buf: Seq<u8>, i: int)
    requires
        0 <= i <= buf.len(),
    ensures
        i <= ws_end(buf, i) <= buf.len(),
        ws_end(buf, i) < buf.len() ==> buf[ws_end(buf, i)] > 32,
    decreases buf.len() - i,
{
    if 0 <= i < buf.len() && buf[i] <= 32 {
        lemma_ws_end(buf, i + 1);
    }
}

pub proof fn lemma_skip_ws(buf: Seq<u8>, off: int)
    requires
        0 <= off,
    ensures
        off < buf.len() ==> off <= skip_ws(buf, off) < buf.len(),
        off >= buf.len() ==> skip_ws(buf, off) == off,
{
    if off < buf.len() {
        lemma_ws_end(buf, off);
    }
}

/// Skips white space at `off` as `skip_ws` says.
pub fn skip_whitespace(input: &[u8], off: usize) -> (r: usize)
    ensures
        r == skip_ws(input@, off as int),
        off < input@.len() ==> off <= r < input@.len(),
        off >= input@.len() ==> r == off,
{
    proof {
        lemma_skip_ws(input@, off as int);
    }
    if off >= input.len() {
        return off;
    }
    let mut i = off;
    while i < input.len() && input[i] <= 32
        invariant
            off <= i <= input@.len(),
            ws_end(input@, i as int) == ws_end(input@, off as int),
        decreases input.len() - i,
    {
        i = i + 1;
    }
    if i == input.len() {
        input.len() - 1
    } else {
        i
    }
}

fn has_byte(input: &[u8], off: usize, b: u8) -> (r: bool)
    ensures
        r == at(input@, off as int, b),
{
    off < input.len() && input[off] == b
}

fn has_lit4(input: &[u8], off: usize, a: u8, b: u8, c: u8, d: u8) -> (r: bool)
    ensures
        r == lit4(input@, off as int, a, b, c, d),
{
    off <= input.len() && input.len() - off >= 4 && input[off] == a && input[off + 1] == b
        && input[off + 2] == c && input[off + 3] == d
}

fn has_false(input: &[u8], off: usize) -> (r: bool)
    ensures
        r == is_false_lit(input@, off as int),
{
    off <= input.len() && input.len() - off >= 5 && input[off] == 102u8 && input[off + 1] == 97u8
        && input[off + 2] == 108u8 && input[off + 3] == 115u8 && input[off + 4] == 101u8
}

/// Reads the number literal at `off` and records its span.
fn parse_number(input: &[u8], off: usize, numbers: &mut Vec<(usize, usize)>) -> (r: Result<
    (cJSON, usize),
    usize,
>)
    requires
        off < input@.len(),
    ensures
        match spec_parse_number(input@, off as int) {
            Ok(p) => r matches Ok((v, e)) && v@ == p.value && e as int == p.end && off < e
                <= input@.len() && final(numbers)@ == old(numbers)@ + p.numbers,
            Err(e) => r matches Err(x) && x as int == e,
        },
{
    let rest = sub_slice(input, off, input.len());
    let candidate_length = consume_numeric_candidate(rest);
    if candidate_length > 63 {
        return Err(off);
    }
    match parse_number_token(rest) {
        NumberParseResult::Failure { error_offset } => {
            proof {
                crate::number::lemma_parse_number_token_bounds(rest@);
            }
            Err(off + error_offset)
        },
        NumberParseResult::Success { length } => {
            numbers.push((off, length));
            let item = new_typed_item(cJSON_Number);
            proof {
                crate::number::lemma_parse_number_token_bounds(rest@);
            }
            Ok((item, off + length))
        },
    }
}

} // verus!

verus! {

pub open spec fn parse_ok(
    p: Parsed,
    r: Result<(cJSON, usize), usize>,
    off: int,
    len: int,
    nums_before: Seq<(usize, usize)>,
    nums_after: Seq<(usize, usize)>,
) -> bool {
    &&& r matches Ok((v, e)) && v@ == p.value && e as int == p.end && off < e <= len
    &&& nums_after == nums_before + p.numbers
}

/// Reads the value at `off`, `depth` arrays and objects deep.
pub fn parse_value(
    input: &[u8],
    off: usize,
    depth: usize,
    numbers: &mut Vec<(usize, usize)>,
) -> (r: Result<(cJSON, usize), usize>)
    requires
        depth <= CJSON_NESTING_LIMIT,
    ensures
        match spec_parse_value(input@, off as int, depth as int) {
            Ok(p) => parse_ok(p, r, off as int, input@.len() as int, old(numbers)@, final(numbers)@),
            Err(e) => r matches Err(x) && x as int == e,
        },
    decreases input@.len() - off, 2int,
{
    proof {
        reveal(spec_parse_value);
        reveal(spec_parse_array);
        reveal(spec_parse_object);
    }
    if off > input.len() {
        return Err(off);
    }
    if has_lit4(input, off, 110u8, 117u8, 108u8, 108u8) {
        return Ok((new_typed_item(cJSON_NULL), off + 4));
    }
    if has_false(input, off) {
        return Ok((new_typed_item(cJSON_False), off + 5));
    }
    if has_lit4(input, off, 116u8, 114u8, 117u8, 101u8) {
        let mut item = new_typed_item(cJSON_True);
        item.valueint = 1;
        proof {
            lemma_view_fields(item);
        }
        return Ok((item, off + 4));
    }
    if has_byte(input, off, 34u8) {
        return match crate::string::parse_string(input, off) {
            Ok((s, e)) => {
                let mut item = new_typed_item(cJSON_String);
                item.valuestring = Some(s);
                proof {
                    lemma_view_fields(item);
                }
                Ok((item, e))
            },
            Err(e) => Err(e),
        };
    }
    if off < input.len() && (input[off] == 45u8 || (48u8 <= input[off] && input[off] <= 57u8)) {
        return parse_number(input, off, numbers);
    }
    if has_byte(input, off, 91u8) {
        assert(!at(input@, off as int, 34));
        assert(!(0 <= off < input@.len() && (input@[off as int] == 45 || is_digit(input@[off as int]))));
        assert(!lit4(input@, off as int, 110, 117, 108, 108));
        assert(spec_parse_value(input@, off as int, depth as int) == spec_parse_array(input@, off as int, depth as int));
        return parse_array(input, off, depth, numbers);
    }
    if has_byte(input, off, 123u8) {
        return parse_object(input, off, depth, numbers);
    }
    Err(off)
}

/// Reads the array whose `[` is at `off`.
pub fn parse_array(
    input: &[u8],
    off: usize,
    depth: usize,
    numbers: &mut Vec<(usize, usize)>,
) -> (r: Result<(cJSON, usize), usize>)
    requires
        depth <= CJSON_NESTING_LIMIT,
        off < input@.len(),
    ensures
        match spec_parse_array(input@, off as int, depth as int) {
            Ok(p) => parse_ok(p, r, off as int, input@.len() as int, old(numbers)@, final(numbers)@),
            Err(e) => r matches Err(x) && x as int == e,
        },
    decreases input@.len() - off, 1int,
{
    proof {
        reveal(spec_parse_array);
        reveal(spec_array_items);
    }
    if depth >= CJSON_NESTING_LIMIT {
        return Err(off);
    }
    let len = input.len();
    let o = skip_whitespace(input, off + 1);
    if has_byte(input, o, 93u8) {
        return Ok((new_typed_item(cJSON_Array), o + 1));
    }
    if !(o < len) {
        return Err(o - 1);
    }
    let ghost result = spec_parse_array(input@, off as int, depth as int);
    let ghost nums0 = numbers@;
    let ghost mut nacc: Seq<(usize, usize)> = Seq::empty();
    let mut children: Vec<cJSON> = Vec::new();
    let mut prev: usize = o - 1;
    assert(views(children@) =~= Seq::<JsonValue>::empty());
    assert(numbers@ =~= nums0 + nacc);
    loop
        invariant
            len == input@.len(),
            depth < CJSON_NESTING_LIMIT,
            off <= prev < len,
            result == spec_parse_array(input@, off as int, depth as int),
            result == spec_array_items(
                input@,
                prev as int,
                depth + 1,
                views(children@),
                nacc,
            ),
            numbers@ == nums0 + nacc,
            nums0 == old(numbers)@,
        decreases len - prev,
    {
        let o = skip_whitespace(input, prev + 1);
        proof {
            lemma_skip_ws(input@, prev + 1);
        }
        let ghost old_views = views(children@);
        proof {
            reveal(spec_array_items);
            reveal(spec_parse_value);
        }
        match parse_value(input, o, depth + 1, numbers) {
            Err(e) => {
                return Err(e);
            },
            Ok((v, end)) => {
                let ghost pv = v@;
                let ghost p = spec_parse_value(input@, o as int, depth + 1)->Ok_0;
                let ghost pn = p.numbers;
                let o2 = skip_whitespace(input, end);
                proof {
                    lemma_skip_ws(input@, end as int);
                }
                children.push(v);
                proof {
                    assert(views(children@) =~= old_views.push(pv));
                    nacc = nacc + pn;
                    assert(numbers@ =~= nums0 + nacc);
                }
                if has_byte(input, o2, 44u8) {
                    prev = o2;
                } else if !has_byte(input, o2, 93u8) {
                    return Err(o2);
                } else {
                    let mut item = new_typed_item(cJSON_Array);
                    item.child = children;
                    proof {
                        lemma_view_fields(item);
                    }
                    return Ok((item, o2 + 1));
                }
            },
        }
    }
}

/// Reads the object whose `{` is at `off`.
pub fn parse_object(
    input: &[u8],
    off: usize,
    depth: usize,
    numbers: &mut Vec<(usize, usize)>,
) -> (r: Result<(cJSON, usize), usize>)
    requires
        depth <= CJSON_NESTING_LIMIT,
        off < input@.len(),
    ensures
        match spec_parse_object(input@, off as int, depth as int) {
            Ok(p) => parse_ok(p, r, off as int, input@.len() as int, old(numbers)@, final(numbers)@),
            Err(e) => r matches Err(x) && x as int == e,
        },
    decreases input@.len() - off, 1int,
{
    proof {
        reveal(spec_parse_object);
        reveal(spec_object_items);
    }
    if depth >= CJSON_NESTING_LIMIT {
        return Err(off);
    }
    if !has_byte(input, off, 123u8) {
        return Err(off);
    }
    let len = input.len();
    let o = skip_whitespace(input, off + 1);
    if has_byte(input, o, 125u8) {
        return Ok((new_typed_item(cJSON_Object), o + 1));
    }
    if !(o < len) {
        return Err(o - 1);
    }
    let ghost result = spec_parse_object(input@, off as int, depth as int);
    let ghost nums0 = numbers@;
    let ghost mut nacc: Seq<(usize, usize)> = Seq::empty();
    let mut children: Vec<cJSON> = Vec::new();
    let mut prev: usize = o - 1;
    assert(views(children@) =~= Seq::<JsonValue>::empty());
    assert(numbers@ =~= nums0 + nacc);
    loop
        invariant
            len == input@.len(),
            depth < CJSON_NESTING_LIMIT,
            off <= prev < len,
            result == spec_parse_object(input@, off as int, depth as int),
            result == spec_object_items(
                input@,
                prev as int,
                depth + 1,
                views(children@),
                nacc,
            ),
            numbers@ == nums0 + nacc,
            nums0 == old(numbers)@,
        decreases len - prev,
    {
        let ghost old_views = views(children@);
        proof {
            reveal(spec_object_items);
            reveal(spec_parse_value);
        }
        let o1 = skip_whitespace(input, prev + 1);
        proof {
            lemma_skip_ws(input@, prev + 1);
        }
        let (key, o2) = match crate::string::parse_string(input, o1) {
            Ok(kv) => kv,
            Err(e) => {
                return Err(e);
            },
        };
        let o3 = skip_whitespace(input, o2);
        proof {
            lemma_skip_ws(input@, o2 as int);
        }
        if !has_byte(input, o3, 58u8) {
            return Err(o3);
        }
        let o4 = skip_whitespace(input, o3 + 1);
        proof {
            lemma_skip_ws(input@, o3 + 1);
        }
        match parse_value(input, o4, depth + 1, numbers) {
            Err(e) => {
                return Err(e);
            },
            Ok((v, end)) => {
                let ghost p = spec_parse_value(input@, o4 as int, depth + 1)->Ok_0;
                let ghost pn = p.numbers;
                let mut member = v;
                proof {
                    lemma_view_fields(member);
                }
                member.string = Some(key);
                proof {
                    lemma_view_fields(member);
                }
                let ghost mv = member@;
                let o5 = skip_whitespace(input, end);
                proof {
                    lemma_skip_ws(input@, end as int);
                }
                children.push(member);
                proof {
                    assert(views(children@) =~= old_views.push(mv));
                    nacc = nacc + pn;
                    assert(numbers@ =~= nums0 + nacc);
                }
                if has_byte(input, o5, 44u8) {
                    prev = o5;
                } else if !has_byte(input, o5, 125u8) {
                    return Err(o5);
                } else {
                    let mut item = new_typed_item(cJSON_Object);
                    item.child = children;
                    proof {
                        lemma_view_fields(item);
                    }
                    return Ok((item, o5 + 1));
                }
            },
        }
    }
}

} // verus!

verus! {

/// Where the last parse failed, as an offset into its input; none after a
/// parse that succeeded or that had no input.
pub struct ErrorState {
    pub position: Option<usize>,
}

/// Forgets the last error.
pub fn clear_parse_error(state: &mut ErrorState)
    ensures
        final(state).position is None,
{
    state.position = None;
}

/// Records an error at `position`.
pub fn set_parse_error(state: &mut ErrorState, position: usize)
    ensures
        final(state).position == Some(position),
{
    state.position = Some(position);
}

/// The position of the last error.
pub fn cJSON_GetErrorPtr(state: &ErrorState) -> (r: Option<usize>)
    ensures
        r == state.position,
{
    state.position
}

/// A parsed document: the root node, the position after the value (after
/// the trailing white space when a terminating zero was required), and the
/// spans of its number literals in document order.
pub struct ParsedDocument {
    pub item: cJSON,
    pub end: usize,
    pub numbers: Vec<(usize, usize)>,
}

pub open spec fn opt_pos(o: Option<usize>) -> Option<int> {
    match o {
        Some(x) => Some(x as int),
        None => None,
    }
}

pub open spec fn document_matches(
    spec: Result<Parsed, Option<int>>,
    r: Result<ParsedDocument, Option<usize>>,
) -> bool {
    match spec {
        Ok(p) => r matches Ok(d) && d.item@ == p.value && d.end as int == p.end && d.numbers@
            == p.numbers,
        Err(e) => r matches Err(x) && opt_pos(x) == e,
    }
}

pub open spec fn error_after(spec: Result<Parsed, Option<int>>, state: ErrorState) -> bool {
    match spec {
        Err(Some(e)) => opt_pos(state.position) == Some(e),
        _ => state.position is None,
    }
}

/// Parses the whole of `value`. Number nodes hold 0 until
/// `fill_numbers` gives them the values of the literals in `numbers`.
/// Records where a failure happened in `error`.
pub fn cJSON_ParseWithLengthOpts(
    value: &[u8],
    require_null_terminated: bool,
    error: &mut ErrorState,
) -> (r: Result<ParsedDocument, Option<usize>>)
    ensures
        document_matches(spec_parse_document(value@, require_null_terminated), r),
        error_after(spec_parse_document(value@, require_null_terminated), *final(error)),
{
    clear_parse_error(error);
    let len = value.len();
    if len == 0 {
        return Err(None);
    }
    let start: usize = if 4 < len && value[0] == 0xEFu8 && value[1] == 0xBBu8 && value[2] == 0xBFu8 {
        3
    } else {
        0
    };
    let o1 = skip_whitespace(value, start);
    let mut numbers: Vec<(usize, usize)> = Vec::new();
    let parsed = parse_value(value, o1, 0, &mut numbers);
    assert(numbers@ =~= Seq::<(usize, usize)>::empty() + numbers@);
    match parsed {
        Err(e) => {
            let pos = if e < len {
                e
            } else {
                len - 1
            };
            set_parse_error(error, pos);
            Err(Some(pos))
        },
        Ok((item, end)) => {
            if require_null_terminated {
                let o2 = skip_whitespace(value, end);
                if o2 >= len || value[o2] != 0 {
                    let pos = if o2 < len {
                        o2
                    } else {
                        len - 1
                    };
                    set_parse_error(error, pos);
                    return Err(Some(pos));
                }
                Ok(ParsedDocument { item, end: o2, numbers })
            } else {
                Ok(ParsedDocument { item, end, numbers })
            }
        },
    }
}

/// Parses the whole of `value`, without the terminating-zero check.
pub fn cJSON_ParseWithLength(value: &[u8], error: &mut ErrorState) -> (r: Result<
    ParsedDocument,
    Option<usize>,
>)
    ensures
        document_matches(spec_parse_document(value@, false), r),
        error_after(spec_parse_document(value@, false), *final(error)),
{
    cJSON_ParseWithLengthOpts(value, false, error)
}

/// The buffer that a C string gives: its bytes up to the first zero, and
/// the terminating zero.
pub open spec fn c_buffer(value: Seq<u8>) -> Seq<u8> {
    crate::string::c_prefix(value).push(0)
}

/// Parses the C string `value` (its bytes up to the first zero, and the
/// zero).
pub fn cJSON_ParseWithOpts(
    value: &[u8],
    require_null_terminated: bool,
    error: &mut ErrorState,
) -> (r: Result<ParsedDocument, Option<usize>>)
    ensures
        document_matches(spec_parse_document(c_buffer(value@), require_null_terminated), r),
        error_after(spec_parse_document(c_buffer(value@), require_null_terminated), *final(error)),
{
    let mut buffer = c_string_prefix(crate::types::copy_bytes(value));
    buffer.push(0u8);
    cJSON_ParseWithLengthOpts(buffer.as_slice(), require_null_terminated, error)
}

/// Parses the C string `value`.
pub fn cJSON_Parse(value: &[u8], error: &mut ErrorState) -> (r: Result<ParsedDocument, Option<usize>>)
    ensures
        document_matches(spec_parse_document(c_buffer(value@), false), r),
        error_after(spec_parse_document(c_buffer(value@), false), *final(error)),
{
    cJSON_ParseWithOpts(value, false, error)
}

} // verus!

verus! {

/// Gives the number nodes of `v`, in preorder, the (double bits, integer)
/// values from position `k` of `vals` on; gives the node and the position
/// after the values it took. A number node left without a value keeps its own.
pub open spec fn fill_node(v: JsonValue, vals: Seq<(u64, i32)>, k: int) -> (JsonValue, int)
    decreases v,
{
    let (v1, k1) = if type_tag_of(v) == 8 && 0 <= k < vals.len() {
        (JsonValue { valuedouble: vals[k].0, valueint: vals[k].1, ..v }, k + 1)
    } else {
        (v, k)
    };
    let (kids, k2) = fill_seq(v.child, vals, k1);
    (JsonValue { child: kids, ..v1 }, k2)
}

pub open spec fn fill_seq(s: Seq<JsonValue>, vals: Seq<(u64, i32)>, k: int) -> (
    Seq<JsonValue>,
    int,
)
    decreases s,
{
    if s.len() == 0 {
        (s, k)
    } else {
        let (a, k1) = fill_node(s[0], vals, k);
        let (rest, k2) = fill_seq(s.drop_first(), vals, k1);
        (seq![a] + rest, k2)
    }
}

pub open spec fn type_tag_of(v: JsonValue) -> i32 {
    v.type_ & 255
}

} // verus!

verus! {

/// Gives the number nodes of `item`, in preorder, the values from position
/// `k` of `vals` on; gives the position after the values used.
fn fill_numbers_from(item: &mut cJSON, vals: &[(u64, i32)], k: usize, Ghost(ov): Ghost<JsonValue>) -> (r: usize)
    requires
        k <= vals@.len(),
        old(item)@ == ov,
    ensures
        (final(item)@, r as int) == fill_node(old(item)@, vals@, k as int),
        k <= r <= vals@.len(),
    decreases ov,
{
    proof {
        lemma_view_fields(*item);
    }
    let mut k1 = k;
    if (item.type_ & 255) == 8 && k < vals.len() {
        item.valuedouble = vals[k].0;
        item.valueint = vals[k].1;
        k1 = k + 1;
    }
    let ghost v1 = JsonValue { child: ov.child, ..item@ };
    proof {
        lemma_view_fields(*item);
        assert(views(item.child@) == ov.child);
    }
    let n = item.child.len();
    let mut i: usize = 0;
    let mut kk = k1;
    assert(ov.child.skip(0) =~= ov.child);
    assert(views(item.child@).take(0) =~= Seq::<JsonValue>::empty());
    while i < n
        invariant
            n == item.child@.len(),
            n == ov.child.len(),
            i <= n,
            k1 <= kk <= vals@.len(),
            item.type_ == v1.type_,
            opt_bytes(item.valuestring) == v1.valuestring,
            opt_bytes(item.string) == v1.string,
            item.valueint == v1.valueint,
            item.valuedouble == v1.valuedouble,
            views(item.child@).skip(i as int) == ov.child.skip(i as int),
            fill_seq(ov.child, vals@, k1 as int) == (
                views(item.child@).take(i as int) + fill_seq(
                    ov.child.skip(i as int),
                    vals@,
                    kk as int,
                ).0,
                fill_seq(ov.child.skip(i as int), vals@, kk as int).1,
            ),
        decreases n - i,
    {
        let ghost before = views(item.child@);
        let ghost c = ov.child[i as int];
        assert(before.skip(i as int)[0] == before[i as int]);
        assert(c == ov.child.skip(i as int)[0]);
        assert(decreases_to!(ov => ov.child[i as int]));
        assert(item.child@[i as int]@ == c);
        let kn = fill_numbers_from(&mut item.child[i], vals, kk, Ghost(c));
        proof {
            let rest = ov.child.skip(i as int);
            assert(rest.drop_first() =~= ov.child.skip(i + 1));
            let after = views(item.child@);
            assert(after =~= before.update(i as int, fill_node(c, vals@, kk as int).0));
            assert(after.take(i + 1) =~= before.take(i as int).push(fill_node(c, vals@, kk as int).0));
            assert(after.skip(i + 1) =~= before.skip(i + 1));
            assert(before.skip(i + 1) =~= before.skip(i as int).drop_first());
        }
        kk = kn;
        i = i + 1;
    }
    proof {
        assert(ov.child.skip(n as int) =~= Seq::<JsonValue>::empty());
        assert(views(item.child@).take(n as int) =~= views(item.child@));
        lemma_view_fields(*item);
    }
    kk
}

/// Gives the number nodes of `item`, in preorder, the values in `vals`.
pub fn fill_numbers(item: &mut cJSON, vals: &[(u64, i32)])
    ensures
        final(item)@ == fill_node(old(item)@, vals@, 0).0,
{
    let _ = fill_numbers_from(item, vals, 0, Ghost(item@));
}

} // verus!
