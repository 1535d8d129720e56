use vstd::prelude::*;
use crate::types::{
    cJSON, JsonValue, lemma_child_views, type_tag, cJSON_False, cJSON_True, cJSON_NULL,
    cJSON_Number, cJSON_String, cJSON_Array, cJSON_Object, cJSON_Raw, TYPE_MASK,
};

verus! {

/// The state of printing: the text so far, the most room that a write has
/// asked for (its offset, its length and the terminating zero), and the
/// index of the next preformatted number.
pub struct PState {
    pub out: Seq<u8>,
    pub peak: int,
    pub ni: int,
}

/// Asks for room for `n` bytes (and a terminating zero) at the end.
pub open spec fn need(st: PState, n: int) -> PState {
    let want = st.out.len() + n + 1;
    PState {
        peak: if want > st.peak {
            want
        } else {
            st.peak
        },
        ..st
    }
}

pub open spec fn emit(st: PState, bytes: Seq<u8>) -> PState {
    PState { out: st.out + bytes, ..st }
}

pub open spec fn hex_char(v: u8) -> u8 {
    if v < 10 {
        (48 + v) as u8
    } else {
        (87 + v) as u8
    }
}

/// How a byte of a string is written in a JSON string literal.
pub open spec fn escape_byte(b: u8) -> Seq<u8> {
    if b > 31 && b != 34 && b != 92 {
        seq![b]
    } else if b == 92 {
        seq![92u8, 92u8]
    } else if b == 34 {
        seq![92u8, 34u8]
    } else if b == 8 {
        seq![92u8, 98u8]
    } else if b == 12 {
        seq![92u8, 102u8]
    } else if b == 10 {
        seq![92u8, 110u8]
    } else if b == 13 {
        seq![92u8, 114u8]
    } else if b == 9 {
        seq![92u8, 116u8]
    } else {
        seq![92u8, 117u8, 48u8, 48u8, hex_char(b / 16), hex_char(b % 16)]
    }
}

/// The escaped form of a string.
pub open spec fn escaped(s: Seq<u8>) -> Seq<u8>
    decreases s.len(),
{
    if s.len() == 0 {
        Seq::empty()
    } else {
        escaped(s.drop_last()) + escape_byte(s.last())
    }
}

/// Writes a string literal; a missing string is written as `""`.
pub open spec fn print_str(st: PState, s: Option<Seq<u8>>) -> PState {
    match s {
        None => emit(need(st, 3), seq![34u8, 34u8]),
        Some(s) => {
            let e = escaped(s);
            emit(need(st, e.len() + 3int), seq![34u8] + e + seq![34u8])
        },
    }
}

pub open spec fn tabs(n: int) -> Seq<u8> {
    Seq::new(n as nat, |i: int| 9u8)
}

pub open spec fn null_lit() -> Seq<u8> {
    seq![110u8, 117u8, 108u8, 108u8]
}

pub open spec fn false_lit() -> Seq<u8> {
    seq![102u8, 97u8, 108u8, 115u8, 101u8]
}

pub open spec fn true_lit() -> Seq<u8> {
    seq![116u8, 114u8, 117u8, 101u8]
}

/// Prints `v` at nesting `depth`; `nums` are the texts of the numbers in
/// the order the printing meets them. None when a number text is missing,
/// a raw node has no text, or a node has no known type.
#[verifier::opaque]
pub open spec fn spec_print_value(
    v: JsonValue,
    depth: int,
    fmt: bool,
    nums: Seq<Seq<u8>>,
    st: PState,
) -> Option<PState>
    decreases v, 2int, 0int,
{
    let t = type_tag(v);
    if t == cJSON_NULL {
        Some(emit(need(st, 4), null_lit()))
    } else if t == cJSON_False {
        Some(emit(need(st, 5), false_lit()))
    } else if t == cJSON_True {
        Some(emit(need(st, 4), true_lit()))
    } else if t == cJSON_Number {
        if 0 <= st.ni < nums.len() {
            let n = nums[st.ni];
            Some(PState { ni: st.ni + 1, ..emit(need(st, n.len() as int), n) })
        } else {
            None
        }
    } else if t == cJSON_Raw {
        match v.valuestring {
            None => None,
            Some(r) => Some(emit(need(st, r.len() + 1int), r)),
        }
    } else if t == cJSON_String {
        Some(print_str(st, v.valuestring))
    } else if t == cJSON_Array {
        let st1 = emit(need(st, 1), seq![91u8]);
        match spec_print_elems(v, 0, depth + 1, fmt, nums, st1) {
            None => None,
            Some(st2) => Some(emit(need(st2, 2), seq![93u8])),
        }
    } else if t == cJSON_Object {
        let open: int = if fmt {
            2
        } else {
            1
        };
        let st1 = emit(
            need(st, open + 1),
            if fmt {
                seq![123u8, 10u8]
            } else {
                seq![123u8]
            },
        );
        match spec_print_members(v, 0, depth + 1, fmt, nums, st1) {
            None => None,
            Some(st2) => if fmt {
                Some(emit(need(st2, depth + 2), tabs(depth) + seq![125u8]))
            } else {
                Some(emit(need(st2, 2), seq![125u8]))
            },
        }
    } else {
        None
    }
}

/// Prints the elements of array `v` from index `i` on.
#[verifier::opaque]
pub open spec fn spec_print_elems(
    v: JsonValue,
    i: int,
    depth: int,
    fmt: bool,
    nums: Seq<Seq<u8>>,
    st: PState,
) -> Option<PState>
    decreases v, 0int, v.child.len() - i,
{
    if i < 0 || i >= v.child.len() {
        Some(st)
    } else {
        match spec_print_value(v.child[i], depth, fmt, nums, st) {
            None => None,
            Some(st2) => {
                let st3 = if i + 1 < v.child.len() {
                    if fmt {
                        emit(need(st2, 3), seq![44u8, 32u8])
                    } else {
                        emit(need(st2, 2), seq![44u8])
                    }
                } else {
                    st2
                };
                spec_print_elems(v, i + 1, depth, fmt, nums, st3)
            },
        }
    }
}

/// Prints the members of object `v` from index `i` on, at nesting `depth`.
#[verifier::opaque]
pub open spec fn spec_print_members(
    v: JsonValue,
    i: int,
    depth: int,
    fmt: bool,
    nums: Seq<Seq<u8>>,
    st: PState,
) -> Option<PState>
    decreases v, 0int, v.child.len() - i,
{
    if i < 0 || i >= v.child.len() {
        Some(st)
    } else {
        let c = v.child[i];
        let sta = if fmt {
            emit(need(st, depth), tabs(depth))
        } else {
            st
        };
        let stb = print_str(sta, c.string);
        let stc = if fmt {
            emit(need(stb, 2), seq![58u8, 9u8])
        } else {
            emit(need(stb, 1), seq![58u8])
        };
        match spec_print_value(c, depth, fmt, nums, stc) {
            None => None,
            Some(std) => {
                let has_next = i + 1 < v.child.len();
                let trailing: int = (if fmt {
                    1int
                } else {
                    0int
                }) + (if has_next {
                    1int
                } else {
                    0int
                });
                let text = (if has_next {
                    seq![44u8]
                } else {
                    Seq::<u8>::empty()
                }) + (if fmt {
                    seq![10u8]
                } else {
                    Seq::<u8>::empty()
                });
                let ste = emit(need(std, trailing + 1), text);
                spec_print_members(v, i + 1, depth, fmt, nums, ste)
            },
        }
    }
}

pub open spec fn start_state() -> PState {
    PState { out: Seq::empty(), peak: 0, ni: 0 }
}

/// The text of `v` when printing it succeeds with the room that `limit`
/// allows.
pub open spec fn spec_print(v: JsonValue, fmt: bool, nums: Seq<Seq<u8>>, limit: int) -> Option<
    Seq<u8>,
> {
    match spec_print_value(v, 0, fmt, nums, start_state()) {
        Some(st) => if st.peak <= limit {
            Some(st.out)
        } else {
            None
        },
        None => None,
    }
}

pub open spec fn texts(nums: Seq<Vec<u8>>) -> Seq<Seq<u8>> {
    Seq::new(nums.len(), |i: int| nums[i]@)
}

} // verus!

verus! {

pub open spec fn state_of(out: Seq<u8>, peak: u128, ni: usize) -> PState {
    PState { out: out, peak: peak as int, ni: ni as int }
}

/// Records a request for room for `n` bytes and a terminating zero.
fn ensure(out: &Vec<u8>, peak: &mut u128, n: u128)
    requires
        n <= u64::MAX as u128 * 8,
    ensures
        *final(peak) as int == need(state_of(out@, *old(peak), 0), n as int).peak,
{
    let want: u128 = out.len() as u128 + n + 1;
    if want > *peak {
        *peak = want;
    }
}

fn push_all(out: &mut Vec<u8>, bytes: &[u8])
    ensures
        final(out)@ == old(out)@ + bytes@,
{
    let ghost start = out@;
    let mut i: usize = 0;
    while i < bytes.len()
        invariant
            i <= bytes@.len(),
            out@ == start + bytes@.take(i as int),
        decreases bytes.len() - i,
    {
        out.push(bytes[i]);
        i = i + 1;
        assert(out@ =~= start + bytes@.take(i as int));
    }
    assert(bytes@.take(bytes@.len() as int) =~= bytes@);
}

pub fn hex_digit_char(v: u8) -> (r: u8)
    requires
        v < 16,
    ensures
        r == hex_char(v),
{
    if v < 10 {
        48 + v
    } else {
        87 + v
    }
}

/// Appends the escaped form of byte `b`.
fn push_escaped_byte(e: &mut Vec<u8>, b: u8)
    ensures
        final(e)@ == old(e)@ + escape_byte(b),
{
    let ghost start = e@;
    if b > 31 && b != 34 && b != 92 {
        e.push(b);
    } else {
        e.push(92u8);
        if b == 92 {
            e.push(92u8);
        } else if b == 34 {
            e.push(34u8);
        } else if b == 8 {
            e.push(98u8);
        } else if b == 12 {
            e.push(102u8);
        } else if b == 10 {
            e.push(110u8);
        } else if b == 13 {
            e.push(114u8);
        } else if b == 9 {
            e.push(116u8);
        } else {
            e.push(117u8);
            e.push(48u8);
            e.push(48u8);
            e.push(hex_digit_char(b / 16));
            e.push(hex_digit_char(b % 16));
        }
    }
    assert(e@ =~= start + escape_byte(b));
}

pub proof fn lemma_escaped_len(s: Seq<u8>)
    ensures
        s.len() <= escaped(s).len() <= 6 * s.len(),
    decreases s.len(),
{
    if s.len() > 0 {
        lemma_escaped_len(s.drop_last());
    }
}

/// The escaped form of a string.
pub fn escape_string(s: &[u8]) -> (r: Vec<u8>)
    ensures
        r@ == escaped(s@),
{
    let mut e: Vec<u8> = Vec::new();
    let mut i: usize = 0;
    assert(s@.take(0) =~= Seq::<u8>::empty());
    while i < s.len()
        invariant
            i <= s@.len(),
            e@ == escaped(s@.take(i as int)),
        decreases s.len() - i,
    {
        push_escaped_byte(&mut e, s[i]);
        assert(s@.take(i + 1).drop_last() =~= s@.take(i as int));
        i = i + 1;
    }
    assert(s@.take(s@.len() as int) =~= s@);
    e
}

/// Writes a string literal, `""` for a missing string.
pub fn print_string_ptr(s: &Option<Vec<u8>>, out: &mut Vec<u8>, peak: &mut u128)
    ensures
        state_of(final(out)@, *final(peak), 0) == print_str(
            state_of(old(out)@, *old(peak), 0),
            crate::types::opt_bytes(*s),
        ),
{
    match s {
        None => {
            ensure(out, peak, 3);
            let ghost before = out@;
            out.push(34u8);
            out.push(34u8);
            assert(out@ =~= before + seq![34u8, 34u8]);
        },
        Some(v) => {
            let e = escape_string(v.as_slice());
            proof {
                lemma_escaped_len(v@);
            }
            ensure(out, peak, e.len() as u128 + 3);
            let ghost before = out@;
            out.push(34u8);
            push_all(out, e.as_slice());
            out.push(34u8);
            assert(out@ =~= before + (seq![34u8] + e@ + seq![34u8]));
        },
    }
}

} // verus!

verus! {

pub open spec fn print_ok(spec: Option<PState>, ok: bool, out: Seq<u8>, peak: u128, ni: usize) -> bool {
    match spec {
        Some(st) => ok && state_of(out, peak, ni) == st,
        None => !ok,
    }
}

fn push_tabs(out: &mut Vec<u8>, n: usize)
    ensures
        final(out)@ == old(out)@ + tabs(n as int),
{
    let ghost start = out@;
    let mut i: usize = 0;
    while i < n
        invariant
            i <= n,
            out@ == start + tabs(i as int),
        decreases n - i,
    {
        out.push(9u8);
        i = i + 1;
        assert(out@ =~= start + tabs(i as int));
    }
}

/// Prints `item` at nesting `depth`, appending to `out`; `peak` tracks the
/// room asked for and `ni` the next preformatted number of `nums`.
pub fn print_value(
    item: &cJSON,
    depth: usize,
    fmt: bool,
    nums: &[Vec<u8>],
    out: &mut Vec<u8>,
    peak: &mut u128,
    ni: &mut usize,
) -> (ok: bool)
    requires
        depth <= old(out)@.len(),
    ensures
        print_ok(
            spec_print_value(
                item@,
                depth as int,
                fmt,
                texts(nums@),
                state_of(old(out)@, *old(peak), *old(ni)),
            ),
            ok,
            final(out)@,
            *final(peak),
            *final(ni),
        ),
        final(out)@.len() >= old(out)@.len(),
    decreases item@, 2int, 0int,
{
    proof {
        reveal(spec_print_value);
    }
    let ghost before = out@;
    let t = item.type_ & TYPE_MASK;
    if t == cJSON_NULL {
        ensure(out, peak, 4);
        out.push(110u8);
        out.push(117u8);
        out.push(108u8);
        out.push(108u8);
        assert(out@ =~= before + null_lit());
        true
    } else if t == cJSON_False {
        ensure(out, peak, 5);
        out.push(102u8);
        out.push(97u8);
        out.push(108u8);
        out.push(115u8);
        out.push(101u8);
        assert(out@ =~= before + false_lit());
        true
    } else if t == cJSON_True {
        ensure(out, peak, 4);
        out.push(116u8);
        out.push(114u8);
        out.push(117u8);
        out.push(101u8);
        assert(out@ =~= before + true_lit());
        true
    } else if t == cJSON_Number {
        if *ni < nums.len() {
            let n = &nums[*ni];
            ensure(out, peak, n.len() as u128);
            push_all(out, n.as_slice());
            *ni = *ni + 1;
            true
        } else {
            false
        }
    } else if t == cJSON_Raw {
        match &item.valuestring {
            None => false,
            Some(r) => {
                ensure(out, peak, r.len() as u128 + 1);
                push_all(out, r.as_slice());
                true
            },
        }
    } else if t == cJSON_String {
        print_string_ptr(&item.valuestring, out, peak);
        true
    } else if t == cJSON_Array {
        print_array(item, depth, fmt, nums, out, peak, ni)
    } else if t == cJSON_Object {
        print_object(item, depth, fmt, nums, out, peak, ni)
    } else {
        false
    }
}

fn print_array(
    item: &cJSON,
    depth: usize,
    fmt: bool,
    nums: &[Vec<u8>],
    out: &mut Vec<u8>,
    peak: &mut u128,
    ni: &mut usize,
) -> (ok: bool)
    requires
        depth <= old(out)@.len(),
        type_tag(item@) == cJSON_Array,
    ensures
        print_ok(
            spec_print_value(
                item@,
                depth as int,
                fmt,
                texts(nums@),
                state_of(old(out)@, *old(peak), *old(ni)),
            ),
            ok,
            final(out)@,
            *final(peak),
            *final(ni),
        ),
        final(out)@.len() >= old(out)@.len(),
    decreases item@, 1int, 0int,
{
    proof {
        reveal(spec_print_value);
        lemma_child_views(item);
    }
    let ghost start = out@;
    ensure(out, peak, 1);
    out.push(91u8);
    assert(out@ =~= start + seq![91u8]);
    let _ = out.len();
    let ghost st1 = state_of(out@, *peak, *ni);
    let d = depth + 1;
    let n = item.child.len();
    let mut i: usize = 0;
    while i < n
        invariant
            n == item.child@.len(),
            n == item@.child.len(),
            i <= n,
            d == depth + 1,
            d <= out@.len(),
            out@.len() >= start.len(),
            start == old(out)@,
            st1 == emit(need(state_of(old(out)@, *old(peak), *old(ni)), 1), seq![91u8]),
            type_tag(item@) == cJSON_Array,
            spec_print_elems(item@, 0, d as int, fmt, texts(nums@), st1) == spec_print_elems(
                item@,
                i as int,
                d as int,
                fmt,
                texts(nums@),
                state_of(out@, *peak, *ni),
            ),
        decreases n - i,
    {
        proof {
            reveal(spec_print_elems);
            reveal(spec_print_value);
        }
        assert(item@.child[i as int] == item.child@[i as int]@);
        assert(decreases_to!(item@ => item@.child[i as int]));
        let ghost si = state_of(out@, *peak, *ni);
        if !print_value(&item.child[i], d, fmt, nums, out, peak, ni) {
            proof {
                reveal(spec_print_value);
            }
            return false;
        }
        let ghost st2 = state_of(out@, *peak, *ni);
        assert(spec_print_value(item@.child[i as int], d as int, fmt, texts(nums@), si) == Some(st2));
        if i + 1 < n {
            let ghost b = out@;
            if fmt {
                ensure(out, peak, 3);
                out.push(44u8);
                out.push(32u8);
                assert(out@ =~= b + seq![44u8, 32u8]);
                assert(state_of(out@, *peak, *ni) == emit(need(st2, 3), seq![44u8, 32u8]));
            } else {
                ensure(out, peak, 2);
                out.push(44u8);
                assert(out@ =~= b + seq![44u8]);
                assert(state_of(out@, *peak, *ni) == emit(need(st2, 2), seq![44u8]));
            }
        }
        assert(spec_print_elems(item@, i as int, d as int, fmt, texts(nums@), si) == spec_print_elems(item@, i + 1, d as int, fmt, texts(nums@), state_of(out@, *peak, *ni)));
        i = i + 1;
    }
    proof {
        reveal(spec_print_elems);
    }
    let ghost b = out@;
    ensure(out, peak, 2);
    out.push(93u8);
    assert(out@ =~= b + seq![93u8]);
    true
}

fn print_object(
    item: &cJSON,
    depth: usize,
    fmt: bool,
    nums: &[Vec<u8>],
    out: &mut Vec<u8>,
    peak: &mut u128,
    ni: &mut usize,
) -> (ok: bool)
    requires
        depth <= old(out)@.len(),
        type_tag(item@) == cJSON_Object,
    ensures
        print_ok(
            spec_print_value(
                item@,
                depth as int,
                fmt,
                texts(nums@),
                state_of(old(out)@, *old(peak), *old(ni)),
            ),
            ok,
            final(out)@,
            *final(peak),
            *final(ni),
        ),
        final(out)@.len() >= old(out)@.len(),
    decreases item@, 1int, 0int,
{
    proof {
        reveal(spec_print_value);
        lemma_child_views(item);
    }
    let ghost start = out@;
    if fmt {
        ensure(out, peak, 3);
        out.push(123u8);
        out.push(10u8);
        assert(out@ =~= start + seq![123u8, 10u8]);
    } else {
        ensure(out, peak, 2);
        out.push(123u8);
        assert(out@ =~= start + seq![123u8]);
    }
    let _ = out.len();
    let ghost st1 = state_of(out@, *peak, *ni);
    let d = depth + 1;
    let n = item.child.len();
    let mut i: usize = 0;
    while i < n
        invariant
            n == item.child@.len(),
            n == item@.child.len(),
            i <= n,
            d == depth + 1,
            d <= out@.len(),
            out@.len() >= start.len(),
            start == old(out)@,
            st1 == emit(
                need(state_of(old(out)@, *old(peak), *old(ni)), if fmt {
                    3int
                } else {
                    2int
                }),
                if fmt {
                    seq![123u8, 10u8]
                } else {
                    seq![123u8]
                },
            ),
            type_tag(item@) == cJSON_Object,
            spec_print_members(item@, 0, d as int, fmt, texts(nums@), st1)
                == spec_print_members(
                item@,
                i as int,
                d as int,
                fmt,
                texts(nums@),
                state_of(out@, *peak, *ni),
            ),
        decreases n - i,
    {
        proof {
            reveal(spec_print_members);
            reveal(spec_print_value);
        }
        let c = &item.child[i];
        assert(item@.child[i as int] == c@);
        assert(decreases_to!(item@ => item@.child[i as int]));
        if fmt {
            ensure(out, peak, d as u128);
            push_tabs(out, d);
        }
        print_string_ptr(&c.string, out, peak);
        let ghost b = out@;
        if fmt {
            ensure(out, peak, 2);
            out.push(58u8);
            out.push(9u8);
            assert(out@ =~= b + seq![58u8, 9u8]);
        } else {
            ensure(out, peak, 1);
            out.push(58u8);
            assert(out@ =~= b + seq![58u8]);
        }
        if !print_value(c, d, fmt, nums, out, peak, ni) {
            proof {
                reveal(spec_print_value);
            }
            return false;
        }
        let has_next = i + 1 < n;
        let trailing: u128 = (if fmt {
            1u128
        } else {
            0u128
        }) + (if has_next {
            1u128
        } else {
            0u128
        });
        let ghost std = state_of(out@, *peak, *ni);
        ensure(out, peak, trailing + 1);
        let ghost b2 = out@;
        if has_next {
            out.push(44u8);
        }
        if fmt {
            out.push(10u8);
        }
        assert(out@ =~= b2 + ((if has_next {
            seq![44u8]
        } else {
            Seq::<u8>::empty()
        }) + (if fmt {
            seq![10u8]
        } else {
            Seq::<u8>::empty()
        })));
        assert(state_of(out@, *peak, *ni) == emit(need(std, trailing as int + 1), (if has_next {
            seq![44u8]
        } else {
            Seq::<u8>::empty()
        }) + (if fmt {
            seq![10u8]
        } else {
            Seq::<u8>::empty()
        })));
        i = i + 1;
    }
    proof {
        reveal(spec_print_members);
    }
    let ghost b = out@;
    if fmt {
        ensure(out, peak, depth as u128 + 2);
        push_tabs(out, depth);
        out.push(125u8);
        assert(out@ =~= b + (tabs(depth as int) + seq![125u8]));
    } else {
        ensure(out, peak, 2);
        out.push(125u8);
        assert(out@ =~= b + seq![125u8]);
    }
    true
}

} // verus!

verus! {

/// The (double bits, integer value) of each number that printing `v` meets,
/// in the order it meets them.
pub open spec fn print_numbers(v: JsonValue) -> Seq<(u64, i32)>
    decreases v, 1int,
{
    let t = type_tag(v);
    if t == cJSON_Number {
        seq![(v.valuedouble, v.valueint)]
    } else if t == cJSON_Array || t == cJSON_Object {
        print_numbers_seq(v.child)
    } else {
        Seq::empty()
    }
}

pub open spec fn print_numbers_seq(s: Seq<JsonValue>) -> Seq<(u64, i32)>
    decreases s, 0int,
{
    if s.len() == 0 {
        Seq::empty()
    } else {
        print_numbers(s[0]) + print_numbers_seq(s.drop_first())
    }
}

fn collect_into(item: &cJSON, out: &mut Vec<(u64, i32)>, Ghost(v): Ghost<JsonValue>)
    requires
        item@ == v,
    ensures
        final(out)@ == old(out)@ + print_numbers(v),
    decreases v,
{
    let t = item.type_ & TYPE_MASK;
    if t == cJSON_Number {
        out.push((item.valuedouble, item.valueint));
        return;
    }
    if t == cJSON_Array || t == cJSON_Object {
        proof {
            lemma_child_views(item);
        }
        let ghost start = out@;
        let n = item.child.len();
        let mut i: usize = 0;
        assert(v.child.skip(0) =~= v.child);
        assert(out@ =~= start + Seq::empty());
        while i < n
            invariant
                n == item.child@.len(),
                n == v.child.len(),
                item@ == v,
                i <= n,
                start + print_numbers_seq(v.child) == out@ + print_numbers_seq(v.child.skip(i as int)),
            decreases n - i,
        {
            let ghost c = v.child[i as int];
            assert(item.child@[i as int]@ == c);
            assert(decreases_to!(v => v.child[i as int]));
            let ghost before = out@;
            collect_into(&item.child[i], out, Ghost(c));
            assert(v.child.skip(i as int).drop_first() =~= v.child.skip(i + 1));
            assert(print_numbers_seq(v.child.skip(i as int)) == print_numbers(c) + print_numbers_seq(v.child.skip(i + 1)));
            assert(before + print_numbers_seq(v.child.skip(i as int)) =~= out@ + print_numbers_seq(v.child.skip(i + 1)));
            i = i + 1;
        }
        assert(v.child.skip(n as int) =~= Seq::<JsonValue>::empty());
        assert(out@ =~= start + print_numbers(v));
        return;
    }
    assert(out@ =~= out@ + print_numbers(v));
}

/// The numbers that printing `item` meets, in that order, so that their
/// texts can be made for `cJSON_Print`.
pub fn collect_numbers(item: &cJSON) -> (r: Vec<(u64, i32)>)
    ensures
        r@ == print_numbers(item@),
{
    let mut out: Vec<(u64, i32)> = Vec::new();
    collect_into(item, &mut out, Ghost(item@));
    assert(out@ =~= print_numbers(item@));
    out
}

pub open spec fn opt_text(o: Option<Vec<u8>>) -> Option<Seq<u8>> {
    match o {
        Some(v) => Some(v@),
        None => None,
    }
}

fn print(item: &cJSON, fmt: bool, numbers: &[Vec<u8>], limit: i32) -> (r: Option<Vec<u8>>)
    requires
        limit >= 0,
    ensures
        opt_text(r) == spec_print(item@, fmt, texts(numbers@), limit as int),
{
    let mut out: Vec<u8> = Vec::new();
    let mut peak: u128 = 0;
    let mut ni: usize = 0;
    assert(state_of(out@, peak, ni) == start_state());
    if !print_value(item, 0, fmt, numbers, &mut out, &mut peak, &mut ni) {
        return None;
    }
    if peak > limit as u128 {
        return None;
    }
    Some(out)
}

/// The text of `item`, laid out with new lines and tabs; `numbers` are the
/// texts of the numbers that printing meets (see `collect_numbers`). None
/// when printing fails or would need more than `i32::MAX` bytes of room.
pub fn cJSON_Print(item: &cJSON, numbers: &[Vec<u8>]) -> (r: Option<Vec<u8>>)
    ensures
        opt_text(r) == spec_print(item@, true, texts(numbers@), i32::MAX as int),
{
    print(item, true, numbers, i32::MAX)
}

/// The text of `item` without white space.
pub fn cJSON_PrintUnformatted(item: &cJSON, numbers: &[Vec<u8>]) -> (r: Option<Vec<u8>>)
    ensures
        opt_text(r) == spec_print(item@, false, texts(numbers@), i32::MAX as int),
{
    print(item, false, numbers, i32::MAX)
}

/// The text of `item`, printed into a buffer that starts `prebuffer` bytes
/// long; a negative size is refused.
pub fn cJSON_PrintBuffered(item: &cJSON, prebuffer: i32, fmt: bool, numbers: &[Vec<u8>]) -> (r:
    Option<Vec<u8>>)
    ensures
        prebuffer < 0 ==> r is None,
        prebuffer >= 0 ==> opt_text(r) == spec_print(
            item@,
            fmt,
            texts(numbers@),
            i32::MAX as int,
        ),
{
    if prebuffer < 0 {
        return None;
    }
    print(item, fmt, numbers, i32::MAX)
}

/// Prints `item` into the first `length` bytes of `buffer`, which may not
/// grow: on success the buffer starts with the text and a terminating zero,
/// the bytes after it as they were. A failure leaves the buffer as it was.
pub fn cJSON_PrintPreallocated(
    item: &cJSON,
    buffer: &mut Vec<u8>,
    length: i32,
    format: bool,
    numbers: &[Vec<u8>],
) -> (r: bool)
    requires
        length as int <= old(buffer)@.len(),
    ensures
        r == (length >= 0 && spec_print(item@, format, texts(numbers@), length as int) is Some
            && spec_print(item@, format, texts(numbers@), length as int)->Some_0.len() < length),
        r ==> final(buffer)@ == spec_print(item@, format, texts(numbers@), length as int)->Some_0.push(
            0u8,
        ) + old(buffer)@.skip(
            spec_print(item@, format, texts(numbers@), length as int)->Some_0.len() + 1int,
        ),
        !r ==> final(buffer)@ == old(buffer)@,
{
    if length < 0 {
        return false;
    }
    let out = match print(item, format, numbers, length) {
        None => return false,
        Some(out) => out,
    };
    let n = out.len();
    if n >= length as usize {
        return false;
    }
    let ghost orig = buffer@;
    let mut i: usize = 0;
    while i < n
        invariant
            n == out@.len(),
            n < orig.len(),
            i <= n,
            buffer@.len() == orig.len(),
            forall|j: int| 0 <= j < i ==> buffer@[j] == out@[j],
            forall|j: int| i <= j < orig.len() ==> buffer@[j] == orig[j],
        decreases n - i,
    {
        buffer.set(i, out[i]);
        i = i + 1;
    }
    buffer.set(n, 0u8);
    assert(buffer@ =~= out@.push(0u8) + orig.skip(n + 1int));
    true
}

} // verus!

verus! {

pub(crate) proof fn lemma_escaped_cons(b: u8, t: Seq<u8>)
    ensures
        escaped(seq![b] + t) == escape_byte(b) + escaped(t),
    decreases t.len(),
{
    let u = seq![b] + t;
    if t.len() == 0 {
        assert(u.drop_last() =~= Seq::<u8>::empty());
        assert(escaped(Seq::<u8>::empty()) == Seq::<u8>::empty());
        assert(escape_byte(b) + Seq::<u8>::empty() =~= escape_byte(b));
        assert(Seq::<u8>::empty() + escape_byte(b) =~= escape_byte(b));
    } else {
        lemma_escaped_cons(b, t.drop_last());
        assert(u.drop_last() =~= seq![b] + t.drop_last());
        assert(u.last() == t.last());
        assert(escape_byte(b) + escaped(t.drop_last()) + escape_byte(t.last()) =~= escape_byte(b)
            + (escaped(t.drop_last()) + escape_byte(t.last())));
    }
}

proof fn lemma_hex_char(v: u8)
    requires
        v < 16,
    ensures
        crate::string::hex_value(hex_char(v)) == Some(v as int),
        hex_char(v) != 34 && hex_char(v) != 92,
{
}

proof fn lemma_escape_shape(b: u8)
    ensures
        escape_byte(b).len() == 1 ==> escape_byte(b)[0] == b && b != 34 && b != 92,
        escape_byte(b).len() == 2 ==> escape_byte(b)[0] == 92 && escape_byte(b)[1] != 117
            && crate::string::simple_escape(escape_byte(b)[1]) == Some(b),
        escape_byte(b).len() == 6 ==> escape_byte(b)[0] == 92 && escape_byte(b)[1] == 117 && b < 32,
        escape_byte(b).len() == 1 || escape_byte(b).len() == 2 || escape_byte(b).len() == 6,
{
}

pub proof fn lemma_string_end_escaped(buf: Seq<u8>, i: int, s: Seq<u8>)
    requires
        0 <= i,
        i + escaped(s).len() < buf.len(),
        buf.subrange(i, i + escaped(s).len()) == escaped(s),
        buf[i + escaped(s).len()] == 34,
    ensures
        crate::string::string_end(buf, i) == Ok::<int, int>(i + escaped(s).len()),
    decreases s.len(),
{
    if s.len() > 0 {
        let b = s[0];
        let t = s.skip(1);
        assert(seq![b] + t =~= s);
        lemma_escaped_cons(b, t);
        let e = escape_byte(b);
        let n = e.len() as int;
        lemma_escape_shape(b);
        assert(escaped(s) == e + escaped(t));
        assert forall|j: int| 0 <= j < n implies buf[i + j] == e[j] by {
            assert(buf.subrange(i, i + escaped(s).len())[j] == escaped(s)[j]);
        }
        assert(buf.subrange(i + n, i + n + escaped(t).len()) =~= escaped(t)) by {
            assert forall|j: int| 0 <= j < escaped(t).len() implies buf.subrange(
                i + n,
                i + n + escaped(t).len(),
            )[j] == escaped(t)[j] by {
                assert(buf.subrange(i, i + escaped(s).len())[n + j] == escaped(s)[n + j]);
            }
        }
        lemma_string_end_escaped(buf, i + n, t);
        if n == 6 {
            lemma_hex_char(b / 16);
            lemma_hex_char(b % 16);
            assert(crate::string::string_end(buf, i + 5) == crate::string::string_end(buf, i + 6));
            assert(crate::string::string_end(buf, i + 4) == crate::string::string_end(buf, i + 5));
            assert(crate::string::string_end(buf, i + 3) == crate::string::string_end(buf, i + 4));
            assert(crate::string::string_end(buf, i + 2) == crate::string::string_end(buf, i + 3));
        }
    }
}

pub proof fn lemma_decode_escaped(buf: Seq<u8>, p: int, s: Seq<u8>, out: Seq<u8>)
    requires
        0 <= p,
        p + escaped(s).len() < buf.len(),
        buf.subrange(p, p + escaped(s).len()) == escaped(s),
    ensures
        crate::string::decode_body(buf, p, p + escaped(s).len(), out) == Ok::<Seq<u8>, int>(out + s),
    decreases s.len(),
{
    let end = p + escaped(s).len();
    if s.len() == 0 {
        assert(out + s =~= out);
    } else {
        let b = s[0];
        let t = s.skip(1);
        assert(seq![b] + t =~= s);
        lemma_escaped_cons(b, t);
        let e = escape_byte(b);
        let n = e.len() as int;
        lemma_escape_shape(b);
        assert(escaped(s) == e + escaped(t));
        assert forall|j: int| 0 <= j < n implies buf[p + j] == e[j] by {
            assert(buf.subrange(p, end)[j] == escaped(s)[j]);
        }
        assert(buf.subrange(p + n, p + n + escaped(t).len()) =~= escaped(t)) by {
            assert forall|j: int| 0 <= j < escaped(t).len() implies buf.subrange(
                p + n,
                p + n + escaped(t).len(),
            )[j] == escaped(t)[j] by {
                assert(buf.subrange(p, end)[n + j] == escaped(s)[n + j]);
            }
        }
        lemma_decode_escaped(buf, p + n, t, out.push(b));
        assert(out.push(b) + t =~= out + s);
        assert(p + n + escaped(t).len() == end);
        if n == 6 {
            let w = buf.subrange(p, end);
            lemma_hex_char(b / 16);
            lemma_hex_char(b % 16);
            assert(w.subrange(2, 6) =~= seq![48u8, 48u8, hex_char(b / 16), hex_char(b % 16)]);
            assert(crate::string::hex4(w.subrange(2, 6)) == Some(b as u16));
            let code = b as u32;
            assert(code <= 0x7F);
            assert((code & 0x7F) as u8 == b) by (bit_vector)
                requires
                    code == b as u32,
                    code <= 0x7F,
            ;
            assert(vstd::utf8::encode_scalar(code) =~= seq![b]);
            assert(crate::string::utf16_literal(w) == Some((seq![b], 6int)));
            assert(out + seq![b] =~= out.push(b));
        }
    }
}

} // verus!
