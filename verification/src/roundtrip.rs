use vstd::prelude::*;
use crate::types::{
    JsonValue, type_tag, fresh, with_children, height, lemma_child_height, cJSON_NULL,
    cJSON_False, cJSON_True, cJSON_String, cJSON_Array, cJSON_Object,
};
use crate::tree::string_node;
use crate::print::{
    PState, escaped, null_lit, false_lit, true_lit, tabs, spec_print_value, spec_print_elems,
    spec_print_members, spec_print, start_state, lemma_string_end_escaped, lemma_decode_escaped,
    emit, need, print_str, escape_byte,
};
use crate::parse::{
    Parsed, skip_ws, ws_end, spec_parse_value, spec_parse_array, spec_array_items,
    spec_parse_object, spec_object_items, spec_parse_document,
};
use crate::string::spec_parse_string;
use crate::minify::{spec_minify, copy_string};
use crate::compare::{spec_compare, spec_elems_equal, spec_members_in, comparable};
use crate::tree::object_index;
use crate::keys::byte_at;

verus! {

// ---------------------------------------------------------------------
// Values that print and read back
// ---------------------------------------------------------------------

pub open spec fn no_zero(s: Seq<u8>) -> bool {
    forall|j: int| 0 <= j < s.len() ==> s[j] != 0
}

/// A value that printing writes and parsing reads back: null, a boolean, a
/// string without a zero byte, or an array or object of such values whose
/// keys hold no zero byte.
pub open spec fn plain(v: JsonValue) -> bool
    decreases v,
{
    let t = type_tag(v);
    &&& (t == cJSON_NULL || t == cJSON_False || t == cJSON_True || t == cJSON_String || t
        == cJSON_Array || t == cJSON_Object)
    &&& (t == cJSON_String ==> (v.valuestring matches Some(s) && no_zero(s)))
    &&& (t == cJSON_Object ==> forall|i: int|
        0 <= i < v.child.len() ==> ((#[trigger] v.child[i]).string matches Some(k) && no_zero(k)))
    &&& ((t == cJSON_Array || t == cJSON_Object) ==> forall|i: int|
        0 <= i < v.child.len() ==> plain(#[trigger] v.child[i]))
}

/// `s` as a string literal.
pub open spec fn quoted(s: Seq<u8>) -> Seq<u8> {
    seq![34u8] + escaped(s) + seq![34u8]
}

/// The text that printing `v` at nesting `d` writes, laid out with tabs
/// and new lines when `fmt`.
pub open spec fn text_of(v: JsonValue, d: int, fmt: bool) -> Seq<u8>
    decreases v, 1int, 0int,
{
    let t = type_tag(v);
    if t == cJSON_NULL {
        null_lit()
    } else if t == cJSON_False {
        false_lit()
    } else if t == cJSON_True {
        true_lit()
    } else if t == cJSON_String {
        quoted(v.valuestring->0)
    } else if t == cJSON_Array {
        seq![91u8] + elems_text(v, 0, d + 1, fmt) + seq![93u8]
    } else if t == cJSON_Object {
        seq![123u8] + line_end(fmt) + members_text(v, 0, d + 1, fmt) + closing(d + 1, fmt)
    } else {
        Seq::empty()
    }
}

pub open spec fn comma_if(more: bool) -> Seq<u8> {
    if more {
        seq![44u8]
    } else {
        Seq::empty()
    }
}

/// What separates two elements of an array.
pub open spec fn elem_sep(more: bool, fmt: bool) -> Seq<u8> {
    if more && fmt {
        seq![44u8, 32u8]
    } else {
        comma_if(more)
    }
}

/// The elements of `v` from index `i` on, at nesting `d`.
pub open spec fn elems_text(v: JsonValue, i: int, d: int, fmt: bool) -> Seq<u8>
    decreases v, 0int, v.child.len() - i,
{
    if i < 0 || i >= v.child.len() {
        Seq::empty()
    } else {
        text_of(v.child[i], d, fmt) + elem_sep(i + 1 < v.child.len(), fmt) + elems_text(
            v,
            i + 1,
            d,
            fmt,
        )
    }
}

/// How a member starts: its indentation.
pub open spec fn indent(d: int, fmt: bool) -> Seq<u8> {
    if fmt {
        tabs(d)
    } else {
        Seq::empty()
    }
}

/// What follows a key.
pub open spec fn colon(fmt: bool) -> Seq<u8> {
    if fmt {
        seq![58u8, 9u8]
    } else {
        seq![58u8]
    }
}

/// What ends a line.
pub open spec fn line_end(fmt: bool) -> Seq<u8> {
    if fmt {
        seq![10u8]
    } else {
        Seq::empty()
    }
}

/// What closes an object whose members stand at nesting `md`.
pub open spec fn closing(md: int, fmt: bool) -> Seq<u8> {
    indent(md - 1, fmt) + seq![125u8]
}

/// The members of `v` from index `i` on, at nesting `d`.
pub open spec fn members_text(v: JsonValue, i: int, d: int, fmt: bool) -> Seq<u8>
    decreases v, 0int, v.child.len() - i,
{
    if i < 0 || i >= v.child.len() {
        Seq::empty()
    } else {
        indent(d, fmt) + quoted(v.child[i].string->0) + colon(fmt) + text_of(v.child[i], d, fmt)
            + comma_if(i + 1 < v.child.len()) + line_end(fmt) + members_text(v, i + 1, d, fmt)
    }
}

/// What parsing the text of `v` gives: the same types, strings, keys and
/// children, without flags and without the payload that parsing does not
/// set.
pub open spec fn canon(v: JsonValue) -> JsonValue
    decreases v,
{
    let t = type_tag(v);
    if t == cJSON_True {
        JsonValue { valueint: 1, ..fresh(cJSON_True) }
    } else if t == cJSON_String {
        string_node(cJSON_String, v.valuestring->0)
    } else if t == cJSON_Array {
        with_children(
            fresh(cJSON_Array),
            Seq::new(
                v.child.len(),
                |j: int|
                    if 0 <= j < v.child.len() {
                        canon(v.child[j])
                    } else {
                        arbitrary()
                    },
            ),
        )
    } else if t == cJSON_Object {
        with_children(
            fresh(cJSON_Object),
            Seq::new(
                v.child.len(),
                |j: int|
                    if 0 <= j < v.child.len() {
                        JsonValue { string: v.child[j].string, ..canon(v.child[j]) }
                    } else {
                        arbitrary()
                    },
            ),
        )
    } else {
        fresh(t)
    }
}

// ---------------------------------------------------------------------
// Printing
// ---------------------------------------------------------------------

proof fn lemma_print_text(v: JsonValue, d: int, fmt: bool, nums: Seq<Seq<u8>>, st: PState)
    requires
        plain(v),
    ensures
        spec_print_value(v, d, fmt, nums, st) matches Some(st2) && st2.out == st.out + text_of(
            v,
            d,
            fmt,
        ) && st2.ni == st.ni,
    decreases v, 2int, 0int,
{
    reveal(spec_print_value);
    reveal(spec_print_elems);
    reveal(spec_print_members);
    let t = type_tag(v);
    if t == cJSON_Array {
        lemma_print_elems_text(v, 0, d + 1, fmt, nums, emit(need(st, 1), seq![91u8]));
        assert(st.out + seq![91u8] + elems_text(v, 0, d + 1, fmt) + seq![93u8] =~= st.out
            + text_of(v, d, fmt));
    } else if t == cJSON_Object {
        let st1 = if fmt {
            emit(need(st, 3), seq![123u8, 10u8])
        } else {
            emit(need(st, 2), seq![123u8])
        };
        lemma_print_members_text(v, 0, d + 1, fmt, nums, st1);
        assert(st1.out == st.out + seq![123u8] + line_end(fmt)) by {
            if fmt {
                assert(st.out + seq![123u8, 10u8] =~= st.out + seq![123u8] + line_end(fmt));
            } else {
                assert(st.out + seq![123u8] =~= st.out + seq![123u8] + line_end(fmt));
            }
        }
        assert(closing(d + 1, fmt) =~= (if fmt {
            tabs(d) + seq![125u8]
        } else {
            seq![125u8]
        }));
        assert(st1.out + members_text(v, 0, d + 1, fmt) + closing(d + 1, fmt) =~= st.out
            + text_of(v, d, fmt));
    } else if t == cJSON_String {
        assert(st.out + (seq![34u8] + escaped(v.valuestring->0) + seq![34u8]) =~= st.out + text_of(
            v,
            d,
            fmt,
        ));
    }
}

proof fn lemma_print_elems_text(
    v: JsonValue,
    i: int,
    d: int,
    fmt: bool,
    nums: Seq<Seq<u8>>,
    st: PState,
)
    requires
        plain(v),
        type_tag(v) == cJSON_Array,
        0 <= i,
    ensures
        spec_print_elems(v, i, d, fmt, nums, st) matches Some(st2) && st2.out == st.out
            + elems_text(v, i, d, fmt) && st2.ni == st.ni,
    decreases v, 0int, v.child.len() - i,
{
    reveal(spec_print_value);
    reveal(spec_print_elems);
    reveal(spec_print_members);
    if i < v.child.len() {
        let c = v.child[i];
        assert(plain(c));
        assert(decreases_to!(v => v.child[i]));
        lemma_print_text(c, d, fmt, nums, st);
        let st2 = spec_print_value(c, d, fmt, nums, st)->0;
        let more = i + 1 < v.child.len();
        let st3 = if more {
            if fmt {
                emit(need(st2, 3), seq![44u8, 32u8])
            } else {
                emit(need(st2, 2), seq![44u8])
            }
        } else {
            st2
        };
        lemma_print_elems_text(v, i + 1, d, fmt, nums, st3);
        assert(st3.out == st2.out + elem_sep(more, fmt)) by {
            if !more {
                assert(st2.out + Seq::<u8>::empty() =~= st2.out);
            }
        }
        assert(st.out + text_of(c, d, fmt) + elem_sep(more, fmt) + elems_text(v, i + 1, d, fmt)
            =~= st.out + elems_text(v, i, d, fmt));
    }
}

proof fn lemma_print_members_text(
    v: JsonValue,
    i: int,
    d: int,
    fmt: bool,
    nums: Seq<Seq<u8>>,
    st: PState,
)
    requires
        plain(v),
        type_tag(v) == cJSON_Object,
        0 <= i,
    ensures
        spec_print_members(v, i, d, fmt, nums, st) matches Some(st2) && st2.out == st.out
            + members_text(v, i, d, fmt) && st2.ni == st.ni,
    decreases v, 0int, v.child.len() - i,
{
    reveal(spec_print_value);
    reveal(spec_print_elems);
    reveal(spec_print_members);
    if i < v.child.len() {
        let c = v.child[i];
        assert(plain(c));
        let k = c.string->0;
        assert(decreases_to!(v => v.child[i]));
        let sta = if fmt {
            emit(need(st, d), tabs(d))
        } else {
            st
        };
        assert(sta.out == st.out + indent(d, fmt)) by {
            if !fmt {
                assert(st.out + Seq::<u8>::empty() =~= st.out);
            }
        }
        let stb = print_str(sta, c.string);
        let stc = if fmt {
            emit(need(stb, 2), seq![58u8, 9u8])
        } else {
            emit(need(stb, 1), seq![58u8])
        };
        lemma_print_text(c, d, fmt, nums, stc);
        let std = spec_print_value(c, d, fmt, nums, stc)->0;
        let has_next = i + 1 < v.child.len();
        let text = comma_if(has_next) + line_end(fmt);
        assert(text =~= (if has_next {
            seq![44u8]
        } else {
            Seq::<u8>::empty()
        }) + (if fmt {
            seq![10u8]
        } else {
            Seq::<u8>::empty()
        }));
        let trailing: int = (if fmt {
            1int
        } else {
            0int
        }) + (if has_next {
            1int
        } else {
            0int
        });
        let ste = emit(need(std, trailing + 1), text);
        lemma_print_members_text(v, i + 1, d, fmt, nums, ste);
        assert(stb.out == sta.out + quoted(k));
        assert(st.out + indent(d, fmt) + quoted(k) + colon(fmt) + text_of(c, d, fmt) + comma_if(
            has_next,
        ) + line_end(fmt) + members_text(v, i + 1, d, fmt) =~= st.out + members_text(v, i, d, fmt));
    }
}

} // verus!

verus! {

// ---------------------------------------------------------------------
// Parsing
// ---------------------------------------------------------------------

/// The text of a plain value starts with one of the bytes that start a
/// value, none of them white space.
proof fn lemma_text_first(v: JsonValue, d: int, fmt: bool)
    requires
        plain(v),
    ensures
        text_of(v, d, fmt).len() > 0,
        text_of(v, d, fmt)[0] > 32,
        text_of(v, d, fmt)[0] < 0xEF,
        type_tag(v) == cJSON_String ==> text_of(v, d, fmt)[0] == 34,
        type_tag(v) == cJSON_Array ==> text_of(v, d, fmt)[0] == 91,
        type_tag(v) == cJSON_Object ==> text_of(v, d, fmt)[0] == 123,
        type_tag(v) == cJSON_NULL ==> text_of(v, d, fmt) == null_lit(),
        type_tag(v) == cJSON_False ==> text_of(v, d, fmt) == false_lit(),
        type_tag(v) == cJSON_True ==> text_of(v, d, fmt) == true_lit(),
{
}

/// A string without a zero byte, written as a string literal by the
/// printer, reads back as the same string wherever the literal stands, the
/// literal ending after its closing quote.
pub proof fn lemma_parse_string_at(buf: Seq<u8>, off: int, s: Seq<u8>)
    requires
        no_zero(s),
        0 <= off,
        off + quoted(s).len() <= buf.len(),
        buf.subrange(off, off + quoted(s).len()) == quoted(s),
    ensures
        spec_parse_string(buf, off) == Ok::<(Seq<u8>, int), int>((s, off + quoted(s).len())),
{
    let e = escaped(s);
    let q = quoted(s);
    assert(buf[off] == q[0]);
    assert(buf.subrange(off + 1, off + 1 + e.len()) =~= e) by {
        assert forall|j: int| 0 <= j < e.len() implies buf.subrange(off + 1, off + 1 + e.len())[j]
            == e[j] by {
            assert(buf.subrange(off, off + q.len())[1 + j] == q[1 + j]);
        }
    }
    assert(buf[off + 1 + e.len()] == 34) by {
        assert(buf.subrange(off, off + q.len())[1 + e.len() as int] == q[1 + e.len() as int]);
    }
    lemma_string_end_escaped(buf, off + 1, s);
    lemma_decode_escaped(buf, off + 1, s, Seq::empty());
    assert(Seq::<u8>::empty() + s =~= s);
    crate::types::lemma_first_index(s, |b: u8| b == 0, s.len() as int);
    assert(s.take(s.len() as int) =~= s);
}


} // verus!

verus! {

/// `w` stands at `off` in `buf`.
pub open spec fn at_text(buf: Seq<u8>, off: int, w: Seq<u8>) -> bool {
    0 <= off && off + w.len() <= buf.len() && buf.subrange(off, off + w.len()) == w
}

proof fn lemma_at_text_split(buf: Seq<u8>, off: int, a: Seq<u8>, b: Seq<u8>)
    requires
        at_text(buf, off, a + b),
    ensures
        at_text(buf, off, a),
        at_text(buf, off + a.len(), b),
{
    let w = a + b;
    assert(buf.subrange(off, off + a.len()) =~= a) by {
        assert forall|j: int| 0 <= j < a.len() implies buf.subrange(off, off + a.len())[j] == a[j] by {
            assert(buf.subrange(off, off + w.len())[j] == w[j]);
        }
    }
    assert(buf.subrange(off + a.len(), off + a.len() + b.len()) =~= b) by {
        assert forall|j: int| 0 <= j < b.len() implies buf.subrange(
            off + a.len(),
            off + a.len() + b.len(),
        )[j] == b[j] by {
            assert(buf.subrange(off, off + w.len())[a.len() + j] == w[a.len() + j]);
        }
    }
}

proof fn lemma_at_text_index(buf: Seq<u8>, off: int, w: Seq<u8>, j: int)
    requires
        at_text(buf, off, w),
        0 <= j < w.len(),
    ensures
        buf[off + j] == w[j],
{
    assert(buf.subrange(off, off + w.len())[j] == w[j]);
}

proof fn lemma_ws_run(buf: Seq<u8>, a: int, b: int, j: int)
    requires
        0 <= a <= j <= b < buf.len(),
        forall|k: int| a <= k < b ==> buf[k] <= 32,
        buf[b] > 32,
    ensures
        ws_end(buf, j) == b,
    decreases b - j,
{
    if j < b {
        lemma_ws_run(buf, a, b, j + 1);
    }
}

/// Skipping white space from `a` stops at `b` when only white space lies
/// between them.
proof fn lemma_skip_to(buf: Seq<u8>, a: int, b: int)
    requires
        0 <= a <= b < buf.len(),
        forall|k: int| a <= k < b ==> buf[k] <= 32,
        buf[b] > 32,
    ensures
        skip_ws(buf, a) == b,
{
    lemma_ws_run(buf, a, b, a);
}

proof fn lemma_tabs_white(d: int, fmt: bool)
    ensures
        forall|j: int| 0 <= j < indent(d, fmt).len() ==> indent(d, fmt)[j] <= 32,
        forall|j: int| 0 <= j < line_end(fmt).len() ==> line_end(fmt)[j] <= 32,
        line_end(fmt).len() <= 1,
{
}


proof fn lemma_parse_object_step(buf: Seq<u8>, off: int, pd: int, o: int)
    requires
        0 <= pd < 1000,
        crate::parse::at(buf, off, 123),
        skip_ws(buf, off + 1) == o,
        off < o < buf.len(),
    ensures
        spec_parse_object(buf, off, pd) == (if crate::parse::at(buf, o, 125) {
            crate::parse::leaf(fresh(cJSON_Object), o + 1)
        } else {
            spec_object_items(buf, o - 1, pd + 1, Seq::empty(), Seq::empty())
        }),
{
    reveal(spec_parse_value);
    reveal(spec_parse_array);
    reveal(spec_array_items);
    reveal(spec_parse_object);
    reveal(spec_object_items);
}

proof fn lemma_object_items_step(
    buf: Seq<u8>,
    prev: int,
    pd: int,
    acc: Seq<JsonValue>,
    o1: int,
    k: Seq<u8>,
    o2: int,
    o4: int,
    p: Parsed,
    o5: int,
)
    requires
        0 <= prev < buf.len(),
        skip_ws(buf, prev + 1) == o1,
        spec_parse_string(buf, o1) == Ok::<(Seq<u8>, int), int>((k, o2)),
        skip_ws(buf, o2) == o2,
        crate::parse::at(buf, o2, 58),
        skip_ws(buf, o2 + 1) == o4,
        prev < o4 <= buf.len(),
        spec_parse_value(buf, o4, pd) == Ok::<Parsed, int>(p),
        p.numbers == Seq::<(usize, usize)>::empty(),
        skip_ws(buf, p.end) == o5,
    ensures
        ({
            let member = JsonValue { string: Some(k), ..p.value };
            spec_object_items(buf, prev, pd, acc, Seq::empty()) == (if crate::parse::at(
                buf,
                o5,
                44,
            ) && o5 > prev {
                spec_object_items(buf, o5, pd, acc.push(member), Seq::empty())
            } else if crate::parse::at(buf, o5, 125) && !crate::parse::at(buf, o5, 44) {
                Ok::<Parsed, int>(
                    Parsed {
                        value: with_children(fresh(cJSON_Object), acc.push(member)),
                        end: o5 + 1,
                        numbers: Seq::empty(),
                    },
                )
            } else {
                spec_object_items(buf, prev, pd, acc, Seq::empty())
            })
        }),
{
    reveal(spec_parse_value);
    reveal(spec_parse_array);
    reveal(spec_array_items);
    reveal(spec_parse_object);
    reveal(spec_object_items);
    assert(Seq::<(usize, usize)>::empty() + p.numbers =~= Seq::<(usize, usize)>::empty());
}

#[verifier::rlimit(80)]
proof fn lemma_parse_value_text(buf: Seq<u8>, off: int, pd: int, v: JsonValue, d: int, fmt: bool)
    requires
        plain(v),
        0 <= pd,
        0 <= d,
        pd + height(v) <= 1000,
        at_text(buf, off, text_of(v, d, fmt)),
    ensures
        spec_parse_value(buf, off, pd) == Ok::<Parsed, int>(
            Parsed {
                value: canon(v),
                end: off + text_of(v, d, fmt).len(),
                numbers: Seq::empty(),
            },
        ),
    decreases v, 2int, 0int,
{
    reveal(spec_parse_value);
    reveal(spec_parse_array);
    reveal(spec_array_items);
    reveal(spec_parse_object);
    reveal(spec_object_items);
    lemma_text_first(v, d, fmt);
    let t = type_tag(v);
    let w = text_of(v, d, fmt);
    lemma_at_text_index(buf, off, w, 0);
    if t == cJSON_NULL || t == cJSON_False || t == cJSON_True {
        assert forall|j: int| 0 <= j < w.len() implies buf[off + j] == w[j] by {
            lemma_at_text_index(buf, off, w, j);
        }
    } else if t == cJSON_String {
        lemma_parse_string_at(buf, off, v.valuestring->0);
    } else if t == cJSON_Array {
        lemma_parse_array_text(buf, off, pd, v, d, fmt);
    } else {
        lemma_parse_object_text(buf, off, pd, v, d, fmt);
    }
}

#[verifier::rlimit(80)]
proof fn lemma_parse_array_text(buf: Seq<u8>, off: int, pd: int, v: JsonValue, d: int, fmt: bool)
    requires
        plain(v),
        type_tag(v) == cJSON_Array,
        0 <= pd,
        0 <= d,
        pd + height(v) <= 1000,
        at_text(buf, off, text_of(v, d, fmt)),
    ensures
        spec_parse_array(buf, off, pd) == Ok::<Parsed, int>(
            Parsed {
                value: canon(v),
                end: off + text_of(v, d, fmt).len(),
                numbers: Seq::empty(),
            },
        ),
    decreases v, 1int, 0int,
{
    reveal(spec_parse_value);
    reveal(spec_parse_array);
    reveal(spec_array_items);
    reveal(spec_parse_object);
    reveal(spec_object_items);
    let w = text_of(v, d, fmt);
    let e = elems_text(v, 0, d + 1, fmt);
    assert(w == seq![91u8] + (e + seq![93u8])) by {
        assert(w =~= seq![91u8] + (e + seq![93u8]));
    }
    lemma_at_text_split(buf, off, seq![91u8], e + seq![93u8]);
    if v.child.len() == 0 {
        assert(e =~= Seq::<u8>::empty());
        lemma_at_text_index(buf, off + 1, e + seq![93u8], 0);
        assert(canon(v).child =~= Seq::<JsonValue>::empty());
        assert(canon(v) =~= fresh(cJSON_Array));
    } else {
        let c = v.child[0];
        assert(plain(c));
        lemma_text_first(c, d + 1, fmt);
        assert(e == text_of(c, d + 1, fmt) + (elem_sep(1 < v.child.len(), fmt) + elems_text(
            v,
            1,
            d + 1,
            fmt,
        ))) by {
            assert(e =~= text_of(c, d + 1, fmt) + (elem_sep(1 < v.child.len(), fmt) + elems_text(
                v,
                1,
                d + 1,
                fmt,
            )));
        }
        lemma_at_text_index(buf, off + 1, e + seq![93u8], 0);
        assert((e + seq![93u8])[0] == text_of(c, d + 1, fmt)[0]);
        lemma_parse_elems_text(buf, off, off + 1, pd + 1, v, 0, d + 1, fmt, Seq::empty());
        assert(Seq::<JsonValue>::empty() + canon(v).child.skip(0) =~= canon(v).child);
        assert(with_children(fresh(cJSON_Array), canon(v).child) =~= canon(v));
    }
}

#[verifier::rlimit(80)]
proof fn lemma_parse_object_text(buf: Seq<u8>, off: int, pd: int, v: JsonValue, d: int, fmt: bool)
    requires
        plain(v),
        type_tag(v) == cJSON_Object,
        0 <= pd,
        0 <= d,
        pd + height(v) <= 1000,
        at_text(buf, off, text_of(v, d, fmt)),
    ensures
        spec_parse_object(buf, off, pd) == Ok::<Parsed, int>(
            Parsed {
                value: canon(v),
                end: off + text_of(v, d, fmt).len(),
                numbers: Seq::empty(),
            },
        ),
    decreases v, 1int, 0int,
{
    let w = text_of(v, d, fmt);
    let le = line_end(fmt);
    let m = members_text(v, 0, d + 1, fmt);
    let cl = closing(d + 1, fmt);
    assert(w == seq![123u8] + (le + (m + cl))) by {
        assert(w =~= seq![123u8] + (le + (m + cl)));
    }
    lemma_at_text_split(buf, off, seq![123u8], le + (m + cl));
    lemma_at_text_index(buf, off, seq![123u8], 0);
    lemma_at_text_split(buf, off + 1, le, m + cl);
    lemma_tabs_white(d, fmt);
    lemma_tabs_white(d + 1, fmt);
    let s = off + 1 + le.len();
    if v.child.len() == 0 {
        assert(m =~= Seq::<u8>::empty());
        let ind = indent(d, fmt);
        assert(cl == ind + seq![125u8]);
        assert(m + cl =~= ind + seq![125u8]);
        lemma_at_text_split(buf, s, ind, seq![125u8]);
        lemma_at_text_index(buf, s + ind.len(), seq![125u8], 0);
        assert forall|k: int| off + 1 <= k < s + ind.len() implies buf[k] <= 32 by {
            if k < s {
                lemma_at_text_index(buf, off + 1, le, k - (off + 1));
            } else {
                lemma_at_text_index(buf, s, ind, k - s);
            }
        }
        lemma_skip_to(buf, off + 1, s + ind.len());
        lemma_parse_object_step(buf, off, pd, s + ind.len());
        assert(canon(v).child =~= Seq::<JsonValue>::empty());
        assert(canon(v) =~= fresh(cJSON_Object));
    } else {
        let c = v.child[0];
        let k = c.string->0;
        let ind = indent(d + 1, fmt);
        let q = s + ind.len();
        assert(m + cl == ind + (quoted(k) + (colon(fmt) + text_of(c, d + 1, fmt) + comma_if(
            1 < v.child.len(),
        ) + line_end(fmt) + members_text(v, 1, d + 1, fmt) + cl))) by {
            assert(m + cl =~= ind + (quoted(k) + (colon(fmt) + text_of(c, d + 1, fmt) + comma_if(
                1 < v.child.len(),
            ) + line_end(fmt) + members_text(v, 1, d + 1, fmt) + cl)));
        }
        lemma_at_text_split(
            buf,
            s,
            ind,
            quoted(k) + (colon(fmt) + text_of(c, d + 1, fmt) + comma_if(1 < v.child.len())
                + line_end(fmt) + members_text(v, 1, d + 1, fmt) + cl),
        );
        lemma_at_text_index(
            buf,
            q,
            quoted(k) + (colon(fmt) + text_of(c, d + 1, fmt) + comma_if(1 < v.child.len())
                + line_end(fmt) + members_text(v, 1, d + 1, fmt) + cl),
            0,
        );
        assert forall|kk: int| off + 1 <= kk < q implies buf[kk] <= 32 by {
            if kk < s {
                lemma_at_text_index(buf, off + 1, le, kk - (off + 1));
            } else {
                lemma_at_text_index(buf, s, ind, kk - s);
            }
        }
        lemma_skip_to(buf, off + 1, q);
        lemma_parse_object_step(buf, off, pd, q);
        lemma_parse_members_text(buf, q - 1, s, pd + 1, v, 0, d + 1, fmt, Seq::empty());
        assert(Seq::<JsonValue>::empty() + canon(v).child.skip(0) =~= canon(v).child);
        assert(with_children(fresh(cJSON_Object), canon(v).child) =~= canon(v));
    }
}

#[verifier::rlimit(80)]
proof fn lemma_parse_elems_text(
    buf: Seq<u8>,
    prev: int,
    s: int,
    pd: int,
    v: JsonValue,
    i: int,
    d: int,
    fmt: bool,
    acc: Seq<JsonValue>,
)
    requires
        plain(v),
        type_tag(v) == cJSON_Array,
        0 <= i < v.child.len(),
        1 <= pd,
        0 <= d,
        pd + height(v) <= 1001,
        0 <= prev,
        prev + 1 <= s,
        forall|k: int| prev + 1 <= k < s ==> buf[k] <= 32,
        at_text(buf, s, elems_text(v, i, d, fmt) + seq![93u8]),
    ensures
        spec_array_items(buf, prev, pd, acc, Seq::empty()) == Ok::<Parsed, int>(
            Parsed {
                value: with_children(fresh(cJSON_Array), acc + canon(v).child.skip(i)),
                end: s + elems_text(v, i, d, fmt).len() + 1,
                numbers: Seq::empty(),
            },
        ),
    decreases v, 0int, v.child.len() - i,
{
    reveal(spec_parse_value);
    reveal(spec_parse_array);
    reveal(spec_array_items);
    reveal(spec_parse_object);
    reveal(spec_object_items);
    let c = v.child[i];
    assert(plain(c));
    assert(decreases_to!(v => v.child[i]));
    lemma_child_height(v, i);
    lemma_text_first(c, d, fmt);
    let tc = text_of(c, d, fmt);
    let more = i + 1 < v.child.len();
    let sep = elem_sep(more, fmt);
    assert(elems_text(v, i, d, fmt) + seq![93u8] == tc + (sep + (elems_text(v, i + 1, d, fmt)
        + seq![93u8]))) by {
        assert(elems_text(v, i, d, fmt) + seq![93u8] =~= tc + (sep + (elems_text(v, i + 1, d, fmt)
            + seq![93u8])));
    }
    lemma_at_text_split(buf, s, tc, sep + (elems_text(v, i + 1, d, fmt) + seq![93u8]));
    lemma_at_text_index(buf, s, tc, 0);
    lemma_skip_to(buf, prev + 1, s);
    lemma_parse_value_text(buf, s, pd, c, d, fmt);
    let e1 = s + tc.len();
    lemma_at_text_split(buf, e1, sep, elems_text(v, i + 1, d, fmt) + seq![93u8]);
    assert(canon(v).child[i] == canon(c));
    assert(Seq::<(usize, usize)>::empty() + Seq::<(usize, usize)>::empty() =~= Seq::<
        (usize, usize),
    >::empty());
    if more {
        lemma_at_text_index(buf, e1, sep, 0);
        assert forall|k: int| e1 + 1 <= k < e1 + sep.len() implies buf[k] <= 32 by {
            lemma_at_text_index(buf, e1, sep, k - e1);
        }
        lemma_parse_elems_text(buf, e1, e1 + sep.len(), pd, v, i + 1, d, fmt, acc.push(canon(c)));
        assert(acc.push(canon(c)) + canon(v).child.skip(i + 1) =~= acc + canon(v).child.skip(i));
    } else {
        assert(elems_text(v, i + 1, d, fmt) =~= Seq::<u8>::empty());
        assert(sep =~= Seq::<u8>::empty());
        lemma_at_text_index(buf, e1, elems_text(v, i + 1, d, fmt) + seq![93u8], 0);
        assert(acc.push(canon(c)) =~= acc + canon(v).child.skip(i));
    }
}

#[verifier::rlimit(100)]
proof fn lemma_parse_members_text(
    buf: Seq<u8>,
    prev: int,
    s: int,
    pd: int,
    v: JsonValue,
    i: int,
    md: int,
    fmt: bool,
    acc: Seq<JsonValue>,
)
    requires
        plain(v),
        type_tag(v) == cJSON_Object,
        0 <= i < v.child.len(),
        1 <= pd,
        1 <= md,
        pd + height(v) <= 1001,
        0 <= prev,
        prev + 1 <= s + indent(md, fmt).len(),
        forall|k: int| prev + 1 <= k < s ==> buf[k] <= 32,
        at_text(buf, s, members_text(v, i, md, fmt) + closing(md, fmt)),
    ensures
        spec_object_items(buf, prev, pd, acc, Seq::empty()) == Ok::<Parsed, int>(
            Parsed {
                value: with_children(fresh(cJSON_Object), acc + canon(v).child.skip(i)),
                end: s + (members_text(v, i, md, fmt) + closing(md, fmt)).len(),
                numbers: Seq::empty(),
            },
        ),
    decreases v, 0int, v.child.len() - i,
{
    let c = v.child[i];
    assert(plain(c));
    assert(decreases_to!(v => v.child[i]));
    lemma_child_height(v, i);
    lemma_text_first(c, md, fmt);
    lemma_tabs_white(md, fmt);
    lemma_tabs_white(md - 1, fmt);
    let k = c.string->0;
    let ind = indent(md, fmt);
    let q = quoted(k);
    let col = colon(fmt);
    let tc = text_of(c, md, fmt);
    let more = i + 1 < v.child.len();
    let le = line_end(fmt);
    let rest = members_text(v, i + 1, md, fmt) + closing(md, fmt);
    assert(members_text(v, i, md, fmt) + closing(md, fmt) == ind + (q + (col + (tc + (comma_if(
        more,
    ) + (le + rest)))))) by {
        assert(members_text(v, i, md, fmt) + closing(md, fmt) =~= ind + (q + (col + (tc + (
        comma_if(more) + (le + rest))))));
    }
    lemma_at_text_split(buf, s, ind, q + (col + (tc + (comma_if(more) + (le + rest)))));
    let o1 = s + ind.len();
    lemma_at_text_split(buf, o1, q, col + (tc + (comma_if(more) + (le + rest))));
    lemma_at_text_index(buf, o1, q, 0);
    assert forall|kk: int| prev + 1 <= kk < o1 implies buf[kk] <= 32 by {
        if kk >= s {
            lemma_at_text_index(buf, s, ind, kk - s);
        }
    }
    lemma_skip_to(buf, prev + 1, o1);
    lemma_parse_string_at(buf, o1, k);
    let o2 = o1 + q.len();
    lemma_at_text_split(buf, o2, col, tc + (comma_if(more) + (le + rest)));
    lemma_at_text_index(buf, o2, col, 0);
    assert(skip_ws(buf, o2) == o2);
    let o4 = o2 + col.len();
    lemma_at_text_split(buf, o4, tc, comma_if(more) + (le + rest));
    lemma_at_text_index(buf, o4, tc, 0);
    assert forall|kk: int| o2 + 1 <= kk < o4 implies buf[kk] <= 32 by {
        lemma_at_text_index(buf, o2, col, kk - o2);
    }
    lemma_skip_to(buf, o2 + 1, o4);
    lemma_parse_value_text(buf, o4, pd, c, md, fmt);
    let e1 = o4 + tc.len();
    lemma_at_text_split(buf, e1, comma_if(more), le + rest);
    let member = JsonValue { string: Some(k), ..canon(c) };
    assert(canon(v).child[i] == member);
    let pr = Parsed { value: canon(c), end: e1, numbers: Seq::empty() };
    if more {
        lemma_at_text_index(buf, e1, comma_if(more), 0);
        assert(skip_ws(buf, e1) == e1);
        lemma_object_items_step(buf, prev, pd, acc, o1, k, o2, o4, pr, e1);
        lemma_at_text_split(buf, e1 + 1, le, rest);
        assert forall|kk: int| e1 + 1 <= kk < e1 + 1 + le.len() implies buf[kk] <= 32 by {
            lemma_at_text_index(buf, e1 + 1, le, kk - (e1 + 1));
        }
        lemma_parse_members_text(buf, e1, e1 + 1 + le.len(), pd, v, i + 1, md, fmt, acc.push(member));
        assert(acc.push(member) + canon(v).child.skip(i + 1) =~= acc + canon(v).child.skip(i));
    } else {
        assert(members_text(v, i + 1, md, fmt) =~= Seq::<u8>::empty());
        assert(comma_if(more) =~= Seq::<u8>::empty());
        let ind2 = indent(md - 1, fmt);
        assert(le + rest =~= le + ind2 + seq![125u8]);
        assert(le + rest == (le + ind2) + seq![125u8]);
        lemma_at_text_split(buf, e1, le + ind2, seq![125u8]);
        lemma_at_text_split(buf, e1, le, ind2);
        let close = e1 + le.len() + ind2.len();
        lemma_at_text_index(buf, close, seq![125u8], 0);
        assert forall|kk: int| e1 <= kk < close implies buf[kk] <= 32 by {
            if kk < e1 + le.len() {
                lemma_at_text_index(buf, e1, le, kk - e1);
            } else {
                lemma_at_text_index(buf, e1 + le.len(), ind2, kk - e1 - le.len());
            }
        }
        lemma_skip_to(buf, e1, close);
        lemma_object_items_step(buf, prev, pd, acc, o1, k, o2, o4, pr, close);
        assert(acc.push(member) =~= acc + canon(v).child.skip(i));
    }
}

} // verus!

verus! {

/// A value made of null, booleans, strings, arrays and objects (no numbers
/// and no raw text), whose strings and keys hold no zero byte and that nests
/// at most 1000 deep, printed with or without layout parses back as the
/// same value: the same types, strings, keys and children, without the flags
/// and the payload that parsing does not set (see `canon`); as a whole
/// buffer and as a C string that must end after the value.
pub proof fn lemma_print_then_parse(v: JsonValue, fmt: bool, limit: int)
    requires
        plain(v),
        height(v) <= 1000,
    ensures
        spec_print(v, fmt, Seq::empty(), limit) matches Some(text) ==> {
            &&& spec_parse_document(text, false) == Ok::<Parsed, Option<int>>(
                Parsed { value: canon(v), end: text.len() as int, numbers: Seq::empty() },
            )
            &&& spec_parse_document(text.push(0), true) == Ok::<Parsed, Option<int>>(
                Parsed { value: canon(v), end: text.len() as int, numbers: Seq::empty() },
            )
        },
{
    lemma_print_text(v, 0, fmt, Seq::empty(), start_state());
    let text = text_of(v, 0, fmt);
    assert(start_state().out + text =~= text);
    lemma_text_first(v, 0, fmt);
    let buf1 = text;
    assert(buf1.subrange(0, text.len() as int) =~= text);
    assert(skip_ws(buf1, 0) == 0);
    lemma_parse_value_text(buf1, 0, 0, v, 0, fmt);
    let buf2 = text.push(0);
    assert(buf2.subrange(0, text.len() as int) =~= text);
    assert(buf2[0] == text[0]);
    assert(skip_ws(buf2, 0) == 0);
    lemma_parse_value_text(buf2, 0, 0, v, 0, fmt);
    let n = text.len() as int;
    assert(buf2[n] == 0);
    assert(ws_end(buf2, n + 1) == n + 1);
    assert(ws_end(buf2, n) == n + 1);
    assert(skip_ws(buf2, n) == n);
}

} // verus!

verus! {

// ---------------------------------------------------------------------
// Minifying printed text
// ---------------------------------------------------------------------

/// `s` does not end with a backslash.
pub open spec fn no_end_backslash(s: Seq<u8>) -> bool {
    s.len() == 0 || s.last() != 92
}

/// No string and no key of `v` ends with a backslash.
pub open spec fn clean_ends(v: JsonValue) -> bool
    decreases v,
{
    let t = type_tag(v);
    &&& (t == cJSON_String ==> no_end_backslash(v.valuestring->0))
    &&& (t == cJSON_Object ==> forall|i: int|
        0 <= i < v.child.len() ==> no_end_backslash((#[trigger] v.child[i]).string->0))
    &&& ((t == cJSON_Array || t == cJSON_Object) ==> forall|i: int|
        0 <= i < v.child.len() ==> clean_ends(#[trigger] v.child[i]))
}

/// Bytes that minifying copies one by one outside a string literal.
spec fn kept_byte(b: u8) -> bool {
    b != 0 && b != 9 && b != 10 && b != 13 && b != 32 && b != 47 && b != 34
}

/// White space that minifying drops.
spec fn dropped_byte(b: u8) -> bool {
    b == 9 || b == 10 || b == 13 || b == 32
}

proof fn lemma_min_copy(s: Seq<u8>, i: int, w: Seq<u8>, out: Seq<u8>)
    requires
        at_text(s, i, w),
        forall|j: int| 0 <= j < w.len() ==> kept_byte(#[trigger] w[j]),
    ensures
        spec_minify(s, i, out) == spec_minify(s, i + w.len(), out + w),
    decreases w.len(),
{
    if w.len() == 0 {
        assert(out + w =~= out);
    } else {
        let rest = w.drop_first();
        assert(w =~= seq![w[0]] + rest);
        lemma_at_text_split(s, i, seq![w[0]], rest);
        lemma_at_text_index(s, i, w, 0);
        assert(byte_at(s, i) == w[0]);
        assert(kept_byte(w[0]));
        assert(spec_minify(s, i, out) == spec_minify(s, i + 1, out.push(w[0])));
        assert forall|j: int| 0 <= j < rest.len() implies kept_byte(#[trigger] rest[j]) by {
            assert(rest[j] == w[j + 1]);
        }
        lemma_min_copy(s, i + 1, rest, out.push(w[0]));
        assert(out.push(w[0]) + rest =~= out + w);
    }
}

proof fn lemma_min_skip(s: Seq<u8>, i: int, w: Seq<u8>, out: Seq<u8>)
    requires
        at_text(s, i, w),
        forall|j: int| 0 <= j < w.len() ==> dropped_byte(#[trigger] w[j]),
    ensures
        spec_minify(s, i, out) == spec_minify(s, i + w.len(), out),
    decreases w.len(),
{
    if w.len() > 0 {
        let rest = w.drop_first();
        assert(w =~= seq![w[0]] + rest);
        lemma_at_text_split(s, i, seq![w[0]], rest);
        lemma_at_text_index(s, i, w, 0);
        assert(byte_at(s, i) == w[0]);
        assert(dropped_byte(w[0]));
        assert(spec_minify(s, i, out) == spec_minify(s, i + 1, out));
        assert forall|j: int| 0 <= j < rest.len() implies dropped_byte(#[trigger] rest[j]) by {
            assert(rest[j] == w[j + 1]);
        }
        lemma_min_skip(s, i + 1, rest, out);
    }
}

/// One byte of a string literal that is neither its end nor a backslash
/// before a quote is copied as it stands.
proof fn lemma_copy_plain(s: Seq<u8>, q: int, o: Seq<u8>)
    requires
        0 <= q,
        byte_at(s, q) != 0,
        byte_at(s, q) != 34,
        byte_at(s, q) == 92 ==> byte_at(s, q + 1) != 34,
    ensures
        copy_string(s, q, o) == copy_string(s, q + 1, o.push(byte_at(s, q))),
{
}

proof fn lemma_copy_chunk(s: Seq<u8>, q: int, w: Seq<u8>, o: Seq<u8>)
    requires
        at_text(s, q, w),
        forall|j: int| 0 <= j < w.len() ==> #[trigger] w[j] != 0 && w[j] != 34 && w[j] != 92,
    ensures
        copy_string(s, q, o) == copy_string(s, q + w.len(), o + w),
    decreases w.len(),
{
    if w.len() == 0 {
        assert(o + w =~= o);
    } else {
        let rest = w.drop_first();
        assert(w =~= seq![w[0]] + rest);
        lemma_at_text_split(s, q, seq![w[0]], rest);
        lemma_at_text_index(s, q, w, 0);
        lemma_copy_plain(s, q, o);
        assert forall|j: int| 0 <= j < rest.len() implies #[trigger] rest[j] != 0 && rest[j] != 34
            && rest[j] != 92 by {
            assert(rest[j] == w[j + 1]);
        }
        lemma_copy_chunk(s, q + 1, rest, o.push(w[0]));
        assert(o.push(w[0]) + rest =~= o + w);
    }
}

/// Copying a string literal passes over the escaped form of one byte and
/// keeps it, provided a backslash written as two is not followed by a
/// quote.
proof fn lemma_copy_escape_byte(s: Seq<u8>, q: int, c: u8, o: Seq<u8>)
    requires
        at_text(s, q, escape_byte(c)),
        c != 0,
        c == 92 ==> byte_at(s, q + 2) != 34,
    ensures
        copy_string(s, q, o) == copy_string(s, q + escape_byte(c).len(), o + escape_byte(c)),
{
    let e = escape_byte(c);
    lemma_at_text_index(s, q, e, 0);
    if c > 31 && c != 34 && c != 92 {
        lemma_copy_plain(s, q, o);
        assert(o.push(c) =~= o + e);
    } else if c == 92 {
        lemma_at_text_index(s, q, e, 1);
        lemma_copy_plain(s, q, o);
        lemma_copy_plain(s, q + 1, o.push(92));
        assert(o.push(92).push(92) =~= o + e);
    } else if c == 34 {
        lemma_at_text_index(s, q, e, 1);
        assert(o.push(92).push(34) =~= o + e);
    } else {
        lemma_at_text_index(s, q, e, 1);
        lemma_copy_plain(s, q, o);
        let rest = e.drop_first();
        assert(e =~= seq![e[0]] + rest);
        lemma_at_text_split(s, q, seq![e[0]], rest);
        assert forall|j: int| 0 <= j < rest.len() implies #[trigger] rest[j] != 0 && rest[j] != 34
            && rest[j] != 92 by {
            assert(rest[j] == e[j + 1]);
        }
        lemma_copy_chunk(s, q + 1, rest, o.push(92));
        assert(o.push(92) + rest =~= o + e);
    }
}

/// Copying the body of a string literal written by the printer stops after
/// its closing quote, having copied the whole literal.
proof fn lemma_copy_escaped(s: Seq<u8>, p: int, str: Seq<u8>, o: Seq<u8>)
    requires
        at_text(s, p, escaped(str) + seq![34u8]),
        no_zero(str),
        no_end_backslash(str),
    ensures
        copy_string(s, p, o) == (p + escaped(str).len() + 1, o + escaped(str) + seq![34u8]),
    decreases str.len(),
{
    if str.len() == 0 {
        assert(escaped(str) =~= Seq::<u8>::empty());
        lemma_at_text_index(s, p, escaped(str) + seq![34u8], 0);
        assert(o.push(34) =~= o + escaped(str) + seq![34u8]);
    } else {
        let c = str[0];
        let rest = str.drop_first();
        assert(str =~= seq![c] + rest);
        crate::print::lemma_escaped_cons(c, rest);
        let e = escape_byte(c);
        let tail = escaped(rest) + seq![34u8];
        assert(escaped(str) + seq![34u8] =~= e + tail);
        lemma_at_text_split(s, p, e, tail);
        assert(no_zero(rest)) by {
            assert forall|j: int| 0 <= j < rest.len() implies rest[j] != 0 by {
                assert(rest[j] == str[j + 1]);
            }
        }
        assert(no_end_backslash(rest)) by {
            if rest.len() > 0 {
                assert(rest.last() == str.last());
            }
        }
        if c == 92 {
            assert(rest.len() > 0);
            let c2 = rest[0];
            let r2 = rest.drop_first();
            assert(rest =~= seq![c2] + r2);
            crate::print::lemma_escaped_cons(c2, r2);
            lemma_at_text_index(s, p + e.len(), tail, 0);
            assert(tail[0] == escape_byte(c2)[0]);
            assert(byte_at(s, p + 2) != 34);
        }
        lemma_copy_escape_byte(s, p, c, o);
        lemma_copy_escaped(s, p + e.len(), rest, o + e);
        assert(o + e + escaped(rest) + seq![34u8] =~= o + escaped(str) + seq![34u8]);
    }
}

proof fn lemma_min_string(s: Seq<u8>, i: int, str: Seq<u8>, out: Seq<u8>)
    requires
        at_text(s, i, quoted(str)),
        no_zero(str),
        no_end_backslash(str),
    ensures
        spec_minify(s, i, out) == spec_minify(s, i + quoted(str).len(), out + quoted(str)),
{
    let body = escaped(str) + seq![34u8];
    assert(quoted(str) =~= seq![34u8] + body);
    lemma_at_text_split(s, i, seq![34u8], body);
    lemma_at_text_index(s, i, quoted(str), 0);
    lemma_copy_escaped(s, i + 1, str, out.push(34));
    assert(out.push(34) + escaped(str) + seq![34u8] =~= out + quoted(str));
}

} // verus!

verus! {

proof fn lemma_kept(w: Seq<u8>)
    requires
        w == null_lit() || w == false_lit() || w == true_lit() || w == seq![91u8] || w
            == seq![93u8] || w == seq![123u8] || w == seq![125u8] || w == seq![44u8] || w
            == seq![58u8],
    ensures
        forall|j: int| 0 <= j < w.len() ==> kept_byte(#[trigger] w[j]),
{
}

proof fn lemma_dropped(w: Seq<u8>, d: int)
    requires
        w == tabs(d) || w == seq![10u8] || w == seq![32u8] || w == seq![9u8],
    ensures
        forall|j: int| 0 <= j < w.len() ==> dropped_byte(#[trigger] w[j]),
{
}

/// Minifying passes over the text of `v` printed with layout and writes
/// its text without layout.
proof fn lemma_min_value(s: Seq<u8>, i: int, v: JsonValue, d: int, out: Seq<u8>)
    requires
        plain(v),
        clean_ends(v),
        d >= 0,
        at_text(s, i, text_of(v, d, true)),
    ensures
        spec_minify(s, i, out) == spec_minify(
            s,
            i + text_of(v, d, true).len(),
            out + text_of(v, d, false),
        ),
    decreases v, 2int, 0int,
{
    let t = type_tag(v);
    let w = text_of(v, d, true);
    if t == cJSON_NULL || t == cJSON_False || t == cJSON_True {
        lemma_kept(w);
        lemma_min_copy(s, i, w, out);
    } else if t == cJSON_String {
        lemma_min_string(s, i, v.valuestring->0, out);
    } else if t == cJSON_Array {
        let e = elems_text(v, 0, d + 1, true);
        assert(w == seq![91u8] + e + seq![93u8]);
        lemma_at_text_split(s, i, seq![91u8] + e, seq![93u8]);
        lemma_at_text_split(s, i, seq![91u8], e);
        lemma_kept(seq![91u8]);
        lemma_kept(seq![93u8]);
        lemma_min_copy(s, i, seq![91u8], out);
        let o1 = out + seq![91u8];
        lemma_min_elems(s, i + 1, v, 0, d + 1, o1);
        let o2 = o1 + elems_text(v, 0, d + 1, false);
        lemma_min_copy(s, i + 1 + e.len(), seq![93u8], o2);
        assert(o2 + seq![93u8] =~= out + text_of(v, d, false));
    } else {
        assert(t == cJSON_Object);
        let m = members_text(v, 0, d + 1, true);
        let cl = closing(d + 1, true);
        assert(cl =~= tabs(d) + seq![125u8]);
        assert(w == seq![123u8] + seq![10u8] + m + cl);
        lemma_at_text_split(s, i, seq![123u8] + seq![10u8] + m, cl);
        lemma_at_text_split(s, i, seq![123u8] + seq![10u8], m);
        lemma_at_text_split(s, i, seq![123u8], seq![10u8]);
        let k = i + 2 + m.len();
        lemma_at_text_split(s, k, tabs(d), seq![125u8]);
        lemma_kept(seq![123u8]);
        lemma_kept(seq![125u8]);
        lemma_dropped(seq![10u8], 0);
        lemma_dropped(tabs(d), d);
        lemma_min_copy(s, i, seq![123u8], out);
        let o1 = out + seq![123u8];
        lemma_min_skip(s, i + 1, seq![10u8], o1);
        lemma_min_members(s, i + 2, v, 0, d + 1, o1);
        let o2 = o1 + members_text(v, 0, d + 1, false);
        lemma_min_skip(s, k, tabs(d), o2);
        lemma_min_copy(s, k + d, seq![125u8], o2);
        assert(line_end(false) =~= Seq::<u8>::empty());
        assert(closing(d + 1, false) =~= seq![125u8]);
        assert(o2 + seq![125u8] =~= out + text_of(v, d, false));
    }
}

proof fn lemma_min_elems(s: Seq<u8>, i: int, v: JsonValue, k: int, d: int, out: Seq<u8>)
    requires
        plain(v),
        clean_ends(v),
        type_tag(v) == cJSON_Array,
        0 <= k,
        d >= 0,
        at_text(s, i, elems_text(v, k, d, true)),
    ensures
        spec_minify(s, i, out) == spec_minify(
            s,
            i + elems_text(v, k, d, true).len(),
            out + elems_text(v, k, d, false),
        ),
    decreases v, 0int, v.child.len() - k,
{
    if k >= v.child.len() {
        assert(out + elems_text(v, k, d, false) =~= out);
    } else {
        let c = v.child[k];
        assert(plain(c));
        assert(clean_ends(c));
        assert(decreases_to!(v => v.child[k]));
        let more = k + 1 < v.child.len();
        let tc = text_of(c, d, true);
        let sep = elem_sep(more, true);
        let rest = elems_text(v, k + 1, d, true);
        assert(elems_text(v, k, d, true) == tc + sep + rest);
        lemma_at_text_split(s, i, tc + sep, rest);
        lemma_at_text_split(s, i, tc, sep);
        lemma_min_value(s, i, c, d, out);
        let o1 = out + text_of(c, d, false);
        let j = i + tc.len();
        if more {
            assert(sep =~= seq![44u8] + seq![32u8]);
            lemma_at_text_split(s, j, seq![44u8], seq![32u8]);
            lemma_kept(seq![44u8]);
            lemma_dropped(seq![32u8], 0);
            lemma_min_copy(s, j, seq![44u8], o1);
            lemma_min_skip(s, j + 1, seq![32u8], o1 + seq![44u8]);
            assert(elem_sep(more, false) =~= seq![44u8]);
        } else {
            assert(sep =~= Seq::<u8>::empty());
            assert(elem_sep(more, false) =~= Seq::<u8>::empty());
            assert(o1 + Seq::<u8>::empty() =~= o1);
        }
        let o2 = o1 + elem_sep(more, false);
        lemma_min_elems(s, j + sep.len(), v, k + 1, d, o2);
        assert(o2 + elems_text(v, k + 1, d, false) =~= out + elems_text(v, k, d, false));
    }
}

proof fn lemma_min_members(s: Seq<u8>, i: int, v: JsonValue, k: int, d: int, out: Seq<u8>)
    requires
        plain(v),
        clean_ends(v),
        type_tag(v) == cJSON_Object,
        0 <= k,
        d >= 0,
        at_text(s, i, members_text(v, k, d, true)),
    ensures
        spec_minify(s, i, out) == spec_minify(
            s,
            i + members_text(v, k, d, true).len(),
            out + members_text(v, k, d, false),
        ),
    decreases v, 0int, v.child.len() - k,
{
    if k >= v.child.len() {
        assert(out + members_text(v, k, d, false) =~= out);
    } else {
        let c = v.child[k];
        assert(plain(c));
        assert(clean_ends(c));
        assert(decreases_to!(v => v.child[k]));
        let key = c.string->0;
        let more = k + 1 < v.child.len();
        let q = quoted(key);
        let tc = text_of(c, d, true);
        let cm = comma_if(more);
        let rest = members_text(v, k + 1, d, true);
        assert(members_text(v, k, d, true) == tabs(d) + q + (seq![58u8] + seq![9u8]) + tc + cm
            + seq![10u8] + rest);
        lemma_at_text_split(s, i, tabs(d) + q + (seq![58u8] + seq![9u8]) + tc + cm + seq![10u8], rest);
        lemma_at_text_split(s, i, tabs(d) + q + (seq![58u8] + seq![9u8]) + tc + cm, seq![10u8]);
        lemma_at_text_split(s, i, tabs(d) + q + (seq![58u8] + seq![9u8]) + tc, cm);
        lemma_at_text_split(s, i, tabs(d) + q + (seq![58u8] + seq![9u8]), tc);
        lemma_at_text_split(s, i, tabs(d) + q, seq![58u8] + seq![9u8]);
        lemma_at_text_split(s, i, tabs(d), q);
        let a = i + d;
        let b = a + q.len();
        lemma_at_text_split(s, b, seq![58u8], seq![9u8]);
        lemma_dropped(tabs(d), d);
        lemma_dropped(seq![9u8], 0);
        lemma_dropped(seq![10u8], 0);
        lemma_kept(seq![58u8]);
        lemma_min_skip(s, i, tabs(d), out);
        lemma_min_string(s, a, key, out);
        let o1 = out + q;
        lemma_min_copy(s, b, seq![58u8], o1);
        let o2 = o1 + seq![58u8];
        lemma_min_skip(s, b + 1, seq![9u8], o2);
        lemma_min_value(s, b + 2, c, d, o2);
        let o3 = o2 + text_of(c, d, false);
        let j = b + 2 + tc.len();
        if more {
            assert(cm =~= seq![44u8]);
            lemma_kept(seq![44u8]);
            lemma_min_copy(s, j, seq![44u8], o3);
        } else {
            assert(cm =~= Seq::<u8>::empty());
            assert(o3 + cm =~= o3);
        }
        let o4 = o3 + cm;
        lemma_min_skip(s, j + cm.len(), seq![10u8], o4);
        lemma_min_members(s, j + cm.len() + 1, v, k + 1, d, o4);
        assert(o4 + members_text(v, k + 1, d, false) =~= out + members_text(v, k, d, false));
    }
}

/// Minifying the text that printing with layout writes gives the text that
/// printing without layout writes, for a value made of null, booleans,
/// strings, arrays and objects whose strings and keys hold no zero byte and
/// do not end with a backslash.
pub proof fn lemma_minify_formatted(v: JsonValue, limit1: int, limit2: int)
    requires
        plain(v),
        clean_ends(v),
    ensures
        spec_print(v, true, Seq::empty(), limit1) matches Some(a) ==> (spec_print(
            v,
            false,
            Seq::empty(),
            limit2,
        ) matches Some(b) ==> spec_minify(a, 0, Seq::empty()) == b),
{
    lemma_print_text(v, 0, true, Seq::empty(), start_state());
    lemma_print_text(v, 0, false, Seq::empty(), start_state());
    let a = text_of(v, 0, true);
    assert(start_state().out + a =~= a);
    assert(start_state().out + text_of(v, 0, false) =~= text_of(v, 0, false));
    assert(a.subrange(0, a.len() as int) =~= a);
    lemma_min_value(a, 0, v, 0, Seq::empty());
    assert(Seq::<u8>::empty() + text_of(v, 0, false) =~= text_of(v, 0, false));
    assert(byte_at(a, a.len() as int) == 0);
}

} // verus!

verus! {

// ---------------------------------------------------------------------
// What parsing gives back compares equal to what was printed
// ---------------------------------------------------------------------

proof fn lemma_small_tags()
    ensures
        1i32 & 255i32 == 1i32,
        2i32 & 255i32 == 2i32,
        4i32 & 255i32 == 4i32,
        16i32 & 255i32 == 16i32,
        32i32 & 255i32 == 32i32,
        64i32 & 255i32 == 64i32,
{
    assert(1i32 & 255i32 == 1i32) by (bit_vector);
    assert(2i32 & 255i32 == 2i32) by (bit_vector);
    assert(4i32 & 255i32 == 4i32) by (bit_vector);
    assert(16i32 & 255i32 == 16i32) by (bit_vector);
    assert(32i32 & 255i32 == 32i32) by (bit_vector);
    assert(64i32 & 255i32 == 64i32) by (bit_vector);
}

/// `w` is `canon(v)`, its key aside.
spec fn canon_like(v: JsonValue, w: JsonValue) -> bool {
    w == JsonValue { string: w.string, ..canon(v) }
}

proof fn lemma_compare_canon(v: JsonValue, w: JsonValue, cs: bool, eq: spec_fn(u64, u64) -> bool)
    requires
        plain(v),
        comparable(v, cs),
        canon_like(v, w),
    ensures
        spec_compare(v, w, cs, eq),
        spec_compare(w, v, cs, eq),
    decreases height(v), 1int,
{
    lemma_small_tags();
    let t = type_tag(v);
    assert(type_tag(w) == t);
    if t == cJSON_Array {
        lemma_compare_canon_elems(v, w, 0, cs, eq);
    } else if t == cJSON_Object {
        lemma_compare_canon_members(v, w, 0, cs, eq);
    }
}

proof fn lemma_compare_canon_elems(
    v: JsonValue,
    w: JsonValue,
    i: int,
    cs: bool,
    eq: spec_fn(u64, u64) -> bool,
)
    requires
        plain(v),
        comparable(v, cs),
        type_tag(v) == cJSON_Array,
        canon_like(v, w),
        0 <= i,
    ensures
        spec_elems_equal(v, w, i, cs, eq),
        spec_elems_equal(w, v, i, cs, eq),
    decreases height(v), 0int, v.child.len() - i,
{
    if i < v.child.len() {
        lemma_child_height(v, i);
        assert(plain(v.child[i]));
        assert(comparable(v.child[i], cs));
        assert(w.child[i] == canon(v.child[i]));
        lemma_compare_canon(v.child[i], w.child[i], cs, eq);
        lemma_compare_canon_elems(v, w, i + 1, cs, eq);
    }
}

proof fn lemma_compare_canon_members(
    v: JsonValue,
    w: JsonValue,
    i: int,
    cs: bool,
    eq: spec_fn(u64, u64) -> bool,
)
    requires
        plain(v),
        comparable(v, cs),
        type_tag(v) == cJSON_Object,
        canon_like(v, w),
        0 <= i,
    ensures
        spec_members_in(v, w, i, cs, eq),
        spec_members_in(w, v, i, cs, eq),
    decreases height(v), 0int, v.child.len() - i,
{
    if i < v.child.len() {
        lemma_child_height(v, i);
        assert(plain(v.child[i]));
        assert(comparable(v.child[i], cs));
        let k = v.child[i].string->0;
        assert(object_index(v, k, cs) == Some(i));
        assert forall|j: int| 0 <= j < v.child.len() implies (#[trigger] v.child[j]).string
            == w.child[j].string by {
            assert(w.child[j] == JsonValue { string: v.child[j].string, ..canon(v.child[j]) });
        }
        crate::compare::lemma_object_index_same_keys(v, w, k, cs);
        assert(canon_like(v.child[i], w.child[i]));
        lemma_compare_canon(v.child[i], w.child[i], cs, eq);
        lemma_compare_canon_members(v, w, i + 1, cs, eq);
    }
}

/// A value made of null, booleans, strings, arrays and objects whose
/// strings and keys hold no zero byte, whose members are each found first
/// under their keys and that nests at most 1000 deep, printed with or
/// without layout, parses back to a value that `cJSON_Compare` finds equal
/// to it, both ways, under any number comparison.
pub proof fn lemma_print_then_parse_compares_equal(
    v: JsonValue,
    fmt: bool,
    limit: int,
    cs: bool,
    eq: spec_fn(u64, u64) -> bool,
)
    requires
        plain(v),
        comparable(v, cs),
        height(v) <= 1000,
    ensures
        spec_print(v, fmt, Seq::empty(), limit) matches Some(text) ==> (spec_parse_document(
            text,
            false,
        ) matches Ok(p) && spec_compare(v, p.value, cs, eq) && spec_compare(p.value, v, cs, eq)),
{
    lemma_print_then_parse(v, fmt, limit);
    assert(canon_like(v, canon(v)));
    lemma_compare_canon(v, canon(v), cs, eq);
}

} // verus!
