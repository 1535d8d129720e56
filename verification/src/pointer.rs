use vstd::prelude::*;
use crate::number::is_digit;
use crate::types::{
    cJSON, JsonValue, type_tag, first_index, lemma_first_index, lemma_first_index_bounds, views,
    lemma_view_fields, with_children, fresh, new_typed_item, cJSON_Array, cJSON_Object,
    cJSON_Invalid,
};
use crate::keys::{compare_keys, compare_bytes};
use crate::tree::{
    object_index, cJSON_DetachItemViaPointer, cJSON_DetachItemFromObject,
    cJSON_DetachItemFromObjectCaseSensitive,
};
use crate::string::{c_prefix, c_string_prefix, sub_slice};

verus! {

// ---------------------------------------------------------------------
// Reference tokens (RFC 6901): `~` is written `~0` and `/` is written `~1`
// ---------------------------------------------------------------------

/// How one byte of a key is written in a pointer.
pub open spec fn escape(b: u8) -> Seq<u8> {
    if b == 47 {
        seq![126u8, 49u8]
    } else if b == 126 {
        seq![126u8, 48u8]
    } else {
        seq![b]
    }
}

/// A key written as a reference token.
pub open spec fn encode_token(s: Seq<u8>) -> Seq<u8>
    decreases s.len(),
{
    if s.len() == 0 {
        Seq::empty()
    } else {
        escape(s[0]) + encode_token(s.skip(1))
    }
}

/// The key that a reference token stands for; `None` for a `~` that is not
/// followed by `0` or `1`.
pub open spec fn decode_token(t: Seq<u8>) -> Option<Seq<u8>>
    decreases t.len(),
{
    if t.len() == 0 {
        Some(Seq::empty())
    } else if t[0] == 126 {
        if t.len() < 2 {
            None
        } else if t[1] == 48 {
            match decode_token(t.skip(2)) {
                Some(r) => Some(seq![126u8] + r),
                None => None,
            }
        } else if t[1] == 49 {
            match decode_token(t.skip(2)) {
                Some(r) => Some(seq![47u8] + r),
                None => None,
            }
        } else {
            None
        }
    } else {
        match decode_token(t.skip(1)) {
            Some(r) => Some(seq![t[0]] + r),
            None => None,
        }
    }
}

pub open spec fn prepend(o: Seq<u8>, r: Option<Seq<u8>>) -> Option<Seq<u8>> {
    match r {
        Some(s) => Some(o + s),
        None => None,
    }
}

/// Appends `source`, written as a reference token, to `destination`.
pub fn encode_string_as_pointer(destination: &mut Vec<u8>, source: &[u8])
    ensures
        final(destination)@ == old(destination)@ + encode_token(source@),
{
    let ghost goal = destination@ + encode_token(source@);
    let mut index: usize = 0;
    assert(source@.skip(0) =~= source@);
    while index < source.len()
        invariant
            index <= source@.len(),
            goal == destination@ + encode_token(source@.skip(index as int)),
        decreases source.len() - index,
    {
        let ghost before = destination@;
        let ghost rest = source@.skip(index as int);
        assert(rest[0] == source@[index as int]);
        assert(rest.skip(1) =~= source@.skip(index + 1));
        let b = source[index];
        if b == 47u8 {
            destination.push(126u8);
            destination.push(49u8);
        } else if b == 126u8 {
            destination.push(126u8);
            destination.push(48u8);
        } else {
            destination.push(b);
        }
        assert(destination@ =~= before + escape(b));
        assert(before + (escape(b) + encode_token(source@.skip(index + 1))) =~= destination@
            + encode_token(source@.skip(index + 1)));
        index = index + 1;
    }
    assert(source@.skip(index as int) =~= Seq::<u8>::empty());
    assert(destination@ + Seq::<u8>::empty() =~= destination@);
}

/// The key that `token` stands for, or `None` where an escape is invalid.
pub fn decode_pointer_token(token: &[u8]) -> (r: Option<Vec<u8>>)
    ensures
        match decode_token(token@) {
            Some(s) => r matches Some(v) && v@ == s,
            None => r is None,
        },
{
    let mut output: Vec<u8> = Vec::with_capacity(token.len());
    let mut index: usize = 0;
    assert(token@.skip(0) =~= token@);
    assert(output@ + Seq::<u8>::empty() =~= Seq::<u8>::empty());
    assert(prepend(output@, decode_token(token@)) == decode_token(token@)) by {
        match decode_token(token@) {
            Some(s) => {
                assert(output@ + s =~= s);
            },
            None => {},
        }
    }
    while index < token.len()
        invariant
            index <= token@.len(),
            decode_token(token@) == prepend(output@, decode_token(token@.skip(index as int))),
        decreases token.len() - index,
    {
        let ghost before = output@;
        let ghost rest = token@.skip(index as int);
        assert(rest[0] == token@[index as int]);
        if token[index] == 126u8 {
            if index + 1 >= token.len() {
                return None;
            }
            assert(rest[1] == token@[index + 1]);
            assert(rest.skip(2) =~= token@.skip(index + 2));
            let c = token[index + 1];
            if c == 48u8 {
                output.push(126u8);
            } else if c == 49u8 {
                output.push(47u8);
            } else {
                return None;
            }
            proof {
                match decode_token(token@.skip(index + 2)) {
                    Some(s) => {
                        assert(before + (seq![output@.last()] + s) =~= output@ + s);
                    },
                    None => {},
                }
            }
            index = index + 2;
        } else {
            output.push(token[index]);
            assert(rest.skip(1) =~= token@.skip(index + 1));
            proof {
                match decode_token(token@.skip(index + 1)) {
                    Some(s) => {
                        assert(before + (seq![token@[index as int]] + s) =~= output@ + s);
                    },
                    None => {},
                }
            }
            index = index + 1;
        }
    }
    assert(token@.skip(index as int) =~= Seq::<u8>::empty());
    assert(output@ + Seq::<u8>::empty() =~= output@);
    Some(output)
}

/// Decoding a key written as a reference token gives the key back.
pub proof fn lemma_decode_encode(s: Seq<u8>)
    ensures
        decode_token(encode_token(s)) == Some(s),
    decreases s.len(),
{
    if s.len() > 0 {
        let e = encode_token(s);
        let rest = encode_token(s.skip(1));
        lemma_decode_encode(s.skip(1));
        assert(e == escape(s[0]) + rest);
        if s[0] == 47 || s[0] == 126 {
            assert(e[0] == 126u8);
            assert(e.skip(2) =~= rest);
        } else {
            assert(e[0] == s[0]);
            assert(e.skip(1) =~= rest);
        }
        assert(seq![s[0]] + s.skip(1) =~= s);
    }
}

// ---------------------------------------------------------------------
// Array indices
// ---------------------------------------------------------------------

/// The decimal value of a string of digits.
pub open spec fn decimal(s: Seq<u8>) -> nat
    decreases s.len(),
{
    if s.len() == 0 {
        0
    } else {
        decimal(s.drop_last()) * 10 + (s.last() - 48) as nat
    }
}

pub open spec fn all_digits(s: Seq<u8>) -> bool {
    forall|i: int| 0 <= i < s.len() ==> is_digit(#[trigger] s[i])
}

/// The array index that a token denotes: digits without a leading zero
/// (but `0` itself), whose value fits in `usize`.
pub open spec fn array_index(t: Seq<u8>) -> Option<nat> {
    if t.len() == 0 {
        None
    } else if t[0] == 48 {
        if t.len() == 1 {
            Some(0)
        } else {
            None
        }
    } else if all_digits(t) && decimal(t) <= usize::MAX {
        Some(decimal(t))
    } else {
        None
    }
}

proof fn lemma_decimal_step(t: Seq<u8>, k: int)
    requires
        0 <= k < t.len(),
    ensures
        decimal(t.take(k + 1)) == decimal(t.take(k)) * 10 + (t[k] - 48) as nat,
{
    assert(t.take(k + 1).drop_last() =~= t.take(k));
}

proof fn lemma_decimal_grows(t: Seq<u8>, k: int)
    requires
        0 <= k <= t.len(),
        all_digits(t),
    ensures
        decimal(t) >= decimal(t.take(k)),
    decreases t.len() - k,
{
    if k < t.len() {
        lemma_decimal_step(t, k);
        assert(is_digit(t[k]));
        lemma_decimal_grows(t, k + 1);
    } else {
        assert(t.take(k) =~= t);
    }
}

/// The array index that `token` denotes, if it denotes one.
pub fn decode_array_index_from_pointer(token: &[u8]) -> (r: Option<usize>)
    ensures
        match array_index(token@) {
            Some(n) => r == Some(n as usize),
            None => r is None,
        },
{
    if token.len() == 0 {
        return None;
    }
    if token[0] == 48u8 {
        return if token.len() == 1 {
            Some(0)
        } else {
            None
        };
    }
    let mut parsed_index: usize = 0;
    let mut position: usize = 0;
    assert(token@.take(0) =~= Seq::<u8>::empty());
    while position < token.len()
        invariant
            position <= token@.len(),
            token@.len() > 0,
            token@[0] != 48,
            parsed_index == decimal(token@.take(position as int)),
            forall|i: int| 0 <= i < position ==> is_digit(#[trigger] token@[i]),
        decreases token.len() - position,
    {
        let byte = token[position];
        if !(48u8 <= byte && byte <= 57u8) {
            assert(!all_digits(token@));
            return None;
        }
        proof {
            lemma_decimal_step(token@, position as int);
        }
        let digit: usize = (byte - 48u8) as usize;
        let next = match parsed_index.checked_mul(10) {
            Some(m) => m.checked_add(digit),
            None => None,
        };
        match next {
            Some(v) => {
                parsed_index = v;
            },
            None => {
                proof {
                    if all_digits(token@) {
                        lemma_decimal_grows(token@, position + 1);
                    }
                }
                return None;
            },
        }
        position = position + 1;
    }
    assert(token@.take(position as int) =~= token@);
    Some(parsed_index)
}

// ---------------------------------------------------------------------
// Splitting a pointer
// ---------------------------------------------------------------------

/// The position of the last `/` in `s`, or -1.
pub open spec fn last_slash(s: Seq<u8>) -> int
    decreases s.len(),
{
    if s.len() == 0 {
        -1
    } else if s.last() == 47 {
        s.len() - 1
    } else {
        last_slash(s.drop_last())
    }
}

pub proof fn lemma_last_slash(s: Seq<u8>)
    ensures
        -1 <= last_slash(s) < s.len(),
        last_slash(s) >= 0 ==> s[last_slash(s)] == 47,
    decreases s.len(),
{
    if s.len() > 0 && s.last() != 47 {
        lemma_last_slash(s.drop_last());
    }
}

/// `path` cut at its last `/`: the pointer to the parent and the last
/// reference token.
pub fn split_parent_child(path: &[u8]) -> (r: Option<(&[u8], &[u8])>)
    ensures
        last_slash(path@) < 0 ==> r is None,
        last_slash(path@) >= 0 ==> (r matches Some((p, c)) && p@ == path@.take(last_slash(path@))
            && c@ == path@.skip(last_slash(path@) + 1)),
{
    let mut i: usize = path.len();
    assert(path@.take(i as int) =~= path@);
    while i > 0 && path[i - 1] != 47u8
        invariant
            i <= path@.len(),
            last_slash(path@) == last_slash(path@.take(i as int)),
        decreases i,
    {
        assert(path@.take(i as int).drop_last() =~= path@.take(i - 1));
        i = i - 1;
    }
    if i == 0 {
        return None;
    }
    assert(path@.take(i as int).last() == path@[i - 1]);
    let parent = sub_slice(path, 0, i - 1);
    let child = sub_slice(path, i, path.len());
    assert(parent@ =~= path@.take(i - 1));
    assert(child@ =~= path@.skip(i as int));
    Some((parent, child))
}

/// `bytes` followed by a terminating zero byte.
pub fn nul_terminated(bytes: &[u8]) -> (r: Vec<u8>)
    ensures
        r@ == bytes@.push(0),
{
    let mut output = crate::types::copy_bytes(bytes);
    output.push(0u8);
    output
}

} // verus!

verus! {

// ---------------------------------------------------------------------
// Resolving a pointer
// ---------------------------------------------------------------------

/// The length of the first reference token of `p`.
pub open spec fn token_end(p: Seq<u8>) -> int {
    first_index(p, |b: u8| b == 47)
}

/// Whether the key of `c` compares equal to `name`.
pub open spec fn named(c: JsonValue, name: Seq<u8>, cs: bool) -> bool {
    c.string matches Some(k) && compare_keys(k, name, cs) == 0
}

/// The index of the first member of `v` whose key compares equal to `name`.
pub open spec fn member_named(v: JsonValue, name: Seq<u8>, cs: bool) -> int {
    first_index(v.child, |c: JsonValue| named(c, name, cs))
}

pub proof fn lemma_named_index(v: JsonValue, name: Seq<u8>, cs: bool, i: int)
    requires
        0 <= i <= v.child.len(),
        forall|j: int| 0 <= j < i ==> !named(#[trigger] v.child[j], name, cs),
        i == v.child.len() || named(v.child[i], name, cs),
    ensures
        member_named(v, name, cs) == i,
{
    lemma_first_index(v.child, |c: JsonValue| named(c, name, cs), i);
}

pub proof fn lemma_member_named_bounds(v: JsonValue, name: Seq<u8>, cs: bool)
    ensures
        0 <= member_named(v, name, cs) <= v.child.len(),
{
    lemma_first_index_bounds(v.child, |c: JsonValue| named(c, name, cs));
}

/// The child of `v` that one reference token selects: an array element by
/// its index, an object member by its decoded key.
pub open spec fn select_child(v: JsonValue, token: Seq<u8>, cs: bool) -> Option<usize> {
    if type_tag(v) == cJSON_Array {
        match array_index(token) {
            Some(n) => if n < v.child.len() {
                Some(n as usize)
            } else {
                None
            },
            None => None,
        }
    } else if type_tag(v) == cJSON_Object {
        match decode_token(token) {
            Some(name) => {
                let i = member_named(v, name, cs);
                if i < v.child.len() {
                    Some(i as usize)
                } else {
                    None
                }
            },
            None => None,
        }
    } else {
        None
    }
}

/// The child indices that the `/`-separated tokens of `p` lead to from `v`.
pub open spec fn walk(v: JsonValue, p: Seq<u8>, cs: bool) -> Option<Seq<usize>>
    decreases p.len(),
{
    let e = token_end(p);
    match select_child(v, p.take(e), cs) {
        None => None,
        Some(i) => if 0 <= e < p.len() && i < v.child.len() {
            match walk(v.child[i as int], p.skip(e + 1), cs) {
                Some(rest) => Some(seq![i] + rest),
                None => None,
            }
        } else {
            Some(seq![i])
        },
    }
}

/// The path of child indices that `pointer` designates in `v`.
pub open spec fn pointer_path(v: JsonValue, pointer: Seq<u8>, cs: bool) -> Option<Seq<usize>> {
    if pointer.len() == 0 {
        Some(Seq::empty())
    } else if pointer[0] != 47 {
        None
    } else {
        walk(v, pointer.skip(1), cs)
    }
}

/// The node at the end of `path`.
pub open spec fn node_at(v: JsonValue, path: Seq<usize>) -> Option<JsonValue>
    decreases path.len(),
{
    if path.len() == 0 {
        Some(v)
    } else if path[0] < v.child.len() {
        node_at(v.child[path[0] as int], path.skip(1))
    } else {
        None
    }
}

/// `v` with the node at `path` replaced by `n`.
pub open spec fn replace_at(v: JsonValue, path: Seq<usize>, n: JsonValue) -> JsonValue
    decreases path.len(),
{
    if path.len() == 0 {
        n
    } else if path[0] < v.child.len() {
        with_children(
            v,
            v.child.update(path[0] as int, replace_at(v.child[path[0] as int], path.skip(1), n)),
        )
    } else {
        v
    }
}

/// The node that `pointer` designates in `v`.
pub open spec fn resolve(v: JsonValue, pointer: Seq<u8>, cs: bool) -> Option<JsonValue> {
    match pointer_path(v, pointer, cs) {
        Some(p) => node_at(v, p),
        None => None,
    }
}

pub open spec fn prefix_path(p: Seq<usize>, r: Option<Seq<usize>>) -> Option<Seq<usize>> {
    match r {
        Some(q) => Some(p + q),
        None => None,
    }
}

pub proof fn lemma_node_at_push(v: JsonValue, p: Seq<usize>, n: JsonValue, i: usize)
    requires
        node_at(v, p) == Some(n),
        i < n.child.len(),
    ensures
        node_at(v, p.push(i)) == Some(n.child[i as int]),
    decreases p.len(),
{
    if p.len() == 0 {
        assert(p.push(i)[0] == i);
        assert(p.push(i).skip(1) =~= Seq::<usize>::empty());
        assert(node_at(v.child[i as int], Seq::<usize>::empty()) == Some(v.child[i as int]));
    } else {
        assert(p.push(i)[0] == p[0]);
        assert(p.push(i).skip(1) =~= p.skip(1).push(i));
        lemma_node_at_push(v.child[p[0] as int], p.skip(1), n, i);
    }
}

pub proof fn lemma_replace_same(v: JsonValue, p: Seq<usize>)
    requires
        node_at(v, p) is Some,
    ensures
        replace_at(v, p, node_at(v, p)->0) == v,
    decreases p.len(),
{
    if p.len() > 0 {
        let i = p[0] as int;
        lemma_replace_same(v.child[i], p.skip(1));
        assert(v.child.update(i, v.child[i]) =~= v.child);
    }
}

pub proof fn lemma_replace_twice(v: JsonValue, p: Seq<usize>, a: JsonValue, b: JsonValue)
    requires
        node_at(v, p) is Some,
    ensures
        replace_at(replace_at(v, p, a), p, b) == replace_at(v, p, b),
        node_at(replace_at(v, p, a), p) == Some(a),
    decreases p.len(),
{
    if p.len() > 0 {
        let i = p[0] as int;
        lemma_replace_twice(v.child[i], p.skip(1), a, b);
        let w = replace_at(v, p, a);
        assert(w.child[i] == replace_at(v.child[i], p.skip(1), a));
        assert(w.child.update(i, replace_at(w.child[i], p.skip(1), b)) =~= v.child.update(
            i,
            replace_at(v.child[i], p.skip(1), b),
        ));
    }
}

/// The index of the first member of `object` whose key compares equal to
/// `name`.
pub fn find_object_child_by_name(object: &cJSON, name: &[u8], case_sensitive: bool) -> (r: Option<
    usize,
>)
    ensures
        member_named(object@, name@, case_sensitive) < object@.child.len() ==> r == Some(
            member_named(object@, name@, case_sensitive) as usize,
        ),
        member_named(object@, name@, case_sensitive) >= object@.child.len() ==> r is None,
{
    proof {
        lemma_view_fields(*object);
    }
    let mut i: usize = 0;
    while i < object.child.len()
        invariant
            i <= object.child@.len(),
            object@.child == views(object.child@),
            forall|j: int|
                0 <= j < i ==> !named(#[trigger] object@.child[j], name@, case_sensitive),
        decreases object.child.len() - i,
    {
        proof {
            lemma_view_fields(object.child@[i as int]);
        }
        let found = match &object.child[i].string {
            Some(k) => compare_bytes(k.as_slice(), name, case_sensitive) == 0,
            None => false,
        };
        assert(object@.child[i as int] == object.child@[i as int]@);
        assert(found == named(object@.child[i as int], name@, case_sensitive));
        if found {
            proof {
                lemma_named_index(object@, name@, case_sensitive, i as int);
            }
            return Some(i);
        }
        i = i + 1;
    }
    proof {
        lemma_named_index(object@, name@, case_sensitive, i as int);
    }
    None
}

/// The element at position `item` of `array`.
pub fn get_array_item(array: &cJSON, item: usize) -> (r: Option<&cJSON>)
    ensures
        item < array@.child.len() ==> (r matches Some(c) && c@ == array@.child[item as int]),
        item >= array@.child.len() ==> r is None,
{
    proof {
        lemma_view_fields(*array);
    }
    if item < array.child.len() {
        Some(&array.child[item])
    } else {
        None
    }
}

/// The child of `v` that `token` selects (see `select_child`).
fn select_child_exec(v: &cJSON, token: &[u8], case_sensitive: bool) -> (r: Option<usize>)
    ensures
        r == select_child(v@, token@, case_sensitive),
        r matches Some(i) ==> i < v@.child.len(),
{
    proof {
        lemma_view_fields(*v);
        if let Some(name) = decode_token(token@) {
            lemma_member_named_bounds(v@, name, case_sensitive);
        }
    }
    let t = v.type_ & 255;
    if t == cJSON_Array {
        match decode_array_index_from_pointer(token) {
            Some(n) => if n < v.child.len() {
                Some(n)
            } else {
                None
            },
            None => None,
        }
    } else if t == cJSON_Object {
        match decode_pointer_token(token) {
            Some(name) => find_object_child_by_name(v, name.as_slice(), case_sensitive),
            None => None,
        }
    } else {
        None
    }
}

/// The path and the node that `pointer` designates in `object`.
fn locate<'a>(object: &'a cJSON, pointer: &[u8], case_sensitive: bool) -> (r: Option<
    (Vec<usize>, &'a cJSON),
>)
    ensures
        match pointer_path(object@, pointer@, case_sensitive) {
            Some(p) => r matches Some((v, n)) && v@ == p && node_at(object@, p) == Some(n@),
            None => r is None,
        },
{
    let mut path: Vec<usize> = Vec::new();
    if pointer.len() == 0 {
        assert(path@ =~= Seq::<usize>::empty());
        return Some((path, object));
    }
    if pointer[0] != 47u8 {
        return None;
    }
    let mut cur: &cJSON = object;
    let mut start: usize = 1;
    assert(path@ + Seq::<usize>::empty() =~= Seq::<usize>::empty());
    assert(prefix_path(path@, walk(object@, pointer@.skip(1), case_sensitive)) == walk(
        object@,
        pointer@.skip(1),
        case_sensitive,
    )) by {
        match walk(object@, pointer@.skip(1), case_sensitive) {
            Some(q) => {
                assert(path@ + q =~= q);
            },
            None => {},
        }
    }
    loop
        invariant
            1 <= start <= pointer@.len(),
            node_at(object@, path@) == Some(cur@),
            pointer_path(object@, pointer@, case_sensitive) == prefix_path(
                path@,
                walk(cur@, pointer@.skip(start as int), case_sensitive),
            ),
        decreases pointer.len() - start,
    {
        let ghost rest = pointer@.skip(start as int);
        let mut e: usize = start;
        while e < pointer.len() && pointer[e] != 47u8
            invariant
                start <= e <= pointer@.len(),
                forall|j: int| start <= j < e ==> pointer@[j] != 47,
            decreases pointer.len() - e,
        {
            e = e + 1;
        }
        proof {
            assert forall|j: int| 0 <= j < e - start implies !((|b: u8| b == 47)(
                #[trigger] rest[j],
            )) by {
                assert(rest[j] == pointer@[start + j]);
            }
            if e < pointer.len() {
                assert(rest[e - start] == pointer@[e as int]);
            }
            lemma_first_index(rest, |b: u8| b == 47, e - start);
        }
        let token = sub_slice(pointer, start, e);
        assert(token@ =~= rest.take(e - start));
        let sel = select_child_exec(cur, token, case_sensitive);
        match sel {
            None => {
                return None;
            },
            Some(i) => {
                proof {
                    lemma_view_fields(*cur);
                    lemma_node_at_push(object@, path@, cur@, i);
                }
                let ghost old_path = path@;
                path.push(i);
                if e < pointer.len() {
                    proof {
                        assert(rest.skip(e - start + 1) =~= pointer@.skip(e + 1));
                        match walk(cur@.child[i as int], pointer@.skip(e + 1), case_sensitive) {
                            Some(q) => {
                                assert(old_path + (seq![i] + q) =~= path@ + q);
                            },
                            None => {},
                        }
                    }
                    cur = &cur.child[i];
                    start = e + 1;
                } else {
                    proof {
                        assert(old_path + seq![i] =~= path@);
                    }
                    return Some((path, &cur.child[i]));
                }
            },
        }
    }
}

/// The node that `pointer` designates in `object`, keys compared as given.
pub fn get_item_from_pointer_bytes<'a>(object: &'a cJSON, pointer: &[u8], case_sensitive: bool) -> (r:
    Option<&'a cJSON>)
    ensures
        match resolve(object@, pointer@, case_sensitive) {
            Some(n) => r matches Some(x) && x@ == n,
            None => r is None,
        },
{
    match locate(object, pointer, case_sensitive) {
        Some((_, n)) => Some(n),
        None => None,
    }
}

/// The node that `pointer` designates in `object`; object keys are compared
/// without regard to ASCII case.
pub fn cJSONUtils_GetPointer<'a>(object: &'a cJSON, pointer: &[u8]) -> (r: Option<&'a cJSON>)
    ensures
        match resolve(object@, pointer@, false) {
            Some(n) => r matches Some(x) && x@ == n,
            None => r is None,
        },
{
    get_item_from_pointer_bytes(object, pointer, false)
}

/// The node that `pointer` designates in `object`.
pub fn cJSONUtils_GetPointerCaseSensitive<'a>(object: &'a cJSON, pointer: &[u8]) -> (r: Option<
    &'a cJSON,
>)
    ensures
        match resolve(object@, pointer@, true) {
            Some(n) => r matches Some(x) && x@ == n,
            None => r is None,
        },
{
    get_item_from_pointer_bytes(object, pointer, true)
}

} // verus!

verus! {

// ---------------------------------------------------------------------
// Changing the node at a path
// ---------------------------------------------------------------------

/// Moves the node at `path[k..]` out of `root`, leaving an invalid node in
/// its place.
fn take_at(root: &mut cJSON, path: &[usize], k: usize) -> (r: cJSON)
    requires
        k <= path@.len(),
        node_at(old(root)@, path@.skip(k as int)) is Some,
    ensures
        node_at(old(root)@, path@.skip(k as int)) == Some(r@),
        final(root)@ == replace_at(old(root)@, path@.skip(k as int), fresh(cJSON_Invalid)),
    decreases path.len() - k,
{
    if k == path.len() {
        assert(path@.skip(k as int) =~= Seq::<usize>::empty());
        let mut n = new_typed_item(cJSON_Invalid);
        std::mem::swap(root, &mut n);
        return n;
    }
    let i = path[k];
    let ghost rest = path@.skip(k as int);
    proof {
        lemma_view_fields(*root);
        assert(rest[0] == path@[k as int]);
        assert(rest.skip(1) =~= path@.skip(k + 1));
    }
    let ghost before = views(root.child@);
    let ghost ov = old(root)@;
    let r = take_at(&mut root.child[i], path, k + 1);
    proof {
        lemma_view_fields(*root);
        assert(views(root.child@) =~= before.update(
            i as int,
            replace_at(ov.child[i as int], rest.skip(1), fresh(cJSON_Invalid)),
        ));
    }
    r
}

/// Puts `n` at `path[k..]` in `root`, in place of the node there.
fn put_at(root: &mut cJSON, path: &[usize], k: usize, n: cJSON)
    requires
        k <= path@.len(),
        node_at(old(root)@, path@.skip(k as int)) is Some,
    ensures
        final(root)@ == replace_at(old(root)@, path@.skip(k as int), n@),
    decreases path.len() - k,
{
    if k == path.len() {
        assert(path@.skip(k as int) =~= Seq::<usize>::empty());
        *root = n;
        return;
    }
    let i = path[k];
    let ghost rest = path@.skip(k as int);
    let ghost nv = n@;
    proof {
        lemma_view_fields(*root);
        assert(rest[0] == path@[k as int]);
        assert(rest.skip(1) =~= path@.skip(k + 1));
    }
    let ghost before = views(root.child@);
    let ghost ov = old(root)@;
    put_at(&mut root.child[i], path, k + 1, n);
    proof {
        lemma_view_fields(*root);
        assert(views(root.child@) =~= before.update(
            i as int,
            replace_at(ov.child[i as int], rest.skip(1), nv),
        ));
    }
}

/// Moves the node at `path` out of `root`; an invalid node stands in its
/// place until it is put back.
pub(crate) fn take_node(root: &mut cJSON, path: &Vec<usize>) -> (r: cJSON)
    requires
        node_at(old(root)@, path@) is Some,
    ensures
        node_at(old(root)@, path@) == Some(r@),
        final(root)@ == replace_at(old(root)@, path@, fresh(cJSON_Invalid)),
{
    assert(path@.skip(0) =~= path@);
    take_at(root, path.as_slice(), 0)
}

/// Puts `n` back at `path`, where `take_node` left a placeholder.
pub(crate) fn put_node(root: &mut cJSON, path: &Vec<usize>, n: cJSON, Ghost(orig): Ghost<JsonValue>)
    requires
        node_at(orig, path@) is Some,
        old(root)@ == replace_at(orig, path@, fresh(cJSON_Invalid)),
    ensures
        final(root)@ == replace_at(orig, path@, n@),
{
    assert(path@.skip(0) =~= path@);
    proof {
        lemma_replace_twice(orig, path@, fresh(cJSON_Invalid), n@);
    }
    put_at(root, path.as_slice(), 0, n);
}

/// The path and node that `pointer` designates, as `locate` finds them, with
/// the path alone handed back.
pub(crate) fn find_path(object: &cJSON, pointer: &[u8], case_sensitive: bool) -> (r: Option<Vec<usize>>)
    ensures
        match pointer_path(object@, pointer@, case_sensitive) {
            Some(p) => r matches Some(v) && v@ == p && node_at(object@, p) is Some,
            None => r is None,
        },
{
    match locate(object, pointer, case_sensitive) {
        Some((p, _)) => Some(p),
        None => None,
    }
}

// ---------------------------------------------------------------------
// Detaching the node that a pointer designates
// ---------------------------------------------------------------------

/// A C string ends at its first zero byte; a terminator added at the end
/// does not change it.
pub proof fn lemma_c_prefix_push_zero(s: Seq<u8>)
    ensures
        c_prefix(s.push(0)) == c_prefix(s),
{
    let z = |b: u8| b == 0;
    lemma_first_index_bounds(s, z);
    let i = first_index(s, z);
    assert forall|j: int| 0 <= j < i implies !z(#[trigger] s.push(0)[j]) by {
        assert(s.push(0)[j] == s[j]);
    }
    if i < s.len() {
        assert(s.push(0)[i] == s[i]);
    } else {
        assert(s.push(0)[i] == 0);
    }
    lemma_first_index(s.push(0), z, i);
    assert(s.push(0).take(i) =~= s.take(i));
}

/// The child of `parent` that the decoded token `d` names: an element by
/// its index, a member by its key read as a C string.
pub open spec fn detach_child(parent: JsonValue, d: Seq<u8>, cs: bool) -> Option<int> {
    if type_tag(parent) == cJSON_Array {
        match array_index(d) {
            Some(n) => if n < parent.child.len() {
                Some(n as int)
            } else {
                None
            },
            None => None,
        }
    } else if type_tag(parent) == cJSON_Object {
        object_index(parent, c_prefix(d), cs)
    } else {
        None
    }
}

/// What taking the node at `path` out of `v` gives: the new tree and the
/// node, or `v` unchanged and `None`.
pub open spec fn detach_spec(v: JsonValue, path: Seq<u8>, cs: bool) -> (JsonValue, Option<JsonValue>) {
    let k = last_slash(path);
    if k < 0 {
        (v, None)
    } else {
        match pointer_path(v, path.take(k), cs) {
            None => (v, None),
            Some(pp) => match (node_at(v, pp), decode_token(path.skip(k + 1))) {
                (Some(parent), Some(d)) => match detach_child(parent, d, cs) {
                    Some(i) => (
                        replace_at(v, pp, with_children(parent, parent.child.remove(i))),
                        Some(parent.child[i]),
                    ),
                    None => (v, None),
                },
                _ => (v, None),
            },
        }
    }
}

/// Takes the node that `path` designates out of `object` and gives it back.
pub fn detach_path_bytes(object: &mut cJSON, path: &[u8], case_sensitive: bool) -> (r: Option<cJSON>)
    ensures
        final(object)@ == detach_spec(old(object)@, path@, case_sensitive).0,
        opt_view(r) == detach_spec(old(object)@, path@, case_sensitive).1,
{
    proof {
        lemma_last_slash(path@);
    }
    let (parent_pointer, child_pointer) = match split_parent_child(path) {
        Some(parts) => parts,
        None => return None,
    };
    let pp = match find_path(object, parent_pointer, case_sensitive) {
        Some(p) => p,
        None => return None,
    };
    let decoded = match decode_pointer_token(child_pointer) {
        Some(d) => d,
        None => return None,
    };
    let ghost orig = object@;
    let mut parent = take_node(object, &pp);
    let ghost pv = parent@;
    proof {
        lemma_view_fields(parent);
    }
    let t = parent.type_ & 255;
    let r = if t == cJSON_Array {
        match decode_array_index_from_pointer(decoded.as_slice()) {
            Some(n) => cJSON_DetachItemViaPointer(&mut parent, n),
            None => None,
        }
    } else if t == cJSON_Object {
        let key = c_string_prefix(nul_terminated(decoded.as_slice()));
        proof {
            lemma_c_prefix_push_zero(decoded@);
        }
        if case_sensitive {
            cJSON_DetachItemFromObjectCaseSensitive(&mut parent, key.as_slice())
        } else {
            cJSON_DetachItemFromObject(&mut parent, key.as_slice())
        }
    } else {
        None
    };
    proof {
        crate::compare::lemma_object_index_bound(pv, c_prefix(decoded@), case_sensitive);
        if r is None {
            lemma_replace_same(orig, pp@);
        }
    }
    put_node(object, &pp, parent, Ghost(orig));
    r
}

pub open spec fn opt_view(o: Option<cJSON>) -> Option<JsonValue> {
    match o {
        Some(c) => Some(c@),
        None => None,
    }
}

/// Removes the element at position `which` of `array` and gives it back.
pub fn detach_item_from_array(array: &mut cJSON, which: usize) -> (r: Option<cJSON>)
    ensures
        which < old(array)@.child.len() ==> {
            &&& r matches Some(c) && c@ == old(array)@.child[which as int]
            &&& final(array)@ == with_children(
                old(array)@,
                old(array)@.child.remove(which as int),
            )
        },
        which >= old(array)@.child.len() ==> r is None && final(array)@ == old(array)@,
{
    cJSON_DetachItemViaPointer(array, which)
}

// ---------------------------------------------------------------------
// The pointer to a node
// ---------------------------------------------------------------------

/// The decimal digits of `n`.
pub open spec fn decimal_digits(n: nat) -> Seq<u8>
    decreases n,
{
    if n < 10 {
        seq![(48 + n) as u8]
    } else {
        decimal_digits(n / 10).push((48 + n % 10) as u8)
    }
}

/// The decimal digits of `n`, as `to_string` writes them.
pub fn usize_to_digits(n: usize) -> (r: Vec<u8>)
    ensures
        r@ == decimal_digits(n as nat),
    decreases n,
{
    if n < 10 {
        let mut v: Vec<u8> = Vec::new();
        v.push((48 + n) as u8);
        assert(v@ =~= decimal_digits(n as nat));
        v
    } else {
        let mut v = usize_to_digits(n / 10);
        v.push((48 + n % 10) as u8);
        v
    }
}

/// The pointer from `v` to the node at `path`: `/` and the index of each
/// element, `/` and the escaped key of each member; `None` where the path
/// leaves the tree, passes a member without a key or a child of a node that
/// is neither an array nor an object.
pub open spec fn pointer_to(v: JsonValue, path: Seq<usize>) -> Option<Seq<u8>>
    decreases path.len(),
{
    if path.len() == 0 {
        Some(Seq::empty())
    } else if path[0] >= v.child.len() {
        None
    } else {
        let c = v.child[path[0] as int];
        match pointer_to(c, path.skip(1)) {
            None => None,
            Some(rest) => if type_tag(v) == cJSON_Array {
                Some(seq![47u8] + decimal_digits(path[0] as nat) + rest)
            } else if type_tag(v) == cJSON_Object {
                match c.string {
                    Some(k) => Some(seq![47u8] + encode_token(k) + rest),
                    None => None,
                }
            } else {
                None
            },
        }
    }
}

fn find_pointer_from_object_to_bytes(v: &cJSON, path: &[usize], k: usize) -> (r: Option<Vec<u8>>)
    requires
        k <= path@.len(),
    ensures
        match pointer_to(v@, path@.skip(k as int)) {
            Some(s) => r matches Some(x) && x@ == s,
            None => r is None,
        },
    decreases path.len() - k,
{
    if k == path.len() {
        assert(path@.skip(k as int) =~= Seq::<usize>::empty());
        return Some(Vec::new());
    }
    let ghost rest = path@.skip(k as int);
    proof {
        lemma_view_fields(*v);
        assert(rest[0] == path@[k as int]);
        assert(rest.skip(1) =~= path@.skip(k + 1));
    }
    let i = path[k];
    if i >= v.child.len() {
        return None;
    }
    let tail = match find_pointer_from_object_to_bytes(&v.child[i], path, k + 1) {
        Some(t) => t,
        None => return None,
    };
    proof {
        lemma_view_fields(v.child@[i as int]);
    }
    let t = v.type_ & 255;
    if t == cJSON_Array {
        let mut out: Vec<u8> = Vec::new();
        out.push(47u8);
        let digits = usize_to_digits(i);
        let mut j: usize = 0;
        let ghost start = out@;
        while j < digits.len()
            invariant
                j <= digits@.len(),
                out@ == start + digits@.take(j as int),
            decreases digits.len() - j,
        {
            out.push(digits[j]);
            j = j + 1;
            assert(out@ =~= start + digits@.take(j as int));
        }
        assert(digits@.take(j as int) =~= digits@);
        append_bytes(&mut out, tail.as_slice());
        assert(out@ =~= seq![47u8] + decimal_digits(i as nat) + tail@);
        Some(out)
    } else if t == cJSON_Object {
        match &v.child[i].string {
            Some(key) => {
                let mut out: Vec<u8> = Vec::new();
                out.push(47u8);
                encode_string_as_pointer(&mut out, key.as_slice());
                append_bytes(&mut out, tail.as_slice());
                assert(out@ =~= seq![47u8] + encode_token(key@) + tail@);
                Some(out)
            },
            None => None,
        }
    } else {
        None
    }
}

/// Appends `bytes` to `out`.
pub fn append_bytes(out: &mut Vec<u8>, bytes: &[u8])
    ensures
        final(out)@ == old(out)@ + bytes@,
{
    let ghost start = out@;
    let mut j: usize = 0;
    while j < bytes.len()
        invariant
            j <= bytes@.len(),
            out@ == start + bytes@.take(j as int),
        decreases bytes.len() - j,
    {
        out.push(bytes[j]);
        j = j + 1;
        assert(out@ =~= start + bytes@.take(j as int));
    }
    assert(bytes@.take(j as int) =~= bytes@);
}

/// The pointer from `object` to the node at the end of `target`, a path of
/// child indices; `None` where there is no such pointer (see `pointer_to`).
pub fn cJSONUtils_FindPointerFromObjectTo(object: &cJSON, target: &[usize]) -> (r: Option<Vec<u8>>)
    ensures
        match pointer_to(object@, target@) {
            Some(s) => r matches Some(x) && x@ == s,
            None => r is None,
        },
{
    assert(target@.skip(0) =~= target@);
    find_pointer_from_object_to_bytes(object, target, 0)
}

} // verus!

verus! {

proof fn lemma_decimal_digits(n: nat)
    ensures
        decimal_digits(n).len() > 0,
        all_digits(decimal_digits(n)),
        decimal(decimal_digits(n)) == n,
        decimal_digits(n)[0] == 48 ==> n == 0 && decimal_digits(n).len() == 1,
    decreases n,
{
    if n < 10 {
        let t = decimal_digits(n);
        assert(t.drop_last() =~= Seq::<u8>::empty());
        assert(decimal(Seq::<u8>::empty()) == 0);
        assert(t.last() == (48 + n) as u8);
    } else {
        lemma_decimal_digits(n / 10);
        let s = decimal_digits(n / 10);
        assert(0 <= n % 10 < 10);
        let d = (48 + n % 10) as u8;
        assert(d == 48 + n % 10);
        let t = s.push(d);
        assert(t.drop_last() =~= s);
        assert(t.last() == d);
        vstd::arithmetic::div_mod::lemma_fundamental_div_mod(n as int, 10);
        assert(decimal(t) == decimal(s) * 10 + (d - 48) as nat);
        assert(t[0] == s[0]);
        assert(all_digits(t)) by {
            assert forall|i: int| 0 <= i < t.len() implies is_digit(#[trigger] t[i]) by {
                if i < s.len() {
                    assert(t[i] == s[i]);
                }
            }
        }
    }
}

/// The index that the pointer to an array element is written with reads
/// back as that index.
pub proof fn lemma_array_index_digits(n: nat)
    requires
        n <= usize::MAX,
    ensures
        array_index(decimal_digits(n)) == Some(n),
{
    lemma_decimal_digits(n);
}

} // verus!

verus! {

/// Along `path`, each member of an object is the first member of that
/// object whose key compares equal to its own.
pub open spec fn first_keys_along(v: JsonValue, path: Seq<usize>, cs: bool) -> bool
    decreases path.len(),
{
    if path.len() == 0 || path[0] >= v.child.len() {
        true
    } else {
        let i = path[0] as int;
        let c = v.child[i];
        &&& (type_tag(v) == cJSON_Object ==> (c.string matches Some(k) && member_named(v, k, cs)
            == i))
        &&& first_keys_along(c, path.skip(1), cs)
    }
}

proof fn lemma_encode_no_slash(k: Seq<u8>)
    ensures
        forall|j: int| 0 <= j < encode_token(k).len() ==> encode_token(k)[j] != 47,
    decreases k.len(),
{
    if k.len() > 0 {
        lemma_encode_no_slash(k.skip(1));
        let e = escape(k[0]);
        let r = encode_token(k.skip(1));
        assert forall|j: int| 0 <= j < (e + r).len() implies (e + r)[j] != 47 by {
            if j >= e.len() {
                assert((e + r)[j] == r[j - e.len()]);
            }
        }
    }
}

proof fn lemma_pointer_to_shape(v: JsonValue, q: Seq<usize>)
    requires
        pointer_to(v, q) is Some,
        q.len() > 0,
    ensures
        pointer_to(v, q)->0.len() > 0,
        pointer_to(v, q)->0[0] == 47,
{
}

proof fn lemma_token_end_concat(tok: Seq<u8>, rest: Seq<u8>)
    requires
        forall|j: int| 0 <= j < tok.len() ==> tok[j] != 47,
        rest.len() == 0 || rest[0] == 47,
    ensures
        token_end(tok + rest) == tok.len(),
        (tok + rest).take(tok.len() as int) == tok,
{
    let p = tok + rest;
    assert forall|j: int| 0 <= j < tok.len() implies !((|b: u8| b == 47)(#[trigger] p[j])) by {
        assert(p[j] == tok[j]);
    }
    if rest.len() > 0 {
        assert(p[tok.len() as int] == rest[0]);
    }
    lemma_first_index(p, |b: u8| b == 47, tok.len() as int);
    assert(p.take(tok.len() as int) =~= tok);
}

proof fn lemma_walk_pointer(v: JsonValue, path: Seq<usize>, cs: bool)
    requires
        path.len() > 0,
        pointer_to(v, path) is Some,
        first_keys_along(v, path, cs),
    ensures
        walk(v, pointer_to(v, path)->0.skip(1), cs) == Some(path),
    decreases path.len(),
{
    let i = path[0];
    let c = v.child[i as int];
    let q = path.skip(1);
    let rest = pointer_to(c, q)->0;
    let tok = if type_tag(v) == cJSON_Array {
        decimal_digits(i as nat)
    } else {
        encode_token(c.string->0)
    };
    let ptr = pointer_to(v, path)->0;
    assert(ptr == seq![47u8] + tok + rest);
    assert(ptr.skip(1) =~= tok + rest);
    if type_tag(v) == cJSON_Array {
        lemma_decimal_digits(i as nat);
        lemma_array_index_digits(i as nat);
        assert forall|j: int| 0 <= j < tok.len() implies tok[j] != 47 by {
            assert(is_digit(tok[j]));
        }
    } else {
        lemma_encode_no_slash(c.string->0);
        lemma_decode_encode(c.string->0);
    }
    if q.len() > 0 {
        lemma_pointer_to_shape(c, q);
    } else {
        assert(rest =~= Seq::<u8>::empty());
    }
    lemma_token_end_concat(tok, rest);
    let p = tok + rest;
    assert(select_child(v, p.take(token_end(p)), cs) == Some(i));
    if q.len() > 0 {
        lemma_walk_pointer(c, q, cs);
        assert(p.skip(tok.len() as int + 1) =~= rest.skip(1));
        assert(seq![i] + q =~= path);
    } else {
        assert(seq![i] =~= path);
    }
}

/// The pointer that `cJSONUtils_FindPointerFromObjectTo` gives for the node
/// at `path` leads `cJSONUtils_GetPointer` back to that node, where each
/// member on the way is the first of its object with its key.
pub proof fn lemma_find_then_get(v: JsonValue, path: Seq<usize>, cs: bool)
    requires
        pointer_to(v, path) is Some,
        first_keys_along(v, path, cs),
    ensures
        pointer_path(v, pointer_to(v, path)->0, cs) == Some(path),
        resolve(v, pointer_to(v, path)->0, cs) == node_at(v, path),
{
    if path.len() > 0 {
        lemma_pointer_to_shape(v, path);
        lemma_walk_pointer(v, path, cs);
    }
}

} // verus!
