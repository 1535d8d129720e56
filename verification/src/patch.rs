use vstd::prelude::*;
use crate::types::{
    cJSON, JsonValue, views, lemma_view_fields, opt_bytes, with_children, type_tag, height,
    max_height, lemma_max_height, fresh, new_typed_item, copy_bytes, cJSON_Invalid, cJSON_Number,
    cJSON_String, cJSON_Array, cJSON_Object,
};
use crate::sort::{key_order, sort_members, sort_object, compare_member_keys, lemma_sort_height};
use crate::compare::{num_eq_spec, is_number_equality, lemma_object_index_bound};
use crate::keys::keys_equal;
use crate::tree::{
    object_index, get_object_index, dup, appended, keyed, cJSON_Duplicate, string_node,
    cJSON_CreateObject, cJSON_CreateString, cJSON_CreateArray, cJSON_AddItemToArray,
    cJSON_AddItemToObject, cJSON_DeleteItemFromObject, cJSON_DeleteItemFromObjectCaseSensitive,
};
use crate::pointer::{
    last_slash, lemma_last_slash, decode_token, array_index, pointer_path, node_at, replace_at,
    resolve, detach_spec, split_parent_child, find_path, take_node, put_node, decode_pointer_token,
    decode_array_index_from_pointer, nul_terminated, detach_path_bytes,
    get_item_from_pointer_bytes, lemma_replace_same, lemma_c_prefix_push_zero, encode_token,
    encode_string_as_pointer, decimal_digits, usize_to_digits, append_bytes,
};
use crate::string::{c_prefix, c_string_prefix};

verus! {

// ---------------------------------------------------------------------
// Comparing two values, sorting the objects on the way
// ---------------------------------------------------------------------

/// Whether `l` and `r` are equal as the patch functions decide it, with the
/// two values as the comparison leaves them: numbers by `valueint` and by
/// `eq` on their doubles, strings by their bytes, arrays element by element,
/// objects by key and value after both are sorted (see `sort_node`); other
/// values of one type are equal. The comparison stops at the first
/// difference, so only what it reached is sorted.
pub open spec fn same_json(
    l: JsonValue,
    r: JsonValue,
    cs: bool,
    eq: spec_fn(u64, u64) -> bool,
) -> (bool, JsonValue, JsonValue)
    decreases height(l) + height(r), 0int, 0int,
{
    let t = type_tag(l);
    if t != type_tag(r) {
        (false, l, r)
    } else if t == cJSON_Number {
        (l.valueint == r.valueint && eq(l.valuedouble, r.valuedouble), l, r)
    } else if t == cJSON_String {
        (l.valuestring is Some && r.valuestring is Some && l.valuestring == r.valuestring, l, r)
    } else if t == cJSON_Array {
        let res = same_seq(l.child, r.child, false, cs, eq);
        (res.0, with_children(l, res.1), with_children(r, res.2))
    } else if t == cJSON_Object {
        proof {
            lemma_sort_height(l.child, cs);
            lemma_sort_height(r.child, cs);
        }
        let res = same_seq(sort_members(l.child, cs), sort_members(r.child, cs), true, cs, eq);
        (res.0, with_children(l, res.1), with_children(r, res.2))
    } else {
        (true, l, r)
    }
}

/// Pairwise comparison of two sequences of children (of their keys first
/// when `keyed`), up to the first difference; equal when both end together.
pub open spec fn same_seq(
    ls: Seq<JsonValue>,
    rs: Seq<JsonValue>,
    keyed: bool,
    cs: bool,
    eq: spec_fn(u64, u64) -> bool,
) -> (bool, Seq<JsonValue>, Seq<JsonValue>)
    decreases max_height(ls) + max_height(rs), 1int, ls.len(),
{
    if ls.len() == 0 || rs.len() == 0 {
        (ls.len() == 0 && rs.len() == 0, ls, rs)
    } else if keyed && key_order(ls[0], rs[0], cs) != 0 {
        (false, ls, rs)
    } else {
        proof {
            lemma_max_height(ls, 0);
            lemma_max_height(rs, 0);
        }
        let first = same_json(ls[0], rs[0], cs, eq);
        if !first.0 {
            (false, ls.update(0, first.1), rs.update(0, first.2))
        } else {
            let rest = same_seq(ls.drop_first(), rs.drop_first(), keyed, cs, eq);
            (rest.0, seq![first.1] + rest.1, seq![first.2] + rest.2)
        }
    }
}

/// The comparison does not make the values taller.
pub proof fn lemma_same_height(l: JsonValue, r: JsonValue, cs: bool, eq: spec_fn(u64, u64) -> bool)
    ensures
        height(same_json(l, r, cs, eq).1) <= height(l),
        height(same_json(l, r, cs, eq).2) <= height(r),
    decreases height(l) + height(r), 0int, 0int,
{
    let t = type_tag(l);
    if t == type_tag(r) && (t == cJSON_Array || t == cJSON_Object) {
        let (ls, rs) = if t == cJSON_Array {
            (l.child, r.child)
        } else {
            lemma_sort_height(l.child, cs);
            lemma_sort_height(r.child, cs);
            (sort_members(l.child, cs), sort_members(r.child, cs))
        };
        lemma_same_seq_height(ls, rs, t == cJSON_Object, cs, eq);
        let res = same_json(l, r, cs, eq);
        assert(res.1.child == same_seq(ls, rs, t == cJSON_Object, cs, eq).1);
        assert(res.2.child == same_seq(ls, rs, t == cJSON_Object, cs, eq).2);
    }
}

pub proof fn lemma_same_seq_height(
    ls: Seq<JsonValue>,
    rs: Seq<JsonValue>,
    keyed: bool,
    cs: bool,
    eq: spec_fn(u64, u64) -> bool,
)
    ensures
        max_height(same_seq(ls, rs, keyed, cs, eq).1) <= max_height(ls),
        max_height(same_seq(ls, rs, keyed, cs, eq).2) <= max_height(rs),
    decreases max_height(ls) + max_height(rs), 1int, ls.len(),
{
    if ls.len() == 0 || rs.len() == 0 {
    } else if keyed && key_order(ls[0], rs[0], cs) != 0 {
    } else {
        lemma_max_height(ls, 0);
        lemma_max_height(rs, 0);
        lemma_same_height(ls[0], rs[0], cs, eq);
        let first = same_json(ls[0], rs[0], cs, eq);
        if !first.0 {
            let a = ls.update(0, first.1);
            let b = rs.update(0, first.2);
            assert(a.drop_first() =~= ls.drop_first());
            assert(b.drop_first() =~= rs.drop_first());
        } else {
            lemma_same_seq_height(ls.drop_first(), rs.drop_first(), keyed, cs, eq);
            let rest = same_seq(ls.drop_first(), rs.drop_first(), keyed, cs, eq);
            assert((seq![first.1] + rest.1).drop_first() =~= rest.1);
            assert((seq![first.2] + rest.2).drop_first() =~= rest.2);
        }
    }
}

pub open spec fn join3(
    pl: Seq<JsonValue>,
    pr: Seq<JsonValue>,
    res: (bool, Seq<JsonValue>, Seq<JsonValue>),
) -> (bool, Seq<JsonValue>, Seq<JsonValue>) {
    (res.0, pl + res.1, pr + res.2)
}

/// Compares `left` and `right` (see `same_json`), sorting the objects that
/// the comparison reaches; `num_eq` decides whether two doubles, given by
/// their bit patterns, are equal.
pub fn compare_json<F: Fn(u64, u64) -> bool>(
    left: &mut cJSON,
    right: &mut cJSON,
    case_sensitive: bool,
    num_eq: &F,
) -> (r: bool)
    requires
        is_number_equality(*num_eq),
    ensures
        (r, final(left)@, final(right)@) == same_json(
            old(left)@,
            old(right)@,
            case_sensitive,
            num_eq_spec(*num_eq),
        ),
    decreases height(old(left)@) + height(old(right)@),
{
    let ghost eq = num_eq_spec(*num_eq);
    let ghost lv = left@;
    let ghost rv = right@;
    proof {
        lemma_view_fields(*left);
        lemma_view_fields(*right);
    }
    let t = left.type_ & 255;
    if t != right.type_ & 255 {
        return false;
    }
    if t == cJSON_Number {
        if left.valueint != right.valueint {
            return false;
        }
        let b = num_eq(left.valuedouble, right.valuedouble);
        proof {
            if !b {
                assert(!call_ensures(*num_eq, (left.valuedouble, right.valuedouble), true));
            }
        }
        return b;
    }
    if t == cJSON_String {
        return match (&left.valuestring, &right.valuestring) {
            (Some(a), Some(b)) => keys_equal(a.as_slice(), b.as_slice(), true),
            _ => false,
        };
    }
    if t != cJSON_Array && t != cJSON_Object {
        return true;
    }
    let keyed = t == cJSON_Object;
    if keyed {
        sort_object(left, case_sensitive);
        sort_object(right, case_sensitive);
        proof {
            lemma_sort_height(lv.child, case_sensitive);
            lemma_sort_height(rv.child, case_sensitive);
        }
    }
    let ghost l0 = views(left.child@);
    let ghost r0 = views(right.child@);
    proof {
        lemma_view_fields(*left);
        lemma_view_fields(*right);
        assert(l0.skip(0) =~= l0);
        assert(r0.skip(0) =~= r0);
        assert(l0.take(0) + same_seq(l0, r0, keyed, case_sensitive, eq).1 =~= same_seq(
            l0,
            r0,
            keyed,
            case_sensitive,
            eq,
        ).1);
        assert(r0.take(0) + same_seq(l0, r0, keyed, case_sensitive, eq).2 =~= same_seq(
            l0,
            r0,
            keyed,
            case_sensitive,
            eq,
        ).2);
    }
    assert(same_json(lv, rv, case_sensitive, eq) == (
        same_seq(l0, r0, keyed, case_sensitive, eq).0,
        with_children(lv, same_seq(l0, r0, keyed, case_sensitive, eq).1),
        with_children(rv, same_seq(l0, r0, keyed, case_sensitive, eq).2),
    ));
    let ghost lsave = *left;
    let ghost rsave = *right;
    let mut i: usize = 0;
    while i < left.child.len() && i < right.child.len()
        invariant
            is_number_equality(*num_eq),
            eq == num_eq_spec(*num_eq),
            i <= l0.len(),
            i <= r0.len(),
            l0.len() == left.child@.len(),
            r0.len() == right.child@.len(),
            views(left.child@).skip(i as int) == l0.skip(i as int),
            views(right.child@).skip(i as int) == r0.skip(i as int),
            same_seq(l0, r0, keyed, case_sensitive, eq) == join3(
                views(left.child@).take(i as int),
                views(right.child@).take(i as int),
                same_seq(l0.skip(i as int), r0.skip(i as int), keyed, case_sensitive, eq),
            ),
            lv == old(left)@,
            rv == old(right)@,
            same_json(lv, rv, case_sensitive, eq) == (
                same_seq(l0, r0, keyed, case_sensitive, eq).0,
                with_children(lv, same_seq(l0, r0, keyed, case_sensitive, eq).1),
                with_children(rv, same_seq(l0, r0, keyed, case_sensitive, eq).2),
            ),
            lsave.type_ == lv.type_,
            opt_bytes(lsave.valuestring) == lv.valuestring,
            lsave.valueint == lv.valueint,
            lsave.valuedouble == lv.valuedouble,
            opt_bytes(lsave.string) == lv.string,
            rsave.type_ == rv.type_,
            opt_bytes(rsave.valuestring) == rv.valuestring,
            rsave.valueint == rv.valueint,
            rsave.valuedouble == rv.valuedouble,
            opt_bytes(rsave.string) == rv.string,
            left.type_ == lsave.type_,
            left.valuestring == lsave.valuestring,
            left.valueint == lsave.valueint,
            left.valuedouble == lsave.valuedouble,
            left.string == lsave.string,
            right.type_ == rsave.type_,
            right.valuestring == rsave.valuestring,
            right.valueint == rsave.valueint,
            right.valuedouble == rsave.valuedouble,
            right.string == rsave.string,
            max_height(l0) < height(lv),
            max_height(r0) < height(rv),
        decreases l0.len() - i,
    {
        let ghost bl = views(left.child@);
        let ghost br = views(right.child@);
        let ghost ls = l0.skip(i as int);
        let ghost rs = r0.skip(i as int);
        assert(ls[0] == l0[i as int]);
        assert(rs[0] == r0[i as int]);
        assert(bl[i as int] == ls[0]) by {
            assert(bl.skip(i as int)[0] == bl[i as int]);
        }
        assert(br[i as int] == rs[0]) by {
            assert(br.skip(i as int)[0] == br[i as int]);
        }
        if keyed && compare_member_keys(&left.child[i], &right.child[i], case_sensitive) != 0 {
            proof {
                assert(bl.take(i as int) + ls =~= bl);
                assert(br.take(i as int) + rs =~= br);
                lemma_view_fields(*left);
                lemma_view_fields(*right);
                assert(left@ =~= with_children(lv, same_seq(l0, r0, keyed, case_sensitive, eq).1));
                assert(right@ =~= with_children(rv, same_seq(l0, r0, keyed, case_sensitive, eq).2));
            }
            return false;
        }
        proof {
            lemma_max_height(l0, i as int);
            lemma_max_height(r0, i as int);
            assert(left.child@[i as int]@ == l0[i as int]);
            assert(right.child@[i as int]@ == r0[i as int]);
            assert(height(left.child@[i as int]@) + height(right.child@[i as int]@) < height(lv)
                + height(rv));
        }
        let b = compare_json(&mut left.child[i], &mut right.child[i], case_sensitive, num_eq);
        let ghost first = same_json(ls[0], rs[0], case_sensitive, eq);
        proof {
            let al = views(left.child@);
            let ar = views(right.child@);
            assert(al =~= bl.update(i as int, first.1));
            assert(ar =~= br.update(i as int, first.2));
        }
        if !b {
            proof {
                let al = views(left.child@);
                let ar = views(right.child@);
                assert(bl.take(i as int) + ls.update(0, first.1) =~= al);
                assert(br.take(i as int) + rs.update(0, first.2) =~= ar);
                lemma_view_fields(*left);
                lemma_view_fields(*right);
                assert(left@ =~= with_children(lv, same_seq(l0, r0, keyed, case_sensitive, eq).1));
                assert(right@ =~= with_children(rv, same_seq(l0, r0, keyed, case_sensitive, eq).2));
            }
            return false;
        }
        proof {
            let al = views(left.child@);
            let ar = views(right.child@);
            assert(ls.drop_first() =~= l0.skip(i + 1));
            assert(rs.drop_first() =~= r0.skip(i + 1));
            let rest = same_seq(l0.skip(i + 1), r0.skip(i + 1), keyed, case_sensitive, eq);
            assert(bl.take(i as int) + (seq![first.1] + rest.1) =~= al.take(i + 1) + rest.1);
            assert(br.take(i as int) + (seq![first.2] + rest.2) =~= ar.take(i + 1) + rest.2);
            assert(al.skip(i + 1) =~= bl.skip(i + 1));
            assert(ar.skip(i + 1) =~= br.skip(i + 1));
            assert(bl.skip(i + 1) =~= bl.skip(i as int).drop_first());
            assert(br.skip(i + 1) =~= br.skip(i as int).drop_first());
        }
        i = i + 1;
    }
    proof {
        let al = views(left.child@);
        let ar = views(right.child@);
        let ls = l0.skip(i as int);
        let rs = r0.skip(i as int);
        assert(al.take(i as int) + ls =~= al);
        assert(ar.take(i as int) + rs =~= ar);
        lemma_view_fields(*left);
        lemma_view_fields(*right);
        assert(left@ =~= with_children(lv, same_seq(l0, r0, keyed, case_sensitive, eq).1));
        assert(right@ =~= with_children(rv, same_seq(l0, r0, keyed, case_sensitive, eq).2));
    }
    i == left.child.len() && i == right.child.len()
}

} // verus!

verus! {

// ---------------------------------------------------------------------
// The members of a patch
// ---------------------------------------------------------------------

/// `op`
pub open spec fn op_key() -> Seq<u8> {
    seq![111u8, 112u8]
}

/// `path`
pub open spec fn path_key() -> Seq<u8> {
    seq![112u8, 97u8, 116u8, 104u8]
}

/// `value`
pub open spec fn value_key() -> Seq<u8> {
    seq![118u8, 97u8, 108u8, 117u8, 101u8]
}

/// `from`
pub open spec fn from_key() -> Seq<u8> {
    seq![102u8, 114u8, 111u8, 109u8]
}

/// `add`
pub open spec fn add_op() -> Seq<u8> {
    seq![97u8, 100u8, 100u8]
}

/// `remove`
pub open spec fn remove_op() -> Seq<u8> {
    seq![114u8, 101u8, 109u8, 111u8, 118u8, 101u8]
}

/// `replace`
pub open spec fn replace_op() -> Seq<u8> {
    seq![114u8, 101u8, 112u8, 108u8, 97u8, 99u8, 101u8]
}

/// `move`
pub open spec fn move_op() -> Seq<u8> {
    seq![109u8, 111u8, 118u8, 101u8]
}

/// `copy`
pub open spec fn copy_op() -> Seq<u8> {
    seq![99u8, 111u8, 112u8, 121u8]
}

/// `test`
pub open spec fn test_op() -> Seq<u8> {
    seq![116u8, 101u8, 115u8, 116u8]
}

fn bytes2(a: u8, b: u8) -> (r: Vec<u8>)
    ensures
        r@ == seq![a, b],
{
    let mut v: Vec<u8> = Vec::new();
    v.push(a);
    v.push(b);
    assert(v@ =~= seq![a, b]);
    v
}

fn bytes3(a: u8, b: u8, c: u8) -> (r: Vec<u8>)
    ensures
        r@ == seq![a, b, c],
{
    let mut v = bytes2(a, b);
    v.push(c);
    assert(v@ =~= seq![a, b, c]);
    v
}

fn bytes4(a: u8, b: u8, c: u8, d: u8) -> (r: Vec<u8>)
    ensures
        r@ == seq![a, b, c, d],
{
    let mut v = bytes3(a, b, c);
    v.push(d);
    assert(v@ =~= seq![a, b, c, d]);
    v
}

fn bytes5(a: u8, b: u8, c: u8, d: u8, e: u8) -> (r: Vec<u8>)
    ensures
        r@ == seq![a, b, c, d, e],
{
    let mut v = bytes4(a, b, c, d);
    v.push(e);
    assert(v@ =~= seq![a, b, c, d, e]);
    v
}

fn bytes6(a: u8, b: u8, c: u8, d: u8, e: u8, f: u8) -> (r: Vec<u8>)
    ensures
        r@ == seq![a, b, c, d, e, f],
{
    let mut v = bytes5(a, b, c, d, e);
    v.push(f);
    assert(v@ =~= seq![a, b, c, d, e, f]);
    v
}

fn bytes7(a: u8, b: u8, c: u8, d: u8, e: u8, f: u8, g: u8) -> (r: Vec<u8>)
    ensures
        r@ == seq![a, b, c, d, e, f, g],
{
    let mut v = bytes6(a, b, c, d, e, f);
    v.push(g);
    assert(v@ =~= seq![a, b, c, d, e, f, g]);
    v
}

pub fn op_key_bytes() -> (r: Vec<u8>)
    ensures
        r@ == op_key(),
{
    bytes2(111u8, 112u8)
}

pub fn path_key_bytes() -> (r: Vec<u8>)
    ensures
        r@ == path_key(),
{
    bytes4(112u8, 97u8, 116u8, 104u8)
}

pub fn value_key_bytes() -> (r: Vec<u8>)
    ensures
        r@ == value_key(),
{
    bytes5(118u8, 97u8, 108u8, 117u8, 101u8)
}

pub fn from_key_bytes() -> (r: Vec<u8>)
    ensures
        r@ == from_key(),
{
    bytes4(102u8, 114u8, 111u8, 109u8)
}

pub fn add_op_bytes() -> (r: Vec<u8>)
    ensures
        r@ == add_op(),
{
    bytes3(97u8, 100u8, 100u8)
}

pub fn remove_op_bytes() -> (r: Vec<u8>)
    ensures
        r@ == remove_op(),
{
    bytes6(114u8, 101u8, 109u8, 111u8, 118u8, 101u8)
}

pub fn replace_op_bytes() -> (r: Vec<u8>)
    ensures
        r@ == replace_op(),
{
    bytes7(114u8, 101u8, 112u8, 108u8, 97u8, 99u8, 101u8)
}

fn move_op_bytes() -> (r: Vec<u8>)
    ensures
        r@ == move_op(),
{
    bytes4(109u8, 111u8, 118u8, 101u8)
}

fn copy_op_bytes() -> (r: Vec<u8>)
    ensures
        r@ == copy_op(),
{
    bytes4(99u8, 111u8, 112u8, 121u8)
}

fn test_op_bytes() -> (r: Vec<u8>)
    ensures
        r@ == test_op(),
{
    bytes4(116u8, 101u8, 115u8, 116u8)
}

/// The operation of a patch.
#[derive(Clone, Copy)]
pub enum PatchOperation {
    Invalid,
    Add,
    Remove,
    Replace,
    Move,
    Copy,
    Test,
}

/// The operation that its name gives.
pub open spec fn op_named(name: Seq<u8>) -> PatchOperation {
    if name == add_op() {
        PatchOperation::Add
    } else if name == remove_op() {
        PatchOperation::Remove
    } else if name == replace_op() {
        PatchOperation::Replace
    } else if name == move_op() {
        PatchOperation::Move
    } else if name == copy_op() {
        PatchOperation::Copy
    } else if name == test_op() {
        PatchOperation::Test
    } else {
        PatchOperation::Invalid
    }
}

/// The operation of `patch`: the one its `op` member names when that member
/// is a string, `Invalid` otherwise.
pub open spec fn patch_operation(patch: JsonValue, cs: bool) -> PatchOperation {
    match object_index(patch, op_key(), cs) {
        Some(i) => {
            let o = patch.child[i];
            if type_tag(o) == cJSON_String && o.valuestring is Some {
                op_named(o.valuestring->0)
            } else {
                PatchOperation::Invalid
            }
        },
        None => PatchOperation::Invalid,
    }
}

fn operation_from_name(name: &[u8]) -> (r: PatchOperation)
    ensures
        r == op_named(name@),
{
    if keys_equal(name, add_op_bytes().as_slice(), true) {
        PatchOperation::Add
    } else if keys_equal(name, remove_op_bytes().as_slice(), true) {
        PatchOperation::Remove
    } else if keys_equal(name, replace_op_bytes().as_slice(), true) {
        PatchOperation::Replace
    } else if keys_equal(name, move_op_bytes().as_slice(), true) {
        PatchOperation::Move
    } else if keys_equal(name, copy_op_bytes().as_slice(), true) {
        PatchOperation::Copy
    } else if keys_equal(name, test_op_bytes().as_slice(), true) {
        PatchOperation::Test
    } else {
        PatchOperation::Invalid
    }
}

/// The operation of `patch` (see `patch_operation`).
pub fn decode_patch_operation(patch: &cJSON, case_sensitive: bool) -> (r: PatchOperation)
    ensures
        r == patch_operation(patch@, case_sensitive),
{
    proof {
        lemma_view_fields(*patch);
        lemma_object_index_bound(patch@, op_key(), case_sensitive);
    }
    match get_object_index(patch, op_key_bytes().as_slice(), case_sensitive) {
        Some(i) => {
            proof {
                lemma_view_fields(patch.child@[i as int]);
            }
            let o = &patch.child[i];
            if (o.type_ & 255) == cJSON_String {
                match &o.valuestring {
                    Some(name) => operation_from_name(name.as_slice()),
                    None => PatchOperation::Invalid,
                }
            } else {
                PatchOperation::Invalid
            }
        },
        None => PatchOperation::Invalid,
    }
}

// ---------------------------------------------------------------------
// Applying one patch
// ---------------------------------------------------------------------

/// Inserts `newitem` before the element at `which`, or appends it when
/// `which` is the length; refuses a position past the end.
pub fn insert_item_in_array(array: &mut cJSON, which: usize, newitem: cJSON) -> (r: bool)
    ensures
        r == (which <= old(array)@.child.len()),
        r ==> final(array)@ == with_children(
            old(array)@,
            old(array)@.child.insert(which as int, newitem@),
        ),
        !r ==> final(array)@ == old(array)@,
{
    proof {
        lemma_view_fields(*array);
    }
    if which > array.child.len() {
        return false;
    }
    let ghost before = views(array.child@);
    let ghost nv = newitem@;
    array.child.insert(which, newitem);
    proof {
        lemma_view_fields(*array);
        assert(views(array.child@) =~= before.insert(which as int, nv));
    }
    true
}

/// What a test patch gives: 0 when the value at `path` equals the patch's
/// `value` member (see `same_json`), 1 otherwise; with both values as the
/// comparison leaves them.
pub open spec fn test_patch(
    obj: JsonValue,
    patch: JsonValue,
    path: Seq<u8>,
    cs: bool,
    eq: spec_fn(u64, u64) -> bool,
) -> (int, JsonValue, JsonValue) {
    match (pointer_path(obj, path, cs), object_index(patch, value_key(), cs)) {
        (Some(tp), Some(vi)) => match node_at(obj, tp) {
            Some(n) => {
                let res = same_json(n, patch.child[vi], cs, eq);
                (
                    if res.0 {
                        0
                    } else {
                        1
                    },
                    replace_at(obj, tp, res.1),
                    with_children(patch, patch.child.update(vi, res.2)),
                )
            },
            None => (1, obj, patch),
        },
        _ => (1, obj, patch),
    }
}

/// A value that takes the place of the whole document: without a key.
pub open spec fn as_root(v: JsonValue) -> JsonValue {
    if v.string is Some {
        JsonValue { string: None, type_: v.type_ & !512i32, ..v }
    } else {
        v
    }
}

/// The tree after what a patch removes, and the value that it then puts in
/// place, or the status that ends it.
pub open spec fn patch_value(
    obj: JsonValue,
    patch: JsonValue,
    path: Seq<u8>,
    op: PatchOperation,
    cs: bool,
) -> (JsonValue, Result<JsonValue, int>) {
    let removing = op is Remove || op is Replace;
    let d = detach_spec(obj, path, cs);
    let o1 = if removing {
        d.0
    } else {
        obj
    };
    if removing && d.1 is None {
        (obj, Err(13))
    } else if op is Remove {
        (o1, Err(0))
    } else if op is Move || op is Copy {
        match object_index(patch, from_key(), cs) {
            None => (o1, Err(4)),
            Some(fi) => match patch.child[fi].valuestring {
                None => (o1, Err(5)),
                Some(from) => if op is Move {
                    let m = detach_spec(o1, from, cs);
                    match m.1 {
                        Some(v) => (m.0, Ok(v)),
                        None => (o1, Err(5)),
                    }
                } else {
                    match resolve(o1, from, cs) {
                        Some(v) => (o1, Ok(dup(v, true))),
                        None => (o1, Err(5)),
                    }
                },
            },
        }
    } else {
        match object_index(patch, value_key(), cs) {
            None => (o1, Err(7)),
            Some(vi) => (o1, Ok(dup(patch.child[vi], true))),
        }
    }
}

/// Where a value goes: `path` names its parent and, in its last token, the
/// place: `-` appends to an array, an index inserts before that element (or
/// appends at the end), a key replaces the member of an object with that
/// key by a new last member. The status: 0, or 9 for a missing parent,
/// 11 for a bad index, 10 for an index past the end.
pub open spec fn place_spec(obj: JsonValue, path: Seq<u8>, value: JsonValue, cs: bool) -> (
    int,
    JsonValue,
) {
    let k = last_slash(path);
    if k < 0 {
        (9, obj)
    } else {
        match (decode_token(path.skip(k + 1)), pointer_path(obj, path.take(k), cs)) {
            (Some(d), Some(pp)) => match node_at(obj, pp) {
                Some(parent) => if type_tag(parent) == cJSON_Array {
                    if d == seq![45u8] {
                        (0, replace_at(obj, pp, appended(parent, value)))
                    } else {
                        match array_index(d) {
                            None => (11, obj),
                            Some(n) => if n <= parent.child.len() {
                                (
                                    0,
                                    replace_at(
                                        obj,
                                        pp,
                                        with_children(parent, parent.child.insert(n as int, value)),
                                    ),
                                )
                            } else {
                                (10, obj)
                            },
                        }
                    }
                } else if type_tag(parent) == cJSON_Object {
                    let key = c_prefix(d);
                    let p1 = match object_index(parent, key, cs) {
                        Some(i) => with_children(parent, parent.child.remove(i)),
                        None => parent,
                    };
                    (0, replace_at(obj, pp, appended(p1, keyed(value, key, false))))
                } else {
                    (9, obj)
                },
                None => (9, obj),
            },
            _ => (9, obj),
        }
    }
}

/// What applying `patch` to `obj` gives: the status (0 for success), the
/// document and the patch afterwards.
#[verifier::opaque]
pub open spec fn apply_patch_spec(
    obj: JsonValue,
    patch: JsonValue,
    cs: bool,
    eq: spec_fn(u64, u64) -> bool,
) -> (int, JsonValue, JsonValue) {
    match object_index(patch, path_key(), cs) {
        None => (2, obj, patch),
        Some(pi) => {
            let pm = patch.child[pi];
            if type_tag(pm) != cJSON_String || pm.valuestring is None {
                (2, obj, patch)
            } else {
                let path = pm.valuestring->0;
                let op = patch_operation(patch, cs);
                if op is Invalid {
                    (3, obj, patch)
                } else if op is Test {
                    test_patch(obj, patch, path, cs, eq)
                } else if path.len() == 0 && op is Remove {
                    (0, fresh(cJSON_Invalid), patch)
                } else if path.len() == 0 && (op is Replace || op is Add) {
                    match object_index(patch, value_key(), cs) {
                        None => (7, obj, patch),
                        Some(vi) => (0, as_root(dup(patch.child[vi], true)), patch),
                    }
                } else {
                    let pv = patch_value(obj, patch, path, op, cs);
                    match pv.1 {
                        Err(st) => (st, pv.0, patch),
                        Ok(val) => {
                            let pl = place_spec(pv.0, path, val, cs);
                            (pl.0, pl.1, patch)
                        },
                    }
                }
            }
        },
    }
}

pub open spec fn result_view(r: Result<cJSON, i32>) -> Result<JsonValue, int> {
    match r {
        Ok(c) => Ok(c@),
        Err(e) => Err(e as int),
    }
}

fn apply_test<F: Fn(u64, u64) -> bool>(
    object: &mut cJSON,
    patch: &mut cJSON,
    path: &[u8],
    case_sensitive: bool,
    num_eq: &F,
) -> (r: i32)
    requires
        is_number_equality(*num_eq),
    ensures
        (r as int, final(object)@, final(patch)@) == test_patch(
            old(object)@,
            old(patch)@,
            path@,
            case_sensitive,
            num_eq_spec(*num_eq),
        ),
{
    let tp = match find_path(object, path, case_sensitive) {
        Some(p) => p,
        None => return 1,
    };
    proof {
        lemma_object_index_bound(patch@, value_key(), case_sensitive);
        lemma_view_fields(*patch);
    }
    let vi = match get_object_index(patch, value_key_bytes().as_slice(), case_sensitive) {
        Some(i) => i,
        None => return 1,
    };
    let ghost orig = object@;
    let ghost pv = patch@;
    let ghost before = views(patch.child@);
    let mut node = take_node(object, &tp);
    let b = compare_json(&mut node, &mut patch.child[vi], case_sensitive, num_eq);
    put_node(object, &tp, node, Ghost(orig));
    proof {
        let res = same_json(node_at(orig, tp@)->0, pv.child[vi as int], case_sensitive, num_eq_spec(*num_eq));
        assert(views(patch.child@) =~= before.update(vi as int, res.2));
        lemma_view_fields(*patch);
    }
    if b {
        0
    } else {
        1
    }
}

/// Removes what the patch removes and gives the value that it puts in
/// place (see `patch_value`).
fn take_patch_value(
    object: &mut cJSON,
    patch: &cJSON,
    path: &[u8],
    op: PatchOperation,
    case_sensitive: bool,
) -> (r: Result<cJSON, i32>)
    ensures
        (final(object)@, result_view(r)) == patch_value(
            old(object)@,
            patch@,
            path@,
            op,
            case_sensitive,
        ),
{
    let removing = match op {
        PatchOperation::Remove | PatchOperation::Replace => true,
        _ => false,
    };
    if removing {
        match detach_path_bytes(object, path, case_sensitive) {
            None => return Err(13),
            Some(_old_item) => {},
        }
        if let PatchOperation::Remove = op {
            return Err(0);
        }
    }
    proof {
        lemma_view_fields(*patch);
        lemma_object_index_bound(patch@, from_key(), case_sensitive);
        lemma_object_index_bound(patch@, value_key(), case_sensitive);
    }
    match op {
        PatchOperation::Move | PatchOperation::Copy => {
            let fi = match get_object_index(patch, from_key_bytes().as_slice(), case_sensitive) {
                Some(i) => i,
                None => return Err(4),
            };
            proof {
                lemma_view_fields(patch.child@[fi as int]);
            }
            let from: &Vec<u8> = match &patch.child[fi].valuestring {
                Some(f) => f,
                None => return Err(5),
            };
            if let PatchOperation::Move = op {
                match detach_path_bytes(object, from.as_slice(), case_sensitive) {
                    Some(v) => Ok(v),
                    None => Err(5),
                }
            } else {
                match get_item_from_pointer_bytes(object, from.as_slice(), case_sensitive) {
                    Some(v) => Ok(cJSON_Duplicate(v, 1)),
                    None => Err(5),
                }
            }
        },
        _ => {
            match get_object_index(patch, value_key_bytes().as_slice(), case_sensitive) {
                Some(vi) => Ok(cJSON_Duplicate(&patch.child[vi], 1)),
                None => Err(7),
            }
        },
    }
}

/// Puts `value` where `path` says (see `place_spec`) and gives the status.
fn place_value(object: &mut cJSON, path: &[u8], value: cJSON, case_sensitive: bool) -> (r: i32)
    ensures
        (r as int, final(object)@) == place_spec(old(object)@, path@, value@, case_sensitive),
{
    proof {
        lemma_last_slash(path@);
    }
    let (parent_pointer, child_pointer) = match split_parent_child(path) {
        Some(parts) => parts,
        None => return 9,
    };
    let decoded = match decode_pointer_token(child_pointer) {
        Some(d) => d,
        None => return 9,
    };
    let pp = match find_path(object, parent_pointer, case_sensitive) {
        Some(p) => p,
        None => return 9,
    };
    let ghost orig = object@;
    let ghost vv = value@;
    let mut parent = take_node(object, &pp);
    let ghost pv = parent@;
    proof {
        lemma_view_fields(parent);
    }
    let t = parent.type_ & 255;
    let status: i32 = if t == cJSON_Array {
        if decoded.len() == 1 && decoded[0] == 45u8 {
            assert(decoded@ =~= seq![45u8]);
            cJSON_AddItemToArray(&mut parent, value);
            0
        } else {
            assert(decoded@ != seq![45u8]);
            match decode_array_index_from_pointer(decoded.as_slice()) {
                None => 11,
                Some(n) => if insert_item_in_array(&mut parent, n, value) {
                    0
                } else {
                    10
                },
            }
        }
    } else if t == cJSON_Object {
        let key = c_string_prefix(nul_terminated(decoded.as_slice()));
        proof {
            lemma_c_prefix_push_zero(decoded@);
            lemma_object_index_bound(pv, key@, case_sensitive);
        }
        if case_sensitive {
            cJSON_DeleteItemFromObjectCaseSensitive(&mut parent, key.as_slice());
        } else {
            cJSON_DeleteItemFromObject(&mut parent, key.as_slice());
        }
        cJSON_AddItemToObject(&mut parent, key.as_slice(), value);
        0
    } else {
        9
    };
    proof {
        if parent@ == pv {
            lemma_replace_same(orig, pp@);
        }
    }
    put_node(object, &pp, parent, Ghost(orig));
    status
}

/// Applies one patch to `object` and gives its status (see
/// `apply_patch_spec`).
pub fn apply_patch<F: Fn(u64, u64) -> bool>(
    object: &mut cJSON,
    patch: &mut cJSON,
    case_sensitive: bool,
    num_eq: &F,
) -> (r: i32)
    requires
        is_number_equality(*num_eq),
    ensures
        (r as int, final(object)@, final(patch)@) == apply_patch_spec(
            old(object)@,
            old(patch)@,
            case_sensitive,
            num_eq_spec(*num_eq),
        ),
{
    proof {
        reveal(apply_patch_spec);
        lemma_view_fields(*patch);
        lemma_object_index_bound(patch@, path_key(), case_sensitive);
        lemma_object_index_bound(patch@, value_key(), case_sensitive);
    }
    let pi = match get_object_index(patch, path_key_bytes().as_slice(), case_sensitive) {
        Some(i) => i,
        None => return 2,
    };
    proof {
        lemma_view_fields(patch.child@[pi as int]);
    }
    let path: Vec<u8> = if (patch.child[pi].type_ & 255) == cJSON_String {
        match &patch.child[pi].valuestring {
            Some(p) => copy_bytes(p.as_slice()),
            None => return 2,
        }
    } else {
        return 2;
    };
    let op = decode_patch_operation(patch, case_sensitive);
    match op {
        PatchOperation::Invalid => {
            return 3;
        },
        PatchOperation::Test => {
            return apply_test(object, patch, path.as_slice(), case_sensitive, num_eq);
        },
        _ => {},
    }
    if path.len() == 0 {
        if let PatchOperation::Remove = op {
            *object = new_typed_item(cJSON_Invalid);
            return 0;
        }
        let root_value = match op {
            PatchOperation::Replace | PatchOperation::Add => true,
            _ => false,
        };
        if root_value {
            let vi = match get_object_index(patch, value_key_bytes().as_slice(), case_sensitive) {
                Some(i) => i,
                None => return 7,
            };
            let mut replacement = cJSON_Duplicate(&patch.child[vi], 1);
            proof {
                lemma_view_fields(replacement);
            }
            if replacement.string.is_some() {
                replacement.string = None;
                replacement.type_ = replacement.type_ & !512i32;
            }
            proof {
                lemma_view_fields(replacement);
            }
            *object = replacement;
            return 0;
        }
    }
    let value = match take_patch_value(object, patch, path.as_slice(), op, case_sensitive) {
        Ok(v) => v,
        Err(st) => return st,
    };
    place_value(object, path.as_slice(), value, case_sensitive)
}

} // verus!

verus! {

// ---------------------------------------------------------------------
// Applying a list of patches
// ---------------------------------------------------------------------

/// What applying the patches `ps` in turn to `obj` gives: the status of the
/// first that fails (0 when none does), the document and the patches
/// afterwards; the patches after a failing one are not applied.
pub open spec fn apply_all(
    obj: JsonValue,
    ps: Seq<JsonValue>,
    cs: bool,
    eq: spec_fn(u64, u64) -> bool,
) -> (int, JsonValue, Seq<JsonValue>)
    decreases ps.len(),
{
    if ps.len() == 0 {
        (0, obj, ps)
    } else {
        let first = apply_patch_spec(obj, ps[0], cs, eq);
        if first.0 != 0 {
            (first.0, first.1, ps.update(0, first.2))
        } else {
            let rest = apply_all(first.1, ps.drop_first(), cs, eq);
            (rest.0, rest.1, seq![first.2] + rest.2)
        }
    }
}

/// What `cJSONUtils_ApplyPatches` gives: 1 when `patches` is not an array,
/// else what applying its elements in turn gives.
pub open spec fn apply_patches_spec(
    obj: JsonValue,
    patches: JsonValue,
    cs: bool,
    eq: spec_fn(u64, u64) -> bool,
) -> (int, JsonValue, JsonValue) {
    if type_tag(patches) != cJSON_Array {
        (1, obj, patches)
    } else {
        let res = apply_all(obj, patches.child, cs, eq);
        (res.0, res.1, with_children(patches, res.2))
    }
}

pub open spec fn join_patches(
    pre: Seq<JsonValue>,
    res: (int, JsonValue, Seq<JsonValue>),
) -> (int, JsonValue, Seq<JsonValue>) {
    (res.0, res.1, pre + res.2)
}

/// Applies the patches of the array `patches` to `object` in turn, up to
/// the first that fails, and gives its status (see `apply_patches_spec`).
pub fn apply_patches<F: Fn(u64, u64) -> bool>(
    object: &mut cJSON,
    patches: &mut cJSON,
    case_sensitive: bool,
    num_eq: &F,
) -> (r: i32)
    requires
        is_number_equality(*num_eq),
    ensures
        (r as int, final(object)@, final(patches)@) == apply_patches_spec(
            old(object)@,
            old(patches)@,
            case_sensitive,
            num_eq_spec(*num_eq),
        ),
{
    let ghost eq = num_eq_spec(*num_eq);
    let ghost o0 = object@;
    let ghost pv = patches@;
    proof {
        lemma_view_fields(*patches);
    }
    if (patches.type_ & 255) != cJSON_Array {
        return 1;
    }
    let ghost p0 = views(patches.child@);
    let ghost psave = *patches;
    proof {
        assert(p0.skip(0) =~= p0);
        assert(p0.take(0) + apply_all(o0, p0, case_sensitive, eq).2 =~= apply_all(
            o0,
            p0,
            case_sensitive,
            eq,
        ).2);
    }
    let mut i: usize = 0;
    while i < patches.child.len()
        invariant
            is_number_equality(*num_eq),
            eq == num_eq_spec(*num_eq),
            i <= p0.len(),
            p0.len() == patches.child@.len(),
            pv == old(patches)@,
            o0 == old(object)@,
            p0 == pv.child,
            type_tag(pv) == cJSON_Array,
            views(patches.child@).skip(i as int) == p0.skip(i as int),
            apply_all(o0, p0, case_sensitive, eq) == join_patches(
                views(patches.child@).take(i as int),
                apply_all(object@, p0.skip(i as int), case_sensitive, eq),
            ),
            patches.type_ == psave.type_,
            patches.valuestring == psave.valuestring,
            patches.valueint == psave.valueint,
            patches.valuedouble == psave.valuedouble,
            patches.string == psave.string,
            psave@ == pv,
        decreases p0.len() - i,
    {
        let ghost bp = views(patches.child@);
        let ghost ps = p0.skip(i as int);
        let ghost ob = object@;
        assert(ps[0] == p0[i as int]);
        assert(bp[i as int] == ps[0]) by {
            assert(bp.skip(i as int)[0] == bp[i as int]);
        }
        let st = apply_patch(object, &mut patches.child[i], case_sensitive, num_eq);
        let ghost first = apply_patch_spec(ob, ps[0], case_sensitive, eq);
        proof {
            let ap = views(patches.child@);
            assert(ap =~= bp.update(i as int, first.2));
        }
        if st != 0 {
            proof {
                let ap = views(patches.child@);
                assert(bp.take(i as int) + ps.update(0, first.2) =~= ap);
                lemma_view_fields(*patches);
                lemma_view_fields(psave);
                assert(patches@ =~= with_children(pv, apply_all(o0, p0, case_sensitive, eq).2));
            }
            return st;
        }
        proof {
            let ap = views(patches.child@);
            assert(ps.drop_first() =~= p0.skip(i + 1));
            let rest = apply_all(object@, p0.skip(i + 1), case_sensitive, eq);
            assert(bp.take(i as int) + (seq![first.2] + rest.2) =~= ap.take(i + 1) + rest.2);
            assert(ap.skip(i + 1) =~= bp.skip(i + 1));
            assert(bp.skip(i + 1) =~= bp.skip(i as int).drop_first());
        }
        i = i + 1;
    }
    proof {
        let ap = views(patches.child@);
        assert(p0.skip(i as int) =~= Seq::<JsonValue>::empty());
        assert(ap.take(i as int) + Seq::<JsonValue>::empty() =~= ap);
        lemma_view_fields(*patches);
        lemma_view_fields(psave);
        assert(patches@ =~= with_children(pv, apply_all(o0, p0, case_sensitive, eq).2));
    }
    0
}

/// Applies the patches in `patches` to `object` (keys compared without
/// regard to ASCII case) and gives the status: 0 when all applied, else that
/// of the first that failed.
pub fn cJSONUtils_ApplyPatches<F: Fn(u64, u64) -> bool>(
    object: &mut cJSON,
    patches: &mut cJSON,
    num_eq: &F,
) -> (r: i32)
    requires
        is_number_equality(*num_eq),
    ensures
        (r as int, final(object)@, final(patches)@) == apply_patches_spec(
            old(object)@,
            old(patches)@,
            false,
            num_eq_spec(*num_eq),
        ),
{
    apply_patches(object, patches, false, num_eq)
}

/// Applies the patches in `patches` to `object` and gives the status.
pub fn cJSONUtils_ApplyPatchesCaseSensitive<F: Fn(u64, u64) -> bool>(
    object: &mut cJSON,
    patches: &mut cJSON,
    num_eq: &F,
) -> (r: i32)
    requires
        is_number_equality(*num_eq),
    ensures
        (r as int, final(object)@, final(patches)@) == apply_patches_spec(
            old(object)@,
            old(patches)@,
            true,
            num_eq_spec(*num_eq),
        ),
{
    apply_patches(object, patches, true, num_eq)
}

} // verus!

verus! {

// ---------------------------------------------------------------------
// Writing patches
// ---------------------------------------------------------------------

/// The patch `{"op": op, "path": path, "value": value}`, where the path
/// gets `/` and the escaped `suffix` when there is one and the value is a
/// copy, left out when there is none.
pub open spec fn patch_entry(
    op: Seq<u8>,
    path: Seq<u8>,
    suffix: Option<Seq<u8>>,
    value: Option<JsonValue>,
) -> JsonValue {
    let full = match suffix {
        Some(s) => path + seq![47u8] + encode_token(s),
        None => path,
    };
    let o1 = appended(fresh(cJSON_Object), keyed(string_node(cJSON_String, op), op_key(), false));
    let o2 = appended(o1, keyed(string_node(cJSON_String, full), path_key(), false));
    match value {
        Some(v) => appended(o2, keyed(dup(v, true), value_key(), false)),
        None => o2,
    }
}

pub open spec fn opt_slice(o: Option<&[u8]>) -> Option<Seq<u8>> {
    match o {
        Some(s) => Some(s@),
        None => None,
    }
}

pub open spec fn opt_node(o: Option<&cJSON>) -> Option<JsonValue> {
    match o {
        Some(c) => Some(c@),
        None => None,
    }
}

/// Appends the patch for `op` at `path` (and `suffix`) with a copy of
/// `value` to `patches`.
pub fn compose_patch(
    patches: &mut cJSON,
    operation: &[u8],
    path: &[u8],
    suffix: Option<&[u8]>,
    value: Option<&cJSON>,
)
    ensures
        final(patches)@ == appended(
            old(patches)@,
            patch_entry(operation@, path@, opt_slice(suffix), opt_node(value)),
        ),
{
    let mut patch = cJSON_CreateObject();
    cJSON_AddItemToObject(&mut patch, op_key_bytes().as_slice(), cJSON_CreateString(operation));
    let mut full_path = copy_bytes(path);
    match suffix {
        Some(sfx) => {
            full_path.push(47u8);
            encode_string_as_pointer(&mut full_path, sfx);
        },
        None => {},
    }
    assert(full_path@ =~= (match opt_slice(suffix) {
        Some(x) => path@ + seq![47u8] + encode_token(x),
        None => path@,
    }));
    cJSON_AddItemToObject(
        &mut patch,
        path_key_bytes().as_slice(),
        cJSON_CreateString(full_path.as_slice()),
    );
    match value {
        Some(v) => {
            cJSON_AddItemToObject(&mut patch, value_key_bytes().as_slice(), cJSON_Duplicate(v, 1));
        },
        None => {},
    }
    cJSON_AddItemToArray(patches, patch);
}

/// Appends the patch `{"op": operation, "path": path, "value": value}` to
/// `array`, the value a copy and left out when there is none.
pub fn cJSONUtils_AddPatchToArray(
    array: &mut cJSON,
    operation: &[u8],
    path: &[u8],
    value: Option<&cJSON>,
)
    ensures
        final(array)@ == appended(
            old(array)@,
            patch_entry(operation@, path@, None, opt_node(value)),
        ),
{
    compose_patch(array, operation, path, None, value)
}

// ---------------------------------------------------------------------
// Generating patches
// ---------------------------------------------------------------------

/// The path of element `index` below `path`.
pub open spec fn elem_path(path: Seq<u8>, index: nat) -> Seq<u8> {
    path + seq![47u8] + decimal_digits(index)
}

/// `count` patches that remove element `index` below `path`.
pub open spec fn removals(path: Seq<u8>, index: nat, count: nat) -> Seq<JsonValue> {
    Seq::new(count, |j: int| patch_entry(remove_op(), path, Some(decimal_digits(index)), None))
}

/// Patches that append each of `ts` to the array at `path`.
pub open spec fn additions(path: Seq<u8>, ts: Seq<JsonValue>) -> Seq<JsonValue> {
    Seq::new(ts.len(), |j: int| patch_entry(add_op(), path, Some(seq![45u8]), Some(ts[j])))
}

/// The patches from `from` to `to` at `path`, with the two values as
/// the generation leaves them (it sorts the objects that it reaches): a
/// replacement where the types differ or two numbers (by `valueint` and
/// `eq`) or strings differ; for arrays, the patches of the elements that
/// both have, then removals of the elements that only `from` has and
/// additions of those that only `to` has; for objects, sorted, the patches
/// of the members that both have, removals and additions of the others.
pub open spec fn diff(
    path: Seq<u8>,
    from: JsonValue,
    to: JsonValue,
    cs: bool,
    eq: spec_fn(u64, u64) -> bool,
) -> (Seq<JsonValue>, JsonValue, JsonValue)
    decreases height(from) + height(to), 0int, 0int,
{
    let t = type_tag(from);
    let replace = seq![patch_entry(replace_op(), path, None, Some(to))];
    if t != type_tag(to) {
        (replace, from, to)
    } else if t == cJSON_Number {
        (
            if from.valueint != to.valueint || !eq(from.valuedouble, to.valuedouble) {
                replace
            } else {
                Seq::empty()
            },
            from,
            to,
        )
    } else if t == cJSON_String {
        (
            if from.valuestring is None || to.valuestring is None || from.valuestring
                != to.valuestring {
                replace
            } else {
                Seq::empty()
            },
            from,
            to,
        )
    } else if t == cJSON_Array {
        let res = diff_elems(path, from.child, to.child, 0, cs, eq);
        (res.0, with_children(from, res.1), with_children(to, res.2))
    } else if t == cJSON_Object {
        proof {
            lemma_sort_height(from.child, cs);
            lemma_sort_height(to.child, cs);
        }
        let res = diff_members(path, sort_members(from.child, cs), sort_members(to.child, cs), cs, eq);
        (res.0, with_children(from, res.1), with_children(to, res.2))
    } else {
        (Seq::empty(), from, to)
    }
}

/// The patches of the elements `fs` and `ts` of two arrays at `path`, the
/// first of them at position `index`.
pub open spec fn diff_elems(
    path: Seq<u8>,
    fs: Seq<JsonValue>,
    ts: Seq<JsonValue>,
    index: nat,
    cs: bool,
    eq: spec_fn(u64, u64) -> bool,
) -> (Seq<JsonValue>, Seq<JsonValue>, Seq<JsonValue>)
    decreases max_height(fs) + max_height(ts), 1int, fs.len(),
{
    if fs.len() == 0 || ts.len() == 0 {
        (removals(path, index, fs.len()) + additions(path, ts), fs, ts)
    } else {
        proof {
            lemma_max_height(fs, 0);
            lemma_max_height(ts, 0);
        }
        let first = diff(elem_path(path, index), fs[0], ts[0], cs, eq);
        let rest = diff_elems(path, fs.drop_first(), ts.drop_first(), index + 1, cs, eq);
        (first.0 + rest.0, seq![first.1] + rest.1, seq![first.2] + rest.2)
    }
}

/// The patches of the sorted members `fs` and `ts` of two objects at
/// `path`; they end at a member without a key.
pub open spec fn diff_members(
    path: Seq<u8>,
    fs: Seq<JsonValue>,
    ts: Seq<JsonValue>,
    cs: bool,
    eq: spec_fn(u64, u64) -> bool,
) -> (Seq<JsonValue>, Seq<JsonValue>, Seq<JsonValue>)
    decreases max_height(fs) + max_height(ts), 1int, fs.len() + ts.len(),
{
    if fs.len() == 0 && ts.len() == 0 {
        (Seq::empty(), fs, ts)
    } else {
        let d = if fs.len() == 0 {
            1
        } else if ts.len() == 0 {
            -1
        } else {
            key_order(fs[0], ts[0], cs)
        };
        if d == 0 {
            match fs[0].string {
                None => (Seq::empty(), fs, ts),
                Some(k) => {
                    proof {
                        lemma_max_height(fs, 0);
                        lemma_max_height(ts, 0);
                    }
                    let first = diff(path + seq![47u8] + encode_token(k), fs[0], ts[0], cs, eq);
                    let rest = diff_members(path, fs.drop_first(), ts.drop_first(), cs, eq);
                    (first.0 + rest.0, seq![first.1] + rest.1, seq![first.2] + rest.2)
                },
            }
        } else if d < 0 {
            match fs[0].string {
                None => (Seq::empty(), fs, ts),
                Some(k) => {
                    let rest = diff_members(path, fs.drop_first(), ts, cs, eq);
                    (
                        seq![patch_entry(remove_op(), path, Some(k), None)] + rest.0,
                        seq![fs[0]] + rest.1,
                        rest.2,
                    )
                },
            }
        } else {
            match ts[0].string {
                None => (Seq::empty(), fs, ts),
                Some(k) => {
                    let rest = diff_members(path, fs, ts.drop_first(), cs, eq);
                    (
                        seq![patch_entry(add_op(), path, Some(k), Some(ts[0]))] + rest.0,
                        rest.1,
                        seq![ts[0]] + rest.2,
                    )
                },
            }
        }
    }
}

} // verus!

verus! {

pub open spec fn join_diff(
    acc: Seq<JsonValue>,
    pl: Seq<JsonValue>,
    pr: Seq<JsonValue>,
    res: (Seq<JsonValue>, Seq<JsonValue>, Seq<JsonValue>),
) -> (Seq<JsonValue>, Seq<JsonValue>, Seq<JsonValue>) {
    (acc + res.0, pl + res.1, pr + res.2)
}

fn dash_bytes() -> (r: Vec<u8>)
    ensures
        r@ == seq![45u8],
{
    let mut v: Vec<u8> = Vec::new();
    v.push(45u8);
    assert(v@ =~= seq![45u8]);
    v
}

/// Appends to `patches` the patches from `from` to `to` at `path`
/// (see `diff`).
fn create_patches<F: Fn(u64, u64) -> bool>(
    patches: &mut cJSON,
    path: &[u8],
    from: &mut cJSON,
    to: &mut cJSON,
    case_sensitive: bool,
    num_eq: &F,
)
    requires
        is_number_equality(*num_eq),
    ensures
        final(patches)@ == with_children(
            old(patches)@,
            old(patches)@.child + diff(
                path@,
                old(from)@,
                old(to)@,
                case_sensitive,
                num_eq_spec(*num_eq),
            ).0,
        ),
        final(from)@ == diff(path@, old(from)@, old(to)@, case_sensitive, num_eq_spec(*num_eq)).1,
        final(to)@ == diff(path@, old(from)@, old(to)@, case_sensitive, num_eq_spec(*num_eq)).2,
    decreases height(old(from)@) + height(old(to)@), 1int,
{
    let ghost eq = num_eq_spec(*num_eq);
    let ghost pv = patches@;
    let ghost fv = from@;
    let ghost tv = to@;
    proof {
        lemma_view_fields(*from);
        lemma_view_fields(*to);
    }
    let t = from.type_ & 255;
    let mut replace = false;
    if t != to.type_ & 255 {
        replace = true;
    } else if t == cJSON_Number {
        if from.valueint != to.valueint {
            replace = true;
        } else {
            let same = num_eq(from.valuedouble, to.valuedouble);
            proof {
                if !same {
                    assert(!call_ensures(*num_eq, (from.valuedouble, to.valuedouble), true));
                }
            }
            replace = !same;
        }
    } else if t == cJSON_String {
        replace = match (&from.valuestring, &to.valuestring) {
            (Some(a), Some(b)) => !keys_equal(a.as_slice(), b.as_slice(), true),
            _ => true,
        };
    } else if t == cJSON_Array {
        diff_arrays(patches, path, from, to, case_sensitive, num_eq);
        return;
    } else if t == cJSON_Object {
        sort_object(from, case_sensitive);
        sort_object(to, case_sensitive);
        proof {
            lemma_sort_height(fv.child, case_sensitive);
            lemma_sort_height(tv.child, case_sensitive);
        }
        diff_objects(patches, path, from, to, case_sensitive, num_eq);
        return;
    }
    if replace {
        compose_patch(patches, replace_op_bytes().as_slice(), path, None, Some(&*to));
        assert(pv.child.push(patch_entry(replace_op(), path@, None, Some(tv))) =~= pv.child
            + seq![patch_entry(replace_op(), path@, None, Some(tv))]);
    } else {
        assert(pv.child + Seq::<JsonValue>::empty() =~= pv.child);
        assert(with_children(pv, pv.child) =~= pv);
    }
}

/// Appends the patches of the elements of the arrays `from` and `to` (see
/// `diff_elems`).
fn diff_arrays<F: Fn(u64, u64) -> bool>(
    patches: &mut cJSON,
    path: &[u8],
    from: &mut cJSON,
    to: &mut cJSON,
    case_sensitive: bool,
    num_eq: &F,
)
    requires
        is_number_equality(*num_eq),
    ensures
        final(patches)@ == with_children(
            old(patches)@,
            old(patches)@.child + diff_elems(
                path@,
                old(from)@.child,
                old(to)@.child,
                0,
                case_sensitive,
                num_eq_spec(*num_eq),
            ).0,
        ),
        final(from)@ == with_children(
            old(from)@,
            diff_elems(
                path@,
                old(from)@.child,
                old(to)@.child,
                0,
                case_sensitive,
                num_eq_spec(*num_eq),
            ).1,
        ),
        final(to)@ == with_children(
            old(to)@,
            diff_elems(
                path@,
                old(from)@.child,
                old(to)@.child,
                0,
                case_sensitive,
                num_eq_spec(*num_eq),
            ).2,
        ),
    decreases height(old(from)@) + height(old(to)@), 0int,
{
    let ghost eq = num_eq_spec(*num_eq);
    let ghost pv = patches@;
    let ghost fv = from@;
    let ghost tv = to@;
    proof {
        lemma_view_fields(*from);
        lemma_view_fields(*to);
    }
    let ghost f0 = views(from.child@);
    let ghost t0 = views(to.child@);
    let ghost fsave = *from;
    let ghost tsave = *to;
    let ghost mut acc: Seq<JsonValue> = Seq::empty();
    proof {
        assert(f0.skip(0) =~= f0);
        assert(t0.skip(0) =~= t0);
        let r0 = diff_elems(path@, f0, t0, 0, case_sensitive, eq);
        assert(acc + r0.0 =~= r0.0);
        assert(f0.take(0) + r0.1 =~= r0.1);
        assert(t0.take(0) + r0.2 =~= r0.2);
        assert(pv.child + acc =~= pv.child);
        assert(with_children(pv, pv.child) =~= pv);
    }
    let mut index: usize = 0;
    while index < from.child.len() && index < to.child.len()
        invariant
            is_number_equality(*num_eq),
            eq == num_eq_spec(*num_eq),
            fv == old(from)@,
            tv == old(to)@,
            pv == old(patches)@,
            f0 == fv.child,
            t0 == tv.child,
            index <= f0.len(),
            index <= t0.len(),
            f0.len() == from.child@.len(),
            t0.len() == to.child@.len(),
            max_height(f0) < height(fv),
            max_height(t0) < height(tv),
            views(from.child@).skip(index as int) == f0.skip(index as int),
            views(to.child@).skip(index as int) == t0.skip(index as int),
            patches@ == with_children(pv, pv.child + acc),
            diff_elems(path@, f0, t0, 0, case_sensitive, eq) == join_diff(
                acc,
                views(from.child@).take(index as int),
                views(to.child@).take(index as int),
                diff_elems(
                    path@,
                    f0.skip(index as int),
                    t0.skip(index as int),
                    index as nat,
                    case_sensitive,
                    eq,
                ),
            ),
            from.type_ == fsave.type_,
            from.valuestring == fsave.valuestring,
            from.valueint == fsave.valueint,
            from.valuedouble == fsave.valuedouble,
            from.string == fsave.string,
            to.type_ == tsave.type_,
            to.valuestring == tsave.valuestring,
            to.valueint == tsave.valueint,
            to.valuedouble == tsave.valuedouble,
            to.string == tsave.string,
            fsave@ == fv,
            tsave@ == tv,
        decreases f0.len() - index,
    {
        let ghost bf = views(from.child@);
        let ghost bt = views(to.child@);
        let ghost fs = f0.skip(index as int);
        let ghost ts = t0.skip(index as int);
        let ghost pb = patches@;
        assert(fs[0] == f0[index as int]);
        assert(ts[0] == t0[index as int]);
        assert(bf[index as int] == fs[0]) by {
            assert(bf.skip(index as int)[0] == bf[index as int]);
        }
        assert(bt[index as int] == ts[0]) by {
            assert(bt.skip(index as int)[0] == bt[index as int]);
        }
        let mut new_path = copy_bytes(path);
        new_path.push(47u8);
        let digits = usize_to_digits(index);
        append_bytes(&mut new_path, digits.as_slice());
        assert(new_path@ =~= elem_path(path@, index as nat));
        proof {
            lemma_max_height(f0, index as int);
            lemma_max_height(t0, index as int);
            assert(from.child@[index as int]@ == f0[index as int]);
            assert(to.child@[index as int]@ == t0[index as int]);
        }
        create_patches(
            patches,
            new_path.as_slice(),
            &mut from.child[index],
            &mut to.child[index],
            case_sensitive,
            num_eq,
        );
        let ghost first = diff(elem_path(path@, index as nat), fs[0], ts[0], case_sensitive, eq);
        proof {
            let af = views(from.child@);
            let at = views(to.child@);
            assert(af =~= bf.update(index as int, first.1));
            assert(at =~= bt.update(index as int, first.2));
            assert(fs.drop_first() =~= f0.skip(index + 1));
            assert(ts.drop_first() =~= t0.skip(index + 1));
            let rest = diff_elems(
                path@,
                f0.skip(index + 1),
                t0.skip(index + 1),
                (index + 1) as nat,
                case_sensitive,
                eq,
            );
            assert(acc + (first.0 + rest.0) =~= (acc + first.0) + rest.0);
            assert(bf.take(index as int) + (seq![first.1] + rest.1) =~= af.take(index + 1)
                + rest.1);
            assert(bt.take(index as int) + (seq![first.2] + rest.2) =~= at.take(index + 1)
                + rest.2);
            assert(af.skip(index + 1) =~= bf.skip(index + 1));
            assert(at.skip(index + 1) =~= bt.skip(index + 1));
            assert(bf.skip(index + 1) =~= bf.skip(index as int).drop_first());
            assert(bt.skip(index + 1) =~= bt.skip(index as int).drop_first());
            assert(pv.child + acc + first.0 =~= pv.child + (acc + first.0));
            acc = acc + first.0;
        }
        index = index + 1;
    }
    let ghost fs = f0.skip(index as int);
    let ghost ts = t0.skip(index as int);
    let ghost pre_f = views(from.child@);
    let ghost pre_t = views(to.child@);
    let flen = from.child.len();
    let tlen = to.child.len();
    let digits = usize_to_digits(index);
    let ghost rem_entry = patch_entry(remove_op(), path@, Some(decimal_digits(index as nat)), None);
    let mut j: usize = index;
    proof {
        assert(removals(path@, index as nat, 0) =~= Seq::<JsonValue>::empty());
        assert(pv.child + acc + removals(path@, index as nat, 0) =~= pv.child + acc);
    }
    while j < flen
        invariant
            index <= j <= flen,
            flen == f0.len(),
            patches@ == with_children(pv, pv.child + acc + removals(
                path@,
                index as nat,
                (j - index) as nat,
            )),
            digits@ == decimal_digits(index as nat),
            rem_entry == patch_entry(remove_op(), path@, Some(decimal_digits(index as nat)), None),
        decreases flen - j,
    {
        compose_patch(
            patches,
            remove_op_bytes().as_slice(),
            path,
            Some(digits.as_slice()),
            None,
        );
        proof {
            assert(removals(path@, index as nat, (j + 1 - index) as nat) =~= removals(
                path@,
                index as nat,
                (j - index) as nat,
            ).push(rem_entry));
            assert((pv.child + acc + removals(path@, index as nat, (j - index) as nat)).push(
                rem_entry,
            ) =~= pv.child + acc + removals(path@, index as nat, (j + 1 - index) as nat));
        }
        j = j + 1;
    }
    let dash = dash_bytes();
    let mut k: usize = index;
    let ghost base = pv.child + acc + removals(path@, index as nat, (flen - index) as nat);
    proof {
        assert(ts.take(0) =~= Seq::<JsonValue>::empty());
        assert(additions(path@, ts.take(0)) =~= Seq::<JsonValue>::empty());
        assert(base + additions(path@, ts.take(0)) =~= base);
    }
    while k < tlen
        invariant
            index <= k <= tlen,
            tlen == t0.len(),
            tlen == to.child@.len(),
            ts == t0.skip(index as int),
            views(to.child@).skip(index as int) == ts,
            dash@ == seq![45u8],
            patches@ == with_children(pv, base + additions(path@, ts.take(k - index))),
        decreases tlen - k,
    {
        assert(to.child@[k as int]@ == ts[k - index]) by {
            assert(views(to.child@).skip(index as int)[k - index] == views(to.child@)[k as int]);
        }
        compose_patch(
            patches,
            add_op_bytes().as_slice(),
            path,
            Some(dash.as_slice()),
            Some(&to.child[k]),
        );
        proof {
            let e = patch_entry(add_op(), path@, Some(seq![45u8]), Some(ts[k - index]));
            assert(ts.take(k + 1 - index).drop_last() =~= ts.take(k - index));
            assert(additions(path@, ts.take(k + 1 - index)) =~= additions(
                path@,
                ts.take(k - index),
            ).push(e));
            assert((base + additions(path@, ts.take(k - index))).push(e) =~= base + additions(
                path@,
                ts.take(k + 1 - index),
            ));
        }
        k = k + 1;
    }
    proof {
        assert(ts.take(tlen - index) =~= ts);
        let r0 = diff_elems(path@, f0, t0, 0, case_sensitive, eq);
        let rest = diff_elems(path@, fs, ts, index as nat, case_sensitive, eq);
        assert(rest.0 == removals(path@, index as nat, fs.len()) + additions(path@, ts));
        assert(base + additions(path@, ts) =~= pv.child + r0.0);
        assert(pre_f.take(index as int) + fs =~= pre_f);
        assert(pre_t.take(index as int) + ts =~= views(to.child@));
        lemma_view_fields(*from);
        lemma_view_fields(*to);
        lemma_view_fields(fsave);
        lemma_view_fields(tsave);
        assert(from@ =~= with_children(fv, r0.1));
        assert(to@ =~= with_children(tv, r0.2));
    }
}

/// Appends the patches of the members of the sorted objects `from` and `to`
/// (see `diff_members`).
#[verifier::rlimit(40)]
fn diff_objects<F: Fn(u64, u64) -> bool>(
    patches: &mut cJSON,
    path: &[u8],
    from: &mut cJSON,
    to: &mut cJSON,
    case_sensitive: bool,
    num_eq: &F,
)
    requires
        is_number_equality(*num_eq),
    ensures
        final(patches)@ == with_children(
            old(patches)@,
            old(patches)@.child + diff_members(
                path@,
                old(from)@.child,
                old(to)@.child,
                case_sensitive,
                num_eq_spec(*num_eq),
            ).0,
        ),
        final(from)@ == with_children(
            old(from)@,
            diff_members(
                path@,
                old(from)@.child,
                old(to)@.child,
                case_sensitive,
                num_eq_spec(*num_eq),
            ).1,
        ),
        final(to)@ == with_children(
            old(to)@,
            diff_members(
                path@,
                old(from)@.child,
                old(to)@.child,
                case_sensitive,
                num_eq_spec(*num_eq),
            ).2,
        ),
    decreases height(old(from)@) + height(old(to)@), 0int,
{
    let ghost eq = num_eq_spec(*num_eq);
    let ghost pv = patches@;
    let ghost fv = from@;
    let ghost tv = to@;
    proof {
        lemma_view_fields(*from);
        lemma_view_fields(*to);
    }
    let ghost f0 = views(from.child@);
    let ghost t0 = views(to.child@);
    let ghost fsave = *from;
    let ghost tsave = *to;
    let ghost mut acc: Seq<JsonValue> = Seq::empty();
    proof {
        assert(f0.skip(0) =~= f0);
        assert(t0.skip(0) =~= t0);
        let r0 = diff_members(path@, f0, t0, case_sensitive, eq);
        assert(acc + r0.0 =~= r0.0);
        assert(f0.take(0) + r0.1 =~= r0.1);
        assert(t0.take(0) + r0.2 =~= r0.2);
        assert(pv.child + acc =~= pv.child);
        assert(with_children(pv, pv.child) =~= pv);
    }
    let flen = from.child.len();
    let tlen = to.child.len();
    let mut fi: usize = 0;
    let mut ti: usize = 0;
    while fi < flen || ti < tlen
        invariant
            is_number_equality(*num_eq),
            eq == num_eq_spec(*num_eq),
            fv == old(from)@,
            tv == old(to)@,
            pv == old(patches)@,
            f0 == fv.child,
            t0 == tv.child,
            flen == f0.len(),
            tlen == t0.len(),
            fi <= flen,
            ti <= tlen,
            f0.len() == from.child@.len(),
            t0.len() == to.child@.len(),
            max_height(f0) < height(fv),
            max_height(t0) < height(tv),
            views(from.child@).skip(fi as int) == f0.skip(fi as int),
            views(to.child@).skip(ti as int) == t0.skip(ti as int),
            patches@ == with_children(pv, pv.child + acc),
            diff_members(path@, f0, t0, case_sensitive, eq) == join_diff(
                acc,
                views(from.child@).take(fi as int),
                views(to.child@).take(ti as int),
                diff_members(path@, f0.skip(fi as int), t0.skip(ti as int), case_sensitive, eq),
            ),
            from.type_ == fsave.type_,
            from.valuestring == fsave.valuestring,
            from.valueint == fsave.valueint,
            from.valuedouble == fsave.valuedouble,
            from.string == fsave.string,
            to.type_ == tsave.type_,
            to.valuestring == tsave.valuestring,
            to.valueint == tsave.valueint,
            to.valuedouble == tsave.valuedouble,
            to.string == tsave.string,
            fsave@ == fv,
            tsave@ == tv,
        decreases (flen - fi) + (tlen - ti),
    {
        let ghost bf = views(from.child@);
        let ghost bt = views(to.child@);
        let ghost fs = f0.skip(fi as int);
        let ghost ts = t0.skip(ti as int);
        proof {
            if fi < flen {
                assert(fs[0] == f0[fi as int]);
                assert(bf[fi as int] == fs[0]) by {
                    assert(bf.skip(fi as int)[0] == bf[fi as int]);
                }
                lemma_view_fields(from.child@[fi as int]);
            }
            if ti < tlen {
                assert(ts[0] == t0[ti as int]);
                assert(bt[ti as int] == ts[0]) by {
                    assert(bt.skip(ti as int)[0] == bt[ti as int]);
                }
                lemma_view_fields(to.child@[ti as int]);
            }
            assert(bf.take(fi as int) + fs =~= bf);
            assert(bt.take(ti as int) + ts =~= bt);
        }
        let d: i32 = if fi >= flen {
            1
        } else if ti >= tlen {
            -1
        } else {
            compare_member_keys(&from.child[fi], &to.child[ti], case_sensitive)
        };
        if d == 0 {
            let new_path: Vec<u8> = match &from.child[fi].string {
                None => {
                    proof {
                        lemma_view_fields(*from);
                        lemma_view_fields(*to);
                        lemma_view_fields(fsave);
                        lemma_view_fields(tsave);
                        assert(pv.child + acc =~= pv.child + (acc + Seq::<JsonValue>::empty()));
                        assert(from@ =~= with_children(fv, diff_members(path@, f0, t0, case_sensitive, eq).1));
                        assert(to@ =~= with_children(tv, diff_members(path@, f0, t0, case_sensitive, eq).2));
                    }
                    return;
                },
                Some(key) => {
                    let mut np = copy_bytes(path);
                    np.push(47u8);
                    encode_string_as_pointer(&mut np, key.as_slice());
                    np
                },
            };
            proof {
                lemma_max_height(f0, fi as int);
                lemma_max_height(t0, ti as int);
            }
            create_patches(
                patches,
                new_path.as_slice(),
                &mut from.child[fi],
                &mut to.child[ti],
                case_sensitive,
                num_eq,
            );
            proof {
                let k = fs[0].string->0;
                assert(new_path@ =~= path@ + seq![47u8] + encode_token(k));
                let first = diff(path@ + seq![47u8] + encode_token(k), fs[0], ts[0], case_sensitive, eq);
                let af = views(from.child@);
                let at = views(to.child@);
                assert(af =~= bf.update(fi as int, first.1));
                assert(at =~= bt.update(ti as int, first.2));
                assert(fs.drop_first() =~= f0.skip(fi + 1));
                assert(ts.drop_first() =~= t0.skip(ti + 1));
                let rest = diff_members(path@, f0.skip(fi + 1), t0.skip(ti + 1), case_sensitive, eq);
                assert(acc + (first.0 + rest.0) =~= (acc + first.0) + rest.0);
                assert(bf.take(fi as int) + (seq![first.1] + rest.1) =~= af.take(fi + 1) + rest.1);
                assert(bt.take(ti as int) + (seq![first.2] + rest.2) =~= at.take(ti + 1) + rest.2);
                assert(af.skip(fi + 1) =~= bf.skip(fi + 1));
                assert(at.skip(ti + 1) =~= bt.skip(ti + 1));
                assert(bf.skip(fi + 1) =~= bf.skip(fi as int).drop_first());
                assert(bt.skip(ti + 1) =~= bt.skip(ti as int).drop_first());
                assert(pv.child + acc + first.0 =~= pv.child + (acc + first.0));
                acc = acc + first.0;
            }
            fi = fi + 1;
            ti = ti + 1;
        } else if d < 0 {
            let key: Vec<u8> = match &from.child[fi].string {
                None => {
                    proof {
                        lemma_view_fields(*from);
                        lemma_view_fields(*to);
                        lemma_view_fields(fsave);
                        lemma_view_fields(tsave);
                        assert(pv.child + acc =~= pv.child + (acc + Seq::<JsonValue>::empty()));
                        assert(from@ =~= with_children(fv, diff_members(path@, f0, t0, case_sensitive, eq).1));
                        assert(to@ =~= with_children(tv, diff_members(path@, f0, t0, case_sensitive, eq).2));
                    }
                    return;
                },
                Some(k) => copy_bytes(k.as_slice()),
            };
            compose_patch(patches, remove_op_bytes().as_slice(), path, Some(key.as_slice()), None);
            proof {
                let e = patch_entry(remove_op(), path@, Some(key@), None);
                assert(fs.drop_first() =~= f0.skip(fi + 1));
                let rest = diff_members(path@, f0.skip(fi + 1), ts, case_sensitive, eq);
                assert(acc + (seq![e] + rest.0) =~= (acc + seq![e]) + rest.0);
                assert(bf.take(fi as int) + (seq![fs[0]] + rest.1) =~= bf.take(fi + 1) + rest.1);
                assert(bf.skip(fi + 1) =~= bf.skip(fi as int).drop_first());
                assert((pv.child + acc).push(e) =~= pv.child + (acc + seq![e]));
                acc = acc + seq![e];
            }
            fi = fi + 1;
        } else {
            let key: Vec<u8> = match &to.child[ti].string {
                None => {
                    proof {
                        lemma_view_fields(*from);
                        lemma_view_fields(*to);
                        lemma_view_fields(fsave);
                        lemma_view_fields(tsave);
                        assert(pv.child + acc =~= pv.child + (acc + Seq::<JsonValue>::empty()));
                        assert(from@ =~= with_children(fv, diff_members(path@, f0, t0, case_sensitive, eq).1));
                        assert(to@ =~= with_children(tv, diff_members(path@, f0, t0, case_sensitive, eq).2));
                    }
                    return;
                },
                Some(k) => copy_bytes(k.as_slice()),
            };
            compose_patch(
                patches,
                add_op_bytes().as_slice(),
                path,
                Some(key.as_slice()),
                Some(&to.child[ti]),
            );
            proof {
                let e = patch_entry(add_op(), path@, Some(key@), Some(ts[0]));
                assert(ts.drop_first() =~= t0.skip(ti + 1));
                let rest = diff_members(path@, fs, t0.skip(ti + 1), case_sensitive, eq);
                assert(acc + (seq![e] + rest.0) =~= (acc + seq![e]) + rest.0);
                assert(bt.take(ti as int) + (seq![ts[0]] + rest.2) =~= bt.take(ti + 1) + rest.2);
                assert(bt.skip(ti + 1) =~= bt.skip(ti as int).drop_first());
                assert((pv.child + acc).push(e) =~= pv.child + (acc + seq![e]));
                acc = acc + seq![e];
            }
            ti = ti + 1;
        }
    }
    proof {
        let af = views(from.child@);
        let at = views(to.child@);
        assert(f0.skip(fi as int) =~= Seq::<JsonValue>::empty());
        assert(t0.skip(ti as int) =~= Seq::<JsonValue>::empty());
        assert(af.take(fi as int) =~= af);
        assert(at.take(ti as int) =~= at);
        assert(acc + Seq::<JsonValue>::empty() =~= acc);
        lemma_view_fields(*from);
        lemma_view_fields(*to);
        lemma_view_fields(fsave);
        lemma_view_fields(tsave);
        assert(from@ =~= with_children(fv, diff_members(path@, f0, t0, case_sensitive, eq).1));
        assert(to@ =~= with_children(tv, diff_members(path@, f0, t0, case_sensitive, eq).2));
    }
}

/// The array of patches from `from` to `to` (see `diff`), keys
/// compared as given; both values are left as the generation leaves them.
pub fn generate_patches<F: Fn(u64, u64) -> bool>(
    from: &mut cJSON,
    to: &mut cJSON,
    case_sensitive: bool,
    num_eq: &F,
) -> (r: cJSON)
    requires
        is_number_equality(*num_eq),
    ensures
        r@ == with_children(
            fresh(cJSON_Array),
            diff(Seq::empty(), old(from)@, old(to)@, case_sensitive, num_eq_spec(*num_eq)).0,
        ),
        final(from)@ == diff(
            Seq::empty(),
            old(from)@,
            old(to)@,
            case_sensitive,
            num_eq_spec(*num_eq),
        ).1,
        final(to)@ == diff(
            Seq::empty(),
            old(from)@,
            old(to)@,
            case_sensitive,
            num_eq_spec(*num_eq),
        ).2,
{
    let mut patches = cJSON_CreateArray();
    let empty: Vec<u8> = Vec::new();
    assert(empty@ =~= Seq::<u8>::empty());
    create_patches(&mut patches, empty.as_slice(), from, to, case_sensitive, num_eq);
    assert(Seq::<JsonValue>::empty() + diff(
        Seq::empty(),
        old(from)@,
        old(to)@,
        case_sensitive,
        num_eq_spec(*num_eq),
    ).0 =~= diff(Seq::empty(), old(from)@, old(to)@, case_sensitive, num_eq_spec(*num_eq)).0);
    patches
}

/// The patches from `from` to `to`, keys compared without regard to
/// ASCII case.
pub fn cJSONUtils_GeneratePatches<F: Fn(u64, u64) -> bool>(
    from: &mut cJSON,
    to: &mut cJSON,
    num_eq: &F,
) -> (r: cJSON)
    requires
        is_number_equality(*num_eq),
    ensures
        r@ == with_children(
            fresh(cJSON_Array),
            diff(Seq::empty(), old(from)@, old(to)@, false, num_eq_spec(*num_eq)).0,
        ),
        final(from)@ == diff(Seq::empty(), old(from)@, old(to)@, false, num_eq_spec(*num_eq)).1,
        final(to)@ == diff(Seq::empty(), old(from)@, old(to)@, false, num_eq_spec(*num_eq)).2,
{
    generate_patches(from, to, false, num_eq)
}

/// The patches from `from` to `to` (see `diff`).
pub fn cJSONUtils_GeneratePatchesCaseSensitive<F: Fn(u64, u64) -> bool>(
    from: &mut cJSON,
    to: &mut cJSON,
    num_eq: &F,
) -> (r: cJSON)
    requires
        is_number_equality(*num_eq),
    ensures
        r@ == with_children(
            fresh(cJSON_Array),
            diff(Seq::empty(), old(from)@, old(to)@, true, num_eq_spec(*num_eq)).0,
        ),
        final(from)@ == diff(Seq::empty(), old(from)@, old(to)@, true, num_eq_spec(*num_eq)).1,
        final(to)@ == diff(Seq::empty(), old(from)@, old(to)@, true, num_eq_spec(*num_eq)).2,
{
    generate_patches(from, to, true, num_eq)
}

} // verus!

verus! {

// ---------------------------------------------------------------------
// No patches between a value and itself
// ---------------------------------------------------------------------

/// Every string node of `v` holds its text.
pub open spec fn texts_present(v: JsonValue) -> bool
    decreases v,
{
    &&& (type_tag(v) == cJSON_String ==> v.valuestring is Some)
    &&& forall|i: int| 0 <= i < v.child.len() ==> texts_present(#[trigger] v.child[i])
}

proof fn lemma_sorted_texts_present(s: Seq<JsonValue>, cs: bool)
    requires
        forall|i: int| 0 <= i < s.len() ==> texts_present(#[trigger] s[i]),
    ensures
        forall|i: int|
            0 <= i < sort_members(s, cs).len() ==> texts_present(#[trigger] sort_members(s, cs)[i]),
{
    crate::sort::lemma_sort_members_elems(s, cs);
    assert forall|i: int| 0 <= i < sort_members(s, cs).len() implies texts_present(
        #[trigger] sort_members(s, cs)[i],
    ) by {
        assert(s.contains(sort_members(s, cs)[i]));
    }
}

proof fn lemma_diff_self_value(
    path: Seq<u8>,
    v: JsonValue,
    cs: bool,
    eq: spec_fn(u64, u64) -> bool,
)
    requires
        texts_present(v),
        forall|x: u64| #[trigger] eq(x, x),
    ensures
        diff(path, v, v, cs, eq).0 == Seq::<JsonValue>::empty(),
        diff(path, v, v, cs, eq).1 == diff(path, v, v, cs, eq).2,
    decreases height(v), 0int, 0int,
{
    let t = type_tag(v);
    if t == cJSON_Number {
        assert(eq(v.valuedouble, v.valuedouble));
    } else if t == cJSON_Array {
        assert forall|i: int| 0 <= i < v.child.len() implies texts_present(#[trigger] v.child[i]) by {}
        lemma_diff_self_elems(path, v.child, 0, cs, eq);
    } else if t == cJSON_Object {
        lemma_sort_height(v.child, cs);
        lemma_sorted_texts_present(v.child, cs);
        lemma_diff_self_members(path, sort_members(v.child, cs), cs, eq);
    }
}

proof fn lemma_diff_self_elems(
    path: Seq<u8>,
    fs: Seq<JsonValue>,
    index: nat,
    cs: bool,
    eq: spec_fn(u64, u64) -> bool,
)
    requires
        forall|i: int| 0 <= i < fs.len() ==> texts_present(#[trigger] fs[i]),
        forall|x: u64| #[trigger] eq(x, x),
    ensures
        diff_elems(path, fs, fs, index, cs, eq).0 == Seq::<JsonValue>::empty(),
        diff_elems(path, fs, fs, index, cs, eq).1 == diff_elems(path, fs, fs, index, cs, eq).2,
    decreases max_height(fs), 1int, fs.len(),
{
    if fs.len() == 0 {
        assert(removals(path, index, 0) + additions(path, fs) =~= Seq::<JsonValue>::empty());
    } else {
        lemma_max_height(fs, 0);
        assert(texts_present(fs[0]));
        lemma_diff_self_value(elem_path(path, index), fs[0], cs, eq);
        let rest = fs.drop_first();
        assert forall|i: int| 0 <= i < rest.len() implies texts_present(#[trigger] rest[i]) by {
            assert(rest[i] == fs[i + 1]);
        }
        lemma_diff_self_elems(path, rest, index + 1, cs, eq);
        let first = diff(elem_path(path, index), fs[0], fs[0], cs, eq);
        let r = diff_elems(path, rest, rest, index + 1, cs, eq);
        assert(first.0 + r.0 =~= Seq::<JsonValue>::empty());
    }
}

proof fn lemma_diff_self_members(
    path: Seq<u8>,
    fs: Seq<JsonValue>,
    cs: bool,
    eq: spec_fn(u64, u64) -> bool,
)
    requires
        forall|i: int| 0 <= i < fs.len() ==> texts_present(#[trigger] fs[i]),
        forall|x: u64| #[trigger] eq(x, x),
    ensures
        diff_members(path, fs, fs, cs, eq).0 == Seq::<JsonValue>::empty(),
        diff_members(path, fs, fs, cs, eq).1 == diff_members(path, fs, fs, cs, eq).2,
    decreases max_height(fs), 1int, fs.len(),
{
    if fs.len() > 0 {
        match fs[0].string {
            None => {},
            Some(k) => {
                crate::keys::lemma_compare_from_reflexive(k, cs, 0);
                assert(key_order(fs[0], fs[0], cs) == 0);
                lemma_max_height(fs, 0);
                assert(texts_present(fs[0]));
                let p = path + seq![47u8] + encode_token(k);
                lemma_diff_self_value(p, fs[0], cs, eq);
                let rest = fs.drop_first();
                assert forall|i: int| 0 <= i < rest.len() implies texts_present(#[trigger] rest[i]) by {
                    assert(rest[i] == fs[i + 1]);
                }
                lemma_diff_self_members(path, rest, cs, eq);
                let first = diff(p, fs[0], fs[0], cs, eq);
                let r = diff_members(path, rest, rest, cs, eq);
                assert(first.0 + r.0 =~= Seq::<JsonValue>::empty());
            },
        }
    }
}

/// Generating the patches from a value to the same value gives none, where
/// every string of the value holds its text and the number comparison is
/// reflexive; both values are then left sorted alike.
pub proof fn lemma_no_patches_to_itself(v: JsonValue, cs: bool, eq: spec_fn(u64, u64) -> bool)
    requires
        texts_present(v),
        forall|x: u64| #[trigger] eq(x, x),
    ensures
        diff(Seq::empty(), v, v, cs, eq).0 == Seq::<JsonValue>::empty(),
        diff(Seq::empty(), v, v, cs, eq).1 == diff(Seq::empty(), v, v, cs, eq).2,
{
    lemma_diff_self_value(Seq::empty(), v, cs, eq);
}

} // verus!

verus! {

// ---------------------------------------------------------------------
// No patches between equal values
// ---------------------------------------------------------------------

proof fn lemma_same_no_patches_value(
    path: Seq<u8>,
    a: JsonValue,
    b: JsonValue,
    cs: bool,
    eq: spec_fn(u64, u64) -> bool,
)
    requires
        same_json(a, b, cs, eq).0,
    ensures
        diff(path, a, b, cs, eq).0 == Seq::<JsonValue>::empty(),
        diff(path, a, b, cs, eq).1 == same_json(a, b, cs, eq).1,
        diff(path, a, b, cs, eq).2 == same_json(a, b, cs, eq).2,
    decreases height(a) + height(b), 0int, 0int,
{
    let t = type_tag(a);
    if t == cJSON_Array {
        lemma_same_no_patches_elems(path, a.child, b.child, 0, cs, eq);
    } else if t == cJSON_Object {
        lemma_sort_height(a.child, cs);
        lemma_sort_height(b.child, cs);
        lemma_same_no_patches_members(path, sort_members(a.child, cs), sort_members(b.child, cs), cs, eq);
    }
}

proof fn lemma_same_no_patches_elems(
    path: Seq<u8>,
    fs: Seq<JsonValue>,
    ts: Seq<JsonValue>,
    index: nat,
    cs: bool,
    eq: spec_fn(u64, u64) -> bool,
)
    requires
        same_seq(fs, ts, false, cs, eq).0,
    ensures
        diff_elems(path, fs, ts, index, cs, eq).0 == Seq::<JsonValue>::empty(),
        diff_elems(path, fs, ts, index, cs, eq).1 == same_seq(fs, ts, false, cs, eq).1,
        diff_elems(path, fs, ts, index, cs, eq).2 == same_seq(fs, ts, false, cs, eq).2,
    decreases max_height(fs) + max_height(ts), 1int, fs.len(),
{
    if fs.len() == 0 || ts.len() == 0 {
        assert(removals(path, index, fs.len()) + additions(path, ts) =~= Seq::<JsonValue>::empty());
    } else {
        lemma_max_height(fs, 0);
        lemma_max_height(ts, 0);
        lemma_same_no_patches_value(elem_path(path, index), fs[0], ts[0], cs, eq);
        lemma_same_no_patches_elems(path, fs.drop_first(), ts.drop_first(), index + 1, cs, eq);
        let first = diff(elem_path(path, index), fs[0], ts[0], cs, eq);
        let r = diff_elems(path, fs.drop_first(), ts.drop_first(), index + 1, cs, eq);
        assert(first.0 + r.0 =~= Seq::<JsonValue>::empty());
    }
}

proof fn lemma_same_no_patches_members(
    path: Seq<u8>,
    fs: Seq<JsonValue>,
    ts: Seq<JsonValue>,
    cs: bool,
    eq: spec_fn(u64, u64) -> bool,
)
    requires
        same_seq(fs, ts, true, cs, eq).0,
    ensures
        diff_members(path, fs, ts, cs, eq).0 == Seq::<JsonValue>::empty(),
        diff_members(path, fs, ts, cs, eq).1 == same_seq(fs, ts, true, cs, eq).1,
        diff_members(path, fs, ts, cs, eq).2 == same_seq(fs, ts, true, cs, eq).2,
    decreases max_height(fs) + max_height(ts), 1int, fs.len(),
{
    if fs.len() > 0 && ts.len() > 0 {
        let k = fs[0].string->0;
        assert(key_order(fs[0], ts[0], cs) == 0);
        lemma_max_height(fs, 0);
        lemma_max_height(ts, 0);
        let p = path + seq![47u8] + encode_token(k);
        lemma_same_no_patches_value(p, fs[0], ts[0], cs, eq);
        lemma_same_no_patches_members(path, fs.drop_first(), ts.drop_first(), cs, eq);
        let first = diff(p, fs[0], ts[0], cs, eq);
        let r = diff_members(path, fs.drop_first(), ts.drop_first(), cs, eq);
        assert(first.0 + r.0 =~= Seq::<JsonValue>::empty());
    }
}

/// Two values that `compare_json` finds equal give no patches, and the
/// generation leaves them as the comparison does: with the objects that it
/// reaches sorted, their values otherwise unchanged.
pub proof fn lemma_no_patches_between_equal(
    from: JsonValue,
    to: JsonValue,
    cs: bool,
    eq: spec_fn(u64, u64) -> bool,
)
    requires
        same_json(from, to, cs, eq).0,
    ensures
        diff(Seq::empty(), from, to, cs, eq).0 == Seq::<JsonValue>::empty(),
        diff(Seq::empty(), from, to, cs, eq).1 == same_json(from, to, cs, eq).1,
        diff(Seq::empty(), from, to, cs, eq).2 == same_json(from, to, cs, eq).2,
{
    lemma_same_no_patches_value(Seq::empty(), from, to, cs, eq);
}

} // verus!

verus! {

// ---------------------------------------------------------------------
// The error statuses of a patch
// ---------------------------------------------------------------------

/// The path of a patch: the text of its `path` member when that is a string.
pub open spec fn patch_path(patch: JsonValue, cs: bool) -> Option<Seq<u8>> {
    match object_index(patch, path_key(), cs) {
        Some(pi) => if type_tag(patch.child[pi]) == cJSON_String {
            patch.child[pi].valuestring
        } else {
            None
        },
        None => None,
    }
}

/// The node that `path` names as the parent of its last token.
pub open spec fn path_parent(obj: JsonValue, path: Seq<u8>, cs: bool) -> Option<JsonValue> {
    let k = last_slash(path);
    if k < 0 {
        None
    } else {
        match pointer_path(obj, path.take(k), cs) {
            Some(pp) => node_at(obj, pp),
            None => None,
        }
    }
}

/// The last token of `path`, decoded.
pub open spec fn path_last_token(path: Seq<u8>) -> Option<Seq<u8>> {
    let k = last_slash(path);
    if k < 0 {
        None
    } else {
        decode_token(path.skip(k + 1))
    }
}

/// The statuses with which a patch that has a non-empty path and an
/// operation other than `test` fails, the document left as it was (or, for
/// a `replace` without a value, with the replaced member removed): 13 when
/// `remove` or `replace` finds nothing at the path; 4 when `move` or `copy`
/// has no `from`; 5 when that is no string or names nothing; 7 when `add` or
/// `replace` has no `value`. Where the operation has a value to put in
/// place (`add`, and `replace`, `move` or `copy` once they have removed or
/// found what they remove or copy; see `patch_value`), the document as that
/// step leaves it stays so and the status is 9 when the parent is missing or
/// is neither an array nor an object, 11 when in an array the last token is
/// neither `-` nor an index, 10 when the index is past the end.
pub proof fn lemma_patch_error_statuses(
    obj: JsonValue,
    patch: JsonValue,
    cs: bool,
    eq: spec_fn(u64, u64) -> bool,
)
    requires
        patch_path(patch, cs) matches Some(p) && p.len() > 0,
        !(patch_operation(patch, cs) is Invalid),
        !(patch_operation(patch, cs) is Test),
    ensures
        ({
            let path = patch_path(patch, cs)->0;
            let op = patch_operation(patch, cs);
            let r = apply_patch_spec(obj, patch, cs, eq);
            let has_value = object_index(patch, value_key(), cs) is Some;
            let fi = object_index(patch, from_key(), cs);
            let placed = patch_value(obj, patch, path, op, cs);
            let doc = placed.0;
            let par = path_parent(doc, path, cs);
            let tok = path_last_token(path);
            &&& (op is Remove || op is Replace) && detach_spec(obj, path, cs).1 is None ==> r.0
                == 13 && r.1 == obj
            &&& (op is Move || op is Copy) && fi is None ==> r.0 == 4 && r.1 == obj
            &&& (op is Move || op is Copy) && fi is Some && (match patch.child[fi->0].valuestring {
                None => true,
                Some(f) => if op is Move {
                    detach_spec(obj, f, cs).1 is None
                } else {
                    resolve(obj, f, cs) is None
                },
            }) ==> r.0 == 5 && r.1 == obj
            &&& op is Add && !has_value ==> r.0 == 7 && r.1 == obj
            &&& op is Replace && detach_spec(obj, path, cs).1 is Some && !has_value ==> r.0 == 7
                && r.1 == detach_spec(obj, path, cs).0
            &&& placed.1 is Ok && (par is None || tok is None) ==> r.0 == 9 && r.1 == doc
            &&& placed.1 is Ok && tok is Some && par is Some && type_tag(par->0) != cJSON_Array
                && type_tag(par->0) != cJSON_Object ==> r.0 == 9 && r.1 == doc
            &&& placed.1 is Ok && tok is Some && par is Some && type_tag(par->0) == cJSON_Array
                && tok->0 != seq![45u8] && array_index(tok->0) is None ==> r.0 == 11 && r.1 == doc
            &&& placed.1 is Ok && tok is Some && par is Some && type_tag(par->0) == cJSON_Array
                && tok->0 != seq![45u8] && array_index(tok->0) is Some && array_index(tok->0)->0
                > par->0.child.len() ==> r.0 == 10 && r.1 == doc
            &&& op is Add ==> (placed.1 is Ok) == has_value && doc == obj
            &&& op is Replace ==> (placed.1 is Ok) == (detach_spec(obj, path, cs).1 is Some
                && has_value) && (placed.1 is Ok ==> doc == detach_spec(obj, path, cs).0)
            &&& op is Move && fi is Some && patch.child[fi->0].valuestring is Some ==> (placed.1 is Ok)
                == (detach_spec(obj, patch.child[fi->0].valuestring->0, cs).1 is Some) && (
            placed.1 is Ok ==> doc == detach_spec(obj, patch.child[fi->0].valuestring->0, cs).0)
            &&& op is Copy && fi is Some && patch.child[fi->0].valuestring is Some ==> (placed.1 is Ok)
                == (resolve(obj, patch.child[fi->0].valuestring->0, cs) is Some) && doc == obj
        }),
{
    reveal(apply_patch_spec);
}

} // verus!

verus! {

// ---------------------------------------------------------------------
// Generating patches keeps both values, up to the order of members
// ---------------------------------------------------------------------

/// `w` is `v` with the members of some of its objects, at any depth, put
/// in key order (see `sort_members`): the same type, payload and key, and
/// children that are, one by one, reordered forms of `v`'s children or,
/// for an object, of its sorted members.
pub open spec fn reordered(v: JsonValue, w: JsonValue, cs: bool) -> bool
    decreases height(v), 0int, 0int,
{
    &&& w.type_ == v.type_
    &&& w.valuestring == v.valuestring
    &&& w.valueint == v.valueint
    &&& w.valuedouble == v.valuedouble
    &&& w.string == v.string
    &&& (children_reordered(v.child, w.child, cs, 0) || (type_tag(v) == cJSON_Object && {
        proof {
            lemma_sort_height(v.child, cs);
        }
        children_reordered(sort_members(v.child, cs), w.child, cs, 0)
    }))
}

/// `b` has as many children as `a`, and from index `j` on each is a
/// reordered form of the child of `a` at its place.
pub open spec fn children_reordered(a: Seq<JsonValue>, b: Seq<JsonValue>, cs: bool, j: int) -> bool
    decreases max_height(a), 1int, a.len() - j,
{
    if j < 0 {
        false
    } else if j >= a.len() {
        a.len() == b.len()
    } else {
        proof {
            lemma_max_height(a, j);
        }
        j < b.len() && reordered(a[j], b[j], cs) && children_reordered(a, b, cs, j + 1)
    }
}

proof fn lemma_children_reordered(a: Seq<JsonValue>, b: Seq<JsonValue>, cs: bool, j: int)
    requires
        0 <= j <= a.len(),
    ensures
        children_reordered(a, b, cs, j) == (a.len() == b.len() && forall|i: int|
            j <= i < a.len() ==> reordered(#[trigger] a[i], b[i], cs)),
    decreases a.len() - j,
{
    if j < a.len() {
        lemma_children_reordered(a, b, cs, j + 1);
    }
}

proof fn lemma_reordered_refl(v: JsonValue, cs: bool)
    ensures
        reordered(v, v, cs),
    decreases height(v),
{
    assert forall|i: int| 0 <= i < v.child.len() implies reordered(#[trigger] v.child[i], v.child[i], cs) by {
        crate::types::lemma_child_height(v, i);
        lemma_reordered_refl(v.child[i], cs);
    }
    lemma_children_reordered(v.child, v.child, cs, 0);
}

proof fn lemma_cons_reordered(
    a: Seq<JsonValue>,
    x: JsonValue,
    y: JsonValue,
    b: Seq<JsonValue>,
    ra: Seq<JsonValue>,
    cs: bool,
)
    requires
        a.len() > 0,
        a[0] == x,
        reordered(x, y, cs),
        children_reordered(a.drop_first(), b, cs, 0),
        ra == seq![y] + b,
    ensures
        children_reordered(a, ra, cs, 0),
{
    lemma_children_reordered(a.drop_first(), b, cs, 0);
    assert forall|i: int| 0 <= i < a.len() implies reordered(#[trigger] a[i], ra[i], cs) by {
        if i > 0 {
            assert(a[i] == a.drop_first()[i - 1]);
            assert(ra[i] == b[i - 1]);
        }
    }
    lemma_children_reordered(a, ra, cs, 0);
}

proof fn lemma_all_reordered(a: Seq<JsonValue>, cs: bool)
    ensures
        children_reordered(a, a, cs, 0),
{
    assert forall|i: int| 0 <= i < a.len() implies reordered(#[trigger] a[i], a[i], cs) by {
        lemma_reordered_refl(a[i], cs);
    }
    lemma_children_reordered(a, a, cs, 0);
}

proof fn lemma_diff_reordered(
    path: Seq<u8>,
    from: JsonValue,
    to: JsonValue,
    cs: bool,
    eq: spec_fn(u64, u64) -> bool,
)
    ensures
        reordered(from, diff(path, from, to, cs, eq).1, cs),
        reordered(to, diff(path, from, to, cs, eq).2, cs),
    decreases height(from) + height(to), 0int, 0int,
{
    let t = type_tag(from);
    if t == type_tag(to) && t == cJSON_Array {
        lemma_diff_elems_reordered(path, from.child, to.child, 0, cs, eq);
    } else if t == type_tag(to) && t == cJSON_Object {
        lemma_sort_height(from.child, cs);
        lemma_sort_height(to.child, cs);
        lemma_diff_members_reordered(
            path,
            sort_members(from.child, cs),
            sort_members(to.child, cs),
            cs,
            eq,
        );
    } else {
        lemma_reordered_refl(from, cs);
        lemma_reordered_refl(to, cs);
    }
}

proof fn lemma_diff_elems_reordered(
    path: Seq<u8>,
    fs: Seq<JsonValue>,
    ts: Seq<JsonValue>,
    index: nat,
    cs: bool,
    eq: spec_fn(u64, u64) -> bool,
)
    ensures
        children_reordered(fs, diff_elems(path, fs, ts, index, cs, eq).1, cs, 0),
        children_reordered(ts, diff_elems(path, fs, ts, index, cs, eq).2, cs, 0),
    decreases max_height(fs) + max_height(ts), 1int, fs.len(),
{
    if fs.len() == 0 || ts.len() == 0 {
        lemma_all_reordered(fs, cs);
        lemma_all_reordered(ts, cs);
    } else {
        lemma_max_height(fs, 0);
        lemma_max_height(ts, 0);
        let first = diff(elem_path(path, index), fs[0], ts[0], cs, eq);
        lemma_diff_reordered(elem_path(path, index), fs[0], ts[0], cs, eq);
        lemma_diff_elems_reordered(path, fs.drop_first(), ts.drop_first(), index + 1, cs, eq);
        let rest = diff_elems(path, fs.drop_first(), ts.drop_first(), index + 1, cs, eq);
        lemma_cons_reordered(fs, fs[0], first.1, rest.1, seq![first.1] + rest.1, cs);
        lemma_cons_reordered(ts, ts[0], first.2, rest.2, seq![first.2] + rest.2, cs);
    }
}

proof fn lemma_diff_members_reordered(
    path: Seq<u8>,
    fs: Seq<JsonValue>,
    ts: Seq<JsonValue>,
    cs: bool,
    eq: spec_fn(u64, u64) -> bool,
)
    ensures
        children_reordered(fs, diff_members(path, fs, ts, cs, eq).1, cs, 0),
        children_reordered(ts, diff_members(path, fs, ts, cs, eq).2, cs, 0),
    decreases max_height(fs) + max_height(ts), 1int, fs.len() + ts.len(),
{
    let r = diff_members(path, fs, ts, cs, eq);
    if fs.len() == 0 && ts.len() == 0 {
        lemma_all_reordered(fs, cs);
        lemma_all_reordered(ts, cs);
    } else {
        let d = if fs.len() == 0 {
            1
        } else if ts.len() == 0 {
            -1
        } else {
            key_order(fs[0], ts[0], cs)
        };
        if d == 0 {
            match fs[0].string {
                None => {
                    lemma_all_reordered(fs, cs);
                    lemma_all_reordered(ts, cs);
                },
                Some(k) => {
                    lemma_max_height(fs, 0);
                    lemma_max_height(ts, 0);
                    let p = path + seq![47u8] + encode_token(k);
                    let first = diff(p, fs[0], ts[0], cs, eq);
                    lemma_diff_reordered(p, fs[0], ts[0], cs, eq);
                    lemma_diff_members_reordered(path, fs.drop_first(), ts.drop_first(), cs, eq);
                    let rest = diff_members(path, fs.drop_first(), ts.drop_first(), cs, eq);
                    lemma_cons_reordered(fs, fs[0], first.1, rest.1, seq![first.1] + rest.1, cs);
                    lemma_cons_reordered(ts, ts[0], first.2, rest.2, seq![first.2] + rest.2, cs);
                },
            }
        } else if d < 0 {
            match fs[0].string {
                None => {
                    lemma_all_reordered(fs, cs);
                    lemma_all_reordered(ts, cs);
                },
                Some(k) => {
                    lemma_diff_members_reordered(path, fs.drop_first(), ts, cs, eq);
                    let rest = diff_members(path, fs.drop_first(), ts, cs, eq);
                    lemma_reordered_refl(fs[0], cs);
                    lemma_cons_reordered(fs, fs[0], fs[0], rest.1, seq![fs[0]] + rest.1, cs);
                },
            }
        } else {
            match ts[0].string {
                None => {
                    lemma_all_reordered(fs, cs);
                    lemma_all_reordered(ts, cs);
                },
                Some(k) => {
                    lemma_diff_members_reordered(path, fs, ts.drop_first(), cs, eq);
                    let rest = diff_members(path, fs, ts.drop_first(), cs, eq);
                    lemma_reordered_refl(ts[0], cs);
                    lemma_cons_reordered(ts, ts[0], ts[0], rest.2, seq![ts[0]] + rest.2, cs);
                },
            }
        }
    }
}

/// Generating the patches leaves both values as they were but for the
/// order of the members of the objects that it reaches, which it puts in
/// key order (see `reordered`).
pub proof fn lemma_patches_keep_values(
    from: JsonValue,
    to: JsonValue,
    cs: bool,
    eq: spec_fn(u64, u64) -> bool,
)
    ensures
        reordered(from, diff(Seq::empty(), from, to, cs, eq).1, cs),
        reordered(to, diff(Seq::empty(), from, to, cs, eq).2, cs),
{
    lemma_diff_reordered(Seq::empty(), from, to, cs, eq);
}

} // verus!

verus! {

// ---------------------------------------------------------------------
// No patches only between equal values
// ---------------------------------------------------------------------

/// Every member of every object in `v` has a key.
pub open spec fn all_keyed(v: JsonValue) -> bool
    decreases v,
{
    &&& (type_tag(v) == cJSON_Object ==> forall|i: int|
        0 <= i < v.child.len() ==> (#[trigger] v.child[i]).string is Some)
    &&& forall|i: int| 0 <= i < v.child.len() ==> all_keyed(#[trigger] v.child[i])
}

proof fn lemma_sorted_keyed(s: Seq<JsonValue>, cs: bool)
    requires
        forall|i: int| 0 <= i < s.len() ==> (#[trigger] s[i]).string is Some && all_keyed(s[i]),
    ensures
        forall|i: int|
            0 <= i < sort_members(s, cs).len() ==> (#[trigger] sort_members(s, cs)[i]).string is Some
                && all_keyed(sort_members(s, cs)[i]),
{
    crate::sort::lemma_sort_members_elems(s, cs);
    assert forall|i: int| 0 <= i < sort_members(s, cs).len() implies (#[trigger] sort_members(
        s,
        cs,
    )[i]).string is Some && all_keyed(sort_members(s, cs)[i]) by {
        assert(s.contains(sort_members(s, cs)[i]));
    }
}

proof fn lemma_empty_diff_value(
    path: Seq<u8>,
    a: JsonValue,
    b: JsonValue,
    cs: bool,
    eq: spec_fn(u64, u64) -> bool,
)
    requires
        all_keyed(a),
        all_keyed(b),
        diff(path, a, b, cs, eq).0.len() == 0,
    ensures
        same_json(a, b, cs, eq).0,
    decreases height(a) + height(b), 0int, 0int,
{
    let t = type_tag(a);
    if t == type_tag(b) && t == cJSON_Array {
        assert forall|i: int| 0 <= i < a.child.len() implies all_keyed(#[trigger] a.child[i]) by {}
        assert forall|i: int| 0 <= i < b.child.len() implies all_keyed(#[trigger] b.child[i]) by {}
        lemma_empty_diff_elems(path, a.child, b.child, 0, cs, eq);
    } else if t == type_tag(b) && t == cJSON_Object {
        lemma_sort_height(a.child, cs);
        lemma_sort_height(b.child, cs);
        assert forall|i: int| 0 <= i < a.child.len() implies (#[trigger] a.child[i]).string is Some
            && all_keyed(a.child[i]) by {}
        assert forall|i: int| 0 <= i < b.child.len() implies (#[trigger] b.child[i]).string is Some
            && all_keyed(b.child[i]) by {}
        lemma_sorted_keyed(a.child, cs);
        lemma_sorted_keyed(b.child, cs);
        lemma_empty_diff_members(path, sort_members(a.child, cs), sort_members(b.child, cs), cs, eq);
    }
}

proof fn lemma_empty_diff_elems(
    path: Seq<u8>,
    fs: Seq<JsonValue>,
    ts: Seq<JsonValue>,
    index: nat,
    cs: bool,
    eq: spec_fn(u64, u64) -> bool,
)
    requires
        forall|i: int| 0 <= i < fs.len() ==> all_keyed(#[trigger] fs[i]),
        forall|i: int| 0 <= i < ts.len() ==> all_keyed(#[trigger] ts[i]),
        diff_elems(path, fs, ts, index, cs, eq).0.len() == 0,
    ensures
        same_seq(fs, ts, false, cs, eq).0,
    decreases max_height(fs) + max_height(ts), 1int, fs.len(),
{
    if fs.len() == 0 || ts.len() == 0 {
        assert((removals(path, index, fs.len()) + additions(path, ts)).len() == fs.len() + ts.len());
    } else {
        lemma_max_height(fs, 0);
        lemma_max_height(ts, 0);
        let first = diff(elem_path(path, index), fs[0], ts[0], cs, eq);
        let rest = diff_elems(path, fs.drop_first(), ts.drop_first(), index + 1, cs, eq);
        assert((first.0 + rest.0).len() == first.0.len() + rest.0.len());
        assert(all_keyed(fs[0]));
        assert(all_keyed(ts[0]));
        lemma_empty_diff_value(elem_path(path, index), fs[0], ts[0], cs, eq);
        assert forall|i: int| 0 <= i < fs.drop_first().len() implies all_keyed(
            #[trigger] fs.drop_first()[i],
        ) by {
            assert(fs.drop_first()[i] == fs[i + 1]);
        }
        assert forall|i: int| 0 <= i < ts.drop_first().len() implies all_keyed(
            #[trigger] ts.drop_first()[i],
        ) by {
            assert(ts.drop_first()[i] == ts[i + 1]);
        }
        lemma_empty_diff_elems(path, fs.drop_first(), ts.drop_first(), index + 1, cs, eq);
    }
}

proof fn lemma_empty_diff_members(
    path: Seq<u8>,
    fs: Seq<JsonValue>,
    ts: Seq<JsonValue>,
    cs: bool,
    eq: spec_fn(u64, u64) -> bool,
)
    requires
        forall|i: int| 0 <= i < fs.len() ==> (#[trigger] fs[i]).string is Some && all_keyed(fs[i]),
        forall|i: int| 0 <= i < ts.len() ==> (#[trigger] ts[i]).string is Some && all_keyed(ts[i]),
        diff_members(path, fs, ts, cs, eq).0.len() == 0,
    ensures
        same_seq(fs, ts, true, cs, eq).0,
    decreases max_height(fs) + max_height(ts), 1int, fs.len() + ts.len(),
{
    if fs.len() > 0 && ts.len() > 0 {
        assert(fs[0].string is Some);
        assert(ts[0].string is Some);
        if key_order(fs[0], ts[0], cs) == 0 {
            let k = fs[0].string->0;
            lemma_max_height(fs, 0);
            lemma_max_height(ts, 0);
            let p = path + seq![47u8] + encode_token(k);
            let first = diff(p, fs[0], ts[0], cs, eq);
            let rest = diff_members(path, fs.drop_first(), ts.drop_first(), cs, eq);
            assert((first.0 + rest.0).len() == first.0.len() + rest.0.len());
            lemma_empty_diff_value(p, fs[0], ts[0], cs, eq);
            assert forall|i: int| 0 <= i < fs.drop_first().len() implies (
            #[trigger] fs.drop_first()[i]).string is Some && all_keyed(fs.drop_first()[i]) by {
                assert(fs.drop_first()[i] == fs[i + 1]);
            }
            assert forall|i: int| 0 <= i < ts.drop_first().len() implies (
            #[trigger] ts.drop_first()[i]).string is Some && all_keyed(ts.drop_first()[i]) by {
                assert(ts.drop_first()[i] == ts[i + 1]);
            }
            lemma_empty_diff_members(path, fs.drop_first(), ts.drop_first(), cs, eq);
        }
    } else if fs.len() > 0 {
        assert(fs[0].string is Some);
    } else if ts.len() > 0 {
        assert(ts[0].string is Some);
    }
}

/// Where every member of every object of the two values has a key, the
/// generated patches are empty only when `compare_json` finds the values
/// equal (with `lemma_no_patches_between_equal`: exactly then).
pub proof fn lemma_no_patches_only_between_equal(
    from: JsonValue,
    to: JsonValue,
    cs: bool,
    eq: spec_fn(u64, u64) -> bool,
)
    requires
        all_keyed(from),
        all_keyed(to),
    ensures
        diff(Seq::empty(), from, to, cs, eq).0.len() == 0 ==> same_json(from, to, cs, eq).0,
{
    if diff(Seq::empty(), from, to, cs, eq).0.len() == 0 {
        lemma_empty_diff_value(Seq::empty(), from, to, cs, eq);
    }
}

} // verus!

verus! {

// ---------------------------------------------------------------------
// Placing a value in an object
// ---------------------------------------------------------------------

/// Members whose key a lookup of `key` finds.
pub open spec fn key_match(key: Seq<u8>, cs: bool) -> spec_fn(JsonValue) -> bool {
    |c: JsonValue| c.string is Some && crate::tree::member_stop(c, key, cs)
}

/// Members whose key a lookup of `key` does not find.
pub open spec fn other_key(key: Seq<u8>, cs: bool) -> spec_fn(JsonValue) -> bool {
    |c: JsonValue| !(c.string is Some && crate::tree::member_stop(c, key, cs))
}

pub(crate) proof fn lemma_filter_push(s: Seq<JsonValue>, x: JsonValue, p: spec_fn(JsonValue) -> bool)
    ensures
        s.push(x).filter(p) == s.filter(p) + (if p(x) {
            seq![x]
        } else {
            Seq::<JsonValue>::empty()
        }),
{
    reveal(Seq::filter);
    assert(s.push(x).drop_last() =~= s);
    assert(s.filter(p) + Seq::<JsonValue>::empty() =~= s.filter(p));
    assert(s.filter(p).push(x) =~= s.filter(p) + seq![x]);
}

pub(crate) proof fn lemma_filter_split(s: Seq<JsonValue>, i: int, p: spec_fn(JsonValue) -> bool)
    requires
        0 <= i < s.len(),
    ensures
        s.filter(p) == s.take(i).filter(p) + (if p(s[i]) {
            seq![s[i]]
        } else {
            Seq::<JsonValue>::empty()
        }) + s.skip(i + 1).filter(p),
        s.remove(i).filter(p) == s.take(i).filter(p) + s.skip(i + 1).filter(p),
{
    broadcast use Seq::filter_distributes_over_add;

    assert(s =~= s.take(i) + seq![s[i]] + s.skip(i + 1));
    assert(s.remove(i) =~= s.take(i) + s.skip(i + 1));
    reveal_with_fuel(Seq::filter, 2);
    assert(seq![s[i]].drop_last() =~= Seq::<JsonValue>::empty());
    assert((s.take(i) + seq![s[i]] + s.skip(i + 1)).filter(p) == (s.take(i) + seq![s[i]]).filter(p)
        + s.skip(i + 1).filter(p));
}

pub(crate) proof fn lemma_filter_none_match(s: Seq<JsonValue>, p: spec_fn(JsonValue) -> bool)
    requires
        forall|j: int| 0 <= j < s.len() ==> !p(#[trigger] s[j]),
    ensures
        s.filter(p) == Seq::<JsonValue>::empty(),
    decreases s.len(),
{
    reveal(Seq::filter);
    if s.len() > 0 {
        assert(!p(s[s.len() - 1]));
        lemma_filter_none_match(s.drop_last(), p);
    }
}

/// Putting a value in place under an object parent: where the parent's
/// members all have keys and at most one has a key that a lookup of the
/// last token finds, the parent afterwards holds exactly one such member,
/// the value under that key, and its other members as they were, in their
/// order; the rest of the document is unchanged.
pub proof fn lemma_place_in_object(obj: JsonValue, path: Seq<u8>, value: JsonValue, cs: bool)
    requires
        last_slash(path) >= 0,
        decode_token(path.skip(last_slash(path) + 1)) is Some,
        pointer_path(obj, path.take(last_slash(path)), cs) is Some,
        node_at(obj, pointer_path(obj, path.take(last_slash(path)), cs)->0) is Some,
        type_tag(node_at(obj, pointer_path(obj, path.take(last_slash(path)), cs)->0)->0)
            == cJSON_Object,
        crate::sort::keys_present(
            node_at(obj, pointer_path(obj, path.take(last_slash(path)), cs)->0)->0.child,
        ),
        node_at(obj, pointer_path(obj, path.take(last_slash(path)), cs)->0)->0.child.filter(
            key_match(c_prefix(decode_token(path.skip(last_slash(path) + 1))->0), cs),
        ).len() <= 1,
    ensures
        ({
            let pp = pointer_path(obj, path.take(last_slash(path)), cs)->0;
            let parent = node_at(obj, pp)->0;
            let key = c_prefix(decode_token(path.skip(last_slash(path) + 1))->0);
            let r = place_spec(obj, path, value, cs);
            &&& r.0 == 0
            &&& node_at(r.1, pp) matches Some(np) && {
                &&& np == with_children(parent, np.child)
                &&& r.1 == replace_at(obj, pp, np)
                &&& np.child.filter(key_match(key, cs)) == seq![keyed(value, key, false)]
                &&& np.child.filter(other_key(key, cs)) == parent.child.filter(other_key(key, cs))
            }
        }),
{
    let k = last_slash(path);
    let d = decode_token(path.skip(k + 1))->0;
    let pp = pointer_path(obj, path.take(k), cs)->0;
    let parent = node_at(obj, pp)->0;
    let key = c_prefix(d);
    let s = parent.child;
    let m = key_match(key, cs);
    let o = other_key(key, cs);
    let nv = keyed(value, key, false);
    assert(64i32 & 255i32 == 64i32 && 32i32 & 255i32 == 32i32) by (bit_vector);
    let stop = |c: JsonValue| crate::tree::member_stop(c, key, cs);
    crate::types::lemma_first_index_bounds(s, stop);
    let p1 = match object_index(parent, key, cs) {
        Some(i) => with_children(parent, parent.child.remove(i)),
        None => parent,
    };
    match object_index(parent, key, cs) {
        Some(i) => {
            lemma_filter_split(s, i, m);
            lemma_filter_split(s, i, o);
            assert(m(s[i]));
            assert(s.take(i).filter(m).len() == 0);
            assert(s.skip(i + 1).filter(m).len() == 0);
            assert(p1.child.filter(m) =~= Seq::<JsonValue>::empty());
            assert(p1.child.filter(o) =~= s.filter(o));
        },
        None => {
            let f = crate::types::first_index(s, stop);
            if f < s.len() {
                assert(s[f].string is Some);
                assert(false);
            }
            assert forall|j: int| 0 <= j < s.len() implies !m(#[trigger] s[j]) by {
                assert(!stop(s[j]));
            }
            lemma_filter_none_match(s, m);
        },
    }
    let np = appended(p1, nv);
    assert(m(nv)) by {
        if !cs {
            assert(crate::keys::key_eq(key, key, false));
        }
    }
    lemma_filter_push(p1.child, nv, m);
    lemma_filter_push(p1.child, nv, o);
    assert(np.child.filter(m) =~= seq![nv]);
    assert(np.child.filter(o) =~= s.filter(o));
    assert(place_spec(obj, path, value, cs) == (0int, replace_at(obj, pp, np)));
    crate::pointer::lemma_replace_twice(obj, pp, np, np);
}

} // verus!
