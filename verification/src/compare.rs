use vstd::prelude::*;
use crate::types::{
    cJSON, JsonValue, type_tag, height, lemma_child_height, lemma_child_views, first_index,
    lemma_first_index_bounds, cJSON_False, cJSON_True, cJSON_NULL, cJSON_Number, cJSON_String,
    cJSON_Array, cJSON_Object, cJSON_Raw, TYPE_MASK,
};
use crate::tree::{object_index, member_stop, get_object_index};
use crate::keys::keys_equal;

verus! {

/// The relation on double bit patterns that a number comparison `f` decides.
pub open spec fn num_eq_spec<F: Fn(u64, u64) -> bool>(f: F) -> spec_fn(u64, u64) -> bool {
    |a: u64, b: u64| call_ensures(f, (a, b), true)
}

/// `f` may be called on any two bit patterns and gives one answer for them.
pub open spec fn is_number_equality<F: Fn(u64, u64) -> bool>(f: F) -> bool {
    &&& forall|a: u64, b: u64| call_requires(f, (a, b))
    &&& forall|a: u64, b: u64| call_ensures(f, (a, b), false) ==> !call_ensures(f, (a, b), true)
}

/// One of the eight types.
pub open spec fn known_type(t: i32) -> bool {
    t == 1 || t == 2 || t == 4 || t == 8 || t == 16 || t == 32 || t == 64 || t == 128
}

pub proof fn lemma_object_index_bound(v: JsonValue, name: Seq<u8>, cs: bool)
    ensures
        object_index(v, name, cs) matches Some(j) ==> 0 <= j < v.child.len(),
{
    lemma_first_index_bounds(v.child, |c: JsonValue| member_stop(c, name, cs));
}

/// Whether `a` and `b` are equal as `cJSON_Compare` decides it: the same
/// type; numbers equal under `eq`; the same text; arrays element by element;
/// objects whose every member is found in the other (by key, ASCII case
/// ignored unless `cs`) with an equal value.
pub open spec fn spec_compare(
    a: JsonValue,
    b: JsonValue,
    cs: bool,
    eq: spec_fn(u64, u64) -> bool,
) -> bool
    decreases height(a) + height(b), 1int, 0int,
{
    let t = type_tag(a);
    if t != type_tag(b) || !known_type(t) {
        false
    } else if t == cJSON_False || t == cJSON_True || t == cJSON_NULL {
        true
    } else if t == cJSON_Number {
        eq(a.valuedouble, b.valuedouble)
    } else if t == cJSON_String || t == cJSON_Raw {
        a.valuestring is Some && b.valuestring is Some && a.valuestring == b.valuestring
    } else if t == cJSON_Array {
        a.child.len() == b.child.len() && spec_elems_equal(a, b, 0, cs, eq)
    } else {
        spec_members_in(a, b, 0, cs, eq) && spec_members_in(b, a, 0, cs, eq)
    }
}

/// The elements of `a` and `b` from index `i` on are equal pairwise.
pub open spec fn spec_elems_equal(
    a: JsonValue,
    b: JsonValue,
    i: int,
    cs: bool,
    eq: spec_fn(u64, u64) -> bool,
) -> bool
    decreases height(a) + height(b), 0int, a.child.len() - i,
{
    if i < 0 || i >= a.child.len() || i >= b.child.len() {
        true
    } else {
        proof {
            lemma_child_height(a, i);
            lemma_child_height(b, i);
        }
        spec_compare(a.child[i], b.child[i], cs, eq) && spec_elems_equal(a, b, i + 1, cs, eq)
    }
}

/// Each member of `x` from index `i` on has a key under which `y` holds an
/// equal value.
pub open spec fn spec_members_in(
    x: JsonValue,
    y: JsonValue,
    i: int,
    cs: bool,
    eq: spec_fn(u64, u64) -> bool,
) -> bool
    decreases height(x) + height(y), 0int, x.child.len() - i,
{
    if i < 0 || i >= x.child.len() {
        true
    } else {
        match x.child[i].string {
            None => false,
            Some(k) => match object_index(y, k, cs) {
                None => false,
                Some(j) => {
                    proof {
                        lemma_child_height(x, i);
                        lemma_object_index_bound(y, k, cs);
                        lemma_child_height(y, j);
                    }
                    spec_compare(x.child[i], y.child[j], cs, eq) && spec_members_in(
                        x,
                        y,
                        i + 1,
                        cs,
                        eq,
                    )
                },
            },
        }
    }
}

} // verus!

verus! {

fn compare_items<F: Fn(u64, u64) -> bool>(a: &cJSON, b: &cJSON, cs: bool, num_eq: &F) -> (r: bool)
    requires
        is_number_equality(*num_eq),
    ensures
        r == spec_compare(a@, b@, cs, num_eq_spec(*num_eq)),
    decreases height(a@) + height(b@), 1int, 0int,
{
    let t = a.type_ & TYPE_MASK;
    if t != (b.type_ & TYPE_MASK) {
        return false;
    }
    if !(t == 1 || t == 2 || t == 4 || t == 8 || t == 16 || t == 32 || t == 64 || t == 128) {
        return false;
    }
    if t == cJSON_False || t == cJSON_True || t == cJSON_NULL {
        return true;
    }
    if t == cJSON_Number {
        let r = num_eq(a.valuedouble, b.valuedouble);
        return r;
    }
    if t == cJSON_String || t == cJSON_Raw {
        return match (&a.valuestring, &b.valuestring) {
            (Some(x), Some(y)) => keys_equal(x.as_slice(), y.as_slice(), true),
            _ => false,
        };
    }
    proof {
        lemma_child_views(a);
        lemma_child_views(b);
    }
    if t == cJSON_Array {
        if a.child.len() != b.child.len() {
            return false;
        }
        let n = a.child.len();
        let mut i: usize = 0;
        while i < n
            invariant
                n == a.child@.len(),
                n == b.child@.len(),
                n == a@.child.len(),
                n == b@.child.len(),
                i <= n,
                is_number_equality(*num_eq),
                spec_compare(a@, b@, cs, num_eq_spec(*num_eq)) == spec_elems_equal(
                    a@,
                    b@,
                    0,
                    cs,
                    num_eq_spec(*num_eq),
                ),
                spec_elems_equal(a@, b@, 0, cs, num_eq_spec(*num_eq)) == spec_elems_equal(
                    a@,
                    b@,
                    i as int,
                    cs,
                    num_eq_spec(*num_eq),
                ),
            decreases n - i,
        {
            proof {
                lemma_child_height(a@, i as int);
                lemma_child_height(b@, i as int);
            }
            assert(a.child@[i as int]@ == a@.child[i as int]);
            assert(b.child@[i as int]@ == b@.child[i as int]);
            if !compare_items(&a.child[i], &b.child[i], cs, num_eq) {
                return false;
            }
            i = i + 1;
        }
        return true;
    }
    if !members_in(a, b, cs, num_eq) {
        return false;
    }
    members_in(b, a, cs, num_eq)
}

fn members_in<F: Fn(u64, u64) -> bool>(x: &cJSON, y: &cJSON, cs: bool, num_eq: &F) -> (r: bool)
    requires
        is_number_equality(*num_eq),
    ensures
        r == spec_members_in(x@, y@, 0, cs, num_eq_spec(*num_eq)),
    decreases height(x@) + height(y@), 0int, x@.child.len() + 1,
{
    proof {
        lemma_child_views(x);
        lemma_child_views(y);
    }
    let n = x.child.len();
    let mut i: usize = 0;
    while i < n
        invariant
            n == x.child@.len(),
            n == x@.child.len(),
            y@.child.len() == y.child@.len(),
            i <= n,
            is_number_equality(*num_eq),
            spec_members_in(x@, y@, 0, cs, num_eq_spec(*num_eq)) == spec_members_in(
                x@,
                y@,
                i as int,
                cs,
                num_eq_spec(*num_eq),
            ),
        decreases n - i,
    {
        let c = &x.child[i];
        assert(c@ == x@.child[i as int]);
        let key = match &c.string {
            None => {
                return false;
            },
            Some(k) => k,
        };
        match get_object_index(y, key.as_slice(), cs) {
            None => {
                return false;
            },
            Some(j) => {
                proof {
                    lemma_child_height(x@, i as int);
                    lemma_object_index_bound(y@, key@, cs);
                    lemma_child_height(y@, j as int);
                }
                assert(y.child@[j as int]@ == y@.child[j as int]);
                if !compare_items(c, &y.child[j], cs, num_eq) {
                    return false;
                }
            },
        }
        i = i + 1;
    }
    true
}

/// Whether `a` and `b` are the same node: `std::ptr::eq` on the two
/// references. The contract claims only what one address implies: the two
/// values are then equal. Which references share an address is left open.
#[verifier::external_body]
fn same_node(a: &cJSON, b: &cJSON) -> (r: bool)
    ensures
        r ==> *a == *b,
{
    std::ptr::eq(a, b)
}

/// Whether `a` and `b` are equal (see `spec_compare`); `num_eq` decides
/// whether two doubles, given by their bit patterns, are equal. A node of
/// one of the eight types is also equal to itself when `a` and `b` are the
/// same node, whatever it holds (a NaN, a string without its text); as
/// which references are the same node is not part of the values, the
/// contract says that the result is the comparison, or true where the two
/// values are one and the same value of a known type.
pub fn cJSON_Compare<F: Fn(u64, u64) -> bool>(a: &cJSON, b: &cJSON, case_sensitive: bool, num_eq: &F) -> (r: bool)
    requires
        is_number_equality(*num_eq),
    ensures
        spec_compare(a@, b@, case_sensitive, num_eq_spec(*num_eq)) ==> r,
        r ==> spec_compare(a@, b@, case_sensitive, num_eq_spec(*num_eq)) || (a@ == b@
            && known_type(type_tag(a@))),
        a@ != b@ ==> r == spec_compare(a@, b@, case_sensitive, num_eq_spec(*num_eq)),
{
    proof {
        crate::types::lemma_view_fields(*a);
        crate::types::lemma_view_fields(*b);
    }
    let t = a.type_ & TYPE_MASK;
    if (t == 1 || t == 2 || t == 4 || t == 8 || t == 16 || t == 32 || t == 64 || t == 128)
        && same_node(a, b) {
        return true;
    }
    compare_items(a, b, case_sensitive, num_eq)
}

} // verus!

verus! {

/// `cJSON_Compare` is symmetric when the comparison of numbers is.
pub proof fn lemma_compare_symmetric(a: JsonValue, b: JsonValue, cs: bool, eq: spec_fn(u64, u64) -> bool)
    requires
        forall|x: u64, y: u64| #[trigger] eq(x, y) == eq(y, x),
    ensures
        spec_compare(a, b, cs, eq) == spec_compare(b, a, cs, eq),
    decreases height(a) + height(b), 1int,
{
    let t = type_tag(a);
    if t == type_tag(b) && known_type(t) && t == cJSON_Array {
        lemma_elems_symmetric(a, b, 0, cs, eq);
    }
}

proof fn lemma_elems_symmetric(a: JsonValue, b: JsonValue, i: int, cs: bool, eq: spec_fn(u64, u64) -> bool)
    requires
        forall|x: u64, y: u64| #[trigger] eq(x, y) == eq(y, x),
    ensures
        spec_elems_equal(a, b, i, cs, eq) == spec_elems_equal(b, a, i, cs, eq),
    decreases height(a) + height(b), 0int, a.child.len() - i,
{
    if 0 <= i < a.child.len() && i < b.child.len() {
        lemma_child_height(a, i);
        lemma_child_height(b, i);
        lemma_compare_symmetric(a.child[i], b.child[i], cs, eq);
        lemma_elems_symmetric(a, b, i + 1, cs, eq);
    }
}

} // verus!

verus! {

/// A value that compares equal to a copy of itself: every type one of the
/// eight, every string present, every member of an object keyed and the
/// first member with its key.
pub open spec fn comparable(v: JsonValue, cs: bool) -> bool
    decreases v,
{
    &&& known_type(type_tag(v))
    &&& ((type_tag(v) == cJSON_String || type_tag(v) == cJSON_Raw) ==> v.valuestring is Some)
    &&& (type_tag(v) == cJSON_Object ==> forall|i: int|
        0 <= i < v.child.len() ==> ((#[trigger] v.child[i]).string matches Some(k) && object_index(
            v,
            k,
            cs,
        ) == Some(i)))
    &&& forall|i: int| 0 <= i < v.child.len() ==> comparable(#[trigger] v.child[i], cs)
}

pub(crate) proof fn lemma_object_index_same_keys(a: JsonValue, b: JsonValue, k: Seq<u8>, cs: bool)
    requires
        a.child.len() == b.child.len(),
        forall|j: int| 0 <= j < a.child.len() ==> (#[trigger] a.child[j]).string == b.child[j].string,
    ensures
        object_index(a, k, cs) == object_index(b, k, cs),
{
    let p = |c: JsonValue| member_stop(c, k, cs);
    lemma_first_index_bounds(a.child, p);
    let i = first_index(a.child, p);
    assert forall|j: int| 0 <= j < i implies !p(#[trigger] b.child[j]) by {
        assert(a.child[j].string == b.child[j].string);
        assert(!p(a.child[j]));
    }
    if i < a.child.len() {
        assert(a.child[i].string == b.child[i].string);
    }
    crate::types::lemma_first_index(b.child, p, i);
}

proof fn lemma_dup_type(t: i32)
    ensures
        (t & !256i32) & 255i32 == t & 255i32,
{
    assert((t & !256i32) & 255i32 == t & 255i32) by (bit_vector);
}

/// The number comparison finds each number of `v` equal to itself (as it
/// does of every number but NaN).
pub open spec fn numbers_self_equal(v: JsonValue, eq: spec_fn(u64, u64) -> bool) -> bool
    decreases v,
{
    &&& (type_tag(v) == cJSON_Number ==> eq(v.valuedouble, v.valuedouble))
    &&& forall|i: int| 0 <= i < v.child.len() ==> numbers_self_equal(#[trigger] v.child[i], eq)
}

/// A copy that `cJSON_Duplicate` makes compares equal to the value, both
/// ways, where the value compares equal to a copy at all and the number
/// comparison finds each of its numbers equal to itself.
pub proof fn lemma_duplicate_compares_equal(
    v: JsonValue,
    cs: bool,
    eq: spec_fn(u64, u64) -> bool,
)
    requires
        comparable(v, cs),
        numbers_self_equal(v, eq),
    ensures
        spec_compare(crate::tree::dup(v, true), v, cs, eq),
        spec_compare(v, crate::tree::dup(v, true), cs, eq),
    decreases height(v), 1int,
{
    let d = crate::tree::dup(v, true);
    lemma_dup_type(v.type_);
    let t = type_tag(v);
    if t == cJSON_Number {
        assert(eq(v.valuedouble, v.valuedouble));
    } else if t == cJSON_Array {
        lemma_dup_elems(v, 0, cs, eq);
    } else if t == cJSON_Object {
        lemma_dup_members(v, 0, cs, eq);
    }
}

proof fn lemma_dup_elems(v: JsonValue, i: int, cs: bool, eq: spec_fn(u64, u64) -> bool)
    requires
        comparable(v, cs),
        numbers_self_equal(v, eq),
        0 <= i,
    ensures
        spec_elems_equal(crate::tree::dup(v, true), v, i, cs, eq),
        spec_elems_equal(v, crate::tree::dup(v, true), i, cs, eq),
    decreases height(v), 0int, v.child.len() - i,
{
    let d = crate::tree::dup(v, true);
    if i < v.child.len() {
        lemma_child_height(v, i);
        assert(comparable(v.child[i], cs));
        assert(numbers_self_equal(v.child[i], eq));
        lemma_duplicate_compares_equal(v.child[i], cs, eq);
        assert(d.child[i] == crate::tree::dup(v.child[i], true));
        lemma_dup_elems(v, i + 1, cs, eq);
    }
}

proof fn lemma_dup_members(v: JsonValue, i: int, cs: bool, eq: spec_fn(u64, u64) -> bool)
    requires
        comparable(v, cs),
        type_tag(v) == cJSON_Object,
        numbers_self_equal(v, eq),
        0 <= i,
    ensures
        spec_members_in(crate::tree::dup(v, true), v, i, cs, eq),
        spec_members_in(v, crate::tree::dup(v, true), i, cs, eq),
    decreases height(v), 0int, v.child.len() - i,
{
    let d = crate::tree::dup(v, true);
    if i < v.child.len() {
        lemma_child_height(v, i);
        assert(comparable(v.child[i], cs));
        let k = v.child[i].string->0;
        assert(v.child[i].string == Some(k) && object_index(v, k, cs) == Some(i));
        assert(d.child[i] == crate::tree::dup(v.child[i], true));
        assert forall|j: int| 0 <= j < v.child.len() implies (#[trigger] v.child[j]).string
            == d.child[j].string by {
            assert(d.child[j] == crate::tree::dup(v.child[j], true));
        }
        lemma_object_index_same_keys(v, d, k, cs);
        assert(numbers_self_equal(v.child[i], eq));
        lemma_duplicate_compares_equal(v.child[i], cs, eq);
        lemma_dup_members(v, i + 1, cs, eq);
    }
}

} // verus!

verus! {

proof fn lemma_elems_equal_all(a: JsonValue, b: JsonValue, i: int, cs: bool, eq: spec_fn(u64, u64) -> bool)
    requires
        0 <= i <= a.child.len(),
        a.child.len() == b.child.len(),
    ensures
        spec_elems_equal(a, b, i, cs, eq) == (forall|j: int|
            i <= j < a.child.len() ==> spec_compare(#[trigger] a.child[j], b.child[j], cs, eq)),
    decreases a.child.len() - i,
{
    if i < a.child.len() {
        lemma_elems_equal_all(a, b, i + 1, cs, eq);
    }
}

/// The member of `x` at `m` has a key under which `y` holds a member that
/// compares equal to it.
pub open spec fn member_found(x: JsonValue, y: JsonValue, m: int, cs: bool, eq: spec_fn(u64, u64) -> bool) -> bool {
    match x.child[m].string {
        Some(k) => match object_index(y, k, cs) {
            Some(j) => spec_compare(x.child[m], y.child[j], cs, eq),
            None => false,
        },
        None => false,
    }
}

proof fn lemma_members_in_all(x: JsonValue, y: JsonValue, i: int, cs: bool, eq: spec_fn(u64, u64) -> bool)
    requires
        0 <= i <= x.child.len(),
    ensures
        spec_members_in(x, y, i, cs, eq) == (forall|m: int|
            i <= m < x.child.len() ==> #[trigger] member_found(x, y, m, cs, eq)),
    decreases x.child.len() - i,
{
    if i < x.child.len() {
        lemma_members_in_all(x, y, i + 1, cs, eq);
        lemma_object_index_bound(y, x.child[i].string->0, cs);
        assert(spec_members_in(x, y, i, cs, eq) == (member_found(x, y, i, cs, eq)
            && spec_members_in(x, y, i + 1, cs, eq)));
        if spec_members_in(x, y, i + 1, cs, eq) && member_found(x, y, i, cs, eq) {
            assert forall|m: int| i <= m < x.child.len() implies #[trigger] member_found(
                x,
                y,
                m,
                cs,
                eq,
            ) by {}
        }
    }
}

/// Two values compare equal only when they have one of the eight types and
/// the same one; an array compares equal exactly to an array with as many
/// elements, each equal to the element at its place; null and the booleans
/// equal a value of the same type, numbers by the number comparison,
/// strings and raw texts by their present texts, objects when each member
/// of either is found by its key in the other with an equal value.
pub proof fn lemma_compare_shape(a: JsonValue, b: JsonValue, cs: bool, eq: spec_fn(u64, u64) -> bool)
    ensures
        spec_compare(a, b, cs, eq) ==> type_tag(a) == type_tag(b) && known_type(type_tag(a)),
        type_tag(a) == cJSON_Array ==> (spec_compare(a, b, cs, eq) == (type_tag(b) == cJSON_Array
            && a.child.len() == b.child.len() && forall|j: int|
            0 <= j < a.child.len() ==> spec_compare(#[trigger] a.child[j], b.child[j], cs, eq))),
        type_tag(a) == cJSON_NULL || type_tag(a) == cJSON_False || type_tag(a) == cJSON_True
            ==> spec_compare(a, b, cs, eq) == (type_tag(b) == type_tag(a)),
        type_tag(a) == cJSON_Number ==> spec_compare(a, b, cs, eq) == (type_tag(b) == cJSON_Number
            && eq(a.valuedouble, b.valuedouble)),
        type_tag(a) == cJSON_String || type_tag(a) == cJSON_Raw ==> spec_compare(a, b, cs, eq) == (
        type_tag(b) == type_tag(a) && a.valuestring is Some && a.valuestring == b.valuestring),
        type_tag(a) == cJSON_Object ==> spec_compare(a, b, cs, eq) == (type_tag(b) == cJSON_Object
            && (forall|i: int|
            0 <= i < a.child.len() ==> #[trigger] member_found(a, b, i, cs, eq)) && (forall|i: int|
            0 <= i < b.child.len() ==> #[trigger] member_found(b, a, i, cs, eq))),
{
    if type_tag(a) == cJSON_Object && type_tag(b) == cJSON_Object {
        lemma_members_in_all(a, b, 0, cs, eq);
        lemma_members_in_all(b, a, 0, cs, eq);
    }
    if type_tag(a) == cJSON_Array && a.child.len() == b.child.len() {
        lemma_elems_equal_all(a, b, 0, cs, eq);
    }
}

} // verus!
