use vstd::prelude::*;

verus! {

/// Type tags of a node, as in the public header.
pub const cJSON_Invalid: i32 = 0;

pub const cJSON_False: i32 = 1;

pub const cJSON_True: i32 = 2;

pub const cJSON_NULL: i32 = 4;

pub const cJSON_Number: i32 = 8;

pub const cJSON_String: i32 = 16;

pub const cJSON_Array: i32 = 32;

pub const cJSON_Object: i32 = 64;

pub const cJSON_Raw: i32 = 128;

/// Flag: the node does not own its value string and children.
pub const cJSON_IsReference: i32 = 256;

/// Flag: the node's key is a constant that the node does not own.
pub const cJSON_StringIsConst: i32 = 512;

/// The bits of `type_` that hold the type tag.
pub const TYPE_MASK: i32 = 255;

/// The bit pattern of the IEEE-754 double NaN that stands for "not a number".
pub const NAN_BITS: u64 = 0x7ff8000000000000;

/// The mathematical model of a node: its flags, its payload and its children.
#[verifier::ext_equal]
pub struct JsonValue {
    pub type_: i32,
    pub valuestring: Option<Seq<u8>>,
    pub valueint: i32,
    pub valuedouble: u64,
    pub string: Option<Seq<u8>>,
    pub child: Seq<JsonValue>,
}

/// A JSON node. The children of an array or object are held in order in
/// `child`; `string` is the node's key when it is a member of an object.
/// `valuedouble` holds the bit pattern of the IEEE-754 double value.
pub struct cJSON {
    pub child: Vec<cJSON>,
    pub type_: i32,
    pub valuestring: Option<Vec<u8>>,
    pub valueint: i32,
    pub valuedouble: u64,
    pub string: Option<Vec<u8>>,
}

pub open spec fn opt_bytes(o: Option<Vec<u8>>) -> Option<Seq<u8>> {
    match o {
        Some(v) => Some(v@),
        None => None,
    }
}

pub open spec fn json_view(n: cJSON) -> JsonValue
    decreases n,
{
    JsonValue {
        type_: n.type_,
        valuestring: opt_bytes(n.valuestring),
        valueint: n.valueint,
        valuedouble: n.valuedouble,
        string: opt_bytes(n.string),
        child: Seq::new(
            n.child@.len(),
            |i: int|
                if 0 <= i < n.child@.len() {
                    json_view(n.child@[i])
                } else {
                    arbitrary()
                },
        ),
    }
}

impl View for cJSON {
    type V = JsonValue;

    open spec fn view(&self) -> JsonValue {
        json_view(*self)
    }
}

/// The view of a sequence of nodes.
pub open spec fn views(s: Seq<cJSON>) -> Seq<JsonValue> {
    Seq::new(s.len(), |i: int| s[i]@)
}

pub proof fn lemma_child_views(n: &cJSON)
    ensures
        n@.child == views(n.child@),
        n@.child.len() == n.child@.len(),
{
    assert(n@.child =~= views(n.child@));
}

pub proof fn lemma_view_fields(n: cJSON)
    ensures
        n@ == (JsonValue {
            type_: n.type_,
            valuestring: opt_bytes(n.valuestring),
            valueint: n.valueint,
            valuedouble: n.valuedouble,
            string: opt_bytes(n.string),
            child: views(n.child@),
        }),
{
    lemma_child_views(&n);
}

/// The type tag of a node.
pub open spec fn type_tag(v: JsonValue) -> i32 {
    v.type_ & 255
}

/// A node with the same flags and payload and other children.
pub open spec fn with_children(v: JsonValue, c: Seq<JsonValue>) -> JsonValue {
    JsonValue { child: c, ..v }
}

/// A fresh node of the given type.
pub open spec fn fresh(t: i32) -> JsonValue {
    JsonValue {
        type_: t,
        valuestring: None,
        valueint: 0,
        valuedouble: 0,
        string: None,
        child: Seq::empty(),
    }
}

/// A fresh exec node of the given type.
pub fn new_typed_item(item_type: i32) -> (r: cJSON)
    ensures
        r@ == fresh(item_type),
{
    let r = cJSON {
        child: Vec::new(),
        type_: item_type,
        valuestring: None,
        valueint: 0,
        valuedouble: 0,
        string: None,
    };
    assert(r@.child =~= Seq::<JsonValue>::empty());
    r
}

/// A copy of a byte string.
pub fn copy_bytes(s: &[u8]) -> (r: Vec<u8>)
    ensures
        r@ == s@,
{
    let mut r: Vec<u8> = Vec::with_capacity(s.len());
    let mut i: usize = 0;
    while i < s.len()
        invariant
            i <= s.len(),
            r@ == s@.take(i as int),
        decreases s.len() - i,
    {
        r.push(s[i]);
        i = i + 1;
        assert(r@ =~= s@.take(i as int));
    }
    assert(s@.take(s.len() as int) =~= s@);
    r
}

/// A copy of an optional byte string.
pub fn copy_opt_bytes(s: &Option<Vec<u8>>) -> (r: Option<Vec<u8>>)
    ensures
        opt_bytes(r) == opt_bytes(*s),
{
    match s {
        Some(v) => Some(copy_bytes(v.as_slice())),
        None => None,
    }
}

/// Turns `value` into the integer truth value (1 or 0) of the API.
pub fn bool_to_cjson(value: bool) -> (r: i32)
    ensures
        r == (if value { 1i32 } else { 0i32 }),
{
    if value {
        1
    } else {
        0
    }
}

} // verus!

verus! {

/// The index of the first element of `s` that satisfies `p`, or the length
/// of `s` when there is none.
pub open spec fn first_index<A>(s: Seq<A>, p: spec_fn(A) -> bool) -> int
    decreases s.len(),
{
    if s.len() == 0 {
        0
    } else if p(s[0]) {
        0
    } else {
        1 + first_index(s.drop_first(), p)
    }
}

pub proof fn lemma_first_index<A>(s: Seq<A>, p: spec_fn(A) -> bool, i: int)
    requires
        0 <= i <= s.len(),
        forall|j: int| 0 <= j < i ==> !p(#[trigger] s[j]),
        i == s.len() || p(s[i]),
    ensures
        first_index(s, p) == i,
    decreases i,
{
    if i > 0 {
        let t = s.drop_first();
        assert forall|j: int| 0 <= j < i - 1 implies !p(#[trigger] t[j]) by {
            assert(t[j] == s[j + 1]);
        }
        if i - 1 < t.len() {
            assert(t[i - 1] == s[i]);
        }
        lemma_first_index(t, p, i - 1);
    }
}

pub proof fn lemma_first_index_bounds<A>(s: Seq<A>, p: spec_fn(A) -> bool)
    ensures
        0 <= first_index(s, p) <= s.len(),
        forall|j: int| 0 <= j < first_index(s, p) ==> !p(#[trigger] s[j]),
        first_index(s, p) < s.len() ==> p(s[first_index(s, p)]),
    decreases s.len(),
{
    if s.len() > 0 && !p(s[0]) {
        let t = s.drop_first();
        lemma_first_index_bounds(t, p);
        assert forall|j: int| 0 <= j < first_index(s, p) implies !p(#[trigger] s[j]) by {
            if j > 0 {
                assert(s[j] == t[j - 1]);
            }
        }
        if first_index(s, p) < s.len() {
            assert(s[first_index(s, p)] == t[first_index(t, p)]);
        }
    }
}

} // verus!

verus! {

/// The height of a node: 1 for a node without children.
pub open spec fn height(v: JsonValue) -> nat
    decreases v,
{
    1 + max_height(v.child)
}

pub open spec fn max_height(s: Seq<JsonValue>) -> nat
    decreases s,
{
    if s.len() == 0 {
        0
    } else {
        let h = height(s[0]);
        let r = max_height(s.drop_first());
        if h > r {
            h
        } else {
            r
        }
    }
}

pub proof fn lemma_max_height(s: Seq<JsonValue>, i: int)
    requires
        0 <= i < s.len(),
    ensures
        height(s[i]) <= max_height(s),
    decreases i,
{
    if i > 0 {
        lemma_max_height(s.drop_first(), i - 1);
        assert(s.drop_first()[i - 1] == s[i]);
    }
}

pub proof fn lemma_child_height(v: JsonValue, i: int)
    requires
        0 <= i < v.child.len(),
    ensures
        height(v.child[i]) < height(v),
{
    lemma_max_height(v.child, i);
}

} // verus!
