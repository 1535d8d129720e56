use vstd::prelude::*;
use crate::types::{
    cJSON, JsonValue, views, lemma_child_views, lemma_view_fields, type_tag, with_children, fresh,
    first_index, lemma_first_index, new_typed_item, copy_bytes, copy_opt_bytes, cJSON_Invalid,
    cJSON_False, cJSON_True, cJSON_NULL, cJSON_Number, cJSON_String, cJSON_Array, cJSON_Object,
    cJSON_Raw, cJSON_IsReference, cJSON_StringIsConst, TYPE_MASK, NAN_BITS,
};
use crate::keys::{key_eq, keys_equal};

verus! {

// ---------------------------------------------------------------------
// Models
// ---------------------------------------------------------------------

pub open spec fn opt_idx(o: Option<usize>) -> Option<int> {
    match o {
        Some(i) => Some(i as int),
        None => None,
    }
}

/// Whether the search for member `name` stops at `c`: the case-sensitive
/// search stops at a matching key and at the first member without a key, the
/// other one only at a key equal to `name` without regard to ASCII case.
pub open spec fn member_stop(c: JsonValue, name: Seq<u8>, case_sensitive: bool) -> bool {
    if case_sensitive {
        c.string is None || c.string == Some(name)
    } else {
        c.string matches Some(k) && key_eq(k, name, false)
    }
}

/// The index of the member that a lookup of `name` in `v` finds.
pub open spec fn object_index(v: JsonValue, name: Seq<u8>, case_sensitive: bool) -> Option<int> {
    let i = first_index(v.child, |c: JsonValue| member_stop(c, name, case_sensitive));
    if i < v.child.len() && v.child[i].string is Some {
        Some(i)
    } else {
        None
    }
}

/// `v` as a member under `key`; a constant key sets the constant-key flag,
/// another one clears it.
pub open spec fn keyed(v: JsonValue, key: Seq<u8>, constant: bool) -> JsonValue {
    JsonValue {
        string: Some(key),
        type_: if constant {
            v.type_ | 512i32
        } else {
            v.type_ & !512i32
        },
        ..v
    }
}

/// A reference to `v`: same payload and children, no key, reference flag set.
pub open spec fn reference_of(v: JsonValue) -> JsonValue {
    JsonValue { string: None, type_: v.type_ | 256i32, ..v }
}

/// The copy that `cJSON_Duplicate` makes: the reference flag cleared at every
/// level, the children copied only when `recurse`.
pub open spec fn dup(v: JsonValue, recurse: bool) -> JsonValue
    decreases v,
{
    JsonValue {
        type_: v.type_ & !256i32,
        child: if recurse {
            Seq::new(
                v.child.len(),
                |i: int|
                    if 0 <= i < v.child.len() {
                        dup(v.child[i], true)
                    } else {
                        arbitrary()
                    },
            )
        } else {
            Seq::empty()
        },
        ..v
    }
}

pub open spec fn number_node(bits: u64, valueint: i32) -> JsonValue {
    JsonValue { valuedouble: bits, valueint: valueint, ..fresh(cJSON_Number) }
}

pub open spec fn string_node(t: i32, s: Seq<u8>) -> JsonValue {
    JsonValue { valuestring: Some(s), ..fresh(t) }
}

pub open spec fn appended(v: JsonValue, item: JsonValue) -> JsonValue {
    with_children(v, v.child.push(item))
}

// ---------------------------------------------------------------------
// Type checks
// ---------------------------------------------------------------------

pub fn cJSON_IsInvalid(item: &cJSON) -> (r: bool)
    ensures
        r == (type_tag(item@) == cJSON_Invalid),
{
    (item.type_ & TYPE_MASK) == cJSON_Invalid
}

pub fn cJSON_IsFalse(item: &cJSON) -> (r: bool)
    ensures
        r == (type_tag(item@) == cJSON_False),
{
    (item.type_ & TYPE_MASK) == cJSON_False
}

pub fn cJSON_IsTrue(item: &cJSON) -> (r: bool)
    ensures
        r == (type_tag(item@) == cJSON_True),
{
    (item.type_ & TYPE_MASK) == cJSON_True
}

/// True when either boolean bit is set.
pub fn cJSON_IsBool(item: &cJSON) -> (r: bool)
    ensures
        r == ((item@.type_ & 3i32) != 0),
{
    (item.type_ & 3i32) != 0
}

pub fn cJSON_IsNull(item: &cJSON) -> (r: bool)
    ensures
        r == (type_tag(item@) == cJSON_NULL),
{
    (item.type_ & TYPE_MASK) == cJSON_NULL
}

pub fn cJSON_IsNumber(item: &cJSON) -> (r: bool)
    ensures
        r == (type_tag(item@) == cJSON_Number),
{
    (item.type_ & TYPE_MASK) == cJSON_Number
}

pub fn cJSON_IsString(item: &cJSON) -> (r: bool)
    ensures
        r == (type_tag(item@) == cJSON_String),
{
    (item.type_ & TYPE_MASK) == cJSON_String
}

pub fn cJSON_IsArray(item: &cJSON) -> (r: bool)
    ensures
        r == (type_tag(item@) == cJSON_Array),
{
    (item.type_ & TYPE_MASK) == cJSON_Array
}

pub fn cJSON_IsObject(item: &cJSON) -> (r: bool)
    ensures
        r == (type_tag(item@) == cJSON_Object),
{
    (item.type_ & TYPE_MASK) == cJSON_Object
}

pub fn cJSON_IsRaw(item: &cJSON) -> (r: bool)
    ensures
        r == (type_tag(item@) == cJSON_Raw),
{
    (item.type_ & TYPE_MASK) == cJSON_Raw
}

/// The version of the library as text.
pub fn cJSON_Version() -> (r: Vec<u8>)
    ensures
        r@ == seq![49u8, 46u8, 55u8, 46u8, 49u8, 55u8],
{
    let mut r: Vec<u8> = Vec::new();
    r.push(49u8);
    r.push(46u8);
    r.push(55u8);
    r.push(46u8);
    r.push(49u8);
    r.push(55u8);
    r
}

/// The value string of a string node.
pub fn cJSON_GetStringValue(item: &cJSON) -> (r: Option<&Vec<u8>>)
    ensures
        type_tag(item@) == cJSON_String ==> match r {
            Some(s) => item@.valuestring == Some(s@),
            None => item@.valuestring is None,
        },
        type_tag(item@) != cJSON_String ==> r is None,
{
    if cJSON_IsString(item) {
        match &item.valuestring {
            Some(s) => Some(s),
            None => None,
        }
    } else {
        None
    }
}

/// The bit pattern of the double value of a number node, NaN for another node.
pub fn cJSON_GetNumberValue(item: &cJSON) -> (r: u64)
    ensures
        r == (if type_tag(item@) == cJSON_Number {
            item@.valuedouble
        } else {
            NAN_BITS
        }),
{
    if cJSON_IsNumber(item) {
        item.valuedouble
    } else {
        NAN_BITS
    }
}

// ---------------------------------------------------------------------
// Lookup
// ---------------------------------------------------------------------

/// The number of children.
pub fn cJSON_GetArraySize(array: &cJSON) -> (r: i32)
    requires
        array@.child.len() <= i32::MAX,
    ensures
        r == array@.child.len(),
{
    proof {
        lemma_child_views(array);
    }
    array.child.len() as i32
}

/// The child at `index`, if there is one.
pub fn cJSON_GetArrayItem(array: &cJSON, index: i32) -> (r: Option<&cJSON>)
    ensures
        match r {
            Some(c) => 0 <= index < array@.child.len() && c@ == array@.child[index as int],
            None => index < 0 || index >= array@.child.len(),
        },
{
    proof {
        lemma_child_views(array);
    }
    if index < 0 {
        return None;
    }
    let i = index as usize;
    if i < array.child.len() {
        Some(&array.child[i])
    } else {
        None
    }
}

/// The index of the member of `object` that a lookup of `name` finds.
pub fn get_object_index(object: &cJSON, name: &[u8], case_sensitive: bool) -> (r: Option<usize>)
    ensures
        opt_idx(r) == object_index(object@, name@, case_sensitive),
{
    proof {
        lemma_child_views(object);
    }
    let ghost p = |c: JsonValue| member_stop(c, name@, case_sensitive);
    let mut i: usize = 0;
    while i < object.child.len()
        invariant
            i <= object.child@.len(),
            object@.child.len() == object.child@.len(),
            object@.child == views(object.child@),
            p == (|c: JsonValue| member_stop(c, name@, case_sensitive)),
            forall|j: int| 0 <= j < i ==> !p(#[trigger] object@.child[j]),
        decreases object.child.len() - i,
    {
        let c = &object.child[i];
        assert(object@.child[i as int] == c@);
        let stop = match &c.string {
            None => case_sensitive,
            Some(k) => keys_equal(k.as_slice(), name, case_sensitive),
        };
        if stop {
            proof {
                assert(p(object@.child[i as int]));
                lemma_first_index(object@.child, p, i as int);
            }
            if c.string.is_some() {
                return Some(i);
            } else {
                return None;
            }
        }
        i = i + 1;
    }
    proof {
        lemma_first_index(object@.child, p, i as int);
    }
    None
}

/// The member of `object` that a lookup of `name` finds (see `object_index`).
pub fn get_object_item<'a>(object: &'a cJSON, name: &[u8], case_sensitive: bool) -> (r: Option<
    &'a cJSON,
>)
    ensures
        match object_index(object@, name@, case_sensitive) {
            Some(i) => r matches Some(c) && c@ == object@.child[i],
            None => r is None,
        },
{
    proof {
        lemma_child_views(object);
    }
    match get_object_index(object, name, case_sensitive) {
        Some(i) => Some(&object.child[i]),
        None => None,
    }
}

/// The member of `object` whose key equals `string` without regard to case.
pub fn cJSON_GetObjectItem<'a>(object: &'a cJSON, string: &[u8]) -> (r: Option<&'a cJSON>)
    ensures
        match object_index(object@, string@, false) {
            Some(i) => r matches Some(c) && c@ == object@.child[i],
            None => r is None,
        },
{
    get_object_item(object, string, false)
}

/// The member of `object` whose key equals `string`.
pub fn cJSON_GetObjectItemCaseSensitive<'a>(object: &'a cJSON, string: &[u8]) -> (r: Option<
    &'a cJSON,
>)
    ensures
        match object_index(object@, string@, true) {
            Some(i) => r matches Some(c) && c@ == object@.child[i],
            None => r is None,
        },
{
    get_object_item(object, string, true)
}

pub fn cJSON_HasObjectItem(object: &cJSON, string: &[u8]) -> (r: bool)
    ensures
        r == object_index(object@, string@, false) is Some,
{
    get_object_index(object, string, false).is_some()
}

} // verus!

verus! {

// ---------------------------------------------------------------------
// Creation
// ---------------------------------------------------------------------

pub fn cJSON_CreateNull() -> (r: cJSON)
    ensures
        r@ == fresh(cJSON_NULL),
{
    new_typed_item(cJSON_NULL)
}

pub fn cJSON_CreateTrue() -> (r: cJSON)
    ensures
        r@ == fresh(cJSON_True),
{
    new_typed_item(cJSON_True)
}

pub fn cJSON_CreateFalse() -> (r: cJSON)
    ensures
        r@ == fresh(cJSON_False),
{
    new_typed_item(cJSON_False)
}

/// A `false` node for 0, a `true` node otherwise.
pub fn cJSON_CreateBool(boolean: i32) -> (r: cJSON)
    ensures
        r@ == fresh(if boolean == 0 { cJSON_False } else { cJSON_True }),
{
    if boolean == 0 {
        cJSON_CreateFalse()
    } else {
        cJSON_CreateTrue()
    }
}

/// A number node holding the double with bit pattern `bits` and its integer
/// value `valueint` (the double saturated to the `i32` range).
pub fn cJSON_CreateNumber(bits: u64, valueint: i32) -> (r: cJSON)
    ensures
        r@ == number_node(bits, valueint),
{
    let mut item = new_typed_item(cJSON_Number);
    item.valuedouble = bits;
    item.valueint = valueint;
    proof {
        lemma_view_fields(item);
    }
    item
}

fn create_string_item(string: &[u8], item_type: i32) -> (r: cJSON)
    ensures
        r@ == string_node(item_type, string@),
{
    let mut item = new_typed_item(item_type);
    item.valuestring = Some(copy_bytes(string));
    proof {
        lemma_view_fields(item);
    }
    item
}

pub fn cJSON_CreateString(string: &[u8]) -> (r: cJSON)
    ensures
        r@ == string_node(cJSON_String, string@),
{
    create_string_item(string, cJSON_String)
}

pub fn cJSON_CreateRaw(raw: &[u8]) -> (r: cJSON)
    ensures
        r@ == string_node(cJSON_Raw, raw@),
{
    create_string_item(raw, cJSON_Raw)
}

pub fn cJSON_CreateArray() -> (r: cJSON)
    ensures
        r@ == fresh(cJSON_Array),
{
    new_typed_item(cJSON_Array)
}

pub fn cJSON_CreateObject() -> (r: cJSON)
    ensures
        r@ == fresh(cJSON_Object),
{
    new_typed_item(cJSON_Object)
}

/// A string node that does not own its value.
pub fn cJSON_CreateStringReference(string: &[u8]) -> (r: cJSON)
    ensures
        r@ == string_node(cJSON_String | cJSON_IsReference, string@),
{
    create_string_item(string, cJSON_String | cJSON_IsReference)
}

/// An object node that does not own its children `child`.
pub fn cJSON_CreateObjectReference(child: &[cJSON]) -> (r: cJSON)
    ensures
        r@ == with_children(fresh(cJSON_Object | cJSON_IsReference), views(child@)),
{
    let mut item = new_typed_item(cJSON_Object | cJSON_IsReference);
    item.child = clone_items(child);
    proof {
        lemma_view_fields(item);
    }
    item
}

/// An array node that does not own its children `child`.
pub fn cJSON_CreateArrayReference(child: &[cJSON]) -> (r: cJSON)
    ensures
        r@ == with_children(fresh(cJSON_Array | cJSON_IsReference), views(child@)),
{
    let mut item = new_typed_item(cJSON_Array | cJSON_IsReference);
    item.child = clone_items(child);
    proof {
        lemma_view_fields(item);
    }
    item
}

/// An array of number nodes, one for each (bit pattern, integer value) pair.
pub fn cJSON_CreateDoubleArray(numbers: &[(u64, i32)]) -> (r: cJSON)
    ensures
        r@ == with_children(
            fresh(cJSON_Array),
            Seq::new(numbers@.len(), |i: int| number_node(numbers@[i].0, numbers@[i].1)),
        ),
{
    let mut array = cJSON_CreateArray();
    let mut i: usize = 0;
    assert(Seq::new(0nat, |j: int| number_node(numbers@[j].0, numbers@[j].1)) =~= Seq::empty());
    assert(array@ =~= with_children(fresh(cJSON_Array), Seq::empty()));
    while i < numbers.len()
        invariant
            i <= numbers@.len(),
            array@ == with_children(
                fresh(cJSON_Array),
                Seq::new(i as nat, |j: int| number_node(numbers@[j].0, numbers@[j].1)),
            ),
        decreases numbers.len() - i,
    {
        let (bits, valueint) = numbers[i];
        let item = cJSON_CreateNumber(bits, valueint);
        cJSON_AddItemToArray(&mut array, item);
        i = i + 1;
        assert(array@.child =~= Seq::new(
            i as nat,
            |j: int| number_node(numbers@[j].0, numbers@[j].1),
        ));
    }
    array
}

/// An array of string nodes, one for each string.
pub fn cJSON_CreateStringArray(strings: &[Vec<u8>]) -> (r: cJSON)
    ensures
        r@ == with_children(
            fresh(cJSON_Array),
            Seq::new(strings@.len(), |i: int| string_node(cJSON_String, strings@[i]@)),
        ),
{
    let mut array = cJSON_CreateArray();
    let mut i: usize = 0;
    assert(Seq::new(0nat, |j: int| string_node(cJSON_String, strings@[j]@)) =~= Seq::empty());
    assert(array@ =~= with_children(fresh(cJSON_Array), Seq::empty()));
    while i < strings.len()
        invariant
            i <= strings@.len(),
            array@ == with_children(
                fresh(cJSON_Array),
                Seq::new(i as nat, |j: int| string_node(cJSON_String, strings@[j]@)),
            ),
        decreases strings.len() - i,
    {
        let item = cJSON_CreateString(strings[i].as_slice());
        cJSON_AddItemToArray(&mut array, item);
        i = i + 1;
        assert(array@.child =~= Seq::new(
            i as nat,
            |j: int| string_node(cJSON_String, strings@[j]@),
        ));
    }
    array
}

// ---------------------------------------------------------------------
// Copies
// ---------------------------------------------------------------------

/// An exact copy of a node and all that it holds.
pub fn clone_item(item: &cJSON) -> (r: cJSON)
    ensures
        r@ == item@,
    decreases item,
{
    proof {
        assert(decreases_to!(item => item.child));
        assert(decreases_to!(item.child => item.child@));
    }
    let children = clone_items(item.child.as_slice());
    let r = cJSON {
        child: children,
        type_: item.type_,
        valuestring: copy_opt_bytes(&item.valuestring),
        valueint: item.valueint,
        valuedouble: item.valuedouble,
        string: copy_opt_bytes(&item.string),
    };
    proof {
        lemma_view_fields(r);
        lemma_view_fields(*item);
    }
    r
}

/// Exact copies of a sequence of nodes.
pub fn clone_items(items: &[cJSON]) -> (r: Vec<cJSON>)
    ensures
        views(r@) == views(items@),
    decreases items@,
{
    let mut out: Vec<cJSON> = Vec::new();
    let mut i: usize = 0;
    while i < items.len()
        invariant
            i <= items@.len(),
            out@.len() == i,
            forall|j: int| 0 <= j < i ==> (#[trigger] out@[j])@ == items@[j]@,
        decreases items.len() - i,
    {
        assert(decreases_to!(items@ => items@[i as int]));
        let c = clone_item(&items[i]);
        out.push(c);
        i = i + 1;
    }
    assert(views(out@) =~= views(items@));
    out
}

/// A copy of `item` as `cJSON_Duplicate` makes it: without the reference
/// flag at any level, and with its children only when `recurse` is nonzero.
pub fn cJSON_Duplicate(item: &cJSON, recurse: i32) -> (r: cJSON)
    ensures
        r@ == dup(item@, recurse != 0),
{
    duplicate_item(item, recurse != 0)
}

fn duplicate_item(item: &cJSON, recurse: bool) -> (r: cJSON)
    ensures
        r@ == dup(item@, recurse),
    decreases item,
{
    let mut children: Vec<cJSON> = Vec::new();
    proof {
        lemma_view_fields(*item);
    }
    if recurse {
        let mut i: usize = 0;
        while i < item.child.len()
            invariant
                i <= item.child@.len(),
                children@.len() == i,
                forall|j: int|
                    0 <= j < i ==> (#[trigger] children@[j])@ == dup(item.child@[j]@, true),
            decreases item.child.len() - i,
        {
            assert(decreases_to!(item => item.child@[i as int]));
            let c = duplicate_item(&item.child[i], true);
            children.push(c);
            i = i + 1;
        }
    }
    let r = cJSON {
        child: children,
        type_: item.type_ & !cJSON_IsReference,
        valuestring: copy_opt_bytes(&item.valuestring),
        valueint: item.valueint,
        valuedouble: item.valuedouble,
        string: copy_opt_bytes(&item.string),
    };
    proof {
        lemma_view_fields(r);
        assert(views(r.child@) =~= dup(item@, recurse).child);
    }
    r
}

/// A reference copy of `item`: no key, the reference flag set.
pub fn create_reference(item: &cJSON) -> (r: cJSON)
    ensures
        r@ == reference_of(item@),
{
    let mut r = clone_item(item);
    proof {
        lemma_view_fields(r);
    }
    r.string = None;
    r.type_ = r.type_ | cJSON_IsReference;
    proof {
        lemma_view_fields(r);
    }
    r
}

// ---------------------------------------------------------------------
// Changing arrays and objects
// ---------------------------------------------------------------------

/// Appends `item` to the children of `array`.
pub fn cJSON_AddItemToArray(array: &mut cJSON, item: cJSON) -> (r: bool)
    ensures
        r,
        final(array)@ == appended(old(array)@, item@),
{
    let ghost old_c = array.child@;
    proof {
        lemma_view_fields(*array);
    }
    array.child.push(item);
    proof {
        lemma_view_fields(*array);
        assert(views(array.child@) =~= views(old_c).push(item@));
    }
    true
}

/// Gives `item` the key `string` and appends it to `object`.
pub fn add_item_to_object_internal(
    object: &mut cJSON,
    string: &[u8],
    item: cJSON,
    constant_key: bool,
) -> (r: bool)
    ensures
        r,
        final(object)@ == appended(old(object)@, keyed(item@, string@, constant_key)),
{
    let mut item = item;
    let ghost iv = item@;
    proof {
        lemma_view_fields(item);
    }
    let new_type = if constant_key {
        item.type_ | cJSON_StringIsConst
    } else {
        item.type_ & !cJSON_StringIsConst
    };
    item.string = Some(copy_bytes(string));
    item.type_ = new_type;
    proof {
        lemma_view_fields(item);
    }
    cJSON_AddItemToArray(object, item)
}

pub fn cJSON_AddItemToObject(object: &mut cJSON, string: &[u8], item: cJSON) -> (r: bool)
    ensures
        r,
        final(object)@ == appended(old(object)@, keyed(item@, string@, false)),
{
    add_item_to_object_internal(object, string, item, false)
}

/// Appends `item` under a key that the library treats as constant.
pub fn cJSON_AddItemToObjectCS(object: &mut cJSON, string: &[u8], item: cJSON) -> (r: bool)
    ensures
        r,
        final(object)@ == appended(old(object)@, keyed(item@, string@, true)),
{
    add_item_to_object_internal(object, string, item, true)
}

/// Appends a reference to `item` to `array`.
pub fn cJSON_AddItemReferenceToArray(array: &mut cJSON, item: &cJSON) -> (r: bool)
    ensures
        r,
        final(array)@ == appended(old(array)@, reference_of(item@)),
{
    let reference = create_reference(item);
    cJSON_AddItemToArray(array, reference)
}

/// Appends a reference to `item` to `object` under the key `string`.
pub fn cJSON_AddItemReferenceToObject(object: &mut cJSON, string: &[u8], item: &cJSON) -> (r:
    bool)
    ensures
        r,
        final(object)@ == appended(old(object)@, keyed(reference_of(item@), string@, false)),
{
    let reference = create_reference(item);
    add_item_to_object_internal(object, string, reference, false)
}

/// Removes the child at `index` and gives it back.
pub fn cJSON_DetachItemViaPointer(parent: &mut cJSON, index: usize) -> (r: Option<cJSON>)
    ensures
        index < old(parent)@.child.len() ==> {
            &&& r matches Some(c) && c@ == old(parent)@.child[index as int]
            &&& final(parent)@ == with_children(
                old(parent)@,
                old(parent)@.child.remove(index as int),
            )
        },
        index >= old(parent)@.child.len() ==> r is None && final(parent)@ == old(parent)@,
{
    let ghost old_c = parent.child@;
    proof {
        lemma_view_fields(*parent);
    }
    if index >= parent.child.len() {
        return None;
    }
    let c = parent.child.remove(index);
    proof {
        lemma_view_fields(*parent);
        assert(views(parent.child@) =~= views(old_c).remove(index as int));
    }
    Some(c)
}

/// Removes the child at position `which` and gives it back.
pub fn cJSON_DetachItemFromArray(array: &mut cJSON, which: i32) -> (r: Option<cJSON>)
    ensures
        0 <= which < old(array)@.child.len() ==> {
            &&& r matches Some(c) && c@ == old(array)@.child[which as int]
            &&& final(array)@ == with_children(
                old(array)@,
                old(array)@.child.remove(which as int),
            )
        },
        !(0 <= which < old(array)@.child.len()) ==> r is None && final(array)@ == old(array)@,
{
    if which < 0 {
        return None;
    }
    cJSON_DetachItemViaPointer(array, which as usize)
}

/// Removes the child at position `which`, if there is one.
pub fn cJSON_DeleteItemFromArray(array: &mut cJSON, which: i32)
    ensures
        0 <= which < old(array)@.child.len() ==> final(array)@ == with_children(
            old(array)@,
            old(array)@.child.remove(which as int),
        ),
        !(0 <= which < old(array)@.child.len()) ==> final(array)@ == old(array)@,
{
    let _ = cJSON_DetachItemFromArray(array, which);
}

fn detach_member(object: &mut cJSON, string: &[u8], case_sensitive: bool) -> (r: Option<cJSON>)
    ensures
        match object_index(old(object)@, string@, case_sensitive) {
            Some(i) => {
                &&& r matches Some(c) && c@ == old(object)@.child[i]
                &&& final(object)@ == with_children(old(object)@, old(object)@.child.remove(i))
            },
            None => r is None && final(object)@ == old(object)@,
        },
{
    match get_object_index(object, string, case_sensitive) {
        Some(i) => cJSON_DetachItemViaPointer(object, i),
        None => None,
    }
}

/// Removes the member with key `string` (ASCII case ignored) and gives it back.
pub fn cJSON_DetachItemFromObject(object: &mut cJSON, string: &[u8]) -> (r: Option<cJSON>)
    ensures
        match object_index(old(object)@, string@, false) {
            Some(i) => {
                &&& r matches Some(c) && c@ == old(object)@.child[i]
                &&& final(object)@ == with_children(old(object)@, old(object)@.child.remove(i))
            },
            None => r is None && final(object)@ == old(object)@,
        },
{
    detach_member(object, string, false)
}

/// Removes the member with key `string` and gives it back.
pub fn cJSON_DetachItemFromObjectCaseSensitive(object: &mut cJSON, string: &[u8]) -> (r: Option<
    cJSON,
>)
    ensures
        match object_index(old(object)@, string@, true) {
            Some(i) => {
                &&& r matches Some(c) && c@ == old(object)@.child[i]
                &&& final(object)@ == with_children(old(object)@, old(object)@.child.remove(i))
            },
            None => r is None && final(object)@ == old(object)@,
        },
{
    detach_member(object, string, true)
}

pub fn cJSON_DeleteItemFromObject(object: &mut cJSON, string: &[u8])
    ensures
        match object_index(old(object)@, string@, false) {
            Some(i) => final(object)@ == with_children(
                old(object)@,
                old(object)@.child.remove(i),
            ),
            None => final(object)@ == old(object)@,
        },
{
    let _ = detach_member(object, string, false);
}

pub fn cJSON_DeleteItemFromObjectCaseSensitive(object: &mut cJSON, string: &[u8])
    ensures
        match object_index(old(object)@, string@, true) {
            Some(i) => final(object)@ == with_children(
                old(object)@,
                old(object)@.child.remove(i),
            ),
            None => final(object)@ == old(object)@,
        },
{
    let _ = detach_member(object, string, true);
}

/// Inserts `newitem` before the child at `which`, or appends it when there
/// is no such child; refuses a negative position.
pub fn cJSON_InsertItemInArray(array: &mut cJSON, which: i32, newitem: cJSON) -> (r: bool)
    ensures
        r == (which >= 0),
        which < 0 ==> final(array)@ == old(array)@,
        0 <= which < old(array)@.child.len() ==> final(array)@ == with_children(
            old(array)@,
            old(array)@.child.insert(which as int, newitem@),
        ),
        which >= old(array)@.child.len() ==> final(array)@ == appended(old(array)@, newitem@),
{
    if which < 0 {
        return false;
    }
    let ghost old_c = array.child@;
    proof {
        lemma_view_fields(*array);
    }
    let w = which as usize;
    if w >= array.child.len() {
        return cJSON_AddItemToArray(array, newitem);
    }
    let ghost nv = newitem@;
    array.child.insert(w, newitem);
    proof {
        lemma_view_fields(*array);
        assert(views(array.child@) =~= views(old_c).insert(w as int, nv));
    }
    true
}

/// Puts `replacement` in place of the child at `index`.
pub fn cJSON_ReplaceItemViaPointer(parent: &mut cJSON, index: usize, replacement: cJSON) -> (r:
    bool)
    ensures
        r == (index < old(parent)@.child.len()),
        r ==> final(parent)@ == with_children(
            old(parent)@,
            old(parent)@.child.update(index as int, replacement@),
        ),
        !r ==> final(parent)@ == old(parent)@,
{
    let ghost old_c = parent.child@;
    proof {
        lemma_view_fields(*parent);
    }
    if index >= parent.child.len() {
        return false;
    }
    let ghost rv = replacement@;
    parent.child.set(index, replacement);
    proof {
        lemma_view_fields(*parent);
        assert(views(parent.child@) =~= views(old_c).update(index as int, rv));
    }
    true
}

/// Puts `newitem` in place of the child at position `which`.
pub fn cJSON_ReplaceItemInArray(array: &mut cJSON, which: i32, newitem: cJSON) -> (r: bool)
    ensures
        r == (0 <= which < old(array)@.child.len()),
        r ==> final(array)@ == with_children(
            old(array)@,
            old(array)@.child.update(which as int, newitem@),
        ),
        !r ==> final(array)@ == old(array)@,
{
    if which < 0 {
        return false;
    }
    cJSON_ReplaceItemViaPointer(array, which as usize, newitem)
}

fn replace_item_in_object(
    object: &mut cJSON,
    string: &[u8],
    replacement: cJSON,
    case_sensitive: bool,
) -> (r: bool)
    ensures
        r == object_index(old(object)@, string@, case_sensitive) is Some,
        match object_index(old(object)@, string@, case_sensitive) {
            Some(i) => final(object)@ == with_children(
                old(object)@,
                old(object)@.child.update(i, keyed(replacement@, string@, false)),
            ),
            None => final(object)@ == old(object)@,
        },
{
    match get_object_index(object, string, case_sensitive) {
        None => false,
        Some(i) => {
            let mut replacement = replacement;
            proof {
                lemma_view_fields(replacement);
            }
            replacement.string = Some(copy_bytes(string));
            replacement.type_ = replacement.type_ & !cJSON_StringIsConst;
            proof {
                lemma_view_fields(replacement);
            }
            cJSON_ReplaceItemViaPointer(object, i, replacement)
        },
    }
}

/// Puts `newitem`, keyed `string`, in place of the member with that key
/// (ASCII case ignored).
pub fn cJSON_ReplaceItemInObject(object: &mut cJSON, string: &[u8], newitem: cJSON) -> (r: bool)
    ensures
        r == object_index(old(object)@, string@, false) is Some,
        match object_index(old(object)@, string@, false) {
            Some(i) => final(object)@ == with_children(
                old(object)@,
                old(object)@.child.update(i, keyed(newitem@, string@, false)),
            ),
            None => final(object)@ == old(object)@,
        },
{
    replace_item_in_object(object, string, newitem, false)
}

/// Puts `newitem`, keyed `string`, in place of the member with that key.
pub fn cJSON_ReplaceItemInObjectCaseSensitive(object: &mut cJSON, string: &[u8], newitem: cJSON) -> (r:
    bool)
    ensures
        r == object_index(old(object)@, string@, true) is Some,
        match object_index(old(object)@, string@, true) {
            Some(i) => final(object)@ == with_children(
                old(object)@,
                old(object)@.child.update(i, keyed(newitem@, string@, false)),
            ),
            None => final(object)@ == old(object)@,
        },
{
    replace_item_in_object(object, string, newitem, true)
}

/// Releases a node and all that it owns.
pub fn cJSON_Delete(item: cJSON) {
}

// ---------------------------------------------------------------------
// Adding fresh members
// ---------------------------------------------------------------------

pub fn cJSON_AddNullToObject(object: &mut cJSON, name: &[u8]) -> (r: bool)
    ensures
        r,
        final(object)@ == appended(old(object)@, keyed(fresh(cJSON_NULL), name@, false)),
{
    add_item_to_object_internal(object, name, cJSON_CreateNull(), false)
}

pub fn cJSON_AddTrueToObject(object: &mut cJSON, name: &[u8]) -> (r: bool)
    ensures
        r,
        final(object)@ == appended(old(object)@, keyed(fresh(cJSON_True), name@, false)),
{
    add_item_to_object_internal(object, name, cJSON_CreateTrue(), false)
}

pub fn cJSON_AddFalseToObject(object: &mut cJSON, name: &[u8]) -> (r: bool)
    ensures
        r,
        final(object)@ == appended(old(object)@, keyed(fresh(cJSON_False), name@, false)),
{
    add_item_to_object_internal(object, name, cJSON_CreateFalse(), false)
}

pub fn cJSON_AddBoolToObject(object: &mut cJSON, name: &[u8], boolean: i32) -> (r: bool)
    ensures
        r,
        final(object)@ == appended(
            old(object)@,
            keyed(fresh(if boolean == 0 { cJSON_False } else { cJSON_True }), name@, false),
        ),
{
    add_item_to_object_internal(object, name, cJSON_CreateBool(boolean), false)
}

pub fn cJSON_AddNumberToObject(object: &mut cJSON, name: &[u8], bits: u64, valueint: i32) -> (r:
    bool)
    ensures
        r,
        final(object)@ == appended(
            old(object)@,
            keyed(number_node(bits, valueint), name@, false),
        ),
{
    add_item_to_object_internal(object, name, cJSON_CreateNumber(bits, valueint), false)
}

pub fn cJSON_AddStringToObject(object: &mut cJSON, name: &[u8], string: &[u8]) -> (r: bool)
    ensures
        r,
        final(object)@ == appended(
            old(object)@,
            keyed(string_node(cJSON_String, string@), name@, false),
        ),
{
    add_item_to_object_internal(object, name, cJSON_CreateString(string), false)
}

pub fn cJSON_AddRawToObject(object: &mut cJSON, name: &[u8], raw: &[u8]) -> (r: bool)
    ensures
        r,
        final(object)@ == appended(
            old(object)@,
            keyed(string_node(cJSON_Raw, raw@), name@, false),
        ),
{
    add_item_to_object_internal(object, name, cJSON_CreateRaw(raw), false)
}

pub fn cJSON_AddObjectToObject(object: &mut cJSON, name: &[u8]) -> (r: bool)
    ensures
        r,
        final(object)@ == appended(old(object)@, keyed(fresh(cJSON_Object), name@, false)),
{
    add_item_to_object_internal(object, name, cJSON_CreateObject(), false)
}

pub fn cJSON_AddArrayToObject(object: &mut cJSON, name: &[u8]) -> (r: bool)
    ensures
        r,
        final(object)@ == appended(old(object)@, keyed(fresh(cJSON_Array), name@, false)),
{
    add_item_to_object_internal(object, name, cJSON_CreateArray(), false)
}

// ---------------------------------------------------------------------
// Changing values
// ---------------------------------------------------------------------

/// Sets the double value (by its bit pattern) and the integer value.
pub fn cJSON_SetNumberHelper(object: &mut cJSON, bits: u64, valueint: i32) -> (r: u64)
    ensures
        r == bits,
        final(object)@ == (JsonValue { valuedouble: bits, valueint: valueint, ..old(object)@ }),
{
    proof {
        lemma_view_fields(*object);
    }
    object.valuedouble = bits;
    object.valueint = valueint;
    proof {
        lemma_view_fields(*object);
    }
    bits
}

/// Replaces the value string of a string node that owns it.
pub fn cJSON_SetValuestring(object: &mut cJSON, valuestring: &[u8]) -> (r: bool)
    ensures
        r == ((old(object)@.type_ & cJSON_String) != 0 && (old(object)@.type_
            & cJSON_IsReference) == 0 && old(object)@.valuestring is Some),
        r ==> final(object)@ == (JsonValue {
            valuestring: Some(valuestring@),
            ..old(object)@
        }),
        !r ==> final(object)@ == old(object)@,
{
    proof {
        lemma_view_fields(*object);
    }
    if (object.type_ & cJSON_String) == 0 || (object.type_ & cJSON_IsReference) != 0 {
        return false;
    }
    if object.valuestring.is_none() {
        return false;
    }
    object.valuestring = Some(copy_bytes(valuestring));
    proof {
        lemma_view_fields(*object);
    }
    true
}

} // verus!

verus! {

/// Detaching the element that was just inserted at `which` gives it back
/// and leaves the array as it was.
pub proof fn lemma_insert_then_detach(v: JsonValue, which: int, x: JsonValue)
    requires
        0 <= which <= v.child.len(),
    ensures
        with_children(v, v.child.insert(which, x)).child[which] == x,
        with_children(
            with_children(v, v.child.insert(which, x)),
            v.child.insert(which, x).remove(which),
        ) == v,
{
    assert(v.child.insert(which, x).remove(which) =~= v.child);
    assert(with_children(v, v.child) =~= v);
}

/// Detaching the last element of an array that was just appended to gives
/// the element back and leaves the array as it was.
pub proof fn lemma_append_then_detach(v: JsonValue, x: JsonValue)
    ensures
        appended(v, x).child[v.child.len() as int] == x,
        with_children(appended(v, x), appended(v, x).child.remove(v.child.len() as int)) == v,
{
    assert(v.child.push(x).remove(v.child.len() as int) =~= v.child);
    assert(with_children(v, v.child) =~= v);
}

/// A member added under a key that no member of the object has (all of whose
/// members have keys) is what a lookup of that key then finds.
pub proof fn lemma_add_then_get(v: JsonValue, k: Seq<u8>, x: JsonValue, cs: bool)
    requires
        forall|i: int| 0 <= i < v.child.len() ==> (#[trigger] v.child[i]).string is Some,
        object_index(v, k, cs) is None,
    ensures
        object_index(appended(v, keyed(x, k, false)), k, cs) == Some(v.child.len() as int),
        appended(v, keyed(x, k, false)).child[v.child.len() as int] == keyed(x, k, false),
{
    let p = |c: JsonValue| member_stop(c, k, cs);
    crate::types::lemma_first_index_bounds(v.child, p);
    let i = first_index(v.child, p);
    if i < v.child.len() {
        assert(v.child[i].string is Some);
    }
    let w = appended(v, keyed(x, k, false));
    assert forall|j: int| 0 <= j < v.child.len() implies !p(#[trigger] w.child[j]) by {
        assert(w.child[j] == v.child[j]);
    }
    assert(p(w.child[v.child.len() as int])) by {
        if !cs {
            assert(crate::keys::lower_seq(k) =~= crate::keys::lower_seq(k));
        }
    }
    lemma_first_index(w.child, p, v.child.len() as int);
}

} // verus!

verus! {

/// After a member is replaced under its key, a lookup of that key finds the
/// new value, under that key, where the old member stood.
pub proof fn lemma_replace_then_get(v: JsonValue, k: Seq<u8>, x: JsonValue, cs: bool)
    requires
        object_index(v, k, cs) is Some,
    ensures
        ({
            let i = object_index(v, k, cs)->0;
            let w = with_children(v, v.child.update(i, keyed(x, k, false)));
            object_index(w, k, cs) == Some(i) && w.child[i] == keyed(x, k, false)
        }),
{
    let p = |c: JsonValue| member_stop(c, k, cs);
    crate::types::lemma_first_index_bounds(v.child, p);
    let i = object_index(v, k, cs)->0;
    let w = with_children(v, v.child.update(i, keyed(x, k, false)));
    assert forall|j: int| 0 <= j < i implies !p(#[trigger] w.child[j]) by {
        assert(w.child[j] == v.child[j]);
    }
    assert(p(w.child[i])) by {
        if !cs {
            assert(crate::keys::lower_seq(k) =~= crate::keys::lower_seq(k));
        }
    }
    lemma_first_index(w.child, p, i);
}

} // verus!
