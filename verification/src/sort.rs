use vstd::prelude::*;
use crate::types::{
    cJSON, JsonValue, views, lemma_view_fields, with_children, first_index, lemma_first_index,
    lemma_first_index_bounds, height, max_height, lemma_max_height,
};
use crate::keys::{compare_keys, compare_bytes};

verus! {

/// How the sort compares two members: by their keys; a member without a key
/// compares greater than anything.
pub open spec fn key_order(a: JsonValue, b: JsonValue, cs: bool) -> int {
    match (a.string, b.string) {
        (Some(x), Some(y)) => compare_keys(x, y, cs),
        _ => 1,
    }
}

/// Every member has a key.
pub open spec fn keys_present(s: Seq<JsonValue>) -> bool {
    forall|i: int| 0 <= i < s.len() ==> (#[trigger] s[i]).string is Some
}

/// Each key is smaller than the next one.
pub open spec fn strictly_sorted(s: Seq<JsonValue>, cs: bool) -> bool {
    forall|i: int| 0 <= i < s.len() - 1 ==> #[trigger] key_order(s[i], s[i + 1], cs) < 0
}

/// Where `x` goes in the sorted `t`: before the first member whose key is
/// greater.
pub open spec fn insert_position(t: Seq<JsonValue>, x: JsonValue, cs: bool) -> int {
    first_index(t, |e: JsonValue| key_order(e, x, cs) > 0)
}

/// `t` with `x` inserted after every member whose key is not greater.
pub open spec fn insert_sorted(t: Seq<JsonValue>, x: JsonValue, cs: bool) -> Seq<JsonValue> {
    t.insert(insert_position(t, x, cs), x)
}

/// The members of `s` sorted by key, members with equal keys in their first
/// order.
pub open spec fn isort(s: Seq<JsonValue>, cs: bool) -> Seq<JsonValue>
    decreases s.len(),
{
    if s.len() == 0 {
        s
    } else {
        insert_sorted(isort(s.drop_last(), cs), s.last(), cs)
    }
}

/// The members as `sort_object` leaves them: unchanged when there are fewer
/// than two or their keys already increase strictly, sorted otherwise.
pub open spec fn sort_members(s: Seq<JsonValue>, cs: bool) -> Seq<JsonValue> {
    if s.len() < 2 || strictly_sorted(s, cs) {
        s
    } else {
        isort(s, cs)
    }
}

/// `v` with its members sorted.
pub open spec fn sort_node(v: JsonValue, cs: bool) -> JsonValue {
    with_children(v, sort_members(v.child, cs))
}

pub proof fn lemma_insert_position_bounds(t: Seq<JsonValue>, x: JsonValue, cs: bool)
    ensures
        0 <= insert_position(t, x, cs) <= t.len(),
{
    lemma_first_index_bounds(t, |e: JsonValue| key_order(e, x, cs) > 0);
}

/// Sorting keeps the members, each as often as it was there.
pub proof fn lemma_isort_multiset(s: Seq<JsonValue>, cs: bool)
    ensures
        isort(s, cs).to_multiset() == s.to_multiset(),
        isort(s, cs).len() == s.len(),
    decreases s.len(),
{
    broadcast use vstd::seq_lib::to_multiset_insert;
    broadcast use vstd::multiset::group_multiset_axioms;

    if s.len() > 0 {
        let t = isort(s.drop_last(), cs);
        lemma_isort_multiset(s.drop_last(), cs);
        lemma_insert_position_bounds(t, s.last(), cs);
        vstd::seq_lib::lemma_seq_union_to_multiset_commutative(s.drop_last(), seq![s.last()]);
        assert(s.drop_last() + seq![s.last()] =~= s);
        assert(s.drop_last().push(s.last()) =~= s);
        vstd::seq_lib::to_multiset_build(s.drop_last(), s.last());
    }
}

/// Every member of the sorted sequence was a member before.
pub proof fn lemma_sort_members_elems(s: Seq<JsonValue>, cs: bool)
    ensures
        sort_members(s, cs).len() == s.len(),
        forall|i: int|
            0 <= i < s.len() ==> s.contains(#[trigger] sort_members(s, cs)[i]),
{
    if !(s.len() < 2 || strictly_sorted(s, cs)) {
        lemma_isort_multiset(s, cs);
        assert forall|i: int| 0 <= i < s.len() implies s.contains(#[trigger] sort_members(s, cs)[i]) by {
            let r = isort(s, cs);
            vstd::seq_lib::to_multiset_contains(r, r[i]);
            vstd::seq_lib::to_multiset_contains(s, r[i]);
            assert(r.to_multiset().count(r[i]) > 0);
        }
    } else {
        assert forall|i: int| 0 <= i < s.len() implies s.contains(#[trigger] sort_members(s, cs)[i]) by {
            assert(s[i] == sort_members(s, cs)[i]);
        }
    }
}

proof fn lemma_max_height_bound(s: Seq<JsonValue>, b: nat)
    requires
        forall|i: int| 0 <= i < s.len() ==> height(#[trigger] s[i]) <= b,
    ensures
        max_height(s) <= b,
    decreases s.len(),
{
    if s.len() > 0 {
        let t = s.drop_first();
        assert forall|i: int| 0 <= i < t.len() implies height(#[trigger] t[i]) <= b by {
            assert(t[i] == s[i + 1]);
        }
        lemma_max_height_bound(t, b);
        assert(height(s[0]) <= b);
    }
}

/// Sorting the members does not make them taller.
pub proof fn lemma_sort_height(s: Seq<JsonValue>, cs: bool)
    ensures
        max_height(sort_members(s, cs)) <= max_height(s),
        sort_members(s, cs).len() == s.len(),
        forall|i: int|
            0 <= i < s.len() ==> height(#[trigger] sort_members(s, cs)[i]) <= max_height(s),
{
    lemma_sort_members_elems(s, cs);
    let r = sort_members(s, cs);
    assert forall|i: int| 0 <= i < r.len() implies height(#[trigger] r[i]) <= max_height(s) by {
        assert(s.contains(r[i]));
        let j = choose|j: int| 0 <= j < s.len() && s[j] == r[i];
        lemma_max_height(s, j);
    }
    lemma_max_height_bound(r, max_height(s));
}

/// Compares the keys of two members (see `key_order`).
pub fn compare_member_keys(a: &cJSON, b: &cJSON, case_sensitive: bool) -> (r: i32)
    ensures
        r == key_order(a@, b@, case_sensitive),
{
    proof {
        lemma_view_fields(*a);
        lemma_view_fields(*b);
    }
    match (&a.string, &b.string) {
        (Some(x), Some(y)) => compare_bytes(x.as_slice(), y.as_slice(), case_sensitive),
        _ => 1,
    }
}

fn is_strictly_sorted(s: &Vec<cJSON>, case_sensitive: bool) -> (r: bool)
    ensures
        r == strictly_sorted(views(s@), case_sensitive),
{
    let ghost v = views(s@);
    let n = s.len();
    if n < 2 {
        return true;
    }
    let mut i: usize = 0;
    while i < n - 1
        invariant
            n == s@.len(),
            n >= 2,
            v == views(s@),
            forall|j: int| 0 <= j < i ==> #[trigger] key_order(v[j], v[j + 1], case_sensitive) < 0,
        decreases s.len() - i,
    {
        if compare_member_keys(&s[i], &s[i + 1], case_sensitive) >= 0 {
            assert(key_order(v[i as int], v[i + 1], case_sensitive) >= 0);
            return false;
        }
        i = i + 1;
    }
    true
}

/// Sorts the members of `object` by key, stably, unless they are fewer than
/// two or already strictly increasing; keys are compared without regard to
/// ASCII case unless `case_sensitive`, and a member without a key compares
/// greater than any other (see `key_order`).
pub fn sort_object(object: &mut cJSON, case_sensitive: bool)
    ensures
        final(object)@ == sort_node(old(object)@, case_sensitive),
{
    proof {
        lemma_view_fields(*object);
    }
    let ghost ov = object@;
    if object.child.len() < 2 {
        assert(sort_node(ov, case_sensitive) =~= ov);
        return;
    }
    if is_strictly_sorted(&object.child, case_sensitive) {
        assert(sort_node(ov, case_sensitive) =~= ov);
        return;
    }
    let mut rest: Vec<cJSON> = Vec::new();
    std::mem::swap(&mut rest, &mut object.child);
    let ghost orig = views(rest@);
    let mut out: Vec<cJSON> = Vec::new();
    let n = rest.len();
    let mut k: usize = 0;
    assert(orig.take(0) =~= Seq::<JsonValue>::empty());
    assert(views(out@) =~= isort(orig.take(0), case_sensitive));
    while k < n
        invariant
            n == orig.len(),
            k <= n,
            views(out@) == isort(orig.take(k as int), case_sensitive),
            views(rest@) == orig.skip(k as int),
        decreases n - k,
    {
        let ghost rv = views(rest@);
        assert(rv.len() == rest@.len());
        assert(rv.len() == n - k);
        let ghost rv0 = rest@;
        let x = rest.remove(0);
        let ghost xv = x@;
        assert(xv == orig[k as int]) by {
            assert(orig.skip(k as int)[0] == orig[k as int]);
            assert(rv[0] == rv0[0]@);
        }
        assert(views(rest@) =~= orig.skip(k + 1)) by {
            assert forall|j: int| 0 <= j < rest@.len() implies #[trigger] views(rest@)[j] == orig.skip(
                k + 1,
            )[j] by {
                assert(rest@[j] == rv0[j + 1]);
                assert(rv[j + 1] == orig.skip(k as int)[j + 1]);
            }
        }
        let ghost before = views(out@);
        let mut j: usize = 0;
        while j < out.len() && compare_member_keys(&out[j], &x, case_sensitive) <= 0
            invariant
                j <= out@.len(),
                before == views(out@),
                xv == x@,
                forall|jj: int|
                    0 <= jj < j ==> !((|e: JsonValue| key_order(e, xv, case_sensitive) > 0)(
                        #[trigger] before[jj],
                    )),
            decreases out.len() - j,
        {
            j = j + 1;
        }
        proof {
            lemma_first_index(before, |e: JsonValue| key_order(e, xv, case_sensitive) > 0, j as int);
        }
        out.insert(j, x);
        proof {
            assert(views(out@) =~= before.insert(j as int, xv));
            let tk = orig.take(k + 1);
            assert(tk.drop_last() =~= orig.take(k as int));
            assert(tk.last() == xv);
        }
        k = k + 1;
    }
    assert(orig.take(n as int) =~= orig);
    object.child = out;
    proof {
        lemma_view_fields(*object);
        assert(object@ =~= sort_node(ov, case_sensitive));
    }
}

/// Sorts the members of `object` by key, ignoring ASCII case.
pub fn cJSONUtils_SortObject(object: &mut cJSON)
    ensures
        final(object)@ == sort_node(old(object)@, false),
{
    sort_object(object, false)
}

/// Sorts the members of `object` by key.
pub fn cJSONUtils_SortObjectCaseSensitive(object: &mut cJSON)
    ensures
        final(object)@ == sort_node(old(object)@, true),
{
    sort_object(object, true)
}

} // verus!

verus! {

/// Keys that never decrease, taken pairwise.
pub open spec fn sorted_by_key(s: Seq<JsonValue>, cs: bool) -> bool {
    forall|i: int, j: int| 0 <= i < j < s.len() ==> #[trigger] key_order(s[i], s[j], cs) <= 0
}

proof fn lemma_key_order_antisymmetric(a: JsonValue, b: JsonValue, cs: bool)
    requires
        a.string is Some,
        b.string is Some,
    ensures
        key_order(b, a, cs) == -key_order(a, b, cs),
{
    crate::keys::lemma_compare_from_antisymmetric(a.string->0, b.string->0, cs, 0);
}

proof fn lemma_key_order_transitive(a: JsonValue, b: JsonValue, c: JsonValue, cs: bool)
    requires
        a.string is Some,
        b.string is Some,
        c.string is Some,
        key_order(a, b, cs) <= 0,
        key_order(b, c, cs) <= 0,
    ensures
        key_order(a, c, cs) <= 0,
{
    crate::keys::lemma_compare_from_transitive(a.string->0, b.string->0, c.string->0, cs, 0);
}

proof fn lemma_insert_sorted(t: Seq<JsonValue>, x: JsonValue, cs: bool)
    requires
        keys_present(t),
        x.string is Some,
        sorted_by_key(t, cs),
    ensures
        sorted_by_key(insert_sorted(t, x, cs), cs),
        keys_present(insert_sorted(t, x, cs)),
{
    let pf = |e: JsonValue| key_order(e, x, cs) > 0;
    lemma_first_index_bounds(t, pf);
    let p = insert_position(t, x, cs);
    let r = insert_sorted(t, x, cs);
    assert(r.len() == t.len() + 1);
    assert forall|i: int| 0 <= i < r.len() implies (#[trigger] r[i]).string is Some by {
        if i < p {
            assert(r[i] == t[i]);
        } else if i > p {
            assert(r[i] == t[i - 1]);
        }
    }
    assert forall|i: int, j: int| 0 <= i < j < r.len() implies #[trigger] key_order(
        r[i],
        r[j],
        cs,
    ) <= 0 by {
        if j < p {
            assert(r[i] == t[i] && r[j] == t[j]);
            assert(key_order(t[i], t[j], cs) <= 0);
        } else if j == p {
            assert(r[i] == t[i] && r[j] == x);
            assert(!pf(t[i]));
        } else if i < p {
            assert(r[i] == t[i] && r[j] == t[j - 1]);
            assert(key_order(t[i], t[j - 1], cs) <= 0);
        } else if i == p {
            assert(r[i] == x && r[j] == t[j - 1]);
            assert(pf(t[p]));
            lemma_key_order_antisymmetric(t[p], x, cs);
            if j - 1 > p {
                assert(key_order(t[p], t[j - 1], cs) <= 0);
                lemma_key_order_transitive(x, t[p], t[j - 1], cs);
            }
        } else {
            assert(r[i] == t[i - 1] && r[j] == t[j - 1]);
            assert(key_order(t[i - 1], t[j - 1], cs) <= 0);
        }
    }
}

proof fn lemma_isort_sorted(s: Seq<JsonValue>, cs: bool)
    requires
        keys_present(s),
    ensures
        sorted_by_key(isort(s, cs), cs),
        keys_present(isort(s, cs)),
    decreases s.len(),
{
    if s.len() > 0 {
        let d = s.drop_last();
        assert(keys_present(d)) by {
            assert forall|i: int| 0 <= i < d.len() implies (#[trigger] d[i]).string is Some by {
                assert(d[i] == s[i]);
            }
        }
        lemma_isort_sorted(d, cs);
        assert(s.last().string is Some);
        lemma_insert_sorted(isort(d, cs), s.last(), cs);
    }
}

proof fn lemma_strictly_sorted_pair(s: Seq<JsonValue>, cs: bool, i: int, j: int)
    requires
        keys_present(s),
        strictly_sorted(s, cs),
        0 <= i < j < s.len(),
    ensures
        key_order(s[i], s[j], cs) <= 0,
    decreases j - i,
{
    let k = j - 1;
    assert(key_order(s[k], s[k + 1], cs) < 0);
    assert(k + 1 == j);
    if j - 1 > i {
        lemma_strictly_sorted_pair(s, cs, i, j - 1);
        lemma_key_order_transitive(s[i], s[j - 1], s[j], cs);
    }
}

/// Sorting the members of an object whose members all have keys leaves
/// them in the order of their keys, each member kept as often as it was
/// there.
pub proof fn lemma_sort_members_law(s: Seq<JsonValue>, cs: bool)
    requires
        keys_present(s),
    ensures
        sorted_by_key(sort_members(s, cs), cs),
        sort_members(s, cs).to_multiset() == s.to_multiset(),
{
    if s.len() < 2 || strictly_sorted(s, cs) {
        assert forall|i: int, j: int| 0 <= i < j < s.len() implies #[trigger] key_order(
            s[i],
            s[j],
            cs,
        ) <= 0 by {
            lemma_strictly_sorted_pair(s, cs, i, j);
        }
    } else {
        lemma_isort_sorted(s, cs);
        lemma_isort_multiset(s, cs);
    }
}

} // verus!

verus! {

// ---------------------------------------------------------------------
// Members with equal keys keep their order
// ---------------------------------------------------------------------

/// The members whose key compares equal to that of `x`.
pub open spec fn same_key_as(x: JsonValue, cs: bool) -> spec_fn(JsonValue) -> bool {
    |e: JsonValue| key_order(e, x, cs) == 0
}

proof fn lemma_filter_none(s: Seq<JsonValue>, p: spec_fn(JsonValue) -> bool)
    requires
        forall|i: int| 0 <= i < s.len() ==> !p(#[trigger] s[i]),
    ensures
        s.filter(p) == Seq::<JsonValue>::empty(),
    decreases s.len(),
{
    reveal(Seq::filter);
    if s.len() > 0 {
        assert(!p(s[s.len() - 1]));
        lemma_filter_none(s.drop_last(), p);
    }
}

proof fn lemma_filter_one(y: JsonValue, p: spec_fn(JsonValue) -> bool)
    ensures
        seq![y].filter(p) == (if p(y) {
            seq![y]
        } else {
            Seq::<JsonValue>::empty()
        }),
{
    reveal_with_fuel(Seq::filter, 2);
    assert(seq![y].drop_last() =~= Seq::<JsonValue>::empty());
}

proof fn lemma_insert_sorted_stable(t: Seq<JsonValue>, y: JsonValue, x: JsonValue, cs: bool)
    requires
        keys_present(t),
        sorted_by_key(t, cs),
        y.string is Some,
        x.string is Some,
    ensures
        insert_sorted(t, y, cs).filter(same_key_as(x, cs)) == t.filter(same_key_as(x, cs))
            + seq![y].filter(same_key_as(x, cs)),
{
    broadcast use Seq::filter_distributes_over_add;

    let p = same_key_as(x, cs);
    let pf = |e: JsonValue| key_order(e, y, cs) > 0;
    lemma_first_index_bounds(t, pf);
    let pos = insert_position(t, y, cs);
    let a = t.subrange(0, pos);
    let b = t.subrange(pos, t.len() as int);
    assert(t =~= a + b);
    assert(insert_sorted(t, y, cs) =~= a + seq![y] + b);
    lemma_filter_one(y, p);
    if p(y) {
        assert forall|j: int| 0 <= j < b.len() implies !p(#[trigger] b[j]) by {
            let e = b[j];
            assert(e == t[pos + j]);
            lemma_first_index(t, pf, pos);
            assert(key_order(t[pos], y, cs) > 0);
            assert(t[pos].string is Some);
            assert(e.string is Some);
            if j > 0 {
                assert(key_order(t[pos], t[pos + j], cs) <= 0);
            }
            if key_order(e, y, cs) <= 0 {
                if j > 0 {
                    lemma_key_order_transitive(t[pos], e, y, cs);
                }
                assert(false);
            }
            if p(e) {
                lemma_key_order_antisymmetric(y, x, cs);
                lemma_key_order_transitive(e, x, y, cs);
                assert(false);
            }
        }
        lemma_filter_none(b, p);
        assert((a + seq![y] + b).filter(p) == a.filter(p) + seq![y].filter(p) + b.filter(p));
        assert(t.filter(p) == a.filter(p) + b.filter(p));
        assert(a.filter(p) + seq![y].filter(p) + Seq::<JsonValue>::empty() =~= a.filter(p)
            + Seq::<JsonValue>::empty() + seq![y].filter(p));
    } else {
        assert((a + seq![y] + b).filter(p) == a.filter(p) + seq![y].filter(p) + b.filter(p));
        assert(t.filter(p) == a.filter(p) + b.filter(p));
        assert(a.filter(p) + Seq::<JsonValue>::empty() + b.filter(p) =~= a.filter(p) + b.filter(p)
            + Seq::<JsonValue>::empty());
    }
}

proof fn lemma_isort_stable(s: Seq<JsonValue>, x: JsonValue, cs: bool)
    requires
        keys_present(s),
        x.string is Some,
    ensures
        isort(s, cs).filter(same_key_as(x, cs)) == s.filter(same_key_as(x, cs)),
    decreases s.len(),
{
    broadcast use Seq::filter_distributes_over_add;

    if s.len() > 0 {
        let d = s.drop_last();
        assert(keys_present(d)) by {
            assert forall|i: int| 0 <= i < d.len() implies (#[trigger] d[i]).string is Some by {
                assert(d[i] == s[i]);
            }
        }
        lemma_isort_stable(d, x, cs);
        lemma_isort_sorted(d, cs);
        assert(s.last().string is Some);
        lemma_insert_sorted_stable(isort(d, cs), s.last(), x, cs);
        assert(s =~= d + seq![s.last()]);
    }
}

/// Sorting the members of an object whose members all have keys keeps the
/// members whose keys compare equal in the order they had.
pub proof fn lemma_sort_members_stable(s: Seq<JsonValue>, x: JsonValue, cs: bool)
    requires
        keys_present(s),
        x.string is Some,
    ensures
        sort_members(s, cs).filter(same_key_as(x, cs)) == s.filter(same_key_as(x, cs)),
{
    if !(s.len() < 2 || strictly_sorted(s, cs)) {
        lemma_isort_stable(s, x, cs);
    }
}

} // verus!
