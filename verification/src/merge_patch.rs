use vstd::prelude::*;
use crate::types::{
    cJSON, JsonValue, views, lemma_view_fields, with_children, type_tag, height, max_height,
    lemma_max_height, lemma_child_height, fresh, cJSON_NULL, cJSON_Object,
};
use crate::tree::{
    object_index, dup, appended, keyed, cJSON_Duplicate, cJSON_CreateObject, cJSON_CreateNull,
    cJSON_AddItemToObject, cJSON_DeleteItemFromObject, cJSON_DeleteItemFromObjectCaseSensitive,
    cJSON_DetachItemFromObject, cJSON_DetachItemFromObjectCaseSensitive,
};
use crate::sort::{key_order, sort_members, sort_object, compare_member_keys, lemma_sort_height};
use crate::patch::{same_json, lemma_same_height, compare_json, join_diff};
use crate::compare::{num_eq_spec, is_number_equality, lemma_object_index_bound};

verus! {

// ---------------------------------------------------------------------
// Applying a merge patch (RFC 7386)
// ---------------------------------------------------------------------

/// The result of merging `patch` into `target`: a patch that is not an
/// object replaces the target by a copy of itself; an object patch is
/// merged member by member into the target, or into an empty object when
/// the target is not an object.
pub open spec fn merge(target: Option<JsonValue>, patch: JsonValue, cs: bool) -> JsonValue
    decreases height(patch), 1int, 0int,
{
    if type_tag(patch) != cJSON_Object {
        dup(patch, true)
    } else {
        let t0 = match target {
            Some(t) => if type_tag(t) == cJSON_Object {
                t
            } else {
                fresh(cJSON_Object)
            },
            None => fresh(cJSON_Object),
        };
        merge_members(t0, patch, 0, cs)
    }
}

/// Merges the members of `patch` from index `i` on into `t`: a `null`
/// removes the member with its key; another value takes the member out,
/// merges into it and adds the result as the last member. A member of the
/// patch without a key changes nothing.
pub open spec fn merge_members(t: JsonValue, patch: JsonValue, i: int, cs: bool) -> JsonValue
    decreases height(patch), 0int, patch.child.len() - i,
{
    if i < 0 || i >= patch.child.len() {
        t
    } else {
        let c = patch.child[i];
        let t1 = match c.string {
            None => t,
            Some(k) => if type_tag(c) == cJSON_NULL {
                match object_index(t, k, cs) {
                    Some(j) => with_children(t, t.child.remove(j)),
                    None => t,
                }
            } else {
                proof {
                    lemma_child_height(patch, i);
                }
                match object_index(t, k, cs) {
                    Some(j) => appended(
                        with_children(t, t.child.remove(j)),
                        keyed(merge(Some(t.child[j]), c, cs), k, false),
                    ),
                    None => appended(t, keyed(merge(None, c, cs), k, false)),
                }
            },
        };
        merge_members(t1, patch, i + 1, cs)
    }
}

/// Merges `patch` into `target` (see `merge`), keys compared as given.
pub fn merge_patch(target: Option<cJSON>, patch: &cJSON, case_sensitive: bool) -> (r: cJSON)
    ensures
        r@ == merge(
            match target {
                Some(t) => Some(t@),
                None => None,
            },
            patch@,
            case_sensitive,
        ),
    decreases height(patch@),
{
    proof {
        lemma_view_fields(*patch);
    }
    if (patch.type_ & 255) != cJSON_Object {
        return cJSON_Duplicate(patch, 1);
    }
    let mut t = match target {
        Some(t) => if (t.type_ & 255) == cJSON_Object {
            proof {
                lemma_view_fields(t);
            }
            t
        } else {
            cJSON_CreateObject()
        },
        None => cJSON_CreateObject(),
    };
    let ghost t0 = t@;
    let mut i: usize = 0;
    while i < patch.child.len()
        invariant
            i <= patch@.child.len(),
            patch@.child == views(patch.child@),
            type_tag(patch@) == cJSON_Object,
            merge_members(t0, patch@, 0, case_sensitive) == merge_members(
                t@,
                patch@,
                i as int,
                case_sensitive,
            ),
        decreases patch.child.len() - i,
    {
        let ghost tv = t@;
        let c = &patch.child[i];
        proof {
            lemma_view_fields(*c);
            lemma_child_height(patch@, i as int);
            lemma_object_index_bound(tv, c@.string->0, case_sensitive);
        }
        match &c.string {
            None => {},
            Some(k) => {
                if (c.type_ & 255) == cJSON_NULL {
                    if case_sensitive {
                        cJSON_DeleteItemFromObjectCaseSensitive(&mut t, k.as_slice());
                    } else {
                        cJSON_DeleteItemFromObject(&mut t, k.as_slice());
                    }
                } else {
                    let replace_me = if case_sensitive {
                        cJSON_DetachItemFromObjectCaseSensitive(&mut t, k.as_slice())
                    } else {
                        cJSON_DetachItemFromObject(&mut t, k.as_slice())
                    };
                    let replacement = merge_patch(replace_me, c, case_sensitive);
                    cJSON_AddItemToObject(&mut t, k.as_slice(), replacement);
                }
            },
        }
        i = i + 1;
    }
    t
}

/// Merges `patch` into `target`, keys compared without regard to ASCII case.
pub fn cJSONUtils_MergePatch(target: Option<cJSON>, patch: &cJSON) -> (r: cJSON)
    ensures
        r@ == merge(
            match target {
                Some(t) => Some(t@),
                None => None,
            },
            patch@,
            false,
        ),
{
    merge_patch(target, patch, false)
}

/// Merges `patch` into `target`.
pub fn cJSONUtils_MergePatchCaseSensitive(target: Option<cJSON>, patch: &cJSON) -> (r: cJSON)
    ensures
        r@ == merge(
            match target {
                Some(t) => Some(t@),
                None => None,
            },
            patch@,
            true,
        ),
{
    merge_patch(target, patch, true)
}

} // verus!

verus! {

// ---------------------------------------------------------------------
// Generating a merge patch
// ---------------------------------------------------------------------

/// The merge patch from `from` to `to`, with the two values as the
/// generation leaves them (it sorts the objects that it reaches): a copy of
/// `to` unless both are objects; else an object with, for the sorted
/// members, `null` under each key only `from` has, a copy of each member
/// only `to` has and the merge patch of each pair that differ (see
/// `same_json`); `None` when that object would be empty.
pub open spec fn gen_merge(
    from: JsonValue,
    to: JsonValue,
    cs: bool,
    eq: spec_fn(u64, u64) -> bool,
) -> (Option<JsonValue>, JsonValue, JsonValue)
    decreases height(from) + height(to), 0int, 0int,
{
    if type_tag(to) != cJSON_Object || type_tag(from) != cJSON_Object {
        (Some(dup(to, true)), from, to)
    } else {
        proof {
            lemma_sort_height(from.child, cs);
            lemma_sort_height(to.child, cs);
        }
        let res = gen_members(sort_members(from.child, cs), sort_members(to.child, cs), cs, eq);
        (
            if res.0.len() == 0 {
                None
            } else {
                Some(with_children(fresh(cJSON_Object), res.0))
            },
            with_children(from, res.1),
            with_children(to, res.2),
        )
    }
}

/// The members of the merge patch of the sorted members `fs` and `ts`.
#[verifier::opaque]
pub open spec fn gen_members(
    fs: Seq<JsonValue>,
    ts: Seq<JsonValue>,
    cs: bool,
    eq: spec_fn(u64, u64) -> bool,
) -> (Seq<JsonValue>, Seq<JsonValue>, Seq<JsonValue>)
    decreases max_height(fs) + max_height(ts), 1int, fs.len() + ts.len(),
{
    if fs.len() == 0 && ts.len() == 0 {
        (Seq::empty(), fs, ts)
    } else {
        let d = if fs.len() > 0 {
            if ts.len() > 0 {
                key_order(fs[0], ts[0], cs)
            } else {
                -1
            }
        } else {
            1
        };
        if d < 0 {
            let rest = gen_members(fs.drop_first(), ts, cs, eq);
            let e = match fs[0].string {
                Some(k) => seq![keyed(fresh(cJSON_NULL), k, false)],
                None => Seq::empty(),
            };
            (e + rest.0, seq![fs[0]] + rest.1, rest.2)
        } else if d > 0 {
            let rest = gen_members(fs, ts.drop_first(), cs, eq);
            let e = match ts[0].string {
                Some(k) => seq![keyed(dup(ts[0], true), k, false)],
                None => Seq::empty(),
            };
            (e + rest.0, rest.1, seq![ts[0]] + rest.2)
        } else {
            proof {
                lemma_max_height(fs, 0);
                lemma_max_height(ts, 0);
                lemma_same_height(fs[0], ts[0], cs, eq);
            }
            let c = same_json(fs[0], ts[0], cs, eq);
            let rest = gen_members(fs.drop_first(), ts.drop_first(), cs, eq);
            if c.0 {
                (rest.0, seq![c.1] + rest.1, seq![c.2] + rest.2)
            } else {
                let g = gen_merge(c.1, c.2, cs, eq);
                let e = match (g.0, ts[0].string) {
                    (Some(m), Some(k)) => seq![keyed(m, k, false)],
                    _ => Seq::empty(),
                };
                (e + rest.0, seq![g.1] + rest.1, seq![g.2] + rest.2)
            }
        }
    }
}

/// The merge patch from `from` to `to` (see `gen_merge`); `num_eq`
/// decides whether two doubles, given by their bit patterns, are equal.
#[verifier::rlimit(40)]
pub fn generate_merge_patch<F: Fn(u64, u64) -> bool>(
    from: &mut cJSON,
    to: &mut cJSON,
    case_sensitive: bool,
    num_eq: &F,
) -> (r: Option<cJSON>)
    requires
        is_number_equality(*num_eq),
    ensures
        (match r {
            Some(p) => Some(p@),
            None => None,
        }, final(from)@, final(to)@) == gen_merge(
            old(from)@,
            old(to)@,
            case_sensitive,
            num_eq_spec(*num_eq),
        ),
    decreases height(old(from)@) + height(old(to)@),
{
    let ghost eq = num_eq_spec(*num_eq);
    let ghost fv = from@;
    let ghost tv = to@;
    proof {
        lemma_view_fields(*from);
        lemma_view_fields(*to);
    }
    if (to.type_ & 255) != cJSON_Object || (from.type_ & 255) != cJSON_Object {
        return Some(cJSON_Duplicate(to, 1));
    }
    sort_object(from, case_sensitive);
    sort_object(to, case_sensitive);
    proof {
        lemma_sort_height(fv.child, case_sensitive);
        lemma_sort_height(tv.child, case_sensitive);
        lemma_view_fields(*from);
        lemma_view_fields(*to);
    }
    let ghost f0 = views(from.child@);
    let ghost t0 = views(to.child@);
    let ghost fsave = *from;
    let ghost tsave = *to;
    let mut patch = cJSON_CreateObject();
    let ghost mut acc: Seq<JsonValue> = Seq::empty();
    proof {
        assert(f0.skip(0) =~= f0);
        assert(t0.skip(0) =~= t0);
        let r0 = gen_members(f0, t0, case_sensitive, eq);
        assert(acc + r0.0 =~= r0.0);
        assert(f0.take(0) + r0.1 =~= r0.1);
        assert(t0.take(0) + r0.2 =~= r0.2);
        assert(patch@ =~= with_children(fresh(cJSON_Object), acc));
    }
    let flen = from.child.len();
    let tlen = to.child.len();
    let mut fi: usize = 0;
    let mut ti: usize = 0;
    while fi < flen || ti < tlen
        invariant
            is_number_equality(*num_eq),
            eq == num_eq_spec(*num_eq),
            fv == old(from)@,
            tv == old(to)@,
            f0 == sort_members(fv.child, case_sensitive),
            t0 == sort_members(tv.child, case_sensitive),
            flen == f0.len(),
            tlen == t0.len(),
            fi <= flen,
            ti <= tlen,
            f0.len() == from.child@.len(),
            t0.len() == to.child@.len(),
            max_height(f0) < height(fv),
            max_height(t0) < height(tv),
            views(from.child@).skip(fi as int) == f0.skip(fi as int),
            views(to.child@).skip(ti as int) == t0.skip(ti as int),
            patch@ == with_children(fresh(cJSON_Object), acc),
            gen_members(f0, t0, case_sensitive, eq) == join_diff(
                acc,
                views(from.child@).take(fi as int),
                views(to.child@).take(ti as int),
                gen_members(f0.skip(fi as int), t0.skip(ti as int), case_sensitive, eq),
            ),
            from.type_ == fsave.type_,
            from.valuestring == fsave.valuestring,
            from.valueint == fsave.valueint,
            from.valuedouble == fsave.valuedouble,
            from.string == fsave.string,
            to.type_ == tsave.type_,
            to.valuestring == tsave.valuestring,
            to.valueint == tsave.valueint,
            to.valuedouble == tsave.valuedouble,
            to.string == tsave.string,
            fsave@ == with_children(fv, f0),
            tsave@ == with_children(tv, t0),
            type_tag(fv) == cJSON_Object,
            type_tag(tv) == cJSON_Object,
        decreases (flen - fi) + (tlen - ti),
    {
        let ghost bf = views(from.child@);
        let ghost bt = views(to.child@);
        let ghost fs = f0.skip(fi as int);
        let ghost ts = t0.skip(ti as int);
        let ghost pb = patch@;
        proof {
            if fi < flen {
                assert(fs[0] == f0[fi as int]);
                assert(bf[fi as int] == fs[0]) by {
                    assert(bf.skip(fi as int)[0] == bf[fi as int]);
                }
                lemma_view_fields(from.child@[fi as int]);
            }
            if ti < tlen {
                assert(ts[0] == t0[ti as int]);
                assert(bt[ti as int] == ts[0]) by {
                    assert(bt.skip(ti as int)[0] == bt[ti as int]);
                }
                lemma_view_fields(to.child@[ti as int]);
            }
        }
        let d: i32 = if fi < flen {
            if ti < tlen {
                compare_member_keys(&from.child[fi], &to.child[ti], case_sensitive)
            } else {
                -1
            }
        } else {
            1
        };
        if d < 0 {
            match &from.child[fi].string {
                Some(k) => {
                    cJSON_AddItemToObject(&mut patch, k.as_slice(), cJSON_CreateNull());
                    assert(patch@ == appended(pb, keyed(fresh(cJSON_NULL), k@, false)));
                    assert(fs[0].string == Some(k@));
                    assert(pb.child.push(keyed(fresh(cJSON_NULL), k@, false)) =~= acc + seq![keyed(fresh(cJSON_NULL), k@, false)]);
                },
                None => {},
            }
            proof {
                reveal(gen_members);
                let e = match fs[0].string {
                    Some(k) => seq![keyed(fresh(cJSON_NULL), k, false)],
                    None => Seq::<JsonValue>::empty(),
                };
                assert(patch@ =~= with_children(fresh(cJSON_Object), acc + e));
                assert(fs.drop_first() =~= f0.skip(fi + 1));
                let rest = gen_members(f0.skip(fi + 1), ts, case_sensitive, eq);
                assert(acc + (e + rest.0) =~= (acc + e) + rest.0);
                assert(bf.take(fi as int) + (seq![fs[0]] + rest.1) =~= bf.take(fi + 1) + rest.1);
                assert(bf.skip(fi + 1) =~= bf.skip(fi as int).drop_first());
                acc = acc + e;
            }
            fi = fi + 1;
        } else if d > 0 {
            match &to.child[ti].string {
                Some(k) => {
                    let ghost dv = dup(to.child@[ti as int]@, true);
                    cJSON_AddItemToObject(&mut patch, k.as_slice(), cJSON_Duplicate(&to.child[ti], 1));
                    assert(patch@ == appended(pb, keyed(dv, k@, false)));
                    assert(ts[0].string == Some(k@));
                    assert(pb.child.push(keyed(dv, k@, false)) =~= acc + seq![keyed(dv, k@, false)]);
                },
                None => {},
            }
            proof {
                reveal(gen_members);
                let e = match ts[0].string {
                    Some(k) => seq![keyed(dup(ts[0], true), k, false)],
                    None => Seq::<JsonValue>::empty(),
                };
                assert(patch@ =~= with_children(fresh(cJSON_Object), acc + e));
                assert(ts.drop_first() =~= t0.skip(ti + 1));
                let rest = gen_members(fs, t0.skip(ti + 1), case_sensitive, eq);
                assert(acc + (e + rest.0) =~= (acc + e) + rest.0);
                assert(bt.take(ti as int) + (seq![ts[0]] + rest.2) =~= bt.take(ti + 1) + rest.2);
                assert(bt.skip(ti + 1) =~= bt.skip(ti as int).drop_first());
                acc = acc + e;
            }
            ti = ti + 1;
        } else {
            proof {
                lemma_max_height(f0, fi as int);
                lemma_max_height(t0, ti as int);
                lemma_same_height(fs[0], ts[0], case_sensitive, eq);
            }
            let same = compare_json(&mut from.child[fi], &mut to.child[ti], case_sensitive, num_eq);
            let ghost c = same_json(fs[0], ts[0], case_sensitive, eq);
            let ghost mf = views(from.child@);
            let ghost mt = views(to.child@);
            proof {
                assert(mf =~= bf.update(fi as int, c.1));
                assert(mt =~= bt.update(ti as int, c.2));
                assert(from.child@[fi as int]@ == c.1);
                assert(to.child@[ti as int]@ == c.2);
            }
            if !same {
                let g = generate_merge_patch(&mut from.child[fi], &mut to.child[ti], case_sensitive, num_eq);
                proof {
                    lemma_view_fields(to.child@[ti as int]);
                }
                proof {
                    assert(c.2.string == ts[0].string);
                    assert(gen_merge(c.1, c.2, case_sensitive, eq).2.string == c.2.string);
                    assert(to.child@[ti as int]@.string == ts[0].string);
                }
                match (g, &to.child[ti].string) {
                    (Some(m), Some(k)) => {
                        let ghost mv = m@;
                        cJSON_AddItemToObject(&mut patch, k.as_slice(), m);
                        assert(patch@ == appended(pb, keyed(mv, k@, false)));
                        assert(pb.child.push(keyed(mv, k@, false)) =~= acc + seq![keyed(mv, k@, false)]);
                    },
                    _ => {},
                }
            }
            proof {
                reveal(gen_members);
                let rest = gen_members(f0.skip(fi + 1), t0.skip(ti + 1), case_sensitive, eq);
                assert(fs.drop_first() =~= f0.skip(fi + 1));
                assert(ts.drop_first() =~= t0.skip(ti + 1));
                let af = views(from.child@);
                let at = views(to.child@);
                let (e, nf, nt) = if c.0 {
                    (Seq::<JsonValue>::empty(), c.1, c.2)
                } else {
                    let g = gen_merge(c.1, c.2, case_sensitive, eq);
                    (match (g.0, ts[0].string) {
                        (Some(m), Some(k)) => seq![keyed(m, k, false)],
                        _ => Seq::<JsonValue>::empty(),
                    }, g.1, g.2)
                };
                assert(af =~= bf.update(fi as int, nf));
                assert(at =~= bt.update(ti as int, nt));
                assert(patch@ =~= with_children(fresh(cJSON_Object), acc + e));
                assert(acc + (e + rest.0) =~= (acc + e) + rest.0);
                assert(bf.take(fi as int) + (seq![nf] + rest.1) =~= af.take(fi + 1) + rest.1);
                assert(bt.take(ti as int) + (seq![nt] + rest.2) =~= at.take(ti + 1) + rest.2);
                assert(af.skip(fi + 1) =~= bf.skip(fi + 1));
                assert(at.skip(ti + 1) =~= bt.skip(ti + 1));
                assert(bf.skip(fi + 1) =~= bf.skip(fi as int).drop_first());
                assert(bt.skip(ti + 1) =~= bt.skip(ti as int).drop_first());
                acc = acc + e;
            }
            fi = fi + 1;
            ti = ti + 1;
        }
    }
    proof {
        reveal(gen_members);
        let af = views(from.child@);
        let at = views(to.child@);
        assert(f0.skip(fi as int) =~= Seq::<JsonValue>::empty());
        assert(t0.skip(ti as int) =~= Seq::<JsonValue>::empty());
        assert(af.take(fi as int) =~= af);
        assert(at.take(ti as int) =~= at);
        assert(acc + Seq::<JsonValue>::empty() =~= acc);
        lemma_view_fields(*from);
        lemma_view_fields(*to);
        lemma_view_fields(fsave);
        lemma_view_fields(tsave);
        let r0 = gen_members(f0, t0, case_sensitive, eq);
        assert(from@ =~= with_children(fv, r0.1));
        assert(to@ =~= with_children(tv, r0.2));
        lemma_view_fields(patch);
    }
    if patch.child.len() == 0 {
        None
    } else {
        Some(patch)
    }
}

/// The merge patch from `from` to `to`, keys compared without regard
/// to ASCII case; `None` when there is no difference.
pub fn cJSONUtils_GenerateMergePatch<F: Fn(u64, u64) -> bool>(
    from: &mut cJSON,
    to: &mut cJSON,
    num_eq: &F,
) -> (r: Option<cJSON>)
    requires
        is_number_equality(*num_eq),
    ensures
        (match r {
            Some(p) => Some(p@),
            None => None,
        }, final(from)@, final(to)@) == gen_merge(old(from)@, old(to)@, false, num_eq_spec(*num_eq)),
{
    generate_merge_patch(from, to, false, num_eq)
}

/// The merge patch from `from` to `to`; `None` when there is no
/// difference.
pub fn cJSONUtils_GenerateMergePatchCaseSensitive<F: Fn(u64, u64) -> bool>(
    from: &mut cJSON,
    to: &mut cJSON,
    num_eq: &F,
) -> (r: Option<cJSON>)
    requires
        is_number_equality(*num_eq),
    ensures
        (match r {
            Some(p) => Some(p@),
            None => None,
        }, final(from)@, final(to)@) == gen_merge(old(from)@, old(to)@, true, num_eq_spec(*num_eq)),
{
    generate_merge_patch(from, to, true, num_eq)
}

} // verus!

verus! {

proof fn lemma_merge_members_type(t: JsonValue, patch: JsonValue, i: int, cs: bool)
    ensures
        merge_members(t, patch, i, cs).type_ == t.type_,
    decreases patch.child.len() - i,
{
    if 0 <= i < patch.child.len() {
        let c = patch.child[i];
        let t1 = match c.string {
            None => t,
            Some(k) => if type_tag(c) == cJSON_NULL {
                match object_index(t, k, cs) {
                    Some(j) => with_children(t, t.child.remove(j)),
                    None => t,
                }
            } else {
                match object_index(t, k, cs) {
                    Some(j) => appended(
                        with_children(t, t.child.remove(j)),
                        keyed(merge(Some(t.child[j]), c, cs), k, false),
                    ),
                    None => appended(t, keyed(merge(None, c, cs), k, false)),
                }
            },
        };
        assert(merge_members(t, patch, i, cs) == merge_members(t1, patch, i + 1, cs));
        lemma_merge_members_type(t1, patch, i + 1, cs);
    }
}

/// Merging an object patch gives an object: into an object target, or,
/// when the target is missing or is not an object, into an empty object,
/// so that any target that is not an object is merged into as if there
/// were none.
pub proof fn lemma_merge_object_patch(target: Option<JsonValue>, patch: JsonValue, cs: bool)
    requires
        type_tag(patch) == cJSON_Object,
    ensures
        type_tag(merge(target, patch, cs)) == cJSON_Object,
        (target matches Some(t) && type_tag(t) != cJSON_Object) ==> merge(target, patch, cs)
            == merge(None, patch, cs),
{
    assert(64i32 & 255i32 == 64i32) by (bit_vector);
    let t0 = match target {
        Some(t) => if type_tag(t) == cJSON_Object {
            t
        } else {
            fresh(cJSON_Object)
        },
        None => fresh(cJSON_Object),
    };
    lemma_merge_members_type(t0, patch, 0, cs);
}

} // verus!

verus! {

// ---------------------------------------------------------------------
// What merging does to each key
// ---------------------------------------------------------------------

/// No two members of `s` have keys that compare equal, and all have keys.
pub open spec fn unique_keys(s: Seq<JsonValue>, cs: bool) -> bool {
    &&& crate::sort::keys_present(s)
    &&& forall|k: Seq<u8>| (#[trigger] s.filter(crate::patch::key_match(k, cs))).len() <= 1
}

/// The members of `p` have keys, no two comparing equal.
pub open spec fn distinct_patch_keys(p: JsonValue, cs: bool) -> bool {
    &&& crate::sort::keys_present(p.child)
    &&& forall|a: int, b: int|
        0 <= a < b < p.child.len() ==> !crate::keys::key_eq(
            (#[trigger] p.child[a]).string->0,
            (#[trigger] p.child[b]).string->0,
            cs,
        )
}

/// The member of `t` under a key that compares equal to `k`, if any.
pub open spec fn member_under(t: JsonValue, k: Seq<u8>, cs: bool) -> Option<JsonValue> {
    let f = t.child.filter(crate::patch::key_match(k, cs));
    if f.len() > 0 {
        Some(f[0])
    } else {
        None
    }
}

/// What the merge leaves under the key of the patch member `c` merged into
/// `t`: nothing for `null`; else one member under `c`'s key, the merge of
/// `c` into what `t` held there.
pub open spec fn merged_under(t: JsonValue, c: JsonValue, cs: bool) -> Seq<JsonValue> {
    let k = c.string->0;
    if type_tag(c) == cJSON_NULL {
        Seq::empty()
    } else {
        seq![keyed(merge(member_under(t, k, cs), c, cs), k, false)]
    }
}

/// One member of a patch merged into `t`.
pub open spec fn merge_step(t: JsonValue, c: JsonValue, cs: bool) -> JsonValue {
    match c.string {
        None => t,
        Some(k) => if type_tag(c) == cJSON_NULL {
            match object_index(t, k, cs) {
                Some(j) => with_children(t, t.child.remove(j)),
                None => t,
            }
        } else {
            match object_index(t, k, cs) {
                Some(j) => appended(
                    with_children(t, t.child.remove(j)),
                    keyed(merge(Some(t.child[j]), c, cs), k, false),
                ),
                None => appended(t, keyed(merge(None, c, cs), k, false)),
            }
        },
    }
}

proof fn lemma_merge_members_unfold(t: JsonValue, p: JsonValue, i: int, cs: bool)
    requires
        0 <= i < p.child.len(),
    ensures
        merge_members(t, p, i, cs) == merge_members(merge_step(t, p.child[i], cs), p, i + 1, cs),
{
}

proof fn lemma_key_match_eq(x: JsonValue, k: Seq<u8>, cs: bool)
    requires
        x.string is Some,
    ensures
        crate::patch::key_match(k, cs)(x) == crate::keys::key_eq(x.string->0, k, cs),
{
}

proof fn lemma_filter_ext(s: Seq<JsonValue>, p: spec_fn(JsonValue) -> bool, q: spec_fn(JsonValue) -> bool)
    requires
        forall|j: int| 0 <= j < s.len() ==> p(#[trigger] s[j]) == q(s[j]),
    ensures
        s.filter(p) == s.filter(q),
    decreases s.len(),
{
    reveal(Seq::filter);
    if s.len() > 0 {
        assert(p(s[s.len() - 1]) == q(s[s.len() - 1]));
        lemma_filter_ext(s.drop_last(), p, q);
    }
}

/// A step keeps the keys unique, gives the step's key what the merge puts
/// there and leaves every key that does not compare equal to it alone.
proof fn lemma_merge_step(t: JsonValue, c: JsonValue, cs: bool)
    requires
        unique_keys(t.child, cs),
        c.string is Some,
    ensures
        unique_keys(merge_step(t, c, cs).child, cs),
        merge_step(t, c, cs).child.filter(crate::patch::key_match(c.string->0, cs)) == merged_under(
            t,
            c,
            cs,
        ),
        forall|k: Seq<u8>|
            !crate::keys::key_eq(c.string->0, k, cs) ==> #[trigger] merge_step(
                t,
                c,
                cs,
            ).child.filter(crate::patch::key_match(k, cs)) == t.child.filter(
                crate::patch::key_match(k, cs),
            ),
{
    let kc = c.string->0;
    let s = t.child;
    let mc = crate::patch::key_match(kc, cs);
    let stop = |x: JsonValue| crate::tree::member_stop(x, kc, cs);
    crate::types::lemma_first_index_bounds(s, stop);
    assert(s.filter(mc).len() <= 1);
    // The base: `t` without its member under `kc`.
    let base = match object_index(t, kc, cs) {
        Some(j) => with_children(t, s.remove(j)),
        None => t,
    };
    let old = match object_index(t, kc, cs) {
        Some(j) => Some(s[j]),
        None => None,
    };
    match object_index(t, kc, cs) {
        Some(j) => {
            crate::patch::lemma_filter_split(s, j, mc);
            assert(mc(s[j]));
            assert(s.take(j).filter(mc).len() == 0);
            assert(s.skip(j + 1).filter(mc).len() == 0);
            assert(s.filter(mc) =~= seq![s[j]]);
            assert(base.child.filter(mc) =~= Seq::<JsonValue>::empty());
            assert forall|k: Seq<u8>| !crate::keys::key_eq(kc, k, cs) implies base.child.filter(
                crate::patch::key_match(k, cs),
            ) == s.filter(crate::patch::key_match(k, cs)) by {
                let mk = crate::patch::key_match(k, cs);
                crate::patch::lemma_filter_split(s, j, mk);
                lemma_key_match_eq(s[j], k, cs);
                lemma_key_match_eq(s[j], kc, cs);
                assert(!mk(s[j]));
                assert(s.filter(mk) =~= s.take(j).filter(mk) + s.skip(j + 1).filter(mk));
            }
        },
        None => {
            let f = crate::types::first_index(s, stop);
            if f < s.len() {
                assert(s[f].string is Some);
                assert(false);
            }
            assert forall|j: int| 0 <= j < s.len() implies !mc(#[trigger] s[j]) by {
                assert(!stop(s[j]));
            }
            crate::patch::lemma_filter_none_match(s, mc);
        },
    }
    assert(member_under(t, kc, cs) == old);
    assert(crate::sort::keys_present(base.child)) by {
        match object_index(t, kc, cs) {
            Some(j) => {
                assert forall|i: int| 0 <= i < base.child.len() implies (
                #[trigger] base.child[i]).string is Some by {
                    if i < j {
                        assert(base.child[i] == s[i]);
                    } else {
                        assert(base.child[i] == s[i + 1]);
                    }
                }
            },
            None => {},
        }
    }
    let r = merge_step(t, c, cs);
    if type_tag(c) == cJSON_NULL {
        assert(r == base);
    } else {
        let nv = keyed(merge(old, c, cs), kc, false);
        assert(r == appended(base, nv));
        crate::patch::lemma_filter_push(base.child, nv, mc);
        lemma_key_match_eq(nv, kc, cs);
        assert(r.child.filter(mc) =~= seq![nv]);
        assert forall|k: Seq<u8>| !crate::keys::key_eq(kc, k, cs) implies #[trigger] r.child.filter(
            crate::patch::key_match(k, cs),
        ) == s.filter(crate::patch::key_match(k, cs)) by {
            crate::patch::lemma_filter_push(base.child, nv, crate::patch::key_match(k, cs));
            lemma_key_match_eq(nv, k, cs);
            assert(r.child.filter(crate::patch::key_match(k, cs)) =~= base.child.filter(
                crate::patch::key_match(k, cs),
            ));
        }
        assert forall|i: int| 0 <= i < r.child.len() implies (#[trigger] r.child[i]).string is Some by {
            if i < base.child.len() {
                assert(r.child[i] == base.child[i]);
            }
        }
    }
    // The keys stay unique.
    assert forall|k: Seq<u8>| (#[trigger] r.child.filter(crate::patch::key_match(k, cs))).len()
        <= 1 by {
        if crate::keys::key_eq(kc, k, cs) {
            assert forall|j: int| 0 <= j < r.child.len() implies crate::patch::key_match(k, cs)(
                #[trigger] r.child[j],
            ) == mc(r.child[j]) by {
                lemma_key_match_eq(r.child[j], k, cs);
                lemma_key_match_eq(r.child[j], kc, cs);
            }
            lemma_filter_ext(r.child, crate::patch::key_match(k, cs), mc);
        } else {
            assert(s.filter(crate::patch::key_match(k, cs)).len() <= 1);
        }
    }
}

} // verus!

verus! {

proof fn lemma_merge_members_keys(t: JsonValue, p: JsonValue, i: int, cs: bool)
    requires
        unique_keys(t.child, cs),
        distinct_patch_keys(p, cs),
        0 <= i <= p.child.len(),
    ensures
        unique_keys(merge_members(t, p, i, cs).child, cs),
        forall|k: Seq<u8>|
            (forall|m: int|
                i <= m < p.child.len() ==> !crate::keys::key_eq(
                    (#[trigger] p.child[m]).string->0,
                    k,
                    cs,
                )) ==> #[trigger] merge_members(t, p, i, cs).child.filter(
                crate::patch::key_match(k, cs),
            ) == t.child.filter(crate::patch::key_match(k, cs)),
        forall|m: int|
            i <= m < p.child.len() ==> merge_members(t, p, i, cs).child.filter(
                crate::patch::key_match((#[trigger] p.child[m]).string->0, cs),
            ) == merged_under(t, p.child[m], cs),
    decreases p.child.len() - i,
{
    if i < p.child.len() {
        let c = p.child[i];
        assert(c.string is Some);
        let t1 = merge_step(t, c, cs);
        lemma_merge_members_unfold(t, p, i, cs);
        lemma_merge_step(t, c, cs);
        lemma_merge_members_keys(t1, p, i + 1, cs);
        let r = merge_members(t, p, i, cs);
        let ki = c.string->0;
        assert forall|k: Seq<u8>|
            (forall|m: int|
                i <= m < p.child.len() ==> !crate::keys::key_eq(
                    (#[trigger] p.child[m]).string->0,
                    k,
                    cs,
                )) implies #[trigger] r.child.filter(crate::patch::key_match(k, cs))
            == t.child.filter(crate::patch::key_match(k, cs)) by {
            assert(!crate::keys::key_eq(p.child[i].string->0, k, cs));
            assert forall|m: int| i + 1 <= m < p.child.len() implies !crate::keys::key_eq(
                (#[trigger] p.child[m]).string->0,
                k,
                cs,
            ) by {}
            assert(t1.child.filter(crate::patch::key_match(k, cs)) == t.child.filter(
                crate::patch::key_match(k, cs),
            ));
        }
        assert forall|m: int| i <= m < p.child.len() implies r.child.filter(
            crate::patch::key_match((#[trigger] p.child[m]).string->0, cs),
        ) == merged_under(t, p.child[m], cs) by {
            let km = p.child[m].string->0;
            if m == i {
                assert forall|m2: int| i + 1 <= m2 < p.child.len() implies !crate::keys::key_eq(
                    (#[trigger] p.child[m2]).string->0,
                    ki,
                    cs,
                ) by {
                    assert(!crate::keys::key_eq(p.child[i].string->0, p.child[m2].string->0, cs));
                }
            } else {
                assert(p.child[m].string is Some);
                assert(!crate::keys::key_eq(ki, km, cs));
                assert(t1.child.filter(crate::patch::key_match(km, cs)) == t.child.filter(
                    crate::patch::key_match(km, cs),
                ));
                assert(member_under(t1, km, cs) == member_under(t, km, cs));
            }
        }
    }
}

/// Merging an object patch whose members have keys, no two comparing
/// equal, into a target whose keys are unique (or that is not an object,
/// and so stands for an empty object): under the key of each patch member
/// the result holds nothing when the member is `null`, and else exactly
/// one member, under that key, that is the patch member merged into what
/// the target held there; under every key that no patch member names the
/// result holds what the target held.
pub proof fn lemma_merge_keys(target: JsonValue, patch: JsonValue, cs: bool)
    requires
        type_tag(patch) == cJSON_Object,
        distinct_patch_keys(patch, cs),
        type_tag(target) == cJSON_Object ==> unique_keys(target.child, cs),
    ensures
        ({
            let base = if type_tag(target) == cJSON_Object {
                target
            } else {
                fresh(cJSON_Object)
            };
            let r = merge(Some(target), patch, cs);
            &&& forall|m: int|
                0 <= m < patch.child.len() ==> r.child.filter(
                    crate::patch::key_match((#[trigger] patch.child[m]).string->0, cs),
                ) == merged_under(base, patch.child[m], cs)
            &&& forall|k: Seq<u8>|
                (forall|m: int|
                    0 <= m < patch.child.len() ==> !crate::keys::key_eq(
                        (#[trigger] patch.child[m]).string->0,
                        k,
                        cs,
                    )) ==> #[trigger] r.child.filter(crate::patch::key_match(k, cs))
                    == base.child.filter(crate::patch::key_match(k, cs))
        }),
{
    let base = if type_tag(target) == cJSON_Object {
        target
    } else {
        fresh(cJSON_Object)
    };
    if type_tag(target) != cJSON_Object {
        assert forall|k: Seq<u8>| (#[trigger] base.child.filter(crate::patch::key_match(k, cs))).len()
            <= 1 by {
            crate::patch::lemma_filter_none_match(base.child, crate::patch::key_match(k, cs));
        }
    }
    lemma_merge_members_keys(base, patch, 0, cs);
}

} // verus!
