use vstd::prelude::*;
use crate::keys::byte_at;

verus! {

/// The position after a `//` comment whose text starts at `i`: after its
/// new line, or at the end of the text.
pub open spec fn line_comment_end(s: Seq<u8>, i: int) -> int
    decreases s.len() + 1 - i,
{
    if i < 0 || i > s.len() || byte_at(s, i) == 0 {
        i
    } else if byte_at(s, i) == 10 {
        i + 1
    } else {
        line_comment_end(s, i + 1)
    }
}

/// The position after a `/* */` comment whose text starts at `i`.
pub open spec fn block_comment_end(s: Seq<u8>, i: int) -> int
    decreases s.len() + 1 - i,
{
    if i < 0 || i > s.len() || byte_at(s, i) == 0 {
        i
    } else if byte_at(s, i) == 42 && byte_at(s, i + 1) == 47 {
        i + 2
    } else {
        block_comment_end(s, i + 1)
    }
}

/// Copies the rest of a string literal whose body starts at `i`; a
/// backslash keeps the quote after it in the string.
pub open spec fn copy_string(s: Seq<u8>, i: int, out: Seq<u8>) -> (int, Seq<u8>)
    decreases s.len() + 1 - i,
{
    if i < 0 || i > s.len() || byte_at(s, i) == 0 {
        (i, out)
    } else if byte_at(s, i) == 34 {
        (i + 1, out.push(34))
    } else if byte_at(s, i) == 92 && byte_at(s, i + 1) == 34 {
        copy_string(s, i + 2, out.push(92).push(34))
    } else {
        copy_string(s, i + 1, out.push(byte_at(s, i)))
    }
}

/// The text of the C string `s` from `i` on, with white space and comments
/// left out and string literals copied as they stand, appended to `out`.
pub open spec fn spec_minify(s: Seq<u8>, i: int, out: Seq<u8>) -> Seq<u8>
    decreases s.len() + 3 - i,
{
    let c = byte_at(s, i);
    if i < 0 || i > s.len() || c == 0 {
        out
    } else if c == 32 || c == 9 || c == 13 || c == 10 {
        spec_minify(s, i + 1, out)
    } else if c == 47 {
        let next = byte_at(s, i + 1);
        let j = if next == 47 {
            line_comment_end(s, i + 2)
        } else if next == 42 {
            block_comment_end(s, i + 2)
        } else {
            i + 1
        };
        if j <= i || j > s.len() + 2 {
            out
        } else {
            spec_minify(s, j, out)
        }
    } else if c == 34 {
        let (j, out2) = copy_string(s, i + 1, out.push(34));
        if j <= i || j > s.len() + 2 {
            out
        } else {
            spec_minify(s, j, out2)
        }
    } else {
        spec_minify(s, i + 1, out.push(c))
    }
}

fn at_byte(s: &[u8], i: usize) -> (r: u8)
    ensures
        r == byte_at(s@, i as int),
{
    if i < s.len() {
        s[i]
    } else {
        0
    }
}

pub proof fn lemma_line_comment_end(s: Seq<u8>, i: int)
    requires
        0 <= i <= s.len() + 1,
    ensures
        i <= line_comment_end(s, i) <= s.len() + 1,
    decreases s.len() + 1 - i,
{
    if !(i < 0 || i > s.len() || byte_at(s, i) == 0) && byte_at(s, i) != 10 {
        lemma_line_comment_end(s, i + 1);
    }
}

pub proof fn lemma_block_comment_end(s: Seq<u8>, i: int)
    requires
        0 <= i <= s.len() + 1,
    ensures
        i <= block_comment_end(s, i) <= s.len() + 2,
    decreases s.len() + 1 - i,
{
    if !(i < 0 || i > s.len() || byte_at(s, i) == 0) && !(byte_at(s, i) == 42 && byte_at(
        s,
        i + 1,
    ) == 47) {
        lemma_block_comment_end(s, i + 1);
    }
}

fn skip_oneline_comment(s: &[u8], i: usize) -> (r: usize)
    requires
        i <= s@.len() + 1,
    ensures
        r == line_comment_end(s@, i as int),
        i <= r <= s@.len() + 1,
{
    proof {
        lemma_line_comment_end(s@, i as int);
    }
    let mut j = i;
    while j <= s.len() && at_byte(s, j) != 0 && at_byte(s, j) != 10
        invariant
            i <= j <= s@.len() + 1,
            line_comment_end(s@, i as int) == line_comment_end(s@, j as int),
        decreases s@.len() + 1 - j,
    {
        j = j + 1;
    }
    if j <= s.len() && at_byte(s, j) == 10 {
        j + 1
    } else {
        j
    }
}

fn skip_multiline_comment(s: &[u8], i: usize) -> (r: usize)
    requires
        i <= s@.len() + 1,
    ensures
        r == block_comment_end(s@, i as int),
        i <= r <= s@.len() + 2,
{
    proof {
        lemma_block_comment_end(s@, i as int);
    }
    let mut j = i;
    while j <= s.len() && at_byte(s, j) != 0 && !(at_byte(s, j) == 42 && at_byte(s, j + 1) == 47)
        invariant
            i <= j <= s@.len() + 1,
            block_comment_end(s@, i as int) == block_comment_end(s@, j as int),
        decreases s@.len() + 1 - j,
    {
        j = j + 1;
    }
    if j <= s.len() && at_byte(s, j) != 0 {
        j + 2
    } else {
        j
    }
}

fn minify_string(s: &[u8], i: usize, out: &mut Vec<u8>) -> (r: usize)
    requires
        i <= s@.len() + 1,
    ensures
        (r as int, final(out)@) == copy_string(s@, i as int, old(out)@),
        i <= r <= s@.len() + 2,
{
    let mut j = i;
    while j <= s.len() && at_byte(s, j) != 0
        invariant
            i <= j <= s@.len() + 2,
            copy_string(s@, i as int, old(out)@) == copy_string(s@, j as int, out@),
        decreases s@.len() + 2 - j,
    {
        let b = s[j];
        if b == 34 {
            out.push(34u8);
            return j + 1;
        }
        if b == 92 && at_byte(s, j + 1) == 34 {
            out.push(92u8);
            out.push(34u8);
            j = j + 2;
        } else {
            out.push(b);
            j = j + 1;
        }
    }
    j
}

/// Removes white space and comments from the JSON text held by the C
/// string `json`, keeping string literals as they stand.
pub fn cJSON_Minify(json: &mut Vec<u8>)
    ensures
        final(json)@ == spec_minify(old(json)@, 0, Seq::empty()),
{
    let s = crate::types::copy_bytes(json.as_slice());
    let len = s.len();
    let mut out: Vec<u8> = Vec::new();
    let mut i: usize = 0;
    while i <= len && at_byte(s.as_slice(), i) != 0
        invariant
            len == s@.len(),
            i <= len + 2,
            spec_minify(s@, 0, Seq::empty()) == spec_minify(s@, i as int, out@),
        decreases len + 2 - i,
    {
        let c = s[i];
        if c == 32 || c == 9 || c == 13 || c == 10 {
            i = i + 1;
        } else if c == 47 {
            let next = at_byte(s.as_slice(), i + 1);
            if next == 47 {
                i = skip_oneline_comment(s.as_slice(), i + 2);
            } else if next == 42 {
                i = skip_multiline_comment(s.as_slice(), i + 2);
            } else {
                i = i + 1;
            }
        } else if c == 34 {
            out.push(34u8);
            i = minify_string(s.as_slice(), i + 1, &mut out);
        } else {
            out.push(c);
            i = i + 1;
        }
    }
    *json = out;
}

} // verus!

verus! {

/// What copying a string literal writes does not depend on what was
/// written before it.
proof fn lemma_copy_out(s: Seq<u8>, x: int, o: Seq<u8>)
    requires
        0 <= x,
    ensures
        copy_string(s, x, o).0 == copy_string(s, x, Seq::empty()).0,
        copy_string(s, x, o).1 == o + copy_string(s, x, Seq::empty()).1,
    decreases s.len() + 1 - x,
{
    let e = Seq::<u8>::empty();
    if x > s.len() || byte_at(s, x) == 0 {
        assert(o + e =~= o);
    } else if byte_at(s, x) == 34 {
        assert(o.push(34) =~= o + e.push(34));
    } else if byte_at(s, x) == 92 && byte_at(s, x + 1) == 34 {
        lemma_copy_out(s, x + 2, o.push(92).push(34));
        lemma_copy_out(s, x + 2, e.push(92).push(34));
        let r = copy_string(s, x + 2, e).1;
        assert(o.push(92).push(34) + r =~= o + (e.push(92).push(34) + r));
    } else {
        let b = byte_at(s, x);
        lemma_copy_out(s, x + 1, o.push(b));
        lemma_copy_out(s, x + 1, e.push(b));
        let r = copy_string(s, x + 1, e).1;
        assert(o.push(b) + r =~= o + (e.push(b) + r));
    }
}

/// Copying a string literal copies the bytes it passes over and stops
/// within the text.
proof fn lemma_copy_sub(s: Seq<u8>, x: int, o: Seq<u8>)
    requires
        0 <= x <= s.len(),
    ensures
        x <= copy_string(s, x, o).0 <= s.len(),
        copy_string(s, x, o).1 == o + s.subrange(x, copy_string(s, x, o).0),
    decreases s.len() + 1 - x,
{
    if byte_at(s, x) == 0 {
        assert(o + s.subrange(x, x) =~= o);
    } else if byte_at(s, x) == 34 {
        assert(o.push(34) =~= o + s.subrange(x, x + 1));
    } else if byte_at(s, x) == 92 && byte_at(s, x + 1) == 34 {
        lemma_copy_sub(s, x + 2, o.push(92).push(34));
        let j = copy_string(s, x + 2, o.push(92).push(34)).0;
        assert(o.push(92).push(34) + s.subrange(x + 2, j) =~= o + s.subrange(x, j));
    } else {
        let b = byte_at(s, x);
        lemma_copy_sub(s, x + 1, o.push(b));
        let j = copy_string(s, x + 1, o.push(b)).0;
        assert(o.push(b) + s.subrange(x + 1, j) =~= o + s.subrange(x, j));
    }
}

/// Copying a string literal stops where it starts only at the end of the
/// text.
proof fn lemma_copy_stop(s: Seq<u8>, x: int, o: Seq<u8>)
    requires
        0 <= x <= s.len(),
    ensures
        copy_string(s, x, o).0 == x ==> byte_at(s, x) == 0,
{
    if byte_at(s, x) != 0 && byte_at(s, x) != 34 {
        if byte_at(s, x) == 92 && byte_at(s, x + 1) == 34 {
            lemma_copy_sub(s, x + 2, o.push(92).push(34));
        } else {
            lemma_copy_sub(s, x + 1, o.push(byte_at(s, x)));
        }
    }
}

/// Copying a string literal from `y` in `t` does what it did from `x` in
/// `s` when `t` holds there the bytes that it passed over in `s`, and ends
/// there too when the copy in `s` ran to the end of the text.
proof fn lemma_copy_replay(s: Seq<u8>, x: int, o: Seq<u8>, t: Seq<u8>, y: int)
    requires
        0 <= x <= s.len(),
        0 <= y,
        forall|k: int|
            0 <= k < copy_string(s, x, o).0 - x ==> byte_at(t, y + k) == #[trigger] byte_at(
                s,
                x + k,
            ),
        byte_at(s, copy_string(s, x, o).0) == 0 ==> byte_at(t, y + copy_string(s, x, o).0 - x)
            == 0,
    ensures
        copy_string(t, y, o) == (y + copy_string(s, x, o).0 - x, copy_string(s, x, o).1),
    decreases s.len() + 1 - x,
{
    lemma_copy_sub(s, x, o);
    let j = copy_string(s, x, o).0;
    if byte_at(s, x) == 0 {
    } else if byte_at(s, x) == 34 {
        assert(byte_at(t, y + 0) == byte_at(s, x + 0));
    } else if byte_at(s, x) == 92 && byte_at(s, x + 1) == 34 {
        lemma_copy_sub(s, x + 2, o.push(92).push(34));
        assert(byte_at(t, y + 0) == byte_at(s, x + 0));
        assert(byte_at(t, y + 1) == byte_at(s, x + 1));
        assert forall|k: int| 0 <= k < j - (x + 2) implies byte_at(t, (y + 2) + k)
            == #[trigger] byte_at(s, (x + 2) + k) by {
            assert(byte_at(t, y + (k + 2)) == byte_at(s, x + (k + 2)));
        }
        lemma_copy_replay(s, x + 2, o.push(92).push(34), t, y + 2);
    } else {
        let b = byte_at(s, x);
        lemma_copy_sub(s, x + 1, o.push(b));
        assert(byte_at(t, y + 0) == byte_at(s, x + 0));
        if b == 92 {
            if x + 1 < j {
                assert(byte_at(t, y + 1) == byte_at(s, x + 1));
            } else {
                lemma_copy_stop(s, x + 1, o.push(b));
            }
        }
        assert forall|k: int| 0 <= k < j - (x + 1) implies byte_at(t, (y + 1) + k)
            == #[trigger] byte_at(s, (x + 1) + k) by {
            assert(byte_at(t, y + (k + 1)) == byte_at(s, x + (k + 1)));
        }
        lemma_copy_replay(s, x + 1, o.push(b), t, y + 1);
    }
}

/// What minifying writes does not depend on what was written before it.
proof fn lemma_minify_out(s: Seq<u8>, i: int, out: Seq<u8>)
    requires
        0 <= i,
    ensures
        spec_minify(s, i, out) == out + spec_minify(s, i, Seq::empty()),
    decreases s.len() + 3 - i,
{
    let e = Seq::<u8>::empty();
    let c = byte_at(s, i);
    if i > s.len() || c == 0 {
        assert(out + e =~= out);
    } else if c == 32 || c == 9 || c == 13 || c == 10 {
        lemma_minify_out(s, i + 1, out);
    } else if c == 47 {
        let next = byte_at(s, i + 1);
        let j = if next == 47 {
            line_comment_end(s, i + 2)
        } else if next == 42 {
            block_comment_end(s, i + 2)
        } else {
            i + 1
        };
        if j <= i || j > s.len() + 2 {
            assert(out + e =~= out);
        } else {
            lemma_minify_out(s, j, out);
        }
    } else if c == 34 {
        lemma_copy_out(s, i + 1, out.push(34));
        lemma_copy_out(s, i + 1, e.push(34));
        let (j, w) = copy_string(s, i + 1, e);
        if j <= i || j > s.len() + 2 {
            assert(out + e =~= out);
        } else {
            lemma_minify_out(s, j, out.push(34) + w);
            lemma_minify_out(s, j, e.push(34) + w);
            let r = spec_minify(s, j, e);
            assert(out.push(34) + w + r =~= out + (e.push(34) + w + r));
        }
    } else {
        lemma_minify_out(s, i + 1, out.push(c));
        lemma_minify_out(s, i + 1, e.push(c));
        let r = spec_minify(s, i + 1, e);
        assert(out.push(c) + r =~= out + (e.push(c) + r));
    }
}

/// Minifying a text that holds, from `y` on, what minifying `s` from `i`
/// on writes gives that again.
proof fn lemma_minify_again(s: Seq<u8>, i: int, t: Seq<u8>, y: int)
    requires
        0 <= i,
        0 <= y <= t.len(),
        t.subrange(y, t.len() as int) == spec_minify(s, i, Seq::empty()),
    ensures
        spec_minify(t, y, Seq::empty()) == spec_minify(s, i, Seq::empty()),
    decreases s.len() + 3 - i,
{
    let e = Seq::<u8>::empty();
    let r = spec_minify(s, i, e);
    let c = byte_at(s, i);
    if i > s.len() || c == 0 {
        assert(t.subrange(y, t.len() as int).len() == 0);
    } else if c == 32 || c == 9 || c == 13 || c == 10 {
        lemma_minify_again(s, i + 1, t, y);
    } else if c == 47 {
        let next = byte_at(s, i + 1);
        let j = if next == 47 {
            line_comment_end(s, i + 2)
        } else if next == 42 {
            block_comment_end(s, i + 2)
        } else {
            i + 1
        };
        if j <= i || j > s.len() + 2 {
            assert(t.subrange(y, t.len() as int).len() == 0);
        } else {
            lemma_minify_again(s, j, t, y);
        }
    } else if c == 34 {
        let (j, q) = copy_string(s, i + 1, e.push(34));
        if j <= i || j > s.len() + 2 {
            assert(t.subrange(y, t.len() as int).len() == 0);
        } else {
            lemma_copy_sub(s, i + 1, e.push(34));
            lemma_minify_out(s, j, q);
            let r2 = spec_minify(s, j, e);
            assert(r == q + r2);
            let n = q.len() as int;
            assert(n == j - i);
            assert(t.subrange(y, t.len() as int)[0] == 34);
            assert(byte_at(t, y) == 34);
            assert forall|k: int| 0 <= k < j - (i + 1) implies byte_at(t, (y + 1) + k)
                == #[trigger] byte_at(s, (i + 1) + k) by {
                assert(t.subrange(y, t.len() as int)[1 + k] == q[1 + k]);
                assert(q[1 + k] == s.subrange(i + 1, j)[k]);
            }
            if byte_at(s, j) == 0 {
                assert(r2 =~= e);
                assert(y + n == t.len());
            }
            lemma_copy_replay(s, i + 1, e.push(34), t, y + 1);
            assert(copy_string(t, y + 1, e.push(34)) == (y + n, q));
            assert(t.subrange(y + n, t.len() as int) =~= r2) by {
                assert forall|k: int| 0 <= k < r2.len() implies t.subrange(
                    y + n,
                    t.len() as int,
                )[k] == r2[k] by {
                    assert(t.subrange(y, t.len() as int)[n + k] == r[n + k]);
                }
            }
            lemma_minify_out(t, y + n, q);
            lemma_minify_again(s, j, t, y + n);
        }
    } else {
        lemma_minify_out(s, i + 1, e.push(c));
        let r2 = spec_minify(s, i + 1, e);
        assert(r == e.push(c) + r2);
        assert(t.subrange(y, t.len() as int)[0] == c);
        assert(byte_at(t, y) == c);
        assert(t.subrange(y + 1, t.len() as int) =~= r2) by {
            assert forall|k: int| 0 <= k < r2.len() implies t.subrange(y + 1, t.len() as int)[k]
                == r2[k] by {
                assert(t.subrange(y, t.len() as int)[1 + k] == r[1 + k]);
            }
        }
        lemma_minify_out(t, y + 1, e.push(c));
        lemma_minify_again(s, i + 1, t, y + 1);
        assert(e.push(c) + r2 =~= r);
    }
}

/// Minifying text that was already minified changes nothing.
pub proof fn lemma_minify_idempotent(s: Seq<u8>)
    ensures
        spec_minify(spec_minify(s, 0, Seq::empty()), 0, Seq::empty()) == spec_minify(
            s,
            0,
            Seq::empty(),
        ),
{
    let r = spec_minify(s, 0, Seq::empty());
    assert(r.subrange(0, r.len() as int) =~= r);
    lemma_minify_again(s, 0, r, 0);
}

} // verus!
