use vstd::prelude::*;

verus! {

/// ASCII lower case of a byte.
pub open spec fn lower(b: u8) -> u8 {
    if 65 <= b <= 90 {
        (b + 32) as u8
    } else {
        b
    }
}

pub open spec fn lower_seq(s: Seq<u8>) -> Seq<u8> {
    Seq::new(s.len(), |i: int| lower(s[i]))
}

/// Whether two keys are the same, comparing ASCII letters without regard to
/// case unless `case_sensitive`.
pub open spec fn key_eq(a: Seq<u8>, b: Seq<u8>, case_sensitive: bool) -> bool {
    if case_sensitive {
        a == b
    } else {
        lower_seq(a) == lower_seq(b)
    }
}

pub fn to_lower(b: u8) -> (r: u8)
    ensures
        r == lower(b),
{
    if 65 <= b && b <= 90 {
        b + 32
    } else {
        b
    }
}

/// Compares two keys, ignoring ASCII case unless `case_sensitive`.
pub fn keys_equal(a: &[u8], b: &[u8], case_sensitive: bool) -> (r: bool)
    ensures
        r == key_eq(a@, b@, case_sensitive),
{
    if a.len() != b.len() {
        proof {
            if !case_sensitive {
                assert(lower_seq(a@).len() != lower_seq(b@).len());
            }
        }
        return false;
    }
    let mut i: usize = 0;
    while i < a.len()
        invariant
            a.len() == b.len(),
            i <= a.len(),
            forall|j: int|
                0 <= j < i ==> (if case_sensitive {
                    a@[j] == b@[j]
                } else {
                    lower(a@[j]) == lower(b@[j])
                }),
        decreases a.len() - i,
    {
        let x = a[i];
        let y = b[i];
        let same = if case_sensitive {
            x == y
        } else {
            to_lower(x) == to_lower(y)
        };
        if !same {
            proof {
                if case_sensitive {
                    assert(a@[i as int] != b@[i as int]);
                } else {
                    assert(lower_seq(a@)[i as int] != lower_seq(b@)[i as int]);
                }
            }
            return false;
        }
        i = i + 1;
    }
    proof {
        if case_sensitive {
            assert(a@ =~= b@);
        } else {
            assert(lower_seq(a@) =~= lower_seq(b@));
        }
    }
    true
}

/// Three-way comparison of C strings as `strcmp` (or its ASCII
/// case-insensitive form) gives it: the sign of the first differing byte, a
/// missing byte counting as the terminating zero.
pub open spec fn byte_at(s: Seq<u8>, i: int) -> u8 {
    if 0 <= i < s.len() {
        s[i]
    } else {
        0
    }
}

pub open spec fn fold(b: u8, case_sensitive: bool) -> u8 {
    if case_sensitive {
        b
    } else {
        lower(b)
    }
}

/// The result of comparing `a` and `b` from position `i` on.
pub open spec fn compare_from(a: Seq<u8>, b: Seq<u8>, case_sensitive: bool, i: int) -> int
    decreases a.len() + b.len() + 1 - i,
{
    let l = fold(byte_at(a, i), case_sensitive);
    let r = fold(byte_at(b, i), case_sensitive);
    if l != r {
        l - r
    } else if byte_at(a, i) == 0 && byte_at(b, i) == 0 {
        0
    } else if i >= a.len() && i >= b.len() {
        0
    } else {
        compare_from(a, b, case_sensitive, i + 1)
    }
}

pub open spec fn compare_keys(a: Seq<u8>, b: Seq<u8>, case_sensitive: bool) -> int {
    compare_from(a, b, case_sensitive, 0)
}

/// Compares two byte strings as C strings: negative, zero or positive.
pub fn compare_bytes(left: &[u8], right: &[u8], case_sensitive: bool) -> (r: i32)
    ensures
        r == compare_keys(left@, right@, case_sensitive),
{
    let mut index: usize = 0;
    loop
        invariant
            index <= left.len() + right.len() + 1,
            compare_keys(left@, right@, case_sensitive) == compare_from(
                left@,
                right@,
                case_sensitive,
                index as int,
            ),
        decreases left.len() + right.len() + 1 - index,
    {
        let left_byte: u8 = if index < left.len() {
            left[index]
        } else {
            0
        };
        let right_byte: u8 = if index < right.len() {
            right[index]
        } else {
            0
        };
        let lhs: u8 = if case_sensitive {
            left_byte
        } else {
            to_lower(left_byte)
        };
        let rhs: u8 = if case_sensitive {
            right_byte
        } else {
            to_lower(right_byte)
        };
        if lhs != rhs {
            return lhs as i32 - rhs as i32;
        }
        if left_byte == 0 && right_byte == 0 {
            return 0;
        }
        if index >= left.len() && index >= right.len() {
            return 0;
        }
        index = index + 1;
    }
}

/// Compares two C strings as `strcmp` does, ASCII letters without regard to
/// case.
pub fn case_insensitive_strcmp(string1: &[u8], string2: &[u8]) -> (r: i32)
    ensures
        r == compare_keys(string1@, string2@, false),
{
    compare_bytes(string1, string2, false)
}

} // verus!

verus! {

pub proof fn lemma_lower_zero(b: u8)
    ensures
        (lower(b) == 0) == (b == 0),
{
}

/// Comparing `b` with `a` gives the opposite of comparing `a` with `b`.
pub proof fn lemma_compare_from_antisymmetric(a: Seq<u8>, b: Seq<u8>, cs: bool, i: int)
    ensures
        compare_from(b, a, cs, i) == -compare_from(a, b, cs, i),
    decreases a.len() + b.len() + 1 - i,
{
    let l = fold(byte_at(a, i), cs);
    let r = fold(byte_at(b, i), cs);
    if l == r && !(byte_at(a, i) == 0 && byte_at(b, i) == 0) && !(i >= a.len() && i >= b.len()) {
        lemma_compare_from_antisymmetric(a, b, cs, i + 1);
    }
}

/// Every string compares equal to itself.
pub proof fn lemma_compare_from_reflexive(a: Seq<u8>, cs: bool, i: int)
    ensures
        compare_from(a, a, cs, i) == 0,
    decreases a.len() + a.len() + 1 - i,
{
    if !(byte_at(a, i) == 0) && !(i >= a.len()) {
        lemma_compare_from_reflexive(a, cs, i + 1);
    }
}

/// The comparison orders strings transitively.
pub proof fn lemma_compare_from_transitive(a: Seq<u8>, b: Seq<u8>, c: Seq<u8>, cs: bool, i: int)
    requires
        compare_from(a, b, cs, i) <= 0,
        compare_from(b, c, cs, i) <= 0,
    ensures
        compare_from(a, c, cs, i) <= 0,
    decreases a.len() + b.len() + 1 - i,
{
    let x = fold(byte_at(a, i), cs);
    let y = fold(byte_at(b, i), cs);
    let z = fold(byte_at(c, i), cs);
    lemma_lower_zero(byte_at(a, i));
    lemma_lower_zero(byte_at(b, i));
    lemma_lower_zero(byte_at(c, i));
    if x == y && y == z {
        let ab_stops = (byte_at(a, i) == 0 && byte_at(b, i) == 0) || (i >= a.len() && i >= b.len());
        if !ab_stops {
            lemma_compare_from_transitive(a, b, c, cs, i + 1);
        }
    }
}

} // verus!
