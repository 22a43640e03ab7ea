//! Small verified helpers over byte vectors.

use vstd::prelude::*;

verus! {

/// ASCII upper-case letters fold to lower case; every other byte is unchanged.
pub open spec fn to_lower(b: u8) -> u8 {
    if 65 <= b && b <= 90 {
        (b + 32) as u8
    } else {
        b
    }
}

/// Case-folded image of a byte sequence.
pub open spec fn to_lower_seq(s: Seq<u8>) -> Seq<u8> {
    s.map(|_i: int, b: u8| to_lower(b))
}

/// Case-folds one byte.
pub fn lower_byte(b: u8) -> (r: u8)
    ensures
        r == to_lower(b),
{
    if 65 <= b && b <= 90 {
        b + 32
    } else {
        b
    }
}

/// Compares two byte vectors after case-folding the first one.
pub fn lower_eq(a: &Vec<u8>, b: &Vec<u8>) -> (r: bool)
    ensures
        r == (to_lower_seq(a@) == b@),
{
    if a.len() != b.len() {
        proof {
            assert(to_lower_seq(a@).len() == a@.len());
        }
        return false;
    }
    let mut i: usize = 0;
    while i < a.len()
        invariant
            a@.len() == b@.len(),
            i <= a.len(),
            forall|j: int| 0 <= j < i ==> to_lower_seq(a@)[j] == b@[j],
        decreases a.len() - i,
    {
        if lower_byte(a[i]) != b[i] {
            proof {
                assert(to_lower_seq(a@)[i as int] != b@[i as int]);
            }
            return false;
        }
        i = i + 1;
    }
    proof {
        assert(to_lower_seq(a@) =~= b@);
    }
    true
}

/// Copies the range `[a, b)` of a byte vector.
pub fn subvec(v: &Vec<u8>, a: usize, b: usize) -> (r: Vec<u8>)
    requires
        a <= b,
        b <= v@.len(),
    ensures
        r@ == v@.subrange(a as int, b as int),
{
    let mut r: Vec<u8> = Vec::new();
    let mut i: usize = a;
    while i < b
        invariant
            a <= i <= b,
            b <= v@.len(),
            r@ == v@.subrange(a as int, i as int),
        decreases b - i,
    {
        r.push(v[i]);
        i = i + 1;
        proof {
            assert(r@ =~= v@.subrange(a as int, i as int));
        }
    }
    r
}

} // verus!
