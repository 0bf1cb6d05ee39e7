//! Byte strings written as ASCII literals.
use vstd::prelude::*;

verus! {

/// The bytes of an ASCII character sequence.
pub open spec fn ascii(s: Seq<char>) -> Seq<u8> {
    Seq::new(s.len(), |i: int| s[i] as u8)
}

/// The bytes of an ASCII string.
pub fn ascii_bytes(s: &str) -> (r: Vec<u8>)
    requires
        s.is_ascii(),
    ensures
        r@ == ascii(s@),
{
    let b = s.as_bytes();
    let mut r: Vec<u8> = Vec::new();
    let mut k: usize = 0;
    while k < b.len()
        invariant
            k <= b@.len(),
            b@ == ascii(s@),
            r@ == b@.subrange(0, k as int),
        decreases b.len() - k,
    {
        r.push(b[k]);
        proof {
            assert(r@ =~= b@.subrange(0, k + 1));
        }
        k = k + 1;
    }
    proof {
        assert(r@ =~= b@);
    }
    r
}

/// ASCII lower case of one byte.
pub open spec fn lower_byte(b: u8) -> u8 {
    if 65 <= b <= 90 {
        (b + 32) as u8
    } else {
        b
    }
}

/// ASCII lower case of a byte string.
pub open spec fn lower(s: Seq<u8>) -> Seq<u8> {
    Seq::new(s.len(), |i: int| lower_byte(s[i]))
}

/// Whether two byte strings are equal ignoring ASCII case.
pub fn eq_ignore_case(a: &[u8], b: &[u8]) -> (r: bool)
    ensures
        r == (lower(a@) == lower(b@)),
{
    if a.len() != b.len() {
        proof {
            assert(lower(a@).len() != lower(b@).len());
        }
        return false;
    }
    let mut k: usize = 0;
    while k < a.len()
        invariant
            a@.len() == b@.len(),
            k <= a.len(),
            forall|i: int| 0 <= i < k ==> lower_byte(a@[i]) == lower_byte(b@[i]),
        decreases a.len() - k,
    {
        let x = if 65 <= a[k] && a[k] <= 90 { a[k] + 32 } else { a[k] };
        let y = if 65 <= b[k] && b[k] <= 90 { b[k] + 32 } else { b[k] };
        if x != y {
            proof {
                assert(lower(a@)[k as int] != lower(b@)[k as int]);
            }
            return false;
        }
        k = k + 1;
    }
    proof {
        assert(lower(a@) =~= lower(b@));
    }
    true
}

} // verus!
