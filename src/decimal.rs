//! Decimal text of integers, as used on the wire and in stream IDs.
use vstd::prelude::*;

verus! {

/// The ASCII digit for `d < 10`.
pub open spec fn digit(d: nat) -> u8 {
    (48 + d) as u8
}

pub open spec fn is_digit(b: u8) -> bool {
    48 <= b <= 57
}

/// Canonical decimal text of a natural number (no leading zeros).
pub open spec fn nat_text(n: nat) -> Seq<u8>
    decreases n,
{
    if n < 10 {
        seq![digit(n)]
    } else {
        nat_text(n / 10).push(digit(n % 10))
    }
}

/// Canonical decimal text of an integer, with a leading `-` when negative.
pub open spec fn int_text(i: int) -> Seq<u8> {
    if i < 0 {
        seq![45u8] + nat_text((-i) as nat)
    } else {
        nat_text(i as nat)
    }
}

/// The number that a string of digits denotes.
pub open spec fn digits_value(s: Seq<u8>) -> nat
    decreases s.len(),
{
    if s.len() == 0 {
        0
    } else {
        digits_value(s.drop_last()) * 10 + (s.last() - 48) as nat
    }
}

/// A string of digits without superfluous leading zeros.
pub open spec fn canonical_digits(s: Seq<u8>) -> bool {
    &&& s.len() > 0
    &&& forall|i: int| 0 <= i < s.len() ==> is_digit(#[trigger] s[i])
    &&& (s.len() > 1 ==> s[0] != 48)
}

pub proof fn lemma_nat_text_len(n: nat)
    ensures
        nat_text(n).len() >= 1,
        n < 10 <==> nat_text(n).len() == 1,
    decreases n,
{
    if n >= 10 {
        lemma_nat_text_len(n / 10);
    }
}

/// The text of a number is canonical and denotes that number.
pub proof fn lemma_nat_text_canonical(n: nat)
    ensures
        canonical_digits(nat_text(n)),
        digits_value(nat_text(n)) == n,
    decreases n,
{
    if n >= 10 {
        lemma_nat_text_canonical(n / 10);
        lemma_nat_text_len(n / 10);
        let t = nat_text(n / 10);
        assert(nat_text(n).drop_last() =~= t);
        assert(nat_text(n).last() == digit(n % 10));
        assert(n == (n / 10) * 10 + n % 10);
        assert forall|i: int| 0 <= i < nat_text(n).len() implies is_digit(#[trigger] nat_text(n)[i]) by {
            if i < t.len() {
                assert(nat_text(n)[i] == t[i]);
            }
        }
    } else {
        let s = nat_text(n);
        assert(s.drop_last() =~= Seq::<u8>::empty());
        assert(s.last() == 48 + n);
        assert(digits_value(s.drop_last()) == 0);
        assert(digits_value(s) == digits_value(s.drop_last()) * 10 + (s.last() - 48) as nat);
    }
}

/// A canonical digit string is the text of the number it denotes.
pub proof fn lemma_canonical_is_text(s: Seq<u8>)
    requires
        canonical_digits(s),
    ensures
        nat_text(digits_value(s)) == s,
    decreases s.len(),
{
    if s.len() == 1 {
        assert(nat_text(digits_value(s)) =~= s);
    } else {
        let p = s.drop_last();
        assert(canonical_digits(p)) by {
            assert forall|i: int| 0 <= i < p.len() implies is_digit(#[trigger] p[i]) by {
                assert(p[i] == s[i]);
            }
            if p.len() > 1 {
                assert(p[0] == s[0]);
            }
        }
        lemma_canonical_is_text(p);
        lemma_leading_digit_positive(p);
        let v = digits_value(s);
        let d = (s.last() - 48) as nat;
        assert(is_digit(s[s.len() - 1]));
        assert(v == digits_value(p) * 10 + d);
        assert(v / 10 == digits_value(p) && v % 10 == d) by (nonlinear_arith)
            requires
                v == digits_value(p) * 10 + d,
                d < 10,
        ;
        assert(nat_text(v) =~= s);
    }
}

/// A canonical string of two or more digits denotes a number of at least ten.
pub proof fn lemma_leading_digit_positive(s: Seq<u8>)
    requires
        canonical_digits(s),
    ensures
        s.len() > 1 ==> digits_value(s) >= 10,
        s.len() >= 1 && s[0] != 48 ==> digits_value(s) >= 1,
    decreases s.len(),
{
    if s.len() > 1 {
        let p = s.drop_last();
        assert(p[0] == s[0]);
        assert(canonical_digits(p)) by {
            assert forall|i: int| 0 <= i < p.len() implies is_digit(#[trigger] p[i]) by {
                assert(p[i] == s[i]);
            }
        }
        lemma_leading_digit_positive(p);
    } else if s.len() == 1 {
        assert(is_digit(s[0]));
        assert(s.drop_last().len() == 0);
    }
}

/// The integer that a canonical decimal text denotes: digits without
/// superfluous leading zeros, after an optional `-` (but not `-0`), within
/// the range of `i64`.
pub open spec fn int_of_text(s: Seq<u8>) -> Option<int> {
    if s.len() > 0 && s[0] == 45u8 {
        let d = s.drop_first();
        if canonical_digits(d) && d != seq![48u8] && digits_value(d) <= 9223372036854775808 {
            Some(-(digits_value(d) as int))
        } else {
            None
        }
    } else if canonical_digits(s) && digits_value(s) <= 9223372036854775807 {
        Some(digits_value(s) as int)
    } else {
        None
    }
}

/// The text of an `i64` reads back as that integer.
pub proof fn lemma_int_text_reads_back(i: int)
    requires
        i64::MIN <= i <= i64::MAX,
    ensures
        int_of_text(int_text(i)) == Some(i),
{
    if i < 0 {
        let n = (-i) as nat;
        lemma_nat_text_canonical(n);
        let s = int_text(i);
        assert(s.drop_first() =~= nat_text(n));
        if nat_text(n) == seq![48u8] {
            let z = seq![48u8];
            assert(z.drop_last() =~= Seq::<u8>::empty());
            assert(digits_value(z.drop_last()) == 0);
            assert(z.last() == 48u8);
            assert(digits_value(z) == digits_value(z.drop_last()) * 10 + (z.last() - 48) as nat);
            assert(digits_value(z) == 0);
        }
    } else {
        lemma_nat_text_canonical(i as nat);
        assert(is_digit(nat_text(i as nat)[0]));
    }
}

/// A text that reads as an integer is that integer's text.
pub proof fn lemma_int_of_text_is_text(s: Seq<u8>)
    ensures
        int_of_text(s) matches Some(i) ==> int_text(i) == s && i64::MIN <= i <= i64::MAX,
{
    if let Some(i) = int_of_text(s) {
        if s.len() > 0 && s[0] == 45u8 {
            let d = s.drop_first();
            lemma_canonical_is_text(d);
            lemma_leading_digit_positive(d);
            if d.len() == 1 {
                assert(d[0] != 48u8) by {
                    if d[0] == 48u8 {
                        assert(d =~= seq![48u8]);
                    }
                }
            }
            assert(i < 0);
            assert(int_text(i) =~= s);
        } else {
            lemma_canonical_is_text(s);
        }
    }
}

/// Reads a canonical decimal integer.
pub fn parse_int_text(s: &[u8]) -> (r: Option<i64>)
    ensures
        match int_of_text(s@) {
            Some(i) => r == Some(i as i64),
            None => r is None,
        },
{
    if s.len() > 0 && s[0] == 45u8 {
        let d = &s[1..s.len()];
        proof {
            assert(d@ =~= s@.drop_first());
        }
        match parse_digits(d) {
            None => None,
            Some(v) => {
                if d.len() == 1 && d[0] == 48u8 {
                    proof {
                        assert(d@ =~= seq![48u8]);
                    }
                    None
                } else if v > 9223372036854775808u64 {
                    None
                } else if v == 9223372036854775808u64 {
                    proof {
                        if d@ == seq![48u8] {
                            assert(d@[0] == 48u8);
                        }
                    }
                    Some(i64::MIN)
                } else {
                    proof {
                        if d@ == seq![48u8] {
                            assert(d@[0] == 48u8);
                        }
                    }
                    Some(-(v as i64))
                }
            },
        }
    } else {
        match parse_digits(s) {
            None => None,
            Some(v) => {
                if v > 9223372036854775807u64 {
                    None
                } else {
                    Some(v as i64)
                }
            },
        }
    }
}

/// Reads a canonical run of digits whose value fits in a `u64`.
pub fn parse_digits(s: &[u8]) -> (r: Option<u64>)
    ensures
        match r {
            Some(v) => canonical_digits(s@) && digits_value(s@) == v,
            None => !canonical_digits(s@) || digits_value(s@) > u64::MAX,
        },
{
    if s.len() > 1 && s[0] == 48u8 {
        return None;
    }
    match crate::entry_id::parse_u64(s) {
        None => None,
        Some(v) => Some(v),
    }
}

/// Appends the decimal text of `n` to `out`.
pub fn push_nat(out: &mut Vec<u8>, n: u64)
    ensures
        final(out)@ == old(out)@ + nat_text(n as nat),
    decreases n,
{
    if n >= 10 {
        push_nat(out, n / 10);
    }
    out.push((48 + n % 10) as u8);
    proof {
        assert(old(out)@ + nat_text(n as nat) =~= final(out)@) by {
            if n >= 10 {
                assert(nat_text(n as nat) =~= nat_text((n / 10) as nat).push(digit((n % 10) as nat)));
            }
        }
    }
}

/// Appends the decimal text of `i` to `out`.
pub fn push_int(out: &mut Vec<u8>, i: i64)
    ensures
        final(out)@ == old(out)@ + int_text(i as int),
{
    if i < 0 {
        out.push(45u8);
        let m: u64 = if i == i64::MIN {
            9223372036854775808u64
        } else {
            (-i) as u64
        };
        push_nat(out, m);
        proof {
            assert(final(out)@ =~= old(out)@ + int_text(i as int));
        }
    } else {
        push_nat(out, i as u64);
    }
}

} // verus!
