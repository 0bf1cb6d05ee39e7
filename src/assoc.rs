//! Association lists keyed by byte strings, viewed as maps.
use vstd::prelude::*;

verus! {

/// No key occurs twice.
pub open spec fn keys_distinct<V>(s: Seq<(Seq<u8>, V)>) -> bool {
    forall|i: int, j: int| 0 <= i < j < s.len() ==> s[i].0 != s[j].0
}

/// The map that an association list denotes.
pub open spec fn to_map<V>(s: Seq<(Seq<u8>, V)>) -> Map<Seq<u8>, V>
    decreases s.len(),
{
    if s.len() == 0 {
        Map::empty()
    } else {
        to_map(s.drop_last()).insert(s.last().0, s.last().1)
    }
}

pub proof fn lemma_to_map_contains<V>(s: Seq<(Seq<u8>, V)>, k: Seq<u8>)
    ensures
        to_map(s).contains_key(k) <==> exists|i: int| 0 <= i < s.len() && s[i].0 == k,
    decreases s.len(),
{
    if s.len() > 0 {
        let p = s.drop_last();
        lemma_to_map_contains(p, k);
        if to_map(s).contains_key(k) && k != s.last().0 {
            let i = choose|i: int| 0 <= i < p.len() && p[i].0 == k;
            assert(s[i] == p[i]);
        }
        if exists|i: int| 0 <= i < s.len() && s[i].0 == k {
            let i = choose|i: int| 0 <= i < s.len() && s[i].0 == k;
            if i < p.len() {
                assert(p[i] == s[i]);
            }
        }
    }
}

pub proof fn lemma_to_map_index<V>(s: Seq<(Seq<u8>, V)>, i: int)
    requires
        keys_distinct(s),
        0 <= i < s.len(),
    ensures
        to_map(s).contains_key(s[i].0),
        to_map(s)[s[i].0] == s[i].1,
    decreases s.len(),
{
    let p = s.drop_last();
    if i < s.len() - 1 {
        assert(p[i] == s[i]);
        lemma_to_map_index(p, i);
    }
}

pub proof fn lemma_to_map_update<V>(s: Seq<(Seq<u8>, V)>, i: int, v: V)
    requires
        keys_distinct(s),
        0 <= i < s.len(),
    ensures
        keys_distinct(s.update(i, (s[i].0, v))),
        to_map(s.update(i, (s[i].0, v))) == to_map(s).insert(s[i].0, v),
    decreases s.len(),
{
    let t = s.update(i, (s[i].0, v));
    let p = s.drop_last();
    if i == s.len() - 1 {
        assert(t.drop_last() =~= p);
        assert(to_map(t) =~= to_map(s).insert(s[i].0, v));
    } else {
        assert(p[i] == s[i]);
        lemma_to_map_update(p, i, v);
        assert(t.drop_last() =~= p.update(i, (s[i].0, v)));
        assert(to_map(t) =~= to_map(s).insert(s[i].0, v));
    }
}

pub proof fn lemma_to_map_remove<V>(s: Seq<(Seq<u8>, V)>, i: int)
    requires
        keys_distinct(s),
        0 <= i < s.len(),
    ensures
        keys_distinct(s.remove(i)),
        to_map(s.remove(i)) == to_map(s).remove(s[i].0),
    decreases s.len(),
{
    let t = s.remove(i);
    let p = s.drop_last();
    let k = s[i].0;
    if i == s.len() - 1 {
        assert(t =~= p);
        lemma_to_map_contains(p, k);
        assert(!to_map(p).contains_key(k));
        assert(to_map(t) =~= to_map(s).remove(k));
    } else {
        assert(p[i] == s[i]);
        lemma_to_map_remove(p, i);
        assert(t.drop_last() =~= p.remove(i));
        assert(t.last() == s.last());
        assert(to_map(t) =~= to_map(s).remove(k));
    }
}

pub proof fn lemma_to_map_push<V>(s: Seq<(Seq<u8>, V)>, k: Seq<u8>, v: V)
    requires
        keys_distinct(s),
        !to_map(s).contains_key(k),
    ensures
        keys_distinct(s.push((k, v))),
        to_map(s.push((k, v))) == to_map(s).insert(k, v),
{
    lemma_to_map_contains(s, k);
    assert(s.push((k, v)).drop_last() =~= s);
}

/// Whether two byte strings are equal.
pub fn bytes_eq(a: &[u8], b: &[u8]) -> (r: bool)
    ensures
        r == (a@ == b@),
{
    if a.len() != b.len() {
        return false;
    }
    let mut k: usize = 0;
    while k < a.len()
        invariant
            a@.len() == b@.len(),
            k <= a.len(),
            a@.subrange(0, k as int) == b@.subrange(0, k as int),
        decreases a.len() - k,
    {
        if a[k] != b[k] {
            assert(a@[k as int] != b@[k as int]);
            return false;
        }
        proof {
            assert(a@.subrange(0, k + 1) =~= a@.subrange(0, k as int).push(a@[k as int]));
            assert(b@.subrange(0, k + 1) =~= b@.subrange(0, k as int).push(b@[k as int]));
        }
        k = k + 1;
    }
    proof {
        assert(a@ =~= a@.subrange(0, k as int));
        assert(b@ =~= b@.subrange(0, k as int));
    }
    true
}

} // verus!
