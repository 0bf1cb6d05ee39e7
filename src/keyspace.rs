//! The keyspace: byte-string keys mapped to values with optional expiry
//! instants (milliseconds since the Unix epoch), expired lazily on access.
use vstd::prelude::*;
use crate::assoc::{keys_distinct, to_map, lemma_to_map_contains, lemma_to_map_index,
    lemma_to_map_update, lemma_to_map_remove, lemma_to_map_push, bytes_eq};
use crate::glob::{key_matches, GlobMatcher};
use crate::resp::{Value, Resp, copy_bytes};

verus! {

/// What a key holds: its value and its expiry instant, if any.
pub type Stored = (Resp, Option<u64>);

/// A stored value is live at `now` when it has no expiry or the expiry lies ahead.
pub open spec fn live(st: Stored, now: u64) -> bool {
    st.1 is None || now < st.1->0
}

/// The live value under `k` at `now`, if any.
pub open spec fn current(m: Map<Seq<u8>, Stored>, k: Seq<u8>, now: u64) -> Option<Stored> {
    if m.contains_key(k) && live(m[k], now) {
        Some(m[k])
    } else {
        None
    }
}

/// Whether `i + d` fits in an `i64`.
pub open spec fn sum_fits(i: int, d: int) -> bool {
    i64::MIN <= i + d <= i64::MAX
}

/// Whether `k` is one of the byte strings in `r`.
pub open spec fn listed(r: Seq<Vec<u8>>, k: Seq<u8>) -> bool {
    exists|a: int| 0 <= a < r.len() && r[a]@ == k
}

spec fn key_among(s: Seq<(Seq<u8>, Stored)>, n: int, k: Seq<u8>) -> bool {
    exists|j: int| 0 <= j < n && s[j].0 == k
}

spec fn seen(s: Seq<(Seq<u8>, Stored)>, n: int, k: Seq<u8>, p: Seq<u8>, now: u64) -> bool {
    exists|j: int| 0 <= j < n && s[j].0 == k && live(s[j].1, now) && key_matches(p, k)
}

/// One key with its value and expiry.
pub struct KeyEntry {
    pub key: Vec<u8>,
    pub value: Value,
    pub expires_at: Option<u64>,
}

pub open spec fn slot(e: KeyEntry) -> (Seq<u8>, Stored) {
    (e.key@, (e.value@, e.expires_at))
}

/// The keyspace, kept as a list of entries with distinct keys.
pub struct Keyspace {
    entries: Vec<KeyEntry>,
}

impl View for Keyspace {
    type V = Map<Seq<u8>, Stored>;

    closed spec fn view(&self) -> Map<Seq<u8>, Stored> {
        to_map(self.slots())
    }
}

impl Keyspace {
    closed spec fn slots(&self) -> Seq<(Seq<u8>, Stored)> {
        self.entries@.map_values(|e: KeyEntry| slot(e))
    }

    /// The entries' keys are distinct.
    pub closed spec fn wf(&self) -> bool {
        keys_distinct(self.slots())
    }

    /// An empty keyspace.
    pub fn new() -> (r: Keyspace)
        ensures
            r.wf(),
            r@ == Map::<Seq<u8>, Stored>::empty(),
    {
        let r = Keyspace { entries: Vec::new() };
        proof {
            assert(r.slots() =~= Seq::<(Seq<u8>, Stored)>::empty());
        }
        r
    }

    fn find(&self, key: &[u8]) -> (r: Option<usize>)
        requires
            self.wf(),
        ensures
            r is None ==> !self@.contains_key(key@),
            r matches Some(i) ==> i < self.entries.len() && self.slots()[i as int].0 == key@
                && self@.contains_key(key@) && self@[key@] == self.slots()[i as int].1,
    {
        let mut i: usize = 0;
        while i < self.entries.len()
            invariant
                self.wf(),
                i <= self.entries.len(),
                forall|j: int| 0 <= j < i ==> self.slots()[j].0 != key@,
            decreases self.entries.len() - i,
        {
            if bytes_eq(self.entries[i].key.as_slice(), key) {
                proof {
                    lemma_to_map_index(self.slots(), i as int);
                }
                return Some(i);
            }
            i = i + 1;
        }
        proof {
            lemma_to_map_contains(self.slots(), key@);
        }
        None
    }

    /// Reads `key` at instant `now`. An expired key is removed and reads as absent.
    pub fn get(&mut self, key: &[u8], now: u64) -> (r: Option<Value>)
        requires
            old(self).wf(),
        ensures
            final(self).wf(),
            r is Some <==> current(old(self)@, key@, now) is Some,
            r matches Some(v) ==> v@ == old(self)@[key@].0,
            old(self)@.contains_key(key@) && !live(old(self)@[key@], now) ==> final(self)@
                == old(self)@.remove(key@),
            !(old(self)@.contains_key(key@) && !live(old(self)@[key@], now)) ==> final(self)@
                == old(self)@,
    {
        match self.find(key) {
            None => None,
            Some(i) => {
                let expired = match self.entries[i].expires_at {
                    Some(t) => now >= t,
                    None => false,
                };
                if expired {
                    let ghost s = self.slots();
                    self.entries.remove(i);
                    proof {
                        lemma_to_map_remove(s, i as int);
                        assert(self.slots() =~= s.remove(i as int));
                    }
                    None
                } else {
                    Some(self.entries[i].value.clone())
                }
            },
        }
    }

    /// Whether `key` holds a live value at `now`.
    pub fn contains_live(&self, key: &[u8], now: u64) -> (r: bool)
        requires
            self.wf(),
        ensures
            r == (current(self@, key@, now) is Some),
    {
        match self.find(key) {
            None => false,
            Some(i) => match self.entries[i].expires_at {
                Some(t) => now < t,
                None => true,
            },
        }
    }

    /// Stores `value` under `key` with the given expiry, replacing what was there.
    pub fn set(&mut self, key: Vec<u8>, value: Value, expires_at: Option<u64>)
        requires
            old(self).wf(),
        ensures
            final(self).wf(),
            final(self)@ == old(self)@.insert(key@, (value@, expires_at)),
    {
        let ghost s = self.slots();
        let ghost k = key@;
        let ghost st = (value@, expires_at);
        match self.find(key.as_slice()) {
            Some(i) => {
                self.entries.set(i, KeyEntry { key, value, expires_at });
                proof {
                    lemma_to_map_update(s, i as int, st);
                    assert(self.slots() =~= s.update(i as int, (s[i as int].0, st)));
                }
            },
            None => {
                self.entries.push(KeyEntry { key, value, expires_at });
                proof {
                    lemma_to_map_push(s, k, st);
                    assert(self.slots() =~= s.push((k, st)));
                }
            },
        }
    }

    /// Removes `key`. The result tells whether it held a live value at `now`.
    pub fn remove(&mut self, key: &[u8], now: u64) -> (r: bool)
        requires
            old(self).wf(),
        ensures
            final(self).wf(),
            r == (current(old(self)@, key@, now) is Some),
            final(self)@ == old(self)@.remove(key@),
    {
        match self.find(key) {
            None => {
                proof {
                    assert(self@ =~= self@.remove(key@));
                }
                false
            },
            Some(i) => {
                let was_live = match self.entries[i].expires_at {
                    Some(t) => now < t,
                    None => true,
                };
                let ghost s = self.slots();
                self.entries.remove(i);
                proof {
                    lemma_to_map_remove(s, i as int);
                    assert(self.slots() =~= s.remove(i as int));
                }
                was_live
            },
        }
    }

    /// Sets the expiry of `key`, when it is present, to `at`.
    pub fn set_expiry(&mut self, key: &[u8], at: Option<u64>)
        requires
            old(self).wf(),
        ensures
            final(self).wf(),
            old(self)@.contains_key(key@) ==> final(self)@ == old(self)@.insert(key@, (old(self)@[key@].0, at)),
            !old(self)@.contains_key(key@) ==> final(self)@ == old(self)@,
    {
        match self.find(key) {
            None => {},
            Some(i) => {
                let ghost s = self.slots();
                let k = copy_bytes(self.entries[i].key.as_slice());
                let v = self.entries[i].value.clone();
                self.entries.set(i, KeyEntry { key: k, value: v, expires_at: at });
                proof {
                    let st = (s[i as int].1.0, at);
                    lemma_to_map_update(s, i as int, st);
                    assert(self.slots() =~= s.update(i as int, (s[i as int].0, st)));
                }
            },
        }
    }

    /// Adds `delta` to the integer under `key` (absent or expired counts as 0),
    /// keeping its expiry. Fails, changing nothing, when the value is not an
    /// integer or the sum leaves the range of `i64`.
    pub fn incr_by(&mut self, key: &[u8], delta: i64, now: u64) -> (r: Result<i64, ()>)
        requires
            old(self).wf(),
        ensures
            final(self).wf(),
            match current(old(self)@, key@, now) {
                None => r == Ok::<i64, ()>(delta) && final(self)@ == old(self)@.insert(
                    key@,
                    (Resp::Int(delta as int), None),
                ),
                Some((Resp::Int(n), t)) => if sum_fits(n, delta as int) {
                    r == Ok::<i64, ()>((n + delta) as i64) && final(self)@ == old(self)@.insert(
                        key@,
                        (Resp::Int(n + delta), t),
                    )
                } else {
                    r is Err && final(self)@ == old(self)@
                },
                Some(_) => r is Err && final(self)@ == old(self)@,
            },
    {
        let found = self.find(key);
        let ghost s = self.slots();
        match found {
            Some(i) => {
                let is_live = match self.entries[i].expires_at {
                    Some(t) => now < t,
                    None => true,
                };
                if is_live {
                    let n = match &self.entries[i].value {
                        Value::Integer(n) => *n,
                        _ => {
                            return Err(());
                        },
                    };
                    let sum = n.checked_add(delta);
                    match sum {
                        None => {
                            return Err(());
                        },
                        Some(m) => {
                            let t = self.entries[i].expires_at;
                            let k = copy_bytes(self.entries[i].key.as_slice());
                            self.entries.set(i, KeyEntry { key: k, value: Value::Integer(m), expires_at: t });
                            proof {
                                let st = (Resp::Int(m as int), t);
                                lemma_to_map_update(s, i as int, st);
                                assert(self.slots() =~= s.update(i as int, (s[i as int].0, st)));
                            }
                            return Ok(m);
                        },
                    }
                }
            },
            None => {},
        }
        self.set(copy_bytes(key), Value::Integer(delta), None);
        Ok(delta)
    }

    /// The keys that hold a live value at `now` and match the KEYS pattern `pattern`,
    /// each once.
    pub fn keys_matching(&self, pattern: &[u8], now: u64) -> (r: Vec<Vec<u8>>)
        requires
            self.wf(),
        ensures
            forall|i: int, j: int| 0 <= i < j < r.len() ==> r@[i]@ != r@[j]@,
            forall|k: Seq<u8>|
                #[trigger] listed(r@, k) <==> (current(self@, k, now) is Some && key_matches(pattern@, k)),
    {
        let matcher = GlobMatcher::new(pattern);
        let mut r: Vec<Vec<u8>> = Vec::new();
        let ghost s = self.slots();
        let mut i: usize = 0;
        while i < self.entries.len()
            invariant
                s == self.slots(),
                keys_distinct(s),
                matcher.wf(),
                matcher.pattern() == pattern@,
                i <= self.entries.len(),
                forall|a: int, b: int| 0 <= a < b < r.len() ==> r@[a]@ != r@[b]@,
                forall|a: int| 0 <= a < r.len() ==> key_among(s, i as int, #[trigger] r@[a]@),
                forall|k: Seq<u8>| #[trigger] listed(r@, k) <==> seen(s, i as int, k, pattern@, now),
            decreases self.entries.len() - i,
        {
            let e = &self.entries[i];
            let is_live = match e.expires_at {
                Some(t) => now < t,
                None => true,
            };
            let ghost r0 = r@;
            if is_live && matcher.matches(e.key.as_slice()) {
                r.push(copy_bytes(e.key.as_slice()));
                proof {
                    assert forall|a: int| 0 <= a < r.len() - 1 implies r@[a]@ != s[i as int].0 by {
                        assert(r@[a] == r0[a]);
                        assert(key_among(s, i as int, r0[a]@));
                        let j = choose|j: int| 0 <= j < i && s[j].0 == r0[a]@;
                    }
                    assert forall|a: int| 0 <= a < r.len() implies key_among(s, i + 1, #[trigger] r@[a]@) by {
                        if a < r.len() - 1 {
                            assert(r@[a] == r0[a]);
                            assert(key_among(s, i as int, r0[a]@));
                            let j = choose|j: int| 0 <= j < i && s[j].0 == r0[a]@;
                            assert(0 <= j < i + 1 && s[j].0 == r@[a]@);
                        } else {
                            assert(s[i as int].0 == r@[a]@);
                        }
                    }
                    assert forall|k: Seq<u8>| #[trigger] listed(r@, k) <==> seen(s, i + 1, k, pattern@, now) by {
                        assert(listed(r0, k) <==> seen(s, i as int, k, pattern@, now));
                        if listed(r@, k) {
                            let a = choose|a: int| 0 <= a < r.len() && r@[a]@ == k;
                            if a < r.len() - 1 {
                                assert(r0[a] == r@[a]);
                                assert(listed(r0, k));
                                let j = choose|j: int| 0 <= j < i && s[j].0 == k && live(s[j].1, now) && key_matches(pattern@, k);
                                assert(0 <= j < i + 1 && s[j].0 == k && live(s[j].1, now) && key_matches(pattern@, k));
                            } else {
                                assert(s[i as int].0 == k && live(s[i as int].1, now) && key_matches(pattern@, k));
                            }
                        }
                        if seen(s, i + 1, k, pattern@, now) {
                            let j = choose|j: int| 0 <= j < i + 1 && s[j].0 == k && live(s[j].1, now) && key_matches(pattern@, k);
                            if j < i {
                                assert(seen(s, i as int, k, pattern@, now));
                                let a = choose|a: int| 0 <= a < r0.len() && r0[a]@ == k;
                                assert(r@[a] == r0[a]);
                            } else {
                                assert(r@[r.len() - 1]@ == k);
                            }
                        }
                    }
                }
            } else {
                proof {
                    assert forall|a: int| 0 <= a < r.len() implies key_among(s, i + 1, #[trigger] r@[a]@) by {
                        assert(key_among(s, i as int, r@[a]@));
                        let j = choose|j: int| 0 <= j < i && s[j].0 == r@[a]@;
                        assert(0 <= j < i + 1 && s[j].0 == r@[a]@);
                    }
                    assert forall|k: Seq<u8>| #[trigger] listed(r@, k) <==> seen(s, i + 1, k, pattern@, now) by {
                        assert(listed(r@, k) <==> seen(s, i as int, k, pattern@, now));
                        if seen(s, i + 1, k, pattern@, now) {
                            let j = choose|j: int| 0 <= j < i + 1 && s[j].0 == k && live(s[j].1, now) && key_matches(pattern@, k);
                            if j < i {
                                assert(seen(s, i as int, k, pattern@, now));
                            }
                        }
                    }
                }
            }
            i = i + 1;
        }
        proof {
            assert forall|k: Seq<u8>|
                #[trigger] listed(r@, k) <==> (current(self@, k, now) is Some && key_matches(pattern@, k)) by {
                assert(listed(r@, k) <==> seen(s, s.len() as int, k, pattern@, now));
                lemma_to_map_contains(s, k);
                if exists|j: int| 0 <= j < s.len() && s[j].0 == k {
                    let j = choose|j: int| 0 <= j < s.len() && s[j].0 == k;
                    lemma_to_map_index(s, j);
                    if seen(s, s.len() as int, k, pattern@, now) {
                        let j2 = choose|j2: int| 0 <= j2 < s.len() && s[j2].0 == k && live(s[j2].1, now) && key_matches(pattern@, k);
                        assert(j2 == j);
                    }
                }
            }
        }
        r
    }
}

} // verus!
