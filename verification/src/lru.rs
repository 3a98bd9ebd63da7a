//! A cache of a bounded number of keys with their values, which gives up
//! the least recently used key when it takes in one more than it can hold.

use vstd::prelude::*;
use vstd::laws_eq::obeys_concrete_eq;

verus! {

/// A cache of a limited number of keys with their values, which gives up
/// the least recently used key when it is full.
pub struct LruCache<K, V> {
    /// The keys with their values, the most recently used first.
    pub entries: Vec<(K, V)>,
    /// The number of keys that the cache can hold.
    pub cap: usize,
}

/// Some entry has the key `k`.
pub open spec fn has_key<K, V>(s: Seq<(K, V)>, k: K) -> bool {
    exists|i: int| 0 <= i < s.len() && (#[trigger] s[i]).0 == k
}

/// The place of the entry with the key `k`, where there is one.
pub open spec fn key_index<K, V>(s: Seq<(K, V)>, k: K) -> int {
    choose|i: int| 0 <= i < s.len() && (#[trigger] s[i]).0 == k
}

/// No two entries have the same key.
pub open spec fn distinct_keys<K, V>(s: Seq<(K, V)>) -> bool {
    forall|i: int, j: int| 0 <= i < j < s.len() ==> (#[trigger] s[i]).0 != (#[trigger] s[j]).0
}

impl<K: PartialEq, V> LruCache<K, V> {
    /// The cache holds no more keys than it can, each of them once.
    pub open spec fn wf(&self) -> bool {
        &&& self.entries@.len() <= self.cap
        &&& distinct_keys(self.entries@)
    }

    /// A cache without keys that can hold `cap` of them.
    pub fn new(cap: usize) -> (c: LruCache<K, V>)
        ensures
            c.wf(),
            c.cap == cap,
            c.entries@.len() == 0,
    {
        LruCache { entries: Vec::new(), cap }
    }

    /// The place of the entry with the key `k`.
    fn find(&self, k: &K) -> (r: Option<usize>)
        requires
            obeys_concrete_eq::<K>(),
            self.wf(),
        ensures
            r matches Some(i) ==> i < self.entries@.len() && self.entries@[i as int].0 == *k
                && has_key(self.entries@, *k) && key_index(self.entries@, *k) == i,
            r is None ==> !has_key(self.entries@, *k),
    {
        proof {
            reveal(obeys_concrete_eq);
        }
        let n = self.entries.len();
        let mut i: usize = 0;
        while i < n
            invariant
                i <= n,
                n == self.entries@.len(),
                self.wf(),
                obeys_concrete_eq::<K>(),
                forall|j: int| 0 <= j < i ==> (#[trigger] self.entries@[j]).0 != *k,
            decreases n - i,
        {
            proof {
                reveal(obeys_concrete_eq);
            }
            if self.entries[i].0 == *k {
                proof {
                    let c = key_index(self.entries@, *k);
                    if c < i {
                        assert(self.entries@[c].0 != *k);
                    } else if i < c {
                        assert(self.entries@[i as int].0 != self.entries@[c].0);
                    }
                }
                return Some(i);
            }
            i = i + 1;
        }
        None
    }

    /// Puts the value `v` under the key `k`, which becomes the most
    /// recently used key, and returns the value that the key had. If the
    /// key is new and the cache is full, the least recently used key and
    /// its value are given up.
    pub fn put(&mut self, k: K, v: V) -> (r: Option<V>)
        requires
            obeys_concrete_eq::<K>(),
            old(self).wf(),
            old(self).cap > 0,
        ensures
            final(self).wf(),
            final(self).cap == old(self).cap,
            has_key(old(self).entries@, k) ==> ({
                let i = key_index(old(self).entries@, k);
                &&& r == Some(old(self).entries@[i].1)
                &&& final(self).entries@ == seq![(k, v)] + old(self).entries@.remove(i)
            }),
            !has_key(old(self).entries@, k) ==> r is None && final(self).entries@ == seq![(k, v)]
                + (if old(self).entries@.len() >= old(self).cap {
                old(self).entries@.drop_last()
            } else {
                old(self).entries@
            }),
    {
        let found = self.find(&k);
        let old_value = match found {
            Some(i) => {
                let gone = self.entries.remove(i);
                Some(gone.1)
            },
            None => {
                if self.entries.len() >= self.cap {
                    let _least = self.entries.pop();
                    proof {
                        assert(self.entries@ =~= old(self).entries@.drop_last());
                    }
                }
                None
            },
        };
        let ghost rest = self.entries@;
        proof {
            assert(distinct_keys(rest) && !has_key(rest, k)) by {
                let s = old(self).entries@;
                assert forall|a: int, b: int| 0 <= a < b < rest.len() implies (
                #[trigger] rest[a]).0 != (#[trigger] rest[b]).0 by {
                    match found {
                        Some(i) => {
                            let a0 = if a < i { a } else { a + 1 };
                            let b0 = if b < i { b } else { b + 1 };
                            assert(rest[a] == s[a0] && rest[b] == s[b0]);
                            assert(s[a0].0 != s[b0].0);
                        },
                        None => {
                            assert(rest[a] == s[a] && rest[b] == s[b]);
                            assert(s[a].0 != s[b].0);
                        },
                    }
                }
                if has_key(rest, k) {
                    let c = key_index(rest, k);
                    match found {
                        Some(i) => {
                            let c0 = if c < i { c } else { c + 1 };
                            assert(rest[c] == s[c0]);
                            if c0 < i {
                                assert(s[c0].0 != s[i as int].0);
                            } else {
                                assert(s[i as int].0 != s[c0].0);
                            }
                        },
                        None => {
                            assert(rest[c] == s[c]);
                        },
                    }
                }
            }
        }
        self.entries.insert(0, (k, v));
        proof {
            let t = self.entries@;
            assert(t =~= seq![(k, v)] + rest);
            assert forall|a: int, b: int| 0 <= a < b < t.len() implies (#[trigger] t[a]).0 != (
            #[trigger] t[b]).0 by {
                if a == 0 {
                    assert(t[b] == rest[b - 1]);
                } else {
                    assert(t[a] == rest[a - 1] && t[b] == rest[b - 1]);
                    assert(rest[a - 1].0 != rest[b - 1].0);
                }
            }
        }
        old_value
    }

    /// The value under the key `k`, which becomes the most recently used
    /// key.
    pub fn get(&mut self, k: &K) -> (r: Option<&V>)
        requires
            obeys_concrete_eq::<K>(),
            old(self).wf(),
        ensures
            final(self).wf(),
            final(self).cap == old(self).cap,
            has_key(old(self).entries@, *k) ==> ({
                let i = key_index(old(self).entries@, *k);
                &&& r matches Some(v) && *v == old(self).entries@[i].1
                &&& final(self).entries@ == seq![old(self).entries@[i]] + old(
                    self,
                ).entries@.remove(i)
            }),
            !has_key(old(self).entries@, *k) ==> r is None && final(self).entries@ == old(
                self,
            ).entries@,
    {
        match self.find(k) {
            None => None,
            Some(i) => {
                let hit = self.entries.remove(i);
                let ghost rest = self.entries@;
                let ghost h = hit;
                self.entries.insert(0, hit);
                proof {
                    let s = old(self).entries@;
                    let t = self.entries@;
                    assert(t =~= seq![h] + rest);
                    assert forall|a: int, b: int| 0 <= a < b < t.len() implies (
                    #[trigger] t[a]).0 != (#[trigger] t[b]).0 by {
                        let a0 = if a == 0 { i as int } else if a - 1 < i { a - 1 } else { a };
                        let b0 = if b - 1 < i { b - 1 } else { b };
                        assert(t[a] == s[a0] && t[b] == s[b0]);
                        if a0 < b0 {
                            assert(s[a0].0 != s[b0].0);
                        } else {
                            assert(s[b0].0 != s[a0].0);
                        }
                    }
                }
                Some(&self.entries[0].1)
            },
        }
    }
}

} // verus!
