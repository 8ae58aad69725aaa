//! Keys of the review collections, which are kept as association lists in
//! insertion order, one entry per key.

use vstd::prelude::*;

use crate::review::reviewable_diff_id::ReviewableDiffId;

verus! {

/// A key of a review collection: compared and copied by value.
pub trait ReviewKey: View + Sized {
    /// Whether two keys are equal.
    fn same_key(&self, other: &Self) -> (b: bool)
        ensures
            b == (self@ == other@),
    ;

    /// A copy of the key.
    fn copy_key(&self) -> (c: Self)
        ensures
            c@ == self@,
    ;
}

impl ReviewKey for u32 {
    fn same_key(&self, other: &Self) -> (b: bool) {
        *self == *other
    }

    fn copy_key(&self) -> (c: Self) {
        *self
    }
}

impl ReviewKey for ReviewableDiffId {
    fn same_key(&self, other: &Self) -> (b: bool) {
        self.same(other)
    }

    fn copy_key(&self) -> (c: Self) {
        self.duplicate()
    }
}

/// The position of the first entry of `s` at or after `i` whose key is `k`.
pub open spec fn find_key<K: View, V>(s: Seq<(K, V)>, k: K::V, i: int) -> Option<int>
    decreases s.len() - i,
{
    if i < 0 || i >= s.len() {
        None
    } else if s[i].0@ == k {
        Some(i)
    } else {
        find_key(s, k, i + 1)
    }
}

/// No two entries of `s` have the same key.
pub open spec fn distinct_keys<K: View, V>(s: Seq<(K, V)>) -> bool {
    forall|i: int, j: int| 0 <= i < j < s.len() ==> (#[trigger] s[i]).0@ != (#[trigger] s[j]).0@
}

/// After removing entry `p` of a list with distinct keys, its key is found
/// nowhere and every other key one place earlier if it stood after `p`.
pub proof fn lemma_find_key_remove<K: View, V>(s: Seq<(K, V)>, p: int, k: K::V)
    requires
        distinct_keys(s),
        0 <= p < s.len(),
    ensures
        find_key(s.remove(p), k, 0) == (if s[p].0@ == k {
            None
        } else {
            match find_key(s, k, 0) {
                Some(q) => Some(if q < p {
                    q
                } else {
                    q - 1
                }),
                None => None,
            }
        }),
{
    let t = s.remove(p);
    lemma_find_key(s, k, 0);
    lemma_find_key(t, k, 0);
    match find_key(t, k, 0) {
        Some(q2) => {
            let q0 = if q2 < p {
                q2
            } else {
                q2 + 1
            };
            assert(t[q2] == s[q0]);
            lemma_find_key_unique(s, k, q0);
            if s[p].0@ == k {
                assert(q0 != p);
                if q0 < p {
                    assert(s[q0].0@ != s[p].0@);
                } else {
                    assert(s[p].0@ != s[q0].0@);
                }
            }
        },
        None => {
            match find_key(s, k, 0) {
                Some(q0) => {
                    if q0 != p {
                        let q2 = if q0 < p {
                            q0
                        } else {
                            q0 - 1
                        };
                        assert(t[q2] == s[q0]);
                    }
                },
                None => {},
            }
        },
    }
}

/// What `find_key` finds: a matching entry with no match before it.
pub proof fn lemma_find_key<K: View, V>(s: Seq<(K, V)>, k: K::V, i: int)
    requires
        0 <= i,
    ensures
        find_key(s, k, i) matches Some(p) ==> i <= p < s.len() && s[p].0@ == k && forall|j: int|
            i <= j < p ==> s[j].0@ != k,
        find_key(s, k, i) is None ==> forall|j: int| i <= j < s.len() ==> s[j].0@ != k,
    decreases s.len() - i,
{
    if i < s.len() && s[i].0@ != k {
        lemma_find_key(s, k, i + 1);
    }
}

/// In a list with distinct keys, an entry with key `k` is the one found.
pub proof fn lemma_find_key_unique<K: View, V>(s: Seq<(K, V)>, k: K::V, q: int)
    requires
        distinct_keys(s),
        0 <= q < s.len(),
        s[q].0@ == k,
    ensures
        find_key(s, k, 0) == Some(q),
{
    lemma_find_key(s, k, 0);
    match find_key(s, k, 0) {
        Some(p) => {
            if p != q {
                if p < q {
                    assert(s[p].0@ != s[q].0@);
                } else {
                    assert(s[q].0@ != s[p].0@);
                }
            }
        },
        None => {
            assert(s[q].0@ != k);
        },
    }
}

/// Replacing an entry by one with the same key finds the same positions.
pub proof fn lemma_find_key_update<K: View, V>(s: Seq<(K, V)>, p: int, e: (K, V), k: K::V, i: int)
    requires
        0 <= p < s.len(),
        e.0@ == s[p].0@,
        0 <= i,
    ensures
        find_key(s.update(p, e), k, i) == find_key(s, k, i),
    decreases s.len() - i,
{
    if i < s.len() {
        assert(s.update(p, e)[i].0@ == s[i].0@);
        lemma_find_key_update(s, p, e, k, i + 1);
    }
}

/// Appending an entry finds it only where its key was not there before.
pub proof fn lemma_find_key_push<K: View, V>(s: Seq<(K, V)>, e: (K, V), k: K::V, i: int)
    requires
        0 <= i <= s.len(),
    ensures
        find_key(s.push(e), k, i) == match find_key(s, k, i) {
            Some(q) => Some(q),
            None => if k == e.0@ {
                Some(s.len() as int)
            } else {
                None
            },
        },
    decreases s.len() - i,
{
    if i < s.len() {
        assert(s.push(e)[i] == s[i]);
        lemma_find_key_push(s, e, k, i + 1);
    } else {
        assert(s.push(e)[i] == e);
        assert(find_key(s.push(e), k, i + 1) is None);
    }
}

/// Finds the entry with key `key`.
pub fn position_of<K: ReviewKey, V>(entries: &Vec<(K, V)>, key: &K) -> (r: Option<usize>)
    ensures
        r == (match find_key(entries@, key@, 0) {
            Some(p) => Some(p as usize),
            None => None::<usize>,
        }),
        r matches Some(p) ==> p < entries@.len() && entries@[p as int].0@ == key@,
        r is None ==> forall|j: int| 0 <= j < entries@.len() ==> entries@[j].0@ != key@,
{
    proof {
        lemma_find_key(entries@, key@, 0);
    }
    let mut i: usize = 0;
    while i < entries.len()
        invariant
            i <= entries@.len(),
            find_key(entries@, key@, 0) == find_key(entries@, key@, i as int),
        decreases entries@.len() - i,
    {
        if entries[i].0.same_key(key) {
            return Some(i);
        }
        i = i + 1;
    }
    None
}

} // verus!
