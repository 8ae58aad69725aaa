//! Approvals of review items, kept per key.

use vstd::prelude::*;

use crate::review::keyed::{
    distinct_keys, find_key, lemma_find_key, lemma_find_key_push, lemma_find_key_unique,
    lemma_find_key_update, position_of, ReviewKey,
};
use crate::review::reviewable_diff_id::ReviewableDiffId;

verus! {

/// Who approved an item, and when.
#[derive(Debug, Clone, PartialEq, Eq)]
pub struct ApprovalRecord {
    pub approved: bool,
    pub approved_by: String,
    pub approval_timestamp: String,
}

/// The mathematical value of an `ApprovalRecord`.
pub struct ApprovalRecordView {
    pub approved: bool,
    pub approved_by: Seq<char>,
    pub approval_timestamp: Seq<char>,
}

impl View for ApprovalRecord {
    type V = ApprovalRecordView;

    open spec fn view(&self) -> ApprovalRecordView {
        ApprovalRecordView {
            approved: self.approved,
            approved_by: self.approved_by@,
            approval_timestamp: self.approval_timestamp@,
        }
    }
}

/// The number of entries whose record is approved.
pub open spec fn approved_count<K>(s: Seq<(K, ApprovalRecord)>) -> nat
    decreases s.len(),
{
    if s.len() == 0 {
        0
    } else {
        approved_count(s.drop_last()) + if s.last().1.approved {
            1nat
        } else {
            0nat
        }
    }
}

/// Replacing one entry changes the count by the approvals of the old and
/// the new record.
proof fn lemma_approved_count_update<K>(s: Seq<(K, ApprovalRecord)>, p: int, e: (K, ApprovalRecord))
    requires
        0 <= p < s.len(),
    ensures
        approved_count(s.update(p, e)) + (if s[p].1.approved { 1int } else { 0int }) == approved_count(s) + (
        if e.1.approved {
            1int
        } else {
            0int
        }),
    decreases s.len(),
{
    let u = s.update(p, e);
    if p == s.len() - 1 {
        assert(u.drop_last() =~= s.drop_last());
    } else {
        assert(u.drop_last() =~= s.drop_last().update(p, e));
        lemma_approved_count_update(s.drop_last(), p, e);
    }
}

/// Approvals keyed by review items (chunks or decision numbers).
#[derive(Debug, Clone)]
pub struct ApprovalMap<K: ReviewKey> {
    /// One entry per key, in the order the keys were first approved.
    pub approvals: Vec<(K, ApprovalRecord)>,
}

/// Approvals of chunks.
pub type ReviewApprovals = ApprovalMap<ReviewableDiffId>;

/// Approvals of decisions, by number.
pub type DecisionApprovals = ApprovalMap<u32>;

/// Another name for an approval record.
pub type Approval = ApprovalRecord;

impl<K: ReviewKey> ApprovalMap<K> {
    /// Each key has at most one entry.
    pub open spec fn wf(&self) -> bool {
        distinct_keys(self.approvals@)
    }

    /// The record of key `k`, if any.
    pub open spec fn record_of(&self, k: K::V) -> Option<ApprovalRecordView> {
        match find_key(self.approvals@, k, 0) {
            Some(p) => Some(self.approvals@[p].1@),
            None => None,
        }
    }

    /// Whether key `k` has an approved record.
    pub open spec fn approved_spec(&self, k: K::V) -> bool {
        self.record_of(k) matches Some(r) && r.approved
    }

    /// No approvals.
    pub fn new() -> (m: Self)
        ensures
            m.wf(),
            m.approvals@.len() == 0,
    {
        ApprovalMap { approvals: Vec::new() }
    }

    /// Stores `record` for `key`, replacing any earlier record of it.
    pub fn insert(&mut self, key: K, record: ApprovalRecord)
        requires
            old(self).wf(),
        ensures
            final(self).wf(),
            final(self).record_of(key@) == Some(record@),
            forall|k: K::V| k != key@ ==> final(self).record_of(k) == old(self).record_of(k),
            final(self).approvals@.len() == old(self).approvals@.len() + if old(self).record_of(
                key@,
            ) is Some {
                0int
            } else {
                1int
            },
            approved_count(final(self).approvals@) + (if old(self).approved_spec(key@) {
                1int
            } else {
                0int
            }) == approved_count(old(self).approvals@) + if record.approved {
                1int
            } else {
                0int
            },
    {
        let ghost s0 = self.approvals@;
        let ghost kv = key@;
        proof {
            lemma_find_key(s0, kv, 0);
        }
        match position_of(&self.approvals, &key) {
            Some(p) => {
                let ghost e = (key, record);
                self.approvals.set(p, (key, record));
                proof {
                    assert forall|k: K::V| #[trigger] find_key(self.approvals@, k, 0) == find_key(
                        s0,
                        k,
                        0,
                    ) by {
                        lemma_find_key_update(s0, p as int, self.approvals@[p as int], k, 0);
                    }
                    assert(self.approvals@ =~= s0.update(p as int, self.approvals@[p as int]));
                    assert(find_key(s0, kv, 0) == Some(p as int));
                    assert(find_key(self.approvals@, kv, 0) == Some(p as int));
                    lemma_approved_count_update(s0, p as int, self.approvals@[p as int]);
                    assert(self.approvals@[p as int].1@ == record@);
                    let s = self.approvals@;
                    assert forall|k: K::V| k != kv implies old(self).record_of(k) == (match find_key(s, k, 0) {
                        Some(q) => Some(s[q].1@),
                        None => None,
                    }) by {
                        lemma_find_key(s0, k, 0);
                        match find_key(s0, k, 0) {
                            Some(q) => {
                                assert(q != p);
                                assert(s[q] == s0[q]);
                            },
                            None => {},
                        }
                    }
                    assert forall|i: int, j: int| 0 <= i < j < s.len() implies (#[trigger] s[i]).0@
                        != (#[trigger] s[j]).0@ by {
                        assert(s[i].0@ == s0[i].0@ && s[j].0@ == s0[j].0@);
                    }
                }
            },
            None => {
                self.approvals.push((key, record));
                proof {
                    assert forall|k: K::V| #[trigger] find_key(self.approvals@, k, 0) == match find_key(
                        s0,
                        k,
                        0,
                    ) {
                        Some(q) => Some(q),
                        None => if k == kv {
                            Some(s0.len() as int)
                        } else {
                            None
                        },
                    } by {
                        lemma_find_key_push(s0, self.approvals@[s0.len() as int], k, 0);
                        assert(self.approvals@ =~= s0.push(self.approvals@[s0.len() as int]));
                    }
                    let s = self.approvals@;
                    assert forall|i: int, j: int| 0 <= i < j < s.len() implies (#[trigger] s[i]).0@
                        != (#[trigger] s[j]).0@ by {
                        if j == s0.len() {
                            assert(s[i] == s0[i]);
                        }
                    }
                    assert(find_key(s0, kv, 0) is None);
                    assert(find_key(s, kv, 0) == Some(s0.len() as int));
                    assert(s.drop_last() =~= s0);
                    assert(s[s0.len() as int].1@ == record@);
                    assert forall|k: K::V| k != kv implies old(self).record_of(k) == (match find_key(s, k, 0) {
                        Some(q) => Some(s[q].1@),
                        None => None,
                    }) by {
                        lemma_find_key(s0, k, 0);
                        assert(s =~= s0.push(s[s0.len() as int]));
                        match find_key(s0, k, 0) {
                            Some(q) => {
                                assert(s[q] == s0[q]);
                            },
                            None => {},
                        }
                    }
                }
            },
        }
    }

    /// Records `key` as approved by `approved_by` at `timestamp`, replacing
    /// any earlier record of it.
    pub fn approve(&mut self, key: K, approved_by: String, timestamp: String)
        requires
            old(self).wf(),
        ensures
            final(self).wf(),
            ({
                let rec = ApprovalRecordView {
                    approved: true,
                    approved_by: approved_by@,
                    approval_timestamp: timestamp@,
                };
                &&& final(self).record_of(key@) == Some(rec)
                &&& forall|k: K::V| k != key@ ==> final(self).record_of(k) == old(self).record_of(k)
            }),
            final(self).approvals@.len() == old(self).approvals@.len() + if old(self).record_of(
                key@,
            ) is Some {
                0int
            } else {
                1int
            },
            approved_count(final(self).approvals@) == approved_count(old(self).approvals@) + if old(
                self,
            ).approved_spec(key@) {
                0int
            } else {
                1int
            },
    {
        let record = ApprovalRecord {
            approved: true,
            approved_by,
            approval_timestamp: timestamp,
        };
        self.insert(key, record);
    }

    /// Drops the record of `key`.
    pub fn unapprove(&mut self, key: &K)
        requires
            old(self).wf(),
        ensures
            final(self).wf(),
            final(self).record_of(key@) is None,
            forall|k: K::V| k != key@ ==> final(self).record_of(k) == old(self).record_of(k),
    {
        let ghost s0 = self.approvals@;
        let ghost kv = key@;
        proof {
            lemma_find_key(s0, kv, 0);
        }
        match position_of(&self.approvals, key) {
            Some(p) => {
                self.approvals.remove(p);
                proof {
                    let s = self.approvals@;
                    assert forall|i: int, j: int| 0 <= i < j < s.len() implies (#[trigger] s[i]).0@
                        != (#[trigger] s[j]).0@ by {
                        if j < p {
                        } else if i < p {
                            assert(s[j] == s0[j + 1]);
                        } else {
                            assert(s[i] == s0[i + 1] && s[j] == s0[j + 1]);
                        }
                    }
                    assert forall|k: K::V| k != kv implies #[trigger] find_key(s, k, 0) matches Some(q2)
                        ==> s[q2].1@ == s0[find_key(s0, k, 0)->0].1@ && find_key(s0, k, 0) is Some by {
                        lemma_find_key(s, k, 0);
                        match find_key(s, k, 0) {
                            Some(q2) => {
                                let q0 = if q2 < p {
                                    q2
                                } else {
                                    q2 + 1
                                };
                                assert(s[q2] == s0[q0]);
                                lemma_find_key_unique(s0, k, q0);
                            },
                            None => {},
                        }
                    }
                    assert forall|k: K::V| k != kv implies #[trigger] find_key(s0, k, 0) matches Some(q0)
                        ==> find_key(s, k, 0) is Some by {
                        lemma_find_key(s0, k, 0);
                        match find_key(s0, k, 0) {
                            Some(q0) => {
                                let q2 = if q0 < p {
                                    q0
                                } else {
                                    q0 - 1
                                };
                                assert(q0 != p);
                                assert(s[q2] == s0[q0]);
                                lemma_find_key_unique(s, k, q2);
                            },
                            None => {},
                        }
                    }
                    lemma_find_key(s, kv, 0);
                    match find_key(s, kv, 0) {
                        Some(q2) => {
                            let q0 = if q2 < p {
                                q2
                            } else {
                                q2 + 1
                            };
                            assert(s[q2] == s0[q0]);
                            lemma_find_key_unique(s0, kv, q0);
                        },
                        None => {},
                    }
                }
            },
            None => {},
        }
    }

    /// Whether `key` has an approved record.
    pub fn is_approved(&self, key: &K) -> (b: bool)
        ensures
            b == self.approved_spec(key@),
    {
        proof {
            lemma_find_key(self.approvals@, key@, 0);
        }
        match position_of(&self.approvals, key) {
            Some(p) => {
                assert(find_key(self.approvals@, key@, 0) == Some(p as int));
                self.approvals[p].1.approved
            },
            None => false,
        }
    }

    /// The record of `key`, if any.
    pub fn get_approval(&self, key: &K) -> (r: Option<&ApprovalRecord>)
        ensures
            match r {
                Some(rec) => self.record_of(key@) == Some(rec@),
                None => self.record_of(key@) is None,
            },
    {
        proof {
            lemma_find_key(self.approvals@, key@, 0);
        }
        match position_of(&self.approvals, key) {
            Some(p) => {
                assert(find_key(self.approvals@, key@, 0) == Some(p as int));
                Some(&self.approvals[p].1)
            },
            None => None,
        }
    }

    /// The number of approved records.
    pub fn total_approved(&self) -> (n: usize)
        ensures
            n == approved_count(self.approvals@),
    {
        let mut n: usize = 0;
        let mut i: usize = 0;
        while i < self.approvals.len()
            invariant
                i <= self.approvals@.len(),
                n == approved_count(self.approvals@.take(i as int)),
                n <= i,
            decreases self.approvals@.len() - i,
        {
            assert(self.approvals@.take(i + 1).drop_last() =~= self.approvals@.take(i as int));
            if self.approvals[i].1.approved {
                n = n + 1;
            }
            i = i + 1;
        }
        assert(self.approvals@.take(i as int) =~= self.approvals@);
        n
    }
}

} // verus!
