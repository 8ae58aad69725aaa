//! The review engine: approvals of chunks and decisions kept consistent with
//! each other, instructions, and the decision-based view of a review.

use vstd::prelude::*;

use crate::review::approval::{approved_count, ApprovalRecordView, DecisionApprovals, ReviewApprovals};
use crate::review::cascade_result::CascadeResult;
use crate::review::decision::{
    decision_numbered, decision_refs_view, numbers_of, Decision, DecisionReviewableDiff,
    ReviewDecisions,
};
use crate::review::errors::{DiffVizError, ReviewError};
use crate::review::instruction::{
    notes_count, notes_view, Instruction, InstructionStatus, InstructionView,
};
use crate::review::keyed::{find_key, lemma_find_key, position_of};
use crate::review::reviewable_diff_id::{ReviewableDiffId, ReviewableDiffIdView};
use crate::review::instruction::{entry_with_note, ref_views};
use crate::review::state::{
    approved_among, approved_by, chunks_of, indexed_under, lemma_chunks_of_indexed, diff_refs_view, first_files, has_number, id_in_file,
    of_file, same_but_approvals, same_but_decision_approvals, same_but_instructions, strings_view,
    text_ascending, utc_stamp_text, utc_timestamp, ReviewState, ReviewableDiff, ReviewableDiffView,
};
use crate::review::text_order::id_order;
use crate::text::{decimal, from_text, is_lower_hex_digit, push_decimal, push_text};

verus! {

/// The text of a version-4 UUID in its hyphenated lowercase form: 36
/// characters, hyphens at positions 8, 13, 18 and 23, lowercase hexadecimal
/// digits elsewhere, the version digit `4` at position 14 and one of `8`,
/// `9`, `a`, `b` at position 19.
pub open spec fn uuid_v4_text(s: Seq<char>) -> bool {
    &&& s.len() == 36
    &&& forall|i: int|
        0 <= i < 36 ==> if i == 8 || i == 13 || i == 18 || i == 23 {
            s[i] == '-'
        } else {
            is_lower_hex_digit(#[trigger] s[i])
        }
    &&& s[14] == '4'
    &&& (s[19] == '8' || s[19] == '9' || s[19] == 'a' || s[19] == 'b')
}

/// A fresh random identifier (UUID version 4), as text.
///
/// Calls `uuid::Uuid::new_v4` and formats it with `Display`, which writes
/// the hyphenated lowercase form; `new_v4` sets the version and variant
/// bits. The value is random: nothing else is claimed of it.
#[verifier::external_body]
pub(crate) fn new_uuid() -> (s: String)
    ensures
        uuid_v4_text(s@),
{
    uuid::Uuid::new_v4().to_string()
}

/// The numbers a chunk is indexed under; empty where it has no entry.
pub open spec fn decisions_of_chunk(index: Seq<(ReviewableDiffId, Vec<u32>)>, id: ReviewableDiffIdView) -> Seq<u32> {
    match numbers_of(index, id) {
        Some(v) => v,
        None => seq![],
    }
}

/// Every chunk of decision `n` is approved in `s`, and there is at least one.
pub open spec fn all_chunks_approved(s: ReviewState, n: u32) -> bool {
    let c = chunks_of(s.decisions.decision_index@, n);
    c.len() > 0 && approved_among(s.approvals, c) == c.len()
}

/// When every identifier of `ids` is approved, all of them are counted.
pub proof fn lemma_approved_among_all(a: ReviewApprovals, ids: Seq<ReviewableDiffIdView>)
    requires
        forall|i: int| 0 <= i < ids.len() ==> a.approved_spec(#[trigger] ids[i]),
    ensures
        approved_among(a, ids) == ids.len(),
    decreases ids.len(),
{
    if ids.len() > 0 {
        assert(a.approved_spec(ids[ids.len() - 1]));
        lemma_approved_among_all(a, ids.drop_last());
    }
}

/// When an identifier of `ids` is not approved, fewer than all are counted.
pub proof fn lemma_approved_among_missing(a: ReviewApprovals, ids: Seq<ReviewableDiffIdView>, j: int)
    requires
        0 <= j < ids.len(),
        !a.approved_spec(ids[j]),
    ensures
        approved_among(a, ids) < ids.len(),
    decreases ids.len(),
{
    lemma_approved_among_le(a, ids.drop_last());
    if j < ids.len() - 1 {
        assert(ids.drop_last()[j] == ids[j]);
        lemma_approved_among_missing(a, ids.drop_last(), j);
    }
}

/// When no identifier of `ids` is approved, none is counted.
pub proof fn lemma_approved_among_none(a: ReviewApprovals, ids: Seq<ReviewableDiffIdView>)
    requires
        forall|i: int| 0 <= i < ids.len() ==> !a.approved_spec(#[trigger] ids[i]),
    ensures
        approved_among(a, ids) == 0,
    decreases ids.len(),
{
    if ids.len() > 0 {
        assert(!a.approved_spec(ids[ids.len() - 1]));
        lemma_approved_among_none(a, ids.drop_last());
    }
}

/// At most all identifiers are counted.
pub proof fn lemma_approved_among_le(a: ReviewApprovals, ids: Seq<ReviewableDiffIdView>)
    ensures
        approved_among(a, ids) <= ids.len(),
    decreases ids.len(),
{
    if ids.len() > 0 {
        lemma_approved_among_le(a, ids.drop_last());
    }
}

/// All chunks of decision `n` are approved exactly when its index lists a
/// chunk and every chunk it lists is approved.
pub proof fn lemma_all_chunks_approved(s: ReviewState, n: u32)
    requires
        s.wf(),
    ensures
        all_chunks_approved(s, n) <==> (indexed_under(s.decisions.decision_index@, n).len() > 0
            && forall|k: ReviewableDiffIdView|
            #[trigger] indexed_under(s.decisions.decision_index@, n).contains(k) ==> s.approvals.approved_spec(k)),
{
    let index = s.decisions.decision_index@;
    let c = chunks_of(index, n);
    lemma_chunks_of_indexed(index, n);
    if forall|k: ReviewableDiffIdView|
        #[trigger] indexed_under(index, n).contains(k) ==> s.approvals.approved_spec(k) {
        assert forall|i: int| 0 <= i < c.len() implies s.approvals.approved_spec(#[trigger] c[i]) by {
            assert(c.to_set().contains(c[i]));
        }
        lemma_approved_among_all(s.approvals, c);
    }
    if approved_among(s.approvals, c) == c.len() {
        assert forall|k: ReviewableDiffIdView|
            #[trigger] indexed_under(index, n).contains(k) implies s.approvals.approved_spec(k) by {
            assert(c.to_set().contains(k));
            let j = choose|j: int| 0 <= j < c.len() && c[j] == k;
            if !s.approvals.approved_spec(k) {
                lemma_approved_among_missing(s.approvals, c, j);
            }
        }
    }
}

/// Callback `f` takes `ok` with every text equal to `message`.
pub open spec fn accepts<F: FnOnce(bool, Option<String>)>(f: F, ok: bool, message: Seq<char>) -> bool {
    forall|s: String| s@ == message ==> #[trigger] f.requires((ok, Some(s)))
}

/// Callback `f` was called with `ok` and a text equal to `message`.
pub open spec fn notified<F: FnOnce(bool, Option<String>)>(f: F, ok: bool, message: Seq<char>) -> bool {
    exists|s: String| s@ == message && #[trigger] f.ensures((ok, Some(s)), ())
}

/// Calls the callback, where one is given, with `ok` and `message`.
fn notify<F: FnOnce(bool, Option<String>)>(on_result: Option<F>, ok: bool, message: String)
    requires
        on_result matches Some(f) ==> accepts(f, ok, message@),
    ensures
        on_result matches Some(f) ==> notified(f, ok, message@),
{
    if let Some(callback) = on_result {
        let ghost m = message;
        callback(ok, Some(message));
        assert(m@ == m@);
    }
}

/// The number of chunks of `ds` in file `path`.
pub open spec fn count_in_file(ds: Seq<ReviewableDiffView>, path: Seq<char>) -> nat
    decreases ds.len(),
{
    if ds.len() == 0 {
        0
    } else {
        count_in_file(ds.drop_last(), path) + if ds.last().file_path == path {
            1nat
        } else {
            0nat
        }
    }
}

/// What approving the chunks of a file reports: how many were approved,
/// or that there were none.
pub open spec fn file_approval_message(n: nat) -> (bool, Seq<char>) {
    if n > 0 {
        (true, "Approved "@ + decimal(n) + " ReviewableDiffs in file"@)
    } else {
        (false, "No ReviewableDiffs found in file"@)
    }
}

/// The engine of a review session.
pub struct ReviewEngine {
    pub state: ReviewState,
    /// Rendered chunks, kept until the chunk changes.
    pub renderable_cache: Vec<(ReviewableDiffId, String)>,
}

impl ReviewEngine {
    /// The state is well formed.
    pub open spec fn wf(&self) -> bool {
        self.state.wf()
    }

    /// An engine over `reviewable_diffs` with nothing recorded yet.
    pub fn new(reviewable_diffs: Vec<ReviewableDiff>, author: String) -> (e: Self)
        ensures
            e.wf(),
            forall|x: ReviewableDiffView|
                e.state.diffs().contains(x) <==> crate::review::state::kept(
                    crate::review::state::diffs_view(reviewable_diffs@),
                    x,
                ),
            e.state.approvals.approvals@.len() == 0,
            e.state.instructions.entries().len() == 0,
            e.state.decisions.decisions@.len() == 0,
            e.state.decisions.decision_index@.len() == 0,
            e.state.decision_approvals.approvals@.len() == 0,
            e.state.decision_instructions.entries().len() == 0,
            e.state.author@ == author@,
            e.renderable_cache@.len() == 0,
    {
        ReviewEngine {
            state: ReviewState::new(reviewable_diffs, author),
            renderable_cache: Vec::new(),
        }
    }

    /// Drops the cached rendering of a chunk.
    fn invalidate(&mut self, reviewable_id: &ReviewableDiffId)
        ensures
            final(self).state == old(self).state,
            forall|e: (ReviewableDiffId, String)|
                #[trigger] final(self).renderable_cache@.contains(e) <==> (old(self).renderable_cache@.contains(e)
                    && e.0@ != reviewable_id@),
    {
        let ghost orig = self.renderable_cache@;
        let mut kept: Vec<(ReviewableDiffId, String)> = Vec::new();
        let mut old_cache: Vec<(ReviewableDiffId, String)> = Vec::new();
        std::mem::swap(&mut old_cache, &mut self.renderable_cache);
        while old_cache.len() > 0
            invariant
                self.state == old(self).state,
                old_cache@.len() <= orig.len(),
                old_cache@ == orig.take(old_cache@.len() as int),
                forall|e: (ReviewableDiffId, String)|
                    #[trigger] kept@.contains(e) <==> ((exists|i: int|
                        old_cache@.len() <= i < orig.len() && #[trigger] orig[i] == e) && e.0@ != reviewable_id@),
            decreases old_cache@.len(),
        {
            let ghost m = old_cache@.len() as int;
            let ghost k0 = kept@;
            let entry = old_cache.pop().unwrap();
            proof {
                assert(orig.take(m)[m - 1] == orig[m - 1]);
                assert(old_cache@ =~= orig.take(m - 1));
            }
            if !entry.0.same(reviewable_id) {
                kept.push(entry);
            }
            proof {
                assert forall|e: (ReviewableDiffId, String)|
                    #[trigger] kept@.contains(e) <==> ((exists|i: int|
                        m - 1 <= i < orig.len() && #[trigger] orig[i] == e) && e.0@ != reviewable_id@) by {
                    vstd::seq_lib::lemma_seq_contains_after_push(k0, entry, e);
                    if exists|i: int| m - 1 <= i < orig.len() && #[trigger] orig[i] == e {
                        let i = choose|i: int| m - 1 <= i < orig.len() && #[trigger] orig[i] == e;
                        if i >= m {
                            assert(k0.contains(e) || e.0@ == reviewable_id@);
                        }
                    }
                    if k0.contains(e) {
                        let i = choose|i: int| m <= i < orig.len() && #[trigger] orig[i] == e;
                    }
                }
            }
        }
        proof {
            assert forall|e: (ReviewableDiffId, String)|
                #[trigger] kept@.contains(e) <==> (orig.contains(e) && e.0@ != reviewable_id@) by {
                if orig.contains(e) {
                    let i = choose|i: int| 0 <= i < orig.len() && orig[i] == e;
                    assert(orig[i] == e);
                }
            }
        }
        self.renderable_cache = kept;
    }

    /// The numbers of the decisions the index lists for a chunk.
    fn decisions_for_chunk(&self, reviewable_id: &ReviewableDiffId) -> (r: Vec<u32>)
        ensures
            r@ == decisions_of_chunk(self.state.decisions.decision_index@, reviewable_id@),
    {
        proof {
            lemma_find_key(self.state.decisions.decision_index@, reviewable_id@, 0);
        }
        match position_of(&self.state.decisions.decision_index, reviewable_id) {
            Some(p) => {
                let nums = &self.state.decisions.decision_index[p].1;
                let mut out: Vec<u32> = Vec::new();
                let mut i: usize = 0;
                while i < nums.len()
                    invariant
                        i <= nums@.len(),
                        out@ == nums@.take(i as int),
                    decreases nums@.len() - i,
                {
                    out.push(nums[i]);
                    assert(out@ =~= nums@.take(i + 1));
                    i = i + 1;
                }
                assert(nums@.take(i as int) =~= nums@);
                out
            },
            None => Vec::new(),
        }
    }

    /// Approves a chunk in the name of `approver`. Each decision listed for
    /// the chunk whose chunks are now all approved, and which was not
    /// approved, is approved in the same name.
    pub fn approve<F: FnOnce(bool, Option<String>)>(
        &mut self,
        reviewable_id: ReviewableDiffId,
        approver: String,
        on_result: Option<F>,
    ) -> (r: Result<(), DiffVizError>)
        requires
            old(self).wf(),
            on_result matches Some(f) ==> accepts(f, true, "ReviewableDiff approved"@),
        ensures
            final(self).wf(),
            r is Ok,
            on_result matches Some(f) ==> notified(f, true, "ReviewableDiff approved"@),
            forall|e: (ReviewableDiffId, String)|
                #[trigger] final(self).renderable_cache@.contains(e) <==> (old(self).renderable_cache@.contains(e)
                    && e.0@ != reviewable_id@),
            forall|n: u32|
                decisions_of_chunk(old(self).state.decisions.decision_index@, reviewable_id@).contains(
                    n,
                ) ==> (#[trigger] final(self).state.decision_approvals.approved_spec(n) == (old(self).state.decision_approvals.approved_spec(n) || all_chunks_approved(
                    final(self).state,
                    n,
                ))),
            final(self).state.reviewable_diffs@ == old(self).state.reviewable_diffs@,
            final(self).state.instructions == old(self).state.instructions,
            final(self).state.decisions == old(self).state.decisions,
            final(self).state.decision_instructions == old(self).state.decision_instructions,
            final(self).state.author@ == old(self).state.author@,
            approved_by(final(self).state.approvals.record_of(reviewable_id@), approver@),
            final(self).state.approvals.approved_spec(reviewable_id@),
            forall|n: u32|
                decisions_of_chunk(old(self).state.decisions.decision_index@, reviewable_id@).contains(n)
                    && !old(self).state.decision_approvals.approved_spec(n) ==> (
                #[trigger] final(self).state.decision_approvals.approved_spec(n) <==> forall|k: ReviewableDiffIdView|
                    #[trigger] indexed_under(old(self).state.decisions.decision_index@, n).contains(k)
                        ==> final(self).state.approvals.approved_spec(k)),
            forall|k: ReviewableDiffIdView|
                k != reviewable_id@ ==> final(self).state.approvals.record_of(k) == old(self).state.approvals.record_of(k),
            forall|n: u32|
                {
                    let cascades = decisions_of_chunk(
                        old(self).state.decisions.decision_index@,
                        reviewable_id@,
                    ).contains(n) && all_chunks_approved(final(self).state, n)
                        && !old(self).state.decision_approvals.approved_spec(n);
                    if cascades {
                        approved_by(
                            #[trigger] final(self).state.decision_approvals.record_of(n),
                            approver@,
                        )
                    } else {
                        final(self).state.decision_approvals.record_of(n) == old(self).state.decision_approvals.record_of(n)
                    }
                },
    {
        let nums = self.decisions_for_chunk(&reviewable_id);
        let id_copy = reviewable_id.duplicate();
        self.state.approve(reviewable_id, approver.clone());
        self.invalidate(&id_copy);
        let ghost s1 = self.state;
        let ghost c1 = self.renderable_cache@;
        let mut i: usize = 0;
        while i < nums.len()
            invariant
                self.renderable_cache@ == c1,
                self.wf(),
                i <= nums@.len(),
                same_but_decision_approvals(self.state, s1),
                s1.wf(),
                forall|n: u32|
                    {
                        let cascades = nums@.take(i as int).contains(n) && all_chunks_approved(
                            s1,
                            n,
                        ) && !s1.decision_approvals.approved_spec(n);
                        if cascades {
                            approved_by(
                                #[trigger] self.state.decision_approvals.record_of(n),
                                approver@,
                            )
                        } else {
                            self.state.decision_approvals.record_of(n)
                                == s1.decision_approvals.record_of(n)
                        }
                    },
            decreases nums@.len() - i,
        {
            let n = nums[i];
            let ghost before = self.state;
            assert(forall|m: u32| #![trigger before.decision_approvals.record_of(m)]
                {
                    let cascades = nums@.take(i as int).contains(m) && all_chunks_approved(s1, m)
                        && !s1.decision_approvals.approved_spec(m);
                    if cascades {
                        approved_by(before.decision_approvals.record_of(m), approver@)
                    } else {
                        before.decision_approvals.record_of(m) == s1.decision_approvals.record_of(m)
                    }
                });
            let (approved, total) = self.state.decision_approval_progress(n);
            let already = self.state.is_decision_approved(n);
            proof {
                assert(nums@.take(i + 1) =~= nums@.take(i as int).push(n));
                assert(self.state.approvals == s1.approvals);
                assert(self.state.decisions == s1.decisions);
                assert(all_chunks_approved(s1, n) == (total > 0 && approved == total));
            }
            if total > 0 && approved == total && !already {
                self.state.approve_decision(n, approver.clone());
            }
            proof {
                assert forall|m: u32| #![trigger self.state.decision_approvals.record_of(m)]
                    true implies ({
                    let cascades = nums@.take(i + 1).contains(m) && all_chunks_approved(s1, m)
                        && !s1.decision_approvals.approved_spec(m);
                    if cascades {
                        approved_by(self.state.decision_approvals.record_of(m), approver@)
                    } else {
                        self.state.decision_approvals.record_of(m) == s1.decision_approvals.record_of(m)
                    }
                }) by {
                    let old_rec = before.decision_approvals.record_of(m);
                    let in_old = nums@.take(i as int).contains(m);
                    let in_new = nums@.take(i + 1).contains(m);
                    if in_new && !in_old {
                        let w = choose|w: int| 0 <= w < i + 1 && #[trigger] nums@.take(i + 1)[w] == m;
                        if w < i {
                            assert(nums@.take(i as int)[w] == m);
                        }
                        assert(m == n);
                    }
                    if in_old {
                        let w = choose|w: int| 0 <= w < i && #[trigger] nums@.take(i as int)[w] == m;
                        assert(nums@.take(i + 1)[w] == m);
                    }
                    if m == n {
                        assert(nums@.take(i + 1)[i as int] == m);
                        assert(in_new);
                    }
                }
            }
            i = i + 1;
        }
        assert(nums@.take(i as int) =~= nums@);
        proof {
            assert forall|n: u32|
                decisions_of_chunk(old(self).state.decisions.decision_index@, reviewable_id@).contains(
                    n,
                ) implies (#[trigger] self.state.decision_approvals.approved_spec(n) == (old(self).state.decision_approvals.approved_spec(n) || all_chunks_approved(self.state, n))) by {
                let rec = self.state.decision_approvals.record_of(n);
                assert(old(self).state.decision_approvals.record_of(n) == s1.decision_approvals.record_of(n));
            }
            let index = old(self).state.decisions.decision_index@;
            assert forall|n: u32|
                decisions_of_chunk(index, reviewable_id@).contains(n)
                    && !old(self).state.decision_approvals.approved_spec(n) implies (
                #[trigger] self.state.decision_approvals.approved_spec(n) <==> forall|k: ReviewableDiffIdView|
                    #[trigger] indexed_under(index, n).contains(k) ==> self.state.approvals.approved_spec(k)) by {
                lemma_all_chunks_approved(self.state, n);
                assert(indexed_under(index, n).contains(reviewable_id@));
                lemma_chunks_of_indexed(index, n);
                assert(chunks_of(index, n).to_set().contains(reviewable_id@));
            }
        }
        notify(on_result, true, from_text("ReviewableDiff approved"));
        Ok(())
    }
}

/// The values of a list of identifiers.
pub open spec fn ids_view(v: Seq<ReviewableDiffId>) -> Seq<ReviewableDiffIdView> {
    v.map_values(|x: ReviewableDiffId| x@)
}

/// An entry that lists decision `n` puts its chunk among `n`'s chunks.
pub proof fn lemma_chunks_of_contains(index: Seq<(ReviewableDiffId, Vec<u32>)>, p: int, n: u32)
    requires
        0 <= p < index.len(),
        index[p].1@.contains(n),
    ensures
        chunks_of(index, n).contains(index[p].0@),
    decreases index.len(),
{
    let c = chunks_of(index, n);
    if p == index.len() - 1 {
        assert(c[c.len() - 1] == index[p].0@);
    } else {
        assert(index.drop_last()[p] == index[p]);
        lemma_chunks_of_contains(index.drop_last(), p, n);
        let c0 = chunks_of(index.drop_last(), n);
        let w = choose|w: int| 0 <= w < c0.len() && c0[w] == index[p].0@;
        assert(c[w] == c0[w]);
    }
}

impl ReviewEngine {
    /// Withdraws the approval of a chunk. Each decision listed for the chunk
    /// that was approved, and whose chunks are now not all approved, loses
    /// its approval.
    pub fn reject<F: FnOnce(bool, Option<String>)>(
        &mut self,
        reviewable_id: ReviewableDiffId,
        on_result: Option<F>,
    ) -> (r: Result<(), DiffVizError>)
        requires
            old(self).wf(),
            on_result matches Some(f) ==> accepts(f, true, "ReviewableDiff rejected"@),
        ensures
            final(self).wf(),
            r is Ok,
            on_result matches Some(f) ==> notified(f, true, "ReviewableDiff rejected"@),
            forall|e: (ReviewableDiffId, String)|
                #[trigger] final(self).renderable_cache@.contains(e) <==> (old(self).renderable_cache@.contains(e)
                    && e.0@ != reviewable_id@),
            forall|n: u32|
                decisions_of_chunk(old(self).state.decisions.decision_index@, reviewable_id@).contains(
                    n,
                ) ==> !#[trigger] final(self).state.decision_approvals.approved_spec(n),
            final(self).state.reviewable_diffs@ == old(self).state.reviewable_diffs@,
            final(self).state.instructions == old(self).state.instructions,
            final(self).state.decisions == old(self).state.decisions,
            final(self).state.decision_instructions == old(self).state.decision_instructions,
            final(self).state.author@ == old(self).state.author@,
            final(self).state.approvals.record_of(reviewable_id@) is None,
            forall|k: ReviewableDiffIdView|
                k != reviewable_id@ ==> final(self).state.approvals.record_of(k) == old(self).state.approvals.record_of(k),
            forall|n: u32| #![trigger final(self).state.decision_approvals.record_of(n)]
                {
                    let c = chunks_of(final(self).state.decisions.decision_index@, n);
                    let cascades = decisions_of_chunk(
                        old(self).state.decisions.decision_index@,
                        reviewable_id@,
                    ).contains(n) && old(self).state.decision_approvals.approved_spec(n) && c.len()
                        > 0 && approved_among(final(self).state.approvals, c) < c.len();
                    if cascades {
                        final(self).state.decision_approvals.record_of(n) is None
                    } else {
                        final(self).state.decision_approvals.record_of(n) == old(self).state.decision_approvals.record_of(n)
                    }
                },
    {
        let nums = self.decisions_for_chunk(&reviewable_id);
        self.state.unapprove(&reviewable_id);
        self.invalidate(&reviewable_id);
        let ghost s1 = self.state;
        let ghost c1 = self.renderable_cache@;
        let mut i: usize = 0;
        while i < nums.len()
            invariant
                self.renderable_cache@ == c1,
                self.wf(),
                i <= nums@.len(),
                same_but_decision_approvals(self.state, s1),
                s1.wf(),
                forall|n: u32| #![trigger self.state.decision_approvals.record_of(n)]
                    {
                        let c = chunks_of(s1.decisions.decision_index@, n);
                        let cascades = nums@.take(i as int).contains(n)
                            && s1.decision_approvals.approved_spec(n) && c.len() > 0 && approved_among(
                            s1.approvals,
                            c,
                        ) < c.len();
                        if cascades {
                            self.state.decision_approvals.record_of(n) is None
                        } else {
                            self.state.decision_approvals.record_of(n)
                                == s1.decision_approvals.record_of(n)
                        }
                    },
            decreases nums@.len() - i,
        {
            let n = nums[i];
            let ghost before = self.state;
            assert(forall|m: u32| #![trigger before.decision_approvals.record_of(m)]
                {
                    let c = chunks_of(s1.decisions.decision_index@, m);
                    let cascades = nums@.take(i as int).contains(m)
                        && s1.decision_approvals.approved_spec(m) && c.len() > 0 && approved_among(
                        s1.approvals,
                        c,
                    ) < c.len();
                    if cascades {
                        before.decision_approvals.record_of(m) is None
                    } else {
                        before.decision_approvals.record_of(m) == s1.decision_approvals.record_of(m)
                    }
                });
            if self.state.is_decision_approved(n) {
                let (approved, total) = self.state.decision_approval_progress(n);
                proof {
                    assert(self.state.approvals == s1.approvals);
                    assert(self.state.decisions == s1.decisions);
                }
                if total > 0 && approved < total {
                    self.state.unapprove_decision(n);
                }
            }
            proof {
                assert forall|m: u32| #![trigger self.state.decision_approvals.record_of(m)]
                    true implies ({
                    let c = chunks_of(s1.decisions.decision_index@, m);
                    let cascades = nums@.take(i + 1).contains(m)
                        && s1.decision_approvals.approved_spec(m) && c.len() > 0 && approved_among(
                        s1.approvals,
                        c,
                    ) < c.len();
                    if cascades {
                        self.state.decision_approvals.record_of(m) is None
                    } else {
                        self.state.decision_approvals.record_of(m) == s1.decision_approvals.record_of(m)
                    }
                }) by {
                    let old_rec = before.decision_approvals.record_of(m);
                    let in_old = nums@.take(i as int).contains(m);
                    let in_new = nums@.take(i + 1).contains(m);
                    if in_new && !in_old {
                        let w = choose|w: int| 0 <= w < i + 1 && #[trigger] nums@.take(i + 1)[w] == m;
                        if w < i {
                            assert(nums@.take(i as int)[w] == m);
                        }
                        assert(m == n);
                    }
                    if in_old {
                        let w = choose|w: int| 0 <= w < i && #[trigger] nums@.take(i as int)[w] == m;
                        assert(nums@.take(i + 1)[w] == m);
                    }
                    if m == n {
                        assert(nums@.take(i + 1)[i as int] == m);
                        assert(in_new);
                    }
                }
            }
            i = i + 1;
        }
        assert(nums@.take(i as int) =~= nums@);
        proof {
            let index = s1.decisions.decision_index@;
            assert forall|n: u32|
                decisions_of_chunk(old(self).state.decisions.decision_index@, reviewable_id@).contains(
                    n,
                ) implies !#[trigger] self.state.decision_approvals.approved_spec(n) by {
                let rec = self.state.decision_approvals.record_of(n);
                lemma_find_key(index, reviewable_id@, 0);
                let p = find_key(index, reviewable_id@, 0)->0;
                lemma_chunks_of_contains(index, p, n);
                let c = chunks_of(index, n);
                let w = choose|w: int| 0 <= w < c.len() && c[w] == reviewable_id@;
                lemma_approved_among_missing(s1.approvals, c, w);
            }
        }
        notify(on_result, true, from_text("ReviewableDiff rejected"));
        Ok(())
    }

    /// The chunks of a decision, in index order.
    fn get_chunks_for_decision(&self, decision_number: u32) -> (r: Vec<ReviewableDiffId>)
        ensures
            ids_view(r@) == chunks_of(self.state.decisions.decision_index@, decision_number),
    {
        let ghost index = self.state.decisions.decision_index@;
        let mut out: Vec<ReviewableDiffId> = Vec::new();
        let mut i: usize = 0;
        while i < self.state.decisions.decision_index.len()
            invariant
                index == self.state.decisions.decision_index@,
                i <= index.len(),
                ids_view(out@) == chunks_of(index.take(i as int), decision_number),
            decreases index.len() - i,
        {
            assert(index.take(i + 1).drop_last() =~= index.take(i as int));
            let entry = &self.state.decisions.decision_index[i];
            if has_number(&entry.1, decision_number) {
                let ghost o0 = out@;
                out.push(entry.0.duplicate());
                assert(ids_view(out@) =~= ids_view(o0).push(entry.0@));
            }
            i = i + 1;
        }
        assert(index.take(i as int) =~= index);
        out
    }

    /// Approves a decision and every one of its chunks in the name of
    /// `approver`, and says how many chunks that touched.
    pub fn approve_decision(&mut self, decision_number: u32, approver: String) -> (r: Result<
        CascadeResult,
        DiffVizError,
    >)
        requires
            old(self).wf(),
        ensures
            final(self).wf(),
            final(self).state.reviewable_diffs@ == old(self).state.reviewable_diffs@,
            final(self).state.instructions == old(self).state.instructions,
            final(self).state.decisions == old(self).state.decisions,
            final(self).state.decision_instructions == old(self).state.decision_instructions,
            final(self).state.author@ == old(self).state.author@,
            ({
                let c = chunks_of(old(self).state.decisions.decision_index@, decision_number);
                &&& r == if c.len() == 0 {
                    Ok::<CascadeResult, DiffVizError>(CascadeResult::NoChunksAffected { decision_number })
                } else {
                    Ok::<CascadeResult, DiffVizError>(CascadeResult::DecisionApproved { decision_number, chunks_affected: c.len() as usize })
                }
                &&& forall|k: ReviewableDiffIdView|
                    if c.contains(k) {
                        approved_by(#[trigger] final(self).state.approvals.record_of(k), approver@)
                    } else {
                        final(self).state.approvals.record_of(k) == old(self).state.approvals.record_of(k)
                    }
            }),
            approved_by(final(self).state.decision_approvals.record_of(decision_number), approver@),
            forall|n: u32|
                n != decision_number ==> final(self).state.decision_approvals.record_of(n) == old(self).state.decision_approvals.record_of(n),
            chunks_of(old(self).state.decisions.decision_index@, decision_number).len() > 0
                ==> all_chunks_approved(final(self).state, decision_number),
            ({
                let c = indexed_under(old(self).state.decisions.decision_index@, decision_number);
                &&& r == if c.len() == 0 {
                    Ok::<CascadeResult, DiffVizError>(CascadeResult::NoChunksAffected { decision_number })
                } else {
                    Ok::<CascadeResult, DiffVizError>(CascadeResult::DecisionApproved { decision_number, chunks_affected: c.len() as usize })
                }
                &&& forall|k: ReviewableDiffIdView| #[trigger] c.contains(k) ==> final(self).state.approvals.approved_spec(k)
                &&& forall|k: ReviewableDiffIdView|
                    !c.contains(k) ==> #[trigger] final(self).state.approvals.record_of(k) == old(self).state.approvals.record_of(k)
            }),
            final(self).state.decision_approvals.approved_spec(decision_number),
    {
        proof {
            lemma_chunks_of_indexed(old(self).state.decisions.decision_index@, decision_number);
        }
        self.state.approve_decision(decision_number, approver.clone());
        let chunks = self.get_chunks_for_decision(decision_number);
        let ghost c = ids_view(chunks@);
        let ghost s1 = self.state;
        let mut j: usize = 0;
        while j < chunks.len()
            invariant
                self.wf(),
                c == ids_view(chunks@),
                j <= chunks@.len(),
                same_but_approvals(self.state, s1),
                self.state.decision_approvals == s1.decision_approvals,
                forall|k: ReviewableDiffIdView|
                    if c.take(j as int).contains(k) {
                        approved_by(#[trigger] self.state.approvals.record_of(k), approver@)
                    } else {
                        self.state.approvals.record_of(k) == s1.approvals.record_of(k)
                    },
            decreases chunks@.len() - j,
        {
            let ghost before = self.state;
            assert(forall|k: ReviewableDiffIdView| #![trigger before.approvals.record_of(k)]
                if c.take(j as int).contains(k) {
                    approved_by(before.approvals.record_of(k), approver@)
                } else {
                    before.approvals.record_of(k) == s1.approvals.record_of(k)
                });
            assert(c[j as int] == chunks@[j as int]@);
            let id = chunks[j].duplicate();
            self.state.approve(id, approver.clone());
            self.invalidate(&chunks[j]);
            proof {
                assert forall|k: ReviewableDiffIdView| #![trigger self.state.approvals.record_of(k)]
                    true implies (if c.take(j + 1).contains(k) {
                    approved_by(self.state.approvals.record_of(k), approver@)
                } else {
                    self.state.approvals.record_of(k) == s1.approvals.record_of(k)
                }) by {
                    let old_rec = before.approvals.record_of(k);
                    if c.take(j + 1).contains(k) && !c.take(j as int).contains(k) {
                        let w = choose|w: int| 0 <= w < j + 1 && #[trigger] c.take(j + 1)[w] == k;
                        if w < j {
                            assert(c.take(j as int)[w] == k);
                        }
                    }
                    if c.take(j as int).contains(k) {
                        let w = choose|w: int| 0 <= w < j && #[trigger] c.take(j as int)[w] == k;
                        assert(c.take(j + 1)[w] == k);
                    }
                    if k == c[j as int] {
                        assert(c.take(j + 1)[j as int] == k);
                    }
                }
            }
            j = j + 1;
        }
        assert(c.take(j as int) =~= c);
        proof {
            assert forall|i: int| 0 <= i < c.len() implies self.state.approvals.approved_spec(
                #[trigger] c[i],
            ) by {
                assert(c.contains(c[i]));
                let rec = self.state.approvals.record_of(c[i]);
            }
            lemma_approved_among_all(self.state.approvals, c);
        }
        if chunks.len() == 0 {
            Ok(CascadeResult::NoChunksAffected { decision_number })
        } else {
            Ok(CascadeResult::DecisionApproved { decision_number, chunks_affected: chunks.len() })
        }
    }

    /// Withdraws the approval of a decision and of every one of its chunks,
    /// and says how many chunks that touched.
    pub fn reject_decision(&mut self, decision_number: u32) -> (r: Result<CascadeResult, DiffVizError>)
        requires
            old(self).wf(),
        ensures
            final(self).wf(),
            final(self).state.reviewable_diffs@ == old(self).state.reviewable_diffs@,
            final(self).state.instructions == old(self).state.instructions,
            final(self).state.decisions == old(self).state.decisions,
            final(self).state.decision_instructions == old(self).state.decision_instructions,
            final(self).state.author@ == old(self).state.author@,
            ({
                let c = chunks_of(old(self).state.decisions.decision_index@, decision_number);
                &&& r == if c.len() == 0 {
                    Ok::<CascadeResult, DiffVizError>(CascadeResult::NoChunksAffected { decision_number })
                } else {
                    Ok::<CascadeResult, DiffVizError>(CascadeResult::DecisionUnapproved { decision_number, chunks_affected: c.len() as usize })
                }
                &&& forall|k: ReviewableDiffIdView| #![trigger final(self).state.approvals.record_of(k)]
                    if c.contains(k) {
                        final(self).state.approvals.record_of(k) is None
                    } else {
                        final(self).state.approvals.record_of(k) == old(self).state.approvals.record_of(k)
                    }
            }),
            final(self).state.decision_approvals.record_of(decision_number) is None,
            forall|n: u32|
                n != decision_number ==> final(self).state.decision_approvals.record_of(n) == old(self).state.decision_approvals.record_of(n),
            approved_among(
                final(self).state.approvals,
                chunks_of(old(self).state.decisions.decision_index@, decision_number),
            ) == 0,
    {
        self.state.unapprove_decision(decision_number);
        let chunks = self.get_chunks_for_decision(decision_number);
        let ghost c = ids_view(chunks@);
        let ghost s1 = self.state;
        let mut j: usize = 0;
        while j < chunks.len()
            invariant
                self.wf(),
                c == ids_view(chunks@),
                j <= chunks@.len(),
                same_but_approvals(self.state, s1),
                self.state.decision_approvals == s1.decision_approvals,
                forall|k: ReviewableDiffIdView| #![trigger self.state.approvals.record_of(k)]
                    if c.take(j as int).contains(k) {
                        self.state.approvals.record_of(k) is None
                    } else {
                        self.state.approvals.record_of(k) == s1.approvals.record_of(k)
                    },
            decreases chunks@.len() - j,
        {
            let ghost before = self.state;
            assert(forall|k: ReviewableDiffIdView| #![trigger before.approvals.record_of(k)]
                if c.take(j as int).contains(k) {
                    before.approvals.record_of(k) is None
                } else {
                    before.approvals.record_of(k) == s1.approvals.record_of(k)
                });
            assert(c[j as int] == chunks@[j as int]@);
            self.state.unapprove(&chunks[j]);
            self.invalidate(&chunks[j]);
            proof {
                assert forall|k: ReviewableDiffIdView| #![trigger self.state.approvals.record_of(k)]
                    true implies (if c.take(j + 1).contains(k) {
                    self.state.approvals.record_of(k) is None
                } else {
                    self.state.approvals.record_of(k) == s1.approvals.record_of(k)
                }) by {
                    let old_rec = before.approvals.record_of(k);
                    if c.take(j + 1).contains(k) && !c.take(j as int).contains(k) {
                        let w = choose|w: int| 0 <= w < j + 1 && #[trigger] c.take(j + 1)[w] == k;
                        if w < j {
                            assert(c.take(j as int)[w] == k);
                        }
                    }
                    if c.take(j as int).contains(k) {
                        let w = choose|w: int| 0 <= w < j && #[trigger] c.take(j as int)[w] == k;
                        assert(c.take(j + 1)[w] == k);
                    }
                    if k == c[j as int] {
                        assert(c.take(j + 1)[j as int] == k);
                    }
                }
            }
            j = j + 1;
        }
        assert(c.take(j as int) =~= c);
        proof {
            assert forall|i: int| 0 <= i < c.len() implies !self.state.approvals.approved_spec(
                #[trigger] c[i],
            ) by {
                assert(c.contains(c[i]));
                let rec = self.state.approvals.record_of(c[i]);
            }
            lemma_approved_among_none(self.state.approvals, c);
        }
        if chunks.len() == 0 {
            Ok(CascadeResult::NoChunksAffected { decision_number })
        } else {
            Ok(CascadeResult::DecisionUnapproved { decision_number, chunks_affected: chunks.len() })
        }
    }
}

/// The outcome of a review session.
#[derive(Debug, Clone, PartialEq, Eq, Structural)]
pub struct ReviewSummary {
    pub total_reviewable_diffs: usize,
    pub approved_reviewable_diffs: usize,
    pub instructions_added: usize,
    pub files_reviewed: usize,
    pub cache_hits: usize,
}

/// The number of distinct files of `ds`.
pub open spec fn file_count(ds: Seq<ReviewableDiffView>) -> nat {
    first_files(ds).len()
}

/// The index entries as (chunk, decision) pairs, entry by entry.
pub open spec fn index_pairs(index: Seq<(ReviewableDiffId, Vec<u32>)>) -> Seq<(ReviewableDiffIdView, u32)>
    decreases index.len(),
{
    if index.len() == 0 {
        seq![]
    } else {
        index_pairs(index.drop_last()) + index.last().1@.map_values(
            |n: u32| (index.last().0@, n),
        )
    }
}

impl ReviewEngine {
    /// Adds an instruction for a chunk, with a fresh identifier and the
    /// current time; it is folded into the chunk's note if it has one.
    pub fn add_instruction<F: FnOnce(bool, Option<String>)>(
        &mut self,
        reviewable_id: ReviewableDiffId,
        content: String,
        author: String,
        on_result: Option<F>,
    ) -> (r: Result<(), DiffVizError>)
        requires
            old(self).wf(),
            on_result matches Some(f) ==> accepts(f, true, "Instruction added"@),
        ensures
            final(self).wf(),
            r is Ok,
            on_result matches Some(f) ==> notified(f, true, "Instruction added"@),
            forall|e: (ReviewableDiffId, String)|
                #[trigger] final(self).renderable_cache@.contains(e) <==> (old(self).renderable_cache@.contains(e)
                    && e.0@ != reviewable_id@),
            same_but_instructions(final(self).state, old(self).state),
            exists|id: Seq<char>, timestamp: Seq<char>|
                uuid_v4_text(id) && utc_stamp_text(timestamp)
                    && final(self).state.instructions.entries() == old(self).state.instructions.added(
                    reviewable_id@,
                    InstructionView {
                        id,
                        author: author@,
                        timestamp,
                        content: content@,
                        status: InstructionStatus::Active,
                    },
                ),
    {
        let instruction = Instruction {
            id: new_uuid(),
            author,
            timestamp: utc_timestamp(),
            content,
            status: InstructionStatus::Active,
        };
        let ghost iv = instruction@;
        let id_copy = reviewable_id.duplicate();
        self.state.add_instruction(reviewable_id, instruction);
        self.invalidate(&id_copy);
        assert(self.state.instructions.entries() == old(self).state.instructions.added(id_copy@, iv));
        notify(on_result, true, from_text("Instruction added"));
        Ok(())
    }

    /// Approves every chunk of a file in the name of `approver`.
    pub fn approve_all_in_file<F: FnOnce(bool, Option<String>)>(
        &mut self,
        file_path: &str,
        approver: String,
        on_result: Option<F>,
    ) -> (r: Result<(), DiffVizError>)
        requires
            old(self).wf(),
            on_result matches Some(f) ==> accepts(
                f,
                file_approval_message(count_in_file(old(self).state.diffs(), file_path@)).0,
                file_approval_message(count_in_file(old(self).state.diffs(), file_path@)).1,
            ),
        ensures
            final(self).wf(),
            r is Ok,
            on_result matches Some(f) ==> notified(
                f,
                file_approval_message(count_in_file(old(self).state.diffs(), file_path@)).0,
                file_approval_message(count_in_file(old(self).state.diffs(), file_path@)).1,
            ),
            forall|e: (ReviewableDiffId, String)|
                #[trigger] final(self).renderable_cache@.contains(e) <==> (old(self).renderable_cache@.contains(e)
                    && !id_in_file(old(self).state.diffs(), file_path@, e.0@)),
            same_but_approvals(final(self).state, old(self).state),
            forall|k: ReviewableDiffIdView|
                id_in_file(old(self).state.diffs(), file_path@, k) ==> approved_by(
                    final(self).state.approvals.record_of(k),
                    approver@,
                ),
            forall|k: ReviewableDiffIdView|
                !id_in_file(old(self).state.diffs(), file_path@, k) ==> final(self).state.approvals.record_of(k) == old(self).state.approvals.record_of(k),
    {
        let ghost ds = old(self).state.diffs();
        let mut count: usize = 0;
        let mut i: usize = 0;
        while i < self.state.reviewable_diffs.len()
            invariant
                self.state == old(self).state,
                ds == self.state.diffs(),
                i <= ds.len(),
                count == count_in_file(ds.take(i as int), file_path@),
                count <= i,
                forall|e: (ReviewableDiffId, String)|
                    #[trigger] self.renderable_cache@.contains(e) <==> (old(self).renderable_cache@.contains(e)
                        && !id_in_file(ds.take(i as int), file_path@, e.0@)),
            decreases self.state.reviewable_diffs@.len() - i,
        {
            let ghost t0 = ds.take(i as int);
            let ghost t1 = ds.take(i + 1);
            proof {
                assert(t1.drop_last() =~= t0);
                assert(t1.last() == ds[i as int]);
                assert(ds[i as int] == self.state.reviewable_diffs@[i as int]@);
            }
            let same = crate::review::text_order::same_text(
                self.state.reviewable_diffs[i].file_path.as_str(),
                file_path,
            );
            let ghost c0 = self.renderable_cache@;
            if same {
                let id = self.state.reviewable_diffs[i].id.duplicate();
                self.invalidate(&id);
                count = count + 1;
            }
            proof {
                assert forall|k: ReviewableDiffIdView| #[trigger] id_in_file(t1, file_path@, k) <==> (id_in_file(
                    t0,
                    file_path@,
                    k,
                ) || (ds[i as int].file_path == file_path@ && ds[i as int].id == k)) by {
                    if id_in_file(t1, file_path@, k) {
                        let j = choose|j: int| 0 <= j < t1.len() && (#[trigger] t1[j]).file_path == file_path@ && t1[j].id == k;
                        if j < i {
                            assert(t0[j] == t1[j]);
                        }
                    }
                    if id_in_file(t0, file_path@, k) {
                        let j = choose|j: int| 0 <= j < t0.len() && (#[trigger] t0[j]).file_path == file_path@ && t0[j].id == k;
                        assert(t1[j] == t0[j]);
                    }
                    if ds[i as int].file_path == file_path@ && ds[i as int].id == k {
                        assert(t1[i as int] == ds[i as int]);
                    }
                }
            }
            i = i + 1;
        }
        proof {
            assert(ds.take(i as int) =~= ds);
        }
        self.state.approve_all_in_file(file_path, approver);
        if count > 0 {
            let mut message = from_text("Approved ");
            push_decimal(&mut message, count);
            push_text(&mut message, " ReviewableDiffs in file");
            notify(on_result, true, message);
        } else {
            notify(on_result, false, from_text("No ReviewableDiffs found in file"));
        }
        Ok(())
    }

    /// Whether a decision is approved.
    pub fn is_decision_approved(&self, decision_number: u32) -> (b: bool)
        ensures
            b == self.state.decision_approvals.approved_spec(decision_number),
    {
        self.state.is_decision_approved(decision_number)
    }

    /// The number of approved chunks of a decision and the number of its
    /// chunks.
    pub fn decision_approval_progress(&self, decision_number: u32) -> (r: (usize, usize))
        ensures
            r.1 == chunks_of(self.state.decisions.decision_index@, decision_number).len(),
            r.0 == approved_among(
                self.state.approvals,
                chunks_of(self.state.decisions.decision_index@, decision_number),
            ),
    {
        self.state.decision_approval_progress(decision_number)
    }

    /// The chunks grouped by file.
    pub fn get_reviewable_diffs_by_file(&self) -> (r: Vec<(String, Vec<&ReviewableDiff>)>)
        ensures
            r@.len() == first_files(self.state.diffs()).len(),
            forall|a: int|
                0 <= a < r@.len() ==> (#[trigger] r@[a]).0@ == first_files(self.state.diffs())[a]
                    && diff_refs_view(r@[a].1@) == of_file(self.state.diffs(), r@[a].0@),
    {
        self.state.get_reviewable_diffs_by_file()
    }

    /// The chunks' identifiers, in order.
    pub fn get_ordered_reviewable_ids(&self) -> (r: Vec<&ReviewableDiffId>)
        ensures
            r@.len() == self.state.diffs().len(),
            forall|i: int| 0 <= i < r@.len() ==> (#[trigger] r@[i])@ == self.state.diffs()[i].id,
    {
        self.state.get_ordered_reviewable_ids()
    }

    /// The number of chunks, of approved chunks, and of notes.
    pub fn review_counts(&self) -> (r: (usize, usize, usize))
        requires
            notes_count(self.state.instructions.entries()) <= usize::MAX,
        ensures
            r.0 == self.state.diffs().len(),
            r.1 == approved_count(self.state.approvals.approvals@),
            r.2 == notes_count(self.state.instructions.entries()),
    {
        let (approved, total) = self.state.approval_counts();
        (total, approved, self.state.instructions.total_instructions())
    }

    /// A summary of the session.
    pub fn complete_review(&self) -> (r: Result<ReviewSummary, DiffVizError>)
        requires
            notes_count(self.state.instructions.entries()) <= usize::MAX,
        ensures
            r == Ok::<ReviewSummary, DiffVizError>(
                ReviewSummary {
                    total_reviewable_diffs: self.state.diffs().len() as usize,
                    approved_reviewable_diffs: approved_count(self.state.approvals.approvals@) as usize,
                    instructions_added: notes_count(self.state.instructions.entries()) as usize,
                    files_reviewed: file_count(self.state.diffs()) as usize,
                    cache_hits: self.renderable_cache@.len() as usize,
                },
            ),
    {
        let (total, approved, notes) = self.review_counts();
        let files = self.get_file_paths();
        proof {
            lemma_file_paths_count(self.state.diffs(), strings_view(files@));
        }
        Ok(
            ReviewSummary {
                total_reviewable_diffs: total,
                approved_reviewable_diffs: approved,
                instructions_added: notes,
                files_reviewed: files.len(),
                cache_hits: self.renderable_cache.len(),
            },
        )
    }

    /// The session's state.
    pub fn state(&self) -> (s: &ReviewState)
        ensures
            *s == self.state,
    {
        &self.state
    }

    /// The author of the change under review.
    pub fn author(&self) -> (a: &str)
        ensures
            a@ == self.state.author@,
    {
        self.state.author()
    }

    /// Replaces the chunk approvals by loaded ones.
    pub fn load_approvals(&mut self, approvals: ReviewApprovals)
        requires
            old(self).wf(),
            approvals.wf(),
        ensures
            final(self).wf(),
            final(self).state.approvals == approvals,
            same_but_approvals(final(self).state, old(self).state),
            final(self).renderable_cache@ == old(self).renderable_cache@,
    {
        self.state.approvals = approvals;
    }

    /// Replaces the decision approvals by loaded ones.
    pub fn load_decision_approvals(&mut self, decision_approvals: DecisionApprovals)
        requires
            old(self).wf(),
            decision_approvals.wf(),
        ensures
            final(self).wf(),
            final(self).state.decision_approvals == decision_approvals,
            same_but_decision_approvals(final(self).state, old(self).state),
            final(self).renderable_cache@ == old(self).renderable_cache@,
    {
        self.state.decision_approvals = decision_approvals;
    }

    /// The files of the review, each once, in ascending order.
    pub fn get_file_paths(&self) -> (r: Vec<String>)
        ensures
            text_ascending(strings_view(r@)),
            forall|f: Seq<char>|
                strings_view(r@).contains(f) <==> exists|i: int|
                    0 <= i < self.state.diffs().len() && (#[trigger] self.state.diffs()[i]).file_path
                        == f,
    {
        self.state.get_file_paths()
    }

    /// Empties the cache of rendered chunks.
    pub fn clear_cache(&mut self)
        ensures
            final(self).state == old(self).state,
            final(self).renderable_cache@.len() == 0,
    {
        self.renderable_cache = Vec::new();
    }

    /// The number of cached renderings.
    pub fn cache_len(&self) -> (n: usize)
        ensures
            n == self.renderable_cache@.len(),
    {
        self.renderable_cache.len()
    }

    /// The chunk whose identifier has the order of `id`, if any.
    pub fn get_reviewable_diff(&self, id: &ReviewableDiffId) -> (r: Option<&ReviewableDiff>)
        ensures
            match r {
                Some(d) => self.state.diffs().contains(d@) && id_order(d@.id, id@) == 0,
                None => forall|i: int|
                    0 <= i < self.state.diffs().len() ==> id_order(
                        (#[trigger] self.state.diffs()[i]).id,
                        id@,
                    ) != 0,
            },
    {
        self.state.get_reviewable_diff(id)
    }

    /// Sets the decisions of the review, index included.
    pub fn set_decisions(&mut self, decisions: ReviewDecisions)
        requires
            old(self).wf(),
            decisions.wf(),
        ensures
            final(self).wf(),
            final(self).state.decisions == decisions,
            final(self).state.instructions == old(self).state.instructions,
            final(self).state.decision_instructions == old(self).state.decision_instructions,
            final(self).state.author@ == old(self).state.author@,
            final(self).state.approvals == old(self).state.approvals,
            final(self).state.decision_approvals == old(self).state.decision_approvals,
            final(self).state.reviewable_diffs@ == old(self).state.reviewable_diffs@,
    {
        self.state.decisions = decisions;
    }

    /// Sets the decisions of the review and rebuilds their index from its
    /// chunks.
    pub fn set_decisions_with_index(&mut self, decisions: ReviewDecisions)
        requires
            old(self).wf(),
            decisions.wf(),
        ensures
            final(self).wf(),
            final(self).state.decisions.decisions@ == decisions.decisions@,
            exists|order: Seq<crate::review::decision::DecisionView>|
                crate::review::decision::number_order(order, decisions.decisions_spec()) && forall|
                    i: int,
                |
                    0 <= i < final(self).state.diffs().len() ==> #[trigger] numbers_of(
                        final(self).state.decisions.decision_index@,
                        final(self).state.diffs()[i].id,
                    ) == (if crate::review::decision::index_numbers(
                        order,
                        final(self).state.diffs()[i],
                    ).len() > 0 {
                        Some(crate::review::decision::index_numbers(order, final(self).state.diffs()[i]))
                    } else {
                        None
                    }),
            final(self).state.approvals == old(self).state.approvals,
            final(self).state.decision_approvals == old(self).state.decision_approvals,
            final(self).state.reviewable_diffs@ == old(self).state.reviewable_diffs@,
    {
        let mut decisions = decisions;
        decisions.build_index_from_review_state(&self.state);
        self.state.decisions = decisions;
    }

    /// The decisions listed for a chunk.
    pub fn get_decisions_for_diff(&self, reviewable_id: &ReviewableDiffId) -> (r: Vec<&Decision>)
        ensures
            decision_refs_view(r@) == (match numbers_of(self.state.decisions.decision_index@, reviewable_id@) {
                Some(nums) => crate::review::decision::decisions_named(self.state.decisions.decisions_spec(), nums),
                None => seq![],
            }),
    {
        self.state.decisions.get_decisions_for_diff(reviewable_id)
    }

    /// The decision numbered `number`, if any.
    pub fn get_decision(&self, number: u32) -> (r: Option<&Decision>)
        ensures
            match r {
                Some(d) => decision_numbered(self.state.decisions.decisions_spec(), number) == Some(d@),
                None => decision_numbered(self.state.decisions.decisions_spec(), number) is None,
            },
    {
        self.state.decisions.get_decision(number)
    }

    /// All decisions, by increasing number.
    pub fn get_all_decisions(&self) -> (r: Vec<&Decision>)
        requires
            self.wf(),
        ensures
            crate::review::decision::number_order(decision_refs_view(r@), self.state.decisions.decisions_spec()),
    {
        self.state.decisions.all_decisions()
    }

    /// The number of approved decisions.
    pub fn get_approved_decisions_count(&self) -> (n: usize)
        ensures
            n == approved_count(self.state.decision_approvals.approvals@),
    {
        self.state.decision_approvals.total_approved()
    }

    /// One (chunk, decision) pair per number of each index entry.
    pub fn get_decision_reviewable_diffs(&self) -> (r: Vec<DecisionReviewableDiff>)
        ensures
            r@.map_values(|p: DecisionReviewableDiff| (p.chunk_id@, p.decision_number)) == index_pairs(
                self.state.decisions.decision_index@,
            ),
    {
        let ghost index = self.state.decisions.decision_index@;
        let mut out: Vec<DecisionReviewableDiff> = Vec::new();
        let mut i: usize = 0;
        while i < self.state.decisions.decision_index.len()
            invariant
                index == self.state.decisions.decision_index@,
                i <= index.len(),
                out@.map_values(|p: DecisionReviewableDiff| (p.chunk_id@, p.decision_number))
                    == index_pairs(index.take(i as int)),
            decreases index.len() - i,
        {
            let entry = &self.state.decisions.decision_index[i];
            let ghost before = out@.map_values(|p: DecisionReviewableDiff| (p.chunk_id@, p.decision_number));
            let mut j: usize = 0;
            while j < entry.1.len()
                invariant
                    j <= entry.1@.len(),
                    out@.map_values(|p: DecisionReviewableDiff| (p.chunk_id@, p.decision_number))
                        == before + entry.1@.take(j as int).map_values(|n: u32| (entry.0@, n)),
                decreases entry.1@.len() - j,
            {
                let ghost o0 = out@;
                out.push(DecisionReviewableDiff { chunk_id: entry.0.duplicate(), decision_number: entry.1[j] });
                proof {
                    assert(out@.map_values(|p: DecisionReviewableDiff| (p.chunk_id@, p.decision_number))
                        =~= o0.map_values(|p: DecisionReviewableDiff| (p.chunk_id@, p.decision_number)).push((entry.0@, entry.1@[j as int])));
                    assert(entry.1@.take(j + 1).map_values(|n: u32| (entry.0@, n)) =~= entry.1@.take(
                        j as int,
                    ).map_values(|n: u32| (entry.0@, n)).push((entry.0@, entry.1@[j as int])));
                }
                j = j + 1;
            }
            proof {
                assert(entry.1@.take(j as int) =~= entry.1@);
                assert(index.take(i + 1).drop_last() =~= index.take(i as int));
                assert(index.take(i + 1).last() == *entry);
            }
            i = i + 1;
        }
        assert(index.take(i as int) =~= index);
        out
    }

    /// Adds an instruction for a decision that exists, with a fresh
    /// identifier and the current time; it is folded into the decision's
    /// note if it has one. A number without a decision is refused.
    pub fn add_decision_instruction(&mut self, decision_number: u32, content: String, author: String) -> (r: Result<(), DiffVizError>)
        requires
            old(self).wf(),
        ensures
            final(self).wf(),
            decision_numbered(old(self).state.decisions.decisions_spec(), decision_number) is None
                ==> r == Err::<(), DiffVizError>(DiffVizError::Review(ReviewError::InvalidDecision { decision_number }))
                && final(self).state == old(self).state,
            decision_numbered(old(self).state.decisions.decisions_spec(), decision_number) is Some
                ==> r is Ok && exists|id: Seq<char>, timestamp: Seq<char>|
                uuid_v4_text(id) && utc_stamp_text(timestamp)
                    && final(self).state.decision_instructions.entries() == old(self).state.decision_instructions.pushed(
                    decision_number,
                    InstructionView {
                        id,
                        author: author@,
                        timestamp,
                        content: content@,
                        status: InstructionStatus::Active,
                    },
                ),
            final(self).state.approvals == old(self).state.approvals,
            final(self).state.decision_approvals == old(self).state.decision_approvals,
            final(self).state.instructions == old(self).state.instructions,
            final(self).state.decisions == old(self).state.decisions,
    {
        if self.state.decisions.get_decision(decision_number).is_none() {
            return Err(DiffVizError::Review(ReviewError::InvalidDecision { decision_number }));
        }
        let instruction = Instruction {
            id: new_uuid(),
            author,
            timestamp: utc_timestamp(),
            content,
            status: InstructionStatus::Active,
        };
        let ghost iv = instruction@;
        self.state.decision_instructions.add_instruction(decision_number, instruction);
        assert(self.state.decision_instructions.entries() == old(self).state.decision_instructions.pushed(decision_number, iv));
        Ok(())
    }

    /// Removes the decision instruction with the given identifier; refused
    /// where there is none.
    pub fn remove_decision_instruction(&mut self, instruction_id: &str) -> (r: Result<(), DiffVizError>)
        requires
            old(self).wf(),
        ensures
            final(self).wf(),
            match entry_with_note(old(self).state.decision_instructions.entries(), instruction_id@, 0) {
                Some((e, k)) => r is Ok && final(self).state.decision_instructions.entries() == old(self).state.decision_instructions.entries().update(
                    e,
                    (
                        old(self).state.decision_instructions.entries()[e].0,
                        old(self).state.decision_instructions.entries()[e].1.remove(k),
                    ),
                ),
                None => (r matches Err(DiffVizError::Review(ReviewError::InstructionNotFound { instruction_id: m })) && m@ == instruction_id@)
                    && final(self).state.decision_instructions.entries() == old(self).state.decision_instructions.entries(),
            },
            final(self).state.approvals == old(self).state.approvals,
            final(self).state.decision_approvals == old(self).state.decision_approvals,
            final(self).state.instructions == old(self).state.instructions,
            final(self).state.decisions == old(self).state.decisions,
    {
        match self.state.decision_instructions.remove_instruction_by_id(instruction_id) {
            Some(_) => Ok(()),
            None => Err(
                DiffVizError::Review(
                    ReviewError::InstructionNotFound { instruction_id: crate::text::from_text(instruction_id) },
                ),
            ),
        }
    }

    /// The notes of a decision, if it has an entry.
    pub fn get_decision_instructions(&self, decision_number: u32) -> (r: Option<Vec<&Instruction>>)
        ensures
            match find_key(self.state.decision_instructions.instructions.instructions@, decision_number, 0) {
                Some(p) => r matches Some(v) && ref_views(v@) == self.state.decision_instructions.entries()[p].1,
                None => r is None,
            },
    {
        match self.state.decision_instructions.get_instructions(decision_number) {
            Some(notes) => {
                let mut out: Vec<&Instruction> = Vec::new();
                let mut i: usize = 0;
                while i < notes.len()
                    invariant
                        i <= notes@.len(),
                        ref_views(out@) == notes_view(notes@.take(i as int)),
                    decreases notes@.len() - i,
                {
                    let ghost o0 = out@;
                    out.push(&notes[i]);
                    assert(ref_views(out@) =~= ref_views(o0).push(notes@[i as int]@));
                    assert(notes_view(notes@.take(i + 1)) =~= notes_view(notes@.take(i as int)).push(notes@[i as int]@));
                    i = i + 1;
                }
                assert(notes@.take(i as int) =~= notes@);
                Some(out)
            },
            None => None,
        }
    }
}

/// A list of distinct files in ascending order that holds exactly the files
/// of `ds` has as many entries as `ds` has distinct files.
proof fn lemma_file_paths_count(ds: Seq<ReviewableDiffView>, files: Seq<Seq<char>>)
    requires
        text_ascending(files),
        forall|f: Seq<char>|
            files.contains(f) <==> exists|i: int| 0 <= i < ds.len() && (#[trigger] ds[i]).file_path == f,
    ensures
        files.len() == file_count(ds),
{
    let ff = first_files(ds);
    crate::review::state::lemma_first_files_props(ds);
    // both lists hold the same distinct elements
    assert(files.no_duplicates()) by {
        assert forall|i: int, j: int| 0 <= i < files.len() && 0 <= j < files.len() && i != j implies files[i] != files[j] by {
            if i < j {
                assert(crate::review::text_order::text_order(files[i], files[j]) == -1);
            } else {
                assert(crate::review::text_order::text_order(files[j], files[i]) == -1);
            }
            crate::review::text_order::lemma_text_order_refl(files[i]);
        }
    }
    assert(files.to_set() =~= ff.to_set()) by {
        assert forall|f: Seq<char>| files.to_set().contains(f) <==> ff.to_set().contains(f) by {
            if files.contains(f) {
                let i = choose|i: int| 0 <= i < ds.len() && (#[trigger] ds[i]).file_path == f;
                assert(ff.contains(ds[i].file_path));
            }
            if ff.contains(f) {
                let i = choose|i: int| 0 <= i < ds.len() && (#[trigger] ds[i]).file_path == f;
                assert(files.contains(f));
            }
        }
    }
    files.unique_seq_to_set();
    ff.unique_seq_to_set();
}

} // verus!
