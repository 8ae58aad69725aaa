//! The state of a review session: its chunks, ordered by identifier, and
//! the approvals, instructions and decisions recorded for them.

use vstd::prelude::*;

use crate::review::approval::{approved_count, ApprovalRecordView, DecisionApprovals, ReviewApprovals};
use crate::review::decision::{numbers_of, ReviewDecisions};
use crate::review::decision_instructions::DecisionInstructions;
use crate::review::instruction::{notes_view, Instruction, ReviewInstructions};
use crate::review::keyed::{distinct_keys, find_key, lemma_find_key, lemma_find_key_unique};
use crate::review::text_order::{same_text, compare_text, lemma_text_order_antisym, lemma_text_order_range, lemma_text_order_trans, text_order};
use crate::review::reviewable_diff_id::{ReviewableDiffId, ReviewableDiffIdView};
use crate::review::text_order::{compare_ids, id_order, lemma_id_order_antisym, lemma_id_order_range, lemma_id_order_trans};
use crate::text::{from_text, is_decimal_digit, push_text};

verus! {

/// What a review keeps of an analysed diff: its language, its size, and the
/// syntax node (function, struct, ...) that bounds it.
#[derive(Debug, Clone)]
pub struct CoreDiff {
    /// Name of the programming language.
    pub language: String,
    /// Number of changes in the diff.
    pub total_changes: usize,
    /// Type of the bounding syntax node.
    pub boundary_node_type: String,
    /// Semantic kind of the bounding syntax node, as shown to those reviewing.
    pub boundary_kind: String,
}

/// The mathematical value of a `CoreDiff`.
pub struct CoreDiffView {
    pub language: Seq<char>,
    pub total_changes: usize,
    pub boundary_node_type: Seq<char>,
    pub boundary_kind: Seq<char>,
}

impl View for CoreDiff {
    type V = CoreDiffView;

    open spec fn view(&self) -> CoreDiffView {
        CoreDiffView {
            language: self.language@,
            total_changes: self.total_changes,
            boundary_node_type: self.boundary_node_type@,
            boundary_kind: self.boundary_kind@,
        }
    }
}

/// A chunk under review: a semantic unit of a diff and its identifier.
#[derive(Debug, Clone)]
pub struct ReviewableDiff {
    pub id: ReviewableDiffId,
    pub core_diff: CoreDiff,
    pub file_path: String,
    /// The line ranges cited by decisions that fell into this chunk.
    pub cited_ranges: Vec<(usize, usize)>,
}

/// The mathematical value of a `ReviewableDiff`.
pub struct ReviewableDiffView {
    pub id: ReviewableDiffIdView,
    pub core_diff: CoreDiffView,
    pub file_path: Seq<char>,
    pub cited_ranges: Seq<(usize, usize)>,
}

impl View for ReviewableDiff {
    type V = ReviewableDiffView;

    open spec fn view(&self) -> ReviewableDiffView {
        ReviewableDiffView {
            id: self.id@,
            core_diff: self.core_diff@,
            file_path: self.file_path@,
            cited_ranges: self.cited_ranges@,
        }
    }
}

/// How a chunk's bounding node is named: `type (kind)`.
pub open spec fn boundary_text(c: CoreDiffView) -> Seq<char> {
    c.boundary_node_type + " ("@ + c.boundary_kind + ")"@
}

impl ReviewableDiff {
    /// A chunk with no cited ranges.
    pub fn new(id: ReviewableDiffId, core_diff: CoreDiff, file_path: String) -> (d: Self)
        ensures
            d@ == (ReviewableDiffView {
                id: id@,
                core_diff: core_diff@,
                file_path: file_path@,
                cited_ranges: seq![],
            }),
    {
        ReviewableDiff { id, core_diff, file_path, cited_ranges: Vec::new() }
    }

    /// Records a cited range, unless it is recorded already.
    pub fn add_cited_range(&mut self, start: usize, end: usize)
        ensures
            final(self).id@ == old(self).id@,
            final(self).core_diff@ == old(self).core_diff@,
            final(self).file_path@ == old(self).file_path@,
            final(self).cited_ranges@ == if old(self).cited_ranges@.contains((start, end)) {
                old(self).cited_ranges@
            } else {
                old(self).cited_ranges@.push((start, end))
            },
    {
        let mut i: usize = 0;
        while i < self.cited_ranges.len()
            invariant
                i <= self.cited_ranges@.len(),
                forall|k: int| 0 <= k < i ==> self.cited_ranges@[k] != (start, end),
            decreases self.cited_ranges@.len() - i,
        {
            let (s, e) = self.cited_ranges[i];
            if s == start && e == end {
                assert(self.cited_ranges@[i as int] == (start, end));
                return;
            }
            i = i + 1;
        }
        self.cited_ranges.push((start, end));
    }

    /// The name of the language.
    pub fn language(&self) -> (l: &str)
        ensures
            l@ == self.core_diff.language@,
    {
        self.core_diff.language.as_str()
    }

    /// The number of changes.
    pub fn total_changes(&self) -> (n: usize)
        ensures
            n == self.core_diff.total_changes,
    {
        self.core_diff.total_changes
    }

    /// The name of the bounding node: `type (kind)`.
    pub fn boundary_name(&self) -> (s: String)
        ensures
            s@ == boundary_text(self.core_diff@),
    {
        let mut s = String::new();
        push_text(&mut s, self.core_diff.boundary_node_type.as_str());
        push_text(&mut s, " (");
        push_text(&mut s, self.core_diff.boundary_kind.as_str());
        push_text(&mut s, ")");
        assert(s@ =~= boundary_text(self.core_diff@));
        s
    }
}

/// The values of a list of chunks.
pub open spec fn diffs_view(v: Seq<ReviewableDiff>) -> Seq<ReviewableDiffView> {
    v.map_values(|d: ReviewableDiff| d@)
}

/// Chunks in strictly increasing order of identifier.
pub open spec fn ordered(s: Seq<ReviewableDiffView>) -> bool {
    forall|i: int, j: int| 0 <= i < j < s.len() ==> id_order((#[trigger] s[i]).id, (#[trigger] s[j]).id) == -1
}

/// Chunk `x` is in `items` and no later chunk has an identifier of the same
/// order: it is the one kept when the chunks are collected by identifier.
pub open spec fn kept(items: Seq<ReviewableDiffView>, x: ReviewableDiffView) -> bool {
    exists|i: int|
        0 <= i < items.len() && #[trigger] items[i] == x && forall|j: int|
            i < j < items.len() ==> id_order((#[trigger] items[j]).id, x.id) != 0
}

/// Collecting one more chunk keeps it and drops the kept chunk of the same
/// order.
proof fn lemma_kept_push(items: Seq<ReviewableDiffView>, k: int, x: ReviewableDiffView)
    requires
        0 <= k < items.len(),
    ensures
        kept(items.take(k + 1), x) <==> (x == items[k] || (kept(items.take(k), x) && id_order(
            x.id,
            items[k].id,
        ) != 0)),
{
    let a = items.take(k + 1);
    let b = items.take(k);
    lemma_id_order_antisym(x.id, items[k].id);
    if x == items[k] {
        assert(a[k] == x);
        assert(kept(a, x));
    } else if kept(b, x) && id_order(x.id, items[k].id) != 0 {
        let i = choose|i: int|
            0 <= i < b.len() && #[trigger] b[i] == x && forall|j: int|
                i < j < b.len() ==> id_order((#[trigger] b[j]).id, x.id) != 0;
        assert(a[i] == x);
        assert forall|j: int| i < j < a.len() implies id_order((#[trigger] a[j]).id, x.id) != 0 by {
            if j < k {
                assert(a[j] == b[j]);
            }
        }
    }
    if kept(a, x) && x != items[k] {
        let i = choose|i: int|
            0 <= i < a.len() && #[trigger] a[i] == x && forall|j: int|
                i < j < a.len() ==> id_order((#[trigger] a[j]).id, x.id) != 0;
        assert(i != k);
        assert(b[i] == x);
        assert forall|j: int| i < j < b.len() implies id_order((#[trigger] b[j]).id, x.id) != 0 by {
            assert(a[j] == b[j]);
        }
        assert(id_order(a[k].id, x.id) != 0);
    }
}

/// Puts `d` in its place in the ordered list `v`, in place of the chunk
/// with an identifier of the same order if there is one.
fn insert_ordered(v: &mut Vec<ReviewableDiff>, d: ReviewableDiff)
    requires
        ordered(diffs_view(old(v)@)),
    ensures
        ordered(diffs_view(final(v)@)),
        forall|x: ReviewableDiffView|
            diffs_view(final(v)@).contains(x) <==> (x == d@ || (diffs_view(old(v)@).contains(x)
                && id_order(x.id, d@.id) != 0)),
{
    let ghost s0 = diffs_view(v@);
    let ghost dv = d@;
    let mut i: usize = 0;
    while i < v.len()
        invariant_except_break
            i <= v@.len(),
            s0 == diffs_view(v@),
            dv == d@,
            forall|k: int| 0 <= k < i ==> id_order((#[trigger] s0[k]).id, dv.id) == -1,
        ensures
            i <= v@.len(),
            s0 == diffs_view(v@),
            dv == d@,
            forall|k: int| 0 <= k < i ==> id_order((#[trigger] s0[k]).id, dv.id) == -1,
            i < v@.len() ==> id_order(s0[i as int].id, dv.id) != -1,
        decreases v@.len() - i,
    {
        assert(s0[i as int] == v@[i as int]@);
        proof {
            lemma_id_order_range(s0[i as int].id, dv.id);
        }
        if compare_ids(&v[i].id, &d.id) >= 0 {
            break;
        }
        i = i + 1;
    }
    proof {
        if i < s0.len() {
            assert(s0[i as int] == v@[i as int]@);
            lemma_id_order_range(s0[i as int].id, dv.id);
            lemma_id_order_antisym(s0[i as int].id, dv.id);
        }
    }
    if i < v.len() && compare_ids(&v[i].id, &d.id) == 0 {
        v.set(i, d);
        proof {
            let s = diffs_view(v@);
            let ii = i as int;
            assert(s =~= s0.update(ii, dv));
            assert forall|a: int, b: int| 0 <= a < b < s.len() implies id_order(
                (#[trigger] s[a]).id,
                (#[trigger] s[b]).id,
            ) == -1 by {
                if a == ii {
                    assert(s0[ii] == s0[ii]);
                    assert(id_order(s0[ii].id, s0[b].id) == -1);
                } else if b == ii {
                    assert(id_order(s0[a].id, dv.id) == -1);
                } else {
                    assert(id_order(s0[a].id, s0[b].id) == -1);
                }
            }
            assert forall|x: ReviewableDiffView| s.contains(x) <==> (x == dv || (s0.contains(x)
                && id_order(x.id, dv.id) != 0)) by {
                if s.contains(x) && x != dv {
                    let w = choose|w: int| 0 <= w < s.len() && s[w] == x;
                    assert(w != ii);
                    assert(s0[w] == x);
                    if w > ii {
                        assert(id_order(s0[ii].id, s0[w].id) == -1);
                        lemma_id_order_antisym(s0[w].id, dv.id);
                    }
                }
                if x == dv {
                    assert(s[ii] == dv);
                }
                if x != dv && s0.contains(x) && id_order(x.id, dv.id) != 0 {
                    let w = choose|w: int| 0 <= w < s0.len() && s0[w] == x;
                    assert(w != ii);
                    assert(s[w] == x);
                }
            }
        }
    } else {
        v.insert(i, d);
        proof {
            let s = diffs_view(v@);
            let ii = i as int;
            assert(s =~= s0.insert(ii, dv));
            // `d` is before every chunk from position `i` on
            assert forall|k: int| ii <= k < s0.len() implies id_order(dv.id, (#[trigger] s0[k]).id)
                == -1 by {
                if k > ii {
                    assert(id_order(s0[ii].id, s0[k].id) == -1);
                    lemma_id_order_trans(dv.id, s0[ii].id, s0[k].id);
                }
            }
            assert forall|a: int, b: int| 0 <= a < b < s.len() implies id_order(
                (#[trigger] s[a]).id,
                (#[trigger] s[b]).id,
            ) == -1 by {
                if b < ii {
                    assert(s[a] == s0[a] && s[b] == s0[b]);
                } else if b == ii {
                    assert(s[a] == s0[a]);
                } else if a == ii {
                    assert(s[b] == s0[b - 1]);
                } else if a < ii {
                    assert(s[a] == s0[a] && s[b] == s0[b - 1]);
                    assert(id_order(s0[a].id, s0[b - 1].id) == -1);
                } else {
                    assert(s[a] == s0[a - 1] && s[b] == s0[b - 1]);
                    assert(id_order(s0[a - 1].id, s0[b - 1].id) == -1);
                }
            }
            assert forall|x: ReviewableDiffView| s.contains(x) <==> (x == dv || (s0.contains(x)
                && id_order(x.id, dv.id) != 0)) by {
                if s.contains(x) && x != dv {
                    let w = choose|w: int| 0 <= w < s.len() && s[w] == x;
                    assert(w != ii);
                    let w0 = if w < ii {
                        w
                    } else {
                        w - 1
                    };
                    assert(s0[w0] == x);
                    if w0 >= ii {
                        lemma_id_order_antisym(dv.id, s0[w0].id);
                    }
                }
                if x == dv {
                    assert(s[ii] == dv);
                }
                if x != dv && s0.contains(x) {
                    let w = choose|w: int| 0 <= w < s0.len() && s0[w] == x;
                    if w < ii {
                        assert(s[w] == x);
                    } else {
                        assert(s[w + 1] == x);
                    }
                }
            }
        }
    }
}

/// Collects chunks by identifier: a later chunk replaces an earlier one
/// whose identifier has the same order.
fn collect_ordered(diffs: Vec<ReviewableDiff>) -> (out: Vec<ReviewableDiff>)
    ensures
        ordered(diffs_view(out@)),
        forall|x: ReviewableDiffView|
            diffs_view(out@).contains(x) <==> kept(diffs_view(diffs@), x),
{
    let ghost items = diffs_view(diffs@);
    let mut rest = diffs;
    let mut out: Vec<ReviewableDiff> = Vec::new();
    let ghost mut k: int = 0;
    while rest.len() > 0
        invariant
            0 <= k <= items.len(),
            diffs_view(rest@) == items.skip(k),
            ordered(diffs_view(out@)),
            forall|x: ReviewableDiffView|
                diffs_view(out@).contains(x) <==> kept(items.take(k), x),
        decreases rest@.len(),
    {
        let ghost r0 = rest@;
        proof {
            assert(diffs_view(r0).len() == r0.len());
            assert(k < items.len());
        }
        let d = rest.remove(0);
        proof {
            assert(diffs_view(r0)[0] == r0[0]@);
            assert(d@ == items.skip(k)[0]);
            assert(items.skip(k)[0] == items[k]);
            assert forall|j: int| 0 <= j < rest@.len() implies diffs_view(rest@)[j] == items.skip(
                k + 1,
            )[j] by {
                assert(rest@[j] == r0[j + 1]);
                assert(diffs_view(r0)[j + 1] == items.skip(k)[j + 1]);
            }
            assert(diffs_view(rest@) =~= items.skip(k + 1));
        }
        let ghost o0 = diffs_view(out@);
        insert_ordered(&mut out, d);
        proof {
            assert(items[k] == d@);
            assert forall|x: ReviewableDiffView| diffs_view(out@).contains(x) <==> kept(
                items.take(k + 1),
                x,
            ) by {
                lemma_kept_push(items, k, x);
            }
            k = k + 1;
        }
    }
    proof {
        assert(items.skip(k).len() == 0);
        assert(items.take(k) =~= items);
    }
    out
}

/// A review session: chunks in order of identifier, and what those reviewing
/// recorded about them.
#[derive(Debug, Clone)]
pub struct ReviewState {
    /// The chunks, in strictly increasing order of identifier.
    pub reviewable_diffs: Vec<ReviewableDiff>,
    pub approvals: ReviewApprovals,
    pub instructions: ReviewInstructions,
    pub decisions: ReviewDecisions,
    pub decision_approvals: DecisionApprovals,
    pub decision_instructions: DecisionInstructions,
    pub author: String,
}

impl ReviewState {
    /// The chunks' values, in order.
    pub open spec fn diffs(&self) -> Seq<ReviewableDiffView> {
        diffs_view(self.reviewable_diffs@)
    }

    /// The chunks are ordered and every collection is well formed.
    pub open spec fn wf(&self) -> bool {
        &&& ordered(self.diffs())
        &&& self.approvals.wf()
        &&& self.instructions.wf()
        &&& self.decisions.wf()
        &&& self.decision_approvals.wf()
        &&& self.decision_instructions.wf()
    }

    /// A session over `reviewable_diffs` with nothing recorded yet.
    pub fn new(reviewable_diffs: Vec<ReviewableDiff>, author: String) -> (s: Self)
        ensures
            s.wf(),
            forall|x: ReviewableDiffView|
                s.diffs().contains(x) <==> kept(diffs_view(reviewable_diffs@), x),
            s.approvals.approvals@.len() == 0,
            s.instructions.entries().len() == 0,
            s.decisions.decisions@.len() == 0,
            s.decisions.decision_index@.len() == 0,
            s.decision_approvals.approvals@.len() == 0,
            s.decision_instructions.entries().len() == 0,
            s.author@ == author@,
    {
        ReviewState {
            reviewable_diffs: collect_ordered(reviewable_diffs),
            approvals: ReviewApprovals::new(),
            instructions: ReviewInstructions::new(),
            decisions: ReviewDecisions::new(),
            decision_approvals: DecisionApprovals::new(),
            decision_instructions: DecisionInstructions::new(),
            author,
        }
    }

    /// A session over `reviewable_diffs` with recorded data loaded.
    pub fn with_review_data(
        reviewable_diffs: Vec<ReviewableDiff>,
        author: String,
        approvals: ReviewApprovals,
        instructions: ReviewInstructions,
        decisions: ReviewDecisions,
        decision_approvals: DecisionApprovals,
        decision_instructions: DecisionInstructions,
    ) -> (s: Self)
        requires
            approvals.wf(),
            instructions.wf(),
            decisions.wf(),
            decision_approvals.wf(),
            decision_instructions.wf(),
        ensures
            s.wf(),
            forall|x: ReviewableDiffView|
                s.diffs().contains(x) <==> kept(diffs_view(reviewable_diffs@), x),
            s.approvals == approvals,
            s.instructions == instructions,
            s.decisions == decisions,
            s.decision_approvals == decision_approvals,
            s.decision_instructions == decision_instructions,
            s.author@ == author@,
    {
        ReviewState {
            reviewable_diffs: collect_ordered(reviewable_diffs),
            approvals,
            instructions,
            decisions,
            decision_approvals,
            decision_instructions,
            author,
        }
    }
}

/// Text that ends in `YYYY-MM-DD HH:MM:SS UTC`: the last four digits of
/// the year, the month, day, hour, minute and second as decimal digits, in
/// that layout (a year past 9999 writes more digits in front).
pub open spec fn utc_stamp_text(s: Seq<char>) -> bool {
    &&& s.len() >= 23
    &&& {
        let t = s.subrange(s.len() - 23, s.len() as int);
        &&& forall|i: int|
            0 <= i < 19 && i != 4 && i != 7 && i != 10 && i != 13 && i != 16 ==> is_decimal_digit(
                #[trigger] t[i],
            )
        &&& t[4] == '-' && t[7] == '-' && t[10] == ' ' && t[13] == ':' && t[16] == ':'
        &&& t.subrange(19, 23) == " UTC"@
    }
}

/// The time of day in UTC, as `YYYY-MM-DD HH:MM:SS UTC`.
///
/// Calls `chrono::Utc::now` and formats the result with that pattern:
/// every field is written as zero-padded digits and the year, at least
/// 1970 (`Utc::now` stops on an earlier clock), has at least four digits.
/// Which time it is depends on the clock and is not claimed.
#[verifier::external_body]
pub(crate) fn utc_timestamp() -> (s: String)
    ensures
        utc_stamp_text(s@),
{
    chrono::Utc::now().format("%Y-%m-%d %H:%M:%S UTC").to_string()
}

/// The identifiers of the index entries whose numbers include `n`, in
/// index order.
pub open spec fn chunks_of(index: Seq<(ReviewableDiffId, Vec<u32>)>, n: u32) -> Seq<ReviewableDiffIdView>
    decreases index.len(),
{
    if index.len() == 0 {
        seq![]
    } else if index.last().1@.contains(n) {
        chunks_of(index.drop_last(), n).push(index.last().0@)
    } else {
        chunks_of(index.drop_last(), n)
    }
}

/// The chunks whose index entry lists decision `n`.
pub open spec fn indexed_under(index: Seq<(ReviewableDiffId, Vec<u32>)>, n: u32) -> Set<ReviewableDiffIdView> {
    Set::new(|k: ReviewableDiffIdView| numbers_of(index, k) matches Some(v) && v.contains(n))
}

/// `chunks_of` lists `k` exactly when some index entry for `k` lists `n`.
proof fn lemma_chunks_of_members(index: Seq<(ReviewableDiffId, Vec<u32>)>, n: u32, k: ReviewableDiffIdView)
    ensures
        chunks_of(index, n).contains(k) <==> exists|i: int|
            0 <= i < index.len() && (#[trigger] index[i]).0@ == k && index[i].1@.contains(n),
    decreases index.len(),
{
    if index.len() > 0 {
        let d = index.drop_last();
        let l = index.len() - 1;
        let c = chunks_of(d, n);
        lemma_chunks_of_members(d, n, k);
        if chunks_of(index, n).contains(k) {
            if c.contains(k) {
                let i = choose|i: int| 0 <= i < d.len() && (#[trigger] d[i]).0@ == k && d[i].1@.contains(n);
                assert(index[i] == d[i]);
            } else {
                assert(index[l].0@ == k && index[l].1@.contains(n));
            }
        }
        if exists|i: int| 0 <= i < index.len() && (#[trigger] index[i]).0@ == k && index[i].1@.contains(n) {
            let i = choose|i: int| 0 <= i < index.len() && (#[trigger] index[i]).0@ == k && index[i].1@.contains(n);
            if i < l {
                assert(d[i] == index[i]);
                let j = choose|j: int| 0 <= j < c.len() && c[j] == k;
                if index.last().1@.contains(n) {
                    assert(chunks_of(index, n)[j] == k);
                }
            } else {
                assert(chunks_of(index, n) == c.push(index[l].0@));
                assert(chunks_of(index, n)[c.len() as int] == k);
            }
        }
    }
}

/// With one entry per chunk, `chunks_of` lists no chunk twice.
proof fn lemma_chunks_of_distinct(index: Seq<(ReviewableDiffId, Vec<u32>)>, n: u32)
    requires
        distinct_keys(index),
    ensures
        chunks_of(index, n).no_duplicates(),
    decreases index.len(),
{
    if index.len() > 0 {
        let d = index.drop_last();
        let l = index.len() - 1;
        assert forall|i: int, j: int| 0 <= i < j < d.len() implies (#[trigger] d[i]).0@ != (
        #[trigger] d[j]).0@ by {
            assert(d[i] == index[i] && d[j] == index[j]);
        }
        lemma_chunks_of_distinct(d, n);
        let c = chunks_of(d, n);
        if index.last().1@.contains(n) {
            let x = index[l].0@;
            lemma_chunks_of_members(d, n, x);
            if c.contains(x) {
                let i = choose|i: int| 0 <= i < d.len() && (#[trigger] d[i]).0@ == x && d[i].1@.contains(n);
                assert(d[i] == index[i]);
                assert(index[i].0@ != index[l].0@);
            }
            let t = c.push(x);
            assert forall|a: int, b: int| 0 <= a < t.len() && 0 <= b < t.len() && a != b implies t[a] != t[b] by {
                if a == c.len() {
                    assert(t[b] == c[b]);
                } else if b == c.len() {
                    assert(t[a] == c[a]);
                } else {
                    assert(t[a] == c[a] && t[b] == c[b]);
                }
            }
        }
    }
}

/// The chunks of decision `n` are listed each once, and they are exactly
/// the chunks whose index entry lists `n`: so their number is the number of
/// such chunks.
pub proof fn lemma_chunks_of_indexed(index: Seq<(ReviewableDiffId, Vec<u32>)>, n: u32)
    requires
        distinct_keys(index),
    ensures
        chunks_of(index, n).no_duplicates(),
        chunks_of(index, n).to_set() == indexed_under(index, n),
        chunks_of(index, n).len() == indexed_under(index, n).len(),
{
    let c = chunks_of(index, n);
    assert forall|k: ReviewableDiffIdView| c.to_set().contains(k) <==> indexed_under(index, n).contains(k) by {
        lemma_chunks_of_members(index, n, k);
        lemma_find_key(index, k, 0);
        if exists|i: int| 0 <= i < index.len() && (#[trigger] index[i]).0@ == k && index[i].1@.contains(n) {
            let i = choose|i: int| 0 <= i < index.len() && (#[trigger] index[i]).0@ == k && index[i].1@.contains(n);
            lemma_find_key_unique(index, k, i);
        }
        if indexed_under(index, n).contains(k) {
            let p = find_key(index, k, 0)->0;
            assert(index[p].0@ == k && index[p].1@.contains(n));
        }
    }
    assert(c.to_set() =~= indexed_under(index, n));
    lemma_chunks_of_distinct(index, n);
    c.unique_seq_to_set();
}

/// How many of `ids` have an approved record in `a`.
pub open spec fn approved_among(a: ReviewApprovals, ids: Seq<ReviewableDiffIdView>) -> nat
    decreases ids.len(),
{
    if ids.len() == 0 {
        0
    } else {
        approved_among(a, ids.drop_last()) + if a.approved_spec(ids.last()) {
            1nat
        } else {
            0nat
        }
    }
}

/// Whether `n` is among `nums`.
pub fn has_number(nums: &Vec<u32>, n: u32) -> (b: bool)
    ensures
        b == nums@.contains(n),
{
    let mut i: usize = 0;
    while i < nums.len()
        invariant
            i <= nums@.len(),
            forall|k: int| 0 <= k < i ==> nums@[k] != n,
        decreases nums@.len() - i,
    {
        if nums[i] == n {
            assert(nums@[i as int] == n);
            return true;
        }
        i = i + 1;
    }
    false
}

/// The chunks of `s` in file `f`, in order.
pub open spec fn of_file(s: Seq<ReviewableDiffView>, f: Seq<char>) -> Seq<ReviewableDiffView>
    decreases s.len(),
{
    if s.len() == 0 {
        seq![]
    } else if s.last().file_path == f {
        of_file(s.drop_last(), f).push(s.last())
    } else {
        of_file(s.drop_last(), f)
    }
}

/// No chunk of `s` is in file `f`: none is listed for it.
proof fn lemma_of_file_none(s: Seq<ReviewableDiffView>, f: Seq<char>)
    requires
        forall|i: int| 0 <= i < s.len() ==> (#[trigger] s[i]).file_path != f,
    ensures
        of_file(s, f) == Seq::<ReviewableDiffView>::empty(),
    decreases s.len(),
{
    if s.len() > 0 {
        assert(s.last() == s[s.len() - 1]);
        lemma_of_file_none(s.drop_last(), f);
    }
}

/// The files of `s`, each once, in the order they first occur.
pub open spec fn first_files(s: Seq<ReviewableDiffView>) -> Seq<Seq<char>>
    decreases s.len(),
{
    if s.len() == 0 {
        seq![]
    } else {
        let f = first_files(s.drop_last());
        if f.contains(s.last().file_path) {
            f
        } else {
            f.push(s.last().file_path)
        }
    }
}

/// No file is listed twice.
proof fn lemma_first_files_distinct(s: Seq<ReviewableDiffView>)
    ensures
        forall|i: int, j: int|
            0 <= i < j < first_files(s).len() ==> #[trigger] first_files(s)[i] != #[trigger] first_files(
                s,
            )[j],
    decreases s.len(),
{
    if s.len() > 0 {
        lemma_first_files_distinct(s.drop_last());
        let r = first_files(s.drop_last());
        if !r.contains(s.last().file_path) {
            assert forall|i: int, j: int| 0 <= i < j < first_files(s).len() implies #[trigger] first_files(s)[i]
                != #[trigger] first_files(s)[j] by {
                if j == r.len() {
                    assert(first_files(s)[i] == r[i]);
                } else {
                    assert(first_files(s)[i] == r[i] && first_files(s)[j] == r[j]);
                }
            }
        }
    }
}

/// The first files of `s` are distinct and are exactly the files of `s`.
pub proof fn lemma_first_files_props(s: Seq<ReviewableDiffView>)
    ensures
        first_files(s).no_duplicates(),
        forall|f: Seq<char>|
            first_files(s).contains(f) ==> exists|i: int| 0 <= i < s.len() && (#[trigger] s[i]).file_path == f,
        forall|i: int| 0 <= i < s.len() ==> first_files(s).contains(#[trigger] s[i].file_path),
    decreases s.len(),
{
    lemma_first_files_distinct(s);
    if s.len() > 0 {
        let r = first_files(s.drop_last());
        lemma_first_files_props(s.drop_last());
        assert forall|f: Seq<char>| first_files(s).contains(f) implies exists|i: int|
            0 <= i < s.len() && (#[trigger] s[i]).file_path == f by {
            if r.contains(f) {
                let i = choose|i: int| 0 <= i < s.len() - 1 && (#[trigger] s.drop_last()[i]).file_path == f;
                assert(s[i] == s.drop_last()[i]);
            } else {
                let w = choose|w: int| 0 <= w < first_files(s).len() && first_files(s)[w] == f;
                assert(s[s.len() - 1].file_path == f);
            }
        }
        assert forall|i: int| 0 <= i < s.len() implies first_files(s).contains(#[trigger] s[i].file_path) by {
            if i < s.len() - 1 {
                assert(s.drop_last()[i] == s[i]);
                assert(r.contains(s[i].file_path));
                if !r.contains(s.last().file_path) {
                    let w = choose|w: int| 0 <= w < r.len() && r[w] == s[i].file_path;
                    assert(first_files(s)[w] == s[i].file_path);
                }
            } else {
                if !r.contains(s.last().file_path) {
                    assert(first_files(s)[r.len() as int] == s[i].file_path);
                }
            }
        }
    }
}

/// A file not among the first files of `s` has no chunk in `s`.
proof fn lemma_first_files(s: Seq<ReviewableDiffView>, f: Seq<char>)
    requires
        !first_files(s).contains(f),
    ensures
        forall|i: int| 0 <= i < s.len() ==> (#[trigger] s[i]).file_path != f,
    decreases s.len(),
{
    if s.len() > 0 {
        let r = first_files(s.drop_last());
        if r.contains(f) {
            let w = choose|w: int| 0 <= w < r.len() && r[w] == f;
            if r.contains(s.last().file_path) {
                assert(first_files(s)[w] == f);
            } else {
                assert(r.push(s.last().file_path)[w] == f);
            }
        }
        lemma_first_files(s.drop_last(), f);
        assert forall|i: int| 0 <= i < s.len() implies (#[trigger] s[i]).file_path != f by {
            if i < s.len() - 1 {
                assert(s.drop_last()[i] == s[i]);
            } else {
                if s.last().file_path == f {
                    assert(first_files(s) == r.push(f));
                    assert(first_files(s)[r.len() as int] == f);
                }
            }
        }
    }
}

/// The values of the chunks that references point to.
pub open spec fn diff_refs_view(v: Seq<&ReviewableDiff>) -> Seq<ReviewableDiffView> {
    v.map_values(|d: &ReviewableDiff| (*d)@)
}

/// Text strictly increasing in lexicographic order.
pub open spec fn text_ascending(s: Seq<Seq<char>>) -> bool {
    forall|i: int, j: int| 0 <= i < j < s.len() ==> text_order(#[trigger] s[i], #[trigger] s[j]) == -1
}

/// The values of a list of strings.
pub open spec fn strings_view(v: Seq<String>) -> Seq<Seq<char>> {
    v.map_values(|x: String| x@)
}

impl ReviewState {
    /// Whether a chunk is approved.
    pub fn is_approved(&self, reviewable_id: &ReviewableDiffId) -> (b: bool)
        ensures
            b == self.approvals.approved_spec(reviewable_id@),
    {
        self.approvals.is_approved(reviewable_id)
    }

    /// The notes of a chunk, if it has an entry.
    pub fn get_instructions(&self, reviewable_id: &ReviewableDiffId) -> (r: Option<&Vec<Instruction>>)
        ensures
            match find_key(self.instructions.instructions@, reviewable_id@, 0) {
                Some(p) => r matches Some(v) && notes_view(v@) == self.instructions.entries()[p].1,
                None => r is None,
            },
    {
        self.instructions.get_instructions(reviewable_id)
    }

    /// The number of approved chunks and the number of chunks.
    pub fn approval_counts(&self) -> (r: (usize, usize))
        ensures
            r.0 == approved_count(self.approvals.approvals@),
            r.1 == self.diffs().len(),
    {
        (self.approvals.total_approved(), self.reviewable_diffs.len())
    }

    /// The number of chunks.
    pub fn total_reviewable_diffs(&self) -> (n: usize)
        ensures
            n == self.diffs().len(),
    {
        self.reviewable_diffs.len()
    }

    /// Whether a chunk has at least one note.
    pub fn has_instructions(&self, reviewable_id: &ReviewableDiffId) -> (b: bool)
        ensures
            b == (match find_key(self.instructions.instructions@, reviewable_id@, 0) {
                Some(p) => self.instructions.entries()[p].1.len() > 0,
                None => false,
            }),
    {
        self.instructions.has_instructions(reviewable_id)
    }

    /// The chunks' identifiers, in order.
    pub fn get_ordered_reviewable_ids(&self) -> (r: Vec<&ReviewableDiffId>)
        ensures
            r@.len() == self.diffs().len(),
            forall|i: int| 0 <= i < r@.len() ==> (#[trigger] r@[i])@ == self.diffs()[i].id,
    {
        let mut out: Vec<&ReviewableDiffId> = Vec::new();
        let mut i: usize = 0;
        while i < self.reviewable_diffs.len()
            invariant
                i <= self.reviewable_diffs@.len(),
                out@.len() == i,
                forall|k: int| 0 <= k < i ==> (#[trigger] out@[k])@ == self.diffs()[k].id,
            decreases self.reviewable_diffs@.len() - i,
        {
            out.push(&self.reviewable_diffs[i].id);
            i = i + 1;
        }
        out
    }

    /// The chunks grouped by file: one group per file, in the order the
    /// files first occur, each with the file's chunks in order.
    pub fn get_reviewable_diffs_by_file(&self) -> (r: Vec<(String, Vec<&ReviewableDiff>)>)
        ensures
            r@.len() == first_files(self.diffs()).len(),
            forall|a: int|
                0 <= a < r@.len() ==> (#[trigger] r@[a]).0@ == first_files(self.diffs())[a]
                    && diff_refs_view(r@[a].1@) == of_file(self.diffs(), r@[a].0@),
    {
        let ghost ds = self.diffs();
        let mut out: Vec<(String, Vec<&ReviewableDiff>)> = Vec::new();
        let mut i: usize = 0;
        while i < self.reviewable_diffs.len()
            invariant
                ds == self.diffs(),
                i <= ds.len(),
                out@.len() == first_files(ds.take(i as int)).len(),
                forall|a: int|
                    0 <= a < out@.len() ==> (#[trigger] out@[a]).0@ == first_files(
                        ds.take(i as int),
                    )[a] && diff_refs_view(out@[a].1@) == of_file(ds.take(i as int), out@[a].0@),
            decreases ds.len() - i,
        {
            let d = &self.reviewable_diffs[i];
            let ghost dv = d@;
            let ghost o0 = out@;
            let ghost t0 = ds.take(i as int);
            let ghost t1 = ds.take(i + 1);
            assert(ds[i as int] == dv);
            assert(t1.drop_last() =~= t0);
            assert(t1.last() == dv);
            let mut g: usize = 0;
            while g < out.len()
                invariant_except_break
                    g <= out@.len(),
                    dv == d@,
                    forall|a: int| 0 <= a < g ==> (#[trigger] out@[a]).0@ != dv.file_path,
                ensures
                    g <= out@.len(),
                    forall|a: int| 0 <= a < g ==> (#[trigger] out@[a]).0@ != dv.file_path,
                    g < out@.len() ==> out@[g as int].0@ == dv.file_path,
                decreases out@.len() - g,
            {
                if out[g].0 == d.file_path {
                    break;
                }
                g = g + 1;
            }
            if g < out.len() {
                let ghost before = out@[g as int].1@;
                assert(out@[g as int].0@ == dv.file_path);
                assert(first_files(t0)[g as int] == dv.file_path);
                assert(first_files(t0).contains(dv.file_path));
                assert(first_files(t1) == first_files(t0));
                let mut group = Vec::new();
                std::mem::swap(&mut group, &mut out[g].1);
                group.push(d);
                let ghost new_group = group@;
                std::mem::swap(&mut group, &mut out[g].1);
                proof {
                    assert(out@.len() == o0.len());
                    assert(out@[g as int].0@ == o0[g as int].0@);
                    assert(out@[g as int].1@ == new_group);
                    assert(of_file(t1, dv.file_path) == of_file(t0, dv.file_path).push(dv));
                    lemma_first_files_distinct(t0);
                    assert forall|a: int| 0 <= a < out@.len() implies (#[trigger] out@[a]).0@
                        == first_files(t1)[a] && diff_refs_view(out@[a].1@) == of_file(
                        t1,
                        out@[a].0@,
                    ) by {
                        if a == g {
                            assert(diff_refs_view(new_group) =~= diff_refs_view(before).push(dv));
                        } else {
                            assert(out@[a] == o0[a]);
                        }
                    }
                }
            } else {
                proof {
                    assert forall|k: int| 0 <= k < first_files(t0).len() implies first_files(t0)[k]
                        != dv.file_path by {
                        assert(o0[k].0@ == first_files(t0)[k]);
                    }
                    assert(!first_files(t0).contains(dv.file_path));
                    lemma_first_files(t0, dv.file_path);
                    lemma_of_file_none(t0, dv.file_path);
                }
                let mut group: Vec<&ReviewableDiff> = Vec::new();
                group.push(d);
                let name = d.file_path.clone();
                out.push((name, group));
                proof {
                    assert forall|a: int| 0 <= a < out@.len() implies (#[trigger] out@[a]).0@
                        == first_files(t1)[a] && diff_refs_view(out@[a].1@) == of_file(
                        t1,
                        out@[a].0@,
                    ) by {
                        if a == o0.len() {
                            assert(diff_refs_view(out@[a].1@) =~= seq![dv]);
                            assert(seq![dv] =~= Seq::<ReviewableDiffView>::empty().push(dv));
                        } else {
                            assert(out@[a] == o0[a]);
                        }
                    }
                }
            }
            i = i + 1;
        }
        assert(ds.take(i as int) =~= ds);
        out
    }
}

/// Puts `x` in its place in the strictly ascending list `v`, unless it is
/// there already.
fn insert_text_sorted(v: &mut Vec<String>, x: String)
    requires
        text_ascending(strings_view(old(v)@)),
    ensures
        text_ascending(strings_view(final(v)@)),
        forall|f: Seq<char>|
            strings_view(final(v)@).contains(f) <==> (f == x@ || strings_view(old(v)@).contains(f)),
{
    let ghost s0 = strings_view(v@);
    let ghost xv = x@;
    let mut i: usize = 0;
    while i < v.len()
        invariant_except_break
            i <= v@.len(),
            s0 == strings_view(v@),
            xv == x@,
            forall|k: int| 0 <= k < i ==> text_order(#[trigger] s0[k], xv) == -1,
        ensures
            i <= v@.len(),
            s0 == strings_view(v@),
            forall|k: int| 0 <= k < i ==> text_order(#[trigger] s0[k], xv) == -1,
            i < v@.len() ==> text_order(s0[i as int], xv) != -1,
        decreases v@.len() - i,
    {
        assert(s0[i as int] == v@[i as int]@);
        proof {
            lemma_text_order_range(s0[i as int], xv);
        }
        if compare_text(v[i].as_str(), x.as_str()) >= 0 {
            break;
        }
        i = i + 1;
    }
    proof {
        if i < s0.len() {
            assert(s0[i as int] == v@[i as int]@);
            lemma_text_order_range(s0[i as int], xv);
            lemma_text_order_antisym(s0[i as int], xv);
        }
    }
    if i < v.len() && compare_text(v[i].as_str(), x.as_str()) == 0 {
        proof {
            assert(s0.contains(xv)) by {
                assert(s0[i as int] == xv);
            }
        }
        return;
    }
    v.insert(i, x);
    proof {
        let s = strings_view(v@);
        let ii = i as int;
        assert(s =~= s0.insert(ii, xv));
        assert forall|k: int| ii <= k < s0.len() implies text_order(xv, #[trigger] s0[k]) == -1 by {
            lemma_text_order_antisym(s0[ii], xv);
            if k > ii {
                assert(text_order(s0[ii], s0[k]) == -1);
                lemma_text_order_trans(xv, s0[ii], s0[k]);
            }
        }
        assert forall|a: int, b: int| 0 <= a < b < s.len() implies text_order(
            #[trigger] s[a],
            #[trigger] s[b],
        ) == -1 by {
            if b < ii {
                assert(s[a] == s0[a] && s[b] == s0[b]);
            } else if b == ii {
                assert(s[a] == s0[a]);
            } else if a == ii {
                assert(s[b] == s0[b - 1]);
            } else if a < ii {
                assert(s[a] == s0[a] && s[b] == s0[b - 1]);
                assert(text_order(s0[a], s0[b - 1]) == -1);
            } else {
                assert(s[a] == s0[a - 1] && s[b] == s0[b - 1]);
                assert(text_order(s0[a - 1], s0[b - 1]) == -1);
            }
        }
        assert forall|f: Seq<char>| s.contains(f) <==> (f == xv || s0.contains(f)) by {
            if s.contains(f) && f != xv {
                let w = choose|w: int| 0 <= w < s.len() && s[w] == f;
                if w < ii {
                    assert(s0[w] == f);
                } else {
                    assert(w != ii);
                    assert(s0[w - 1] == f);
                }
            }
            if f == xv {
                assert(s[ii] == xv);
            }
            if f != xv && s0.contains(f) {
                let w = choose|w: int| 0 <= w < s0.len() && s0[w] == f;
                if w < ii {
                    assert(s[w] == f);
                } else {
                    assert(s[w + 1] == f);
                }
            }
        }
    }
}

/// Everything but the chunk approvals is as in `b`.
pub open spec fn same_but_approvals(a: ReviewState, b: ReviewState) -> bool {
    &&& a.reviewable_diffs@ == b.reviewable_diffs@
    &&& a.instructions == b.instructions
    &&& a.decisions == b.decisions
    &&& a.decision_approvals == b.decision_approvals
    &&& a.decision_instructions == b.decision_instructions
    &&& a.author@ == b.author@
}

/// Everything but the decision approvals is as in `b`.
pub open spec fn same_but_decision_approvals(a: ReviewState, b: ReviewState) -> bool {
    &&& a.reviewable_diffs@ == b.reviewable_diffs@
    &&& a.approvals == b.approvals
    &&& a.instructions == b.instructions
    &&& a.decisions == b.decisions
    &&& a.decision_instructions == b.decision_instructions
    &&& a.author@ == b.author@
}

/// Everything but the chunk instructions is as in `b`.
pub open spec fn same_but_instructions(a: ReviewState, b: ReviewState) -> bool {
    &&& a.reviewable_diffs@ == b.reviewable_diffs@
    &&& a.approvals == b.approvals
    &&& a.decisions == b.decisions
    &&& a.decision_approvals == b.decision_approvals
    &&& a.decision_instructions == b.decision_instructions
    &&& a.author@ == b.author@
}

/// Key `k` is approved, by `approver`, stamped with a UTC time of day.
pub open spec fn approved_by(r: Option<ApprovalRecordView>, approver: Seq<char>) -> bool {
    r matches Some(rec) && rec.approved && rec.approved_by == approver && utc_stamp_text(
        rec.approval_timestamp,
    )
}

/// Some chunk of `ds` in file `path` has identifier `k`.
pub open spec fn id_in_file(ds: Seq<ReviewableDiffView>, path: Seq<char>, k: ReviewableDiffIdView) -> bool {
    exists|i: int| 0 <= i < ds.len() && (#[trigger] ds[i]).file_path == path && ds[i].id == k
}

impl ReviewState {
    /// The chunk whose identifier has the order of `reviewable_id`, if any.
    pub fn get_reviewable_diff(&self, reviewable_id: &ReviewableDiffId) -> (r: Option<&ReviewableDiff>)
        ensures
            match r {
                Some(d) => self.diffs().contains(d@) && id_order(d@.id, reviewable_id@) == 0,
                None => forall|i: int|
                    0 <= i < self.diffs().len() ==> id_order(
                        (#[trigger] self.diffs()[i]).id,
                        reviewable_id@,
                    ) != 0,
            },
    {
        let mut i: usize = 0;
        while i < self.reviewable_diffs.len()
            invariant
                i <= self.diffs().len(),
                forall|k: int|
                    0 <= k < i ==> id_order((#[trigger] self.diffs()[k]).id, reviewable_id@) != 0,
            decreases self.diffs().len() - i,
        {
            assert(self.diffs()[i as int] == self.reviewable_diffs@[i as int]@);
            if compare_ids(&self.reviewable_diffs[i].id, reviewable_id) == 0 {
                return Some(&self.reviewable_diffs[i]);
            }
            i = i + 1;
        }
        None
    }

    /// Approves a chunk in the name of `approver`, stamped with the current
    /// time.
    pub fn approve(&mut self, reviewable_id: ReviewableDiffId, approver: String)
        requires
            old(self).wf(),
        ensures
            final(self).wf(),
            same_but_approvals(*final(self), *old(self)),
            approved_by(final(self).approvals.record_of(reviewable_id@), approver@),
            forall|k: ReviewableDiffIdView|
                k != reviewable_id@ ==> final(self).approvals.record_of(k) == old(self).approvals.record_of(k),
    {
        let timestamp = utc_timestamp();
        self.approvals.approve(reviewable_id, approver, timestamp);
    }

    /// Withdraws the approval of a chunk.
    pub fn unapprove(&mut self, reviewable_id: &ReviewableDiffId)
        requires
            old(self).wf(),
        ensures
            final(self).wf(),
            same_but_approvals(*final(self), *old(self)),
            final(self).approvals.record_of(reviewable_id@) is None,
            forall|k: ReviewableDiffIdView|
                k != reviewable_id@ ==> final(self).approvals.record_of(k) == old(self).approvals.record_of(k),
    {
        self.approvals.unapprove(reviewable_id);
    }

    /// Adds an instruction for a chunk, folded into its note if it has one.
    pub fn add_instruction(&mut self, reviewable_id: ReviewableDiffId, instruction: Instruction)
        requires
            old(self).wf(),
        ensures
            final(self).wf(),
            same_but_instructions(*final(self), *old(self)),
            final(self).instructions.entries() == old(self).instructions.added(
                reviewable_id@,
                instruction@,
            ),
    {
        self.instructions.add_instruction(reviewable_id, instruction);
    }

    /// Puts an instruction in place of a chunk's note.
    pub fn replace_instruction(&mut self, reviewable_id: ReviewableDiffId, instruction: Instruction)
        requires
            old(self).wf(),
        ensures
            final(self).wf(),
            same_but_instructions(*final(self), *old(self)),
            final(self).instructions.entries() == old(self).instructions.replaced(
                reviewable_id@,
                instruction@,
            ),
    {
        self.instructions.replace_instruction(reviewable_id, instruction);
    }

    /// Approves every chunk of a file in the name of `approver`, all with
    /// one timestamp.
    pub fn approve_all_in_file(&mut self, file_path: &str, approver: String)
        requires
            old(self).wf(),
        ensures
            final(self).wf(),
            same_but_approvals(*final(self), *old(self)),
            forall|k: ReviewableDiffIdView|
                id_in_file(old(self).diffs(), file_path@, k) ==> approved_by(
                    #[trigger] final(self).approvals.record_of(k),
                    approver@,
                ),
            forall|k: ReviewableDiffIdView|
                !id_in_file(old(self).diffs(), file_path@, k) ==> final(self).approvals.record_of(k)
                    == old(self).approvals.record_of(k),
    {
        let timestamp = utc_timestamp();
        let ghost ds = self.diffs();
        let ghost path = file_path@;
        let mut i: usize = 0;
        while i < self.reviewable_diffs.len()
            invariant
                self.wf(),
                same_but_approvals(*self, *old(self)),
                ds == self.diffs(),
                path == file_path@,
                utc_stamp_text(timestamp@),
                i <= ds.len(),
                forall|k: ReviewableDiffIdView|
                    id_in_file(ds.take(i as int), path, k) ==> approved_by(
                        #[trigger] self.approvals.record_of(k),
                        approver@,
                    ),
                forall|k: ReviewableDiffIdView|
                    !id_in_file(ds.take(i as int), path, k) ==> #[trigger] self.approvals.record_of(
                        k,
                    ) == old(self).approvals.record_of(k),
            decreases ds.len() - i,
        {
            let ghost a0 = self.approvals;
            assert(ds[i as int] == self.reviewable_diffs@[i as int]@);
            let ghost t0 = ds.take(i as int);
            let ghost t1 = ds.take(i + 1);
            assert(t1[i as int] == ds[i as int]);
            assert forall|k: ReviewableDiffIdView| id_in_file(t1, path, k) <==> (id_in_file(t0, path, k) || (ds[i as int].file_path == path && ds[i as int].id == k)) by {
                if id_in_file(t1, path, k) {
                    let w = choose|w: int| 0 <= w < t1.len() && (#[trigger] t1[w]).file_path == path && t1[w].id == k;
                    if w < i {
                        assert(t0[w] == t1[w]);
                    }
                }
                if id_in_file(t0, path, k) {
                    let w = choose|w: int| 0 <= w < t0.len() && (#[trigger] t0[w]).file_path == path && t0[w].id == k;
                    assert(t1[w] == t0[w]);
                }
            }
            if same_text(self.reviewable_diffs[i].file_path.as_str(), file_path) {
                let id = self.reviewable_diffs[i].id.duplicate();
                let who = approver.clone();
                let when = timestamp.clone();
                self.approvals.approve(id, who, when);
                proof {
                    assert forall|k: ReviewableDiffIdView| id_in_file(t1, path, k) implies approved_by(
                        #[trigger] self.approvals.record_of(k),
                        approver@,
                    ) by {
                        if k != ds[i as int].id {
                            assert(id_in_file(t0, path, k));
                            assert(approved_by(a0.record_of(k), approver@));
                        }
                    }
                    assert forall|k: ReviewableDiffIdView| !id_in_file(t1, path, k) implies #[trigger] self.approvals.record_of(k)
                        == old(self).approvals.record_of(k) by {
                        assert(k != ds[i as int].id);
                        assert(!id_in_file(t0, path, k));
                    }
                }
            } else {
                proof {
                    assert forall|k: ReviewableDiffIdView| id_in_file(t1, path, k) implies approved_by(
                        #[trigger] self.approvals.record_of(k),
                        approver@,
                    ) by {
                        assert(id_in_file(t0, path, k));
                    }
                    assert forall|k: ReviewableDiffIdView| !id_in_file(t1, path, k) implies #[trigger] self.approvals.record_of(k)
                        == old(self).approvals.record_of(k) by {
                        assert(!id_in_file(t0, path, k));
                    }
                }
            }
            i = i + 1;
        }
        assert(ds.take(i as int) =~= ds);
    }

    /// Whether a decision is approved.
    pub fn is_decision_approved(&self, decision_number: u32) -> (b: bool)
        ensures
            b == self.decision_approvals.approved_spec(decision_number),
    {
        self.decision_approvals.is_approved(&decision_number)
    }

    /// The number of approved chunks of a decision and the number of its
    /// chunks, by the decision index.
    pub fn decision_approval_progress(&self, decision_number: u32) -> (r: (usize, usize))
        ensures
            r.1 == chunks_of(self.decisions.decision_index@, decision_number).len(),
            r.0 == approved_among(
                self.approvals,
                chunks_of(self.decisions.decision_index@, decision_number),
            ),
    {
        let ghost index = self.decisions.decision_index@;
        let mut total: usize = 0;
        let mut approved: usize = 0;
        let mut i: usize = 0;
        while i < self.decisions.decision_index.len()
            invariant
                index == self.decisions.decision_index@,
                i <= index.len(),
                total == chunks_of(index.take(i as int), decision_number).len(),
                approved == approved_among(
                    self.approvals,
                    chunks_of(index.take(i as int), decision_number),
                ),
                approved <= total,
                total <= i,
            decreases index.len() - i,
        {
            assert(index.take(i + 1).drop_last() =~= index.take(i as int));
            let entry = &self.decisions.decision_index[i];
            if has_number(&entry.1, decision_number) {
                let ghost c0 = chunks_of(index.take(i as int), decision_number);
                assert(chunks_of(index.take(i + 1), decision_number) == c0.push(entry.0@));
                assert(c0.push(entry.0@).drop_last() =~= c0);
                total = total + 1;
                if self.approvals.is_approved(&entry.0) {
                    approved = approved + 1;
                }
            }
            i = i + 1;
        }
        assert(index.take(i as int) =~= index);
        (approved, total)
    }

    /// Approves a decision in the name of `approver`, stamped with the
    /// current time.
    pub fn approve_decision(&mut self, decision_number: u32, approver: String)
        requires
            old(self).wf(),
        ensures
            final(self).wf(),
            same_but_decision_approvals(*final(self), *old(self)),
            approved_by(final(self).decision_approvals.record_of(decision_number), approver@),
            forall|n: u32|
                n != decision_number ==> final(self).decision_approvals.record_of(n) == old(self).decision_approvals.record_of(n),
    {
        let timestamp = utc_timestamp();
        self.decision_approvals.approve(decision_number, approver, timestamp);
    }

    /// Withdraws the approval of a decision.
    pub fn unapprove_decision(&mut self, decision_number: u32)
        requires
            old(self).wf(),
        ensures
            final(self).wf(),
            same_but_decision_approvals(*final(self), *old(self)),
            final(self).decision_approvals.record_of(decision_number) is None,
            forall|n: u32|
                n != decision_number ==> final(self).decision_approvals.record_of(n) == old(self).decision_approvals.record_of(n),
    {
        self.decision_approvals.unapprove(&decision_number);
    }

    /// The author of the change under review.
    pub fn author(&self) -> (a: &str)
        ensures
            a@ == self.author@,
    {
        self.author.as_str()
    }

    /// The files of the review, each once, in ascending order.
    pub fn get_file_paths(&self) -> (r: Vec<String>)
        ensures
            text_ascending(strings_view(r@)),
            forall|f: Seq<char>|
                strings_view(r@).contains(f) <==> exists|i: int|
                    0 <= i < self.diffs().len() && (#[trigger] self.diffs()[i]).file_path == f,
    {
        let ghost ds = self.diffs();
        let mut out: Vec<String> = Vec::new();
        let mut i: usize = 0;
        while i < self.reviewable_diffs.len()
            invariant
                ds == self.diffs(),
                i <= ds.len(),
                text_ascending(strings_view(out@)),
                forall|f: Seq<char>|
                    strings_view(out@).contains(f) <==> exists|k: int|
                        0 <= k < i && (#[trigger] ds[k]).file_path == f,
            decreases ds.len() - i,
        {
            assert(ds[i as int] == self.reviewable_diffs@[i as int]@);
            let name = self.reviewable_diffs[i].file_path.clone();
            insert_text_sorted(&mut out, name);
            proof {
                assert forall|f: Seq<char>| strings_view(out@).contains(f) <==> exists|k: int|
                    0 <= k < i + 1 && (#[trigger] ds[k]).file_path == f by {
                    if f == ds[i as int].file_path {
                        assert(ds[i as int].file_path == f);
                    }
                }
            }
            i = i + 1;
        }
        out
    }
}

} // verus!
