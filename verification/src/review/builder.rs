//! Assembling a review engine from decisions and the chunks their impacts
//! produced.

use vstd::prelude::*;

use crate::review::decision::{
    decision_numbered, decisions_view, numbers_of, Decision, DecisionView, ReviewDecisions,
};
use crate::review::engine::ReviewEngine;
use crate::review::git_ref::DiffQuery;
use crate::review::keyed::{distinct_keys, find_key, lemma_find_key, lemma_find_key_push, lemma_find_key_update, position_of};
use crate::review::providers::DiffProvider;
use crate::review::reviewable_diff_id::{LineRange, ReviewableDiffId, ReviewableDiffIdView};
use crate::review::state::{diffs_view, CoreDiff, CoreDiffView, ReviewableDiff, ReviewableDiffView};

verus! {

/// Builds review engines from the decisions behind a change, reading
/// sources through a diff provider.
pub struct ReviewEngineBuilder {
    pub diff_provider: Box<dyn DiffProvider>,
    pub author: String,
}

impl ReviewEngineBuilder {
    /// A builder reading through `diff_provider`, for reviews by `author`.
    pub fn new(diff_provider: Box<dyn DiffProvider>, author: String) -> (b: Self)
        ensures
            b.author@ == author@,
    {
        ReviewEngineBuilder { diff_provider, author }
    }
}

/// A chunk produced from a range of a decision's impact: the decision, the
/// file, the lines of the chunk, what the analysis found, and the impact's
/// range (first and last line) that produced it.
#[derive(Debug, Clone)]
pub struct ProducedDiff {
    pub decision_number: u32,
    pub file_path: String,
    pub line_range: LineRange,
    pub core_diff: CoreDiff,
    pub cited_start: usize,
    pub cited_end: usize,
}

/// The identifier of a produced chunk under `query`, and its decision.
pub open spec fn produced_key(p: ProducedDiff, query: crate::review::git_ref::DiffQueryView) -> (ReviewableDiffIdView, u32) {
    (
        ReviewableDiffIdView { query, file_path: p.file_path@, line_range: p.line_range },
        p.decision_number,
    )
}

/// The decisions that produced chunks with identifier `k`, each once, in
/// the order they first produced one.
pub open spec fn produced_numbers(ps: Seq<(ReviewableDiffIdView, u32)>, k: ReviewableDiffIdView) -> Seq<u32>
    decreases ps.len(),
{
    if ps.len() == 0 {
        seq![]
    } else {
        let r = produced_numbers(ps.drop_last(), k);
        if ps.last().0 == k && !r.contains(ps.last().1) {
            r.push(ps.last().1)
        } else {
            r
        }
    }
}

/// The position of the first chunk of `cs` with identifier `k`.
pub open spec fn chunk_pos(cs: Seq<ReviewableDiffView>, k: ReviewableDiffIdView, i: int) -> Option<int>
    decreases cs.len() - i,
{
    if i < 0 || i >= cs.len() {
        None
    } else if cs[i].id == k {
        Some(i)
    } else {
        chunk_pos(cs, k, i + 1)
    }
}

/// The ranges `r` with `c` added, unless it is there.
pub open spec fn with_range(r: Seq<(usize, usize)>, c: (usize, usize)) -> Seq<(usize, usize)> {
    if r.contains(c) {
        r
    } else {
        r.push(c)
    }
}

/// The chunks after taking in produced chunk `p`: a chunk with its
/// identifier gains its cited range; otherwise a new chunk is added with
/// that one cited range.
pub open spec fn merge_produced(cs: Seq<ReviewableDiffView>, p: ProducedDiff, query: crate::review::git_ref::DiffQueryView) -> Seq<ReviewableDiffView> {
    let k = produced_key(p, query).0;
    match chunk_pos(cs, k, 0) {
        Some(i) => cs.update(
            i,
            ReviewableDiffView { cited_ranges: with_range(cs[i].cited_ranges, (p.cited_start, p.cited_end)), ..cs[i] },
        ),
        None => cs.push(
            ReviewableDiffView {
                id: k,
                core_diff: p.core_diff@,
                file_path: p.file_path@,
                cited_ranges: seq![(p.cited_start, p.cited_end)],
            },
        ),
    }
}

/// The chunks made from produced chunks `ps`, one per identifier, in the
/// order of first production, each citing every range that produced it.
pub open spec fn produced_chunks(ps: Seq<ProducedDiff>, query: crate::review::git_ref::DiffQueryView) -> Seq<ReviewableDiffView>
    decreases ps.len(),
{
    if ps.len() == 0 {
        seq![]
    } else {
        merge_produced(produced_chunks(ps.drop_last(), query), ps.last(), query)
    }
}

/// Produced chunk `q` of `ps` has identifier `k` under `query`.
pub open spec fn produced_as(ps: Seq<ProducedDiff>, q: int, query: crate::review::git_ref::DiffQueryView, k: ReviewableDiffIdView) -> bool {
    0 <= q < ps.len() && produced_key(ps[q], query).0 == k
}

/// Some produced chunk has identifier `k`.
pub open spec fn produced_some(ps: Seq<ProducedDiff>, query: crate::review::git_ref::DiffQueryView, k: ReviewableDiffIdView) -> bool {
    exists|q: int| #[trigger] produced_as(ps, q, query, k)
}

/// Some chunk of `cs` has identifier `k`.
pub open spec fn has_chunk(cs: Seq<ReviewableDiffView>, k: ReviewableDiffIdView) -> bool {
    exists|i: int| 0 <= i < cs.len() && #[trigger] cs[i].id == k
}

/// Some produced chunk with identifier `k` cites range `r`.
pub open spec fn cited_for(ps: Seq<ProducedDiff>, query: crate::review::git_ref::DiffQueryView, k: ReviewableDiffIdView, r: (usize, usize)) -> bool {
    exists|q: int| #[trigger] produced_as(ps, q, query, k) && (ps[q].cited_start, ps[q].cited_end) == r
}

/// Produced chunk `q` is the first with identifier `k`.
pub open spec fn first_producer(ps: Seq<ProducedDiff>, query: crate::review::git_ref::DiffQueryView, k: ReviewableDiffIdView, q: int) -> bool {
    produced_as(ps, q, query, k) && forall|q2: int| 0 <= q2 < q ==> !#[trigger] produced_as(ps, q2, query, k)
}

/// Where `chunk_pos` finds a chunk it has the identifier and none before
/// it does; where it finds none, no chunk has it.
proof fn lemma_chunk_pos(cs: Seq<ReviewableDiffView>, k: ReviewableDiffIdView, i: int)
    requires
        0 <= i,
    ensures
        chunk_pos(cs, k, i) matches Some(p) ==> i <= p < cs.len() && cs[p].id == k && forall|j: int|
            i <= j < p ==> cs[j].id != k,
        chunk_pos(cs, k, i) is None ==> forall|j: int| i <= j < cs.len() ==> cs[j].id != k,
    decreases cs.len() - i,
{
    if i < cs.len() && cs[i].id != k {
        lemma_chunk_pos(cs, k, i + 1);
    }
}

/// The chunks made from produced chunks `ps` have distinct identifiers, one
/// for each identifier produced; each takes its core diff and file path
/// from the first produced chunk with its identifier, and cites, each once,
/// exactly the ranges of the produced chunks with its identifier.
pub proof fn lemma_produced_chunks(ps: Seq<ProducedDiff>, query: crate::review::git_ref::DiffQueryView)
    ensures
        forall|i: int, j: int|
            0 <= i < j < produced_chunks(ps, query).len() ==> (#[trigger] produced_chunks(ps, query)[i]).id
                != (#[trigger] produced_chunks(ps, query)[j]).id,
        forall|k: ReviewableDiffIdView|
            #[trigger] has_chunk(produced_chunks(ps, query), k) <==> produced_some(ps, query, k),
        forall|i: int|
            0 <= i < produced_chunks(ps, query).len() ==> {
                let c = #[trigger] produced_chunks(ps, query)[i];
                &&& c.cited_ranges.no_duplicates()
                &&& forall|r: (usize, usize)| c.cited_ranges.contains(r) <==> cited_for(ps, query, c.id, r)
                &&& exists|q: int|
                    #[trigger] first_producer(ps, query, c.id, q) && c.core_diff == ps[q].core_diff@
                        && c.file_path == ps[q].file_path@
            },
    decreases ps.len(),
{
    if ps.len() > 0 {
        let d = ps.drop_last();
        let l = ps.len() - 1;
        let p = ps[l];
        let kp = produced_key(p, query).0;
        let r0 = (p.cited_start, p.cited_end);
        lemma_produced_chunks(d, query);
        let c0 = produced_chunks(d, query);
        let cs = produced_chunks(ps, query);
        assert(ps.drop_last() == d);
        assert(cs == merge_produced(c0, p, query));
        assert forall|q: int, k: ReviewableDiffIdView| 0 <= q < l implies #[trigger] produced_as(ps, q, query, k)
            == produced_as(d, q, query, k) by {
            assert(ps[q] == d[q]);
        }
        assert(produced_as(ps, l, query, kp));
        assert forall|k: ReviewableDiffIdView, r: (usize, usize)| #[trigger] cited_for(ps, query, k, r) <==> (
        cited_for(d, query, k, r) || (k == kp && r == r0)) by {
            if cited_for(ps, query, k, r) {
                let q = choose|q: int| #[trigger] produced_as(ps, q, query, k) && (ps[q].cited_start, ps[q].cited_end) == r;
                if q < l {
                    assert(produced_as(d, q, query, k));
                }
            }
            if cited_for(d, query, k, r) {
                let q = choose|q: int| #[trigger] produced_as(d, q, query, k) && (d[q].cited_start, d[q].cited_end) == r;
                assert(produced_as(ps, q, query, k));
            }
        }
        assert forall|k: ReviewableDiffIdView| #[trigger] produced_some(ps, query, k) <==> (
        produced_some(d, query, k) || k == kp) by {
            if exists|q: int| #[trigger] produced_as(ps, q, query, k) {
                let q = choose|q: int| #[trigger] produced_as(ps, q, query, k);
                if q < l {
                    assert(produced_as(d, q, query, k));
                }
            }
            if exists|q: int| #[trigger] produced_as(d, q, query, k) {
                let q = choose|q: int| #[trigger] produced_as(d, q, query, k);
                assert(produced_as(ps, q, query, k));
            }
        }
        lemma_chunk_pos(c0, kp, 0);
        match chunk_pos(c0, kp, 0) {
            Some(i0) => {
                let nc = ReviewableDiffView {
                    cited_ranges: with_range(c0[i0].cited_ranges, r0),
                    ..c0[i0]
                };
                assert(cs == c0.update(i0, nc));
                assert forall|i: int| 0 <= i < cs.len() && i != i0 implies cs[i] == c0[i] by {}
                assert forall|k: ReviewableDiffIdView| #[trigger] has_chunk(cs, k) <==> has_chunk(c0, k) by {
                    if exists|i: int| 0 <= i < cs.len() && #[trigger] cs[i].id == k {
                        let i = choose|i: int| 0 <= i < cs.len() && #[trigger] cs[i].id == k;
                        assert(c0[i].id == k);
                    }
                    if exists|i: int| 0 <= i < c0.len() && #[trigger] c0[i].id == k {
                        let i = choose|i: int| 0 <= i < c0.len() && #[trigger] c0[i].id == k;
                        assert(cs[i].id == k);
                    }
                }
                assert(has_chunk(c0, kp));
                assert forall|i: int| 0 <= i < cs.len() implies {
                    let c = #[trigger] cs[i];
                    &&& c.cited_ranges.no_duplicates()
                    &&& forall|r: (usize, usize)| c.cited_ranges.contains(r) <==> cited_for(ps, query, c.id, r)
                    &&& exists|q: int|
                        #[trigger] first_producer(ps, query, c.id, q) && c.core_diff == ps[q].core_diff@
                            && c.file_path == ps[q].file_path@
                } by {
                    let c = c0[i];
                    let q = choose|q: int|
                        #[trigger] first_producer(d, query, c.id, q) && c.core_diff == d[q].core_diff@
                            && c.file_path == d[q].file_path@;
                    assert(ps[q] == d[q]);
                    assert forall|q2: int| 0 <= q2 < q implies !#[trigger] produced_as(ps, q2, query, c.id) by {
                        assert(!produced_as(d, q2, query, c.id));
                    }
                    assert(first_producer(ps, query, c.id, q));
                    if i == i0 {
                        let old_r = c.cited_ranges;
                        let new_r = with_range(old_r, r0);
                        assert forall|r: (usize, usize)| new_r.contains(r) <==> (old_r.contains(r) || r == r0) by {
                            if !old_r.contains(r0) && new_r.contains(r) && !old_r.contains(r) {
                                let j = choose|j: int| 0 <= j < new_r.len() && new_r[j] == r;
                                if j < old_r.len() {
                                    assert(old_r[j] == r);
                                }
                            }
                            if old_r.contains(r) && !old_r.contains(r0) {
                                let j = choose|j: int| 0 <= j < old_r.len() && old_r[j] == r;
                                assert(new_r[j] == r);
                            }
                            if r == r0 && !old_r.contains(r0) {
                                assert(new_r[old_r.len() as int] == r0);
                            }
                        }
                        if !old_r.contains(r0) {
                            assert forall|a: int, b: int| 0 <= a < new_r.len() && 0 <= b < new_r.len() && a != b implies new_r[a] != new_r[b] by {
                                if a == old_r.len() {
                                    assert(new_r[b] == old_r[b]);
                                } else if b == old_r.len() {
                                    assert(new_r[a] == old_r[a]);
                                } else {
                                    assert(new_r[a] == old_r[a] && new_r[b] == old_r[b]);
                                }
                            }
                        }
                    } else {
                        assert(cs[i] == c);
                        assert(c.id != kp) by {
                            if i < i0 {
                                assert(c0[i].id != c0[i0].id);
                            } else {
                                assert(c0[i0].id != c0[i].id);
                            }
                        }
                    }
                }
            },
            None => {
                let nc = ReviewableDiffView {
                    id: kp,
                    core_diff: p.core_diff@,
                    file_path: p.file_path@,
                    cited_ranges: seq![r0],
                };
                assert(cs == c0.push(nc));
                assert(!produced_some(d, query, kp)) by {
                    if produced_some(d, query, kp) {
                        assert(has_chunk(c0, kp));
                        let i = choose|i: int| 0 <= i < c0.len() && #[trigger] c0[i].id == kp;
                    }
                }
                assert forall|k: ReviewableDiffIdView| #[trigger] has_chunk(cs, k) <==> (has_chunk(c0, k) || k == kp) by {
                    if exists|i: int| 0 <= i < cs.len() && #[trigger] cs[i].id == k {
                        let i = choose|i: int| 0 <= i < cs.len() && #[trigger] cs[i].id == k;
                        if i < c0.len() {
                            assert(c0[i].id == k);
                        }
                    }
                    if exists|i: int| 0 <= i < c0.len() && #[trigger] c0[i].id == k {
                        let i = choose|i: int| 0 <= i < c0.len() && #[trigger] c0[i].id == k;
                        assert(cs[i].id == k);
                    }
                    if k == kp {
                        assert(cs[c0.len() as int].id == k);
                    }
                }
                assert forall|i: int, j: int| 0 <= i < j < cs.len() implies (#[trigger] cs[i]).id != (
                #[trigger] cs[j]).id by {
                    if j == c0.len() {
                        assert(cs[i] == c0[i]);
                    } else {
                        assert(cs[i] == c0[i] && cs[j] == c0[j]);
                    }
                }
                assert forall|i: int| 0 <= i < cs.len() implies {
                    let c = #[trigger] cs[i];
                    &&& c.cited_ranges.no_duplicates()
                    &&& forall|r: (usize, usize)| c.cited_ranges.contains(r) <==> cited_for(ps, query, c.id, r)
                    &&& exists|q: int|
                        #[trigger] first_producer(ps, query, c.id, q) && c.core_diff == ps[q].core_diff@
                            && c.file_path == ps[q].file_path@
                } by {
                    if i < c0.len() {
                        let c = c0[i];
                        assert(cs[i] == c);
                        assert(c.id != kp);
                        let q = choose|q: int|
                            #[trigger] first_producer(d, query, c.id, q) && c.core_diff == d[q].core_diff@
                                && c.file_path == d[q].file_path@;
                        assert(ps[q] == d[q]);
                        assert forall|q2: int| 0 <= q2 < q implies !#[trigger] produced_as(ps, q2, query, c.id) by {
                            assert(!produced_as(d, q2, query, c.id));
                        }
                        assert(first_producer(ps, query, c.id, q));
                    } else {
                        assert(cs[i] == nc);
                        assert forall|r: (usize, usize)| nc.cited_ranges.contains(r) <==> cited_for(ps, query, kp, r) by {
                            if cited_for(d, query, kp, r) {
                                let q = choose|q: int| #[trigger] produced_as(d, q, query, kp) && (d[q].cited_start, d[q].cited_end) == r;
                            }
                            if r == r0 {
                                assert(nc.cited_ranges[0] == r0);
                            }
                        }
                        assert forall|q2: int| 0 <= q2 < l implies !#[trigger] produced_as(ps, q2, query, kp) by {
                            if produced_as(ps, q2, query, kp) {
                                assert(produced_as(d, q2, query, kp));
                            }
                        }
                        assert(first_producer(ps, query, kp, l));
                    }
                }
            },
        }
    }
}

/// Whether `v` holds `n`.
fn holds_number(v: &Vec<u32>, n: u32) -> (b: bool)
    ensures
        b == v@.contains(n),
{
    let mut i: usize = 0;
    while i < v.len()
        invariant
            i <= v@.len(),
            forall|j: int| 0 <= j < i ==> v@[j] != n,
        decreases v@.len() - i,
    {
        if v[i] == n {
            assert(v@[i as int] == n);
            return true;
        }
        i = i + 1;
    }
    false
}

/// The position of the first chunk with identifier `id`.
fn chunk_position(diffs: &Vec<ReviewableDiff>, id: &ReviewableDiffId) -> (r: Option<usize>)
    ensures
        match r {
            Some(p) => p < diffs@.len() && chunk_pos(diffs_view(diffs@), id@, 0) == Some(p as int),
            None => chunk_pos(diffs_view(diffs@), id@, 0) is None,
        },
{
    let ghost cs = diffs_view(diffs@);
    let mut i: usize = 0;
    while i < diffs.len()
        invariant
            cs == diffs_view(diffs@),
            i <= diffs@.len(),
            chunk_pos(cs, id@, 0) == chunk_pos(cs, id@, i as int),
        decreases diffs@.len() - i,
    {
        assert(cs[i as int] == diffs@[i as int]@);
        if diffs[i].id.same(id) {
            return Some(i);
        }
        i = i + 1;
    }
    None
}

/// Takes produced chunk `p`, with identifier `id`, into `diffs`.
fn merge_chunk(diffs: &mut Vec<ReviewableDiff>, p: ProducedDiff, id: ReviewableDiffId, Ghost(query): Ghost<crate::review::git_ref::DiffQueryView>)
    requires
        id@ == produced_key(p, query).0,
    ensures
        diffs_view(final(diffs)@) == merge_produced(diffs_view(old(diffs)@), p, query),
{
    let ghost cs = diffs_view(diffs@);
    let ghost pv = p;
    match chunk_position(diffs, &id) {
        Some(i) => {
            let mut d = diffs.remove(i);
            let ghost dv = d@;
            d.add_cited_range(p.cited_start, p.cited_end);
            diffs.insert(i, d);
            proof {
                assert(dv == cs[i as int]);
                let nd = ReviewableDiffView {
                    cited_ranges: with_range(cs[i as int].cited_ranges, (pv.cited_start, pv.cited_end)),
                    ..cs[i as int]
                };
                assert(d@ == nd);
                assert(diffs@ =~= old(diffs)@.update(i as int, d));
                assert(diffs_view(diffs@) =~= cs.update(i as int, nd));
                assert(merge_produced(cs, pv, query) == cs.update(i as int, nd));
            }
        },
        None => {
            let mut d = ReviewableDiff::new(id, p.core_diff, p.file_path);
            d.add_cited_range(p.cited_start, p.cited_end);
            diffs.push(d);
            proof {
                assert(diffs_view(diffs@) =~= merge_produced(cs, pv, query));
            }
        },
    }
}

/// What the builder does with one code impact of a decision, given whether
/// the file's language can be parsed and which versions of the file could
/// be read.
#[derive(Debug, Clone, Copy, PartialEq, Eq, Structural)]
pub enum ImpactPlan {
    /// The language has no parser: the impact is passed over.
    SkipUnsupported,
    /// Neither version of the file could be read: the impact is passed over.
    SkipUnreadable,
    /// The file is gone in the newer version: each of its ranges is passed
    /// over, and the build goes on.
    SkipDeleted,
    /// Each range is analysed in the newer version, against the older one
    /// where it was read.
    AnalyseRanges { with_old: bool },
}

/// The plan for a code impact: a file whose language has no parser, or of
/// which no version can be read, is passed over; a file deleted in the
/// newer version has its ranges passed over; otherwise its ranges are
/// analysed.
pub fn plan_impact(supported: bool, has_old: bool, has_new: bool) -> (p: ImpactPlan)
    ensures
        p == if !supported {
            ImpactPlan::SkipUnsupported
        } else if !has_old && !has_new {
            ImpactPlan::SkipUnreadable
        } else if !has_new {
            ImpactPlan::SkipDeleted
        } else {
            ImpactPlan::AnalyseRanges { with_old: has_old }
        },
{
    if !supported {
        ImpactPlan::SkipUnsupported
    } else if !has_old && !has_new {
        ImpactPlan::SkipUnreadable
    } else if !has_new {
        ImpactPlan::SkipDeleted
    } else {
        ImpactPlan::AnalyseRanges { with_old: has_old }
    }
}

/// The last of the decisions `decs` numbered `n`.
pub open spec fn last_numbered(decs: Seq<DecisionView>, n: u32) -> Option<DecisionView>
    decreases decs.len(),
{
    if decs.len() == 0 {
        None
    } else if decs.last().number == n {
        Some(decs.last())
    } else {
        last_numbered(decs.drop_last(), n)
    }
}

impl ReviewEngineBuilder {
    /// An engine over the produced chunks, one per identifier, each citing
    /// every impact range that produced it, with the decisions (a later one
    /// replacing an earlier one of the same number) and each chunk listed
    /// under the decisions that produced it, each once, in order.
    pub fn build_from_produced(self, decisions: Vec<Decision>, produced: Vec<ProducedDiff>, query: &DiffQuery) -> (e: ReviewEngine)
        ensures
            e.wf(),
            e.state.author@ == self.author@,
            forall|n: u32|
                #[trigger] decision_numbered(e.state.decisions.decisions_spec(), n) == last_numbered(
                    decisions_view(decisions@),
                    n,
                ),
            forall|k: ReviewableDiffIdView|
                #[trigger] numbers_of(e.state.decisions.decision_index@, k) == {
                    let nums = produced_numbers(
                        produced@.map_values(|p: ProducedDiff| produced_key(p, query@)),
                        k,
                    );
                    if nums.len() > 0 {
                        Some(nums)
                    } else {
                        None
                    }
                },
            forall|x: crate::review::state::ReviewableDiffView|
                e.state.diffs().contains(x) <==> crate::review::state::kept(
                    produced_chunks(produced@, query@),
                    x,
                ),
            e.state.approvals.approvals@.len() == 0,
            e.state.instructions.entries().len() == 0,
    {
        let mut review_decisions = ReviewDecisions::new();
        let ghost decs = decisions_view(decisions@);
        let mut i: usize = 0;
        while i < decisions.len()
            invariant
                decs == decisions_view(decisions@),
                i <= decs.len(),
                review_decisions.wf(),
                review_decisions.decision_index@.len() == 0,
                forall|n: u32|
                    #[trigger] decision_numbered(review_decisions.decisions_spec(), n) == last_numbered(
                        decs.take(i as int),
                        n,
                    ),
            decreases decs.len() - i,
        {
            let d = decisions[i].clone_decision();
            assert(decs.take(i + 1).drop_last() =~= decs.take(i as int));
            assert(decs.take(i + 1).last() == decisions@[i as int]@);
            review_decisions.add_decision(d);
            i = i + 1;
        }
        assert(decs.take(i as int) =~= decs);
        let ghost ps = produced@.map_values(|p: ProducedDiff| produced_key(p, query@));
        let ghost dfin = review_decisions.decisions@;
        assert forall|n: u32| #[trigger] decision_numbered(decisions_view(dfin), n) == last_numbered(decs, n) by {
            assert(decision_numbered(review_decisions.decisions_spec(), n) == last_numbered(decs.take(i as int), n));
        }
        let mut diffs: Vec<ReviewableDiff> = Vec::new();
        let mut rest = produced;
        let ghost all = rest@;
        let ghost mut k: int = 0;
        while rest.len() > 0
            invariant
                ps == all.map_values(|p: ProducedDiff| produced_key(p, query@)),
                0 <= k <= all.len(),
                rest@ == all.skip(k),
                review_decisions.wf(),
                review_decisions.decisions@ == dfin,
                diffs_view(diffs@) == produced_chunks(all.take(k), query@),
                forall|n: u32|
                    #[trigger] decision_numbered(decisions_view(dfin), n) == last_numbered(decs, n),
                forall|key: ReviewableDiffIdView|
                    #[trigger] numbers_of(review_decisions.decision_index@, key) == {
                        let nums = produced_numbers(ps.take(k), key);
                        if nums.len() > 0 {
                            Some(nums)
                        } else {
                            None
                        }
                    },
            decreases rest@.len(),
        {
            let ghost r0 = rest@;
            assert(r0.len() > 0 && k < all.len());
            let p = rest.remove(0);
            proof {
                assert(p == all[k]);
                assert(rest@ =~= all.skip(k + 1));
            }
            let id = ReviewableDiffId::new(query.duplicate(), p.file_path.clone(), p.line_range);
            let ghost key_view = id@;
            let ghost s0 = review_decisions.decision_index@;
            proof {
                assert(ps[k] == (id@, p.decision_number));
                assert(ps.take(k + 1).drop_last() =~= ps.take(k));
                assert(ps.take(k + 1).last() == ps[k]);
                lemma_find_key(s0, id@, 0);
            }
            match position_of(&review_decisions.decision_index, &id) {
                Some(q) => {
                    let present = holds_number(&review_decisions.decision_index[q].1, p.decision_number);
                    if !present {
                        let mut entry = review_decisions.decision_index.remove(q);
                        let ghost before_e = entry;
                        entry.1.push(p.decision_number);
                        let ghost e = entry;
                        review_decisions.decision_index.insert(q, entry);
                        proof {
                            let s1 = review_decisions.decision_index@;
                            assert(s1 =~= s0.update(q as int, e));
                            lemma_find_key_update(s0, q as int, e, key_view, 0);
                            assert(before_e == s0[q as int]);
                            assert(e.0@ == s0[q as int].0@);
                            assert(e.1@ == s0[q as int].1@.push(p.decision_number));
                            assert(find_key(s0, key_view, 0) == Some(q as int));
                            assert(numbers_of(s0, key_view) == Some(s0[q as int].1@));
                            assert forall|a: int, b: int| 0 <= a < b < s1.len() implies (#[trigger] s1[a]).0@
                                != (#[trigger] s1[b]).0@ by {
                                assert(s1[a].0@ == s0[a].0@ && s1[b].0@ == s0[b].0@);
                            }
                            assert forall|key: ReviewableDiffIdView| #[trigger] numbers_of(s1, key) == {
                                let nums = produced_numbers(ps.take(k + 1), key);
                                if nums.len() > 0 {
                                    Some(nums)
                                } else {
                                    None
                                }
                            } by {
                                lemma_find_key_update(s0, q as int, e, key, 0);
                                lemma_find_key(s0, key, 0);
                                if key != key_view {
                                    match find_key(s0, key, 0) {
                                        Some(w) => {
                                            assert(w != q);
                                            assert(s1[w] == s0[w]);
                                        },
                                        None => {},
                                    }
                                }
                                assert(numbers_of(s0, key) == {
                                    let nums = produced_numbers(ps.take(k), key);
                                    if nums.len() > 0 {
                                        Some(nums)
                                    } else {
                                        None
                                    }
                                });
                            }
                        }
                    } else {
                        proof {
                            assert(numbers_of(s0, key_view) == Some(s0[q as int].1@));
                            assert forall|key: ReviewableDiffIdView| #[trigger] numbers_of(s0, key) == {
                                let nums = produced_numbers(ps.take(k + 1), key);
                                if nums.len() > 0 {
                                    Some(nums)
                                } else {
                                    None
                                }
                            } by {
                                assert(numbers_of(s0, key) == {
                                    let nums = produced_numbers(ps.take(k), key);
                                    if nums.len() > 0 {
                                        Some(nums)
                                    } else {
                                        None
                                    }
                                });
                            }
                        }
                    }
                },
                None => {
                    let mut nums: Vec<u32> = Vec::new();
                    nums.push(p.decision_number);
                    let ghost nv = nums@;
                    review_decisions.decision_index.push((id.duplicate(), nums));
                    proof {
                        let s1 = review_decisions.decision_index@;
                        let e = s1[s0.len() as int];
                        assert(s1 == s0.push(e));
                        assert(nv =~= seq![p.decision_number]);
                        assert forall|a: int, b: int| 0 <= a < b < s1.len() implies (#[trigger] s1[a]).0@
                            != (#[trigger] s1[b]).0@ by {
                            if b == s0.len() {
                                assert(s1[a] == s0[a]);
                            } else {
                                assert(s1[a] == s0[a] && s1[b] == s0[b]);
                            }
                        }
                        assert(numbers_of(s0, key_view) is None);
                        assert(numbers_of(s0, key_view) == {
                            let nums = produced_numbers(ps.take(k), key_view);
                            if nums.len() > 0 {
                                Some(nums)
                            } else {
                                None
                            }
                        });
                        assert(produced_numbers(ps.take(k), key_view).len() == 0);
                        assert(produced_numbers(ps.take(k), key_view) =~= Seq::<u32>::empty());
                        assert forall|key: ReviewableDiffIdView| #[trigger] numbers_of(s1, key) == {
                            let nums = produced_numbers(ps.take(k + 1), key);
                            if nums.len() > 0 {
                                Some(nums)
                            } else {
                                None
                            }
                        } by {
                            lemma_find_key_push(s0, e, key, 0);
                            lemma_find_key(s0, key, 0);
                            assert(numbers_of(s0, key) == {
                                let nums = produced_numbers(ps.take(k), key);
                                if nums.len() > 0 {
                                    Some(nums)
                                } else {
                                    None
                                }
                            });
                            if key == key_view {
                                assert(s1[s0.len() as int].1@ == nv);
                            } else {
                                match find_key(s0, key, 0) {
                                    Some(q) => {
                                        assert(s1[q] == s0[q]);
                                    },
                                    None => {},
                                }
                            }
                        }
                    }
                },
            }
            proof {
                assert(all.take(k + 1).drop_last() =~= all.take(k));
                assert(all.take(k + 1).last() == p);
            }
            merge_chunk(&mut diffs, p, id, Ghost(query@));
            proof {
                k = k + 1;
            }
        }
        proof {
            assert(all.skip(k).len() == 0);
            assert(ps.take(k) =~= ps);
            assert(all.take(k) =~= all);
        }
        let mut engine = ReviewEngine::new(diffs, self.author);
        engine.set_decisions(review_decisions);
        engine
    }
}

} // verus!
