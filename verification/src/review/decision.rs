//! Decisions: the architectural choices behind a change, each mapped to the
//! files and lines it touched, and the index from chunks to decisions.

use vstd::prelude::*;

use crate::review::keyed::{distinct_keys, find_key, lemma_find_key, lemma_find_key_push, position_of};
use crate::review::reviewable_diff_id::{ReviewableDiffId, ReviewableDiffIdView};
use crate::review::state::{diff_refs_view, diffs_view, ordered, ReviewState, ReviewableDiff, ReviewableDiffView};
use crate::review::text_order::lemma_id_order_antisym;
use crate::text::from_text;

verus! {

/// An inclusive range of lines affected by a decision.
#[derive(Debug, Clone, Copy, PartialEq, Eq, Structural)]
pub struct DecisionLineRange {
    /// First line of the range (inclusive).
    pub start: usize,
    /// Last line of the range (inclusive).
    pub end: usize,
}

/// How a decision affects one file.
#[derive(Debug, Clone, PartialEq, Eq)]
pub struct CodeImpact {
    /// Why the file is affected.
    pub reasoning: String,
    /// The file, relative to the repository root.
    pub file: String,
    /// The lines of the file that the decision affects.
    pub line_ranges: Vec<DecisionLineRange>,
}

/// The mathematical value of a `CodeImpact`.
pub struct CodeImpactView {
    pub reasoning: Seq<char>,
    pub file: Seq<char>,
    pub line_ranges: Seq<DecisionLineRange>,
}

impl View for CodeImpact {
    type V = CodeImpactView;

    open spec fn view(&self) -> CodeImpactView {
        CodeImpactView {
            reasoning: self.reasoning@,
            file: self.file@,
            line_ranges: self.line_ranges@,
        }
    }
}

/// An architectural decision and the code it produced.
#[derive(Debug, Clone, PartialEq, Eq)]
pub struct Decision {
    /// Sequential identifier of the decision, from 1.
    pub number: u32,
    /// One-sentence summary.
    pub title: String,
    /// Why the choice was made, if said.
    pub rationale: Option<String>,
    /// The files and lines affected.
    pub code_impacts: Vec<CodeImpact>,
}

/// The mathematical value of a `Decision`.
pub struct DecisionView {
    pub number: u32,
    pub title: Seq<char>,
    pub rationale: Option<Seq<char>>,
    pub code_impacts: Seq<CodeImpactView>,
}

/// The values of a list of code impacts.
pub open spec fn impacts_view(v: Seq<CodeImpact>) -> Seq<CodeImpactView> {
    v.map_values(|c: CodeImpact| c@)
}

impl View for Decision {
    type V = DecisionView;

    open spec fn view(&self) -> DecisionView {
        DecisionView {
            number: self.number,
            title: self.title@,
            rationale: match self.rationale {
                Some(r) => Some(r@),
                None => None,
            },
            code_impacts: impacts_view(self.code_impacts@),
        }
    }
}

impl CodeImpact {
    /// A copy of the impact.
    pub fn clone_impact(&self) -> (c: Self)
        ensures
            c@ == self@,
    {
        let mut ranges: Vec<DecisionLineRange> = Vec::new();
        let mut i: usize = 0;
        while i < self.line_ranges.len()
            invariant
                i <= self.line_ranges@.len(),
                ranges@ == self.line_ranges@.take(i as int),
            decreases self.line_ranges@.len() - i,
        {
            ranges.push(self.line_ranges[i]);
            assert(ranges@ =~= self.line_ranges@.take(i + 1));
            i = i + 1;
        }
        assert(self.line_ranges@.take(i as int) =~= self.line_ranges@);
        CodeImpact { reasoning: self.reasoning.clone(), file: self.file.clone(), line_ranges: ranges }
    }
}

impl Decision {
    /// A copy of the decision.
    pub fn clone_decision(&self) -> (c: Self)
        ensures
            c@ == self@,
    {
        let mut impacts: Vec<CodeImpact> = Vec::new();
        let mut i: usize = 0;
        while i < self.code_impacts.len()
            invariant
                i <= self.code_impacts@.len(),
                impacts_view(impacts@) == impacts_view(self.code_impacts@).take(i as int),
            decreases self.code_impacts@.len() - i,
        {
            let c = self.code_impacts[i].clone_impact();
            let ghost o0 = impacts@;
            impacts.push(c);
            assert(impacts_view(impacts@) =~= impacts_view(o0).push(c@));
            assert(impacts_view(self.code_impacts@)[i as int] == self.code_impacts@[i as int]@);
            assert(impacts_view(impacts@) =~= impacts_view(self.code_impacts@).take(i + 1));
            i = i + 1;
        }
        assert(impacts_view(self.code_impacts@).take(i as int) =~= impacts_view(self.code_impacts@));
        let rationale = match &self.rationale {
            Some(r) => Some(r.clone()),
            None => None,
        };
        Decision { number: self.number, title: self.title.clone(), rationale, code_impacts: impacts }
    }
}

/// The decisions behind one contribution, with the commit that holds them.
#[derive(Debug, Clone)]
pub struct DecisionLog {
    /// Hash of the commit with the code changes.
    pub commit: String,
    /// The decisions, in order.
    pub decisions: Vec<Decision>,
}

/// A chunk paired with one decision that affects it.
#[derive(Debug, Clone)]
pub struct DecisionReviewableDiff {
    pub chunk_id: ReviewableDiffId,
    pub decision_number: u32,
}

/// The values of a list of decisions.
pub open spec fn decisions_view(v: Seq<Decision>) -> Seq<DecisionView> {
    v.map_values(|d: Decision| d@)
}

/// The values of the decisions that references point to.
pub open spec fn decision_refs_view(v: Seq<&Decision>) -> Seq<DecisionView> {
    v.map_values(|d: &Decision| (*d)@)
}

/// The position of the first decision at or after `i` numbered `n`.
pub open spec fn decision_index_of(s: Seq<DecisionView>, n: u32, i: int) -> Option<int>
    decreases s.len() - i,
{
    if i < 0 || i >= s.len() {
        None
    } else if s[i].number == n {
        Some(i)
    } else {
        decision_index_of(s, n, i + 1)
    }
}

/// What `decision_index_of` finds: a decision numbered `n` with none before.
pub proof fn lemma_decision_index_of(s: Seq<DecisionView>, n: u32, i: int)
    requires
        0 <= i,
    ensures
        decision_index_of(s, n, i) matches Some(p) ==> i <= p < s.len() && s[p].number == n
            && forall|j: int| i <= j < p ==> s[j].number != n,
        decision_index_of(s, n, i) is None ==> forall|j: int| i <= j < s.len() ==> s[j].number != n,
    decreases s.len() - i,
{
    if i < s.len() && s[i].number != n {
        lemma_decision_index_of(s, n, i + 1);
    }
}

/// Two lists that agree on where number `n` stands find it at the same
/// place.
proof fn lemma_decision_index_of_same(s: Seq<DecisionView>, t: Seq<DecisionView>, n: u32, i: int)
    requires
        0 <= i,
        s.len() == t.len(),
        forall|k: int| 0 <= k < s.len() ==> ((#[trigger] s[k]).number == n) == (t[k].number == n),
    ensures
        decision_index_of(s, n, i) == decision_index_of(t, n, i),
    decreases s.len() - i,
{
    if i < s.len() {
        assert((s[i].number == n) == (t[i].number == n));
        lemma_decision_index_of_same(s, t, n, i + 1);
    }
}

/// The decision numbered `n`, if any.
pub open spec fn decision_numbered(s: Seq<DecisionView>, n: u32) -> Option<DecisionView> {
    match decision_index_of(s, n, 0) {
        Some(p) => Some(s[p]),
        None => None,
    }
}

/// The decisions of `s` that the numbers `nums` name, in the order of
/// `nums`; numbers without a decision are left out.
pub open spec fn decisions_named(s: Seq<DecisionView>, nums: Seq<u32>) -> Seq<DecisionView>
    decreases nums.len(),
{
    if nums.len() == 0 {
        seq![]
    } else {
        let rest = decisions_named(s, nums.drop_last());
        match decision_numbered(s, nums.last()) {
            Some(d) => rest.push(d),
            None => rest,
        }
    }
}

/// Decisions ordered by strictly increasing number.
pub open spec fn by_number(s: Seq<DecisionView>) -> bool {
    forall|i: int, j: int| 0 <= i < j < s.len() ==> (#[trigger] s[i]).number < (#[trigger] s[j]).number
}

/// The numbers of an index entry's key, if the key has an entry.
pub open spec fn numbers_of(index: Seq<(ReviewableDiffId, Vec<u32>)>, id: ReviewableDiffIdView) -> Option<
    Seq<u32>,
> {
    match find_key(index, id, 0) {
        Some(p) => Some(index[p].1@),
        None => None,
    }
}

/// Finds the decision numbered `n` in `v`.
fn find_decision(v: &Vec<Decision>, n: u32) -> (r: Option<usize>)
    ensures
        match r {
            Some(p) => decision_index_of(decisions_view(v@), n, 0) == Some(p as int) && p
                < v@.len() && v@[p as int].number == n,
            None => decision_index_of(decisions_view(v@), n, 0) is None,
        },
{
    let ghost s = decisions_view(v@);
    proof {
        lemma_decision_index_of(s, n, 0);
    }
    let mut i: usize = 0;
    while i < v.len()
        invariant
            i <= v@.len(),
            s == decisions_view(v@),
            decision_index_of(s, n, 0) == decision_index_of(s, n, i as int),
        decreases v@.len() - i,
    {
        if v[i].number == n {
            return Some(i);
        }
        i = i + 1;
    }
    None
}

/// The decisions of a review and the index from chunks to the decisions
/// that affect them.
#[derive(Debug, Clone)]
pub struct ReviewDecisions {
    /// The decisions, one per number, in the order they were added.
    pub decisions: Vec<Decision>,
    /// For each chunk that some decision affects, the numbers of those
    /// decisions; one entry per chunk.
    pub decision_index: Vec<(ReviewableDiffId, Vec<u32>)>,
}

impl ReviewDecisions {
    /// The decisions' values.
    pub open spec fn decisions_spec(&self) -> Seq<DecisionView> {
        decisions_view(self.decisions@)
    }

    /// No number occurs twice, and no chunk has two index entries.
    pub open spec fn wf(&self) -> bool {
        &&& forall|i: int, j: int|
            0 <= i < j < self.decisions@.len() ==> (#[trigger] self.decisions@[i]).number
                != (#[trigger] self.decisions@[j]).number
        &&& distinct_keys(self.decision_index@)
    }

    /// No decisions and an empty index.
    pub fn new() -> (r: Self)
        ensures
            r.wf(),
            r.decisions@.len() == 0,
            r.decision_index@.len() == 0,
    {
        ReviewDecisions { decisions: Vec::new(), decision_index: Vec::new() }
    }

    /// Adds a decision, replacing the one with the same number if there is
    /// one. The index is left as it is.
    pub fn add_decision(&mut self, decision: Decision)
        requires
            old(self).wf(),
        ensures
            final(self).wf(),
            final(self).decision_index@ == old(self).decision_index@,
            decision_numbered(final(self).decisions_spec(), decision.number) == Some(decision@),
            forall|n: u32|
                n != decision.number ==> decision_numbered(final(self).decisions_spec(), n)
                    == decision_numbered(old(self).decisions_spec(), n),
            final(self).decisions@.len() == old(self).decisions@.len() + (if decision_numbered(
                old(self).decisions_spec(),
                decision.number,
            ) is Some {
                0int
            } else {
                1int
            }),
    {
        let ghost s0 = self.decisions_spec();
        let ghost dv = decision@;
        let n = decision.number;
        proof {
            lemma_decision_index_of(s0, n, 0);
        }
        match find_decision(&self.decisions, n) {
            Some(p) => {
                self.decisions.set(p, decision);
                proof {
                    let s = self.decisions_spec();
                    assert(s =~= s0.update(p as int, dv));
                    assert(s0[p as int].number == n);
                    assert forall|m: u32| m != n implies decision_numbered(s, m)
                        == decision_numbered(s0, m) by {
                        lemma_decision_index_of_same(s, s0, m, 0);
                        lemma_decision_index_of(s, m, 0);
                        match decision_index_of(s, m, 0) {
                            Some(a) => {
                                assert(a != p);
                            },
                            None => {},
                        }
                    }
                    lemma_decision_index_of_same(s, s0, n, 0);
                    assert forall|i: int, j: int|
                        0 <= i < j < self.decisions@.len() implies (#[trigger] self.decisions@[i]).number
                        != (#[trigger] self.decisions@[j]).number by {
                        assert(self.decisions@[i].number == s0[i].number);
                        assert(self.decisions@[j].number == s0[j].number);
                        assert(old(self).decisions@[i].number != old(self).decisions@[j].number);
                    }
                }
            },
            None => {
                self.decisions.push(decision);
                proof {
                    let s = self.decisions_spec();
                    assert(s =~= s0.push(dv));
                    lemma_decision_index_of(s, n, 0);
                    assert forall|i: int, j: int|
                        0 <= i < j < self.decisions@.len() implies (#[trigger] self.decisions@[i]).number
                        != (#[trigger] self.decisions@[j]).number by {
                        if j < s0.len() {
                            assert(old(self).decisions@[i].number != old(self).decisions@[j].number);
                        } else {
                            assert(s0[i].number != n);
                        }
                    }
                    assert forall|m: u32| m != n implies decision_numbered(s, m)
                        == decision_numbered(s0, m) by {
                        lemma_decision_index_of(s, m, 0);
                        lemma_decision_index_of(s0, m, 0);
                        match (decision_index_of(s, m, 0), decision_index_of(s0, m, 0)) {
                            (Some(a), Some(b)) => {
                                if a < b {
                                    assert(s0[a].number == m);
                                } else if b < a {
                                    assert(s[b].number == m);
                                }
                            },
                            (Some(a), None) => {
                                if a < s0.len() {
                                    assert(s0[a].number == m);
                                }
                            },
                            (None, Some(b)) => {
                                assert(s[b].number == m);
                            },
                            (None, None) => {},
                        }
                    }
                    assert(decision_index_of(s, n, 0) == Some(s0.len() as int)) by {
                        match decision_index_of(s, n, 0) {
                            Some(a) => {
                                if a < s0.len() {
                                    assert(s0[a].number == n);
                                }
                            },
                            None => {
                                assert(s[s0.len() as int].number == n);
                            },
                        }
                    }
                }
            },
        }
    }

    /// The decision numbered `number`, if any.
    pub fn get_decision(&self, number: u32) -> (r: Option<&Decision>)
        ensures
            match r {
                Some(d) => decision_numbered(self.decisions_spec(), number) == Some(d@),
                None => decision_numbered(self.decisions_spec(), number) is None,
            },
    {
        match find_decision(&self.decisions, number) {
            Some(p) => {
                assert(self.decisions_spec()[p as int] == self.decisions@[p as int]@);
                Some(&self.decisions[p])
            },
            None => None,
        }
    }

    /// The decisions that the index lists for a chunk, in the index's order;
    /// empty where the chunk has no entry.
    pub fn get_decisions_for_diff(&self, reviewable_id: &ReviewableDiffId) -> (r: Vec<&Decision>)
        ensures
            decision_refs_view(r@) == (match numbers_of(self.decision_index@, reviewable_id@) {
                Some(nums) => decisions_named(self.decisions_spec(), nums),
                None => seq![],
            }),
    {
        let mut out: Vec<&Decision> = Vec::new();
        proof {
            lemma_find_key(self.decision_index@, reviewable_id@, 0);
        }
        match position_of(&self.decision_index, reviewable_id) {
            Some(p) => {
                let nums = &self.decision_index[p].1;
                let mut i: usize = 0;
                while i < nums.len()
                    invariant
                        i <= nums@.len(),
                        decision_refs_view(out@) == decisions_named(
                            self.decisions_spec(),
                            nums@.take(i as int),
                        ),
                    decreases nums@.len() - i,
                {
                    let ghost before = out@;
                    assert(nums@.take(i + 1).drop_last() =~= nums@.take(i as int));
                    match find_decision(&self.decisions, nums[i]) {
                        Some(q) => {
                            assert(self.decisions_spec()[q as int] == self.decisions@[q as int]@);
                            out.push(&self.decisions[q]);
                            assert(decision_refs_view(out@) =~= decision_refs_view(before).push(
                                self.decisions@[q as int]@,
                            ));
                        },
                        None => {},
                    }
                    i = i + 1;
                }
                assert(nums@.take(i as int) =~= nums@);
            },
            None => {},
        }
        out
    }

    /// All decisions, by increasing number.
    pub fn all_decisions(&self) -> (r: Vec<&Decision>)
        requires
            self.wf(),
        ensures
            by_number(decision_refs_view(r@)),
            r@.len() == self.decisions@.len(),
            forall|i: int|
                0 <= i < r@.len() ==> self.decisions_spec().contains(
                    #[trigger] decision_refs_view(r@)[i],
                ),
            forall|i: int|
                0 <= i < self.decisions@.len() ==> decision_refs_view(r@).contains(
                    #[trigger] self.decisions_spec()[i],
                ),
    {
        let ghost all = self.decisions_spec();
        let mut out: Vec<&Decision> = Vec::new();
        let mut i: usize = 0;
        while i < self.decisions.len()
            invariant
                self.wf(),
                all == self.decisions_spec(),
                i <= self.decisions@.len(),
                out@.len() == i,
                by_number(decision_refs_view(out@)),
                forall|k: int|
                    0 <= k < out@.len() ==> all.take(i as int).contains(
                        #[trigger] decision_refs_view(out@)[k],
                    ),
                forall|k: int|
                    0 <= k < i ==> decision_refs_view(out@).contains(#[trigger] all[k]),
            decreases self.decisions@.len() - i,
        {
            let d = &self.decisions[i];
            let ghost o = decision_refs_view(out@);
            let mut p: usize = 0;
            while p < out.len() && out[p].number < d.number
                invariant
                    p <= out@.len(),
                    o == decision_refs_view(out@),
                    forall|k: int| 0 <= k < p ==> (#[trigger] o[k]).number < d.number,
                decreases out@.len() - p,
            {
                p = p + 1;
            }
            proof {
                // every listed decision has a number other than `d`'s
                assert forall|k: int| 0 <= k < o.len() implies (#[trigger] o[k]).number
                    != d.number by {
                    assert(all.take(i as int).contains(o[k]));
                    let w = choose|w: int| 0 <= w < i && all.take(i as int)[w] == o[k];
                    assert(all[w] == o[k]);
                    assert(self.decisions@[w].number != self.decisions@[i as int].number);
                }
            }
            out.insert(p, d);
            proof {
                let n = decision_refs_view(out@);
                assert(n =~= o.insert(p as int, d@));
                assert forall|a: int, b: int| 0 <= a < b < n.len() implies (#[trigger] n[a]).number
                    < (#[trigger] n[b]).number by {
                    if b < p {
                        assert(n[a] == o[a] && n[b] == o[b]);
                    } else if b == p {
                        assert(n[a] == o[a]);
                    } else if a == p {
                        assert(n[b] == o[b - 1]);
                        if p < o.len() {
                            assert(o[p as int].number >= d.number);
                            assert(o[p as int].number != d.number);
                            if b - 1 > p {
                                assert(o[p as int].number < o[b - 1].number);
                            }
                        }
                    } else if a < p {
                        assert(n[a] == o[a] && n[b] == o[b - 1]);
                    } else {
                        assert(n[a] == o[a - 1] && n[b] == o[b - 1]);
                    }
                }
                assert forall|k: int| 0 <= k < n.len() implies all.take(i + 1).contains(
                    #[trigger] n[k],
                ) by {
                    if k == p {
                        assert(all.take(i + 1)[i as int] == d@);
                    } else {
                        let kk = if k < p {
                            k
                        } else {
                            k - 1
                        };
                        assert(n[k] == o[kk]);
                        assert(all.take(i as int).contains(o[kk]));
                        let w = choose|w: int| 0 <= w < i && all.take(i as int)[w] == o[kk];
                        assert(all.take(i + 1)[w] == o[kk]);
                    }
                }
                assert forall|k: int| 0 <= k < i + 1 implies n.contains(#[trigger] all[k]) by {
                    if k == i {
                        assert(n[p as int] == d@);
                    } else {
                        assert(o.contains(all[k]));
                        let w = choose|w: int| 0 <= w < o.len() && o[w] == all[k];
                        if w < p {
                            assert(n[w] == o[w]);
                        } else {
                            assert(n[w + 1] == o[w]);
                        }
                    }
                }
            }
            i = i + 1;
        }
        assert(all.take(i as int) =~= all);
        out
    }
}

/// Whether two inclusive line ranges share a line.
pub open spec fn overlaps(start1: usize, end1: usize, start2: usize, end2: usize) -> bool {
    start1 <= end2 && start2 <= end1
}

/// Line `l` lies in the inclusive range `[start, end]`.
pub open spec fn line_in(l: int, start: usize, end: usize) -> bool {
    start <= l <= end
}

/// Two inclusive line ranges, each with its start no later than its end,
/// overlap exactly when some line lies in both.
pub proof fn lemma_overlaps_shares_line(start1: usize, end1: usize, start2: usize, end2: usize)
    requires
        start1 <= end1,
        start2 <= end2,
    ensures
        overlaps(start1, end1, start2, end2) <==> exists|l: int|
            #[trigger] line_in(l, start1, end1) && line_in(l, start2, end2),
{
    if overlaps(start1, end1, start2, end2) {
        let l: int = if start1 <= start2 {
            start2 as int
        } else {
            start1 as int
        };
        assert(line_in(l, start1, end1) && line_in(l, start2, end2));
    }
}

impl ReviewDecisions {
    /// Whether the inclusive ranges `[start1, end1]` and `[start2, end2]`
    /// overlap: whether some line lies in both.
    pub fn ranges_overlap(start1: usize, end1: usize, start2: usize, end2: usize) -> (b: bool)
        ensures
            b == overlaps(start1, end1, start2, end2),
            start1 <= end1 && start2 <= end2 ==> (b <==> exists|l: int|
                #[trigger] line_in(l, start1, end1) && line_in(l, start2, end2)),
    {
        proof {
            if start1 <= end1 && start2 <= end2 {
                lemma_overlaps_shares_line(start1, end1, start2, end2);
            }
        }
        start1 <= end2 && start2 <= end1
    }
}

/// Whether impact `c` touches chunk `d`: same file, and a range of the
/// impact overlaps the chunk's lines.
pub open spec fn impact_hits(c: CodeImpactView, d: ReviewableDiffView) -> bool {
    c.file == d.file_path && exists|r: int|
        0 <= r < c.line_ranges.len() && overlaps(
            d.id.line_range.start_line,
            d.id.line_range.end_line,
            (#[trigger] c.line_ranges[r]).start,
            c.line_ranges[r].end,
        )
}

/// Whether some impact of `impacts` touches chunk `d`.
pub open spec fn touches(impacts: Seq<CodeImpactView>, d: ReviewableDiffView) -> bool {
    exists|k: int| 0 <= k < impacts.len() && impact_hits(#[trigger] impacts[k], d)
}

/// The numbers a chunk is indexed under: the number of each decision of
/// `decs` with an impact that touches the chunk, once, in the order of
/// `decs`.
pub open spec fn index_numbers(decs: Seq<DecisionView>, d: ReviewableDiffView) -> Seq<u32>
    decreases decs.len(),
{
    if decs.len() == 0 {
        seq![]
    } else if touches(decs.last().code_impacts, d) {
        index_numbers(decs.drop_last(), d).push(decs.last().number)
    } else {
        index_numbers(decs.drop_last(), d)
    }
}

/// Each number is smaller than every later one.
pub open spec fn strictly_increasing(v: Seq<u32>) -> bool {
    forall|a: int, b: int| 0 <= a < b < v.len() ==> #[trigger] v[a] < #[trigger] v[b]
}

/// Over decisions by increasing number, a chunk's numbers increase
/// strictly, so each decision is listed at most once, and each is the
/// number of one of the decisions.
pub proof fn lemma_index_numbers_ascending(decs: Seq<DecisionView>, d: ReviewableDiffView)
    requires
        by_number(decs),
    ensures
        forall|i: int, j: int|
            0 <= i < j < index_numbers(decs, d).len() ==> (#[trigger] index_numbers(decs, d)[i])
                < (#[trigger] index_numbers(decs, d)[j]),
        forall|i: int|
            0 <= i < index_numbers(decs, d).len() ==> exists|k: int|
                0 <= k < decs.len() && (#[trigger] decs[k]).number == #[trigger] index_numbers(decs, d)[i],
    decreases decs.len(),
{
    if decs.len() > 0 {
        let init = decs.drop_last();
        assert(by_number(init));
        lemma_index_numbers_ascending(init, d);
        let r = index_numbers(init, d);
        assert forall|i: int| 0 <= i < r.len() implies r[i] < decs.last().number by {
            let k = choose|k: int| 0 <= k < init.len() && (#[trigger] init[k]).number == r[i];
            assert(decs[k] == init[k]);
        }
        assert forall|i: int| 0 <= i < index_numbers(decs, d).len() implies exists|k: int|
            0 <= k < decs.len() && (#[trigger] decs[k]).number == #[trigger] index_numbers(decs, d)[i] by {
            if i < r.len() {
                let k = choose|k: int| 0 <= k < init.len() && (#[trigger] init[k]).number == r[i];
                assert(decs[k] == init[k]);
            } else {
                assert(decs[decs.len() - 1] == decs.last());
            }
        }
    }
}

/// Entry `p` of the index is for one of the chunks `ds`.
pub open spec fn key_of_chunk(index: Seq<(ReviewableDiffId, Vec<u32>)>, ds: Seq<ReviewableDiffView>, p: int) -> bool {
    exists|i: int| 0 <= i < ds.len() && index[p].0@ == (#[trigger] ds[i]).id
}

/// `t` lists the decisions of `s` by increasing number.
pub open spec fn number_order(t: Seq<DecisionView>, s: Seq<DecisionView>) -> bool {
    &&& by_number(t)
    &&& t.len() == s.len()
    &&& forall|i: int| 0 <= i < t.len() ==> s.contains(#[trigger] t[i])
    &&& forall|i: int| 0 <= i < s.len() ==> t.contains(#[trigger] s[i])
}

/// Whether impact `c` touches chunk `d`.
fn impact_hits_diff(c: &CodeImpact, d: &ReviewableDiff) -> (b: bool)
    ensures
        b == impact_hits(c@, d@),
{
    let same_file = c.file == d.file_path;
    if !same_file {
        return false;
    }
    assert(c@.file == d@.file_path);
    let start = d.id.line_range.start_line;
    let end = d.id.line_range.end_line;
    let mut r: usize = 0;
    while r < c.line_ranges.len()
        invariant
            r <= c.line_ranges@.len(),
            c@.file == d@.file_path,
            start == d.id.line_range.start_line,
            end == d.id.line_range.end_line,
            forall|k: int|
                0 <= k < r ==> !overlaps(
                    start,
                    end,
                    (#[trigger] c.line_ranges@[k]).start,
                    c.line_ranges@[k].end,
                ),
        decreases c.line_ranges@.len() - r,
    {
        let range = c.line_ranges[r];
        if ReviewDecisions::ranges_overlap(start, end, range.start, range.end) {
            assert(c@.line_ranges[r as int] == range);
            assert(overlaps(start, end, c@.line_ranges[r as int].start, c@.line_ranges[r as int].end));
            return true;
        }
        r = r + 1;
    }
    false
}

/// The numbers chunk `d` is indexed under, over `order`.
fn numbers_for(order: &Vec<&Decision>, d: &ReviewableDiff) -> (r: Vec<u32>)
    ensures
        r@ == index_numbers(decision_refs_view(order@), d@),
{
    let ghost decs = decision_refs_view(order@);
    let mut out: Vec<u32> = Vec::new();
    let mut j: usize = 0;
    while j < order.len()
        invariant
            decs == decision_refs_view(order@),
            j <= order@.len(),
            out@ == index_numbers(decs.take(j as int), d@),
        decreases order@.len() - j,
    {
        let dec = order[j];
        let ghost before = out@;
        let ghost iv = impacts_view(dec.code_impacts@);
        assert(decs[j as int] == dec@);
        let mut found = false;
        let mut k: usize = 0;
        while k < dec.code_impacts.len() && !found
            invariant
                k <= dec.code_impacts@.len(),
                iv == impacts_view(dec.code_impacts@),
                found ==> touches(iv, d@),
                !found ==> forall|m: int| 0 <= m < k ==> !impact_hits(#[trigger] iv[m], d@),
            decreases dec.code_impacts@.len() - k,
        {
            if impact_hits_diff(&dec.code_impacts[k], d) {
                assert(iv[k as int] == dec.code_impacts@[k as int]@);
                found = true;
            } else {
                assert(iv[k as int] == dec.code_impacts@[k as int]@);
            }
            k = k + 1;
        }
        if found {
            out.push(dec.number);
        }
        proof {
            assert(decs.take(j + 1).drop_last() =~= decs.take(j as int));
            assert(decs.take(j + 1).last() == dec@);
            if !found {
                assert(!touches(iv, d@));
            }
        }
        j = j + 1;
    }
    assert(decs.take(j as int) =~= decs);
    out
}

/// The identifiers of the chunks of `ds` that the index has no entry for,
/// as chunks, in order.
pub open spec fn unmapped(index: Seq<(ReviewableDiffId, Vec<u32>)>, ds: Seq<ReviewableDiffView>) -> Seq<ReviewableDiffView>
    decreases ds.len(),
{
    if ds.len() == 0 {
        seq![]
    } else if numbers_of(index, ds.last().id) is None {
        unmapped(index, ds.drop_last()).push(ds.last())
    } else {
        unmapped(index, ds.drop_last())
    }
}

/// The impact recorded for a chunk that no decision covers.
pub open spec fn unmapped_impact(d: ReviewableDiffView) -> CodeImpactView {
    CodeImpactView {
        reasoning: "Code change not mapped to any architectural decision"@,
        file: d.file_path,
        line_ranges: seq![
            DecisionLineRange { start: d.id.line_range.start_line, end: d.id.line_range.end_line },
        ],
    }
}

/// Decision 0, which collects the chunks that no decision covers.
pub open spec fn unmapped_decision(u: Seq<ReviewableDiffView>) -> DecisionView {
    DecisionView {
        number: 0,
        title: "Unmapped Changes"@,
        rationale: Some("Code changes that are not mapped to any architectural decision"@),
        code_impacts: u.map_values(|d: ReviewableDiffView| unmapped_impact(d)),
    }
}

impl ReviewDecisions {
    /// Rebuilds the index from the chunks of a review: each chunk is listed
    /// under the number of every decision with an impact that touches it,
    /// once, by increasing number; chunks that no impact touches get no
    /// entry.
    pub fn build_index_from_review_state(&mut self, review_state: &ReviewState)
        requires
            old(self).wf(),
            review_state.wf(),
        ensures
            final(self).wf(),
            final(self).decisions@ == old(self).decisions@,
            exists|order: Seq<DecisionView>|
                number_order(order, old(self).decisions_spec()) && forall|i: int|
                    0 <= i < review_state.diffs().len() ==> #[trigger] numbers_of(
                        final(self).decision_index@,
                        review_state.diffs()[i].id,
                    ) == (if index_numbers(order, review_state.diffs()[i]).len() > 0 {
                        Some(index_numbers(order, review_state.diffs()[i]))
                    } else {
                        None
                    }),
            forall|p: int|
                0 <= p < final(self).decision_index@.len() ==> #[trigger] key_of_chunk(
                    final(self).decision_index@,
                    review_state.diffs(),
                    p,
                ),
            forall|i: int|
                0 <= i < review_state.diffs().len() ==> match #[trigger] numbers_of(
                    final(self).decision_index@,
                    review_state.diffs()[i].id,
                ) {
                    Some(v) => strictly_increasing(v),
                    None => true,
                },
    {
        let ghost ds = review_state.diffs();
        let mut index: Vec<(ReviewableDiffId, Vec<u32>)> = Vec::new();
        let order = self.all_decisions();
        let ghost ov = decision_refs_view(order@);
        let mut i: usize = 0;
        while i < review_state.reviewable_diffs.len()
            invariant
                ds == review_state.diffs(),
                review_state.wf(),
                ov == decision_refs_view(order@),
                i <= ds.len(),
                distinct_keys(index@),
                forall|m: int|
                    0 <= m < i ==> #[trigger] numbers_of(index@, ds[m].id) == (if index_numbers(
                        ov,
                        ds[m],
                    ).len() > 0 {
                        Some(index_numbers(ov, ds[m]))
                    } else {
                        None
                    }),
                forall|p: int|
                    0 <= p < index@.len() ==> exists|m: int|
                        0 <= m < i && (#[trigger] index@[p]).0@ == (#[trigger] ds[m]).id,
            decreases ds.len() - i,
        {
            let d = &review_state.reviewable_diffs[i];
            assert(ds[i as int] == d@);
            let nums = numbers_for(&order, d);
            let ghost s0 = index@;
            proof {
                // the chunk's identifier differs from those of earlier chunks
                assert forall|m: int| 0 <= m < i implies (#[trigger] ds[m]).id != ds[i as int].id by {
                    assert(crate::review::text_order::id_order(ds[m].id, ds[i as int].id) == -1);
                    lemma_id_order_antisym(ds[m].id, ds[i as int].id);
                }
                assert forall|p: int| 0 <= p < s0.len() implies (#[trigger] s0[p]).0@ != ds[i as int].id by {
                    let m = choose|m: int| 0 <= m < i && (#[trigger] s0[p]).0@ == (#[trigger] ds[m]).id;
                    assert(ds[m].id != ds[i as int].id);
                }
                lemma_find_key(s0, ds[i as int].id, 0);
            }
            if nums.len() > 0 {
                let ghost nv = nums@;
                let key = d.id.duplicate();
                index.push((key, nums));
                proof {
                    let e = index@[s0.len() as int];
                    assert(index@ == s0.push(e));
                    assert forall|a: int, b: int| 0 <= a < b < index@.len() implies (#[trigger] index@[a]).0@
                        != (#[trigger] index@[b]).0@ by {
                        if b == s0.len() {
                            assert(index@[a] == s0[a]);
                        } else {
                            assert(index@[a] == s0[a] && index@[b] == s0[b]);
                        }
                    }
                    assert forall|m: int| 0 <= m < i + 1 implies #[trigger] numbers_of(index@, ds[m].id)
                        == (if index_numbers(ov, ds[m]).len() > 0 {
                        Some(index_numbers(ov, ds[m]))
                    } else {
                        None
                    }) by {
                        lemma_find_key_push(s0, e, ds[m].id, 0);
                        if m == i {
                            assert(e.0@ == ds[i as int].id);
                            assert(find_key(index@, ds[m].id, 0) == Some(s0.len() as int));
                            assert(index@[s0.len() as int].1@ == nv);
                        } else {
                            assert(numbers_of(s0, ds[m].id) == (if index_numbers(ov, ds[m]).len() > 0 {
                                Some(index_numbers(ov, ds[m]))
                            } else {
                                None
                            }));
                            match find_key(s0, ds[m].id, 0) {
                                Some(q) => {
                                    lemma_find_key(s0, ds[m].id, 0);
                                    assert(index@[q] == s0[q]);
                                },
                                None => {
                                    assert(ds[m].id != e.0@);
                                },
                            }
                        }
                    }
                    assert forall|p: int| 0 <= p < index@.len() implies exists|m: int|
                        0 <= m < i + 1 && (#[trigger] index@[p]).0@ == (#[trigger] ds[m]).id by {
                        if p == s0.len() {
                            assert(index@[p].0@ == ds[i as int].id);
                        } else {
                            assert(index@[p] == s0[p]);
                            let m = choose|m: int| 0 <= m < i && (#[trigger] s0[p]).0@ == (#[trigger] ds[m]).id;
                            assert(index@[p].0@ == ds[m].id);
                        }
                    }
                }
            } else {
                proof {
                    assert forall|m: int| 0 <= m < i + 1 implies #[trigger] numbers_of(index@, ds[m].id)
                        == (if index_numbers(ov, ds[m]).len() > 0 {
                        Some(index_numbers(ov, ds[m]))
                    } else {
                        None
                    }) by {}
                }
            }
            i = i + 1;
        }
        self.decision_index = index;
        proof {
            assert(number_order(ov, old(self).decisions_spec()));
            assert forall|m: int| 0 <= m < ds.len() implies match #[trigger] numbers_of(
                self.decision_index@,
                ds[m].id,
            ) {
                Some(v) => strictly_increasing(v),
                None => true,
            } by {
                lemma_index_numbers_ascending(ov, ds[m]);
                assert(numbers_of(self.decision_index@, ds[m].id) == (if index_numbers(ov, ds[m]).len() > 0 {
                    Some(index_numbers(ov, ds[m]))
                } else {
                    None
                }));
            }
            assert forall|p: int| 0 <= p < self.decision_index@.len() implies #[trigger] key_of_chunk(
                self.decision_index@,
                ds,
                p,
            ) by {
                let m = choose|m: int| 0 <= m < i && (#[trigger] self.decision_index@[p]).0@ == (#[trigger] ds[m]).id;
            }
        }
    }
}

/// The chunks without an entry keep the order of `ds`, come from `ds`, and
/// have no entry.
proof fn lemma_unmapped(index: Seq<(ReviewableDiffId, Vec<u32>)>, ds: Seq<ReviewableDiffView>)
    requires
        ordered(ds),
    ensures
        ordered(unmapped(index, ds)),
        forall|j: int|
            0 <= j < unmapped(index, ds).len() ==> numbers_of(
                index,
                (#[trigger] unmapped(index, ds)[j]).id,
            ) is None,
        forall|j: int|
            0 <= j < unmapped(index, ds).len() ==> ds.contains(#[trigger] unmapped(index, ds)[j]),
    decreases ds.len(),
{
    if ds.len() > 0 {
        let rest = ds.drop_last();
        assert(ordered(rest)) by {
            assert forall|a: int, b: int| 0 <= a < b < rest.len() implies crate::review::text_order::id_order(
                (#[trigger] rest[a]).id,
                (#[trigger] rest[b]).id,
            ) == -1 by {
                assert(rest[a] == ds[a] && rest[b] == ds[b]);
            }
        }
        lemma_unmapped(index, rest);
        let u0 = unmapped(index, rest);
        let u = unmapped(index, ds);
        assert forall|j: int| 0 <= j < u0.len() implies ds.contains(#[trigger] u0[j]) by {
            let w = choose|w: int| 0 <= w < rest.len() && rest[w] == u0[j];
            assert(ds[w] == u0[j]);
        }
        if numbers_of(index, ds.last().id) is None {
            assert(u == u0.push(ds.last()));
            assert forall|a: int, b: int| 0 <= a < b < u.len() implies crate::review::text_order::id_order(
                (#[trigger] u[a]).id,
                (#[trigger] u[b]).id,
            ) == -1 by {
                if b == u0.len() {
                    assert(u[a] == u0[a]);
                    let w = choose|w: int| 0 <= w < rest.len() && rest[w] == u0[a];
                    assert(ds[w] == u0[a]);
                    assert(crate::review::text_order::id_order(ds[w].id, ds[ds.len() - 1].id) == -1);
                } else {
                    assert(u[a] == u0[a] && u[b] == u0[b]);
                }
            }
            assert forall|j: int| 0 <= j < u.len() implies ds.contains(#[trigger] u[j]) by {
                if j == u0.len() {
                    assert(ds[ds.len() - 1] == u[j]);
                } else {
                    assert(u[j] == u0[j]);
                }
            }
            assert forall|j: int| 0 <= j < u.len() implies numbers_of(index, (#[trigger] u[j]).id) is None by {
                if j < u0.len() {
                    assert(u[j] == u0[j]);
                }
            }
        }
    }
}

/// Chunks in strict order have different identifiers.
proof fn lemma_ordered_distinct(s: Seq<ReviewableDiffView>, a: int, b: int)
    requires
        ordered(s),
        0 <= a < b < s.len(),
    ensures
        s[a].id != s[b].id,
{
    assert(crate::review::text_order::id_order(s[a].id, s[b].id) == -1);
    lemma_id_order_antisym(s[a].id, s[b].id);
}

/// One of the first `k` chunks of `u` has identifier `key`.
pub open spec fn listed(u: Seq<ReviewableDiffView>, k: int, key: ReviewableDiffIdView) -> bool {
    exists|m: int| 0 <= m < k && (#[trigger] u[m]).id == key
}

proof fn lemma_listed_step(u: Seq<ReviewableDiffView>, k: int, key: ReviewableDiffIdView)
    requires
        0 <= k < u.len(),
    ensures
        listed(u, k + 1, key) == (listed(u, k, key) || u[k].id == key),
{
    if listed(u, k + 1, key) && u[k].id != key {
        let m = choose|m: int| 0 <= m < k + 1 && (#[trigger] u[m]).id == key;
        assert(0 <= m < k && u[m].id == key);
    }
    if listed(u, k, key) {
        let m = choose|m: int| 0 <= m < k && (#[trigger] u[m]).id == key;
        assert(0 <= m < k + 1 && u[m].id == key);
    }
    if u[k].id == key {
        assert(0 <= k < k + 1 && u[k].id == key);
    }
}

impl ReviewDecisions {
    /// Adds decision 0, "Unmapped Changes", for the chunks of a review that
    /// the index has no entry for, with one impact per chunk, and lists those
    /// chunks under it. Where every chunk has an entry, nothing changes.
    pub fn create_unmapped_decision(&mut self, review_state: &ReviewState)
        requires
            old(self).wf(),
            review_state.wf(),
        ensures
            final(self).wf(),
            ({
                let u = unmapped(old(self).decision_index@, review_state.diffs());
                if u.len() == 0 {
                    final(self).decisions@ == old(self).decisions@ && final(self).decision_index@
                        == old(self).decision_index@
                } else {
                    &&& decision_numbered(final(self).decisions_spec(), 0) == Some(unmapped_decision(u))
                    &&& forall|n: u32|
                        n != 0 ==> decision_numbered(final(self).decisions_spec(), n)
                            == decision_numbered(old(self).decisions_spec(), n)
                    &&& forall|k: ReviewableDiffIdView|
                        #[trigger] numbers_of(final(self).decision_index@, k) == if listed(
                            u,
                            u.len() as int,
                            k,
                        ) {
                            Some(seq![0u32])
                        } else {
                            numbers_of(old(self).decision_index@, k)
                        }
                }
            }),
    {
        let ghost ds = review_state.diffs();
        let ghost idx0 = self.decision_index@;
        proof {
            lemma_unmapped(idx0, ds);
        }
        let mut found: Vec<&ReviewableDiff> = Vec::new();
        let mut i: usize = 0;
        while i < review_state.reviewable_diffs.len()
            invariant
                ds == review_state.diffs(),
                idx0 == self.decision_index@,
                i <= ds.len(),
                diff_refs_view(found@) == unmapped(idx0, ds.take(i as int)),
            decreases ds.len() - i,
        {
            let d = &review_state.reviewable_diffs[i];
            assert(ds[i as int] == d@);
            assert(ds.take(i + 1).drop_last() =~= ds.take(i as int));
            proof {
                lemma_find_key(idx0, d.id@, 0);
            }
            if position_of(&self.decision_index, &d.id).is_none() {
                let ghost f0 = found@;
                found.push(d);
                assert(diff_refs_view(found@) =~= diff_refs_view(f0).push(d@));
            }
            i = i + 1;
        }
        assert(ds.take(i as int) =~= ds);
        let ghost u = unmapped(idx0, ds);
        if found.len() == 0 {
            return;
        }
        let mut impacts: Vec<CodeImpact> = Vec::new();
        let mut j: usize = 0;
        while j < found.len()
            invariant
                j <= found@.len(),
                diff_refs_view(found@) == u,
                impacts_view(impacts@) == u.take(j as int).map_values(
                    |d: ReviewableDiffView| unmapped_impact(d),
                ),
            decreases found@.len() - j,
        {
            let d = found[j];
            assert(u[j as int] == d@);
            let mut ranges: Vec<DecisionLineRange> = Vec::new();
            ranges.push(
                DecisionLineRange { start: d.id.line_range.start_line, end: d.id.line_range.end_line },
            );
            let impact = CodeImpact {
                reasoning: from_text("Code change not mapped to any architectural decision"),
                file: d.file_path.clone(),
                line_ranges: ranges,
            };
            let ghost i0 = impacts@;
            impacts.push(impact);
            proof {
                assert(impact@ == unmapped_impact(d@)) by {
                    assert(impact@.line_ranges =~= unmapped_impact(d@).line_ranges);
                }
                assert(impacts_view(impacts@) =~= impacts_view(i0).push(impact@));
                assert(u.take(j + 1).map_values(|d: ReviewableDiffView| unmapped_impact(d))
                    =~= u.take(j as int).map_values(|d: ReviewableDiffView| unmapped_impact(d)).push(
                    unmapped_impact(d@),
                ));
            }
            j = j + 1;
        }
        assert(u.take(j as int) =~= u);
        let decision = Decision {
            number: 0,
            title: from_text("Unmapped Changes"),
            rationale: Some(from_text("Code changes that are not mapped to any architectural decision")),
            code_impacts: impacts,
        };
        assert(decision@ == unmapped_decision(u));
        self.add_decision(decision);
        let ghost decs1 = self.decisions@;
        let mut k: usize = 0;
        while k < found.len()
            invariant
                k <= found@.len(),
                diff_refs_view(found@) == u,
                ordered(u),
                forall|m: int| 0 <= m < u.len() ==> numbers_of(idx0, (#[trigger] u[m]).id) is None,
                distinct_keys(self.decision_index@),
                self.decisions@ == decs1,
                forall|a: int, b: int|
                    0 <= a < b < self.decisions@.len() ==> (#[trigger] self.decisions@[a]).number
                        != (#[trigger] self.decisions@[b]).number,
                forall|key: ReviewableDiffIdView|
                    #[trigger] numbers_of(self.decision_index@, key) == if listed(u, k as int, key) {
                        Some(seq![0u32])
                    } else {
                        numbers_of(idx0, key)
                    },
            decreases found@.len() - k,
        {
            let d = found[k];
            assert(u[k as int] == d@);
            let ghost s0 = self.decision_index@;
            assert(forall|key: ReviewableDiffIdView|
                #[trigger] numbers_of(s0, key) == if listed(u, k as int, key) {
                    Some(seq![0u32])
                } else {
                    numbers_of(idx0, key)
                });
            let mut nums: Vec<u32> = Vec::new();
            nums.push(0);
            let key = d.id.duplicate();
            proof {
                // the chunk has no entry yet
                assert(numbers_of(s0, d@.id) is None) by {
                    if listed(u, k as int, d@.id) {
                        let m = choose|m: int| 0 <= m < k && (#[trigger] u[m]).id == d@.id;
                        lemma_ordered_distinct(u, m, k as int);
                    }
                }
                lemma_find_key(s0, d@.id, 0);
            }
            self.decision_index.push((key, nums));
            proof {
                let e = self.decision_index@[s0.len() as int];
                assert(self.decision_index@ == s0.push(e));
                assert(e.1@ =~= seq![0u32]);
                assert forall|a: int, b: int| 0 <= a < b < self.decision_index@.len() implies (#[trigger] self.decision_index@[a]).0@
                    != (#[trigger] self.decision_index@[b]).0@ by {
                    if b == s0.len() {
                        assert(self.decision_index@[a] == s0[a]);
                        assert(find_key(s0, d@.id, 0) is None);
                    } else {
                        assert(self.decision_index@[a] == s0[a] && self.decision_index@[b] == s0[b]);
                    }
                }
                assert forall|key: ReviewableDiffIdView| #[trigger] numbers_of(self.decision_index@, key)
                    == if listed(u, k + 1, key) {
                    Some(seq![0u32])
                } else {
                    numbers_of(idx0, key)
                } by {
                    lemma_find_key_push(s0, e, key, 0);
                    lemma_find_key(s0, key, 0);
                    lemma_listed_step(u, k as int, key);
                    if key == d@.id {
                        assert(find_key(self.decision_index@, key, 0) == Some(s0.len() as int));
                        assert(self.decision_index@[s0.len() as int].1@ == seq![0u32]);
                        assert(u[k as int].id == key);
                        assert(listed(u, k + 1, key));
                    } else {
                        assert(numbers_of(s0, key) == if listed(u, k as int, key) {
                            Some(seq![0u32])
                        } else {
                            numbers_of(idx0, key)
                        });
                        match find_key(s0, key, 0) {
                            Some(q) => {
                                assert(self.decision_index@[q] == s0[q]);
                            },
                            None => {},
                        }
                    }
                }
            }
            k = k + 1;
        }
    }
}

} // verus!
