//! The summary of a finished review: which decisions were approved, which
//! instructions remain, and counts of both.

use vstd::prelude::*;

use crate::review::decision::{
    decisions_view, impacts_view, CodeImpact, CodeImpactView, Decision, DecisionLog, DecisionView,
};
use crate::review::export_import::ExportedLineRange;
use crate::review::instruction::InstructionStatus;
use crate::text::{decimal, push_decimal, push_text};

verus! {

/// An approved decision.
#[derive(Debug)]
pub struct ApprovedDecisionEntry {
    pub number: u32,
    pub title: String,
    pub approved_by: String,
    pub approval_timestamp: String,
}

/// A decision still to approve, with what it affects.
#[derive(Debug)]
pub struct UnapprovedDecisionEntry {
    pub number: u32,
    pub title: String,
    pub rationale: Option<String>,
    pub code_impacts: Vec<CodeImpact>,
}

/// An instruction, with its lines as `start-end`.
#[derive(Debug)]
pub struct InstructionEntry {
    pub file: String,
    pub lines: String,
    pub content: String,
    pub author: String,
    pub timestamp: String,
}

/// The counts of a summary.
#[derive(Debug)]
pub struct ReviewSummaryStats {
    pub total_decisions: usize,
    pub approved_decisions: usize,
    pub unapproved_decisions: usize,
    pub total_instructions: usize,
    pub active_instructions: usize,
}

/// The decisions of a summary.
#[derive(Debug)]
pub struct ReviewSummaryDecisions {
    pub approved: Vec<ApprovedDecisionEntry>,
    pub unapproved: Vec<UnapprovedDecisionEntry>,
}

/// The instructions of a summary.
#[derive(Debug)]
pub struct ReviewSummaryInstructions {
    pub active: Vec<InstructionEntry>,
    pub addressed: Vec<InstructionEntry>,
}

/// The summary of a review.
#[derive(Debug)]
pub struct ReviewSummary {
    pub commit: String,
    pub contribution_folder: String,
    pub decisions: ReviewSummaryDecisions,
    pub instructions: ReviewSummaryInstructions,
    pub summary: ReviewSummaryStats,
}

/// A recorded approval of a decision.
#[derive(Debug, Clone)]
pub struct SummaryDecisionApproval {
    pub decision_number: u32,
    pub approved_by: String,
    pub approval_timestamp: String,
}

/// A recorded instruction.
#[derive(Debug, Clone)]
pub struct SummaryExportedInstruction {
    pub file: String,
    pub line_range: ExportedLineRange,
    pub content: String,
    pub author: String,
    pub timestamp: String,
    pub status: InstructionStatus,
}

/// The position of the last approval of decision `n` among the first `k`.
pub open spec fn last_approval(apps: Seq<SummaryDecisionApproval>, n: u32, k: int) -> Option<int>
    decreases k,
{
    if k <= 0 {
        None
    } else if apps[k - 1].decision_number == n {
        Some(k - 1)
    } else {
        last_approval(apps, n, k - 1)
    }
}

/// The approved decisions of `decs`, in order, as (number, title, approver,
/// time) with the last approval recorded for each.
pub open spec fn approved_entries(decs: Seq<DecisionView>, apps: Seq<SummaryDecisionApproval>) -> Seq<
    (u32, Seq<char>, Seq<char>, Seq<char>),
>
    decreases decs.len(),
{
    if decs.len() == 0 {
        seq![]
    } else {
        let d = decs.last();
        let rest = approved_entries(decs.drop_last(), apps);
        match last_approval(apps, d.number, apps.len() as int) {
            Some(p) => rest.push(
                (d.number, d.title, apps[p].approved_by@, apps[p].approval_timestamp@),
            ),
            None => rest,
        }
    }
}

/// The decisions of `decs` without a recorded approval, in order.
pub open spec fn unapproved_entries(decs: Seq<DecisionView>, apps: Seq<SummaryDecisionApproval>) -> Seq<DecisionView>
    decreases decs.len(),
{
    if decs.len() == 0 {
        seq![]
    } else {
        let d = decs.last();
        let rest = unapproved_entries(decs.drop_last(), apps);
        if last_approval(apps, d.number, apps.len() as int) is None {
            rest.push(d)
        } else {
            rest
        }
    }
}

/// The value of an instruction entry: file, lines, content, author, time.
pub open spec fn instruction_entry(i: SummaryExportedInstruction) -> (Seq<char>, Seq<char>, Seq<char>, Seq<char>, Seq<char>) {
    (
        i.file@,
        decimal(i.line_range.start_line as nat) + "-"@ + decimal(i.line_range.end_line as nat),
        i.content@,
        i.author@,
        i.timestamp@,
    )
}

/// The entries of the instructions with status `st`, in order.
pub open spec fn entries_with_status(insts: Seq<SummaryExportedInstruction>, st: InstructionStatus) -> Seq<
    (Seq<char>, Seq<char>, Seq<char>, Seq<char>, Seq<char>),
>
    decreases insts.len(),
{
    if insts.len() == 0 {
        seq![]
    } else {
        let rest = entries_with_status(insts.drop_last(), st);
        if insts.last().status == st {
            rest.push(instruction_entry(insts.last()))
        } else {
            rest
        }
    }
}

/// The values of approved entries.
pub open spec fn approved_view(v: Seq<ApprovedDecisionEntry>) -> Seq<(u32, Seq<char>, Seq<char>, Seq<char>)> {
    v.map_values(|e: ApprovedDecisionEntry| (e.number, e.title@, e.approved_by@, e.approval_timestamp@))
}

/// The values of unapproved entries.
pub open spec fn unapproved_view(v: Seq<UnapprovedDecisionEntry>) -> Seq<DecisionView> {
    v.map_values(
        |e: UnapprovedDecisionEntry|
            DecisionView {
                number: e.number,
                title: e.title@,
                rationale: match e.rationale {
                    Some(r) => Some(r@),
                    None => None,
                },
                code_impacts: impacts_view(e.code_impacts@),
            },
    )
}

/// The values of instruction entries.
pub open spec fn instruction_entries_view(v: Seq<InstructionEntry>) -> Seq<
    (Seq<char>, Seq<char>, Seq<char>, Seq<char>, Seq<char>),
> {
    v.map_values(|e: InstructionEntry| (e.file@, e.lines@, e.content@, e.author@, e.timestamp@))
}

/// The last recorded approval of decision `n`.
fn find_last_approval(apps: &Vec<SummaryDecisionApproval>, n: u32) -> (r: Option<usize>)
    ensures
        match r {
            Some(p) => last_approval(apps@, n, apps@.len() as int) == Some(p as int) && p < apps@.len(),
            None => last_approval(apps@, n, apps@.len() as int) is None,
        },
{
    let mut k: usize = apps.len();
    while k > 0
        invariant
            k <= apps@.len(),
            last_approval(apps@, n, apps@.len() as int) == last_approval(apps@, n, k as int),
        decreases k,
    {
        if apps[k - 1].decision_number == n {
            return Some(k - 1);
        }
        k = k - 1;
    }
    None
}

/// A copy of a list of code impacts.
fn copy_impacts(v: &Vec<CodeImpact>) -> (r: Vec<CodeImpact>)
    ensures
        impacts_view(r@) == impacts_view(v@),
{
    let mut out: Vec<CodeImpact> = Vec::new();
    let mut i: usize = 0;
    while i < v.len()
        invariant
            i <= v@.len(),
            impacts_view(out@) == impacts_view(v@).take(i as int),
        decreases v@.len() - i,
    {
        let c = v[i].clone_impact();
        let ghost o0 = out@;
        out.push(c);
        assert(impacts_view(out@) =~= impacts_view(o0).push(c@));
        assert(impacts_view(v@)[i as int] == v@[i as int]@);
        assert(impacts_view(out@) =~= impacts_view(v@).take(i + 1));
        i = i + 1;
    }
    assert(impacts_view(v@).take(i as int) =~= impacts_view(v@));
    out
}

/// Sorts the decisions of a log by whether they were approved, and the
/// instructions by status, and counts both.
pub fn summarize(
    log: &DecisionLog,
    decision_approvals: &Vec<SummaryDecisionApproval>,
    instructions: &Vec<SummaryExportedInstruction>,
    contribution_folder: String,
) -> (s: ReviewSummary)
    ensures
        s.commit@ == log.commit@,
        s.contribution_folder@ == contribution_folder@,
        approved_view(s.decisions.approved@) == approved_entries(
            decisions_view(log.decisions@),
            decision_approvals@,
        ),
        unapproved_view(s.decisions.unapproved@) == unapproved_entries(
            decisions_view(log.decisions@),
            decision_approvals@,
        ),
        instruction_entries_view(s.instructions.active@) == entries_with_status(
            instructions@,
            InstructionStatus::Active,
        ),
        instruction_entries_view(s.instructions.addressed@) == entries_with_status(
            instructions@,
            InstructionStatus::Addressed,
        ),
        s.summary.total_decisions == log.decisions@.len(),
        s.summary.approved_decisions == s.decisions.approved@.len(),
        s.summary.unapproved_decisions == s.decisions.unapproved@.len(),
        s.summary.total_instructions == s.instructions.active@.len()
            + s.instructions.addressed@.len(),
        s.summary.active_instructions == s.instructions.active@.len(),
{
    let ghost decs = decisions_view(log.decisions@);
    let ghost apps = decision_approvals@;
    let mut approved: Vec<ApprovedDecisionEntry> = Vec::new();
    let mut unapproved: Vec<UnapprovedDecisionEntry> = Vec::new();
    let mut i: usize = 0;
    while i < log.decisions.len()
        invariant
            decs == decisions_view(log.decisions@),
            apps == decision_approvals@,
            i <= decs.len(),
            approved_view(approved@) == approved_entries(decs.take(i as int), apps),
            unapproved_view(unapproved@) == unapproved_entries(decs.take(i as int), apps),
            approved@.len() + unapproved@.len() == i,
        decreases decs.len() - i,
    {
        let d = &log.decisions[i];
        assert(decs.take(i + 1).drop_last() =~= decs.take(i as int));
        assert(decs.take(i + 1).last() == d@);
        match find_last_approval(decision_approvals, d.number) {
            Some(p) => {
                let a = &decision_approvals[p];
                let e = ApprovedDecisionEntry {
                    number: d.number,
                    title: d.title.clone(),
                    approved_by: a.approved_by.clone(),
                    approval_timestamp: a.approval_timestamp.clone(),
                };
                let ghost o0 = approved@;
                approved.push(e);
                assert(approved_view(approved@) =~= approved_view(o0).push(
                    (d.number, d.title@, a.approved_by@, a.approval_timestamp@),
                ));
            },
            None => {
                let rationale = match &d.rationale {
                    Some(r) => Some(r.clone()),
                    None => None,
                };
                let e = UnapprovedDecisionEntry {
                    number: d.number,
                    title: d.title.clone(),
                    rationale,
                    code_impacts: copy_impacts(&d.code_impacts),
                };
                let ghost o0 = unapproved@;
                unapproved.push(e);
                assert(unapproved_view(unapproved@) =~= unapproved_view(o0).push(d@));
            },
        }
        i = i + 1;
    }
    assert(decs.take(i as int) =~= decs);
    let ghost insts = instructions@;
    let mut active: Vec<InstructionEntry> = Vec::new();
    let mut addressed: Vec<InstructionEntry> = Vec::new();
    let mut j: usize = 0;
    while j < instructions.len()
        invariant
            insts == instructions@,
            j <= insts.len(),
            instruction_entries_view(active@) == entries_with_status(
                insts.take(j as int),
                InstructionStatus::Active,
            ),
            instruction_entries_view(addressed@) == entries_with_status(
                insts.take(j as int),
                InstructionStatus::Addressed,
            ),
            active@.len() + addressed@.len() == j,
        decreases insts.len() - j,
    {
        let inst = &instructions[j];
        assert(insts.take(j + 1).drop_last() =~= insts.take(j as int));
        assert(insts.take(j + 1).last() == *inst);
        let mut lines = String::new();
        push_decimal(&mut lines, inst.line_range.start_line);
        push_text(&mut lines, "-");
        push_decimal(&mut lines, inst.line_range.end_line);
        let e = InstructionEntry {
            file: inst.file.clone(),
            lines,
            content: inst.content.clone(),
            author: inst.author.clone(),
            timestamp: inst.timestamp.clone(),
        };
        proof {
            assert((e.file@, e.lines@, e.content@, e.author@, e.timestamp@) == instruction_entry(*inst));
        }
        match inst.status {
            InstructionStatus::Active => {
                let ghost o0 = active@;
                active.push(e);
                assert(instruction_entries_view(active@) =~= instruction_entries_view(o0).push(
                    instruction_entry(*inst),
                ));
            },
            InstructionStatus::Addressed => {
                let ghost o0 = addressed@;
                addressed.push(e);
                assert(instruction_entries_view(addressed@) =~= instruction_entries_view(o0).push(
                    instruction_entry(*inst),
                ));
            },
        }
        j = j + 1;
    }
    assert(insts.take(j as int) =~= insts);
    let total_decisions = log.decisions.len();
    let approved_count = approved.len();
    let unapproved_count = unapproved.len();
    let total_instructions = active.len() + addressed.len();
    let active_count = active.len();
    ReviewSummary {
        commit: log.commit.clone(),
        contribution_folder,
        decisions: ReviewSummaryDecisions { approved, unapproved },
        instructions: ReviewSummaryInstructions { active, addressed },
        summary: ReviewSummaryStats {
            total_decisions,
            approved_decisions: approved_count,
            unapproved_decisions: unapproved_count,
            total_instructions,
            active_instructions: active_count,
        },
    }
}

} // verus!
