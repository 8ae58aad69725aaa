use diffviz::review::approval::{DecisionApprovals, ReviewApprovals};
use diffviz::review::decision_instructions::DecisionInstructions;
use diffviz::review::instruction::ReviewInstructions;
use diffviz::review::decision::{CodeImpact, Decision, DecisionLineRange, DecisionLog, ReviewDecisions};
use diffviz::review::engine::ReviewEngine;
use diffviz::review::export_import::{
    export_metadata, ExportScope, ExportedInstruction, ExportedInstructions, ExportedLineRange,
};
use diffviz::review::git_ref::{DiffQuery, GitRef};
use diffviz::review::instruction::{Instruction, InstructionStatus};
use diffviz::review::reviewable_diff_id::{LineRange, ReviewableDiffId};
use diffviz::review::state::{CoreDiff, ReviewState, ReviewableDiff};
use diffviz::review::summary::{summarize, SummaryDecisionApproval, SummaryExportedInstruction};
use diffviz::review::builder::{plan_impact, ImpactPlan, ProducedDiff, ReviewEngineBuilder};
use diffviz::review::mock_provider::MockDiffProvider;

/// No callback for an operation.
const NO_CALLBACK: Option<Box<dyn FnOnce(bool, Option<String>) + Send>> = None;

fn core_diff() -> CoreDiff {
    CoreDiff {
        language: "Rust".to_string(),
        total_changes: 1,
        boundary_node_type: "test".to_string(),
        boundary_kind: "Other(\"test\")".to_string(),
    }
}

fn id_for(file_path: &str, start_line: usize, end_line: usize) -> ReviewableDiffId {
    ReviewableDiffId::new(
        DiffQuery::head_to_unstaged(),
        file_path.to_string(),
        LineRange { start_line, end_line, start_column: 0, end_column: 0 },
    )
}

fn create_test_reviewable_diff(file_path: &str, start_line: usize) -> ReviewableDiff {
    ReviewableDiff::new(id_for(file_path, start_line, start_line + 10), core_diff(), file_path.to_string())
}

fn exported(file: &str, start: usize, end: usize, content: &str) -> ExportedInstruction {
    ExportedInstruction {
        file: file.to_string(),
        query: "HEAD..unstaged".to_string(),
        line_range: ExportedLineRange { start_line: start, end_line: end },
        content: content.to_string(),
        author: "inspector".to_string(),
        timestamp: "2024-01-12T10:30:00Z".to_string(),
        status: "active".to_string(),
        file_content_hash: String::new(),
        content_snapshot: None,
    }
}

fn export_of(items: Vec<ExportedInstruction>) -> ExportedInstructions {
    ExportedInstructions { meta: export_metadata(), instructions: items }
}

#[test]
fn test_review_engine_creation() {
    let diffs = vec![create_test_reviewable_diff("test1.rs", 1), create_test_reviewable_diff("test2.rs", 1)];
    let engine = ReviewEngine::new(diffs, "test_author".to_string());
    assert_eq!(engine.state.total_reviewable_diffs(), 2);
    assert_eq!(engine.author(), "test_author");
}

#[test]
fn review_engine_test_approve_reviewable_diff() {
    let diff = create_test_reviewable_diff("test.rs", 1);
    let reviewable_id = diff.id.clone();
    let mut engine = ReviewEngine::new(vec![diff], "test_author".to_string());
    let result = engine.approve(reviewable_id.clone(), "inspector".to_string(), NO_CALLBACK);
    assert!(result.is_ok());
    assert!(engine.state.is_approved(&reviewable_id));
}

#[test]
fn test_approve_all_in_file() {
    let diffs = vec![
        create_test_reviewable_diff("test1.rs", 1),
        create_test_reviewable_diff("test1.rs", 20),
        create_test_reviewable_diff("test2.rs", 1),
    ];
    let mut engine = ReviewEngine::new(diffs, "test_author".to_string());
    let result = engine.approve_all_in_file("test1.rs", "inspector".to_string(), NO_CALLBACK);
    assert!(result.is_ok());
    let by_file = engine.get_reviewable_diffs_by_file();
    let test1_diffs = &by_file.iter().find(|(f, _)| f == "test1.rs").unwrap().1;
    let test2_diffs = &by_file.iter().find(|(f, _)| f == "test2.rs").unwrap().1;
    assert_eq!(test1_diffs.len(), 2);
    for diff in test1_diffs {
        assert!(engine.state.is_approved(&diff.id));
    }
    for diff in test2_diffs {
        assert!(!engine.state.is_approved(&diff.id));
    }
}

#[test]
fn test_review_progress() {
    let diffs = vec![create_test_reviewable_diff("test1.rs", 1), create_test_reviewable_diff("test2.rs", 1)];
    let first = diffs[0].id.clone();
    let mut engine = ReviewEngine::new(diffs, "test_author".to_string());
    assert_eq!(engine.review_counts(), (2, 0, 0));
    engine.approve(first, "inspector".to_string(), NO_CALLBACK).unwrap();
    assert_eq!(engine.review_counts(), (2, 1, 0));
}

#[test]
fn test_complete_review() {
    let diffs = vec![create_test_reviewable_diff("test1.rs", 1), create_test_reviewable_diff("test2.rs", 1)];
    let ids: Vec<ReviewableDiffId> = diffs.iter().map(|d| d.id.clone()).collect();
    let mut engine = ReviewEngine::new(diffs, "test_author".to_string());
    engine.approve(ids[0].clone(), "inspector".to_string(), NO_CALLBACK).unwrap();
    engine.approve(ids[1].clone(), "inspector".to_string(), NO_CALLBACK).unwrap();
    let summary = engine.complete_review().unwrap();
    assert_eq!(summary.total_reviewable_diffs, 2);
    assert_eq!(summary.approved_reviewable_diffs, 2);
    assert_eq!(summary.files_reviewed, 2);
    assert_eq!(summary.instructions_added, 0);
    assert_eq!(summary.cache_hits, 0);
}

#[test]
fn test_add_instruction_without_overlap() {
    let diff = create_test_reviewable_diff("test.rs", 1);
    let mut engine = ReviewEngine::new(vec![diff], "test_author".to_string());
    let reviewable_id = id_for("test.rs", 10, 12);
    let result = engine.add_instruction(
        reviewable_id.clone(),
        "Extract this to a separate function".to_string(),
        "inspector".to_string(),
        NO_CALLBACK,
    );
    assert!(result.is_ok());
    let note = engine.state().instructions.get_instructions_for_reviewable(&reviewable_id).unwrap();
    assert_eq!(note.content, "Extract this to a separate function");
    assert_eq!(note.author, "inspector");
    assert_eq!(note.status, InstructionStatus::Active);
    assert_eq!(note.id.len(), 36);
}

#[test]
fn test_add_instruction_non_overlapping_ranges() {
    let diff = create_test_reviewable_diff("test.rs", 1);
    let mut engine = ReviewEngine::new(vec![diff], "test_author".to_string());
    engine.add_instruction(id_for("test.rs", 10, 12), "First instruction".to_string(), "inspector".to_string(), NO_CALLBACK).unwrap();
    let result = engine.add_instruction(id_for("test.rs", 20, 22), "Second instruction".to_string(), "inspector".to_string(), NO_CALLBACK);
    assert!(result.is_ok());
    assert_eq!(engine.state().instructions.total_instructions(), 2);
}

#[test]
fn test_add_instruction_adjacent_ranges_remain_separate() {
    let diff = create_test_reviewable_diff("test.rs", 1);
    let mut engine = ReviewEngine::new(vec![diff], "test_author".to_string());
    let id1 = id_for("test.rs", 10, 12);
    engine.add_instruction(id1.clone(), "First instruction".to_string(), "inspector".to_string(), NO_CALLBACK).unwrap();
    let id2 = id_for("test.rs", 13, 15);
    let result = engine.add_instruction(id2.clone(), "Second instruction".to_string(), "inspector".to_string(), NO_CALLBACK);
    assert!(result.is_ok());
    assert!(engine.state().instructions.get_instructions_for_reviewable(&id1).is_some());
    assert!(engine.state().instructions.get_instructions_for_reviewable(&id2).is_some());
}

#[test]
fn second_instruction_on_same_range_is_folded() {
    let diff = create_test_reviewable_diff("test.rs", 1);
    let mut engine = ReviewEngine::new(vec![diff], "test_author".to_string());
    let id = id_for("test.rs", 10, 20);
    engine.add_instruction(id.clone(), "First instruction".to_string(), "inspector".to_string(), NO_CALLBACK).unwrap();
    engine.add_instruction(id.clone(), "Second instruction".to_string(), "inspector".to_string(), NO_CALLBACK).unwrap();
    assert_eq!(engine.state().instructions.total_instructions(), 1);
    let note = engine.state().instructions.get_instructions_for_reviewable(&id).unwrap();
    assert_eq!(note.content, "First instruction\nSecond instruction");
}

#[test]
fn test_import_valid_json_with_new_fields() {
    let diff = create_test_reviewable_diff("src/main.rs", 1);
    let mut engine = ReviewEngine::new(vec![diff], "test_author".to_string());
    let mut item = exported("src/main.rs", 10, 12, "Extract this to a separate function");
    item.file_content_hash = "test_hash_123".to_string();
    item.content_snapshot = Some("    let x = calculate();\n    process(x);".to_string());
    let summary = engine.import_instructions(&export_of(vec![item]));
    assert_eq!(summary.total_imported, 1);
    let id = id_for("src/main.rs", 10, 12);
    let note = engine.state().instructions.get_instructions_for_reviewable(&id).unwrap();
    assert!(note.id.starts_with("working:src/main.rs:L10-12:"));
    assert_eq!(note.content, "Extract this to a separate function");
}

#[test]
fn test_import_json_with_missing_required_fields() {
    let diff = create_test_reviewable_diff("src/main.rs", 1);
    let mut engine = ReviewEngine::new(vec![diff], "test_author".to_string());
    let summary = engine.import_instructions(&export_of(vec![exported("src/main.rs", 10, 12, "")]));
    assert_eq!(summary.total_imported, 0);
    assert_eq!(summary.errors, vec!["Skipping instruction with missing content".to_string()]);
}

#[test]
fn test_import_sets_active() {
    let diff = create_test_reviewable_diff("src/main.rs", 1);
    let mut engine = ReviewEngine::new(vec![diff], "test_author".to_string());
    let mut item = exported("src/main.rs", 10, 12, "Test instruction");
    item.status = "addressed".to_string();
    let summary = engine.import_instructions(&export_of(vec![item]));
    assert_eq!(summary.active_count, 1);
    assert_eq!(summary.stale_count, 0);
    let note = engine.state().instructions.get_instructions_for_reviewable(&id_for("src/main.rs", 10, 12)).unwrap();
    assert_eq!(note.status, InstructionStatus::Active);
}

#[test]
fn review_engine_test_import_summary_multiple_instructions() {
    let diff1 = create_test_reviewable_diff("src/file1.rs", 1);
    let diff2 = create_test_reviewable_diff("src/file2.rs", 2);
    let mut engine = ReviewEngine::new(vec![diff1, diff2], "test_author".to_string());
    let items = vec![
        exported("src/file1.rs", 10, 12, "Instruction 1"),
        exported("src/file2.rs", 20, 22, "Instruction 2"),
        exported("src/file1.rs", 30, 32, "Instruction 3"),
    ];
    let summary = engine.import_instructions(&export_of(items));
    assert_eq!(summary.total_imported, 3);
    assert_eq!(summary.active_count, 3);
    assert_eq!(summary.stale_count, 0);
}

#[test]
fn test_import_summary_with_zero_instructions() {
    let diff = create_test_reviewable_diff("src/main.rs", 1);
    let mut engine = ReviewEngine::new(vec![diff], "test_author".to_string());
    let summary = engine.import_instructions(&export_of(vec![]));
    assert_eq!(summary.total_imported, 0);
    assert_eq!(summary.active_count, 0);
    assert_eq!(summary.stale_count, 0);
}

#[test]
fn test_import_duplicate_instruction_same_reviewable_id() {
    let diff = create_test_reviewable_diff("src/main.rs", 1);
    let mut engine = ReviewEngine::new(vec![diff], "test_author".to_string());
    let reviewable_id = id_for("src/main.rs", 10, 12);
    engine.add_instruction(reviewable_id.clone(), "Original instruction".to_string(), "inspector".to_string(), NO_CALLBACK).unwrap();
    let summary = engine.import_instructions(&export_of(vec![exported("src/main.rs", 10, 12, "Duplicate instruction")]));
    assert!(!summary.errors.is_empty() || summary.total_imported == 0);
    assert_eq!(summary.errors, vec!["Skipping duplicate instruction for working:src/main.rs:L10-12".to_string()]);
}

#[test]
fn import_reads_commit_queries_and_refuses_others() {
    let mut engine = ReviewEngine::new(vec![], "a".to_string());
    let mut ok = exported("f.rs", 1, 2, "x");
    ok.query = "abc1234..HEAD".to_string();
    let mut bad = exported("f.rs", 3, 4, "y");
    bad.query = "nonsense".to_string();
    let summary = engine.import_instructions(&export_of(vec![ok, bad]));
    assert_eq!(summary.total_imported, 1);
    assert_eq!(summary.errors, vec!["Failed to create ReviewableDiffId: Review operation failed".to_string()]);
    let id = ReviewableDiffId::new(
        DiffQuery::new(GitRef::commit("abc1234".to_string()), GitRef::commit("HEAD".to_string())),
        "f.rs".to_string(),
        LineRange { start_line: 1, end_line: 2, start_column: 0, end_column: 0 },
    );
    assert!(engine.state().instructions.get_instructions_for_reviewable(&id).is_some());
}

#[test]
fn export_scopes_and_query_mapping() {
    let mut engine = ReviewEngine::new(vec![], "a".to_string());
    engine.add_instruction(id_for("a.rs", 1, 2), "one".to_string(), "r".to_string(), NO_CALLBACK).unwrap();
    engine.add_instruction(id_for("b.rs", 3, 4), "two".to_string(), "r".to_string(), NO_CALLBACK).unwrap();
    let all = engine.export_instructions(&ExportScope::All);
    assert_eq!(all.instructions.len(), 2);
    assert_eq!(all.meta.format_version, "1.1");
    assert_eq!(all.instructions[0].query, "HEAD..unstaged");
    assert_eq!(all.instructions[0].status, "active");
    assert_eq!(all.instructions[0].file_content_hash, "");
    assert!(all.instructions[0].content_snapshot.is_none());
    let one = engine.export_instructions(&ExportScope::SingleFile("b.rs".to_string()));
    assert_eq!(one.instructions.len(), 1);
    assert_eq!(one.instructions[0].content, "two");
    assert_eq!(one.instructions[0].line_range.start_line, 3);
    let single = engine.export_instructions(&ExportScope::SingleInstruction(id_for("a.rs", 1, 2)));
    assert_eq!(single.instructions.len(), 1);
    assert_eq!(single.instructions[0].file, "a.rs");
    let none = engine.export_instructions(&ExportScope::SingleFile("c.rs".to_string()));
    assert!(none.instructions.is_empty());
}

#[test]
fn export_then_import_restores_instructions() {
    let mut engine = ReviewEngine::new(vec![], "a".to_string());
    engine.add_instruction(id_for("a.rs", 1, 2), "one".to_string(), "r".to_string(), NO_CALLBACK).unwrap();
    let exported = engine.export_instructions(&ExportScope::All);
    let mut other = ReviewEngine::new(vec![], "b".to_string());
    let summary = other.import_instructions(&exported);
    assert_eq!(summary.total_imported, 1);
    let note = other.state().instructions.get_instructions_for_reviewable(&id_for("a.rs", 1, 2)).unwrap();
    assert_eq!(note.content, "one");
    assert_eq!(note.author, "r");
}

#[test]
fn test_review_state_creation() {
    let state = ReviewState::new(vec![create_test_reviewable_diff("test.rs", 1)], "test_author".to_string());
    assert_eq!(state.author, "test_author");
    assert_eq!(state.total_reviewable_diffs(), 1);
    assert_eq!(state.approval_counts(), (0, 1));
}

#[test]
fn mod_test_approve_reviewable_diff() {
    let diff = create_test_reviewable_diff("test.rs", 1);
    let reviewable_id = diff.id.clone();
    let mut state = ReviewState::new(vec![diff], "test_author".to_string());
    state.approve(reviewable_id.clone(), "inspector".to_string());
    assert!(state.is_approved(&reviewable_id));
    assert_eq!(state.approval_counts(), (1, 1));
}

#[test]
fn test_grouping_by_file() {
    let diff1 = create_test_reviewable_diff("file1.rs", 1);
    let diff2 = create_test_reviewable_diff("file1.rs", 20);
    let diff3 = create_test_reviewable_diff("file2.rs", 1);
    let state = ReviewState::new(vec![diff1, diff2, diff3], "test_author".to_string());
    let by_file = state.get_reviewable_diffs_by_file();
    assert_eq!(by_file.len(), 2);
    assert_eq!(by_file.iter().find(|(f, _)| f == "file1.rs").unwrap().1.len(), 2);
    assert_eq!(by_file.iter().find(|(f, _)| f == "file2.rs").unwrap().1.len(), 1);
}

#[test]
fn test_review_state_can_be_created_with_only_instructions_and_approvals() {
    let state = ReviewState::new(vec![create_test_reviewable_diff("test.rs", 1)], "test_author".to_string());
    assert_eq!(state.total_reviewable_diffs(), 1);
    assert_eq!(state.author(), "test_author");
}

fn note(id: &str, content: &str) -> Instruction {
    Instruction {
        id: id.to_string(),
        content: content.to_string(),
        author: "inspector".to_string(),
        timestamp: "2024-01-10T10:00:00Z".to_string(),
        status: InstructionStatus::Active,
    }
}

#[test]
fn test_adding_instruction_to_review_state() {
    let diff = create_test_reviewable_diff("test.rs", 1);
    let reviewable_id = diff.id.clone();
    let mut state = ReviewState::new(vec![diff], "test_author".to_string());
    state.add_instruction(reviewable_id.clone(), note("inst_1", "Extract this to a separate function"));
    assert!(state.has_instructions(&reviewable_id));
    assert_eq!(state.get_instructions(&reviewable_id).unwrap().len(), 1);
}

#[test]
fn test_getting_instructions_by_reviewable_diff_id() {
    let diff = create_test_reviewable_diff("test.rs", 1);
    let reviewable_id = diff.id.clone();
    let mut state = ReviewState::new(vec![diff], "test_author".to_string());
    state.add_instruction(reviewable_id.clone(), note("inst_1", "First instruction"));
    let mut second = note("inst_2", "Second instruction");
    second.timestamp = "2024-01-10T10:01:00Z".to_string();
    state.add_instruction(reviewable_id.clone(), second);
    let instructions = state.get_instructions(&reviewable_id).unwrap();
    assert_eq!(instructions.len(), 1);
    assert_eq!(instructions[0].content, "First instruction\nSecond instruction");
}

#[test]
fn test_decision_instructions_field_initializes_empty() {
    let state = ReviewState::new(vec![create_test_reviewable_diff("test.rs", 1)], "test_author".to_string());
    assert_eq!(state.decision_instructions.total_instructions(), 0);
}

#[test]
fn test_decision_instructions_survives_state_clone() {
    let mut state = ReviewState::new(vec![create_test_reviewable_diff("test.rs", 1)], "test_author".to_string());
    state.decision_instructions.add_instruction(1, note("di_1", "Check this decision"));
    let cloned = state.clone();
    assert_eq!(cloned.decision_instructions.total_instructions(), 1);
}

#[test]
fn test_decision_instructions_accessible_through_state() {
    let mut state = ReviewState::new(vec![create_test_reviewable_diff("test.rs", 1)], "test_author".to_string());
    state.decision_instructions.add_instruction(42, note("di_42", "Review decision 42 carefully"));
    assert!(state.decision_instructions.has_instructions(42));
    assert_eq!(state.decision_instructions.get_instructions(42).unwrap().len(), 1);
}

#[test]
fn test_review_state_with_review_data_includes_decision_instructions() {
    let mut decision_instructions = DecisionInstructions::new();
    decision_instructions.add_instruction(1, note("di_1", "Test decision instruction"));
    let state = ReviewState::with_review_data(
        vec![create_test_reviewable_diff("test.rs", 1)],
        "test_author".to_string(),
        ReviewApprovals::new(),
        ReviewInstructions::new(),
        ReviewDecisions::new(),
        DecisionApprovals::new(),
        decision_instructions,
    );
    assert_eq!(state.decision_instructions.total_instructions(), 1);
    assert!(state.decision_instructions.has_instructions(1));
}

#[test]
fn chunks_are_ordered_and_later_duplicates_win() {
    let mut later = create_test_reviewable_diff("b.rs", 1);
    later.core_diff.total_changes = 9;
    let state = ReviewState::new(
        vec![
            create_test_reviewable_diff("b.rs", 1),
            create_test_reviewable_diff("a.rs", 30),
            create_test_reviewable_diff("a.rs", 5),
            later,
        ],
        "x".to_string(),
    );
    let ids = state.get_ordered_reviewable_ids();
    let shown: Vec<String> = ids.iter().map(|i| i.to_string()).collect();
    assert_eq!(shown, vec!["working:a.rs:L5-15", "working:a.rs:L30-40", "working:b.rs:L1-11"]);
    assert_eq!(state.get_reviewable_diff(&id_for("b.rs", 1, 11)).unwrap().total_changes(), 9);
    assert!(state.get_reviewable_diff(&id_for("c.rs", 1, 11)).is_none());
    assert_eq!(state.get_file_paths(), vec!["a.rs".to_string(), "b.rs".to_string()]);
}

#[test]
fn reviewable_diff_accessors() {
    let mut diff = create_test_reviewable_diff("x.rs", 3);
    assert_eq!(diff.language(), "Rust");
    assert_eq!(diff.total_changes(), 1);
    assert_eq!(diff.boundary_name(), "test (Other(\"test\"))");
    diff.add_cited_range(1, 4);
    diff.add_cited_range(1, 4);
    diff.add_cited_range(5, 6);
    assert_eq!(diff.cited_ranges, vec![(1, 4), (5, 6)]);
}

fn decision(number: u32, title: &str, impacts: Vec<CodeImpact>) -> Decision {
    Decision { number, title: title.to_string(), rationale: None, code_impacts: impacts }
}

fn impact(file: &str, ranges: &[(usize, usize)]) -> CodeImpact {
    CodeImpact {
        reasoning: "r".to_string(),
        file: file.to_string(),
        line_ranges: ranges.iter().map(|&(s, e)| DecisionLineRange { start: s, end: e }).collect(),
    }
}

#[test]
fn index_lists_each_touching_decision_once_by_number() {
    let state = ReviewState::new(
        vec![create_test_reviewable_diff("m.rs", 1), create_test_reviewable_diff("m.rs", 50)],
        "x".to_string(),
    );
    let mut decisions = ReviewDecisions::new();
    decisions.add_decision(decision(3, "three", vec![impact("m.rs", &[(5, 6)]), impact("m.rs", &[(11, 11)])]));
    decisions.add_decision(decision(1, "one", vec![impact("m.rs", &[(100, 200), (55, 56)])]));
    decisions.add_decision(decision(2, "two", vec![impact("other.rs", &[(1, 100)])]));
    decisions.build_index_from_review_state(&state);
    let first = decisions.get_decisions_for_diff(&id_for("m.rs", 1, 11));
    let numbers: Vec<u32> = first.iter().map(|d| d.number).collect();
    assert_eq!(numbers, vec![3]);
    let second = decisions.get_decisions_for_diff(&id_for("m.rs", 50, 60));
    assert_eq!(second.iter().map(|d| d.number).collect::<Vec<_>>(), vec![1]);
    decisions.create_unmapped_decision(&state);
    assert!(decisions.get_decision(0).is_none());
    let all: Vec<u32> = decisions.all_decisions().iter().map(|d| d.number).collect();
    assert_eq!(all, vec![1, 2, 3]);
}

#[test]
fn unmapped_chunks_get_decision_zero() {
    let state = ReviewState::new(
        vec![create_test_reviewable_diff("m.rs", 1), create_test_reviewable_diff("n.rs", 7)],
        "x".to_string(),
    );
    let mut decisions = ReviewDecisions::new();
    decisions.add_decision(decision(1, "one", vec![impact("m.rs", &[(1, 2)])]));
    decisions.build_index_from_review_state(&state);
    decisions.create_unmapped_decision(&state);
    let zero = decisions.get_decision(0).unwrap();
    assert_eq!(zero.title, "Unmapped Changes");
    assert_eq!(zero.rationale.as_deref(), Some("Code changes that are not mapped to any architectural decision"));
    assert_eq!(zero.code_impacts.len(), 1);
    assert_eq!(zero.code_impacts[0].file, "n.rs");
    assert_eq!(zero.code_impacts[0].line_ranges, vec![DecisionLineRange { start: 7, end: 17 }]);
    assert_eq!(zero.code_impacts[0].reasoning, "Code change not mapped to any architectural decision");
    let for_n = decisions.get_decisions_for_diff(&id_for("n.rs", 7, 17));
    assert_eq!(for_n.len(), 1);
    assert_eq!(for_n[0].number, 0);
}

#[test]
fn ranges_overlap_is_inclusive() {
    assert!(ReviewDecisions::ranges_overlap(1, 5, 5, 9));
    assert!(!ReviewDecisions::ranges_overlap(1, 4, 5, 9));
    assert!(ReviewDecisions::ranges_overlap(3, 3, 1, 10));
}

#[test]
fn rejecting_a_chunk_unapproves_its_decisions_and_approving_restores() {
    let diffs = vec![create_test_reviewable_diff("m.rs", 1), create_test_reviewable_diff("m.rs", 30)];
    let ids: Vec<ReviewableDiffId> = diffs.iter().map(|d| d.id.clone()).collect();
    let mut engine = ReviewEngine::new(diffs, "a".to_string());
    let mut decisions = ReviewDecisions::new();
    decisions.add_decision(decision(1, "one", vec![impact("m.rs", &[(1, 100)])]));
    engine.set_decisions_with_index(decisions);
    let result = engine.approve_decision(1, "r".to_string()).unwrap();
    assert_eq!(result.description(), "Decision #1 and 2 chunks approved");
    assert_eq!(engine.decision_approval_progress(1), (2, 2));
    engine.reject(ids[1].clone(), NO_CALLBACK).unwrap();
    assert!(!engine.is_decision_approved(1));
    assert_eq!(engine.decision_approval_progress(1), (1, 2));
    engine.approve(ids[1].clone(), "r2".to_string(), NO_CALLBACK).unwrap();
    assert!(engine.is_decision_approved(1));
    assert_eq!(engine.state.decision_approvals.get_approval(&1).unwrap().approved_by, "r2");
    let r = engine.reject_decision(1).unwrap();
    assert_eq!(r.description(), "Decision #1 and 2 chunks unapproved");
    assert_eq!(engine.decision_approval_progress(1), (0, 2));
    assert_eq!(engine.approve_decision(9, "r".to_string()).unwrap().description(), "Decision #9 had no chunks to affect");
    assert_eq!(engine.get_approved_decisions_count(), 1);
}

#[test]
fn summary_sorts_decisions_and_instructions() {
    let log = DecisionLog {
        commit: "abc".to_string(),
        decisions: vec![decision(1, "one", vec![]), decision(2, "two", vec![impact("f.rs", &[(1, 2)])])],
    };
    let approvals = vec![
        SummaryDecisionApproval { decision_number: 1, approved_by: "x".to_string(), approval_timestamp: "t1".to_string() },
        SummaryDecisionApproval { decision_number: 1, approved_by: "y".to_string(), approval_timestamp: "t2".to_string() },
    ];
    let insts = vec![
        SummaryExportedInstruction {
            file: "f.rs".to_string(),
            line_range: ExportedLineRange { start_line: 3, end_line: 9 },
            content: "c".to_string(),
            author: "a".to_string(),
            timestamp: "t".to_string(),
            status: InstructionStatus::Addressed,
        },
        SummaryExportedInstruction {
            file: "g.rs".to_string(),
            line_range: ExportedLineRange { start_line: 10, end_line: 12 },
            content: "d".to_string(),
            author: "b".to_string(),
            timestamp: "u".to_string(),
            status: InstructionStatus::Active,
        },
    ];
    let s = summarize(&log, &approvals, &insts, "folder".to_string());
    assert_eq!(s.commit, "abc");
    assert_eq!(s.contribution_folder, "folder");
    assert_eq!(s.decisions.approved.len(), 1);
    assert_eq!(s.decisions.approved[0].approved_by, "y");
    assert_eq!(s.decisions.unapproved.len(), 1);
    assert_eq!(s.decisions.unapproved[0].number, 2);
    assert_eq!(s.decisions.unapproved[0].code_impacts.len(), 1);
    assert_eq!(s.instructions.active[0].lines, "10-12");
    assert_eq!(s.instructions.addressed[0].lines, "3-9");
    assert_eq!(s.summary.total_decisions, 2);
    assert_eq!(s.summary.approved_decisions, 1);
    assert_eq!(s.summary.unapproved_decisions, 1);
    assert_eq!(s.summary.total_instructions, 2);
    assert_eq!(s.summary.active_instructions, 1);
}

#[test]
fn builder_indexes_produced_chunks() {
    let builder = ReviewEngineBuilder::new(Box::new(MockDiffProvider::new()), "me".to_string());
    let decisions = vec![decision(1, "one", vec![]), decision(2, "two", vec![]), decision(1, "uno", vec![])];
    let range = LineRange { start_line: 4, end_line: 8, start_column: 0, end_column: 0 };
    let produced = vec![
        produced(1, "a.rs", range, (4, 5)),
        produced(2, "a.rs", range, (6, 8)),
    ];
    let engine = builder.build_from_produced(decisions, produced, &DiffQuery::head_to_unstaged());
    assert_eq!(engine.author(), "me");
    assert_eq!(engine.state.total_reviewable_diffs(), 1);
    assert_eq!(engine.get_decision(1).unwrap().title, "uno");
    let id = id_for("a.rs", 4, 8);
    let nums: Vec<u32> = engine.get_decisions_for_diff(&id).iter().map(|d| d.number).collect();
    assert_eq!(nums, vec![1, 2]);
    assert_eq!(engine.get_decision_reviewable_diffs().len(), 2);
}

fn produced(decision_number: u32, file: &str, line_range: LineRange, cited: (usize, usize)) -> ProducedDiff {
    ProducedDiff {
        decision_number,
        file_path: file.to_string(),
        line_range,
        core_diff: core_diff(),
        cited_start: cited.0,
        cited_end: cited.1,
    }
}

#[test]
fn test_two_ranges_in_same_function_do_not_produce_duplicate_diffs() {
    let old_ref = GitRef::commit("abc111".to_string());
    let new_ref = GitRef::commit("def222".to_string());
    let query = DiffQuery::new(old_ref, new_ref);
    let decision = Decision {
        number: 1,
        title: "Refactor compute_total".to_string(),
        rationale: None,
        code_impacts: vec![CodeImpact {
            file: "src/math.rs".to_string(),
            line_ranges: vec![DecisionLineRange { start: 2, end: 3 }, DecisionLineRange { start: 5, end: 6 }],
            reasoning: "Two sub-ranges inside the same function".to_string(),
        }],
    };
    // Both ranges resolve to fn compute_total, lines 1-7.
    let unit = LineRange { start_line: 1, end_line: 7, start_column: 0, end_column: 0 };
    let produced = vec![produced(1, "src/math.rs", unit, (2, 3)), produced(1, "src/math.rs", unit, (5, 6))];
    let builder = ReviewEngineBuilder::new(Box::new(MockDiffProvider::new()), "test_author".to_string());
    let engine = builder.build_from_produced(vec![decision], produced, &query);
    let diffs = engine.get_decision_reviewable_diffs();
    assert_eq!(diffs.len(), 1);
    let reviewable = engine.get_reviewable_diff(&diffs[0].chunk_id).expect("ReviewableDiff must exist");
    assert_eq!(reviewable.cited_ranges.len(), 2);
    assert!(reviewable.cited_ranges.contains(&(2, 3)));
    assert!(reviewable.cited_ranges.contains(&(5, 6)));
}

#[test]
fn test_build_from_decisions_does_not_crash_on_deleted_file() {
    let old_ref = GitRef::commit("abc123".to_string());
    let new_ref = GitRef::commit("def456".to_string());
    let query = DiffQuery::new(old_ref, new_ref);
    let decision = Decision {
        number: 1,
        title: "Delete SamTuiError".to_string(),
        rationale: Some("Replaced by tui_harness::TuiError".to_string()),
        code_impacts: vec![CodeImpact {
            file: "src/error.rs".to_string(),
            line_ranges: vec![DecisionLineRange { start: 1, end: 7 }],
            reasoning: "Deleted \u{2014} file removed entirely".to_string(),
        }],
    };
    // A deleted file yields no chunk: the builder still succeeds.
    assert_eq!(plan_impact(true, true, false), ImpactPlan::SkipDeleted);
    let builder = ReviewEngineBuilder::new(Box::new(MockDiffProvider::new()), "test_author".to_string());
    let engine = builder.build_from_produced(vec![decision], Vec::new(), &query);
    assert_eq!(engine.state.total_reviewable_diffs(), 0);
    assert_eq!(engine.get_decision(1).unwrap().title, "Delete SamTuiError");
    assert!(engine.get_decision_reviewable_diffs().is_empty());
}

#[test]
fn builder_merges_repeated_ranges_of_one_chunk() {
    let unit = LineRange { start_line: 3, end_line: 9, start_column: 0, end_column: 0 };
    let produced = vec![
        produced(2, "x.rs", unit, (4, 4)),
        produced(1, "x.rs", unit, (4, 4)),
        produced(2, "x.rs", unit, (8, 9)),
    ];
    let builder = ReviewEngineBuilder::new(Box::new(MockDiffProvider::new()), "me".to_string());
    let decisions = vec![decision(1, "one", vec![]), decision(2, "two", vec![])];
    let engine = builder.build_from_produced(decisions, produced, &DiffQuery::head_to_unstaged());
    assert_eq!(engine.state.total_reviewable_diffs(), 1);
    let id = id_for("x.rs", 3, 9);
    let nums: Vec<u32> = engine.get_decisions_for_diff(&id).iter().map(|d| d.number).collect();
    assert_eq!(nums, vec![2, 1]);
    let chunk = engine.get_reviewable_diff(&id).unwrap();
    assert_eq!(chunk.cited_ranges, vec![(4, 4), (8, 9)]);
}

#[test]
fn impact_plans_follow_the_readable_versions() {
    assert_eq!(plan_impact(false, true, true), ImpactPlan::SkipUnsupported);
    assert_eq!(plan_impact(true, false, false), ImpactPlan::SkipUnreadable);
    assert_eq!(plan_impact(true, true, false), ImpactPlan::SkipDeleted);
    assert_eq!(plan_impact(true, true, true), ImpactPlan::AnalyseRanges { with_old: true });
    assert_eq!(plan_impact(true, false, true), ImpactPlan::AnalyseRanges { with_old: false });
}

#[test]
fn operations_report_to_their_callback_once() {
    let diffs = vec![create_test_reviewable_diff("a.rs", 1), create_test_reviewable_diff("a.rs", 20)];
    let ids: Vec<ReviewableDiffId> = diffs.iter().map(|d| d.id.clone()).collect();
    let mut engine = ReviewEngine::new(diffs, "author".to_string());
    let mut seen: Vec<(bool, Option<String>)> = Vec::new();

    engine.approve(ids[0].clone(), "x".to_string(), Some(|ok: bool, m: Option<String>| seen.push((ok, m)))).unwrap();
    engine.reject(ids[0].clone(), Some(|ok: bool, m: Option<String>| seen.push((ok, m)))).unwrap();
    engine
        .add_instruction(ids[1].clone(), "note".to_string(), "x".to_string(), Some(|ok: bool, m: Option<String>| seen.push((ok, m))))
        .unwrap();
    engine.approve_all_in_file("a.rs", "x".to_string(), Some(|ok: bool, m: Option<String>| seen.push((ok, m)))).unwrap();
    engine.approve_all_in_file("none.rs", "x".to_string(), Some(|ok: bool, m: Option<String>| seen.push((ok, m)))).unwrap();

    assert_eq!(
        seen,
        vec![
            (true, Some("ReviewableDiff approved".to_string())),
            (true, Some("ReviewableDiff rejected".to_string())),
            (true, Some("Instruction added".to_string())),
            (true, Some("Approved 2 ReviewableDiffs in file".to_string())),
            (false, Some("No ReviewableDiffs found in file".to_string())),
        ]
    );
}

#[test]
fn boxed_callbacks_are_accepted() {
    let diff = create_test_reviewable_diff("a.rs", 1);
    let id = diff.id.clone();
    let mut engine = ReviewEngine::new(vec![diff], "author".to_string());
    let callback: Option<Box<dyn FnOnce(bool, Option<String>) + Send>> =
        Some(Box::new(|ok, m| assert!(ok && m.as_deref() == Some("ReviewableDiff approved"))));
    engine.approve(id.clone(), "x".to_string(), callback).unwrap();
    assert!(engine.state().is_approved(&id));
}

#[test]
fn new_notes_and_approvals_carry_uuid_ids_and_utc_stamps() {
    let diff = create_test_reviewable_diff("a.rs", 1);
    let id = diff.id.clone();
    let mut engine = ReviewEngine::new(vec![diff], "author".to_string());
    engine.add_instruction(id.clone(), "note".to_string(), "x".to_string(), NO_CALLBACK).unwrap();
    let note = engine.state().instructions.get_instructions_for_reviewable(&id).unwrap();
    let chars: Vec<char> = note.id.chars().collect();
    assert_eq!(chars.len(), 36);
    for (i, c) in chars.iter().enumerate() {
        if [8, 13, 18, 23].contains(&i) {
            assert_eq!(*c, '-');
        } else {
            assert!(c.is_ascii_digit() || ('a'..='f').contains(c));
        }
    }
    assert_eq!(chars[14], '4');
    assert!(['8', '9', 'a', 'b'].contains(&chars[19]));
    let stamp: Vec<char> = note.timestamp.chars().collect();
    let tail = &stamp[stamp.len() - 23..];
    assert_eq!(tail[4], '-');
    assert_eq!(tail[10], ' ');
    assert!(note.timestamp.ends_with(" UTC"));

    engine.approve(id.clone(), "x".to_string(), NO_CALLBACK).unwrap();
    let record = engine.state().approvals.get_approval(&id).unwrap();
    assert!(record.approval_timestamp.ends_with(" UTC"));
    assert_eq!(record.approval_timestamp.len(), 23);
}
