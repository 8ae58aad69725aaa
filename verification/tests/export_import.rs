use diffviz::review::engine::ReviewEngine;
use diffviz::review::export_import::{
    export_metadata, ExportScope, ExportedInstruction, ExportedInstructions, ExportedLineRange,
};
use diffviz::review::git_ref::DiffQuery;
use diffviz::review::reviewable_diff_id::{LineRange, ReviewableDiffId};
use diffviz::review::state::{CoreDiff, ReviewableDiff};

/// No callback for an operation.
const NO_CALLBACK: Option<Box<dyn FnOnce(bool, Option<String>) + Send>> = None;

fn core_diff() -> CoreDiff {
    CoreDiff {
        language: "Rust".to_string(),
        total_changes: 1,
        boundary_node_type: "test".to_string(),
        boundary_kind: "Other(\"test\")".to_string(),
    }
}

fn test_id(file_path: &str, start_line: usize, end_line: usize) -> ReviewableDiffId {
    ReviewableDiffId::new(
        DiffQuery::head_to_unstaged(),
        file_path.to_string(),
        LineRange { start_line, end_line, start_column: 0, end_column: 0 },
    )
}

fn create_test_reviewable_diff(file_path: &str, start_line: usize) -> ReviewableDiff {
    ReviewableDiff::new(test_id(file_path, start_line, start_line + 10), core_diff(), file_path.to_string())
}

fn item(file: &str, start: usize, end: usize, content: &str) -> ExportedInstruction {
    ExportedInstruction {
        file: file.to_string(),
        query: "HEAD..unstaged".to_string(),
        line_range: ExportedLineRange { start_line: start, end_line: end },
        content: content.to_string(),
        author: "inspector".to_string(),
        timestamp: "2024-01-12T10:30:00Z".to_string(),
        status: "active".to_string(),
        file_content_hash: String::new(),
        content_snapshot: None,
    }
}

fn export_of(items: Vec<ExportedInstruction>) -> ExportedInstructions {
    ExportedInstructions { meta: export_metadata(), instructions: items }
}

fn engine_with_two_files() -> ReviewEngine {
    let diff1 = create_test_reviewable_diff("test1.rs", 1);
    let diff2 = create_test_reviewable_diff("test2.rs", 1);
    let mut engine = ReviewEngine::new(vec![diff1, diff2], "test_author".to_string());
    engine.add_instruction(test_id("test1.rs", 10, 12), "Instruction 1".to_string(), "inspector".to_string(), NO_CALLBACK).unwrap();
    engine.add_instruction(test_id("test2.rs", 20, 22), "Instruction 2".to_string(), "inspector".to_string(), NO_CALLBACK).unwrap();
    engine
}

#[test]
fn review_engine_test_export_all_instructions() {
    let engine = engine_with_two_files();
    let export = engine.export_instructions(&ExportScope::All);
    assert_eq!(export.meta.format_version, "1.1");
    assert_eq!(export.instructions.len(), 2);
}

#[test]
fn test_export_single_file() {
    let engine = engine_with_two_files();
    let export = engine.export_instructions(&ExportScope::SingleFile("test1.rs".to_string()));
    assert_eq!(export.instructions.len(), 1);
    assert_eq!(export.instructions[0].file, "test1.rs");
}

#[test]
fn test_export_single_instruction() {
    let diff = create_test_reviewable_diff("test.rs", 1);
    let mut engine = ReviewEngine::new(vec![diff], "test_author".to_string());
    let id1 = test_id("test.rs", 10, 12);
    engine.add_instruction(id1.clone(), "Instruction 1".to_string(), "inspector".to_string(), NO_CALLBACK).unwrap();
    engine.add_instruction(test_id("test.rs", 20, 22), "Instruction 2".to_string(), "inspector".to_string(), NO_CALLBACK).unwrap();
    let export = engine.export_instructions(&ExportScope::SingleInstruction(id1));
    assert_eq!(export.instructions.len(), 1);
    assert_eq!(export.instructions[0].content, "Instruction 1");
}

#[test]
fn test_export_empty_scope() {
    let engine = ReviewEngine::new(vec![create_test_reviewable_diff("test.rs", 1)], "test_author".to_string());
    let export = engine.export_instructions(&ExportScope::All);
    assert_eq!(export.instructions.len(), 0);
    assert_eq!(export.meta.format_version, "1.1");
}

#[test]
fn review_engine_test_export_json_structure() {
    let mut engine = ReviewEngine::new(vec![create_test_reviewable_diff("test.rs", 1)], "test_author".to_string());
    engine.add_instruction(test_id("test.rs", 10, 12), "Test instruction".to_string(), "inspector".to_string(), NO_CALLBACK).unwrap();
    let export = engine.export_instructions(&ExportScope::All);
    assert_eq!(export.meta.format_version, "1.1");
    assert!(!export.meta.description.is_empty());
    assert!(export.meta.field_descriptions.is_some());
    assert!(export.meta.query_formats.is_some());
    assert!(export.meta.git_usage_examples.is_some());
    let inst = &export.instructions[0];
    assert_eq!(inst.file, "test.rs");
    assert_eq!(inst.query, "HEAD..unstaged");
    assert_eq!(inst.line_range.start_line, 10);
    assert_eq!(inst.line_range.end_line, 12);
    assert_eq!(inst.content, "Test instruction");
    assert_eq!(inst.author, "inspector");
    assert!(!inst.timestamp.is_empty());
}

#[test]
fn review_engine_test_export_query_format_mapping() {
    let mut engine = ReviewEngine::new(vec![create_test_reviewable_diff("test.rs", 1)], "test_author".to_string());
    engine.add_instruction(test_id("test.rs", 10, 12), "Test".to_string(), "inspector".to_string(), NO_CALLBACK).unwrap();
    let export = engine.export_instructions(&ExportScope::All);
    assert_eq!(export.instructions[0].query, "HEAD..unstaged");
}

#[test]
fn export_import_test_export_query_format_mapping() {
    let mut engine = ReviewEngine::new(vec![create_test_reviewable_diff("test.rs", 1)], "test_author".to_string());
    engine.add_instruction(test_id("test.rs", 10, 12), "Test".to_string(), "inspector".to_string(), NO_CALLBACK).unwrap();
    let export = engine.export_instructions(&ExportScope::All);
    assert_eq!(export.instructions[0].query, "HEAD..unstaged");
}

#[test]
fn test_export_includes_status_field() {
    let mut engine = ReviewEngine::new(vec![create_test_reviewable_diff("test.rs", 1)], "test_author".to_string());
    engine.add_instruction(test_id("test.rs", 10, 12), "Test instruction".to_string(), "inspector".to_string(), NO_CALLBACK).unwrap();
    let export = engine.export_instructions(&ExportScope::All);
    assert_eq!(export.instructions.len(), 1);
    assert_eq!(export.instructions[0].status, "active");
}

#[test]
fn test_export_includes_file_content_hash() {
    let mut engine = ReviewEngine::new(vec![create_test_reviewable_diff("test.rs", 1)], "test_author".to_string());
    engine.add_instruction(test_id("test.rs", 10, 12), "Test instruction".to_string(), "inspector".to_string(), NO_CALLBACK).unwrap();
    let export = engine.export_instructions(&ExportScope::All);
    assert_eq!(export.instructions.len(), 1);
    assert_eq!(export.instructions[0].file_content_hash.len(), 0);
}

#[test]
fn test_export_includes_content_snapshot() {
    let mut engine = ReviewEngine::new(vec![create_test_reviewable_diff("test.rs", 1)], "test_author".to_string());
    engine.add_instruction(test_id("test.rs", 2, 3), "Test instruction".to_string(), "inspector".to_string(), NO_CALLBACK).unwrap();
    let export = engine.export_instructions(&ExportScope::All);
    assert_eq!(export.instructions.len(), 1);
    assert!(export.instructions[0].content_snapshot.is_none());
}

#[test]
fn test_export_format_version_is_1_1() {
    let engine = ReviewEngine::new(vec![create_test_reviewable_diff("test.rs", 1)], "test_author".to_string());
    let export = engine.export_instructions(&ExportScope::All);
    assert_eq!(export.meta.format_version, "1.1");
}

#[test]
fn test_export_metadata_includes_new_field_descriptions() {
    let engine = ReviewEngine::new(vec![create_test_reviewable_diff("test.rs", 1)], "test_author".to_string());
    let export = engine.export_instructions(&ExportScope::All);
    let field_descriptions = export.meta.field_descriptions.unwrap();
    let status_desc = field_descriptions.status;
    assert!(status_desc.contains("active") || status_desc.contains("stale") || status_desc.contains("validity"));
    let hash_desc = field_descriptions.file_content_hash;
    assert!(hash_desc.contains("hash") || hash_desc.contains("SHA256"));
    assert!(!field_descriptions.content_snapshot.is_empty());
}

#[test]
fn test_export_status_serialization_active() {
    let mut engine = ReviewEngine::new(vec![create_test_reviewable_diff("test.rs", 1)], "test_author".to_string());
    engine.add_instruction(test_id("test.rs", 10, 12), "Test instruction".to_string(), "inspector".to_string(), NO_CALLBACK).unwrap();
    let export = engine.export_instructions(&ExportScope::All);
    assert_eq!(export.instructions[0].status, "active");
}

#[test]
fn test_export_all_scopes_include_new_fields() {
    let engine = engine_with_two_files();
    let all = engine.export_instructions(&ExportScope::All);
    assert_eq!(all.instructions.len(), 2);
    for inst in &all.instructions {
        assert_eq!(inst.status, "active");
        assert_eq!(inst.file_content_hash, "");
        assert!(inst.content_snapshot.is_none());
    }
    let one = engine.export_instructions(&ExportScope::SingleFile("test1.rs".to_string()));
    assert_eq!(one.instructions.len(), 1);
    assert_eq!(one.instructions[0].status, "active");
    assert_eq!(one.instructions[0].file_content_hash, "");
}

#[test]
fn test_export_empty() {
    let engine = ReviewEngine::new(vec![create_test_reviewable_diff("test.rs", 1)], "test_author".to_string());
    let export = engine.export_instructions(&ExportScope::All);
    assert_eq!(export.instructions.len(), 0);
    assert!(!export.meta.description.is_empty());
}

#[test]
fn test_import_valid_json() {
    let mut engine = ReviewEngine::new(vec![create_test_reviewable_diff("src/main.rs", 1)], "test_author".to_string());
    let summary = engine.import_instructions(&export_of(vec![item("src/main.rs", 10, 12, "Extract this to a separate function")]));
    assert_eq!(summary.total_imported, 1);
    assert_eq!(summary.active_count, 1);
}

#[test]
fn test_import_legacy_json() {
    let mut engine = ReviewEngine::new(vec![create_test_reviewable_diff("src/main.rs", 1)], "test_author".to_string());
    let mut meta = export_metadata();
    meta.format_version = "1.0".to_string();
    meta.field_descriptions = None;
    meta.query_formats = None;
    meta.git_usage_examples = None;
    let legacy = ExportedInstructions {
        meta,
        instructions: vec![item("src/main.rs", 10, 12, "Extract this to a separate function")],
    };
    let summary = engine.import_instructions(&legacy);
    assert_eq!(summary.total_imported, 1);
}

#[test]
fn test_import_legacy_json_without_new_fields() {
    let mut engine = ReviewEngine::new(vec![create_test_reviewable_diff("src/main.rs", 1)], "test_author".to_string());
    let mut meta = export_metadata();
    meta.format_version = "1.0".to_string();
    let legacy = ExportedInstructions {
        meta,
        instructions: vec![item("src/main.rs", 10, 12, "Extract this to a separate function")],
    };
    let summary = engine.import_instructions(&legacy);
    assert_eq!(summary.total_imported, 1);
    assert!(summary.errors.is_empty());
}

#[test]
fn export_import_test_import_summary_multiple_instructions() {
    let mut engine = ReviewEngine::new(
        vec![create_test_reviewable_diff("src/file1.rs", 1), create_test_reviewable_diff("src/file2.rs", 2)],
        "test_author".to_string(),
    );
    let items = vec![
        item("src/file1.rs", 10, 12, "Instruction 1"),
        item("src/file2.rs", 20, 22, "Instruction 2"),
        item("src/file1.rs", 30, 32, "Instruction 3"),
    ];
    let summary = engine.import_instructions(&export_of(items));
    assert_eq!(summary.total_imported, 3);
    assert_eq!(summary.active_count, 3);
}

#[test]
fn test_import_zero_instructions() {
    let mut engine = ReviewEngine::new(vec![create_test_reviewable_diff("src/main.rs", 1)], "test_author".to_string());
    let summary = engine.import_instructions(&export_of(vec![]));
    assert_eq!(summary.total_imported, 0);
    assert_eq!(summary.active_count, 0);
}

#[test]
fn test_import_duplicate_skipped() {
    let mut engine = ReviewEngine::new(vec![create_test_reviewable_diff("src/main.rs", 1)], "test_author".to_string());
    engine.add_instruction(test_id("src/main.rs", 10, 12), "Original".to_string(), "inspector".to_string(), NO_CALLBACK).unwrap();
    let summary = engine.import_instructions(&export_of(vec![item("src/main.rs", 10, 12, "Duplicate")]));
    assert!(!summary.errors.is_empty() || summary.total_imported == 0);
}
