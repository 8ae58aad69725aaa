use diffviz::review::errors::{DiffVizError, ReviewError};

#[test]
fn test_repository_error_formatting() {
    let repo_error = DiffVizError::Repository("Could not access .git directory".to_string());
    assert_eq!(repo_error.to_string(), "Repository error: Could not access .git directory");
}

#[test]
fn test_review_error_navigation_failed() {
    let review_error = ReviewError::NavigationFailed { reason: "No files available".to_string(), source: None };
    assert_eq!(review_error.to_string(), "Navigation failed: No files available");
}

#[test]
fn test_review_error_reviewable_diff_review_failed() {
    let review_error = ReviewError::ReviewableDiffReviewFailed {
        reviewable_id: "working:main.rs:L1-10".to_string(),
        reason: "User cancelled".to_string(),
        source: None,
    };
    assert!(review_error.to_string().contains("ReviewableDiff review failed"));
    assert!(review_error.to_string().contains("working:main.rs:L1-10"));
    assert!(review_error.to_string().contains("User cancelled"));
}

#[test]
fn test_review_error_invalid_context() {
    let review_error = ReviewError::InvalidContext {
        details: "File path not found".to_string(),
        current_file_path: Some("test.rs".to_string()),
        current_reviewable_diff_id: Some("working:test.rs:L1-5".to_string()),
    };
    assert!(review_error.to_string().contains("Review context invalid"));
    assert!(review_error.to_string().contains("File path not found"));
}

#[test]
fn test_review_error_interaction_failed() {
    let review_error = ReviewError::InteractionFailed { operation: "get_user_input".to_string(), source: None };
    assert_eq!(review_error.to_string(), "User interaction failed: get_user_input");
}

#[test]
fn test_review_error_completion_failed() {
    let review_error = ReviewError::CompletionFailed {
        reason: "Incomplete review".to_string(),
        approved_reviewable_diffs: 2,
        total_reviewable_diffs: 5,
    };
    assert!(review_error.to_string().contains("Review completion failed"));
    assert!(review_error.to_string().contains("Incomplete review"));
}

#[test]
fn test_review_error_file_not_found() {
    let review_error = ReviewError::FileNotFound { file_path: "missing.rs".to_string(), file_index: 3 };
    assert!(review_error.to_string().contains("File not found in diff"));
    assert!(review_error.to_string().contains("missing.rs"));
    assert!(review_error.to_string().contains("index 3"));
}

#[test]
fn test_review_error_reviewable_diff_not_found() {
    let review_error = ReviewError::ReviewableDiffNotFound {
        reviewable_id: "working:test.rs:L10-20".to_string(),
        file_path: "test.rs".to_string(),
    };
    assert!(review_error.to_string().contains("ReviewableDiff not found"));
    assert!(review_error.to_string().contains("working:test.rs:L10-20"));
}

#[test]
fn test_review_error_engine_not_initialized() {
    let review_error = ReviewError::EngineNotInitialized;
    assert_eq!(review_error.to_string(), "Review engine not initialized");
}

#[test]
fn test_review_error_user_cancelled() {
    let review_error = ReviewError::UserCancelled;
    assert_eq!(review_error.to_string(), "Review session cancelled by user");
}

#[test]
fn test_review_error_display_error() {
    let review_error = ReviewError::DisplayError { item_type: "FileDiff".to_string(), source: None };
    assert!(review_error.to_string().contains("Display error"));
    assert!(review_error.to_string().contains("FileDiff"));
}

#[test]
fn test_diff_viz_error_review_conversion() {
    let review_error = ReviewError::UserCancelled;
    let diff_viz_error: DiffVizError = review_error.into();
    match diff_viz_error {
        DiffVizError::Review(_) => {}
        _ => panic!("Expected Review error variant"),
    }
}

#[test]
fn test_review_error_with_source() {
    let review_error = ReviewError::InteractionFailed {
        operation: "read_input".to_string(),
        source: Some("Connection lost".to_string()),
    };
    assert!(review_error.source().is_some());
    assert_eq!(review_error.to_string(), "User interaction failed: read_input");
}

#[test]
fn error_messages_of_other_variants() {
    assert_eq!(DiffVizError::InvalidOperation("x".to_string()).to_string(), "Invalid operation: x");
    assert_eq!(DiffVizError::ProcessingFailed("y".to_string()).to_string(), "Processing failed: y");
    assert_eq!(DiffVizError::Git("z".to_string()).to_string(), "Git operation failed: z");
    assert_eq!(DiffVizError::Review(ReviewError::UserCancelled).to_string(), "Review operation failed");
    assert_eq!(ReviewError::ExportFailed { reason: "r".to_string() }.to_string(), "Export failed: r");
    assert_eq!(ReviewError::ImportFailed { reason: "q".to_string() }.to_string(), "Import failed: q");
    assert_eq!(ReviewError::InvalidDecision { decision_number: 42 }.to_string(), "Invalid decision: #42");
    assert_eq!(
        ReviewError::InstructionNotFound { instruction_id: "abc".to_string() }.to_string(),
        "Instruction not found: abc"
    );
    assert_eq!(
        ReviewError::InstructionOverlap { new_id: "a".to_string(), existing_id: "b".to_string() }.to_string(),
        "Instruction overlap detected: cannot add instruction for a because it overlaps with existing instruction at b"
    );
    assert!(ReviewError::UserCancelled.source().is_none());
}

#[test]
fn io_error_message_keeps_prefix() {
    let io = std::io::Error::new(std::io::ErrorKind::NotFound, "gone");
    let e: DiffVizError = io.into();
    assert_eq!(e.to_string(), "IO error: gone");
}

#[test]
fn test_invalid_operation_error() {
    let error = DiffVizError::InvalidOperation("test operation".to_string());
    assert_eq!(error.to_string(), "Invalid operation: test operation");
}

#[test]
fn test_processing_failed_error() {
    let error = DiffVizError::ProcessingFailed("parsing failed".to_string());
    assert_eq!(error.to_string(), "Processing failed: parsing failed");
}

#[test]
fn test_io_error_conversion() {
    let io_error = std::io::Error::new(std::io::ErrorKind::NotFound, "File not found");
    let diffviz_error: DiffVizError = io_error.into();
    match diffviz_error {
        DiffVizError::Io(_) => {}
        _ => panic!("Expected Io error variant"),
    }
}

#[test]
fn test_result_type_alias() {
    let success: diffviz::review::errors::Result<String> = Ok("success".to_string());
    let failure: diffviz::review::errors::Result<String> =
        Err(DiffVizError::InvalidOperation("failed".to_string()));
    assert!(success.is_ok());
    assert!(failure.is_err());
}

#[test]
fn test_error_chain_display() {
    let io_error = std::io::Error::new(std::io::ErrorKind::PermissionDenied, "Access denied");
    let diffviz_error = DiffVizError::Io(io_error);
    let error_string = diffviz_error.to_string();
    assert!(error_string.contains("IO error"));
}

#[test]
fn test_git_error_formatting() {
    let git_error = DiffVizError::Git("Failed to parse commit".to_string());
    assert_eq!(git_error.to_string(), "Git operation failed: Failed to parse commit");
}
