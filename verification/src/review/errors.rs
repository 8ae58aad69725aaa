//! Errors of the review layer and their messages.

use vstd::prelude::*;

use crate::text::{decimal, push_decimal, push_text};

verus! {

/// `std::io::Error`, carried through as an opaque value.
#[verifier::external_type_specification]
#[verifier::external_body]
pub struct ExIoError(std::io::Error);

/// `serde_yaml::Error`, carried through as an opaque value.
#[verifier::external_type_specification]
#[verifier::external_body]
pub struct ExYamlError(serde_yaml::Error);

/// What went wrong in a review operation.
#[derive(Debug)]
pub enum ReviewError {
    NavigationFailed { reason: String, source: Option<String> },
    ReviewableDiffReviewFailed { reviewable_id: String, reason: String, source: Option<String> },
    InvalidContext {
        details: String,
        current_file_path: Option<String>,
        current_reviewable_diff_id: Option<String>,
    },
    InteractionFailed { operation: String, source: Option<String> },
    CompletionFailed { reason: String, approved_reviewable_diffs: usize, total_reviewable_diffs: usize },
    FileNotFound { file_path: String, file_index: usize },
    ReviewableDiffNotFound { reviewable_id: String, file_path: String },
    EngineNotInitialized,
    UserCancelled,
    DisplayError { item_type: String, source: Option<String> },
    InstructionOverlap { new_id: String, existing_id: String },
    ExportFailed { reason: String },
    ImportFailed { reason: String },
    InvalidDecision { decision_number: u32 },
    InstructionNotFound { instruction_id: String },
}

/// The message of a review error.
pub open spec fn review_error_text(e: ReviewError) -> Seq<char> {
    match e {
        ReviewError::NavigationFailed { reason, .. } => "Navigation failed: "@ + reason@,
        ReviewError::ReviewableDiffReviewFailed { reviewable_id, reason, .. } =>
            "ReviewableDiff review failed for "@ + reviewable_id@ + ": "@ + reason@,
        ReviewError::InvalidContext { details, .. } => "Review context invalid: "@ + details@,
        ReviewError::InteractionFailed { operation, .. } => "User interaction failed: "@
            + operation@,
        ReviewError::CompletionFailed { reason, .. } => "Review completion failed: "@ + reason@,
        ReviewError::FileNotFound { file_path, file_index } => "File not found in diff: "@
            + file_path@ + " at index "@ + decimal(file_index as nat),
        ReviewError::ReviewableDiffNotFound { reviewable_id, .. } => "ReviewableDiff not found: "@
            + reviewable_id@,
        ReviewError::EngineNotInitialized => "Review engine not initialized"@,
        ReviewError::UserCancelled => "Review session cancelled by user"@,
        ReviewError::DisplayError { item_type, .. } => "Display error: failed to render "@
            + item_type@,
        ReviewError::InstructionOverlap { new_id, existing_id } =>
            "Instruction overlap detected: cannot add instruction for "@ + new_id@
            + " because it overlaps with existing instruction at "@ + existing_id@,
        ReviewError::ExportFailed { reason } => "Export failed: "@ + reason@,
        ReviewError::ImportFailed { reason } => "Import failed: "@ + reason@,
        ReviewError::InvalidDecision { decision_number } => "Invalid decision: #"@ + decimal(
            decision_number as nat,
        ),
        ReviewError::InstructionNotFound { instruction_id } => "Instruction not found: "@
            + instruction_id@,
    }
}

/// The recorded message of the error that caused `e`, if any.
pub open spec fn source_of(e: ReviewError) -> Option<Seq<char>> {
    let src = match e {
        ReviewError::NavigationFailed { source, .. } => source,
        ReviewError::ReviewableDiffReviewFailed { source, .. } => source,
        ReviewError::InteractionFailed { source, .. } => source,
        ReviewError::DisplayError { source, .. } => source,
        _ => None,
    };
    match src {
        Some(m) => Some(m@),
        None => None,
    }
}

impl ReviewError {
    /// The error's message.
    pub fn to_string(&self) -> (s: String)
        ensures
            s@ == review_error_text(*self),
    {
        let mut s = String::new();
        match self {
            ReviewError::NavigationFailed { reason, .. } => {
                push_text(&mut s, "Navigation failed: ");
                push_text(&mut s, reason.as_str());
            },
            ReviewError::ReviewableDiffReviewFailed { reviewable_id, reason, .. } => {
                push_text(&mut s, "ReviewableDiff review failed for ");
                push_text(&mut s, reviewable_id.as_str());
                push_text(&mut s, ": ");
                push_text(&mut s, reason.as_str());
            },
            ReviewError::InvalidContext { details, .. } => {
                push_text(&mut s, "Review context invalid: ");
                push_text(&mut s, details.as_str());
            },
            ReviewError::InteractionFailed { operation, .. } => {
                push_text(&mut s, "User interaction failed: ");
                push_text(&mut s, operation.as_str());
            },
            ReviewError::CompletionFailed { reason, .. } => {
                push_text(&mut s, "Review completion failed: ");
                push_text(&mut s, reason.as_str());
            },
            ReviewError::FileNotFound { file_path, file_index } => {
                push_text(&mut s, "File not found in diff: ");
                push_text(&mut s, file_path.as_str());
                push_text(&mut s, " at index ");
                push_decimal(&mut s, *file_index);
            },
            ReviewError::ReviewableDiffNotFound { reviewable_id, .. } => {
                push_text(&mut s, "ReviewableDiff not found: ");
                push_text(&mut s, reviewable_id.as_str());
            },
            ReviewError::EngineNotInitialized => {
                push_text(&mut s, "Review engine not initialized");
            },
            ReviewError::UserCancelled => {
                push_text(&mut s, "Review session cancelled by user");
            },
            ReviewError::DisplayError { item_type, .. } => {
                push_text(&mut s, "Display error: failed to render ");
                push_text(&mut s, item_type.as_str());
            },
            ReviewError::InstructionOverlap { new_id, existing_id } => {
                push_text(&mut s, "Instruction overlap detected: cannot add instruction for ");
                push_text(&mut s, new_id.as_str());
                push_text(&mut s, " because it overlaps with existing instruction at ");
                push_text(&mut s, existing_id.as_str());
            },
            ReviewError::ExportFailed { reason } => {
                push_text(&mut s, "Export failed: ");
                push_text(&mut s, reason.as_str());
            },
            ReviewError::ImportFailed { reason } => {
                push_text(&mut s, "Import failed: ");
                push_text(&mut s, reason.as_str());
            },
            ReviewError::InvalidDecision { decision_number } => {
                push_text(&mut s, "Invalid decision: #");
                push_decimal(&mut s, *decision_number as usize);
            },
            ReviewError::InstructionNotFound { instruction_id } => {
                push_text(&mut s, "Instruction not found: ");
                push_text(&mut s, instruction_id.as_str());
            },
        }
        assert(s@ =~= review_error_text(*self));
        s
    }

    /// The message of the error that caused this one, where recorded.
    pub fn source(&self) -> (r: Option<&String>)
        ensures
            match r {
                Some(x) => source_of(*self) == Some(x@),
                None => source_of(*self) is None,
            },
    {
        match self {
            ReviewError::NavigationFailed { source, .. } => source.as_ref(),
            ReviewError::ReviewableDiffReviewFailed { source, .. } => source.as_ref(),
            ReviewError::InteractionFailed { source, .. } => source.as_ref(),
            ReviewError::DisplayError { source, .. } => source.as_ref(),
            _ => None,
        }
    }
}

/// Errors of the review layer and of the operations it builds on.
#[derive(Debug)]
pub enum DiffVizError {
    InvalidOperation(String),
    ProcessingFailed(String),
    Git(String),
    Repository(String),
    Io(std::io::Error),
    YamlParse(serde_yaml::Error),
    Review(ReviewError),
}

/// The message of an I/O error (its `Display` text).
#[verifier::external_body]
fn io_error_text(e: &std::io::Error) -> String {
    format!("{}", e)
}

/// The message of a YAML error (its `Display` text).
#[verifier::external_body]
fn yaml_error_text(e: &serde_yaml::Error) -> String {
    format!("{}", e)
}

impl DiffVizError {
    /// The error's message. The texts of I/O and YAML errors are those of the
    /// underlying errors and are not specified here.
    pub fn to_string(&self) -> (s: String)
        ensures
            match self {
                DiffVizError::InvalidOperation(m) => s@ == "Invalid operation: "@ + m@,
                DiffVizError::ProcessingFailed(m) => s@ == "Processing failed: "@ + m@,
                DiffVizError::Git(m) => s@ == "Git operation failed: "@ + m@,
                DiffVizError::Repository(m) => s@ == "Repository error: "@ + m@,
                DiffVizError::Io(_) => s@.subrange(0, 10) == "IO error: "@,
                DiffVizError::YamlParse(_) => s@.subrange(0, 18) == "YAML parse error: "@,
                DiffVizError::Review(_) => s@ == "Review operation failed"@,
            },
    {
        let mut s = String::new();
        match self {
            DiffVizError::InvalidOperation(m) => {
                push_text(&mut s, "Invalid operation: ");
                push_text(&mut s, m.as_str());
            },
            DiffVizError::ProcessingFailed(m) => {
                push_text(&mut s, "Processing failed: ");
                push_text(&mut s, m.as_str());
            },
            DiffVizError::Git(m) => {
                push_text(&mut s, "Git operation failed: ");
                push_text(&mut s, m.as_str());
            },
            DiffVizError::Repository(m) => {
                push_text(&mut s, "Repository error: ");
                push_text(&mut s, m.as_str());
            },
            DiffVizError::Io(e) => {
                push_text(&mut s, "IO error: ");
                let t = io_error_text(e);
                push_text(&mut s, t.as_str());
                proof {
                    reveal_strlit("IO error: ");
                }
            },
            DiffVizError::YamlParse(e) => {
                push_text(&mut s, "YAML parse error: ");
                let t = yaml_error_text(e);
                push_text(&mut s, t.as_str());
                proof {
                    reveal_strlit("YAML parse error: ");
                }
            },
            DiffVizError::Review(_) => {
                push_text(&mut s, "Review operation failed");
            },
        }
        s
    }
}

/// The result of a review operation.
pub type Result<T> = core::result::Result<T, DiffVizError>;

impl From<ReviewError> for DiffVizError {
    fn from(e: ReviewError) -> (r: Self) {
        DiffVizError::Review(e)
    }
}

impl vstd::std_specs::convert::FromSpecImpl<ReviewError> for DiffVizError {
    open spec fn obeys_from_spec() -> bool {
        true
    }

    open spec fn from_spec(v: ReviewError) -> DiffVizError {
        DiffVizError::Review(v)
    }
}

impl From<std::io::Error> for DiffVizError {
    fn from(e: std::io::Error) -> (r: Self) {
        DiffVizError::Io(e)
    }
}

impl vstd::std_specs::convert::FromSpecImpl<std::io::Error> for DiffVizError {
    open spec fn obeys_from_spec() -> bool {
        true
    }

    open spec fn from_spec(v: std::io::Error) -> DiffVizError {
        DiffVizError::Io(v)
    }
}

impl From<serde_yaml::Error> for DiffVizError {
    fn from(e: serde_yaml::Error) -> (r: Self) {
        DiffVizError::YamlParse(e)
    }
}

impl vstd::std_specs::convert::FromSpecImpl<serde_yaml::Error> for DiffVizError {
    open spec fn obeys_from_spec() -> bool {
        true
    }

    open spec fn from_spec(v: serde_yaml::Error) -> DiffVizError {
        DiffVizError::YamlParse(v)
    }
}

} // verus!
