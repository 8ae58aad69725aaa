//! Templates that show the expected shape of decision-log files.

use vstd::prelude::*;

use crate::review::decision::{CodeImpact, Decision, DecisionLineRange, DecisionLog};
use crate::text::from_text;

verus! {

/// A type whose serialised form can be shown as a YAML template with
/// placeholders.
pub trait SchemaTemplate {
    /// The YAML template of the type.
    fn yaml_template() -> String;
}

/// The template of a decision log.
pub open spec fn decision_log_template() -> Seq<char> {
    DECISION_LOG_TEMPLATE@
}

/// The text of the decision-log template.
pub const DECISION_LOG_TEMPLATE: &'static str = r#"# Decision Log - Schema Template
# Use this file to document architectural decisions made in this contribution.
# See https://github.com/anthropics/patina/tree/main/diffviz-review for detailed explanation.

commit: "git-hash-here"  # Git hash of commit containing these code changes
                         # Required during implementation, optional during strategy phase

decisions:
  # Each decision maps architectural choice to actual code changes
  - number: 1
    title: "[Decision made in one sentence]"
    rationale: "[Why this choice - constraints, priorities, trade-offs]"  # Optional
    code_impacts:
      # One or more files affected by this decision
      - file: "[path/to/file.rs]"
        reasoning: "[Why this file is affected by this decision]"
        line_ranges:
          # One or more line ranges in this file affected
          - start: 10
            end: 50

  - number: 2
    title: "[Next decision]"
    rationale: "[Rationale]"  # Optional
    code_impacts:
      - file: "[another/file.rs]"
        reasoning: "[Why affected]"
        line_ranges:
          - start: 100
            end: 150
"#;

impl SchemaTemplate for DecisionLog {
    fn yaml_template() -> (s: String)
        ensures
            s@ == decision_log_template(),
    {
        from_text(DECISION_LOG_TEMPLATE)
    }
}


/// The template of a line range: each field with its placeholder.
pub const LINE_RANGE_TEMPLATE: &'static str = "start: 1\nend: 1\n";

/// The template of a code impact: its fields with examples and comments,
/// and its line ranges as a list of line-range templates.
pub const CODE_IMPACT_TEMPLATE: &'static str = "reasoning: Middleware validates JWT tokens and injects user context  # Why this file is affected by this decision\nfile: src/auth/middleware.rs  # Path to the source file relative to repository root\nline_ranges:\n  - start: 1\n    end: 1\n";

/// The template of a decision: its fields with examples and comments, the
/// rationale marked optional, and its code impacts as a list of
/// code-impact templates.
pub const DECISION_TEMPLATE: &'static str = "number: 1  # Sequential identifier for this decision (starting from 1)\ntitle: Add authentication middleware  # One-sentence summary of the architectural decision\nrationale: Middleware must validate tokens for security requirements  # Optional - Why this choice was made \u{2014} constraints, priorities, trade-offs\ncode_impacts:\n  - reasoning: Middleware validates JWT tokens and injects user context  # Why this file is affected by this decision\n    file: src/auth/middleware.rs  # Path to the source file relative to repository root\n    line_ranges:\n      - start: 1\n        end: 1\n";

impl SchemaTemplate for DecisionLineRange {
    fn yaml_template() -> (s: String)
        ensures
            s@ == LINE_RANGE_TEMPLATE@,
    {
        from_text(LINE_RANGE_TEMPLATE)
    }
}

impl SchemaTemplate for CodeImpact {
    fn yaml_template() -> (s: String)
        ensures
            s@ == CODE_IMPACT_TEMPLATE@,
    {
        from_text(CODE_IMPACT_TEMPLATE)
    }
}

impl SchemaTemplate for Decision {
    fn yaml_template() -> (s: String)
        ensures
            s@ == DECISION_TEMPLATE@,
    {
        from_text(DECISION_TEMPLATE)
    }
}

} // verus!
