use diffviz::review::decision::{CodeImpact, Decision, DecisionLineRange, DecisionLog};
use diffviz::review::templates::SchemaTemplate;

#[test]
fn template_contains_required_fields() {
    let template = DecisionLog::yaml_template();
    assert!(template.contains("commit:"), "Template should contain 'commit' field");
    assert!(template.contains("decisions:"), "Template should contain 'decisions' field");
    assert!(template.contains("number:"), "Template should contain 'number' field in decision");
    assert!(template.contains("title:"), "Template should contain 'title' field in decision");
    assert!(template.contains("rationale:"), "Template should contain 'rationale' field in decision");
    assert!(template.contains("code_impacts:"), "Template should contain 'code_impacts' field");
    assert!(template.contains("file:"), "Template should contain 'file' field in code impact");
    assert!(template.contains("reasoning:"), "Template should contain 'reasoning' field");
    assert!(template.contains("line_ranges:"), "Template should contain 'line_ranges' field");
    assert!(template.contains("start:"), "Template should contain 'start' field in line range");
    assert!(template.contains("end:"), "Template should contain 'end' field in line range");
}

#[test]
fn it_compiles() {
    let template = DecisionLog::yaml_template();
    assert!(template.starts_with("# Decision Log - Schema Template"));
}

#[test]
fn template_parses_as_valid_yaml() {
    let template = DecisionLog::yaml_template();
    let result: Result<serde_yaml::Value, _> = serde_yaml::from_str(&template);
    assert!(result.is_ok(), "Template should parse as valid YAML, but got: {:?}", result.err());
}

#[test]
fn template_structure_matches_decision_log() {
    let template = DecisionLog::yaml_template();
    let result = serde_yaml::from_str::<serde_yaml::Value>(&template);
    assert!(result.is_ok(), "Template should be parseable as YAML");
    let value = result.unwrap();
    assert!(value.get("commit").is_some(), "Template should have 'commit' key at root");
    assert!(value.get("decisions").is_some(), "Template should have 'decisions' key at root");
    let decisions = &value["decisions"];
    assert!(decisions.is_sequence(), "decisions should be a sequence/array");
}

#[test]
fn field_templates_nest_list_items() {
    assert_eq!(DecisionLineRange::yaml_template(), "start: 1\nend: 1\n");
    let impact = CodeImpact::yaml_template();
    assert!(impact.starts_with("reasoning: Middleware validates JWT tokens and injects user context  # "));
    assert!(impact.ends_with("line_ranges:\n  - start: 1\n    end: 1\n"));
    let decision = Decision::yaml_template();
    assert!(decision.starts_with("number: 1  # Sequential identifier for this decision (starting from 1)\n"));
    assert!(decision.contains("rationale: Middleware must validate tokens for security requirements  # Optional - "));
    assert!(decision.contains("code_impacts:\n  - reasoning: "));
    assert!(decision.ends_with("    line_ranges:\n      - start: 1\n        end: 1\n"));
    let parsed: serde_yaml::Value = serde_yaml::from_str(&decision).unwrap();
    assert!(parsed.get("code_impacts").is_some());
}
