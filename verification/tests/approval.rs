use diffviz::review::approval::{DecisionApprovals, ReviewApprovals};
use diffviz::review::git_ref::DiffQuery;
use diffviz::review::reviewable_diff_id::{LineRange, ReviewableDiffId};

fn create_test_reviewable_id() -> ReviewableDiffId {
    ReviewableDiffId::new(
        DiffQuery::head_to_unstaged(),
        "test.rs".to_string(),
        LineRange { start_line: 1, end_line: 10, start_column: 0, end_column: 0 },
    )
}

#[test]
fn test_approval_system() {
    let mut approvals = ReviewApprovals::new();
    let reviewable_id = create_test_reviewable_id();

    assert!(!approvals.is_approved(&reviewable_id));
    assert_eq!(approvals.total_approved(), 0);

    approvals.approve(
        reviewable_id.clone(),
        "inspector".to_string(),
        "2023-01-01T00:00:00Z".to_string(),
    );
    assert!(approvals.is_approved(&reviewable_id));
    assert_eq!(approvals.total_approved(), 1);

    let approval = approvals.get_approval(&reviewable_id).unwrap();
    assert_eq!(approval.approved_by, "inspector");
    assert_eq!(approval.approval_timestamp, "2023-01-01T00:00:00Z");

    approvals.unapprove(&reviewable_id);
    assert!(!approvals.is_approved(&reviewable_id));
    assert_eq!(approvals.total_approved(), 0);
}

#[test]
fn test_decision_approvals() {
    let mut approvals = DecisionApprovals::new();

    assert!(!approvals.is_approved(&1));
    approvals.approve(1, "inspector".to_string(), "2023-01-01T00:00:00Z".to_string());
    assert!(approvals.is_approved(&1));
    approvals.unapprove(&1);
    assert!(!approvals.is_approved(&1));
}

#[test]
fn approving_again_replaces_the_record() {
    let mut approvals = DecisionApprovals::new();
    approvals.approve(7, "alice".to_string(), "t1".to_string());
    approvals.approve(7, "bob".to_string(), "t2".to_string());
    assert_eq!(approvals.total_approved(), 1);
    assert_eq!(approvals.approvals.len(), 1);
    let record = approvals.get_approval(&7).unwrap();
    assert_eq!(record.approved_by, "bob");
    assert_eq!(record.approval_timestamp, "t2");
}

#[test]
fn unapproving_leaves_other_keys() {
    let mut approvals = DecisionApprovals::new();
    approvals.approve(1, "a".to_string(), "t".to_string());
    approvals.approve(2, "b".to_string(), "t".to_string());
    approvals.unapprove(&1);
    approvals.unapprove(&3);
    assert!(!approvals.is_approved(&1));
    assert!(approvals.is_approved(&2));
    assert!(approvals.get_approval(&1).is_none());
    assert_eq!(approvals.total_approved(), 1);
}

#[test]
fn approved_count_rises_only_for_keys_not_yet_approved() {
    let mut approvals = DecisionApprovals::new();
    approvals.approve(1, "a".to_string(), "t".to_string());
    assert_eq!(approvals.total_approved(), 1);
    approvals.approve(1, "b".to_string(), "t".to_string());
    assert_eq!(approvals.total_approved(), 1);
    approvals.approve(2, "a".to_string(), "t".to_string());
    assert_eq!(approvals.total_approved(), 2);
}

#[test]
fn inserted_records_are_kept_as_given() {
    let mut approvals = DecisionApprovals::new();
    let record = diffviz::review::approval::ApprovalRecord {
        approved: false,
        approved_by: "a".to_string(),
        approval_timestamp: "t".to_string(),
    };
    approvals.insert(3, record.clone());
    assert_eq!(approvals.get_approval(&3), Some(&record));
    assert!(!approvals.is_approved(&3));
    assert_eq!(approvals.total_approved(), 0);
    approvals.approve(3, "b".to_string(), "u".to_string());
    assert_eq!(approvals.total_approved(), 1);
}
