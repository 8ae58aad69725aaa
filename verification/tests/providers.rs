use diffviz::review::git_ref::GitRef;
use diffviz::review::mock_provider::MockDiffProvider;
use diffviz::review::providers::DiffProvider;
use diffviz::review::reviewable_diff_id::LineRange;
use sha2::{Digest, Sha256};

fn test_range(start: usize, end: usize) -> LineRange {
    LineRange { start_line: start, end_line: end, start_column: 0, end_column: 0 }
}

#[test]
fn mock_provider_tests_test_calculate_file_hash_identical_content_identical_hash() {
    let mut mock_provider = MockDiffProvider::new();
    mock_provider.add_file_content("file1.rs", &GitRef::head(), "same content\n");
    mock_provider.add_file_content("file2.rs", &GitRef::head(), "same content\n");
    let hash1 = mock_provider.get_file_hash("file1.rs", &GitRef::head()).unwrap();
    let hash2 = mock_provider.get_file_hash("file2.rs", &GitRef::head()).unwrap();
    assert_eq!(hash1, hash2);
}

#[test]
fn mock_provider_tests_test_calculate_file_hash_different_content_different_hash() {
    let mut mock_provider = MockDiffProvider::new();
    mock_provider.add_file_content("file1.rs", &GitRef::head(), "content A\n");
    mock_provider.add_file_content("file2.rs", &GitRef::head(), "content B\n");
    let hash1 = mock_provider.get_file_hash("file1.rs", &GitRef::head()).unwrap();
    let hash2 = mock_provider.get_file_hash("file2.rs", &GitRef::head()).unwrap();
    assert_ne!(hash1, hash2);
}

#[test]
fn mock_provider_tests_test_calculate_file_hash_crlf_normalization() {
    let mut mock_provider = MockDiffProvider::new();
    mock_provider.add_file_content("crlf.rs", &GitRef::head(), "line1\r\nline2\r\n");
    mock_provider.add_file_content("lf.rs", &GitRef::head(), "line1\nline2\n");
    let hash_crlf = mock_provider.get_file_hash("crlf.rs", &GitRef::head()).unwrap();
    let hash_lf = mock_provider.get_file_hash("lf.rs", &GitRef::head()).unwrap();
    assert_eq!(hash_crlf, hash_lf);
}

#[test]
fn mock_provider_tests_test_extract_content_snapshot_middle_lines() {
    let mut mock_provider = MockDiffProvider::new();
    let content = "line1\nline2\nline3\nline4\nline5\nline6\nline7\nline8\nline9\nline10\n";
    mock_provider.add_file_content("test.rs", &GitRef::head(), content);
    let line_range = test_range(3, 5);
    let snapshot = mock_provider.get_content_snapshot("test.rs", &GitRef::head(), &line_range).unwrap();
    assert_eq!(snapshot, Some("line3\nline4\nline5".to_string()));
}

#[test]
fn mock_provider_tests_test_extract_content_snapshot_start_of_file() {
    let mut mock_provider = MockDiffProvider::new();
    let content = "line1\nline2\nline3\n";
    mock_provider.add_file_content("test.rs", &GitRef::head(), content);
    let line_range = test_range(1, 2);
    let snapshot = mock_provider.get_content_snapshot("test.rs", &GitRef::head(), &line_range).unwrap();
    assert_eq!(snapshot, Some("line1\nline2".to_string()));
}

#[test]
fn mock_provider_tests_test_extract_content_snapshot_end_of_file() {
    let mut mock_provider = MockDiffProvider::new();
    let content = "line1\nline2\nline3\n";
    mock_provider.add_file_content("test.rs", &GitRef::head(), content);
    let line_range = test_range(2, 3);
    let snapshot = mock_provider.get_content_snapshot("test.rs", &GitRef::head(), &line_range).unwrap();
    assert_eq!(snapshot, Some("line2\nline3".to_string()));
}

#[test]
fn mock_provider_tests_test_extract_content_snapshot_beyond_file_bounds() {
    let mut mock_provider = MockDiffProvider::new();
    let content = "line1\nline2\nline3\n";
    mock_provider.add_file_content("test.rs", &GitRef::head(), content);
    let line_range = test_range(10, 15);
    let snapshot = mock_provider.get_content_snapshot("test.rs", &GitRef::head(), &line_range).unwrap();
    assert_eq!(snapshot, None);
}

#[test]
fn mock_provider_tests_test_extract_content_snapshot_empty_range() {
    let mut mock_provider = MockDiffProvider::new();
    let content = "line1\nline2\nline3\n";
    mock_provider.add_file_content("test.rs", &GitRef::head(), content);
    let line_range = test_range(2, 2);
    let snapshot = mock_provider.get_content_snapshot("test.rs", &GitRef::head(), &line_range).unwrap();
    assert_eq!(snapshot, Some("line2".to_string()));
}

#[test]
fn review_engine_test_calculate_file_hash_identical_content_identical_hash() {
    let mut mock_provider = MockDiffProvider::new();
    mock_provider.add_file_content("file1.rs", &GitRef::head(), "same content\n");
    mock_provider.add_file_content("file2.rs", &GitRef::head(), "same content\n");
    let hash1 = mock_provider.get_file_hash("file1.rs", &GitRef::head()).unwrap();
    let hash2 = mock_provider.get_file_hash("file2.rs", &GitRef::head()).unwrap();
    assert_eq!(hash1, hash2);
}

#[test]
fn review_engine_test_calculate_file_hash_different_content_different_hash() {
    let mut mock_provider = MockDiffProvider::new();
    mock_provider.add_file_content("file1.rs", &GitRef::head(), "content A\n");
    mock_provider.add_file_content("file2.rs", &GitRef::head(), "content B\n");
    let hash1 = mock_provider.get_file_hash("file1.rs", &GitRef::head()).unwrap();
    let hash2 = mock_provider.get_file_hash("file2.rs", &GitRef::head()).unwrap();
    assert_ne!(hash1, hash2);
}

#[test]
fn review_engine_test_calculate_file_hash_crlf_normalization() {
    let mut mock_provider = MockDiffProvider::new();
    mock_provider.add_file_content("crlf.rs", &GitRef::head(), "line1\r\nline2\r\n");
    mock_provider.add_file_content("lf.rs", &GitRef::head(), "line1\nline2\n");
    let hash_crlf = mock_provider.get_file_hash("crlf.rs", &GitRef::head()).unwrap();
    let hash_lf = mock_provider.get_file_hash("lf.rs", &GitRef::head()).unwrap();
    assert_eq!(hash_crlf, hash_lf);
}

#[test]
fn review_engine_test_extract_content_snapshot_middle_lines() {
    let mut mock_provider = MockDiffProvider::new();
    let content = "line1\nline2\nline3\nline4\nline5\nline6\nline7\nline8\nline9\nline10\n";
    mock_provider.add_file_content("test.rs", &GitRef::head(), content);
    let line_range = test_range(3, 5);
    let snapshot = mock_provider.get_content_snapshot("test.rs", &GitRef::head(), &line_range).unwrap();
    assert_eq!(snapshot, Some("line3\nline4\nline5".to_string()));
}

#[test]
fn review_engine_test_extract_content_snapshot_start_of_file() {
    let mut mock_provider = MockDiffProvider::new();
    let content = "line1\nline2\nline3\n";
    mock_provider.add_file_content("test.rs", &GitRef::head(), content);
    let line_range = test_range(1, 2);
    let snapshot = mock_provider.get_content_snapshot("test.rs", &GitRef::head(), &line_range).unwrap();
    assert_eq!(snapshot, Some("line1\nline2".to_string()));
}

#[test]
fn review_engine_test_extract_content_snapshot_end_of_file() {
    let mut mock_provider = MockDiffProvider::new();
    let content = "line1\nline2\nline3\n";
    mock_provider.add_file_content("test.rs", &GitRef::head(), content);
    let line_range = test_range(2, 3);
    let snapshot = mock_provider.get_content_snapshot("test.rs", &GitRef::head(), &line_range).unwrap();
    assert_eq!(snapshot, Some("line2\nline3".to_string()));
}

#[test]
fn review_engine_test_extract_content_snapshot_beyond_file_bounds() {
    let mut mock_provider = MockDiffProvider::new();
    let content = "line1\nline2\nline3\n";
    mock_provider.add_file_content("test.rs", &GitRef::head(), content);
    let line_range = test_range(10, 15);
    let snapshot = mock_provider.get_content_snapshot("test.rs", &GitRef::head(), &line_range).unwrap();
    assert_eq!(snapshot, None);
}

#[test]
fn review_engine_test_extract_content_snapshot_empty_range() {
    let mut mock_provider = MockDiffProvider::new();
    let content = "line1\nline2\nline3\n";
    mock_provider.add_file_content("test.rs", &GitRef::head(), content);
    let line_range = test_range(2, 2);
    let snapshot = mock_provider.get_content_snapshot("test.rs", &GitRef::head(), &line_range).unwrap();
    assert_eq!(snapshot, Some("line2".to_string()));
}

#[test]
fn file_hash_is_sha256_hex() {
    let mut mock_provider = MockDiffProvider::new();
    mock_provider.add_file_content("test.rs", &GitRef::head(), "hello world\n");
    let hash = mock_provider.get_file_hash("test.rs", &GitRef::head()).unwrap();
    assert_eq!(hash, "a948904f2f0f479b8f8197694b30184b0d2ed1c1cd2a1ec0fb85d299a192a447");
}

#[test]
fn file_hash_of_known_content() {
    let hash = diffviz::review::providers::file_hash("hello world\n");
    assert_eq!(hash.len(), 64);
    assert_eq!(hash, "a948904f2f0f479b8f8197694b30184b0d2ed1c1cd2a1ec0fb85d299a192a447");
}

#[test]
fn missing_file_is_an_error() {
    let mock_provider = MockDiffProvider::new();
    assert!(mock_provider.get_file_hash("nope.rs", &GitRef::head()).is_err());
    assert!(mock_provider.get_source_code("nope.rs", &GitRef::staged()).is_err());
}

#[test]
fn normalize_line_endings_drops_carriage_returns_before_newlines() {
    let out = diffviz::review::providers::normalize_line_endings(b"a\r\nb\rc\r\n");
    assert_eq!(out, b"a\nb\rc\n".to_vec());
}

#[test]
fn content_snapshot_strips_trailing_carriage_returns() {
    let snap = diffviz::review::providers::content_snapshot("x\r\ny\r\n", &test_range(1, 2));
    assert_eq!(snap, Some("x\ny".to_string()));
    assert_eq!(diffviz::review::providers::content_snapshot("x\n", &test_range(0, 1)), None);
}

#[test]
fn mock_provider_tests_test_calculate_file_hash_known_content() {
    let mut mock_provider = MockDiffProvider::new();
    mock_provider.add_file_content("test.rs", &GitRef::head(), "hello world\n");
    let hash = mock_provider.get_file_hash("test.rs", &GitRef::head()).unwrap();
    let mut hasher = Sha256::new();
    hasher.update(b"hello world\n");
    let expected = format!("{:x}", hasher.finalize());
    assert_eq!(hash, expected);
}

#[test]
fn mock_provider_tests_test_calculate_file_hash_lf_unchanged() {
    let mut mock_provider = MockDiffProvider::new();
    let content = "line1\nline2\n";
    mock_provider.add_file_content("test.rs", &GitRef::head(), content);
    let hash = mock_provider.get_file_hash("test.rs", &GitRef::head()).unwrap();
    let mut hasher = Sha256::new();
    hasher.update(content.as_bytes());
    let expected = format!("{:x}", hasher.finalize());
    assert_eq!(hash, expected);
}

#[test]
fn review_engine_test_calculate_file_hash_known_content() {
    let mut mock_provider = MockDiffProvider::new();
    mock_provider.add_file_content("test.rs", &GitRef::head(), "hello world\n");
    let hash = mock_provider.get_file_hash("test.rs", &GitRef::head()).unwrap();
    let mut hasher = Sha256::new();
    hasher.update(b"hello world\n");
    let expected = format!("{:x}", hasher.finalize());
    assert_eq!(hash, expected);
}

#[test]
fn review_engine_test_calculate_file_hash_lf_unchanged() {
    let mut mock_provider = MockDiffProvider::new();
    let content = "line1\nline2\n";
    mock_provider.add_file_content("test.rs", &GitRef::head(), content);
    let hash = mock_provider.get_file_hash("test.rs", &GitRef::head()).unwrap();
    let mut hasher = Sha256::new();
    hasher.update(content.as_bytes());
    let expected = format!("{:x}", hasher.finalize());
    assert_eq!(hash, expected);
}

#[test]
fn missing_file_message_names_the_ref() {
    let provider = MockDiffProvider::new();
    for git_ref in [GitRef::head(), GitRef::staged(), GitRef::unstaged(), GitRef::commit("ab\"c\\d\n".to_string())] {
        let err = provider.get_source_code("nope.rs", &git_ref).unwrap_err();
        assert_eq!(err, format!("File not found: nope.rs at ref {:?}", git_ref));
    }
}

#[test]
fn added_content_wins_for_its_file_and_ref_only() {
    let mut provider = MockDiffProvider::new();
    provider.add_file_content("a.rs", &GitRef::head(), "one");
    provider.add_file_content("a.rs", &GitRef::staged(), "two");
    provider.add_file_content("a.rs", &GitRef::head(), "three");
    assert_eq!(provider.get_source_code("a.rs", &GitRef::head()).unwrap(), "three");
    assert_eq!(provider.get_source_code("a.rs", &GitRef::staged()).unwrap(), "two");
    assert!(provider.get_source_code("b.rs", &GitRef::head()).is_err());
}
