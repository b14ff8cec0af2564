use juxr::processor::ReportProcessor;
use juxr::result::TestResult;

#[test]
fn extract_message() {
    let r = TestResult::success();
    assert_eq!(r.message(), None);
    let r = TestResult::skipped("just because");
    assert_eq!(r.message(), Some(&"just because".to_string()));
    let r = TestResult::failure("just because");
    assert_eq!(r.message(), Some(&"just because".to_string()));
    let r = TestResult::error("just because");
    assert_eq!(r.message(), Some(&"just because".to_string()));
}

#[test]
fn result_constructors_and_equality() {
    assert_eq!(TestResult::success(), TestResult::success());
    assert_eq!(TestResult::failure("x"), TestResult::failure("x"));
    assert_ne!(TestResult::failure("x"), TestResult::error("x"));
    assert_ne!(TestResult::skipped("a"), TestResult::skipped("b"));
}

#[test]
fn redact_single_secret() {
    let p = ReportProcessor::new().secret("text");
    assert_eq!(p.redact("some text with text in it"), "some **** with **** in it".to_string());
}

#[test]
fn redact_prefers_containing_secret() {
    let p = ReportProcessor::new().secret("text").secret("some text");
    assert_eq!(p.redact("here is some text"), "here is ****".to_string());
    let q = ReportProcessor::new().secret("some text").secret("text");
    assert_eq!(q.redact("here is some text"), "here is ****".to_string());
}

#[test]
fn redact_with_secrets_list() {
    let p = ReportProcessor::new().secrets(&["text", "some text", "text", "unrelated"]);
    assert_eq!(p.redact("some text and text"), "**** and ****".to_string());
}

#[test]
fn redact_without_secrets_is_identity() {
    let p = ReportProcessor::new();
    assert_eq!(p.redact("nothing to hide"), "nothing to hide".to_string());
}

#[test]
fn reset_clears_only_attachments() {
    let p = ReportProcessor::new()
        .test_suite_name_prefix("aaa---")
        .secret("hidden");
    let q = p.reset();
    assert_eq!(q.attachments().len(), 0);
    assert_eq!(q.redact("hidden words"), "**** words".to_string());
}

#[test]
fn builders_affect_rendering_settings() {
    let p = ReportProcessor::new()
        .test_suite_name_prefix("a-")
        .test_suite_name_suffix("-b")
        .test_case_name_prefix("c-")
        .test_case_name_suffix("-d")
        .test_case_class_prefix("e-")
        .test_case_class_suffix("-f")
        .attachment_prefix("/foo/bar");
    assert_eq!(p.attachments().len(), 0);
}

#[test]
fn attachment_rewrite_inserts_prefix_and_records_path() {
    let mut p = ReportProcessor::new().attachment_prefix("/foo/bar");
    let text = p.rewrite_attachments("before [[ATTACHMENT|/some/path]] after");
    assert_eq!(text, "before [[ATTACHMENT|/foo/bar/some/path]] after".to_string());
    assert_eq!(p.attachments(), vec!["/some/path"]);
}

#[test]
fn attachment_rewrite_normalises_recorded_separators() {
    let mut p = ReportProcessor::new();
    let text = p.rewrite_attachments("[[ATTACHMENT|C:\\temp\\out.log]]");
    assert_eq!(text, "[[ATTACHMENT|C:\\temp\\out.log]]".to_string());
    assert_eq!(p.attachments(), vec!["C:/temp/out.log"]);
}

#[test]
fn attachment_rewrite_renders_windows_paths_when_configured() {
    let mut p = ReportProcessor::new()
        .attachment_windows_paths(true)
        .attachment_prefix("C:\\foo\\");
    let text = p.rewrite_attachments("[[ATTACHMENT|/some/path]]");
    assert_eq!(text, "[[ATTACHMENT|C:\\foo\\\\some\\path]]".to_string());
    assert_eq!(p.attachments(), vec!["/some/path"]);
}

#[test]
fn attachment_rewrite_leaves_malformed_references_alone() {
    let mut p = ReportProcessor::new().attachment_prefix("/x");
    let text = p.rewrite_attachments("[[ATTACHMENT|]] and [[ATTACHMENT|no close");
    assert_eq!(text, "[[ATTACHMENT|]] and [[ATTACHMENT|no close".to_string());
    assert_eq!(p.attachments().len(), 0);
}

#[test]
fn finish_attachments_orders_and_deduplicates() {
    let mut p = ReportProcessor::new();
    let _ = p.rewrite_attachments("[[ATTACHMENT|/b]][[ATTACHMENT|/a]][[ATTACHMENT|/b]]");
    p.finish_attachments();
    assert_eq!(p.attachments(), vec!["/a", "/b"]);
}
