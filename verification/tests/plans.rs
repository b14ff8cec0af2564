use juxr::plan::{Plan, PlanCommand, PlanTest, Verdict};

#[test]
fn display_text() {
    assert_eq!(
        PlanCommand::Shell("echo hello world".to_string()).display(),
        "sh -c 'echo hello world'".to_string()
    );
    assert_eq!(
        PlanCommand::Exec(vec!["echo".to_string(), "hello world".to_string()]).display(),
        "echo hello world".to_string()
    );
}

#[test]
fn create_empty() {
    let plan = Plan::new();
    assert_eq!(plan.len(), 0);
}

#[test]
fn create() {
    let mut plan = Plan::new();
    plan.insert(
        "foo",
        PlanTest {
            command: PlanCommand::Shell("echo truth".to_string()),
            success: None,
            failure: None,
            skipped: None,
        },
    );
    plan.insert(
        "bar",
        PlanTest {
            command: PlanCommand::Exec(vec!["echo".to_string(), "truth".to_string()]),
            success: None,
            failure: None,
            skipped: None,
        },
    );
    assert_eq!(plan.len(), 2);
    assert_eq!(
        plan.get("foo"),
        Some(&PlanTest {
            command: PlanCommand::Shell("echo truth".to_string()),
            success: None,
            failure: None,
            skipped: None
        })
    );
    assert_eq!(
        plan.get("bar"),
        Some(&PlanTest {
            command: PlanCommand::Exec(vec!["echo".to_string(), "truth".to_string()]),
            success: None,
            failure: None,
            skipped: None
        })
    );
}

#[test]
fn insert_replaces_and_returns_previous() {
    let mut plan = Plan::new();
    let first = PlanTest {
        command: PlanCommand::Shell("exit 0".to_string()),
        success: Some(vec![0]),
        failure: Some(vec![1]),
        skipped: Some(vec![2]),
    };
    let second = PlanTest {
        command: PlanCommand::Shell("exit 1".to_string()),
        success: None,
        failure: None,
        skipped: None,
    };
    assert_eq!(plan.insert("foo", first.clone()), None);
    let displaced = plan.insert("foo", second.clone());
    assert_eq!(displaced, Some(first));
    assert_eq!(plan.len(), 1);
    assert_eq!(plan.get("foo"), Some(&second));
    assert_eq!(plan.get("missing"), None);
}

#[test]
fn iter_yields_ascending_name_order() {
    let mut plan = Plan::new();
    let t = PlanTest {
        command: PlanCommand::Shell("true".to_string()),
        success: None,
        failure: None,
        skipped: None,
    };
    plan.insert("zeta", t.clone());
    plan.insert("alpha", t.clone());
    plan.insert("mid", t.clone());
    let names: Vec<&str> = plan.iter().iter().map(|e| e.0.as_str()).collect();
    assert_eq!(names, vec!["alpha", "mid", "zeta"]);
}

#[test]
fn classify_follows_configured_code_lists() {
    let t = PlanTest {
        command: PlanCommand::Shell("exit 3".to_string()),
        success: None,
        failure: Some(vec![3]),
        skipped: None,
    };
    assert_eq!(t.classify(3), Verdict::Failure);
    assert_eq!(t.classify(0), Verdict::Success);
    assert_eq!(t.classify(1), Verdict::Error);
    let u = PlanTest {
        command: PlanCommand::Shell("exit 3".to_string()),
        success: None,
        failure: None,
        skipped: Some(vec![3]),
    };
    assert_eq!(u.classify(3), Verdict::Skipped);
    assert_eq!(u.classify(1), Verdict::Failure);
    let v = PlanTest {
        command: PlanCommand::Shell("exit 3".to_string()),
        success: None,
        failure: None,
        skipped: None,
    };
    assert_eq!(v.classify(3), Verdict::Error);
}
