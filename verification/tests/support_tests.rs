use googletest::{GoogleTestSupport, IntoTestResult, TestAssertionFailure};

#[test]
fn failure_message_sets_the_custom_message() {
    let r: Result<(), TestAssertionFailure> =
        Err(TestAssertionFailure::create("failed".to_string()));
    match r.failure_message("context".to_string()) {
        Err(f) => {
            assert_eq!(f.description, "failed");
            assert_eq!(f.custom_message.as_deref(), Some("context"));
        }
        Ok(_) => panic!("failure lost"),
    }
}

#[test]
fn failure_message_last_call_wins() {
    let r: Result<(), TestAssertionFailure> =
        Err(TestAssertionFailure::create("failed".to_string()));
    let r = r.failure_message("first".to_string()).failure_message("second".to_string());
    match r {
        Err(f) => assert_eq!(f.custom_message.as_deref(), Some("second")),
        Ok(_) => panic!("failure lost"),
    }
}

#[test]
fn failure_message_leaves_success_alone() {
    let r: Result<i64, TestAssertionFailure> = Ok(7);
    assert!(matches!(r.failure_message("m".to_string()), Ok(7)));
}

#[test]
fn with_failure_message_sets_the_provided_message() {
    let r: Result<(), TestAssertionFailure> =
        Err(TestAssertionFailure::create("failed".to_string()));
    match r.with_failure_message(|| "lazy".to_string()) {
        Err(f) => assert_eq!(f.custom_message.as_deref(), Some("lazy")),
        Ok(_) => panic!("failure lost"),
    }
    let ok: Result<i64, TestAssertionFailure> = Ok(1);
    assert!(matches!(ok.with_failure_message(|| "unused".to_string()), Ok(1)));
}

#[test]
fn render_appends_the_custom_message() {
    let plain = TestAssertionFailure::create("desc".to_string());
    assert_eq!(plain.render(), "desc");
    let mut with_message = TestAssertionFailure::create("desc".to_string());
    with_message.custom_message = Some("extra".to_string());
    assert_eq!(with_message.render(), "desc\nextra");
}

#[test]
fn and_log_failure_accepts_both_outcomes() {
    let ok: Result<i64, TestAssertionFailure> = Ok(1);
    ok.and_log_failure();
    let err: Result<i64, TestAssertionFailure> =
        Err(TestAssertionFailure::create("logged".to_string()));
    err.and_log_failure();
}

#[test]
fn into_test_result_maps_an_anyhow_error() {
    let failing: Result<i64, anyhow::Error> = Err(anyhow::Error::msg("boom"));
    match failing.into_test_result() {
        Err(f) => {
            assert_eq!(f.description, "boom");
            assert!(f.custom_message.is_none());
        }
        Ok(_) => panic!("error lost"),
    }
    let passing: Result<i64, anyhow::Error> = Ok(3);
    assert!(matches!(passing.into_test_result(), Ok(3)));
}
