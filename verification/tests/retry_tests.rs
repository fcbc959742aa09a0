use s3fcp::retry::run_retry;
use s3fcp::retry::RetryPolicy;
use s3fcp::retry::RetryState;

#[test]
fn test_retry_succeeds_after_transient_failures() {
    let outcomes: Vec<Result<Vec<u8>, String>> = vec![
        Err(String::from("timeout")),
        Err(String::from("reset")),
        Ok(vec![1, 2, 3]),
    ];
    let (result, attempts) = run_retry(outcomes, 3);
    assert_eq!(result.unwrap(), vec![1, 2, 3]);
    assert_eq!(attempts, 3);
}

#[test]
fn test_retry_first_attempt_wins() {
    let outcomes: Vec<Result<Vec<u8>, String>> = vec![
        Ok(vec![7]),
        Err(String::from("never seen")),
        Ok(vec![9]),
    ];
    let (result, attempts) = run_retry(outcomes, 3);
    assert_eq!(result.unwrap(), vec![7]);
    assert_eq!(attempts, 1);
}

#[test]
fn test_retry_exhausts_and_surfaces_last_error() {
    let outcomes: Vec<Result<Vec<u8>, String>> = vec![
        Err(String::from("one")),
        Err(String::from("two")),
        Err(String::from("three")),
        Ok(vec![1]),
    ];
    let (result, attempts) = run_retry(outcomes, 3);
    assert_eq!(result.unwrap_err(), "three");
    assert_eq!(attempts, 3);
}

#[test]
fn test_retry_state_counts_and_delays() {
    let policy = RetryPolicy::standard();
    assert_eq!(policy.max_attempts, 3);
    let mut state = RetryState::new(policy);
    assert!(state.can_attempt());
    assert_eq!(state.on_failure(), Some(100));
    assert_eq!(state.on_failure(), Some(200));
    assert_eq!(state.on_failure(), None);
    assert!(!state.can_attempt());
    assert_eq!(state.failures, 3);
}

#[test]
fn test_backoff_doubles_and_caps() {
    let policy = RetryPolicy { max_attempts: 10, min_delay_ms: 100, max_delay_ms: 5000 };
    assert_eq!(policy.delay_after(1), 100);
    assert_eq!(policy.delay_after(2), 200);
    assert_eq!(policy.delay_after(3), 400);
    assert_eq!(policy.delay_after(4), 800);
    assert_eq!(policy.delay_after(5), 1600);
    assert_eq!(policy.delay_after(6), 3200);
    assert_eq!(policy.delay_after(7), 5000);
    assert_eq!(policy.delay_after(8), 5000);
}
