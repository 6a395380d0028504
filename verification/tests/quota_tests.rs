use llm_gateway::quota::{
    apply_increment_outcome, quota_key, response_status, should_set_expiry, QuotaError,
    QuotaManager,
};

fn plain_manager(default_quota: u32) -> QuotaManager {
    QuotaManager::new(default_quota, 60, vec![])
}

#[test]
fn first_two_calls_pass_third_is_exceeded_fresh_window_passes() {
    let m = plain_manager(2);
    let limit = match m.pre_check("tenant-a") {
        Ok(l) => l,
        Err(_) => panic!("limit 2 must pass the pre-check"),
    };
    assert_eq!(limit, 2);
    assert!(apply_increment_outcome(limit, &Ok(1)).is_ok());
    assert!(apply_increment_outcome(limit, &Ok(2)).is_ok());
    match apply_increment_outcome(limit, &Ok(3)) {
        Err(QuotaError::Exceeded { limit, current }) => {
            assert_eq!(limit, 2);
            assert_eq!(current, 3);
        }
        _ => panic!("third call within the window must be rejected"),
    }
    // After the window elapses the store starts a fresh count at 1.
    assert!(apply_increment_outcome(limit, &Ok(1)).is_ok());
}

#[test]
fn zero_limit_always_fails() {
    let m = QuotaManager::new(5, 60, vec![("blocked".to_string(), 0)]);
    for _ in 0..3 {
        match m.pre_check("blocked") {
            Err(QuotaError::Exceeded { limit, current }) => {
                assert_eq!(limit, 0);
                assert_eq!(current, 0);
            }
            _ => panic!("a zero limit must always block"),
        }
    }
    // Other tenants keep the default limit.
    assert!(m.pre_check("other").is_ok());
}

#[test]
fn override_beats_default_and_last_entry_wins() {
    let m = QuotaManager::new(
        10,
        60,
        vec![("a".to_string(), 3), ("b".to_string(), 7), ("a".to_string(), 4)],
    );
    assert_eq!(m.limit_for("a"), 4);
    assert_eq!(m.limit_for("b"), 7);
    assert_eq!(m.limit_for("c"), 10);
}

#[test]
fn backend_failure_is_distinct_from_exhaustion() {
    match apply_increment_outcome(2, &Err("connection refused".to_string())) {
        Err(QuotaError::Backend(msg)) => assert_eq!(msg.as_str(), "connection refused"),
        _ => panic!("a store failure must surface as a backend error"),
    }
}

#[test]
fn oversized_count_is_clamped_in_the_report() {
    match apply_increment_outcome(2, &Ok(i64::MAX)) {
        Err(QuotaError::Exceeded { limit, current }) => {
            assert_eq!(limit, 2);
            assert_eq!(current, u32::MAX);
        }
        _ => panic!("a huge count must be rejected"),
    }
}

#[test]
fn expiry_is_set_only_on_the_first_increment() {
    assert!(should_set_expiry(1));
    assert!(!should_set_expiry(2));
    assert!(!should_set_expiry(0));
}

#[test]
fn quota_failures_map_to_distinct_statuses() {
    let exceeded = QuotaError::Exceeded { limit: 2, current: 3 };
    let backend = QuotaError::Backend("down".to_string());
    assert_eq!(response_status(&exceeded), 429);
    assert_eq!(response_status(&backend), 500);
}

#[test]
fn quota_keys_are_namespaced_by_tenant() {
    assert_eq!(quota_key("alice").as_str(), "quota:alice");
    assert_eq!(quota_key("").as_str(), "quota:");
}
