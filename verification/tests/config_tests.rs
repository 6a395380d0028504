use llm_gateway::config::{
    default_burst, default_quota, default_quota_window_secs, default_rps, default_service_name,
    parse_tenant_quotas, tenant_of, ApiKeyExtractor, AppConfig, RateLimitConfigError,
};

fn base_config() -> AppConfig {
    AppConfig {
        listen_addr: "0.0.0.0:8080".to_string(),
        openai_api_key: "k".to_string(),
        openai_base_url: None,
        rps: default_rps(),
        burst: default_burst(),
        redis_url: None,
        default_quota: default_quota(),
        quota_window_secs: default_quota_window_secs(),
        tenant_quotas: vec![],
        timeout_secs: None,
        max_concurrency: None,
        otlp_endpoint: None,
        service_name: default_service_name(),
    }
}

#[test]
fn defaults_have_their_documented_values() {
    assert_eq!(default_rps(), 5);
    assert_eq!(default_burst(), 10);
    assert_eq!(default_quota(), 120);
    assert_eq!(default_quota_window_secs(), 60);
    assert_eq!(default_service_name().as_str(), "secure-llm-gateway");
}

#[test]
fn tenant_quotas_parse_pairs_and_drop_malformed_ones() {
    let parsed = parse_tenant_quotas("alice=3, bob = 7 ,=9,carol,dave=abc,eve=10".to_string());
    let view: Vec<(&str, u32)> = parsed.iter().map(|p| (p.0.as_str(), p.1)).collect();
    assert_eq!(view, vec![("alice", 3), ("bob", 7), ("eve", 10)]);
}

#[test]
fn tenant_quotas_empty_and_overflow_cases() {
    assert!(parse_tenant_quotas("".to_string()).is_empty());
    assert!(parse_tenant_quotas("a=99999999999999999999".to_string()).is_empty());
    let parsed = parse_tenant_quotas("a=4294967295".to_string());
    assert_eq!(parsed[0].1, u32::MAX);
}

#[test]
fn rate_limit_params_reject_zero_values() {
    let mut cfg = base_config();
    assert_eq!(cfg.rate_limit_params(), Ok((5, 10)));
    cfg.rps = 0;
    assert_eq!(cfg.rate_limit_params(), Err(RateLimitConfigError::ZeroRps));
    cfg.rps = 5;
    cfg.burst = 0;
    assert_eq!(cfg.rate_limit_params(), Err(RateLimitConfigError::ZeroBurst));
}

#[test]
fn optional_stages_need_positive_values() {
    let mut cfg = base_config();
    assert_eq!(cfg.timeout_stage(), None);
    assert_eq!(cfg.concurrency_stage(), None);
    cfg.timeout_secs = Some(0);
    cfg.max_concurrency = Some(0);
    assert_eq!(cfg.timeout_stage(), None);
    assert_eq!(cfg.concurrency_stage(), None);
    cfg.timeout_secs = Some(30);
    cfg.max_concurrency = Some(64);
    assert_eq!(cfg.timeout_stage(), Some(30));
    assert_eq!(cfg.concurrency_stage(), Some(64));
}

#[test]
fn rate_limit_key_prefers_the_api_key() {
    let ex = ApiKeyExtractor;
    assert_eq!(
        ex.extract_key(Some("secret"), Some("10.0.0.1"), "/v1/chat/completions").as_str(),
        "key:secret"
    );
    assert_eq!(
        ex.extract_key(Some(""), Some("10.0.0.1"), "/v1/chat/completions").as_str(),
        "ip:10.0.0.1:/v1/chat/completions"
    );
    assert_eq!(ex.extract_key(None, None, "/healthz").as_str(), "ip:unknown:/healthz");
}

#[test]
fn tenant_identity_falls_back_to_origin_and_path() {
    assert_eq!(
        tenant_of(Some("acme"), Some("10.0.0.1"), "/v1/chat/completions").as_str(),
        "acme"
    );
    assert_eq!(
        tenant_of(Some(""), Some("10.0.0.1"), "/v1/chat/completions").as_str(),
        "ip:10.0.0.1:/v1/chat/completions"
    );
    assert_eq!(
        tenant_of(None, None, "/v1/chat/completions").as_str(),
        "ip:unknown:/v1/chat/completions"
    );
}

#[test]
fn keyless_tenant_matches_the_rate_limit_key() {
    let ex = ApiKeyExtractor;
    let from_quota = tenant_of(Some(""), Some("10.0.0.1"), "/v1/chat/completions");
    let from_limiter = ex.extract_key(Some(""), Some("10.0.0.1"), "/v1/chat/completions");
    assert_eq!(from_quota.as_str(), from_limiter.as_str());
}
