use rustspell_server::auth::{
    require_active_tenant, require_admin, require_key_present, require_key_valid,
    require_no_origin, require_origin_binding, require_quota, require_usage_scope,
    retry_after_secs, OriginHeader, RateLimiter, UsageScope,
};
use rustspell_server::config::IpValue;
use rustspell_server::error::AppError;
use rustspell_server::store::{
    new_tenant_record, KeyRecord, OriginCache, OriginInfo, Role, TenantCache, TenantPatch,
};

fn v4(a: u8, b: u8, c: u8, d: u8) -> IpValue {
    IpValue::V4(u32::from_be_bytes([a, b, c, d]))
}

#[test]
fn rate_limiter_allows_until_threshold() {
    let mut limiter = RateLimiter::new(3, 60_000, 60_000);
    let ip = v4(127, 0, 0, 1);

    assert!(limiter.check(ip, 0).is_ok());
    limiter.record_failure(ip, 0);
    assert!(limiter.check(ip, 0).is_ok());
    limiter.record_failure(ip, 0);
    assert!(limiter.check(ip, 0).is_ok());
    limiter.record_failure(ip, 0);

    assert!(limiter.check(ip, 0).is_err(), "should be in cooldown at threshold");
}

#[test]
fn rate_limiter_tracks_ips_independently() {
    let mut limiter = RateLimiter::new(1, 60_000, 60_000);
    let ip_a = v4(10, 0, 0, 1);
    let ip_b = v4(10, 0, 0, 2);

    limiter.record_failure(ip_a, 0);
    assert!(limiter.check(ip_a, 0).is_err());
    assert!(limiter.check(ip_b, 0).is_ok());
}

#[test]
fn rate_limiter_forgets_old_failures_and_ends_cooldowns() {
    let mut limiter = RateLimiter::new(2, 1_000, 5_000);
    let ip = v4(192, 0, 2, 1);
    limiter.record_failure(ip, 0);
    // The first failure has left the window by now.
    limiter.record_failure(ip, 1_500);
    assert!(limiter.check(ip, 1_500).is_ok());
    limiter.record_failure(ip, 2_000);
    assert_eq!(limiter.check(ip, 2_000), Err(5_000));
    assert_eq!(limiter.check(ip, 6_999), Err(1));
    assert!(limiter.check(ip, 7_000).is_ok());
}

#[test]
fn retry_after_is_at_least_one_second() {
    assert_eq!(retry_after_secs(0), 1);
    assert_eq!(retry_after_secs(999), 1);
    assert_eq!(retry_after_secs(59_999), 59);
}

fn key(role: Role, tenant: Option<&str>) -> KeyRecord {
    KeyRecord {
        id: "k1".to_string(),
        tenant_id: tenant.map(|t| t.to_string()),
        label: "default".to_string(),
        role,
        key_hash: "h".to_string(),
        created_at: 0,
        expires_at: None,
        last_used_at: None,
        revoked_at: None,
    }
}

#[test]
fn repeated_missing_keys_from_one_ip_get_rate_limited() {
    let mut limiter = RateLimiter::new(2, 60_000, 30_000);
    let ip = v4(10, 1, 1, 1);
    assert!(matches!(require_key_present(&mut limiter, ip, 0, None), Err(AppError::Unauthorized)));
    assert!(matches!(require_key_valid(&mut limiter, ip, 10, None, false), Err(AppError::Unauthorized)));
    match require_key_present(&mut limiter, ip, 20, Some("rsk_x".to_string())) {
        Err(AppError::RateLimited { retry_after_secs }) => assert_eq!(retry_after_secs, 29),
        _ => panic!("expected a rate-limited refusal"),
    }
    // Another IP is unaffected.
    assert_eq!(require_key_present(&mut limiter, v4(10, 1, 1, 2), 20, Some("k".to_string())).unwrap(), "k");
}

#[test]
fn platform_routes_refuse_other_roles_and_any_origin() {
    let mut limiter = RateLimiter::new(10, 60_000, 60_000);
    let ip = v4(10, 0, 0, 9);
    assert!(matches!(
        require_key_valid(&mut limiter, ip, 0, Some(key(Role::Admin, Some("t1"))), true),
        Err(AppError::Forbidden)
    ));
    assert!(require_key_valid(&mut limiter, ip, 0, Some(key(Role::Platform, None)), true).is_ok());
    assert!(require_key_valid(&mut limiter, ip, 0, Some(key(Role::Standard, Some("t1"))), false).is_ok());
    assert!(require_no_origin(&OriginHeader::Absent).is_ok());
    assert!(require_no_origin(&OriginHeader::Invalid).is_err());
    assert!(require_no_origin(&OriginHeader::Value("https://a.example".to_string())).is_err());
    assert!(require_admin(Role::Admin).is_ok());
    assert!(require_admin(Role::Platform).is_err());
    assert!(require_admin(Role::Standard).is_err());
}

fn origin(tenant: &str, o: &str) -> OriginInfo {
    OriginInfo { id: format!("{tenant}-{o}"), tenant_id: tenant.to_string(), origin: o.to_string(), created_at: 0 }
}

#[test]
fn origin_binding_requires_the_callers_own_registration() {
    let mut origins = OriginCache::new();
    origins.register_origin(origin("t1", "https://one.example"));
    origins.register_origin(origin("t2", "https://two.example"));
    assert!(require_origin_binding(&OriginHeader::Absent, "t1", &origins).is_ok());
    assert!(require_origin_binding(&OriginHeader::Value("https://one.example".to_string()), "t1", &origins).is_ok());
    assert!(require_origin_binding(&OriginHeader::Value("https://two.example".to_string()), "t1", &origins).is_err());
    assert!(require_origin_binding(&OriginHeader::Value("https://none.example".to_string()), "t1", &origins).is_err());
    assert!(require_origin_binding(&OriginHeader::Invalid, "t1", &origins).is_err());
}

#[test]
fn suspended_tenants_and_usage_scopes() {
    let mut tenants = TenantCache::new();
    tenants.insert(new_tenant_record("t1".to_string(), "One".to_string(), None, Some(2), None, None, 0));
    tenants.insert(new_tenant_record("t2".to_string(), "Two".to_string(), None, None, None, None, 0));
    let origins = OriginCache::new();
    assert!(require_active_tenant(&tenants, "t1").is_ok());
    assert!(require_active_tenant(&tenants, "missing").is_ok());
    assert!(tenants.set_suspended("t2", Some(100)));
    assert!(require_active_tenant(&tenants, "t2").is_err());

    match require_usage_scope(&key(Role::Admin, Some("t1")), &OriginHeader::Absent, &tenants, &origins) {
        Ok(UsageScope::Tenant(t)) => assert_eq!(t, "t1"),
        _ => panic!("admin should read its own tenant"),
    }
    assert!(matches!(
        require_usage_scope(&key(Role::Platform, None), &OriginHeader::Absent, &tenants, &origins),
        Ok(UsageScope::Platform)
    ));
    assert!(require_usage_scope(&key(Role::Standard, Some("t1")), &OriginHeader::Absent, &tenants, &origins).is_err());
    assert!(require_usage_scope(&key(Role::Admin, Some("t2")), &OriginHeader::Absent, &tenants, &origins).is_err());
    assert!(require_usage_scope(&key(Role::Admin, Some("t1")), &OriginHeader::Invalid, &tenants, &origins).is_err());
    assert!(require_usage_scope(&key(Role::Platform, None), &OriginHeader::Value("x".to_string()), &tenants, &origins).is_err());

    // The quota of t1 is two requests.
    assert_eq!(require_quota(&mut tenants, "t1").unwrap(), 1);
    assert_eq!(require_quota(&mut tenants, "t1").unwrap(), 2);
    assert!(matches!(require_quota(&mut tenants, "t1"), Err(AppError::QuotaExceeded)));
    assert!(require_quota(&mut tenants, "unknown").is_err());
    let patch = TenantPatch { name: None, language: None, quota_limit: Some(3), request_count: None, period_start: None, period_end: None };
    assert!(tenants.update_tenant("t1", &patch).is_some());
    assert_eq!(require_quota(&mut tenants, "t1").unwrap(), 3);
}
