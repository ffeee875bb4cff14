use identity_core::claims::PrincipalKind;
use identity_core::config::Env;
use identity_core::error::AppError;
use identity_core::guard::get_jwt_token;
use identity_core::guard::validate_admin_api_key;
use identity_core::guard::validate_admin_request;
use identity_core::jwt::issue_token_at;

fn make_env(admin_secret: &str, user_secret: &str) -> Env {
    Env {
        database_url: String::new(),
        admin_access_token_duration_in_minutes: 15,
        postgres_max_connections: 20,
        postgres_acquire_timeout_in_secs: 3,
        rate_limiter_gc_max_memory_in_mb: 64,
        user_access_token_duration_in_minutes: 30,
        admin_jwt_secret: admin_secret.to_owned(),
        user_jwt_secret: user_secret.to_owned(),
    }
}

#[test]
fn missing_header_is_header_not_found() {
    let env = make_env("guard-secret", "user-secret");
    let r = validate_admin_api_key(None, 1_700_000_000, &env);
    assert!(matches!(r, Err(AppError::HeaderNotFound)));
}

#[test]
fn malformed_headers_are_invalid_token() {
    let env = make_env("guard-secret", "user-secret");
    let now = 1_700_000_000u64;
    for bad in ["", "Bearer", "Bearer ", "Basic abc", "Bearer a b", "bearer abc", "Bearer  "] {
        let r = validate_admin_api_key(Some(bad), now, &env);
        assert!(matches!(r, Err(AppError::InvalidToken)));
    }
}

#[test]
fn expired_admin_token_is_invalid_token() {
    let env = make_env("guard-secret", "user-secret");
    let issue_time = 1_700_000_000u64;
    let token = issue_token_at("admin-9", PrincipalKind::Admin, issue_time, &env);
    let header = format!("Bearer {}", token);
    let after_expiry = issue_time + 15 * 60 + 1;
    let r = validate_admin_api_key(Some(header.as_str()), after_expiry, &env);
    assert!(matches!(r, Err(AppError::InvalidToken)));
}

#[test]
fn user_token_under_distinct_secrets_is_invalid_token() {
    let env = make_env("guard-secret", "user-secret");
    let now = 1_700_000_000u64;
    let token = issue_token_at("user-3", PrincipalKind::User, now, &env);
    let header = format!("Bearer {}", token);
    let r = validate_admin_api_key(Some(header.as_str()), now, &env);
    assert!(matches!(r, Err(AppError::InvalidToken)));
}

#[test]
fn validly_signed_user_token_is_forbidden() {
    // with one shared secret the user token is validly signed for the
    // guard's verifier, and the kind check alone must reject it
    let env = make_env("shared-secret", "shared-secret");
    let now = 1_700_000_000u64;
    let token = issue_token_at("user-3", PrincipalKind::User, now, &env);
    let header = format!("Bearer {}", token);
    let r = validate_admin_api_key(Some(header.as_str()), now, &env);
    assert!(matches!(r, Err(AppError::Forbidden)));
}

#[test]
fn valid_admin_token_passes_and_forwards_subject() {
    let env = make_env("guard-secret", "user-secret");
    let now = 1_700_000_000u64;
    let token = issue_token_at("admin-77", PrincipalKind::Admin, now, &env);
    let header = format!("Bearer {}", token);
    let sub = validate_admin_api_key(Some(header.as_str()), now, &env).unwrap();
    assert_eq!(sub, "admin-77");
}

#[test]
fn clock_based_guard_reports_missing_header_first() {
    let env = make_env("guard-secret", "user-secret");
    assert!(matches!(
        validate_admin_request(None, &env),
        Err(AppError::HeaderNotFound)
    ));
    assert!(matches!(
        validate_admin_request(Some("Basic abc"), &env),
        Err(AppError::InvalidToken)
    ));
}

#[test]
fn clock_based_guard_accepts_fresh_admin_token() {
    let env = make_env("guard-secret", "user-secret");
    let token = identity_core::jwt::generate_admin_token("admin-5", &env).unwrap();
    let header = format!("Bearer {}", token);
    let sub = validate_admin_request(Some(header.as_str()), &env).unwrap();
    assert_eq!(sub, "admin-5");
}

#[test]
fn bearer_extraction_is_exact() {
    assert!(matches!(get_jwt_token(None), Err(AppError::HeaderNotFound)));
    assert!(matches!(get_jwt_token(Some("Bearer abc.def.ghi")), Ok(t) if t == "abc.def.ghi"));
    assert!(matches!(get_jwt_token(Some("Bearer  abc")), Err(AppError::InvalidToken)));
    assert!(matches!(get_jwt_token(Some("Token abc")), Err(AppError::InvalidToken)));
}
