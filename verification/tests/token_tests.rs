use identity_core::claims::PrincipalKind;
use identity_core::config::Env;
use identity_core::error::AppError;
use identity_core::jwt::decode_admin_token;
use identity_core::jwt::decode_user_token;
use identity_core::jwt::generate_admin_token;
use identity_core::jwt::generate_user_token;
use identity_core::jwt::issue_token_at;
use identity_core::jwt::verify_token_at;

fn make_env(admin_secret: &str, user_secret: &str, admin_mins: u8, user_mins: u8) -> Env {
    Env {
        database_url: String::new(),
        admin_access_token_duration_in_minutes: admin_mins,
        postgres_max_connections: 20,
        postgres_acquire_timeout_in_secs: 3,
        rate_limiter_gc_max_memory_in_mb: 64,
        user_access_token_duration_in_minutes: user_mins,
        admin_jwt_secret: admin_secret.to_owned(),
        user_jwt_secret: user_secret.to_owned(),
    }
}

#[test]
fn issued_admin_token_verifies_and_round_trips() {
    let env = make_env("SECRET-REDACTED", "other-secret", 15, 30);
    let now = 1_700_000_000u64;
    let token = issue_token_at("user-42", PrincipalKind::Admin, now, &env);
    let claims = verify_token_at(token.as_str(), PrincipalKind::Admin, now, &env).unwrap();
    assert_eq!(claims.sub, "user-42");
    assert_eq!(claims.user_type, "admin");
    assert_eq!(claims.exp, now + 15 * 60);
}

#[test]
fn issued_user_token_verifies_with_user_duration() {
    let env = make_env("SECRET-REDACTED", "other-secret", 15, 30);
    let now = 1_700_000_000u64;
    let token = issue_token_at("id-7", PrincipalKind::User, now, &env);
    let claims = verify_token_at(token.as_str(), PrincipalKind::User, now, &env).unwrap();
    assert_eq!(claims.user_type, "user");
    assert_eq!(claims.exp, now + 30 * 60);
}

#[test]
fn expiry_boundary_is_strict() {
    let env = make_env("SECRET-REDACTED", "other-secret", 15, 30);
    let issue_time = 1_700_000_000u64;
    let exp = issue_time + 15 * 60;
    let token = issue_token_at("subject", PrincipalKind::Admin, issue_time, &env);
    // one second before the expiry the token still verifies
    assert!(verify_token_at(token.as_str(), PrincipalKind::Admin, exp - 1, &env).is_ok());
    // from the expiry second on it is rejected
    assert!(matches!(
        verify_token_at(token.as_str(), PrincipalKind::Admin, exp, &env),
        Err(AppError::InvalidToken)
    ));
    assert!(matches!(
        verify_token_at(token.as_str(), PrincipalKind::Admin, exp + 1, &env),
        Err(AppError::InvalidToken)
    ));
}

#[test]
fn admin_token_fails_under_user_secret() {
    let env = make_env("SECRET-REDACTED", "a-different-secret", 15, 30);
    let now = 1_700_000_000u64;
    let admin_token = issue_token_at("subject", PrincipalKind::Admin, now, &env);
    assert!(matches!(
        verify_token_at(admin_token.as_str(), PrincipalKind::User, now, &env),
        Err(AppError::InvalidToken)
    ));
}

#[test]
fn user_token_fails_under_admin_secret() {
    let env = make_env("SECRET-REDACTED", "a-different-secret", 15, 30);
    let now = 1_700_000_000u64;
    let user_token = issue_token_at("subject", PrincipalKind::User, now, &env);
    assert!(matches!(
        verify_token_at(user_token.as_str(), PrincipalKind::Admin, now, &env),
        Err(AppError::InvalidToken)
    ));
}

#[test]
fn tampered_token_is_rejected() {
    let env = make_env("SECRET-REDACTED", "other-secret", 15, 30);
    let now = 1_700_000_000u64;
    let token = issue_token_at("subject", PrincipalKind::Admin, now, &env);
    let mut tampered: Vec<char> = token.chars().collect();
    let k = tampered.len() - 1;
    tampered[k] = if tampered[k] == 'A' { 'B' } else { 'A' };
    let tampered: String = tampered.into_iter().collect();
    assert!(matches!(
        verify_token_at(tampered.as_str(), PrincipalKind::Admin, now, &env),
        Err(AppError::InvalidToken)
    ));
}

#[test]
fn garbage_tokens_are_rejected() {
    let env = make_env("SECRET-REDACTED", "other-secret", 15, 30);
    let now = 1_700_000_000u64;
    for bad in ["", "abc", "a.b", "a.b.c", "..", "a.b.c.d"] {
        assert!(matches!(
            verify_token_at(bad, PrincipalKind::Admin, now, &env),
            Err(AppError::InvalidToken)
        ));
    }
}

#[test]
fn unicode_subject_round_trips() {
    let env = make_env("SECRET-REDACTED", "other-secret", 15, 30);
    let now = 1_700_000_000u64;
    let sub = "weird \"subject\" \\ with controls \u{1} and plane-two \u{1F600} chars";
    let token = issue_token_at(sub, PrincipalKind::Admin, now, &env);
    let claims = verify_token_at(token.as_str(), PrincipalKind::Admin, now, &env).unwrap();
    assert_eq!(claims.sub, sub);
}

#[test]
fn clock_based_issue_and_decode_agree() {
    let env = make_env("SECRET-REDACTED", "other-secret", 15, 30);
    let token = generate_admin_token("admin-1", &env).unwrap();
    let claims = decode_admin_token(token.as_str(), &env).unwrap();
    assert_eq!(claims.sub, "admin-1");
    assert_eq!(claims.user_type, "admin");

    let token = generate_user_token("user-1", &env).unwrap();
    let claims = decode_user_token(token.as_str(), &env).unwrap();
    assert_eq!(claims.sub, "user-1");
    assert_eq!(claims.user_type, "user");
}

#[test]
fn signature_matches_reference_verifier() {
    // the reference HS256 verifier accepts the signature this service puts
    // on its tokens
    let env = make_env("SECRET-REDACTED", "other-secret", 15, 30);
    let now = 1_700_000_000u64;
    let token = issue_token_at("subject", PrincipalKind::Admin, now, &env);
    let parts: Vec<&str> = token.split('.').collect();
    assert_eq!(parts.len(), 3);
    let message = format!("{}.{}", parts[0], parts[1]);
    let key = jsonwebtoken::DecodingKey::from_secret(env.admin_jwt_secret.as_bytes());
    let ok = jsonwebtoken::crypto::verify(
        parts[2],
        message.as_bytes(),
        &key,
        jsonwebtoken::Algorithm::HS256,
    )
    .unwrap();
    assert!(ok);
}

#[test]
fn payload_is_standard_json_claims() {
    let env = make_env("SECRET-REDACTED", "other-secret", 15, 30);
    let now = 1_700_000_000u64;
    let token = issue_token_at("user-42", PrincipalKind::Admin, now, &env);
    let parts: Vec<&str> = token.split('.').collect();
    let part: Vec<char> = parts[1].chars().collect();
    let payload = identity_core::b64::b64url_decode(&part).unwrap();
    let payload = String::from_utf8(payload).unwrap();
    assert_eq!(
        payload,
        format!("{{\"sub\":\"user-42\",\"user_type\":\"admin\",\"exp\":{}}}", now + 900)
    );
}
