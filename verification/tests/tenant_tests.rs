use identity_core::config::Env;
use identity_core::error::AppError;
use identity_core::id::new_uuid;
use identity_core::id::IdGenerator;
use identity_core::tenant::create_application;
use identity_core::tenant::register_admin;
use identity_core::tenant::upsert_scope;
use identity_core::tenant::validate_application_scopes;
use identity_core::tenant::validate_register_admin;
use identity_core::tenant::ApplicationScope;
use identity_core::tenant::Permission;

fn make_env() -> Env {
    Env {
        database_url: String::new(),
        admin_access_token_duration_in_minutes: 15,
        postgres_max_connections: 20,
        postgres_acquire_timeout_in_secs: 3,
        rate_limiter_gc_max_memory_in_mb: 64,
        user_access_token_duration_in_minutes: 30,
        admin_jwt_secret: "tenant-admin-secret".to_owned(),
        user_jwt_secret: "tenant-user-secret".to_owned(),
    }
}

fn field_of(e: AppError) -> Vec<(String, Vec<String>)> {
    match e {
        AppError::ValidationError(v) => v
            .errors
            .into_iter()
            .map(|f| (f.field, f.messages))
            .collect(),
        _ => panic!("expected a validation error"),
    }
}

#[test]
fn admin_registration_validation_is_exact() {
    assert!(validate_register_admin("admin1", "secret1").is_ok());
    assert!(validate_register_admin("abcdef", "abcdef").is_ok());

    let e = validate_register_admin("short", "long-enough").unwrap_err();
    let fields = field_of(e);
    assert_eq!(fields.len(), 1);
    assert_eq!(fields[0].0, "username");
    assert_eq!(fields[0].1, vec!["Should have from 6 to 50 characters".to_owned()]);

    let e = validate_register_admin("long-enough", "short").unwrap_err();
    let fields = field_of(e);
    assert_eq!(fields.len(), 1);
    assert_eq!(fields[0].0, "password");

    let e = validate_register_admin("x", "y").unwrap_err();
    let fields = field_of(e);
    assert_eq!(fields.len(), 2);
    assert_eq!(fields[0].0, "username");
    assert_eq!(fields[1].0, "password");

    // 51 chars is over the limit
    let long = "a".repeat(51);
    assert!(validate_register_admin(long.as_str(), "secret1").is_err());
    let edge = "a".repeat(50);
    assert!(validate_register_admin(edge.as_str(), "secret1").is_ok());
}

#[test]
fn register_admin_produces_identifier_and_token() {
    let env = make_env();
    let mut gen = IdGenerator::new();
    let reg = register_admin("some-admin", "some-password", &mut gen, &env).unwrap();
    assert_eq!(reg.user_id_text, reg.user_id.to_uuid_string());
    let parsed = identity_core::id::parse_uuid(reg.user_id_text.as_str()).unwrap();
    assert_eq!(parsed, reg.user_id);
    let claims =
        identity_core::jwt::decode_admin_token(reg.access_token.as_str(), &env).unwrap();
    assert_eq!(claims.sub, reg.user_id_text);
    assert_eq!(claims.user_type, "admin");
    assert!(identity_core::crypto::verify_password(
        "some-password",
        reg.password_hash.as_str()
    ));
}

#[test]
fn register_admin_rejects_invalid_request_before_any_work() {
    let env = make_env();
    let mut gen = IdGenerator::new();
    let r = register_admin("x", "some-password", &mut gen, &env);
    assert!(matches!(r, Err(AppError::ValidationError(_))));
}

#[test]
fn application_creation_rejects_empty_redirect_uris() {
    let mut gen = IdGenerator::new();
    let project = new_uuid(&mut gen).to_uuid_string();
    let uris: Vec<String> = Vec::new();
    let r = create_application(project.as_str(), &uris, &mut gen);
    let fields = field_of(r.unwrap_err());
    assert_eq!(fields.len(), 1);
    assert_eq!(fields[0].0, "redirect_uris");
    assert_eq!(fields[0].1, vec!["empty".to_owned()]);
}

#[test]
fn application_creation_validates_project_identifier() {
    let mut gen = IdGenerator::new();
    let uris = vec!["https://example.test/callback".to_owned()];
    assert!(matches!(
        create_application("junk", &uris, &mut gen),
        Err(AppError::InvalidFormat)
    ));
    assert!(matches!(
        create_application("123e4567-e89b-42d3-a456-426614174000", &uris, &mut gen),
        Err(AppError::InvalidVersion)
    ));
}

#[test]
fn application_creation_prepares_fresh_credentials() {
    let mut gen = IdGenerator::new();
    let project = new_uuid(&mut gen).to_uuid_string();
    let uris = vec!["https://example.test/callback".to_owned()];
    let record = create_application(project.as_str(), &uris, &mut gen).unwrap();
    assert_ne!(record.client_id, record.application_id);
    assert_eq!(record.raw_client_secret.len(), 32);
    assert!(record
        .raw_client_secret
        .chars()
        .all(|c| c.is_ascii_alphanumeric()));
    assert!(identity_core::crypto::verify_password(
        record.raw_client_secret.as_str(),
        record.client_secret_hash.as_str()
    ));
}

#[test]
fn scope_validation_is_exact() {
    let empty: Vec<ApplicationScope> = Vec::new();
    assert!(validate_application_scopes(&empty).is_err());

    let bad_name = vec![ApplicationScope { name: String::new(), description: "d".to_owned() }];
    assert!(validate_application_scopes(&bad_name).is_err());

    let bad_desc = vec![ApplicationScope { name: "read".to_owned(), description: String::new() }];
    let e = validate_application_scopes(&bad_desc).unwrap_err();
    let fields = field_of(e);
    assert_eq!(fields[0].0, "application_scopes");
    assert_eq!(fields[0].1, vec!["empty or something".to_owned()]);

    let good = vec![
        ApplicationScope { name: "read".to_owned(), description: "read access".to_owned() },
        ApplicationScope { name: "write".to_owned(), description: "write access".to_owned() },
    ];
    assert!(validate_application_scopes(&good).is_ok());
}

#[test]
fn scope_upsert_updates_description_without_duplicating() {
    let mut gen = IdGenerator::new();
    let app_id = new_uuid(&mut gen);
    let mut perms: Vec<Permission> = Vec::new();

    let first_id = new_uuid(&mut gen);
    let updated = upsert_scope(
        &mut perms,
        first_id,
        app_id,
        "read".to_owned(),
        "old description".to_owned(),
    );
    assert!(!updated);
    assert_eq!(perms.len(), 1);

    // the second upsert of the same name updates the description in place
    let second_id = new_uuid(&mut gen);
    let updated = upsert_scope(
        &mut perms,
        second_id,
        app_id,
        "read".to_owned(),
        "new description".to_owned(),
    );
    assert!(updated);
    assert_eq!(perms.len(), 1);
    assert_eq!(perms[0].description, "new description");
    // the original identifier survives the upsert
    assert_eq!(perms[0].id, first_id);

    let third_id = new_uuid(&mut gen);
    let updated = upsert_scope(
        &mut perms,
        third_id,
        app_id,
        "write".to_owned(),
        "write access".to_owned(),
    );
    assert!(!updated);
    assert_eq!(perms.len(), 2);
    assert_eq!(perms[1].name, "write");
}

#[test]
fn user_registration_validates_client_and_mints_identity() {
    let mut gen = IdGenerator::new();
    let client = new_uuid(&mut gen).to_uuid_string();
    let reg =
        identity_core::accounts::register_user(client.as_str(), "hunter2!", &mut gen).unwrap();
    assert_eq!(reg.client_id.to_uuid_string(), client);
    assert!(identity_core::crypto::verify_password(
        "hunter2!",
        reg.password_hash.as_str()
    ));
    assert!(matches!(
        identity_core::accounts::register_user("nope", "hunter2!", &mut gen),
        Err(AppError::InvalidFormat)
    ));
}

#[test]
fn me_lookup_resolves_the_token_subject() {
    let env = make_env();
    let mut gen = IdGenerator::new();
    let identity = new_uuid(&mut gen);
    let token = identity_core::jwt::generate_user_token(
        identity.to_uuid_string().as_str(),
        &env,
    )
    .unwrap();
    let header = format!("Bearer {}", token);
    let resolved =
        identity_core::accounts::resolve_me_subject(Some(header.as_str()), &env).unwrap();
    assert_eq!(resolved, identity);

    assert!(matches!(
        identity_core::accounts::resolve_me_subject(None, &env),
        Err(AppError::HeaderNotFound)
    ));
    assert!(matches!(
        identity_core::accounts::resolve_me_subject(Some("Basic zzz"), &env),
        Err(AppError::InvalidToken)
    ));
}

#[test]
fn me_lookup_is_an_end_user_session() {
    // with distinct secrets an admin token does not open the /me route
    let env = make_env();
    let mut gen = IdGenerator::new();
    let identity = new_uuid(&mut gen);
    let token = identity_core::jwt::generate_admin_token(
        identity.to_uuid_string().as_str(),
        &env,
    )
    .unwrap();
    let header = format!("Bearer {}", token);
    assert!(matches!(
        identity_core::accounts::resolve_me_subject(Some(header.as_str()), &env),
        Err(AppError::InvalidToken)
    ));
}
