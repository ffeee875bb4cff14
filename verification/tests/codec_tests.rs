use identity_core::b64::b64url_decode;
use identity_core::b64::b64url_encode;
use identity_core::error::db_error_message;
use identity_core::error::AppError;
use identity_core::error::DbErrorKind;
use identity_core::error::FieldError;
use identity_core::error::ValidationErrors;

fn encode_str(bytes: &[u8]) -> String {
    let v: Vec<u8> = bytes.to_vec();
    b64url_encode(&v).into_iter().collect()
}

fn decode_str(text: &str) -> Option<Vec<u8>> {
    let chars: Vec<char> = text.chars().collect();
    b64url_decode(&chars)
}

#[test]
fn base64url_matches_known_vectors() {
    assert_eq!(encode_str(b""), "");
    assert_eq!(encode_str(b"f"), "Zg");
    assert_eq!(encode_str(b"fo"), "Zm8");
    assert_eq!(encode_str(b"foo"), "Zm9v");
    assert_eq!(encode_str(b"foob"), "Zm9vYg");
    assert_eq!(encode_str(b"fooba"), "Zm9vYmE");
    assert_eq!(encode_str(b"foobar"), "Zm9vYmFy");
    // the url-safe alphabet for the high sextets
    assert_eq!(encode_str(&[0xfb, 0xff]), "-_8");
}

#[test]
fn base64url_round_trips() {
    let samples: Vec<Vec<u8>> = vec![
        vec![],
        vec![0],
        vec![255],
        vec![1, 2, 3],
        vec![250, 251, 252, 253],
        (0u8..=255).collect(),
    ];
    for bytes in samples {
        let encoded = b64url_encode(&bytes);
        let decoded = b64url_decode(&encoded).unwrap();
        assert_eq!(decoded, bytes);
    }
}

#[test]
fn base64url_decode_accepts_only_canonical_text() {
    // a single leftover char can never be an encoding
    assert!(decode_str("A").is_none());
    assert!(decode_str("AAAAA").is_none());
    // padding and foreign chars are not part of the unpadded alphabet
    assert!(decode_str("Zg==").is_none());
    assert!(decode_str("Zm9v!").is_none());
    assert!(decode_str("Z g").is_none());
    // nonzero trailing bits are rejected, not silently dropped
    assert!(decode_str("AB").is_none());
    assert!(decode_str("AAB").is_none());
    // their canonical spellings decode fine
    assert!(decode_str("AA").is_some());
    assert!(decode_str("AAA").is_some());
}

#[test]
fn error_status_codes_follow_the_taxonomy() {
    assert_eq!(AppError::HashError.status_code(), 500);
    assert_eq!(AppError::InvalidFormat.status_code(), 400);
    assert_eq!(AppError::InvalidVersion.status_code(), 400);
    assert_eq!(AppError::HeaderNotFound.status_code(), 401);
    assert_eq!(AppError::InvalidToken.status_code(), 401);
    assert_eq!(AppError::Forbidden.status_code(), 403);
    assert_eq!(AppError::TimeError.status_code(), 500);
    assert_eq!(AppError::TokenEncodeError.status_code(), 500);
    assert_eq!(AppError::Database(DbErrorKind::NotFound).status_code(), 404);
    assert_eq!(AppError::Database(DbErrorKind::UniqueViolation).status_code(), 409);
    assert_eq!(AppError::Database(DbErrorKind::ForeignKeyViolation).status_code(), 400);
    assert_eq!(AppError::Database(DbErrorKind::Other).status_code(), 500);
    let v = ValidationErrors::new(Vec::new());
    assert_eq!(AppError::ValidationError(v).status_code(), 400);
}

#[test]
fn database_error_messages_are_fixed() {
    assert_eq!(db_error_message(DbErrorKind::NotFound), "The resource does not exist");
    assert_eq!(db_error_message(DbErrorKind::UniqueViolation), "The resource already exists");
    assert_eq!(
        db_error_message(DbErrorKind::ForeignKeyViolation),
        "Reference to a resource that does not exist"
    );
    assert_eq!(db_error_message(DbErrorKind::Other), "Internal Server Error");
}

#[test]
fn validation_errors_keep_their_entries() {
    let entry = FieldError { field: "name".to_owned(), messages: vec!["empty".to_owned()] };
    let v = ValidationErrors::new(vec![entry]);
    assert_eq!(v.errors.len(), 1);
    assert_eq!(v.errors[0].field, "name");
    assert_eq!(v.errors[0].messages, vec!["empty".to_owned()]);
}

#[test]
fn client_secrets_are_32_alphanumeric_chars() {
    let a = identity_core::crypto::generate_client_secret();
    let b = identity_core::crypto::generate_client_secret();
    assert_eq!(a.len(), 32);
    assert!(a.chars().all(|c| c.is_ascii_alphanumeric()));
    // two draws almost surely differ; equal draws would hint at a broken generator
    assert_ne!(a, b);
}

#[test]
fn password_hash_verifies_only_the_right_password() {
    let digest = identity_core::crypto::hash_password("correct horse").unwrap();
    assert!(identity_core::crypto::verify_password("correct horse", digest.as_str()));
    assert!(!identity_core::crypto::verify_password("wrong horse", digest.as_str()));
    assert!(!identity_core::crypto::verify_password("correct horse", "not-a-digest"));
}
