use identity_core::error::AppError;
use identity_core::id::new_uuid;
use identity_core::id::next_id;
use identity_core::id::parse_uuid;
use identity_core::id::IdGenerator;

#[test]
fn generated_identifiers_strictly_increase() {
    let mut gen = IdGenerator::new();
    let mut last = 0u128;
    for _ in 0..1000 {
        let id = new_uuid(&mut gen);
        assert!(id.as_u128() > last);
        last = id.as_u128();
    }
}

#[test]
fn generated_identifiers_increase_as_byte_strings() {
    let mut gen = IdGenerator::new();
    let mut last = new_uuid(&mut gen);
    for _ in 0..200 {
        let id = new_uuid(&mut gen);
        assert!(id.as_u128().to_be_bytes() > last.as_u128().to_be_bytes());
        last = id;
    }
}

#[test]
fn same_timestamp_calls_stay_ordered() {
    let mut gen = IdGenerator::new();
    let a = next_id(&mut gen, 1_700_000_000_000, 7, 42);
    let b = next_id(&mut gen, 1_700_000_000_000, 7, 42);
    let c = next_id(&mut gen, 1_700_000_000_000, 0, 0);
    assert!(a.as_u128() < b.as_u128());
    assert!(b.as_u128() < c.as_u128());
}

#[test]
fn clock_regression_keeps_ordering() {
    let mut gen = IdGenerator::new();
    let a = next_id(&mut gen, 1_700_000_000_000, 1, 1);
    let b = next_id(&mut gen, 900, 1, 1);
    assert!(b.as_u128() > a.as_u128());
}

#[test]
fn generated_identifier_text_round_trips() {
    let mut gen = IdGenerator::new();
    for _ in 0..50 {
        let id = new_uuid(&mut gen);
        let text = id.to_uuid_string();
        let back = parse_uuid(text.as_str()).unwrap();
        assert_eq!(back, id);
    }
}

#[test]
fn identifier_text_has_canonical_shape() {
    let mut gen = IdGenerator::new();
    let id = next_id(&mut gen, 1_700_000_000_000, 0xABC, 0x1234_5678);
    let text = id.to_uuid_string();
    assert_eq!(text.len(), 36);
    let bytes = text.as_bytes();
    assert_eq!(bytes[8], b'-');
    assert_eq!(bytes[13], b'-');
    assert_eq!(bytes[18], b'-');
    assert_eq!(bytes[23], b'-');
    assert_eq!(bytes[14], b'7');
}

#[test]
fn parse_rejects_foreign_version_distinctly() {
    // a well-formed identifier of another system, version nibble 4
    let foreign = "123e4567-e89b-42d3-a456-426614174000";
    let r = parse_uuid(foreign);
    assert!(matches!(r, Err(AppError::InvalidVersion)));
}

#[test]
fn parse_accepts_uppercase_hex() {
    let upper = "0190AB12-34CD-7EF0-8123-456789ABCDEF";
    let r = parse_uuid(upper);
    assert!(r.is_ok());
    assert!(matches!(parse_uuid(upper.to_lowercase().as_str()), Ok(id) if id == r.unwrap()));
}

#[test]
fn parse_rejects_malformed_text() {
    assert!(matches!(parse_uuid(""), Err(AppError::InvalidFormat)));
    assert!(matches!(parse_uuid("not-a-uuid"), Err(AppError::InvalidFormat)));
    assert!(matches!(
        parse_uuid("0190ab12-34cd-7ef0-8123-456789abcde"),
        Err(AppError::InvalidFormat)
    ));
    assert!(matches!(
        parse_uuid("0190ab12+34cd-7ef0-8123-456789abcdef"),
        Err(AppError::InvalidFormat)
    ));
    assert!(matches!(
        parse_uuid("0190ab12-34cd-7ef0-8123-456789abcdeg"),
        Err(AppError::InvalidFormat)
    ));
}

#[test]
fn parse_rejects_misplaced_dashes() {
    let r = parse_uuid("0190ab1234-cd-7ef0-8123-456789abcdef");
    assert!(matches!(r, Err(AppError::InvalidFormat)));
}

#[test]
fn parse_accepts_all_reference_forms() {
    let mut gen = IdGenerator::new();
    let id = new_uuid(&mut gen);
    let hyphenated = id.to_uuid_string();
    let simple: String = hyphenated.chars().filter(|c| *c != '-').collect();
    let braced = format!("{{{}}}", hyphenated);
    let urn = format!("urn:uuid:{}", hyphenated);
    let urn_upper = format!("URN:UUID:{}", hyphenated);
    for form in [simple.as_str(), braced.as_str(), urn.as_str(), urn_upper.as_str()] {
        let parsed = parse_uuid(form).unwrap();
        assert_eq!(parsed, id);
    }
}

#[test]
fn parse_rejects_malformed_wrapped_forms() {
    assert!(matches!(
        parse_uuid("(0190ab12-34cd-7ef0-8123-456789abcdef)"),
        Err(AppError::InvalidFormat)
    ));
    assert!(matches!(
        parse_uuid("urn:uuXd:0190ab12-34cd-7ef0-8123-456789abcdef"),
        Err(AppError::InvalidFormat)
    ));
    assert!(matches!(
        parse_uuid("{0190ab12-34cd-7ef0-8123-456789abcdef"),
        Err(AppError::InvalidFormat)
    ));
    // a non-hyphenated foreign version is still a version error, not a
    // format error
    assert!(matches!(
        parse_uuid("123e4567e89b42d3a456426614174000"),
        Err(AppError::InvalidVersion)
    ));
}
