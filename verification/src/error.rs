//! Error taxonomy of the credential core.
//!
//! Identifier failures keep their two distinguishable kinds, while every
//! token-validity failure collapses into the single `InvalidToken` outcome
//! so that a caller cannot learn which verification step rejected it.

use vstd::prelude::*;

verus! {

/// The shape of a database failure, as reported by the persistence
/// collaborator.  The core never talks to the database itself; handlers in
/// the outer binary translate the driver's error into one of these kinds
/// before asking the core for the response status.
#[derive(Clone, Copy, Debug, PartialEq, Eq, Structural)]
pub enum DbErrorKind {
    NotFound,
    UniqueViolation,
    ForeignKeyViolation,
    Other,
}

/// Messages collected for one request field that failed validation.
#[derive(Debug)]
pub struct FieldError {
    pub field: String,
    pub messages: Vec<String>,
}

/// Validation failures of a whole request body, one entry per field.
#[derive(Debug)]
pub struct ValidationErrors {
    pub errors: Vec<FieldError>,
}

impl ValidationErrors {
    pub fn new(errors: Vec<FieldError>) -> (r: ValidationErrors)
        ensures
            r.errors == errors,
    {
        ValidationErrors { errors }
    }
}

/// Every failure the credential core can report to its callers.
#[derive(Debug)]
pub enum AppError {
    /// The password-hashing collaborator failed.
    HashError,
    /// Malformed identifier text.
    InvalidFormat,
    /// Well-formed identifier text carrying a version this system does not issue.
    InvalidVersion,
    /// A persistence failure, already classified by the caller.
    Database(DbErrorKind),
    /// The request carried no authorization header.
    HeaderNotFound,
    /// Signature, expiry, shape or secret mismatch of a bearer token.
    InvalidToken,
    /// A token that verified under the admin secret but does not claim the
    /// admin principal kind.
    Forbidden,
    /// The request body failed validation.
    ValidationError(ValidationErrors),
    /// The system clock could not be read.
    TimeError,
    /// The token signer failed.
    TokenEncodeError,
}

/// The HTTP status that each error maps to at the transport boundary.
pub open spec fn spec_status_of(e: AppError) -> u16 {
    match e {
        AppError::HashError => 500,
        AppError::InvalidFormat => 400,
        AppError::InvalidVersion => 400,
        AppError::Database(kind) => match kind {
            DbErrorKind::NotFound => 404,
            DbErrorKind::UniqueViolation => 409,
            DbErrorKind::ForeignKeyViolation => 400,
            DbErrorKind::Other => 500,
        },
        AppError::HeaderNotFound => 401,
        AppError::InvalidToken => 401,
        AppError::Forbidden => 403,
        AppError::ValidationError(_) => 400,
        AppError::TimeError => 500,
        AppError::TokenEncodeError => 500,
    }
}

impl AppError {
    /// The status code of the response this error turns into.
    pub fn status_code(&self) -> (c: u16)
        ensures
            c == spec_status_of(*self),
    {
        match self {
            AppError::HashError => 500,
            AppError::InvalidFormat => 400,
            AppError::InvalidVersion => 400,
            AppError::Database(kind) => match kind {
                DbErrorKind::NotFound => 404,
                DbErrorKind::UniqueViolation => 409,
                DbErrorKind::ForeignKeyViolation => 400,
                DbErrorKind::Other => 500,
            },
            AppError::HeaderNotFound => 401,
            AppError::InvalidToken => 401,
            AppError::Forbidden => 403,
            AppError::ValidationError(_) => 400,
            AppError::TimeError => 500,
            AppError::TokenEncodeError => 500,
        }
    }
}

/// The response text of a classified database failure.
pub fn db_error_message(kind: DbErrorKind) -> (m: &'static str)
    ensures
        kind == DbErrorKind::NotFound ==> m@ == "The resource does not exist"@,
        kind == DbErrorKind::UniqueViolation ==> m@ == "The resource already exists"@,
        kind == DbErrorKind::ForeignKeyViolation ==> m@
            == "Reference to a resource that does not exist"@,
        kind == DbErrorKind::Other ==> m@ == "Internal Server Error"@,
{
    match kind {
        DbErrorKind::NotFound => "The resource does not exist",
        DbErrorKind::UniqueViolation => "The resource already exists",
        DbErrorKind::ForeignKeyViolation => "Reference to a resource that does not exist",
        DbErrorKind::Other => "Internal Server Error",
    }
}

} // verus!
