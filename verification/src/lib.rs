//! Credential and trust core of a multi-tenant identity backend.
//!
//! The library covers the three security-critical pieces of the system:
//! the versioned, time-ordered identifier scheme used as the sole key type
//! for tenant resources; the signed, expiring bearer tokens issued to the
//! two principal classes (platform administrators and end users); and the
//! escalation guard that admits a request to an admin route only when it
//! carries a valid admin token.  Everything around them (HTTP transport,
//! persistence, process bootstrap) is an outside collaborator.

pub mod accounts;
pub mod b64;
pub mod claims;
pub mod crypto;
pub mod error;
pub mod config;
pub mod guard;
pub mod id;
pub mod jwt;
pub mod sys;
pub mod tenant;
pub mod text;

pub use error::AppError;
pub use error::DbErrorKind;
pub use error::FieldError;
pub use error::ValidationErrors;
