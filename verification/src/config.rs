//! Process configuration.
//!
//! The configuration is read once at startup by the outer binary and
//! passed here by reference; nothing in the core mutates it.  The two
//! signing secrets and the two token lifetimes are the values the
//! credential logic depends on; the rest parameterises the excluded
//! persistence and rate-limiting collaborators.

use vstd::prelude::*;

use crate::claims::PrincipalKind;

verus! {

/// Externally supplied configuration, loaded once at process start.
pub struct Env {
    pub database_url: String,
    pub admin_access_token_duration_in_minutes: u8,
    pub postgres_max_connections: u8,
    pub postgres_acquire_timeout_in_secs: u8,
    pub rate_limiter_gc_max_memory_in_mb: u8,
    pub user_access_token_duration_in_minutes: u8,
    pub admin_jwt_secret: String,
    pub user_jwt_secret: String,
}

/// The signing secret of a principal kind.
pub open spec fn spec_secret(env: Env, kind: PrincipalKind) -> Seq<char> {
    match kind {
        PrincipalKind::Admin => env.admin_jwt_secret@,
        PrincipalKind::User => env.user_jwt_secret@,
    }
}

/// The token lifetime of a principal kind, in minutes.
pub open spec fn spec_duration_mins(env: Env, kind: PrincipalKind) -> nat {
    match kind {
        PrincipalKind::Admin => env.admin_access_token_duration_in_minutes as nat,
        PrincipalKind::User => env.user_access_token_duration_in_minutes as nat,
    }
}

} // verus!
