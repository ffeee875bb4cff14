//! The identity-side compute halves: end-user registration and the
//! profile lookup of the authenticated caller.
//!
//! Both operations only prepare and re-validate plain values; the identity
//! directory persists and reads the records.

use vstd::prelude::*;

use crate::config::Env;
use crate::crypto::hash_password;
use crate::error::AppError;
use crate::guard::bearer_token_of;
use crate::guard::get_jwt_token;
use crate::guard::has_bearer;
use crate::id::candidate_headroom;
use crate::id::is_uuid_anytext;
use crate::id::new_uuid;
use crate::id::parse_uuid;
use crate::id::spec_version_of;
use crate::id::uuid_anyvalue_of;
use crate::id::IdGenerator;
use crate::id::Identifier;
use crate::jwt::decode_user_token;
use crate::jwt::token_chars;

verus! {

/// Everything a fresh end-user identity needs before persistence: the
/// minted identity key, the parsed client key, and the stored digest of
/// the password login method.
pub struct UserRegistration {
    pub identity_id: Identifier,
    pub client_id: Identifier,
    pub password_hash: String,
}

/// The compute half of end-user registration: re-validate the client
/// identifier at the boundary, mint the identity identifier, and hash the
/// password for the login method.
pub fn register_user(client_id: &str, password: &str, gen: &mut IdGenerator) -> (r: Result<
    UserRegistration,
    AppError,
>)
    requires
        old(gen).wf(),
        old(gen).remaining() >= 1,
    ensures
        final(gen).wf(),
        final(gen).remaining() >= old(gen).remaining() - 1 || final(gen).remaining()
            >= candidate_headroom(),
        r is Err && r->Err_0 is InvalidFormat <==> !is_uuid_anytext(client_id@),
        r is Err && r->Err_0 is InvalidVersion <==> is_uuid_anytext(client_id@)
            && spec_version_of(uuid_anyvalue_of(client_id@)) != 7,
        r is Err ==> r->Err_0 is InvalidFormat || r->Err_0 is InvalidVersion || r->Err_0
            is HashError,
        r is Ok ==> {
            &&& r->Ok_0.client_id.wf()
            &&& r->Ok_0.client_id.spec_value() == uuid_anyvalue_of(client_id@)
            &&& r->Ok_0.identity_id.wf()
            &&& r->Ok_0.identity_id.spec_value() > old(gen).last_value()
        },
{
    let client = match parse_uuid(client_id) {
        Ok(c) => c,
        Err(e) => {
            return Err(e);
        },
    };
    let identity_id = new_uuid(gen);
    let password_hash = match hash_password(password) {
        Ok(h) => h,
        Err(e) => {
            return Err(e);
        },
    };
    Ok(UserRegistration { identity_id, client_id: client, password_hash })
}

/// The compute half of the profile lookup: extract the bearer token,
/// decode it under the user kind's secret — the /me route carries an
/// end-user session — and re-validate the decoded subject as an
/// identifier before it is ever used as a key.
pub fn resolve_me_subject(header_value: Option<&str>, env: &Env) -> (r: Result<
    Identifier,
    AppError,
>)
    ensures
        header_value is None <==> r is Err && r->Err_0 is HeaderNotFound,
        (header_value is Some && !has_bearer(header_value->0@)) ==> r is Err && r->Err_0
            is InvalidToken,
        r is Ok ==> {
            &&& header_value is Some
            &&& has_bearer(header_value->0@)
            &&& r->Ok_0.wf()
            &&& exists|sub: Seq<char>, ut: Seq<char>, e: nat|
                bearer_token_of(header_value->0@) == #[trigger] token_chars(
                    sub,
                    ut,
                    e,
                    env.user_jwt_secret@,
                ) && is_uuid_anytext(sub) && r->Ok_0.spec_value() == uuid_anyvalue_of(sub)
        },
        r is Err ==> r->Err_0 is HeaderNotFound || r->Err_0 is InvalidToken || r->Err_0
            is InvalidFormat || r->Err_0 is InvalidVersion,
{
    let token = match get_jwt_token(header_value) {
        Ok(t) => t,
        Err(e) => {
            return Err(e);
        },
    };
    let claims = match decode_user_token(token.as_str(), env) {
        Ok(c) => c,
        Err(_) => {
            return Err(AppError::InvalidToken);
        },
    };
    let id = match parse_uuid(claims.sub.as_str()) {
        Ok(id) => id,
        Err(e) => {
            return Err(e);
        },
    };
    proof {
        assert(token@ == token_chars(
            claims.sub@,
            claims.user_type@,
            claims.exp as nat,
            env.user_jwt_secret@,
        ));
    }
    Ok(id)
}

} // verus!
