//! The admin escalation guard.
//!
//! A request reaches a protected admin operation only by carrying an
//! authorization header of exactly the shape `Bearer <credential>`, whose
//! credential verifies under the admin secret as an unexpired token, and
//! whose decoded principal kind is admin.  A missing header, a malformed
//! header, an unverifiable token and a verified token of the wrong kind
//! are told apart exactly as the error taxonomy asks: `HeaderNotFound`,
//! `InvalidToken`, `InvalidToken` again, and `Forbidden`.  On success the
//! decoded subject is handed onward for audit and ownership checks.

use vstd::prelude::*;
use vstd::string::StrSliceExecFns;

use crate::claims::admin_chars;
use crate::claims::admin_str;
use crate::claims::user_chars;
use crate::claims::PrincipalKind;
use crate::config::Env;
use crate::error::AppError;
use crate::jwt::token_chars;
use crate::jwt::token_verifies;
use crate::jwt::verify_token_at;
use crate::sys;
use crate::text::str_eq;
use crate::text::string_from_chars;

verus! {

/// The scheme opening of a well-formed authorization header.
pub open spec fn bearer_prefix() -> Seq<char> {
    seq!['B', 'e', 'a', 'r', 'e', 'r', ' ']
}

/// A well-formed authorization header: exactly the scheme `Bearer`, one
/// space, and a nonempty credential that holds no further spaces.
pub open spec fn has_bearer(h: Seq<char>) -> bool {
    &&& h.len() > 7
    &&& h.subrange(0, 7) == bearer_prefix()
    &&& forall|i: int| 7 <= i < h.len() ==> h[i] != ' '
}

/// The credential of a well-formed authorization header.
pub open spec fn bearer_token_of(h: Seq<char>) -> Seq<char> {
    h.skip(7)
}

/// A token that verifies under the admin secret at `now` and claims the
/// admin kind for subject `sub`.
pub open spec fn admin_token_for(tok: Seq<char>, env: Env, now: nat, sub: Seq<char>) -> bool {
    exists|e: nat|
        e < 0x10000000000000000 && tok == #[trigger] token_chars(
            sub,
            admin_chars(),
            e,
            env.admin_jwt_secret@,
        ) && now < e
}

/// A token that verifies under the admin secret at `now` but claims the
/// user kind: valid, yet not an admin.
pub open spec fn foreign_kind_token(tok: Seq<char>, env: Env, now: nat) -> bool {
    exists|sub: Seq<char>, e: nat|
        e < 0x10000000000000000 && tok == #[trigger] token_chars(
            sub,
            user_chars(),
            e,
            env.admin_jwt_secret@,
        ) && now < e
}

/// Extracts the bearer credential from an authorization header value:
/// a missing header and a malformed one fail with distinct errors.
pub fn get_jwt_token(header_value: Option<&str>) -> (r: Result<String, AppError>)
    ensures
        match r {
            Ok(tok) => header_value is Some && has_bearer(header_value->0@) && tok@
                == bearer_token_of(header_value->0@),
            Err(e) => (header_value is None && e is HeaderNotFound) || (header_value is Some
                && !has_bearer(header_value->0@) && e is InvalidToken),
        },
{
    let h = match header_value {
        Some(h) => h,
        None => {
            return Err(AppError::HeaderNotFound);
        },
    };
    let n = h.unicode_len();
    if n <= 7 {
        return Err(AppError::InvalidToken);
    }
    let p0 = h.get_char(0) == 'B' && h.get_char(1) == 'e' && h.get_char(2) == 'a';
    let p1 = h.get_char(3) == 'r' && h.get_char(4) == 'e' && h.get_char(5) == 'r';
    let p2 = h.get_char(6) == ' ';
    if !(p0 && p1 && p2) {
        proof {
            if has_bearer(h@) {
                assert forall|k: int| 0 <= k < 7 implies h@[k] == bearer_prefix()[k] by {
                    assert(h@.subrange(0, 7)[k] == h@[k]);
                }
            }
        }
        return Err(AppError::InvalidToken);
    }
    let mut out: Vec<char> = Vec::new();
    let mut i: usize = 7;
    while i < n
        invariant
            7 <= i <= n,
            n == h@.len(),
            header_value is Some,
            header_value->0@ == h@,
            out@ == h@.subrange(7, i as int),
            forall|t: int| 7 <= t < i ==> h@[t] != ' ',
        decreases n - i,
    {
        let c = h.get_char(i);
        if c == ' ' {
            return Err(AppError::InvalidToken);
        }
        out.push(c);
        proof {
            assert(out@ =~= h@.subrange(7, i + 1));
        }
        i = i + 1;
    }
    proof {
        assert(h@.subrange(0, 7) =~= bearer_prefix());
        assert(h@.subrange(7, n as int) =~= h@.skip(7));
        assert(h@.len() > 7);
        assert(forall|t: int| 7 <= t < h@.len() ==> h@[t] != ' ');
        assert(has_bearer(h@));
        assert(out@ == bearer_token_of(h@));
    }
    Ok(string_from_chars(&out))
}

/// The guard itself, at a given time: extract the bearer credential,
/// verify it under the admin secret, and admit the request only when the
/// decoded kind is admin, handing the decoded subject onward.
pub fn validate_admin_api_key(header_value: Option<&str>, now: u64, env: &Env) -> (r: Result<
    String,
    AppError,
>)
    ensures
        match r {
            Ok(sub) => header_value is Some && has_bearer(header_value->0@) && admin_token_for(
                bearer_token_of(header_value->0@),
                *env,
                now as nat,
                sub@,
            ),
            Err(e) => {
                ||| (e is HeaderNotFound && header_value is None)
                ||| (e is InvalidToken && header_value is Some && !has_bearer(header_value->0@))
                ||| (e is InvalidToken && header_value is Some && has_bearer(header_value->0@)
                    && !token_verifies(
                    bearer_token_of(header_value->0@),
                    env.admin_jwt_secret@,
                    now as nat,
                ))
                ||| (e is Forbidden && header_value is Some && has_bearer(header_value->0@)
                    && foreign_kind_token(
                    bearer_token_of(header_value->0@),
                    *env,
                    now as nat,
                ))
            },
        },
{
    let tok = match get_jwt_token(header_value) {
        Ok(t) => t,
        Err(e) => {
            return Err(e);
        },
    };
    let claims = match verify_token_at(tok.as_str(), PrincipalKind::Admin, now, env) {
        Ok(c) => c,
        Err(_) => {
            return Err(AppError::InvalidToken);
        },
    };
    if str_eq(claims.user_type.as_str(), admin_str()) {
        proof {
            assert(admin_token_for(tok@, *env, now as nat, claims.sub@));
        }
        Ok(claims.sub)
    } else {
        proof {
            assert(claims.user_type@ == user_chars());
            assert(foreign_kind_token(tok@, *env, now as nat));
        }
        Err(AppError::Forbidden)
    }
}

/// The guard against the system clock.  The header is judged before the
/// clock is read, so a missing or malformed header keeps its own error
/// whatever the clock does; an unreadable clock then rejects the request
/// like any other verification failure, never admits it.
pub fn validate_admin_request(header_value: Option<&str>, env: &Env) -> (r: Result<
    String,
    AppError,
>)
    ensures
        header_value is None <==> r is Err && r->Err_0 is HeaderNotFound,
        (header_value is Some && !has_bearer(header_value->0@)) ==> r is Err && r->Err_0
            is InvalidToken,
        match r {
            Ok(sub) => header_value is Some && has_bearer(header_value->0@) && exists|
                e: nat,
            |
                e < 0x10000000000000000 && bearer_token_of(header_value->0@)
                    == #[trigger] token_chars(sub@, admin_chars(), e, env.admin_jwt_secret@),
            Err(e) => e is HeaderNotFound || e is InvalidToken || e is Forbidden,
        },
{
    if let Err(e) = get_jwt_token(header_value) {
        return Err(e);
    }
    let now = match sys::now_unix_millis() {
        Some(ms) => ms / 1000,
        None => {
            return Err(AppError::InvalidToken);
        },
    };
    validate_admin_api_key(header_value, now, env)
}

} // verus!
