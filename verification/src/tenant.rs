//! Provisioning rules of the tenant hierarchy.
//!
//! The compute halves of the admin provisioning operations: request
//! validation, identifier minting, credential preparation, and the
//! scope-upsert rule.  Persistence stays with the outside directory
//! collaborator, which only ever sees values prepared and validated here.

use vstd::prelude::*;

use crate::claims::PrincipalKind;
use crate::config::Env;
use crate::crypto::generate_client_secret;
use crate::crypto::hash_password;
use crate::crypto::is_alnum_char;
use crate::error::AppError;
use crate::error::FieldError;
use crate::error::ValidationErrors;
use crate::id::candidate_headroom;
use crate::id::new_uuid;
use crate::id::parse_uuid;
use crate::id::spec_version_of;
use crate::id::uuid_str_of;
use crate::id::uuid_anyvalue_of;
use crate::id::is_uuid_anytext;
use crate::id::IdGenerator;
use crate::id::Identifier;
use crate::jwt::generate_admin_token;
use crate::jwt::issued_token_chars;
use crate::text::str_eq;

verus! {

/// Acceptable length of an admin username or password, in chars.
pub open spec fn len_ok(s: Seq<char>) -> bool {
    6 <= s.len() <= 50
}

/// The message reported for a field of unacceptable length.
pub open spec fn length_msg() -> Seq<char> {
    "Should have from 6 to 50 characters"@
}

/// One validation entry: a field name with the length message.
fn length_error(field: &str) -> (r: FieldError)
    ensures
        r.field@ == field@,
        r.messages@.len() == 1,
        r.messages@[0]@ == length_msg(),
{
    let mut messages: Vec<String> = Vec::new();
    messages.push("Should have from 6 to 50 characters".to_owned());
    FieldError { field: field.to_owned(), messages }
}

/// Validates an admin registration request: both the username and the
/// password must be 6 to 50 chars long, and every failing field is
/// reported with its own entry, username first.
pub fn validate_register_admin(username: &str, password: &str) -> (r: Result<(), AppError>)
    ensures
        r is Ok <==> len_ok(username@) && len_ok(password@),
        r is Err ==> (r->Err_0 matches AppError::ValidationError(v) && {
            let n_bad: int = (if !len_ok(username@) {
                1int
            } else {
                0int
            }) + (if !len_ok(password@) {
                1int
            } else {
                0int
            });
            &&& v.errors@.len() == n_bad
            &&& !len_ok(username@) ==> v.errors@[0].field@ == "username"@
                && v.errors@[0].messages@.len() == 1 && v.errors@[0].messages@[0]@ == length_msg()
            &&& (!len_ok(password@) && len_ok(username@)) ==> v.errors@[0].field@ == "password"@
                && v.errors@[0].messages@.len() == 1 && v.errors@[0].messages@[0]@ == length_msg()
            &&& (!len_ok(password@) && !len_ok(username@)) ==> v.errors@[1].field@ == "password"@
                && v.errors@[1].messages@.len() == 1 && v.errors@[1].messages@[0]@ == length_msg()
        }),
{
    let ul = username.unicode_len();
    let pl = password.unicode_len();
    let u_ok = 6 <= ul && ul <= 50;
    let p_ok = 6 <= pl && pl <= 50;
    if u_ok && p_ok {
        return Ok(());
    }
    let mut errors: Vec<FieldError> = Vec::new();
    if !u_ok {
        errors.push(length_error("username"));
    }
    if !p_ok {
        errors.push(length_error("password"));
    }
    Err(AppError::ValidationError(ValidationErrors::new(errors)))
}

/// Everything a fresh admin account needs: its identifier, the stored
/// digest, and a first access token.
pub struct AdminRegistration {
    pub user_id: Identifier,
    pub user_id_text: String,
    pub password_hash: String,
    pub access_token: String,
}

/// The compute half of admin registration: validate the request, mint the
/// account identifier, hash the password, and issue the first admin token
/// for the new identifier's text.  The caller persists the record.
pub fn register_admin(username: &str, password: &str, gen: &mut IdGenerator, env: &Env) -> (r:
    Result<AdminRegistration, AppError>)
    requires
        old(gen).wf(),
        old(gen).remaining() >= 1,
    ensures
        final(gen).wf(),
        final(gen).remaining() >= old(gen).remaining() - 1 || final(gen).remaining()
            >= candidate_headroom(),
        !(len_ok(username@) && len_ok(password@)) <==> r is Err && r->Err_0 is ValidationError,
        r is Err ==> r->Err_0 is ValidationError || r->Err_0 is HashError || r->Err_0
            is TimeError,
        r is Ok ==> {
            &&& r->Ok_0.user_id.wf()
            &&& r->Ok_0.user_id.spec_value() > old(gen).last_value()
            &&& r->Ok_0.user_id_text@ == uuid_str_of(r->Ok_0.user_id.spec_value())
            &&& exists|now: nat|
                r->Ok_0.access_token@ == #[trigger] issued_token_chars(
                    *env,
                    PrincipalKind::Admin,
                    r->Ok_0.user_id_text@,
                    now,
                )
        },
{
    if let Err(e) = validate_register_admin(username, password) {
        return Err(e);
    }
    let user_id = new_uuid(gen);
    let user_id_text = user_id.to_uuid_string();
    let password_hash = match hash_password(password) {
        Ok(h) => h,
        Err(e) => {
            return Err(e);
        },
    };
    let access_token = match generate_admin_token(user_id_text.as_str(), env) {
        Ok(t) => t,
        Err(e) => {
            return Err(e);
        },
    };
    Ok(AdminRegistration { user_id, user_id_text, password_hash, access_token })
}

/// Everything a fresh application needs before persistence: its own
/// identifier, the client credentials (the raw secret is shown to the
/// caller exactly this once; only the digest is stored), and the parsed
/// project key.
#[derive(Debug)]
pub struct ApplicationRecord {
    pub application_id: Identifier,
    pub client_id: Identifier,
    pub project_id: Identifier,
    pub client_secret_hash: String,
    pub raw_client_secret: String,
}

/// The compute half of application creation: an empty redirect-URI list
/// fails validation before anything else, then the project identifier is
/// re-validated at the boundary, two fresh identifiers are minted, and a
/// 32-char client secret is generated and hashed.
pub fn create_application(project_id: &str, redirect_uris: &Vec<String>, gen: &mut IdGenerator)
    -> (r: Result<ApplicationRecord, AppError>)
    requires
        old(gen).wf(),
        old(gen).remaining() >= 2,
    ensures
        final(gen).wf(),
        redirect_uris@.len() == 0 <==> r is Err && r->Err_0 is ValidationError,
        match r {
            Err(AppError::ValidationError(v)) => v.errors@.len() == 1 && v.errors@[0].field@
                == "redirect_uris"@ && v.errors@[0].messages@.len() == 1
                && v.errors@[0].messages@[0]@ == "empty"@,
            _ => true,
        },
        r is Err && r->Err_0 is InvalidFormat <==> redirect_uris@.len() > 0 && !is_uuid_anytext(
            project_id@,
        ),
        r is Err && r->Err_0 is InvalidVersion <==> redirect_uris@.len() > 0 && is_uuid_anytext(
            project_id@,
        ) && spec_version_of(uuid_anyvalue_of(project_id@)) != 7,
        r is Err ==> r->Err_0 is ValidationError || r->Err_0 is InvalidFormat || r->Err_0
            is InvalidVersion || r->Err_0 is HashError,
        r is Ok ==> {
            &&& r->Ok_0.project_id.wf()
            &&& r->Ok_0.project_id.spec_value() == uuid_anyvalue_of(project_id@)
            &&& r->Ok_0.client_id.wf()
            &&& r->Ok_0.application_id.wf()
            &&& r->Ok_0.client_id.spec_value() > old(gen).last_value()
            &&& r->Ok_0.application_id.spec_value() > r->Ok_0.client_id.spec_value()
            &&& r->Ok_0.raw_client_secret@.len() == 32
            &&& forall|i: int|
                0 <= i < 32 ==> is_alnum_char(#[trigger] r->Ok_0.raw_client_secret@[i])
        },
{
    if redirect_uris.len() == 0 {
        let mut messages: Vec<String> = Vec::new();
        messages.push("empty".to_owned());
        let mut errors: Vec<FieldError> = Vec::new();
        errors.push(FieldError { field: "redirect_uris".to_owned(), messages });
        return Err(AppError::ValidationError(ValidationErrors::new(errors)));
    }
    let project = match parse_uuid(project_id) {
        Ok(p) => p,
        Err(e) => {
            return Err(e);
        },
    };
    let client_id = new_uuid(gen);
    let application_id = new_uuid(gen);
    let raw_client_secret = generate_client_secret();
    let client_secret_hash = match hash_password(raw_client_secret.as_str()) {
        Ok(h) => h,
        Err(e) => {
            return Err(e);
        },
    };
    Ok(
        ApplicationRecord {
            application_id,
            client_id,
            project_id: project,
            client_secret_hash,
            raw_client_secret,
        },
    )
}

/// One named scope requested for an application.
pub struct ApplicationScope {
    pub name: String,
    pub description: String,
}

/// Validates a scope request: at least one scope, and no scope with an
/// empty name or an empty description.
pub fn validate_application_scopes(scopes: &Vec<ApplicationScope>) -> (r: Result<(), AppError>)
    ensures
        r is Ok <==> scopes@.len() > 0 && forall|i: int|
            0 <= i < scopes@.len() ==> (#[trigger] scopes@[i].name@).len() > 0
                && scopes@[i].description@.len() > 0,
        r is Err ==> (r->Err_0 matches AppError::ValidationError(v) && v.errors@.len() == 1
            && v.errors@[0].field@ == "application_scopes"@ && v.errors@[0].messages@.len() == 1
            && v.errors@[0].messages@[0]@ == "empty or something"@),
{
    let n = scopes.len();
    let mut bad = n == 0;
    let mut i: usize = 0;
    while i < n
        invariant
            i <= n,
            n == scopes@.len(),
            n == 0 ==> bad,
            !bad ==> forall|t: int|
                0 <= t < i ==> (#[trigger] scopes@[t].name@).len() > 0 && scopes@[
                    t
                ].description@.len() > 0,
            bad ==> n == 0 || exists|t: int|
                0 <= t < n && ((#[trigger] scopes@[t]).name@.len() == 0
                    || scopes@[t].description@.len() == 0),
        decreases n - i,
    {
        let s = &scopes[i];
        let name_empty = s.name.as_str().unicode_len() == 0;
        let desc_empty = s.description.as_str().unicode_len() == 0;
        if name_empty || desc_empty {
            bad = true;
            proof {
                let w = scopes@[i as int];
                assert(0 <= (i as int) && (i as int) < n && (w.name@.len() == 0
                    || w.description@.len() == 0));
                assert(exists|t: int|
                    0 <= t < n && ((#[trigger] scopes@[t]).name@.len() == 0
                        || scopes@[t].description@.len() == 0));
            }
        } else {
            proof {
                assert((scopes@[i as int].name@).len() > 0 && scopes@[
                    i as int
                ].description@.len() > 0);
            }
        }
        i = i + 1;
    }
    if bad {
        let mut messages: Vec<String> = Vec::new();
        messages.push("empty or something".to_owned());
        let mut errors: Vec<FieldError> = Vec::new();
        errors.push(FieldError { field: "application_scopes".to_owned(), messages });
        return Err(AppError::ValidationError(ValidationErrors::new(errors)));
    }
    Ok(())
}

/// A named permission owned by an application.
pub struct Permission {
    pub id: Identifier,
    pub app_id: Identifier,
    pub name: String,
    pub description: String,
}

/// Scope names are unique per application.
pub open spec fn scopes_wf(s: Seq<Permission>) -> bool {
    forall|i: int, j: int| 0 <= i < j < s.len() ==> (#[trigger] s[i].name@) != (#[trigger] s[j].name@)
}

/// The upsert rule for one scope: a scope of the same name keeps its
/// identifier and takes the new description; a new name is appended with
/// the offered identifier.  Names stay unique, nothing else changes.
pub fn upsert_scope(
    perms: &mut Vec<Permission>,
    id: Identifier,
    app_id: Identifier,
    name: String,
    description: String,
) -> (updated: bool)
    requires
        scopes_wf(old(perms)@),
    ensures
        scopes_wf(final(perms)@),
        updated == exists|i: int|
            0 <= i < old(perms)@.len() && (#[trigger] old(perms)@[i].name@) == name@,
        updated ==> {
            &&& final(perms)@.len() == old(perms)@.len()
            &&& forall|j: int|
                0 <= j < old(perms)@.len() ==> (#[trigger] final(perms)@[j].name@) == old(perms)@[j].name@ && final(perms)@[j].id == old(perms)@[j].id && final(perms)@[j].app_id
                    == old(perms)@[j].app_id
            &&& forall|j: int|
                0 <= j < old(perms)@.len() && (#[trigger] old(perms)@[j].name@) != name@ ==> final(perms)@[j].description@ == old(perms)@[j].description@
            &&& forall|j: int|
                0 <= j < old(perms)@.len() && (#[trigger] old(perms)@[j].name@) == name@ ==> final(perms)@[j].description@ == description@
        },
        !updated ==> final(perms)@.len() == old(perms)@.len() + 1 && final(perms)@.last().id == id
            && final(perms)@.last().app_id == app_id && final(perms)@.last().name@ == name@
            && final(perms)@.last().description@ == description@ && forall|j: int|
            0 <= j < old(perms)@.len() ==> #[trigger] final(perms)@[j] == old(perms)@[j],
{
    let n = perms.len();
    let mut i: usize = 0;
    while i < n
        invariant
            i <= n,
            n == perms@.len(),
            perms@ == old(perms)@,
            scopes_wf(perms@),
            forall|t: int| 0 <= t < i ==> (#[trigger] perms@[t].name@) != name@,
        decreases n - i,
    {
        if str_eq(perms[i].name.as_str(), name.as_str()) {
            let old_entry = &perms[i];
            let replacement = Permission {
                id: old_entry.id,
                app_id: old_entry.app_id,
                name: old_entry.name.clone(),
                description,
            };
            proof {
                assert(perms@[i as int].name@ == name@);
            }
            perms.set(i, replacement);
            return true;
        }
        i = i + 1;
    }
    perms.push(Permission { id, app_id, name, description });
    proof {
        assert forall|a: int, b: int| 0 <= a < b < perms@.len() implies (
        #[trigger] perms@[a].name@) != (#[trigger] perms@[b].name@) by {
            if b < perms@.len() - 1 {
                assert(perms@[a] == old(perms)@[a]);
                assert(perms@[b] == old(perms)@[b]);
            } else {
                assert(perms@[a] == old(perms)@[a]);
                assert(perms@[b].name@ == name@);
                assert(old(perms)@[a].name@ != name@);
            }
        }
    }
    false
}

} // verus!
