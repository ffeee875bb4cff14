//! Issuance and verification of signed, expiring bearer tokens.
//!
//! A token is the compact three-part form `header.payload.signature`: the
//! fixed header and the canonical claim payload, each as unpadded URL-safe
//! base64 of their ASCII text, joined by dots and signed with HMAC-SHA256
//! under the secret of one principal kind.  Issue and verify share one
//! token builder, so verification is exact: a token verifies under a kind's
//! secret at a given time if and only if it is the canonical token of some
//! well-formed claim set signed with that secret and not yet expired.
//! There is no clock-skew allowance: a token is valid strictly before its
//! expiry second and invalid from the expiry second on.

use vstd::prelude::*;
use vstd::string::StringExecFns;

use crate::b64::b64url_decode;
use crate::b64::b64url_encode;
use crate::b64::b64url_of;
use crate::b64::is_b64_char;
use crate::b64::lemma_b64_chars;
use crate::b64::lemma_b64_injective;
use crate::claims::admin_str;
use crate::claims::claims_wf;
use crate::claims::digits_of;
use crate::claims::esc;
use crate::claims::kind_chars;
use crate::claims::lemma_digits;
use crate::claims::lemma_esc_safe;
use crate::claims::lemma_payload_injective;
use crate::claims::lemma_payload_parts;
use crate::claims::parse_claims;
use crate::claims::payload_chars;
use crate::claims::spells_payload;
use crate::claims::user_str;
use crate::claims::ut_wf;
use crate::claims::Claims;
use crate::claims::PrincipalKind;
use crate::claims::encode_payload;
use crate::config::spec_duration_mins;
use crate::config::spec_secret;
use crate::config::Env;
use crate::error::AppError;
use crate::sys;
use crate::text::ascii_bytes_of;
use crate::text::bytes_to_chars;
use crate::text::chars_of_str;
use crate::text::chars_to_bytes;
use crate::text::lemma_ascii_roundtrip;
use crate::text::str_eq;
use crate::text::string_from_chars;

verus! {

/// The fixed token header text: `{"typ":"JWT","alg":"HS256"}`.
pub open spec fn header_chars() -> Seq<char> {
    seq![
        '{',
        '"',
        't',
        'y',
        'p',
        '"',
        ':',
        '"',
        'J',
        'W',
        'T',
        '"',
        ',',
        '"',
        'a',
        'l',
        'g',
        '"',
        ':',
        '"',
        'H',
        'S',
        '2',
        '5',
        '6',
        '"',
        '}',
    ]
}

/// The URL-safe base64 signature of a message under a secret, as the
/// HMAC-SHA256 signer produces it.  The result depends on the two
/// arguments alone.
pub uninterp spec fn mac_b64_of(secret: Seq<char>, message: Seq<char>) -> Seq<char>;

/// The base64 form of the fixed header.
pub open spec fn header_b64() -> Seq<char> {
    b64url_of(ascii_bytes_of(header_chars()))
}

/// The base64 form of a claim payload.
pub open spec fn payload_b64(sub: Seq<char>, ut: Seq<char>, exp: nat) -> Seq<char> {
    b64url_of(ascii_bytes_of(payload_chars(sub, ut, exp)))
}

/// The signed part of a token: base64 header, a dot, base64 payload.
pub open spec fn signing_input_chars(sub: Seq<char>, ut: Seq<char>, exp: nat) -> Seq<char> {
    header_b64() + seq!['.'] + payload_b64(sub, ut, exp)
}

/// The complete token text of a claim set under a secret.
pub open spec fn token_chars(sub: Seq<char>, ut: Seq<char>, exp: nat, secret: Seq<char>) -> Seq<
    char,
> {
    signing_input_chars(sub, ut, exp) + seq!['.'] + mac_b64_of(
        secret,
        signing_input_chars(sub, ut, exp),
    )
}

/// Whether a token verifies under a secret at a time: it is the canonical
/// token of some well-formed, not-yet-expired claim set signed with that
/// secret.
pub open spec fn token_verifies(t: Seq<char>, secret: Seq<char>, now: nat) -> bool {
    exists|sub: Seq<char>, ut: Seq<char>, e: nat|
        ut_wf(ut) && e < 0x10000000000000000 && t == #[trigger] token_chars(sub, ut, e, secret)
            && now < e
}

/// Relies on `jsonwebtoken::crypto::sign` with `Algorithm::HS256` and an
/// `EncodingKey::from_secret` key: the result is the unpadded URL-safe
/// base64 of the HMAC-SHA256 of the message bytes under the secret bytes —
/// a function of the two arguments alone, over the URL-safe alphabet, and
/// infallible for this key family.
#[verifier::external_body]
fn sign_hs256(secret: &str, message: &str) -> (r: String)
    ensures
        r@ == mac_b64_of(secret@, message@),
        forall|i: int| 0 <= i < r@.len() ==> is_b64_char(#[trigger] r@[i]),
{
    let key = jsonwebtoken::EncodingKey::from_secret(secret.as_bytes());
    match jsonwebtoken::crypto::sign(message.as_bytes(), &key, jsonwebtoken::Algorithm::HS256) {
        Ok(sig) => sig,
        Err(_) => String::new(),
    }
}

/// The header text is printable ASCII.
proof fn lemma_header_ascii()
    ensures
        forall|i: int|
            0 <= i < header_chars().len() ==> (#[trigger] header_chars()[i] as u32) < 128,
{
}

/// Alphabet chars are never dots.
proof fn lemma_b64_char_not_dot(c: char)
    requires
        is_b64_char(c),
    ensures
        c != '.',
{
}

/// The payload text of a well-formed claim set is printable ASCII.
pub proof fn lemma_payload_ascii(sub: Seq<char>, ut: Seq<char>, e: nat)
    requires
        ut_wf(ut),
    ensures
        forall|i: int|
            0 <= i < payload_chars(sub, ut, e).len() ==> (#[trigger] payload_chars(sub, ut, e)[i]
                as u32) < 128,
{
    lemma_payload_parts(sub, ut, e);
    lemma_esc_safe(sub);
    lemma_digits(e);
    let p = payload_chars(sub, ut, e);
    let el = esc(sub).len() as int;
    let ul = ut.len() as int;
    let dl = digits_of(e).len() as int;
    assert forall|i: int| 0 <= i < p.len() implies (#[trigger] p[i] as u32) < 128 by {
        if i < 8 {
            assert(p.subrange(0, 8)[i] == p[i]);
        } else if i < 8 + el {
            assert(p.subrange(8, 8 + el)[i - 8] == p[i]);
            assert(esc(sub)[i - 8] == p[i]);
        } else if i < 23 + el {
            assert(p.subrange(8 + el, 23 + el)[i - 8 - el] == p[i]);
        } else if i < 23 + el + ul {
            assert(p.subrange(23 + el, 23 + el + ul)[i - 23 - el] == p[i]);
        } else if i < 31 + el + ul {
            assert(p.subrange(23 + el + ul, 31 + el + ul)[i - 23 - el - ul] == p[i]);
        } else if i < 31 + el + ul + dl {
            assert(p.subrange(31 + el + ul, 31 + el + ul + dl)[i - 31 - el - ul] == p[i]);
            assert(crate::claims::is_digit_char(digits_of(e)[i - 31 - el - ul]));
        } else {
            assert(p[i] == '}');
        }
    }
}

/// Where each piece of a token sits: base64 parts are dot-free, the two
/// dots stand exactly between them, and the signature is the tail.
pub proof fn lemma_token_shape(sub: Seq<char>, ut: Seq<char>, e: nat, secret: Seq<char>)
    ensures
        token_chars(sub, ut, e, secret).len() == header_b64().len() + 2 + payload_b64(
            sub,
            ut,
            e,
        ).len() + mac_b64_of(secret, signing_input_chars(sub, ut, e)).len(),
        forall|j: int|
            0 <= j < header_b64().len() ==> #[trigger] token_chars(sub, ut, e, secret)[j]
                == header_b64()[j] && token_chars(sub, ut, e, secret)[j] != '.',
        token_chars(sub, ut, e, secret)[header_b64().len() as int] == '.',
        forall|j: int|
            (header_b64().len() as int) + 1 <= j < (header_b64().len() as int) + 1 + (payload_b64(
                sub,
                ut,
                e,
            ).len() as int) ==> #[trigger] token_chars(sub, ut, e, secret)[j] != '.',
        token_chars(sub, ut, e, secret)[(header_b64().len() as int) + 1 + (payload_b64(
            sub,
            ut,
            e,
        ).len() as int)] == '.',
        token_chars(sub, ut, e, secret).subrange(
            (header_b64().len() as int) + 1,
            (header_b64().len() as int) + 1 + (payload_b64(sub, ut, e).len() as int),
        ) == payload_b64(sub, ut, e),
        token_chars(sub, ut, e, secret).subrange(
            (header_b64().len() as int) + 2 + (payload_b64(sub, ut, e).len() as int),
            token_chars(sub, ut, e, secret).len() as int,
        ) == mac_b64_of(secret, signing_input_chars(sub, ut, e)),
{
    let t = token_chars(sub, ut, e, secret);
    let hl = header_b64().len() as int;
    let pl = payload_b64(sub, ut, e).len() as int;
    lemma_b64_chars(ascii_bytes_of(header_chars()));
    lemma_b64_chars(ascii_bytes_of(payload_chars(sub, ut, e)));
    assert forall|j: int| 0 <= j < hl implies #[trigger] t[j] == header_b64()[j] && t[j]
        != '.' by {
        lemma_b64_char_not_dot(header_b64()[j]);
    }
    assert forall|j: int| hl + 1 <= j < hl + 1 + pl implies #[trigger] t[j] != '.' by {
        assert(t[j] == payload_b64(sub, ut, e)[j - hl - 1]);
        lemma_b64_char_not_dot(payload_b64(sub, ut, e)[j - hl - 1]);
    }
    assert(t.subrange(hl + 1, hl + 1 + pl) =~= payload_b64(sub, ut, e));
    assert(t.subrange(hl + 2 + pl, t.len() as int) =~= mac_b64_of(
        secret,
        signing_input_chars(sub, ut, e),
    ));
}

/// One token text spells one claim set, whatever secrets are claimed for
/// it; and equal tokens carry equal signatures over the same signed part.
pub proof fn lemma_token_claims_unique(
    sub1: Seq<char>,
    ut1: Seq<char>,
    e1: nat,
    s1: Seq<char>,
    sub2: Seq<char>,
    ut2: Seq<char>,
    e2: nat,
    s2: Seq<char>,
)
    requires
        ut_wf(ut1),
        ut_wf(ut2),
        token_chars(sub1, ut1, e1, s1) == token_chars(sub2, ut2, e2, s2),
    ensures
        sub1 == sub2,
        ut1 == ut2,
        e1 == e2,
        mac_b64_of(s1, signing_input_chars(sub1, ut1, e1)) == mac_b64_of(
            s2,
            signing_input_chars(sub1, ut1, e1),
        ),
{
    let t = token_chars(sub1, ut1, e1, s1);
    let hl = header_b64().len() as int;
    let pl1 = payload_b64(sub1, ut1, e1).len() as int;
    let pl2 = payload_b64(sub2, ut2, e2).len() as int;
    lemma_token_shape(sub1, ut1, e1, s1);
    lemma_token_shape(sub2, ut2, e2, s2);
    assert(pl1 == pl2) by {
        if pl1 < pl2 {
            assert(t[hl + 1 + pl1] == '.');
            assert(t[hl + 1 + pl1] != '.');
        }
        if pl2 < pl1 {
            assert(t[hl + 1 + pl2] == '.');
            assert(t[hl + 1 + pl2] != '.');
        }
    }
    assert(payload_b64(sub1, ut1, e1) == payload_b64(sub2, ut2, e2)) by {
        assert(t.subrange(hl + 1, hl + 1 + pl1) == payload_b64(sub1, ut1, e1));
        assert(t.subrange(hl + 1, hl + 1 + pl2) == payload_b64(sub2, ut2, e2));
    }
    lemma_b64_injective(
        ascii_bytes_of(payload_chars(sub1, ut1, e1)),
        ascii_bytes_of(payload_chars(sub2, ut2, e2)),
    );
    lemma_payload_ascii(sub1, ut1, e1);
    lemma_payload_ascii(sub2, ut2, e2);
    crate::text::lemma_ascii_bytes_injective(
        payload_chars(sub1, ut1, e1),
        payload_chars(sub2, ut2, e2),
    );
    lemma_payload_injective(sub1, ut1, e1, sub2, ut2, e2);
    assert(mac_b64_of(s1, signing_input_chars(sub1, ut1, e1)) == mac_b64_of(
        s2,
        signing_input_chars(sub1, ut1, e1),
    )) by {
        assert(t.subrange(hl + 2 + pl1, t.len() as int) == mac_b64_of(
            s1,
            signing_input_chars(sub1, ut1, e1),
        ));
        assert(t.subrange(hl + 2 + pl2, t.len() as int) == mac_b64_of(
            s2,
            signing_input_chars(sub2, ut2, e2),
        ));
    }
}

/// The fixed header, as chars.
fn build_header_chars() -> (r: Vec<char>)
    ensures
        r@ == header_chars(),
{
    let mut out: Vec<char> = Vec::new();
    out.push('{');
    out.push('"');
    out.push('t');
    out.push('y');
    out.push('p');
    out.push('"');
    out.push(':');
    out.push('"');
    out.push('J');
    out.push('W');
    out.push('T');
    out.push('"');
    out.push(',');
    out.push('"');
    out.push('a');
    out.push('l');
    out.push('g');
    out.push('"');
    out.push(':');
    out.push('"');
    out.push('H');
    out.push('S');
    out.push('2');
    out.push('5');
    out.push('6');
    out.push('"');
    out.push('}');
    proof {
        assert(out@ =~= header_chars());
    }
    out
}

/// Builds the canonical token of a claim set under a secret.  Issue and
/// verify both go through here, so the two agree char for char.
pub fn build_token(sub: &str, user_type: &str, exp: u64, secret: &str) -> (r: String)
    requires
        ut_wf(user_type@),
    ensures
        r@ == token_chars(sub@, user_type@, exp as nat, secret@),
{
    let claims = Claims { sub: sub.to_owned(), user_type: user_type.to_owned(), exp };
    let payload = encode_payload(&claims);
    proof {
        lemma_payload_ascii(sub@, user_type@, exp as nat);
    }
    let pbytes = chars_to_bytes(&payload);
    let hdr = build_header_chars();
    proof {
        lemma_header_ascii();
    }
    let hbytes = chars_to_bytes(&hdr);
    let mut si = b64url_encode(&hbytes);
    si.push('.');
    let mut p64 = b64url_encode(&pbytes);
    si.append(&mut p64);
    proof {
        assert(si@ =~= signing_input_chars(sub@, user_type@, exp as nat));
    }
    let si_str = string_from_chars(&si);
    let sig = sign_hs256(secret, si_str.as_str());
    let mut token = si_str;
    token.append(".");
    token.append(sig.as_str());
    proof {
        reveal_strlit(".");
        assert("."@ =~= seq!['.']);
        assert(token@ =~= token_chars(sub@, user_type@, exp as nat, secret@));
    }
    token
}

/// The token this service issues for a subject of a kind at a given time:
/// the expiry is the issue time plus the kind's configured lifetime.
pub open spec fn issued_token_chars(env: Env, kind: PrincipalKind, sub: Seq<char>, now: nat) -> Seq<
    char,
> {
    token_chars(sub, kind_chars(kind), now + spec_duration_mins(env, kind) * 60, spec_secret(env, kind))
}

/// Issues a token for a subject of a kind, expiring the configured number
/// of minutes after the given time.
pub fn issue_token_at(user_id: &str, kind: PrincipalKind, now: u64, env: &Env) -> (r: String)
    requires
        now + 15300 <= u64::MAX,
    ensures
        r@ == issued_token_chars(*env, kind, user_id@, now as nat),
{
    let mins: u8 = match kind {
        PrincipalKind::Admin => env.admin_access_token_duration_in_minutes,
        PrincipalKind::User => env.user_access_token_duration_in_minutes,
    };
    let exp: u64 = now + (mins as u64) * 60;
    let ut: &str = match kind {
        PrincipalKind::Admin => admin_str(),
        PrincipalKind::User => user_str(),
    };
    let secret: &String = match kind {
        PrincipalKind::Admin => &env.admin_jwt_secret,
        PrincipalKind::User => &env.user_jwt_secret,
    };
    build_token(user_id, ut, exp, secret.as_str())
}

/// Issues a token for a subject of a kind, read off the system clock.
/// Fails only when the clock cannot be read.
fn generate_token(user_id: &str, kind: PrincipalKind, env: &Env) -> (r: Result<String, AppError>)
    ensures
        match r {
            Ok(t) => exists|now: nat| t@ == #[trigger] issued_token_chars(*env, kind, user_id@, now),
            Err(e) => e is TimeError,
        },
{
    let now_ms = match sys::now_unix_millis() {
        Some(ms) => ms,
        None => {
            return Err(AppError::TimeError);
        },
    };
    let now = now_ms / 1000;
    let t = issue_token_at(user_id, kind, now, env);
    proof {
        assert(t@ == issued_token_chars(*env, kind, user_id@, now as nat));
    }
    Ok(t)
}

/// Issues an admin token for a subject at the current time.
pub fn generate_admin_token(user_id: &str, env: &Env) -> (r: Result<String, AppError>)
    ensures
        match r {
            Ok(t) => exists|now: nat|
                t@ == #[trigger] issued_token_chars(*env, PrincipalKind::Admin, user_id@, now),
            Err(e) => e is TimeError,
        },
{
    generate_token(user_id, PrincipalKind::Admin, env)
}

/// Issues a user token for a subject at the current time.
pub fn generate_user_token(user_id: &str, env: &Env) -> (r: Result<String, AppError>)
    ensures
        match r {
            Ok(t) => exists|now: nat|
                t@ == #[trigger] issued_token_chars(*env, PrincipalKind::User, user_id@, now),
            Err(e) => e is TimeError,
        },
{
    generate_token(user_id, PrincipalKind::User, env)
}

/// The first dot of a canonical token closes the base64 header.
proof fn lemma_first_dot_pin(
    t: Seq<char>,
    d1: int,
    sub: Seq<char>,
    ut: Seq<char>,
    e: nat,
    secret: Seq<char>,
)
    requires
        t == token_chars(sub, ut, e, secret),
        0 <= d1 < t.len(),
        t[d1] == '.',
        forall|j: int| 0 <= j < d1 ==> t[j] != '.',
    ensures
        d1 == header_b64().len(),
{
    lemma_token_shape(sub, ut, e, secret);
    let hl = header_b64().len() as int;
    if d1 < hl {
        assert(t[d1] != '.');
    }
    if d1 > hl {
        assert(t[hl] == '.');
    }
}

/// The second dot of a canonical token closes the base64 payload.
proof fn lemma_dots_pin(
    t: Seq<char>,
    d1: int,
    d2: int,
    sub: Seq<char>,
    ut: Seq<char>,
    e: nat,
    secret: Seq<char>,
)
    requires
        t == token_chars(sub, ut, e, secret),
        0 <= d1 < t.len(),
        t[d1] == '.',
        forall|j: int| 0 <= j < d1 ==> t[j] != '.',
        d1 < d2 < t.len(),
        t[d2] == '.',
        forall|j: int| d1 < j < d2 ==> t[j] != '.',
    ensures
        d1 == header_b64().len(),
        d2 == d1 + 1 + payload_b64(sub, ut, e).len(),
        t.subrange(d1 + 1, d2) == payload_b64(sub, ut, e),
{
    lemma_first_dot_pin(t, d1, sub, ut, e, secret);
    lemma_token_shape(sub, ut, e, secret);
    let hl = header_b64().len() as int;
    let pl = payload_b64(sub, ut, e).len() as int;
    if d2 < hl + 1 + pl {
        assert(t[d2] != '.');
    }
    if d2 > hl + 1 + pl {
        assert(t[hl + 1 + pl] == '.');
    }
}

/// Verifies a token under a kind's secret at a given time, exactly: the
/// call succeeds if and only if the token is the canonical token of some
/// well-formed claim set under that secret whose expiry lies strictly
/// after `now`, and on success it returns precisely that claim set.  All
/// rejections collapse into the one `InvalidToken` outcome.
#[verifier::rlimit(100)]
pub fn verify_token_at(token: &str, kind: PrincipalKind, now: u64, env: &Env) -> (r: Result<
    Claims,
    AppError,
>)
    ensures
        match r {
            Ok(c) => claims_wf(c) && token@ == token_chars(
                c.sub@,
                c.user_type@,
                c.exp as nat,
                spec_secret(*env, kind),
            ) && now < c.exp,
            Err(e) => e is InvalidToken && !token_verifies(
                token@,
                spec_secret(*env, kind),
                now as nat,
            ),
        },
{
    let ghost secret = spec_secret(*env, kind);
    let secret_string: &String = match kind {
        PrincipalKind::Admin => &env.admin_jwt_secret,
        PrincipalKind::User => &env.user_jwt_secret,
    };
    let chars = chars_of_str(token);
    let ghost t = token@;
    let n = chars.len();
    let mut d1: usize = 0;
    while d1 < n && !(chars[d1] == '.')
        invariant
            0 <= d1 <= n,
            n == t.len(),
            chars@ == t,
            forall|j: int| 0 <= j < d1 ==> t[j] != '.',
        decreases n - d1,
    {
        d1 = d1 + 1;
    }
    if d1 == n {
        proof {
            if token_verifies(t, secret, now as nat) {
                let (sub, ut, e): (Seq<char>, Seq<char>, nat) = choose|
                    sub: Seq<char>,
                    ut: Seq<char>,
                    e: nat,
                |
                    ut_wf(ut) && e < 0x10000000000000000 && t == #[trigger] token_chars(
                        sub,
                        ut,
                        e,
                        secret,
                    ) && (now as nat) < e;
                lemma_token_shape(sub, ut, e, secret);
                assert(t[header_b64().len() as int] == '.');
            }
        }
        return Err(AppError::InvalidToken);
    }
    let mut d2: usize = d1 + 1;
    while d2 < n && !(chars[d2] == '.')
        invariant
            d1 < d2 <= n,
            d1 < n,
            n == t.len(),
            chars@ == t,
            t[d1 as int] == '.',
            forall|j: int| 0 <= j < d1 ==> t[j] != '.',
            forall|j: int| d1 < j < d2 ==> t[j] != '.',
        decreases n - d2,
    {
        d2 = d2 + 1;
    }
    if d2 == n {
        proof {
            if token_verifies(t, secret, now as nat) {
                let (sub, ut, e): (Seq<char>, Seq<char>, nat) = choose|
                    sub: Seq<char>,
                    ut: Seq<char>,
                    e: nat,
                |
                    ut_wf(ut) && e < 0x10000000000000000 && t == #[trigger] token_chars(
                        sub,
                        ut,
                        e,
                        secret,
                    ) && (now as nat) < e;
                lemma_first_dot_pin(t, d1 as int, sub, ut, e, secret);
                lemma_token_shape(sub, ut, e, secret);
                let hl = header_b64().len() as int;
                let pl = payload_b64(sub, ut, e).len() as int;
                assert(t[hl + 1 + pl] == '.');
            }
        }
        return Err(AppError::InvalidToken);
    }
    let mut pvec: Vec<char> = Vec::new();
    let mut j: usize = d1 + 1;
    while j < d2
        invariant
            d1 + 1 <= j <= d2 <= n,
            n == t.len(),
            chars@ == t,
            pvec@ == t.subrange(d1 + 1, j as int),
        decreases d2 - j,
    {
        pvec.push(chars[j]);
        proof {
            assert(pvec@ =~= t.subrange(d1 + 1, j + 1));
        }
        j = j + 1;
    }
    let pbytes = match b64url_decode(&pvec) {
        Some(b) => b,
        None => {
            proof {
                if token_verifies(t, secret, now as nat) {
                    let (sub, ut, e): (Seq<char>, Seq<char>, nat) = choose|
                        sub: Seq<char>,
                        ut: Seq<char>,
                        e: nat,
                    |
                        ut_wf(ut) && e < 0x10000000000000000 && t == #[trigger] token_chars(
                            sub,
                            ut,
                            e,
                            secret,
                        ) && (now as nat) < e;
                    lemma_dots_pin(t, d1 as int, d2 as int, sub, ut, e, secret);
                    assert(pvec@ == b64url_of(ascii_bytes_of(payload_chars(sub, ut, e))));
                }
            }
            return Err(AppError::InvalidToken);
        },
    };
    let pchars = bytes_to_chars(&pbytes);
    let c = match parse_claims(&pchars) {
        Some(c) => c,
        None => {
            proof {
                if token_verifies(t, secret, now as nat) {
                    let (sub, ut, e): (Seq<char>, Seq<char>, nat) = choose|
                        sub: Seq<char>,
                        ut: Seq<char>,
                        e: nat,
                    |
                        ut_wf(ut) && e < 0x10000000000000000 && t == #[trigger] token_chars(
                            sub,
                            ut,
                            e,
                            secret,
                        ) && (now as nat) < e;
                    lemma_dots_pin(t, d1 as int, d2 as int, sub, ut, e, secret);
                    assert(b64url_of(pbytes@) == b64url_of(
                        ascii_bytes_of(payload_chars(sub, ut, e)),
                    ));
                    lemma_b64_injective(pbytes@, ascii_bytes_of(payload_chars(sub, ut, e)));
                    lemma_payload_ascii(sub, ut, e);
                    lemma_ascii_roundtrip(payload_chars(sub, ut, e));
                    assert(pchars@ == payload_chars(sub, ut, e));
                    assert(spells_payload(pchars@, sub, ut, e));
                }
            }
            return Err(AppError::InvalidToken);
        },
    };
    let rebuilt = build_token(c.sub.as_str(), c.user_type.as_str(), c.exp, secret_string.as_str());
    if str_eq(token, rebuilt.as_str()) && now < c.exp {
        Ok(c)
    } else {
        proof {
            if token_verifies(t, secret, now as nat) {
                let (sub, ut, e): (Seq<char>, Seq<char>, nat) = choose|
                    sub: Seq<char>,
                    ut: Seq<char>,
                    e: nat,
                |
                    ut_wf(ut) && e < 0x10000000000000000 && t == #[trigger] token_chars(
                        sub,
                        ut,
                        e,
                        secret,
                    ) && (now as nat) < e;
                lemma_dots_pin(t, d1 as int, d2 as int, sub, ut, e, secret);
                assert(b64url_of(pbytes@) == b64url_of(
                    ascii_bytes_of(payload_chars(sub, ut, e)),
                ));
                lemma_b64_injective(pbytes@, ascii_bytes_of(payload_chars(sub, ut, e)));
                lemma_payload_ascii(sub, ut, e);
                lemma_ascii_roundtrip(payload_chars(sub, ut, e));
                assert(spells_payload(pchars@, sub, ut, e));
                assert(c.sub@ == sub && c.user_type@ == ut && c.exp as nat == e);
                assert(rebuilt@ == t);
            }
        }
        Err(AppError::InvalidToken)
    }
}

/// Verifies a token under a kind's secret against the system clock.
/// Every failure, an unreadable clock included, collapses into
/// `InvalidToken`.
pub fn decode_token(token: &str, kind: PrincipalKind, env: &Env) -> (r: Result<Claims, AppError>)
    ensures
        match r {
            Ok(c) => claims_wf(c) && token@ == token_chars(
                c.sub@,
                c.user_type@,
                c.exp as nat,
                spec_secret(*env, kind),
            ),
            Err(e) => e is InvalidToken,
        },
{
    let now = match sys::now_unix_millis() {
        Some(ms) => ms / 1000,
        None => {
            return Err(AppError::InvalidToken);
        },
    };
    match verify_token_at(token, kind, now, env) {
        Ok(c) => Ok(c),
        Err(_) => Err(AppError::InvalidToken),
    }
}

/// Verifies a token under the admin secret against the system clock.
pub fn decode_admin_token(token: &str, env: &Env) -> (r: Result<Claims, AppError>)
    ensures
        match r {
            Ok(c) => claims_wf(c) && token@ == token_chars(
                c.sub@,
                c.user_type@,
                c.exp as nat,
                env.admin_jwt_secret@,
            ),
            Err(e) => e is InvalidToken,
        },
{
    decode_token(token, PrincipalKind::Admin, env)
}

/// Verifies a token under the user secret against the system clock.
pub fn decode_user_token(token: &str, env: &Env) -> (r: Result<Claims, AppError>)
    ensures
        match r {
            Ok(c) => claims_wf(c) && token@ == token_chars(
                c.sub@,
                c.user_type@,
                c.exp as nat,
                env.user_jwt_secret@,
            ),
            Err(e) => e is InvalidToken,
        },
{
    decode_token(token, PrincipalKind::User, env)
}

/// Token kind isolation: when a token issued under one secret verifies
/// under another, the two secrets' signatures collide on that token's own
/// signed part.  The HMAC makes such a collision negligible for any pair
/// of distinct secrets, so a token issued for one principal kind fails
/// verification under the other kind's secret.
pub proof fn lemma_token_kind_isolation(
    sub: Seq<char>,
    ut: Seq<char>,
    e: nat,
    s1: Seq<char>,
    s2: Seq<char>,
    now: nat,
)
    requires
        ut_wf(ut),
        e < 0x10000000000000000,
        token_verifies(token_chars(sub, ut, e, s1), s2, now),
    ensures
        mac_b64_of(s2, signing_input_chars(sub, ut, e)) == mac_b64_of(
            s1,
            signing_input_chars(sub, ut, e),
        ),
{
    let t = token_chars(sub, ut, e, s1);
    let (sub2, ut2, e2): (Seq<char>, Seq<char>, nat) = choose|
        sub2: Seq<char>,
        ut2: Seq<char>,
        e2: nat,
    |
        ut_wf(ut2) && e2 < 0x10000000000000000 && t == #[trigger] token_chars(sub2, ut2, e2, s2)
            && now < e2;
    lemma_token_claims_unique(sub, ut, e, s1, sub2, ut2, e2, s2);
}

/// Expiry boundary: a token of a well-formed claim set verifies under its
/// own secret exactly while the clock reads strictly less than the expiry.
/// With expiry `issue + D` the token verifies at `issue + D - 1` and is
/// rejected from `issue + D` on; there is no clock-skew allowance.
pub proof fn lemma_expiry_boundary(
    sub: Seq<char>,
    ut: Seq<char>,
    e: nat,
    secret: Seq<char>,
    now: nat,
)
    requires
        ut_wf(ut),
        e < 0x10000000000000000,
    ensures
        token_verifies(token_chars(sub, ut, e, secret), secret, now) <==> now < e,
{
    let t = token_chars(sub, ut, e, secret);
    if now < e {
        assert(ut_wf(ut) && e < 0x10000000000000000 && t == token_chars(sub, ut, e, secret) && now
            < e);
        assert(token_verifies(t, secret, now));
    }
    if token_verifies(t, secret, now) {
        let (sub2, ut2, e2): (Seq<char>, Seq<char>, nat) = choose|
            sub2: Seq<char>,
            ut2: Seq<char>,
            e2: nat,
        |
            ut_wf(ut2) && e2 < 0x10000000000000000 && t == #[trigger] token_chars(
                sub2,
                ut2,
                e2,
                secret,
            ) && now < e2;
        lemma_token_claims_unique(sub, ut, e, secret, sub2, ut2, e2, secret);
    }
}

} // verus!
