//! The claim set of a bearer token and its canonical textual form.
//!
//! A token's payload spells three claims in a fixed JSON shape:
//! `{"sub":"…","user_type":"admin|user","exp":N}`.  The subject is written
//! with the standard JSON string escapes (`\uXXXX`, lowercase hex, with
//! surrogate pairs beyond the basic plane) for quotes, backslashes,
//! control chars and everything outside printable ASCII; the expiry is
//! canonical decimal.  The parser accepts exactly the canonical images, so
//! every well-formed claim set round-trips and two different claim sets
//! never share a payload.

use vstd::prelude::*;

use crate::id::hex_char_of;

verus! {

/// The two principal classes the system issues credentials for.
#[derive(Clone, Copy, PartialEq, Eq, Structural, Debug)]
pub enum PrincipalKind {
    Admin,
    User,
}

/// The decoded payload of a bearer token: subject, principal kind and
/// absolute expiry in seconds since the Unix epoch.  It lives only inside
/// a signed token string and in memory during a single request.
pub struct Claims {
    pub sub: String,
    pub user_type: String,
    pub exp: u64,
}

/// The claim text of the admin principal kind.
pub open spec fn admin_chars() -> Seq<char> {
    seq!['a', 'd', 'm', 'i', 'n']
}

/// The claim text of the user principal kind.
pub open spec fn user_chars() -> Seq<char> {
    seq!['u', 's', 'e', 'r']
}

/// The claim text of a principal kind.
pub open spec fn kind_chars(k: PrincipalKind) -> Seq<char> {
    match k {
        PrincipalKind::Admin => admin_chars(),
        PrincipalKind::User => user_chars(),
    }
}

/// A `user_type` claim must spell one of the two principal kinds.
pub open spec fn ut_wf(ut: Seq<char>) -> bool {
    ut == admin_chars() || ut == user_chars()
}

/// Well-formed claims: a recognised principal kind.
pub open spec fn claims_wf(c: Claims) -> bool {
    ut_wf(c.user_type@)
}

/// Chars that the canonical form writes as an escape: quotes, backslashes,
/// controls, and everything at or above DEL.
pub open spec fn needs_escape(c: char) -> bool {
    (c as u32) < 0x20 || c == '"' || c == '\\' || (c as u32) >= 0x7F
}

/// Four lowercase hex digits of a 16-bit value.
pub open spec fn hex4_of(u: int) -> Seq<char> {
    seq![
        hex_char_of(u / 0x1000 % 16),
        hex_char_of(u / 0x100 % 16),
        hex_char_of(u / 16 % 16),
        hex_char_of(u % 16),
    ]
}

/// The canonical spelling of one subject char.
pub open spec fn esc_char(c: char) -> Seq<char> {
    if !needs_escape(c) {
        seq![c]
    } else if (c as u32) < 0x10000 {
        seq!['\\', 'u'] + hex4_of(c as u32 as int)
    } else {
        seq!['\\', 'u'] + hex4_of(0xD800 + ((c as u32 - 0x10000) as int) / 0x400) + seq![
            '\\',
            'u',
        ] + hex4_of(0xDC00 + ((c as u32 - 0x10000) as int) % 0x400)
    }
}

/// The canonical spelling of a subject.
pub open spec fn esc(s: Seq<char>) -> Seq<char>
    decreases s.len(),
{
    if s.len() == 0 {
        Seq::empty()
    } else {
        esc_char(s[0]) + esc(s.skip(1))
    }
}

/// Canonical decimal digits of a number, no leading zeros.
pub open spec fn digits_of(n: nat) -> Seq<char>
    decreases n,
{
    if n < 10 {
        seq![hex_char_of(n as int)]
    } else {
        digits_of(n / 10) + seq![hex_char_of((n % 10) as int)]
    }
}

/// The value of a decimal digit string, most significant first.
pub open spec fn val10(s: Seq<char>) -> int
    decreases s.len(),
{
    if s.len() == 0 {
        0
    } else {
        val10(s.drop_last()) * 10 + ((s.last() as u32) - 48)
    }
}

/// Whether a char is a decimal digit.
pub open spec fn is_digit_char(c: char) -> bool {
    48 <= (c as u32) <= 57
}

/// The fixed opening of the payload: `{"sub":"`.
pub open spec fn payload_pre() -> Seq<char> {
    seq!['{', '"', 's', 'u', 'b', '"', ':', '"']
}

/// The fixed text between the subject and the kind: `","user_type":"`.
pub open spec fn payload_mid1() -> Seq<char> {
    seq!['"', ',', '"', 'u', 's', 'e', 'r', '_', 't', 'y', 'p', 'e', '"', ':', '"']
}

/// The fixed text between the kind and the expiry: `","exp":`.
pub open spec fn payload_mid2() -> Seq<char> {
    seq!['"', ',', '"', 'e', 'x', 'p', '"', ':']
}

/// The canonical payload text of a claim set.
pub open spec fn payload_chars(sub: Seq<char>, ut: Seq<char>, exp: nat) -> Seq<char> {
    payload_pre() + esc(sub) + payload_mid1() + ut + payload_mid2() + digits_of(exp) + seq!['}']
}

/// The canonical payload text of a `Claims` value.
pub open spec fn payload_of(c: Claims) -> Seq<char> {
    payload_chars(c.sub@, c.user_type@, c.exp as nat)
}

/// Escaped subject text is printable ASCII without quotes: every char code
/// is in `[0x20, 0x7F)` and never a `"`.
pub proof fn lemma_esc_safe(s: Seq<char>)
    ensures
        forall|i: int| 0 <= i < esc(s).len() ==> 0x20 <= (#[trigger] esc(s)[i] as u32) < 0x7F,
        forall|i: int| 0 <= i < esc(s).len() ==> #[trigger] esc(s)[i] != '"',
    decreases s.len(),
{
    if s.len() > 0 {
        lemma_esc_safe(s.skip(1));
        lemma_esc_char_safe(s[0]);
        assert forall|i: int| 0 <= i < esc(s).len() implies 0x20 <= (#[trigger] esc(s)[i] as u32)
            < 0x7F && esc(s)[i] != '"' by {
            if i < esc_char(s[0]).len() {
                assert(esc(s)[i] == esc_char(s[0])[i]);
            } else {
                assert(esc(s)[i] == esc(s.skip(1))[i - esc_char(s[0]).len()]);
            }
        }
    }
}

proof fn lemma_hex4_safe(u: int)
    ensures
        forall|i: int| 0 <= i < 4 ==> 0x20 <= (#[trigger] hex4_of(u)[i] as u32) < 0x7F,
        forall|i: int| 0 <= i < 4 ==> #[trigger] hex4_of(u)[i] != '"' && hex4_of(u)[i] != '\\',
        forall|i: int|
            0 <= i < 4 ==> is_hex_digit_lower(#[trigger] hex4_of(u)[i]) && !needs_escape(
                hex4_of(u)[i],
            ),
{
    assert(0 <= u / 0x1000 % 16 < 16);
    assert(0 <= u / 0x100 % 16 < 16);
    assert(0 <= u / 16 % 16 < 16);
    assert(0 <= u % 16 < 16);
}

/// Lowercase hex digit chars.
pub open spec fn is_hex_digit_lower(c: char) -> bool {
    let u = c as u32;
    (48 <= u <= 57) || (97 <= u <= 102)
}

proof fn lemma_esc_char_safe(c: char)
    ensures
        esc_char(c).len() == 1 || esc_char(c).len() == 6 || esc_char(c).len() == 12,
        forall|i: int|
            0 <= i < esc_char(c).len() ==> 0x20 <= (#[trigger] esc_char(c)[i] as u32) < 0x7F,
        forall|i: int| 0 <= i < esc_char(c).len() ==> #[trigger] esc_char(c)[i] != '"',
        esc_char(c).len() == 1 ==> !needs_escape(c) && esc_char(c)[0] == c,
        esc_char(c).len() != 1 ==> esc_char(c)[0] == '\\' && esc_char(c)[1] == 'u',
{
    if needs_escape(c) {
        if (c as u32) < 0x10000 {
            lemma_hex4_safe(c as u32 as int);
        } else {
            lemma_hex4_safe(0xD800 + ((c as u32 - 0x10000) as int) / 0x400);
            lemma_hex4_safe(0xDC00 + ((c as u32 - 0x10000) as int) % 0x400);
        }
    }
}

proof fn lemma_hex4_injective(u1: int, u2: int)
    requires
        0 <= u1 < 0x10000,
        0 <= u2 < 0x10000,
        hex4_of(u1) == hex4_of(u2),
    ensures
        u1 == u2,
{
    crate::id::lemma_hex_char_val(u1 / 0x1000 % 16);
    crate::id::lemma_hex_char_val(u1 / 0x100 % 16);
    crate::id::lemma_hex_char_val(u1 / 16 % 16);
    crate::id::lemma_hex_char_val(u1 % 16);
    crate::id::lemma_hex_char_val(u2 / 0x1000 % 16);
    crate::id::lemma_hex_char_val(u2 / 0x100 % 16);
    crate::id::lemma_hex_char_val(u2 / 16 % 16);
    crate::id::lemma_hex_char_val(u2 % 16);
    assert(hex4_of(u1)[0] == hex4_of(u2)[0]);
    assert(hex4_of(u1)[1] == hex4_of(u2)[1]);
    assert(hex4_of(u1)[2] == hex4_of(u2)[2]);
    assert(hex4_of(u1)[3] == hex4_of(u2)[3]);
    assert(u1 / 0x1000 % 16 == u2 / 0x1000 % 16);
    assert(u1 / 0x100 % 16 == u2 / 0x100 % 16);
    assert(u1 / 16 % 16 == u2 / 16 % 16);
    assert(u1 % 16 == u2 % 16);
    assert(u1 == (u1 / 0x1000 % 16) * 0x1000 + (u1 / 0x100 % 16) * 0x100 + (u1 / 16 % 16) * 16
        + u1 % 16) by (nonlinear_arith)
        requires
            0 <= u1 < 0x10000,
    ;
    assert(u2 == (u2 / 0x1000 % 16) * 0x1000 + (u2 / 0x100 % 16) * 0x100 + (u2 / 16 % 16) * 16
        + u2 % 16) by (nonlinear_arith)
        requires
            0 <= u2 < 0x10000,
    ;
}

/// Two canonical char spellings that open the same text spell the same
/// char and leave the same remainder.
#[verifier::rlimit(60)]
proof fn lemma_esc_char_prefix(c1: char, c2: char, r1: Seq<char>, r2: Seq<char>)
    requires
        esc_char(c1) + r1 == esc_char(c2) + r2,
    ensures
        c1 == c2,
        r1 == r2,
{
    broadcast use vstd::utf8::char_u32_cast;

    lemma_esc_char_safe(c1);
    lemma_esc_char_safe(c2);
    let t = esc_char(c1) + r1;
    assert(t == esc_char(c2) + r2);
    let l1 = esc_char(c1).len() as int;
    let l2 = esc_char(c2).len() as int;
    assert forall|i: int| 0 <= i < l1 implies t[i] == esc_char(c1)[i] by {
        assert((esc_char(c1) + r1)[i] == esc_char(c1)[i]);
    }
    assert forall|i: int| 0 <= i < l2 implies t[i] == esc_char(c2)[i] by {
        assert((esc_char(c2) + r2)[i] == esc_char(c2)[i]);
    }
    if l1 == 1 && l2 == 1 {
        assert(t[0] == esc_char(c1)[0] && esc_char(c1)[0] == c1);
        assert(t[0] == esc_char(c2)[0] && esc_char(c2)[0] == c2);
        assert(c1 == c2);
    } else if l1 == 1 || l2 == 1 {
        // one literal, one escape: the escape starts with a backslash, the
        // literal char is never a backslash
        if l1 == 1 {
            assert(t[0] == c1 && !needs_escape(c1));
            assert(t[0] == '\\');
        } else {
            assert(t[0] == c2 && !needs_escape(c2));
            assert(t[0] == '\\');
        }
        assert(false);
    } else {
        // both escapes: equal hex quartets spell equal code units
        let u1 = if (c1 as u32) < 0x10000 {
            c1 as u32 as int
        } else {
            0xD800 + ((c1 as u32 - 0x10000) as int) / 0x400
        };
        let u2 = if (c2 as u32) < 0x10000 {
            c2 as u32 as int
        } else {
            0xD800 + ((c2 as u32 - 0x10000) as int) / 0x400
        };
        assert(hex4_of(u1) =~= t.subrange(2, 6));
        assert(hex4_of(u2) =~= t.subrange(2, 6));
        assert(0 <= u1 < 0x10000 && 0 <= u2 < 0x10000) by {
            vstd::utf8::char_is_scalar(c1);
            vstd::utf8::char_is_scalar(c2);
        }
        lemma_hex4_injective(u1, u2);
        // a lone BMP code is never a surrogate, a pair's first unit always is
        vstd::utf8::char_is_scalar(c1);
        vstd::utf8::char_is_scalar(c2);
        if l1 == 6 && l2 == 6 {
            assert(c1 as u32 == c2 as u32);
            assert(c1 == c2);
        } else if l1 == 12 && l2 == 12 {
            let w1 = 0xDC00 + ((c1 as u32 - 0x10000) as int) % 0x400;
            let w2 = 0xDC00 + ((c2 as u32 - 0x10000) as int) % 0x400;
            assert(hex4_of(w1) =~= t.subrange(8, 12));
            assert(hex4_of(w2) =~= t.subrange(8, 12));
            lemma_hex4_injective(w1, w2);
            assert((c1 as u32 - 0x10000) as int / 0x400 == (c2 as u32 - 0x10000) as int / 0x400);
            assert((c1 as u32 - 0x10000) as int % 0x400 == (c2 as u32 - 0x10000) as int % 0x400);
            vstd::arithmetic::div_mod::lemma_fundamental_div_mod(
                (c1 as u32 - 0x10000) as int,
                0x400,
            );
            vstd::arithmetic::div_mod::lemma_fundamental_div_mod(
                (c2 as u32 - 0x10000) as int,
                0x400,
            );
            assert(c1 as u32 == c2 as u32);
            assert(c1 == c2);
        } else {
            // 6 against 12: the lone code would have to be a surrogate
            assert(false);
        }
    }
    assert(esc_char(c1).len() == esc_char(c2).len());
    assert(r1.len() == r2.len());
    assert forall|i: int| 0 <= i < r1.len() implies r1[i] == r2[i] by {
        assert((esc_char(c1) + r1)[l1 + i] == r1[i]);
        assert((esc_char(c2) + r2)[l2 + i] == r2[i]);
    }
    assert(r1 =~= r2);
}

/// A canonical spelling followed by a remainder determines the spelled
/// text and the remainder.
pub proof fn lemma_esc_prefix(a: Seq<char>, r: Seq<char>, x: Seq<char>)
    requires
        esc(a) + r == esc(x),
    ensures
        a.len() <= x.len(),
        a == x.take(a.len() as int),
        r == esc(x.skip(a.len() as int)),
    decreases a.len(),
{
    if a.len() == 0 {
        assert(esc(a) + r =~= r);
        assert(x.skip(0) =~= x);
        assert(a =~= x.take(0));
    } else {
        lemma_esc_char_safe(a[0]);
        if x.len() == 0 {
            assert(esc(x).len() == 0);
            assert(esc(a) == esc_char(a[0]) + esc(a.skip(1)));
            assert(esc(a).len() >= 1);
            assert((esc(a) + r).len() >= 1);
            assert(false);
        }
        assert(esc_char(a[0]) + (esc(a.skip(1)) + r) =~= esc_char(x[0]) + esc(x.skip(1)));
        lemma_esc_char_prefix(a[0], x[0], esc(a.skip(1)) + r, esc(x.skip(1)));
        lemma_esc_prefix(a.skip(1), r, x.skip(1));
        assert(a.skip(1).len() <= x.skip(1).len());
        assert(a.len() <= x.len());
        assert(a =~= x.take(a.len() as int)) by {
            assert(a[0] == x[0]);
            assert forall|i: int| 1 <= i < a.len() implies a[i] == x[i] by {
                assert(a.skip(1)[i - 1] == x.skip(1).take(a.len() - 1)[i - 1]);
            }
        }
        assert(x.skip(1).skip(a.len() - 1) =~= x.skip(a.len() as int));
    }
}

/// Canonical subject spellings are injective.
pub proof fn lemma_esc_injective(s1: Seq<char>, s2: Seq<char>)
    requires
        esc(s1) == esc(s2),
    ensures
        s1 == s2,
{
    assert(esc(s1) + Seq::<char>::empty() =~= esc(s2));
    lemma_esc_prefix(s1, Seq::empty(), s2);
    assert(esc(s2.skip(s1.len() as int)).len() == 0);
    if s1.len() < s2.len() {
        lemma_esc_char_safe(s2.skip(s1.len() as int)[0]);
        assert(esc(s2.skip(s1.len() as int)).len() >= 1);
    }
    assert(s1.len() == s2.len());
    assert(s1 =~= s2.take(s1.len() as int));
    assert(s2.take(s2.len() as int) =~= s2);
}

/// Canonical decimal text: nonempty, all digits, a leading zero only for
/// zero itself, and it spells the number back.
pub proof fn lemma_digits(n: nat)
    ensures
        digits_of(n).len() >= 1,
        n >= 10 ==> digits_of(n).len() >= 2,
        forall|i: int| 0 <= i < digits_of(n).len() ==> is_digit_char(#[trigger] digits_of(n)[i]),
        digits_of(n).len() > 1 ==> digits_of(n)[0] != '0',
        val10(digits_of(n)) == n,
    decreases n,
{
    if n < 10 {
        assert(digits_of(n) =~= seq![hex_char_of(n as int)]);
        crate::id::lemma_hex_char_val(n as int);
        assert(digits_of(n).drop_last() =~= Seq::<char>::empty());
        assert(val10(digits_of(n).drop_last()) == 0);
        assert(val10(digits_of(n)) == 0 * 10 + ((hex_char_of(n as int) as u32) - 48));
    } else {
        lemma_digits(n / 10);
        crate::id::lemma_hex_char_val((n % 10) as int);
        let d = digits_of(n);
        let p = digits_of(n / 10);
        assert(d == p + seq![hex_char_of((n % 10) as int)]);
        assert(d.drop_last() =~= p);
        assert(d.last() == hex_char_of((n % 10) as int));
        assert((d.last() as u32) - 48 == n % 10);
        assert(val10(d) == val10(p) * 10 + ((d.last() as u32) - 48));
        assert(val10(d) == (n / 10) * 10 + n % 10);
        vstd::arithmetic::div_mod::lemma_fundamental_div_mod(n as int, 10);
        assert forall|i: int| 0 <= i < d.len() implies is_digit_char(#[trigger] d[i]) by {
            if i < d.len() - 1 {
                assert(d[i] == p[i]);
            }
        }
        assert(d[0] == p[0]);
        assert(n / 10 >= 1);
        if n / 10 < 10 {
            assert(p == seq![hex_char_of((n / 10) as int)]);
            crate::id::lemma_hex_char_val((n / 10) as int);
            assert(p[0] != '0');
        } else {
            assert(p.len() >= 2);
            assert(p[0] != '0');
        }
    }
}

/// Growing a digit string never shrinks its value.
pub proof fn lemma_val10_prefix(s: Seq<char>, k: int)
    requires
        0 <= k <= s.len(),
        forall|i: int| 0 <= i < s.len() ==> is_digit_char(#[trigger] s[i]),
    ensures
        0 <= val10(s.take(k)) <= val10(s),
    decreases s.len() - k,
{
    if k == s.len() {
        assert(s.take(k) =~= s);
        lemma_val10_nonneg(s);
    } else {
        lemma_val10_prefix(s, k + 1);
        let t = s.take(k + 1);
        assert(t.drop_last() =~= s.take(k));
        assert(val10(t) == val10(s.take(k)) * 10 + ((t.last() as u32) - 48));
        lemma_val10_nonneg(s.take(k));
    }
}

proof fn lemma_val10_nonneg(s: Seq<char>)
    requires
        forall|i: int| 0 <= i < s.len() ==> is_digit_char(#[trigger] s[i]),
    ensures
        val10(s) >= 0,
    decreases s.len(),
{
    if s.len() > 0 {
        assert(s.drop_last() =~= s.take(s.len() - 1));
        assert forall|i: int| 0 <= i < s.drop_last().len() implies is_digit_char(
            #[trigger] s.drop_last()[i],
        ) by {
            assert(s.drop_last()[i] == s[i]);
        }
        lemma_val10_nonneg(s.drop_last());
    }
}

/// Equal canonical decimal text spells equal numbers.
pub proof fn lemma_digits_injective(a: nat, b: nat)
    requires
        digits_of(a) == digits_of(b),
    ensures
        a == b,
{
    lemma_digits(a);
    lemma_digits(b);
}

/// Splitting the canonical spelling at any char boundary of the subject.
pub proof fn lemma_esc_concat(a: Seq<char>, b: Seq<char>)
    ensures
        esc(a + b) == esc(a) + esc(b),
    decreases a.len(),
{
    if a.len() == 0 {
        assert(a + b =~= b);
        assert(esc(a) + esc(b) =~= esc(b));
    } else {
        lemma_esc_concat(a.skip(1), b);
        let ab = a + b;
        assert(ab[0] == a[0]);
        assert(ab.skip(1) =~= a.skip(1) + b);
        assert(esc(a + b) =~= esc(a) + esc(b));
    }
}

/// Lowercase hex digit chars spell their own value back.
pub proof fn lemma_lower_hex_round(c: char)
    requires
        is_hex_digit_lower(c),
    ensures
        0 <= crate::id::hex_val_of(c) < 16,
        hex_char_of(crate::id::hex_val_of(c)) == c,
        !needs_escape(c),
        crate::id::is_hex_char(c),
{
    broadcast use vstd::utf8::char_u32_cast;

}

/// Reading a 16-bit value back from its four hex digits.
pub proof fn lemma_hex4_build(d0: int, d1: int, d2: int, d3: int, u: int)
    requires
        0 <= d0 < 16,
        0 <= d1 < 16,
        0 <= d2 < 16,
        0 <= d3 < 16,
        u == d0 * 0x1000 + d1 * 0x100 + d2 * 16 + d3,
    ensures
        0 <= u < 0x10000,
        u / 0x1000 % 16 == d0,
        u / 0x100 % 16 == d1,
        u / 16 % 16 == d2,
        u % 16 == d3,
{
    vstd::arithmetic::div_mod::lemma_fundamental_div_mod_converse(
        u,
        0x1000,
        d0,
        d1 * 0x100 + d2 * 16 + d3,
    );
    vstd::arithmetic::div_mod::lemma_fundamental_div_mod_converse(
        u,
        0x100,
        d0 * 16 + d1,
        d2 * 16 + d3,
    );
    vstd::arithmetic::div_mod::lemma_fundamental_div_mod_converse(
        u,
        16,
        d0 * 0x100 + d1 * 16 + d2,
        d3,
    );
    vstd::arithmetic::div_mod::lemma_fundamental_div_mod_converse(d0 * 16 + d1, 16, d0, d1);
    vstd::arithmetic::div_mod::lemma_fundamental_div_mod_converse(
        d0 * 0x100 + d1 * 16 + d2,
        16,
        d0 * 16 + d1,
        d2,
    );
}

/// Where each piece of the canonical payload text sits.
#[verifier::rlimit(60)]
pub proof fn lemma_payload_parts(sub: Seq<char>, ut: Seq<char>, e: nat)
    ensures
        payload_chars(sub, ut, e).len() == 32 + (esc(sub).len() as int) + (ut.len() as int) + (digits_of(e).len() as int),
        payload_chars(sub, ut, e).subrange(0, 8) == payload_pre(),
        payload_chars(sub, ut, e).subrange(8, 8 + (esc(sub).len() as int)) == esc(sub),
        payload_chars(sub, ut, e).subrange(
            8 + (esc(sub).len() as int),
            23 + (esc(sub).len() as int),
        ) == payload_mid1(),
        payload_chars(sub, ut, e).subrange(
            23 + (esc(sub).len() as int),
            23 + (esc(sub).len() as int) + (ut.len() as int),
        ) == ut,
        payload_chars(sub, ut, e).subrange(
            23 + (esc(sub).len() as int) + (ut.len() as int),
            31 + (esc(sub).len() as int) + (ut.len() as int),
        ) == payload_mid2(),
        payload_chars(sub, ut, e).subrange(
            31 + (esc(sub).len() as int) + (ut.len() as int),
            31 + (esc(sub).len() as int) + (ut.len() as int) + (digits_of(e).len() as int),
        ) == digits_of(e),
        payload_chars(sub, ut, e)[31 + (esc(sub).len() as int) + (ut.len() as int) + (digits_of(e).len() as int)] == '}',
        (digits_of(e).len() as int) >= 1,
{
    lemma_digits(e);
    let p = payload_chars(sub, ut, e);
    assert(p.subrange(0, 8) =~= payload_pre());
    assert(p.subrange(8, 8 + (esc(sub).len() as int)) =~= esc(sub));
    assert(p.subrange(8 + (esc(sub).len() as int), 23 + (esc(sub).len() as int)) =~= payload_mid1());
    assert(p.subrange(23 + (esc(sub).len() as int), 23 + (esc(sub).len() as int) + (ut.len() as int)) =~= ut);
    assert(p.subrange(
        23 + (esc(sub).len() as int) + (ut.len() as int),
        31 + (esc(sub).len() as int) + (ut.len() as int),
    ) =~= payload_mid2());
    assert(p.subrange(
        31 + (esc(sub).len() as int) + (ut.len() as int),
        31 + (esc(sub).len() as int) + (ut.len() as int) + (digits_of(e).len() as int),
    ) =~= digits_of(e));
}

/// The first quote at or after position 8 of a canonical payload closes
/// the subject.
pub proof fn lemma_payload_quote(sub: Seq<char>, ut: Seq<char>, e: nat)
    ensures
        forall|j: int|
            8 <= j < 8 + (esc(sub).len() as int) ==> #[trigger] payload_chars(sub, ut, e)[j] != '"',
        payload_chars(sub, ut, e)[8 + (esc(sub).len() as int)] == '"',
{
    lemma_payload_parts(sub, ut, e);
    lemma_esc_safe(sub);
    let p = payload_chars(sub, ut, e);
    assert forall|j: int| 8 <= j < 8 + (esc(sub).len() as int) implies #[trigger] p[j] != '"' by {
        assert(p.subrange(8, 8 + (esc(sub).len() as int))[j - 8] == p[j]);
        assert(esc(sub)[j - 8] != '"');
    }
    assert(p.subrange(8 + (esc(sub).len() as int), 23 + (esc(sub).len() as int))[0] == p[8 + (esc(sub).len() as int)]);
}

/// Equal canonical payloads carry the same subject.
#[verifier::rlimit(100)]
proof fn lemma_payload_same_sub(
    s1: Seq<char>,
    u1: Seq<char>,
    e1: nat,
    s2: Seq<char>,
    u2: Seq<char>,
    e2: nat,
)
    requires
        payload_chars(s1, u1, e1) == payload_chars(s2, u2, e2),
    ensures
        s1 == s2,
        esc(s1).len() == esc(s2).len(),
{
    let p = payload_chars(s1, u1, e1);
    lemma_payload_parts(s1, u1, e1);
    lemma_payload_parts(s2, u2, e2);
    lemma_payload_quote(s1, u1, e1);
    lemma_payload_quote(s2, u2, e2);
    assert((esc(s1).len() as int) == (esc(s2).len() as int)) by {
        if (esc(s1).len() as int) < (esc(s2).len() as int) {
            assert(p[8 + (esc(s1).len() as int)] == '"');
            assert(p[8 + (esc(s1).len() as int)] != '"');
        }
        if (esc(s2).len() as int) < (esc(s1).len() as int) {
            assert(p[8 + (esc(s2).len() as int)] == '"');
            assert(p[8 + (esc(s2).len() as int)] != '"');
        }
    }
    assert(esc(s1) == esc(s2)) by {
        assert(p.subrange(8, 8 + (esc(s1).len() as int)) == esc(s1));
        assert(p.subrange(8, 8 + (esc(s2).len() as int)) == esc(s2));
    }
    lemma_esc_injective(s1, s2);
}

/// Equal canonical payloads carry the same kind text.
#[verifier::rlimit(100)]
proof fn lemma_payload_same_kind(
    s1: Seq<char>,
    u1: Seq<char>,
    e1: nat,
    s2: Seq<char>,
    u2: Seq<char>,
    e2: nat,
)
    requires
        ut_wf(u1),
        ut_wf(u2),
        payload_chars(s1, u1, e1) == payload_chars(s2, u2, e2),
        esc(s1).len() == esc(s2).len(),
    ensures
        u1 == u2,
{
    let p = payload_chars(s1, u1, e1);
    lemma_payload_parts(s1, u1, e1);
    lemma_payload_parts(s2, u2, e2);
    let o3 = 23 + (esc(s1).len() as int);
    assert(p.subrange(o3, o3 + (u1.len() as int)) == u1);
    assert(p.subrange(o3, o3 + (u2.len() as int)) == u2);
    assert(p.subrange(o3, o3 + (u1.len() as int))[0] == p[o3]);
    assert(p.subrange(o3, o3 + (u2.len() as int))[0] == p[o3]);
    assert(u1[0] == u2[0]);
    if u1 == admin_chars() && u2 == user_chars() {
        assert(u1[0] == 'a' && u2[0] == 'u');
    }
    if u1 == user_chars() && u2 == admin_chars() {
        assert(u1[0] == 'u' && u2[0] == 'a');
    }
}

/// Equal canonical payloads carry the same expiry.
#[verifier::rlimit(100)]
proof fn lemma_payload_same_exp(
    s1: Seq<char>,
    u1: Seq<char>,
    e1: nat,
    s2: Seq<char>,
    u2: Seq<char>,
    e2: nat,
)
    requires
        payload_chars(s1, u1, e1) == payload_chars(s2, u2, e2),
        esc(s1).len() == esc(s2).len(),
        u1 == u2,
    ensures
        e1 == e2,
{
    let p = payload_chars(s1, u1, e1);
    lemma_payload_parts(s1, u1, e1);
    lemma_payload_parts(s2, u2, e2);
    assert((digits_of(e1).len() as int) == (digits_of(e2).len() as int));
    let o5 = 31 + (esc(s1).len() as int) + (u1.len() as int);
    assert(p.subrange(o5, o5 + (digits_of(e1).len() as int)) == digits_of(e1));
    assert(p.subrange(o5, o5 + (digits_of(e2).len() as int)) == digits_of(e2));
    lemma_digits_injective(e1, e2);
}

/// Two well-formed claim sets with the same canonical payload are equal.
pub proof fn lemma_payload_injective(
    s1: Seq<char>,
    u1: Seq<char>,
    e1: nat,
    s2: Seq<char>,
    u2: Seq<char>,
    e2: nat,
)
    requires
        ut_wf(u1),
        ut_wf(u2),
        payload_chars(s1, u1, e1) == payload_chars(s2, u2, e2),
    ensures
        s1 == s2,
        u1 == u2,
        e1 == e2,
{
    lemma_payload_same_sub(s1, u1, e1, s2, u2, e2);
    lemma_payload_same_kind(s1, u1, e1, s2, u2, e2);
    lemma_payload_same_exp(s1, u1, e1, s2, u2, e2);
}



/// The lowercase hex digit char of a value below 16.
fn hex_digit_char(d: u8) -> (c: char)
    requires
        d < 16,
    ensures
        c == hex_char_of(d as int),
{
    if d < 10 {
        (d + 48) as char
    } else {
        (d + 87) as char
    }
}

/// Appends the four hex digits of a 16-bit value.
fn push_hex4(out: &mut Vec<char>, u: u32)
    requires
        u < 0x10000,
    ensures
        final(out)@ == old(out)@ + hex4_of(u as int),
{
    out.push(hex_digit_char(((u / 0x1000) % 16) as u8));
    out.push(hex_digit_char(((u / 0x100) % 16) as u8));
    out.push(hex_digit_char(((u / 16) % 16) as u8));
    out.push(hex_digit_char((u % 16) as u8));
    proof {
        assert(final(out)@ =~= old(out)@ + hex4_of(u as int));
    }
}

/// Appends the canonical spelling of one subject char.
fn push_esc_char(out: &mut Vec<char>, c: char)
    ensures
        final(out)@ == old(out)@ + esc_char(c),
{
    proof {
        vstd::utf8::char_is_scalar(c);
    }
    let u = c as u32;
    if 0x20 <= u && u < 0x7F && c != '"' && c != '\\' {
        out.push(c);
        proof {
            assert(final(out)@ =~= old(out)@ + esc_char(c));
        }
    } else if u < 0x10000 {
        out.push('\\');
        out.push('u');
        push_hex4(out, u);
        proof {
            assert(final(out)@ =~= old(out)@ + esc_char(c));
        }
    } else {
        out.push('\\');
        out.push('u');
        push_hex4(out, 0xD800 + (u - 0x10000) / 0x400);
        out.push('\\');
        out.push('u');
        push_hex4(out, 0xDC00 + (u - 0x10000) % 0x400);
        proof {
            assert(final(out)@ =~= old(out)@ + esc_char(c));
        }
    }
}

/// Appends the canonical spelling of a whole subject.
fn push_esc_str(out: &mut Vec<char>, s: &str)
    ensures
        final(out)@ == old(out)@ + esc(s@),
{
    let n = s.unicode_len();
    let mut i: usize = 0;
    while i < n
        invariant
            i <= n,
            n == s@.len(),
            out@ == old(out)@ + esc(s@.take(i as int)),
        decreases n - i,
    {
        let c = s.get_char(i);
        push_esc_char(out, c);
        proof {
            lemma_esc_concat(s@.take(i as int), seq![s@[i as int]]);
            assert(s@.take(i + 1) =~= s@.take(i as int) + seq![s@[i as int]]);
            assert(seq![s@[i as int]].skip(1) =~= Seq::<char>::empty());
            assert(esc(seq![s@[i as int]].skip(1)) =~= Seq::<char>::empty());
            assert(esc(seq![s@[i as int]]) =~= esc_char(s@[i as int]));
            assert(out@ =~= old(out)@ + esc(s@.take(i + 1)));
        }
        i = i + 1;
    }
    proof {
        assert(s@.take(n as int) =~= s@);
    }
}

/// Appends the chars of a string unchanged.
fn push_str_chars(out: &mut Vec<char>, s: &str)
    ensures
        final(out)@ == old(out)@ + s@,
{
    let n = s.unicode_len();
    let mut i: usize = 0;
    while i < n
        invariant
            i <= n,
            n == s@.len(),
            out@ == old(out)@ + s@.take(i as int),
        decreases n - i,
    {
        let c = s.get_char(i);
        out.push(c);
        proof {
            assert(out@ =~= old(out)@ + s@.take(i + 1));
        }
        i = i + 1;
    }
    proof {
        assert(s@.take(n as int) =~= s@);
    }
}

/// Appends the canonical decimal spelling of a number.
fn push_digits(out: &mut Vec<char>, n: u64)
    ensures
        final(out)@ == old(out)@ + digits_of(n as nat),
    decreases n,
{
    if n < 10 {
        out.push(hex_digit_char(n as u8));
        proof {
            assert(final(out)@ =~= old(out)@ + digits_of(n as nat));
        }
    } else {
        push_digits(out, n / 10);
        out.push(hex_digit_char((n % 10) as u8));
        proof {
            assert(digits_of(n as nat) == digits_of(n as nat / 10) + seq![
                hex_char_of((n as nat % 10) as int),
            ]);
            assert(final(out)@ =~= old(out)@ + digits_of(n as nat));
        }
    }
}

/// Spells a claim set in its canonical payload form.
#[verifier::rlimit(60)]
pub fn encode_payload(c: &Claims) -> (r: Vec<char>)
    ensures
        r@ == payload_of(*c),
{
    let mut out: Vec<char> = Vec::new();
    out.push('{');
    out.push('"');
    out.push('s');
    out.push('u');
    out.push('b');
    out.push('"');
    out.push(':');
    out.push('"');
    proof {
        assert(out@ =~= payload_pre());
    }
    push_esc_str(&mut out, c.sub.as_str());
    let ghost after_sub = out@;
    proof {
        assert(after_sub == payload_pre() + esc(c.sub@));
    }
    out.push('"');
    out.push(',');
    out.push('"');
    out.push('u');
    out.push('s');
    out.push('e');
    out.push('r');
    out.push('_');
    out.push('t');
    out.push('y');
    out.push('p');
    out.push('e');
    out.push('"');
    out.push(':');
    out.push('"');
    proof {
        assert(out@ =~= after_sub + payload_mid1());
    }
    push_str_chars(&mut out, c.user_type.as_str());
    let ghost after_ut = out@;
    out.push('"');
    out.push(',');
    out.push('"');
    out.push('e');
    out.push('x');
    out.push('p');
    out.push('"');
    out.push(':');
    proof {
        assert(out@ =~= after_ut + payload_mid2());
    }
    push_digits(&mut out, c.exp);
    out.push('}');
    proof {
        assert(out@ =~= payload_of(*c));
    }
    out
}


/// A nonempty remainder of a canonical spelling starts with the spelling
/// of the next subject char.
proof fn lemma_rest_is_esc(out: Seq<char>, rest: Seq<char>, x: Seq<char>)
    requires
        esc(out) + rest == esc(x),
        rest.len() > 0,
    ensures
        x.len() > out.len(),
        rest == esc_char(x[out.len() as int]) + esc(x.skip(out.len() as int + 1)),
{
    lemma_esc_prefix(out, rest, x);
    let x2 = x.skip(out.len() as int);
    if x2.len() == 0 {
        assert(esc(x2).len() == 0);
    }
    assert(esc(x2) == esc_char(x2[0]) + esc(x2.skip(1)));
    assert(x2[0] == x[out.len() as int]);
    assert(x2.skip(1) =~= x.skip(out.len() as int + 1));
}

/// The spelling of the subject char that opens the unread region.
proof fn lemma_site_common(
    chars: Seq<char>,
    from: int,
    i: int,
    to: int,
    out: Seq<char>,
    x: Seq<char>,
) -> (c0: char)
    requires
        0 <= from <= i < to <= chars.len(),
        esc(out) == chars.subrange(from, i),
        chars.subrange(from, to) == esc(x),
    ensures
        esc_char(c0).len() <= to - i,
        forall|k: int| 0 <= k < esc_char(c0).len() ==> chars[i + k] == #[trigger] esc_char(c0)[k],
        esc_char(c0).len() == 1 || esc_char(c0).len() == 6 || esc_char(c0).len() == 12,
        esc_char(c0).len() == 1 ==> !needs_escape(c0) && esc_char(c0)[0] == c0,
        esc_char(c0).len() != 1 ==> esc_char(c0)[0] == '\\' && esc_char(c0)[1] == 'u' && needs_escape(c0),
{
    let rest = chars.subrange(i, to);
    assert(esc(out) + rest =~= chars.subrange(from, to));
    lemma_rest_is_esc(out, rest, x);
    let c0 = x[out.len() as int];
    lemma_esc_char_safe(c0);
    assert forall|k: int| 0 <= k < esc_char(c0).len() implies chars[i + k] == #[trigger] esc_char(
        c0,
    )[k] by {
        assert(rest[k] == (esc_char(c0) + esc(x.skip(out.len() as int + 1)))[k]);
    }
    if needs_escape(c0) {
        assert(esc_char(c0).len() != 1);
    }
    c0
}

/// The first code unit spelled by an escape, pinned by the observed hex
/// digits: the char's own code for one escape, the high surrogate for a
/// pair.
proof fn lemma_unit_of_esc(c0: char, chars: Seq<char>, i: int, u: int)
    requires
        esc_char(c0).len() != 1,
        0 <= i,
        i + 6 <= chars.len(),
        forall|k: int| 0 <= k < esc_char(c0).len() ==> chars[i + k] == #[trigger] esc_char(c0)[k],
        0 <= u < 0x10000,
        hex4_of(u) == chars.subrange(i + 2, i + 6),
    ensures
        esc_char(c0).len() == 6 ==> u == c0 as u32 as int && !(0xD800 <= u < 0xE000),
        esc_char(c0).len() == 12 ==> u == 0xD800 + ((c0 as u32 - 0x10000) as int) / 0x400 && 0xD800
            <= u < 0xDC00,
{
    vstd::utf8::char_is_scalar(c0);
    lemma_esc_char_safe(c0);
    if esc_char(c0).len() == 6 {
        let v = c0 as u32 as int;
        assert(hex4_of(v) =~= chars.subrange(i + 2, i + 6)) by {
            assert forall|k: int| 0 <= k < 4 implies hex4_of(v)[k] == chars.subrange(i + 2, i + 6)[k] by {
                assert(chars[i + (k + 2)] == esc_char(c0)[k + 2]);
                assert(esc_char(c0)[k + 2] == hex4_of(v)[k]);
            }
        }
        lemma_hex4_injective(u, v);
    } else {
        let v = 0xD800 + ((c0 as u32 - 0x10000) as int) / 0x400;
        assert(0 <= ((c0 as u32 - 0x10000) as int) / 0x400 < 0x400);
        assert(hex4_of(v) =~= chars.subrange(i + 2, i + 6)) by {
            assert forall|k: int| 0 <= k < 4 implies hex4_of(v)[k] == chars.subrange(i + 2, i + 6)[k] by {
                assert(chars[i + (k + 2)] == esc_char(c0)[k + 2]);
                assert(esc_char(c0)[k + 2] == hex4_of(v)[k]);
            }
        }
        lemma_hex4_injective(u, v);
    }
}

/// A pair escape carries a second `\u` and the low surrogate's digits.
proof fn lemma_esc_char_pair_shape(c: char)
    requires
        esc_char(c).len() == 12,
    ensures
        esc_char(c)[6] == '\\',
        esc_char(c)[7] == 'u',
        forall|k: int| 8 <= k < 12 ==> is_hex_digit_lower(#[trigger] esc_char(c)[k]),
{
    vstd::utf8::char_is_scalar(c);
    lemma_esc_char_safe(c);
    lemma_hex4_safe(0xDC00 + ((c as u32 - 0x10000) as int) % 0x400);
    assert forall|k: int| 8 <= k < 12 implies is_hex_digit_lower(#[trigger] esc_char(c)[k]) by {
        assert(esc_char(c)[k] == hex4_of(0xDC00 + ((c as u32 - 0x10000) as int) % 0x400)[k - 8]);
    }
}

/// The hex digits of an escape sit at offsets two to five.
proof fn lemma_esc_char_hex_region(c: char)
    requires
        esc_char(c).len() != 1,
    ensures
        forall|k: int| 2 <= k < 6 ==> is_hex_digit_lower(#[trigger] esc_char(c)[k]),
{
    vstd::utf8::char_is_scalar(c);
    if (c as u32) < 0x10000 {
        lemma_hex4_safe(c as u32 as int);
        assert forall|k: int| 2 <= k < 6 implies is_hex_digit_lower(#[trigger] esc_char(c)[k]) by {
            assert(esc_char(c)[k] == hex4_of(c as u32 as int)[k - 2]);
        }
    } else {
        lemma_hex4_safe(0xD800 + ((c as u32 - 0x10000) as int) / 0x400);
        assert forall|k: int| 2 <= k < 6 implies is_hex_digit_lower(#[trigger] esc_char(c)[k]) by {
            assert(esc_char(c)[k] == hex4_of(0xD800 + ((c as u32 - 0x10000) as int) / 0x400)[k
                - 2]);
        }
    }
}

/// The low surrogate of a pair escape, pinned by the observed digits.
proof fn lemma_pair_low_of_esc(c0: char, chars: Seq<char>, i: int, w: int)
    requires
        esc_char(c0).len() == 12,
        0 <= i,
        i + 12 <= chars.len(),
        forall|k: int| 0 <= k < esc_char(c0).len() ==> chars[i + k] == #[trigger] esc_char(c0)[k],
        0 <= w < 0x10000,
        hex4_of(w) == chars.subrange(i + 8, i + 12),
    ensures
        w == 0xDC00 + ((c0 as u32 - 0x10000) as int) % 0x400,
        0xDC00 <= w < 0xE000,
{
    vstd::utf8::char_is_scalar(c0);
    let v = 0xDC00 + ((c0 as u32 - 0x10000) as int) % 0x400;
    assert(0 <= ((c0 as u32 - 0x10000) as int) % 0x400 < 0x400);
    assert(hex4_of(v) =~= chars.subrange(i + 8, i + 12)) by {
        assert forall|k: int| 0 <= k < 4 implies hex4_of(v)[k] == chars.subrange(i + 8, i + 12)[k] by {
            assert(chars[i + (k + 8)] == esc_char(c0)[k + 8]);
            assert(esc_char(c0)[k + 8] == hex4_of(v)[k]);
        }
    }
    lemma_hex4_injective(w, v);
}


/// No canonical spelling opens with a raw char from the escape set.
proof fn lemma_no_image_raw(chars: Seq<char>, from: int, i: int, to: int, out: Seq<char>)
    requires
        0 <= from <= i < to <= chars.len(),
        esc(out) == chars.subrange(from, i),
        needs_escape(chars[i]),
        chars[i] != '\\',
    ensures
        forall|x: Seq<char>| chars.subrange(from, to) != esc(x),
{
    assert forall|x: Seq<char>| chars.subrange(from, to) != esc(x) by {
        if chars.subrange(from, to) == esc(x) {
            let c0 = lemma_site_common(chars, from, i, to, out, x);
            assert(chars[i] == esc_char(c0)[0]);
        }
    }
}

/// No canonical spelling opens with a backslash that is not a full
/// `\u` escape.
proof fn lemma_no_image_bad_escape(chars: Seq<char>, from: int, i: int, to: int, out: Seq<char>)
    requires
        0 <= from <= i < to <= chars.len(),
        esc(out) == chars.subrange(from, i),
        chars[i] == '\\',
        to - i < 6 || chars[i + 1] != 'u',
    ensures
        forall|x: Seq<char>| chars.subrange(from, to) != esc(x),
{
    assert forall|x: Seq<char>| chars.subrange(from, to) != esc(x) by {
        if chars.subrange(from, to) == esc(x) {
            let c0 = lemma_site_common(chars, from, i, to, out, x);
            assert(chars[i] == esc_char(c0)[0]);
            assert(esc_char(c0).len() >= 6);
            assert(chars[i + 1] == esc_char(c0)[1]);
        }
    }
}

/// The four chars after `\u` of a canonical escape are lowercase hex.
proof fn lemma_no_image_bad_hex(
    chars: Seq<char>,
    from: int,
    i: int,
    to: int,
    out: Seq<char>,
    k: int,
)
    requires
        0 <= from <= i < to <= chars.len(),
        esc(out) == chars.subrange(from, i),
        chars[i] == '\\',
        to - i >= 6,
        chars[i + 1] == 'u',
        2 <= k < 6,
        !is_hex_digit_lower(chars[i + k]),
    ensures
        forall|x: Seq<char>| chars.subrange(from, to) != esc(x),
{
    assert forall|x: Seq<char>| chars.subrange(from, to) != esc(x) by {
        if chars.subrange(from, to) == esc(x) {
            let c0 = lemma_site_common(chars, from, i, to, out, x);
            assert(chars[i] == esc_char(c0)[0]);
            lemma_esc_char_hex_region(c0);
            assert(chars[i + k] == esc_char(c0)[k]);
        }
    }
}

/// No canonical escape spells a lone low surrogate.
proof fn lemma_no_image_low_surrogate(
    chars: Seq<char>,
    from: int,
    i: int,
    to: int,
    out: Seq<char>,
    u: int,
)
    requires
        0 <= from <= i < to <= chars.len(),
        esc(out) == chars.subrange(from, i),
        chars[i] == '\\',
        to - i >= 6,
        chars[i + 1] == 'u',
        0xDC00 <= u < 0xE000,
        hex4_of(u) == chars.subrange(i + 2, i + 6),
    ensures
        forall|x: Seq<char>| chars.subrange(from, to) != esc(x),
{
    assert forall|x: Seq<char>| chars.subrange(from, to) != esc(x) by {
        if chars.subrange(from, to) == esc(x) {
            let c0 = lemma_site_common(chars, from, i, to, out, x);
            assert(chars[i] == esc_char(c0)[0]);
            lemma_unit_of_esc(c0, chars, i, u);
        }
    }
}

/// No canonical escape spells a char that needs no escape.
proof fn lemma_no_image_unescaped_safe(
    chars: Seq<char>,
    from: int,
    i: int,
    to: int,
    out: Seq<char>,
    u: int,
    ch: char,
)
    requires
        0 <= from <= i < to <= chars.len(),
        esc(out) == chars.subrange(from, i),
        chars[i] == '\\',
        to - i >= 6,
        chars[i + 1] == 'u',
        0 <= u < 0x10000,
        !(0xD800 <= u < 0xE000),
        hex4_of(u) == chars.subrange(i + 2, i + 6),
        ch as u32 == u,
        !needs_escape(ch),
    ensures
        forall|x: Seq<char>| chars.subrange(from, to) != esc(x),
{
    assert forall|x: Seq<char>| chars.subrange(from, to) != esc(x) by {
        if chars.subrange(from, to) == esc(x) {
            let c0 = lemma_site_common(chars, from, i, to, out, x);
            assert(chars[i] == esc_char(c0)[0]);
            lemma_unit_of_esc(c0, chars, i, u);
            assert(esc_char(c0).len() == 6);
            assert(c0 as u32 == u);
            vstd::utf8::char_u32_cast(c0, ch as u32);
            vstd::utf8::char_u32_cast(ch, ch as u32);
            assert(c0 == ch);
            assert(needs_escape(c0));
        }
    }
}

/// A canonical high surrogate is always followed by a full `\u` escape.
proof fn lemma_no_image_pair_missing(
    chars: Seq<char>,
    from: int,
    i: int,
    to: int,
    out: Seq<char>,
    u: int,
)
    requires
        0 <= from <= i < to <= chars.len(),
        esc(out) == chars.subrange(from, i),
        chars[i] == '\\',
        to - i >= 6,
        chars[i + 1] == 'u',
        0xD800 <= u < 0xDC00,
        hex4_of(u) == chars.subrange(i + 2, i + 6),
        to - i < 12 || chars[i + 6] != '\\' || chars[i + 7] != 'u',
    ensures
        forall|x: Seq<char>| chars.subrange(from, to) != esc(x),
{
    assert forall|x: Seq<char>| chars.subrange(from, to) != esc(x) by {
        if chars.subrange(from, to) == esc(x) {
            let c0 = lemma_site_common(chars, from, i, to, out, x);
            assert(chars[i] == esc_char(c0)[0]);
            lemma_unit_of_esc(c0, chars, i, u);
            assert(esc_char(c0).len() == 12);
            lemma_esc_char_pair_shape(c0);
            assert(chars[i + 6] == esc_char(c0)[6]);
            assert(chars[i + 7] == esc_char(c0)[7]);
        }
    }
}

/// The second escape of a canonical pair is lowercase hex throughout.
proof fn lemma_no_image_pair_bad_hex(
    chars: Seq<char>,
    from: int,
    i: int,
    to: int,
    out: Seq<char>,
    u: int,
    k: int,
)
    requires
        0 <= from <= i < to <= chars.len(),
        esc(out) == chars.subrange(from, i),
        chars[i] == '\\',
        to - i >= 12,
        chars[i + 1] == 'u',
        0xD800 <= u < 0xDC00,
        hex4_of(u) == chars.subrange(i + 2, i + 6),
        8 <= k < 12,
        !is_hex_digit_lower(chars[i + k]),
    ensures
        forall|x: Seq<char>| chars.subrange(from, to) != esc(x),
{
    assert forall|x: Seq<char>| chars.subrange(from, to) != esc(x) by {
        if chars.subrange(from, to) == esc(x) {
            let c0 = lemma_site_common(chars, from, i, to, out, x);
            assert(chars[i] == esc_char(c0)[0]);
            lemma_unit_of_esc(c0, chars, i, u);
            assert(esc_char(c0).len() == 12);
            lemma_esc_char_pair_shape(c0);
            assert(chars[i + k] == esc_char(c0)[k]);
        }
    }
}

/// The second escape of a canonical pair spells a low surrogate.
proof fn lemma_no_image_pair_bad_low(
    chars: Seq<char>,
    from: int,
    i: int,
    to: int,
    out: Seq<char>,
    u: int,
    w: int,
)
    requires
        0 <= from <= i < to <= chars.len(),
        esc(out) == chars.subrange(from, i),
        chars[i] == '\\',
        to - i >= 12,
        chars[i + 1] == 'u',
        0xD800 <= u < 0xDC00,
        hex4_of(u) == chars.subrange(i + 2, i + 6),
        0 <= w < 0x10000,
        !(0xDC00 <= w < 0xE000),
        hex4_of(w) == chars.subrange(i + 8, i + 12),
    ensures
        forall|x: Seq<char>| chars.subrange(from, to) != esc(x),
{
    assert forall|x: Seq<char>| chars.subrange(from, to) != esc(x) by {
        if chars.subrange(from, to) == esc(x) {
            let c0 = lemma_site_common(chars, from, i, to, out, x);
            assert(chars[i] == esc_char(c0)[0]);
            lemma_unit_of_esc(c0, chars, i, u);
            assert(esc_char(c0).len() == 12);
            lemma_pair_low_of_esc(c0, chars, i, w);
        }
    }
}


/// Four observed lowercase hex digits spell their combined value.
proof fn lemma_read_hex4(chars: Seq<char>, p: int, d0: int, d1: int, d2: int, d3: int, u: int)
    requires
        0 <= p,
        p + 4 <= chars.len(),
        is_hex_digit_lower(chars[p]),
        is_hex_digit_lower(chars[p + 1]),
        is_hex_digit_lower(chars[p + 2]),
        is_hex_digit_lower(chars[p + 3]),
        d0 == crate::id::hex_val_of(chars[p]),
        d1 == crate::id::hex_val_of(chars[p + 1]),
        d2 == crate::id::hex_val_of(chars[p + 2]),
        d3 == crate::id::hex_val_of(chars[p + 3]),
        u == d0 * 0x1000 + d1 * 0x100 + d2 * 16 + d3,
    ensures
        0 <= u < 0x10000,
        hex4_of(u) == chars.subrange(p, p + 4),
{
    lemma_hex4_build(d0, d1, d2, d3, u);
    lemma_lower_hex_round(chars[p]);
    lemma_lower_hex_round(chars[p + 1]);
    lemma_lower_hex_round(chars[p + 2]);
    lemma_lower_hex_round(chars[p + 3]);
    assert(hex4_of(u) =~= chars.subrange(p, p + 4)) by {
        assert(hex4_of(u)[0] == hex_char_of(d0));
        assert(hex4_of(u)[1] == hex_char_of(d1));
        assert(hex4_of(u)[2] == hex_char_of(d2));
        assert(hex4_of(u)[3] == hex_char_of(d3));
    }
}

/// Reading one literal char extends the decoded prefix by one char.
proof fn lemma_accept_literal(chars: Seq<char>, from: int, i: int, out0: Seq<char>, c: char)
    requires
        0 <= from <= i,
        i + 1 <= chars.len(),
        esc(out0) == chars.subrange(from, i),
        !needs_escape(c),
        chars[i] == c,
    ensures
        esc(out0.push(c)) == chars.subrange(from, i + 1),
{
    lemma_esc_concat(out0, seq![c]);
    assert(out0.push(c) =~= out0 + seq![c]);
    assert(seq![c].skip(1) =~= Seq::<char>::empty());
    assert(esc(seq![c].skip(1)) =~= Seq::<char>::empty());
    assert(esc(seq![c]) =~= esc_char(c));
    assert(esc(out0.push(c)) =~= chars.subrange(from, i + 1));
}

/// Reading one basic-plane escape extends the decoded prefix by one char.
proof fn lemma_accept_bmp(
    chars: Seq<char>,
    from: int,
    i: int,
    out0: Seq<char>,
    ch: char,
    u: int,
)
    requires
        0 <= from <= i,
        i + 6 <= chars.len(),
        esc(out0) == chars.subrange(from, i),
        needs_escape(ch),
        ch as u32 == u,
        0 <= u < 0x10000,
        chars[i] == '\\',
        chars[i + 1] == 'u',
        hex4_of(u) == chars.subrange(i + 2, i + 6),
    ensures
        esc(out0.push(ch)) == chars.subrange(from, i + 6),
{
    lemma_esc_concat(out0, seq![ch]);
    assert(out0.push(ch) =~= out0 + seq![ch]);
    assert(seq![ch].skip(1) =~= Seq::<char>::empty());
    assert(esc(seq![ch].skip(1)) =~= Seq::<char>::empty());
    assert(esc(seq![ch]) =~= esc_char(ch));
    assert(esc_char(ch) == seq!['\\', 'u'] + hex4_of(u));
    assert(esc_char(ch) =~= chars.subrange(i, i + 6)) by {
        assert forall|k: int| 0 <= k < 4 implies hex4_of(u)[k] == chars[i + 2 + k] by {
            assert(chars.subrange(i + 2, i + 6)[k] == chars[i + 2 + k]);
        }
    }
    assert(esc(out0.push(ch)) =~= chars.subrange(from, i + 6));
}

/// Reading one surrogate-pair escape extends the decoded prefix by one
/// char beyond the basic plane.
proof fn lemma_accept_pair(
    chars: Seq<char>,
    from: int,
    i: int,
    out0: Seq<char>,
    ch: char,
    u: int,
    w: int,
)
    requires
        0 <= from <= i,
        i + 12 <= chars.len(),
        esc(out0) == chars.subrange(from, i),
        ch as u32 >= 0x10000,
        u == 0xD800 + ((ch as u32 - 0x10000) as int) / 0x400,
        w == 0xDC00 + ((ch as u32 - 0x10000) as int) % 0x400,
        chars[i] == '\\',
        chars[i + 1] == 'u',
        hex4_of(u) == chars.subrange(i + 2, i + 6),
        chars[i + 6] == '\\',
        chars[i + 7] == 'u',
        hex4_of(w) == chars.subrange(i + 8, i + 12),
    ensures
        esc(out0.push(ch)) == chars.subrange(from, i + 12),
{
    lemma_esc_concat(out0, seq![ch]);
    assert(out0.push(ch) =~= out0 + seq![ch]);
    assert(seq![ch].skip(1) =~= Seq::<char>::empty());
    assert(esc(seq![ch].skip(1)) =~= Seq::<char>::empty());
    assert(esc(seq![ch]) =~= esc_char(ch));
    assert(needs_escape(ch));
    assert(esc_char(ch) == seq!['\\', 'u'] + hex4_of(u) + seq!['\\', 'u'] + hex4_of(w));
    assert(esc_char(ch) =~= chars.subrange(i, i + 12)) by {
        assert forall|k: int| 0 <= k < 4 implies hex4_of(u)[k] == chars[i + 2 + k] by {
            assert(chars.subrange(i + 2, i + 6)[k] == chars[i + 2 + k]);
        }
        assert forall|k: int| 0 <= k < 4 implies hex4_of(w)[k] == chars[i + 8 + k] by {
            assert(chars.subrange(i + 8, i + 12)[k] == chars[i + 8 + k]);
        }
    }
    assert(esc(out0.push(ch)) =~= chars.subrange(from, i + 12));
}

/// The numeric value of a lowercase hex digit char.
fn hexval_lower(c: char) -> (v: u8)
    requires
        is_hex_digit_lower(c),
    ensures
        v < 16,
        v as int == crate::id::hex_val_of(c),
{
    let u = c as u32;
    if 48 <= u && u <= 57 {
        (u - 48) as u8
    } else {
        (u - 87) as u8
    }
}

/// Reads back a canonically escaped subject region: a result re-escapes to
/// exactly the region, and rejection means the region is no escaper image.
#[verifier::rlimit(100)]
fn unesc_range(chars: &Vec<char>, from: usize, to: usize) -> (r: Option<Vec<char>>)
    requires
        from <= to <= chars@.len(),
    ensures
        r is Some ==> esc(r->0@) == chars@.subrange(from as int, to as int),
        forall|x: Seq<char>| chars@.subrange(from as int, to as int) == esc(x) ==> r is Some,
{
    let ghost region = chars@.subrange(from as int, to as int);
    let mut out: Vec<char> = Vec::new();
    let mut i: usize = from;
    while i < to
        invariant
            from <= i <= to <= chars@.len(),
            region == chars@.subrange(from as int, to as int),
            esc(out@) == chars@.subrange(from as int, i as int),
        decreases to - i,
    {
        let c = chars[i];
        let u = c as u32;
        if 0x20 <= u && u < 0x7F && c != '"' && c != '\\' {
            let ghost out0 = out@;
            out.push(c);
            proof {
                lemma_accept_literal(chars@, from as int, i as int, out0, c);
            }
            i = i + 1;
            continue ;
        }
        if c != '\\' {
            // a raw char that the canonical form always escapes
            proof {
                lemma_no_image_raw(chars@, from as int, i as int, to as int, out@);
            }
            return None;
        }
        // an escape: backslash, 'u', four lowercase hex digits
        if to - i < 6 || !(chars[i + 1] == 'u') {
            proof {
                lemma_no_image_bad_escape(chars@, from as int, i as int, to as int, out@);
            }
            return None;
        }
        let h0 = chars[i + 2];
        let h1 = chars[i + 3];
        let h2 = chars[i + 4];
        let h3 = chars[i + 5];
        let ok0 = (48 <= h0 as u32 && h0 as u32 <= 57) || (97 <= h0 as u32 && h0 as u32 <= 102);
        let ok1 = (48 <= h1 as u32 && h1 as u32 <= 57) || (97 <= h1 as u32 && h1 as u32 <= 102);
        let ok2 = (48 <= h2 as u32 && h2 as u32 <= 57) || (97 <= h2 as u32 && h2 as u32 <= 102);
        let ok3 = (48 <= h3 as u32 && h3 as u32 <= 57) || (97 <= h3 as u32 && h3 as u32 <= 102);
        if !(ok0 && ok1 && ok2 && ok3) {
            proof {
                let k: int = if !ok0 {
                    2
                } else if !ok1 {
                    3
                } else if !ok2 {
                    4
                } else {
                    5
                };
                lemma_no_image_bad_hex(chars@, from as int, i as int, to as int, out@, k);
            }
            return None;
        }
        let d0 = hexval_lower(h0);
        let d1 = hexval_lower(h1);
        let d2 = hexval_lower(h2);
        let d3 = hexval_lower(h3);
        let uu: u32 = (d0 as u32) * 0x1000 + (d1 as u32) * 0x100 + (d2 as u32) * 16 + (d3 as u32);
        proof {
            lemma_read_hex4(
                chars@,
                i + 2,
                d0 as int,
                d1 as int,
                d2 as int,
                d3 as int,
                uu as int,
            );
        }
        if 0xDC00 <= uu && uu < 0xE000 {
            // a lone low surrogate never appears canonically
            proof {
                lemma_no_image_low_surrogate(
                    chars@,
                    from as int,
                    i as int,
                    to as int,
                    out@,
                    uu as int,
                );
            }
            return None;
        }
        if uu < 0xD800 || 0xE000 <= uu {
            // one escape spelling a basic-plane char
            proof {
                assert(vstd::utf8::is_scalar(uu));
            }
            let ch = match char::from_u32(uu) {
                Some(ch) => ch,
                None => {
                    return None;
                },
            };
            if !(uu < 0x20 || ch == '"' || ch == '\\' || uu >= 0x7F) {
                // the canonical form never escapes a safe char
                proof {
                    lemma_no_image_unescaped_safe(
                        chars@,
                        from as int,
                        i as int,
                        to as int,
                        out@,
                        uu as int,
                        ch,
                    );
                }
                return None;
            }
            let ghost out0 = out@;
            out.push(ch);
            proof {
                assert(out@ == out0.push(ch));
                lemma_accept_bmp(chars@, from as int, i as int, out0, ch, uu as int);
            }
            i = i + 6;
            continue ;
        }
        // a high surrogate: a second escape with the low surrogate follows
        if to - i < 12 || !(chars[i + 6] == '\\') || !(chars[i + 7] == 'u') {
            proof {
                lemma_no_image_pair_missing(
                    chars@,
                    from as int,
                    i as int,
                    to as int,
                    out@,
                    uu as int,
                );
            }
            return None;
        }
        let g0 = chars[i + 8];
        let g1 = chars[i + 9];
        let g2 = chars[i + 10];
        let g3 = chars[i + 11];
        let pk0 = (48 <= g0 as u32 && g0 as u32 <= 57) || (97 <= g0 as u32 && g0 as u32 <= 102);
        let pk1 = (48 <= g1 as u32 && g1 as u32 <= 57) || (97 <= g1 as u32 && g1 as u32 <= 102);
        let pk2 = (48 <= g2 as u32 && g2 as u32 <= 57) || (97 <= g2 as u32 && g2 as u32 <= 102);
        let pk3 = (48 <= g3 as u32 && g3 as u32 <= 57) || (97 <= g3 as u32 && g3 as u32 <= 102);
        if !(pk0 && pk1 && pk2 && pk3) {
            proof {
                let k: int = if !pk0 {
                    8
                } else if !pk1 {
                    9
                } else if !pk2 {
                    10
                } else {
                    11
                };
                lemma_no_image_pair_bad_hex(
                    chars@,
                    from as int,
                    i as int,
                    to as int,
                    out@,
                    uu as int,
                    k,
                );
            }
            return None;
        }
        let e0 = hexval_lower(g0);
        let e1 = hexval_lower(g1);
        let e2 = hexval_lower(g2);
        let e3 = hexval_lower(g3);
        let ww: u32 = (e0 as u32) * 0x1000 + (e1 as u32) * 0x100 + (e2 as u32) * 16 + (e3 as u32);
        proof {
            lemma_read_hex4(
                chars@,
                i + 8,
                e0 as int,
                e1 as int,
                e2 as int,
                e3 as int,
                ww as int,
            );
        }
        if !(0xDC00 <= ww && ww < 0xE000) {
            proof {
                lemma_no_image_pair_bad_low(
                    chars@,
                    from as int,
                    i as int,
                    to as int,
                    out@,
                    uu as int,
                    ww as int,
                );
            }
            return None;
        }
        let code: u32 = 0x10000 + (uu - 0xD800) * 0x400 + (ww - 0xDC00);
        proof {
            assert(vstd::utf8::is_scalar(code));
        }
        let ch = match char::from_u32(code) {
            Some(ch) => ch,
            None => {
                return None;
            },
        };
        let ghost out0 = out@;
        out.push(ch);
        proof {
            assert(out@ == out0.push(ch));
            assert((ch as u32) == code);
            vstd::arithmetic::div_mod::lemma_fundamental_div_mod_converse(
                (code - 0x10000) as int,
                0x400,
                (uu - 0xD800) as int,
                (ww - 0xDC00) as int,
            );
            lemma_accept_pair(chars@, from as int, i as int, out0, ch, uu as int, ww as int);
        }
        i = i + 12;
    }
    proof {
        assert(chars@.subrange(from as int, to as int) == esc(out@));
    }
    Some(out)
}

/// Whether a payload text is the canonical spelling of the given claims.
pub open spec fn spells_payload(p: Seq<char>, sub: Seq<char>, ut: Seq<char>, e: nat) -> bool {
    ut_wf(ut) && e < 0x10000000000000000 && p == payload_chars(sub, ut, e)
}

/// The first quote at or after position 8 closes the subject region of a
/// canonical payload.
proof fn lemma_spell_at_quote(p: Seq<char>, q: int, sub: Seq<char>, ut: Seq<char>, e: nat)
    requires
        spells_payload(p, sub, ut, e),
        8 <= q < p.len(),
        p[q] == '"',
        forall|j: int| 8 <= j < q ==> p[j] != '"',
    ensures
        q == 8 + (esc(sub).len() as int),
        p.subrange(8, q) == esc(sub),
        p.len() == 32 + (esc(sub).len() as int) + (ut.len() as int) + (digits_of(e).len() as int),
        p.subrange(q, q + 15) == payload_mid1(),
        p.subrange(q + 15, q + 15 + (ut.len() as int)) == ut,
        p.subrange(
            q + 15 + (ut.len() as int),
            q + 23 + (ut.len() as int),
        ) == payload_mid2(),
        p.subrange(
            q + 23 + (ut.len() as int),
            q + 23 + (ut.len() as int) + (digits_of(e).len() as int),
        ) == digits_of(e),
        p[p.len() - 1] == '}',
        digits_of(e).len() >= 1,
        ut.len() == 4 || ut.len() == 5,
        ut[0] == 'a' || ut[0] == 'u',
        ut[0] == 'a' <==> ut == admin_chars(),
{
    lemma_payload_parts(sub, ut, e);
    lemma_payload_quote(sub, ut, e);
    let el = esc(sub).len() as int;
    if q < 8 + el {
        assert(p[q] != '"');
    }
    if q > 8 + el {
        assert(p[8 + el] == '"');
        assert(p[8 + el] != '"');
    }
    assert(q == 8 + el);
    assert(p[p.len() - 1] == '}') by {
        assert(p.len() - 1 == 31 + el + (ut.len() as int) + (digits_of(e).len() as int));
    }
    assert(p.subrange(q, q + 15) == payload_mid1());
    assert(p.subrange(q + 15, q + 15 + (ut.len() as int)) == ut);
}

/// Reads a canonical payload back into its claims, accepting exactly the
/// canonical images: whenever some well-formed claim set spells the input,
/// the parser returns precisely that claim set.
#[verifier::rlimit(100)]
pub fn parse_claims(chars: &Vec<char>) -> (r: Option<Claims>)
    ensures
        r is Some ==> claims_wf(r->0),
        forall|sub: Seq<char>, ut: Seq<char>, e: nat|
            spells_payload(chars@, sub, ut, e) ==> r is Some && r->0.sub@ == sub
                && r->0.user_type@ == ut && r->0.exp as nat == e,
{
    let ghost p = chars@;
    let n = chars.len();
    if n < 37 {
        proof {
            assert forall|sub: Seq<char>, ut: Seq<char>, e: nat|
                !spells_payload(p, sub, ut, e) by {
                if spells_payload(p, sub, ut, e) {
                    lemma_payload_parts(sub, ut, e);
                    lemma_digits(e);
                }
            }
        }
        return None;
    }
    let b0 = chars[0] == '{' && chars[1] == '"' && chars[2] == 's' && chars[3] == 'u';
    let b1 = chars[4] == 'b' && chars[5] == '"' && chars[6] == ':' && chars[7] == '"';
    if !(b0 && b1) {
        proof {
            assert forall|sub: Seq<char>, ut: Seq<char>, e: nat|
                !spells_payload(p, sub, ut, e) by {
                if spells_payload(p, sub, ut, e) {
                    lemma_payload_parts(sub, ut, e);
                    assert forall|k: int| 0 <= k < 8 implies p[k] == payload_pre()[k] by {
                        assert(p.subrange(0, 8)[k] == p[k]);
                    }
                }
            }
        }
        return None;
    }
    let mut q: usize = 8;
    while q < n && !(chars[q] == '"')
        invariant
            8 <= q <= n,
            n == p.len(),
            p == chars@,
            forall|j: int| 8 <= j < q ==> p[j] != '"',
        decreases n - q,
    {
        q = q + 1;
    }
    if q == n {
        proof {
            assert forall|sub: Seq<char>, ut: Seq<char>, e: nat|
                !spells_payload(p, sub, ut, e) by {
                if spells_payload(p, sub, ut, e) {
                    lemma_payload_parts(sub, ut, e);
                    lemma_payload_quote(sub, ut, e);
                    assert(p[8 + (esc(sub).len() as int)] == '"');
                }
            }
        }
        return None;
    }
    let sub_vec = match unesc_range(chars, 8, q) {
        Some(v) => v,
        None => {
            proof {
                assert forall|sub: Seq<char>, ut: Seq<char>, e: nat|
                    !spells_payload(p, sub, ut, e) by {
                    if spells_payload(p, sub, ut, e) {
                        lemma_spell_at_quote(p, q as int, sub, ut, e);
                    }
                }
            }
            return None;
        },
    };
    // the fixed text between the subject and the kind
    if n - q < 16 {
        proof {
            assert forall|sub: Seq<char>, ut: Seq<char>, e: nat|
                !spells_payload(p, sub, ut, e) by {
                if spells_payload(p, sub, ut, e) {
                    lemma_spell_at_quote(p, q as int, sub, ut, e);
                }
            }
        }
        return None;
    }
    let m0 = chars[q + 1] == ',' && chars[q + 2] == '"' && chars[q + 3] == 'u' && chars[q + 4]
        == 's';
    let m1 = chars[q + 5] == 'e' && chars[q + 6] == 'r' && chars[q + 7] == '_' && chars[q + 8]
        == 't';
    let m2 = chars[q + 9] == 'y' && chars[q + 10] == 'p' && chars[q + 11] == 'e' && chars[q + 12]
        == '"';
    let m3 = chars[q + 13] == ':' && chars[q + 14] == '"';
    if !(m0 && m1 && m2 && m3) {
        proof {
            assert forall|sub: Seq<char>, ut: Seq<char>, e: nat|
                !spells_payload(p, sub, ut, e) by {
                if spells_payload(p, sub, ut, e) {
                    lemma_spell_at_quote(p, q as int, sub, ut, e);
                    assert forall|k: int| 0 <= k < 15 implies p[q + k] == payload_mid1()[k] by {
                        assert(p.subrange(q as int, q + 15)[k] == p[q + k]);
                    }
                }
            }
        }
        return None;
    }
    // the principal kind
    let is_admin = n - (q + 15) >= 5 && chars[q + 15] == 'a' && chars[q + 16] == 'd' && chars[q
        + 17] == 'm' && chars[q + 18] == 'i' && chars[q + 19] == 'n';
    let is_user = n - (q + 15) >= 4 && chars[q + 15] == 'u' && chars[q + 16] == 's' && chars[q
        + 17] == 'e' && chars[q + 18] == 'r';
    if !is_admin && !is_user {
        proof {
            assert forall|sub: Seq<char>, ut: Seq<char>, e: nat|
                !spells_payload(p, sub, ut, e) by {
                if spells_payload(p, sub, ut, e) {
                    lemma_spell_at_quote(p, q as int, sub, ut, e);
                    assert forall|k: int| 0 <= k < ut.len() implies p[q + 15 + k] == ut[k] by {
                        assert(p.subrange(q + 15, q + 15 + (ut.len() as int))[k] == p[q + 15 + k]);
                    }
                }
            }
        }
        return None;
    }
    let ut_len: usize = if is_admin {
        5
    } else {
        4
    };
    let o4 = q + 15 + ut_len;
    // the fixed text between the kind and the expiry
    if n - o4 < 10 {
        proof {
            assert forall|sub: Seq<char>, ut: Seq<char>, e: nat|
                !spells_payload(p, sub, ut, e) by {
                if spells_payload(p, sub, ut, e) {
                    lemma_spell_at_quote(p, q as int, sub, ut, e);
                    assert forall|k: int| 0 <= k < ut.len() implies p[q + 15 + k] == ut[k] by {
                        assert(p.subrange(q + 15, q + 15 + (ut.len() as int))[k] == p[q + 15 + k]);
                    }
                    assert(ut_len as int == ut.len());
                }
            }
        }
        return None;
    }
    let x0 = chars[o4] == '"' && chars[o4 + 1] == ',' && chars[o4 + 2] == '"' && chars[o4 + 3]
        == 'e';
    let x1 = chars[o4 + 4] == 'x' && chars[o4 + 5] == 'p' && chars[o4 + 6] == '"' && chars[o4 + 7]
        == ':';
    if !(x0 && x1) {
        proof {
            assert forall|sub: Seq<char>, ut: Seq<char>, e: nat|
                !spells_payload(p, sub, ut, e) by {
                if spells_payload(p, sub, ut, e) {
                    lemma_spell_at_quote(p, q as int, sub, ut, e);
                    assert forall|k: int| 0 <= k < ut.len() implies p[q + 15 + k] == ut[k] by {
                        assert(p.subrange(q + 15, q + 15 + (ut.len() as int))[k] == p[q + 15 + k]);
                    }
                    assert(ut_len as int == ut.len());
                    assert forall|k: int| 0 <= k < 8 implies p[o4 + k] == payload_mid2()[k] by {
                        assert(p.subrange(o4 as int, o4 + 8)[k] == p[o4 + k]);
                    }
                }
            }
        }
        return None;
    }
    let o5 = o4 + 8;
    if !(chars[n - 1] == '}') || o5 >= n - 1 {
        proof {
            assert forall|sub: Seq<char>, ut: Seq<char>, e: nat|
                !spells_payload(p, sub, ut, e) by {
                if spells_payload(p, sub, ut, e) {
                    lemma_spell_at_quote(p, q as int, sub, ut, e);
                    assert forall|k: int| 0 <= k < ut.len() implies p[q + 15 + k] == ut[k] by {
                        assert(p.subrange(q + 15, q + 15 + (ut.len() as int))[k] == p[q + 15 + k]);
                    }
                    assert(ut_len as int == ut.len());
                }
            }
        }
        return None;
    }
    // the expiry: canonical decimal, no leading zero, within 64 bits
    if chars[o5] == '0' && n - 1 - o5 >= 2 {
        proof {
            assert forall|sub: Seq<char>, ut: Seq<char>, e: nat|
                !spells_payload(p, sub, ut, e) by {
                if spells_payload(p, sub, ut, e) {
                    lemma_spell_at_quote(p, q as int, sub, ut, e);
                    assert(ut_len as int == ut.len()) by {
                        assert(p.subrange(q + 15, q + 15 + (ut.len() as int))[0] == p[q + 15]);
                    }
                    lemma_digits(e);
                    let dr = p.subrange(o5 as int, n - 1);
                    assert(dr == digits_of(e));
                    assert(dr[0] == p[o5 as int]);
                    assert(digits_of(e)[0] == '0' && digits_of(e).len() > 1);
                }
            }
        }
        return None;
    }
    let mut acc: u64 = 0;
    let mut j: usize = o5;
    while j < n - 1
        invariant
            o5 <= j <= n - 1,
            n == p.len(),
            p == chars@,
            n >= 37,
            o5 < n - 1,
            o5 == o4 + 8,
            o4 == q + 15 + ut_len,
            8 <= q,
            acc as int == val10(p.subrange(o5 as int, j as int)),
            forall|t: int| o5 <= t < j ==> is_digit_char(#[trigger] p[t]),
            p[q as int] == '"',
            forall|t: int| 8 <= t < q ==> p[t] != '"',
            (ut_len == 5 && p[q + 15] == 'a') || (ut_len == 4 && p[q + 15] == 'u'),
        decreases n - 1 - j,
    {
        let c = chars[j];
        let u = c as u32;
        if !(48 <= u && u <= 57) {
            proof {
                assert forall|sub: Seq<char>, ut: Seq<char>, e: nat|
                    !spells_payload(p, sub, ut, e) by {
                    if spells_payload(p, sub, ut, e) {
                        lemma_spell_at_quote(p, q as int, sub, ut, e);
                        assert(ut_len as int == ut.len()) by {
                            assert(p.subrange(q + 15, q + 15 + (ut.len() as int))[0] == p[q + 15]);
                        }
                        lemma_digits(e);
                        let dr = p.subrange(o5 as int, n - 1);
                        assert(dr == digits_of(e));
                        assert(dr[j - o5] == p[j as int]);
                    }
                }
            }
            return None;
        }
        let d = (u - 48) as u64;
        if acc > 1844674407370955161 || (acc == 1844674407370955161 && d > 5) {
            proof {
                assert forall|sub: Seq<char>, ut: Seq<char>, e: nat|
                    !spells_payload(p, sub, ut, e) by {
                    if spells_payload(p, sub, ut, e) {
                        lemma_spell_at_quote(p, q as int, sub, ut, e);
                        assert(ut_len as int == ut.len()) by {
                            assert(p.subrange(q + 15, q + 15 + (ut.len() as int))[0] == p[q + 15]);
                        }
                        lemma_digits(e);
                        let dr = p.subrange(o5 as int, n - 1);
                        assert(dr == digits_of(e));
                        lemma_val10_prefix(dr, j + 1 - o5);
                        assert(dr.take(j + 1 - o5).drop_last() =~= dr.take(j - o5));
                        assert(dr.take(j - o5) =~= p.subrange(o5 as int, j as int));
                        assert(dr.take(j + 1 - o5).last() == p[j as int]);
                        assert(val10(dr.take(j + 1 - o5)) == acc * 10 + d);
                        assert(val10(dr) == e);
                    }
                }
            }
            return None;
        }
        let ghost accj = p.subrange(o5 as int, j as int);
        acc = acc * 10 + d;
        proof {
            assert(p.subrange(o5 as int, j + 1).drop_last() =~= accj);
            assert(p.subrange(o5 as int, j + 1).last() == p[j as int]);
        }
        j = j + 1;
    }
    let sub = crate::text::string_from_chars(&sub_vec);
    let user_type = if is_admin {
        admin_string()
    } else {
        user_string()
    };
    let exp = acc;
    let result = Claims { sub, user_type, exp };
    proof {
        assert forall|sub2: Seq<char>, ut2: Seq<char>, e2: nat|
            spells_payload(p, sub2, ut2, e2) implies result.sub@ == sub2 && result.user_type@
            == ut2 && result.exp as nat == e2 by {
            lemma_spell_at_quote(p, q as int, sub2, ut2, e2);
            lemma_esc_injective(sub_vec@, sub2);
            assert(ut_len as int == ut2.len()) by {
                assert(p.subrange(q + 15, q + 15 + (ut2.len() as int))[0] == p[q + 15]);
            }
            assert(result.user_type@ == ut2) by {
                assert forall|k: int| 0 <= k < ut2.len() implies p[q + 15 + k] == ut2[k] by {
                    assert(p.subrange(q + 15, q + 15 + (ut2.len() as int))[k] == p[q + 15 + k]);
                }
                if ut_len == 5 {
                    assert(ut2 == admin_chars());
                    assert(result.user_type@ =~= ut2);
                } else {
                    assert(ut2 == user_chars());
                    assert(result.user_type@ =~= ut2);
                }
            }
            assert(result.exp as nat == e2) by {
                lemma_digits(e2);
                let dr = p.subrange(o5 as int, n - 1);
                assert(dr == digits_of(e2));
                assert(acc as int == val10(dr));
            }
        }
        assert(claims_wf(result)) by {
            if is_admin {
                assert(result.user_type@ =~= admin_chars());
            } else {
                assert(result.user_type@ =~= user_chars());
            }
        }
    }
    Some(result)
}

/// The admin principal kind's claim text, as a `String`.
pub fn admin_string() -> (r: String)
    ensures
        r@ == admin_chars(),
{
    let r = admin_str().to_owned();
    proof {
        reveal_strlit("admin");
        assert(r@ =~= admin_chars());
    }
    r
}

/// The user principal kind's claim text, as a `String`.
pub fn user_string() -> (r: String)
    ensures
        r@ == user_chars(),
{
    let r = user_str().to_owned();
    proof {
        reveal_strlit("user");
        assert(r@ =~= user_chars());
    }
    r
}

/// The admin principal kind's claim text.
pub fn admin_str() -> (r: &'static str)
    ensures
        r@ == admin_chars(),
{
    proof {
        reveal_strlit("admin");
        assert("admin"@ =~= admin_chars());
    }
    "admin"
}

/// The user principal kind's claim text.
pub fn user_str() -> (r: &'static str)
    ensures
        r@ == user_chars(),
{
    proof {
        reveal_strlit("user");
        assert("user"@ =~= user_chars());
    }
    "user"
}

} // verus!
