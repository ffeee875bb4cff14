//! Unpadded URL-safe base64, the framing of the two signed token parts.
//!
//! The encoding is canonical: unused trailing bits are zero, and there is
//! no padding.  The decoder accepts exactly the encoder's images, so a
//! decoded value always re-encodes to the original text.

use vstd::arithmetic::div_mod::lemma_fundamental_div_mod;
use vstd::arithmetic::div_mod::lemma_fundamental_div_mod_converse;
use vstd::prelude::*;

verus! {

/// The URL-safe base64 alphabet char for a sextet value.
pub open spec fn b64_char_of(s: int) -> char {
    if s < 26 {
        ((65 + s) as u8) as char  // 'A' to 'Z'
    } else if s < 52 {
        ((71 + s) as u8) as char  // 'a' to 'z'
    } else if s < 62 {
        ((s - 4) as u8) as char  // '0' to '9'
    } else if s == 62 {
        '-'
    } else {
        '_'
    }
}

/// Whether a char belongs to the URL-safe base64 alphabet.
pub open spec fn is_b64_char(c: char) -> bool {
    let u = c as u32;
    (65 <= u <= 90) || (97 <= u <= 122) || (48 <= u <= 57) || u == 45 || u == 95
}

/// The sextet value of a URL-safe base64 alphabet char.
pub open spec fn b64_val_of(c: char) -> int {
    let u = c as u32;
    if 65 <= u <= 90 {
        u - 65
    } else if 97 <= u <= 122 {
        u - 71
    } else if 48 <= u <= 57 {
        u + 4
    } else if u == 45 {
        62
    } else {
        63
    }
}

proof fn lemma_b64_char_val(s: int)
    requires
        0 <= s < 64,
    ensures
        is_b64_char(b64_char_of(s)),
        b64_val_of(b64_char_of(s)) == s,
{
}

proof fn lemma_b64_val_char(c: char)
    requires
        is_b64_char(c),
    ensures
        0 <= b64_val_of(c) < 64,
        b64_char_of(b64_val_of(c)) == c,
{
    broadcast use vstd::utf8::char_u32_cast;

}

/// The unpadded URL-safe base64 text of a byte sequence.
pub open spec fn b64url_of(b: Seq<u8>) -> Seq<char>
    decreases b.len(),
{
    if b.len() == 0 {
        Seq::empty()
    } else if b.len() == 1 {
        seq![
            b64_char_of((b[0] as int) / 4),
            b64_char_of(((b[0] as int) % 4) * 16),
        ]
    } else if b.len() == 2 {
        seq![
            b64_char_of((b[0] as int) / 4),
            b64_char_of(((b[0] as int) % 4) * 16 + (b[1] as int) / 16),
            b64_char_of(((b[1] as int) % 16) * 4),
        ]
    } else {
        seq![
            b64_char_of((b[0] as int) / 4),
            b64_char_of(((b[0] as int) % 4) * 16 + (b[1] as int) / 16),
            b64_char_of(((b[1] as int) % 16) * 4 + (b[2] as int) / 64),
            b64_char_of((b[2] as int) % 64),
        ] + b64url_of(b.skip(3))
    }
}

/// Encoded text splits at any multiple-of-three byte boundary.
pub proof fn lemma_b64_concat(a: Seq<u8>, b: Seq<u8>)
    requires
        a.len() % 3 == 0,
    ensures
        b64url_of(a + b) == b64url_of(a) + b64url_of(b),
    decreases a.len(),
{
    if a.len() == 0 {
        assert(a + b =~= b);
        assert(b64url_of(a) + b64url_of(b) =~= b64url_of(b));
    } else {
        lemma_b64_concat(a.skip(3), b);
        let ab = a + b;
        assert(ab.len() >= 3);
        assert(ab[0] == a[0] && ab[1] == a[1] && ab[2] == a[2]);
        assert(ab.skip(3) =~= a.skip(3) + b);
        assert(b64url_of(a + b) =~= b64url_of(a) + b64url_of(b));
    }
}

/// Every char of encoded text is an alphabet char.
pub proof fn lemma_b64_chars(b: Seq<u8>)
    ensures
        forall|i: int| 0 <= i < b64url_of(b).len() ==> is_b64_char(#[trigger] b64url_of(b)[i]),
    decreases b.len(),
{
    if b.len() == 0 {
    } else if b.len() == 1 {
        lemma_b64_char_val((b[0] as int) / 4);
        lemma_b64_char_val(((b[0] as int) % 4) * 16);
    } else if b.len() == 2 {
        lemma_b64_char_val((b[0] as int) / 4);
        lemma_b64_char_val(((b[0] as int) % 4) * 16 + (b[1] as int) / 16);
        lemma_b64_char_val(((b[1] as int) % 16) * 4);
    } else {
        lemma_b64_chars(b.skip(3));
        lemma_b64_char_val((b[0] as int) / 4);
        lemma_b64_char_val(((b[0] as int) % 4) * 16 + (b[1] as int) / 16);
        lemma_b64_char_val(((b[1] as int) % 16) * 4 + (b[2] as int) / 64);
        lemma_b64_char_val((b[2] as int) % 64);
        assert forall|i: int| 0 <= i < b64url_of(b).len() implies is_b64_char(
            #[trigger] b64url_of(b)[i],
        ) by {
            if i >= 4 {
                assert(b64url_of(b)[i] == b64url_of(b.skip(3))[i - 4]);
            }
        }
    }
}

/// The length of encoded text: four chars per full three-byte group, two
/// or three chars for a trailing one or two bytes.
pub proof fn lemma_b64_len(b: Seq<u8>)
    ensures
        b64url_of(b).len() == 4 * (b.len() / 3) + (if b.len() % 3 == 0 {
            0int
        } else if b.len() % 3 == 1 {
            2int
        } else {
            3int
        }),
    decreases b.len(),
{
    if b.len() >= 3 {
        lemma_b64_len(b.skip(3));
    }
}

/// Distinct byte sequences have distinct encodings.
pub proof fn lemma_b64_injective(b1: Seq<u8>, b2: Seq<u8>)
    requires
        b64url_of(b1) == b64url_of(b2),
    ensures
        b1 == b2,
    decreases b1.len(),
{
    lemma_b64_len(b1);
    lemma_b64_len(b2);
    if b1.len() >= 3 && b2.len() >= 3 {
        let s1 = b64url_of(b1);
        let s2 = b64url_of(b2);
        assert(s1[0] == s2[0] && s1[1] == s2[1] && s1[2] == s2[2] && s1[3] == s2[3]);
        lemma_b64_char_val((b1[0] as int) / 4);
        lemma_b64_char_val(((b1[0] as int) % 4) * 16 + (b1[1] as int) / 16);
        lemma_b64_char_val(((b1[1] as int) % 16) * 4 + (b1[2] as int) / 64);
        lemma_b64_char_val((b1[2] as int) % 64);
        lemma_b64_char_val((b2[0] as int) / 4);
        lemma_b64_char_val(((b2[0] as int) % 4) * 16 + (b2[1] as int) / 16);
        lemma_b64_char_val(((b2[1] as int) % 16) * 4 + (b2[2] as int) / 64);
        lemma_b64_char_val((b2[2] as int) % 64);
        assert(b1[0] == b2[0] && b1[1] == b2[1] && b1[2] == b2[2]);
        assert(b64url_of(b1).skip(4) =~= b64url_of(b1.skip(3)));
        assert(b64url_of(b2).skip(4) =~= b64url_of(b2.skip(3)));
        lemma_b64_injective(b1.skip(3), b2.skip(3));
        assert(b1 =~= seq![b1[0], b1[1], b1[2]] + b1.skip(3));
        assert(b2 =~= seq![b2[0], b2[1], b2[2]] + b2.skip(3));
    } else {
        assert(b1.len() < 3 || b2.len() < 3);
        assert(b64url_of(b1).len() == b64url_of(b2).len());
        assert(b1.len() == b2.len());
        if b1.len() == 1 {
            let s1 = b64url_of(b1);
            let s2 = b64url_of(b2);
            assert(s1[0] == s2[0] && s1[1] == s2[1]);
            lemma_b64_char_val((b1[0] as int) / 4);
            lemma_b64_char_val(((b1[0] as int) % 4) * 16);
            lemma_b64_char_val((b2[0] as int) / 4);
            lemma_b64_char_val(((b2[0] as int) % 4) * 16);
            assert(b1[0] == b2[0]);
            assert(b1 =~= b2);
        } else if b1.len() == 2 {
            let s1 = b64url_of(b1);
            let s2 = b64url_of(b2);
            assert(s1[0] == s2[0] && s1[1] == s2[1] && s1[2] == s2[2]);
            lemma_b64_char_val((b1[0] as int) / 4);
            lemma_b64_char_val(((b1[0] as int) % 4) * 16 + (b1[1] as int) / 16);
            lemma_b64_char_val(((b1[1] as int) % 16) * 4);
            lemma_b64_char_val((b2[0] as int) / 4);
            lemma_b64_char_val(((b2[0] as int) % 4) * 16 + (b2[1] as int) / 16);
            lemma_b64_char_val(((b2[1] as int) % 16) * 4);
            assert(b1[0] == b2[0] && b1[1] == b2[1]);
            assert(b1 =~= b2);
        } else {
            assert(b1.len() == 0);
            assert(b1 =~= b2);
        }
    }
}


proof fn lemma_b64_group3(g: Seq<u8>)
    requires
        g.len() == 3,
    ensures
        b64url_of(g) == seq![
            b64_char_of((g[0] as int) / 4),
            b64_char_of(((g[0] as int) % 4) * 16 + (g[1] as int) / 16),
            b64_char_of(((g[1] as int) % 16) * 4 + (g[2] as int) / 64),
            b64_char_of((g[2] as int) % 64),
        ],
{
    assert(g.skip(3) =~= Seq::<u8>::empty());
    assert(b64url_of(g.skip(3)) =~= Seq::<char>::empty());
    assert(b64url_of(g) =~= seq![
        b64_char_of((g[0] as int) / 4),
        b64_char_of(((g[0] as int) % 4) * 16 + (g[1] as int) / 16),
        b64_char_of(((g[1] as int) % 16) * 4 + (g[2] as int) / 64),
        b64_char_of((g[2] as int) % 64),
    ]);
}

proof fn lemma_decode_group3(v0: int, v1: int, v2: int, v3: int, b0: u8, b1: u8, b2: u8)
    requires
        0 <= v0 < 64,
        0 <= v1 < 64,
        0 <= v2 < 64,
        0 <= v3 < 64,
        b0 as int == v0 * 4 + v1 / 16,
        b1 as int == (v1 % 16) * 16 + v2 / 4,
        b2 as int == (v2 % 4) * 64 + v3,
    ensures
        (b0 as int) / 4 == v0,
        ((b0 as int) % 4) * 16 + (b1 as int) / 16 == v1,
        ((b1 as int) % 16) * 4 + (b2 as int) / 64 == v2,
        (b2 as int) % 64 == v3,
{
    lemma_fundamental_div_mod_converse(b0 as int, 4, v0, v1 / 16);
    lemma_fundamental_div_mod_converse(b1 as int, 16, v1 % 16, v2 / 4);
    lemma_fundamental_div_mod_converse(b2 as int, 64, v2 % 4, v3);
    lemma_fundamental_div_mod(v1, 16);
    lemma_fundamental_div_mod(v2, 4);
}

proof fn lemma_decode_group2(v0: int, v1: int, v2: int, b0: u8, b1: u8)
    requires
        0 <= v0 < 64,
        0 <= v1 < 64,
        0 <= v2 < 64,
        v2 % 4 == 0,
        b0 as int == v0 * 4 + v1 / 16,
        b1 as int == (v1 % 16) * 16 + v2 / 4,
    ensures
        (b0 as int) / 4 == v0,
        ((b0 as int) % 4) * 16 + (b1 as int) / 16 == v1,
        ((b1 as int) % 16) * 4 == v2,
{
    lemma_fundamental_div_mod_converse(b0 as int, 4, v0, v1 / 16);
    lemma_fundamental_div_mod_converse(b1 as int, 16, v1 % 16, v2 / 4);
    lemma_fundamental_div_mod(v1, 16);
    lemma_fundamental_div_mod(v2, 4);
}

proof fn lemma_decode_group1(v0: int, v1: int, b0: u8)
    requires
        0 <= v0 < 64,
        0 <= v1 < 64,
        v1 % 16 == 0,
        b0 as int == v0 * 4 + v1 / 16,
    ensures
        (b0 as int) / 4 == v0,
        ((b0 as int) % 4) * 16 == v1,
{
    lemma_fundamental_div_mod_converse(b0 as int, 4, v0, v1 / 16);
    lemma_fundamental_div_mod(v1, 16);
}


proof fn lemma_bad_char_no_image(s: Seq<char>, j: int)
    requires
        0 <= j < s.len(),
        !is_b64_char(s[j]),
    ensures
        forall|b: Seq<u8>| b64url_of(b) != s,
{
    assert forall|b: Seq<u8>| b64url_of(b) != s by {
        if b64url_of(b) == s {
            lemma_b64_chars(b);
            assert(is_b64_char(b64url_of(b)[j]));
        }
    }
}

proof fn lemma_decode_step(s: Seq<char>, i: int, out0: Seq<u8>, b0: u8, b1: u8, b2: u8)
    requires
        0 <= i,
        i + 4 <= s.len(),
        out0.len() % 3 == 0,
        b64url_of(out0) == s.take(i),
        is_b64_char(s[i]),
        is_b64_char(s[i + 1]),
        is_b64_char(s[i + 2]),
        is_b64_char(s[i + 3]),
        b0 as int == b64_val_of(s[i]) * 4 + b64_val_of(s[i + 1]) / 16,
        b1 as int == (b64_val_of(s[i + 1]) % 16) * 16 + b64_val_of(s[i + 2]) / 4,
        b2 as int == (b64_val_of(s[i + 2]) % 4) * 64 + b64_val_of(s[i + 3]),
    ensures
        b64url_of(out0 + seq![b0, b1, b2]) == s.take(i + 4),
{
    lemma_b64_val_char(s[i]);
    lemma_b64_val_char(s[i + 1]);
    lemma_b64_val_char(s[i + 2]);
    lemma_b64_val_char(s[i + 3]);
    lemma_decode_group3(
        b64_val_of(s[i]),
        b64_val_of(s[i + 1]),
        b64_val_of(s[i + 2]),
        b64_val_of(s[i + 3]),
        b0,
        b1,
        b2,
    );
    let g = seq![b0, b1, b2];
    lemma_b64_concat(out0, g);
    lemma_b64_group3(g);
    assert(b64url_of(g) =~= s.subrange(i, i + 4));
    assert(b64url_of(out0 + g) =~= s.take(i + 4));
}

/// The alphabet char for a sextet.
fn b64_char(s: u8) -> (c: char)
    requires
        s < 64,
    ensures
        c == b64_char_of(s as int),
{
    if s < 26 {
        (65 + s) as char
    } else if s < 52 {
        (71 + s) as char
    } else if s < 62 {
        (s - 4) as char
    } else if s == 62 {
        '-'
    } else {
        '_'
    }
}

/// Encodes bytes as unpadded URL-safe base64 chars.
pub fn b64url_encode(bytes: &Vec<u8>) -> (r: Vec<char>)
    ensures
        r@ == b64url_of(bytes@),
{
    let n = bytes.len();
    let mut out: Vec<char> = Vec::new();
    let mut i: usize = 0;
    while n - i >= 3
        invariant
            i <= n,
            n == bytes@.len(),
            i % 3 == 0,
            out@ == b64url_of(bytes@.take(i as int)),
        decreases n - i,
    {
        let b0 = bytes[i];
        let b1 = bytes[i + 1];
        let b2 = bytes[i + 2];
        out.push(b64_char(b0 / 4));
        out.push(b64_char((b0 % 4) * 16 + b1 / 16));
        out.push(b64_char((b1 % 16) * 4 + b2 / 64));
        out.push(b64_char(b2 % 64));
        proof {
            let pre = bytes@.take(i as int);
            let g = bytes@.subrange(i as int, i + 3);
            lemma_b64_concat(pre, g);
            assert(bytes@.take(i + 3) =~= pre + g);
            lemma_b64_group3(g);
            assert(out@ =~= b64url_of(bytes@.take(i + 3)));
        }
        i = i + 3;
    }
    proof {
        assert(bytes@ =~= bytes@.take(i as int) + bytes@.skip(i as int));
        lemma_b64_concat(bytes@.take(i as int), bytes@.skip(i as int));
    }
    if n - i == 1 {
        let b0 = bytes[i];
        out.push(b64_char(b0 / 4));
        out.push(b64_char((b0 % 4) * 16));
        proof {
            let t = bytes@.skip(i as int);
            assert(t.len() == 1);
            assert(t[0] == bytes@[i as int]);
            assert(out@ =~= b64url_of(bytes@.take(i as int)) + b64url_of(t));
        }
    } else if n - i == 2 {
        let b0 = bytes[i];
        let b1 = bytes[i + 1];
        out.push(b64_char(b0 / 4));
        out.push(b64_char((b0 % 4) * 16 + b1 / 16));
        out.push(b64_char((b1 % 16) * 4));
        proof {
            let t = bytes@.skip(i as int);
            assert(t.len() == 2);
            assert(t[0] == bytes@[i as int] && t[1] == bytes@[i + 1]);
            assert(out@ =~= b64url_of(bytes@.take(i as int)) + b64url_of(t));
        }
    } else {
        proof {
            assert(bytes@.skip(i as int).len() == 0);
            assert(out@ =~= b64url_of(bytes@));
        }
    }
    out
}

/// The sextet value of a char, or 255 for a char outside the alphabet.
fn b64_val(c: char) -> (v: u8)
    ensures
        v < 64 ==> is_b64_char(c) && v as int == b64_val_of(c),
        v >= 64 ==> !is_b64_char(c),
{
    let u = c as u32;
    if 65 <= u && u <= 90 {
        (u - 65) as u8
    } else if 97 <= u && u <= 122 {
        (u - 71) as u8
    } else if 48 <= u && u <= 57 {
        (u + 4) as u8
    } else if u == 45 {
        62
    } else if u == 95 {
        63
    } else {
        255
    }
}

/// Decodes unpadded URL-safe base64 chars, accepting exactly the images of
/// [`b64url_encode`]: a decoded result always re-encodes to the input, and
/// rejection means no byte sequence encodes to the input.
#[verifier::rlimit(100)]
pub fn b64url_decode(s: &Vec<char>) -> (r: Option<Vec<u8>>)
    ensures
        match r {
            Some(b) => b64url_of(b@) == s@,
            None => forall|b: Seq<u8>| b64url_of(b) != s@,
        },
{
    let n = s.len();
    if n % 4 == 1 {
        proof {
            assert forall|b: Seq<u8>| b64url_of(b) != s@ by {
                lemma_b64_len(b);
            }
        }
        return None;
    }
    let mut out: Vec<u8> = Vec::new();
    let mut i: usize = 0;
    while n - i >= 4
        invariant
            i <= n,
            n == s@.len(),
            i % 4 == 0,
            n % 4 != 1,
            b64url_of(out@) == s@.take(i as int),
            out@.len() % 3 == 0,
            out@.len() == 3 * (i / 4),
        decreases n - i,
    {
        let v0 = b64_val(s[i]);
        let v1 = b64_val(s[i + 1]);
        let v2 = b64_val(s[i + 2]);
        let v3 = b64_val(s[i + 3]);
        if v0 >= 64 {
            proof {
                lemma_bad_char_no_image(s@, i as int);
            }
            return None;
        }
        if v1 >= 64 {
            proof {
                lemma_bad_char_no_image(s@, i + 1);
            }
            return None;
        }
        if v2 >= 64 {
            proof {
                lemma_bad_char_no_image(s@, i + 2);
            }
            return None;
        }
        if v3 >= 64 {
            proof {
                lemma_bad_char_no_image(s@, i + 3);
            }
            return None;
        }
        let ghost out0 = out@;
        let b0 = v0 * 4 + v1 / 16;
        let b1 = (v1 % 16) * 16 + v2 / 4;
        let b2 = (v2 % 4) * 64 + v3;
        out.push(b0);
        out.push(b1);
        out.push(b2);
        proof {
            lemma_decode_step(s@, i as int, out0, b0, b1, b2);
            assert(out@ =~= out0 + seq![b0, b1, b2]);
        }
        i = i + 4;
    }
    if i == n {
        proof {
            assert(s@.take(i as int) =~= s@);
        }
        return Some(out);
    }
    // a trailing group of two or three chars
    proof {
        lemma_fundamental_div_mod(i as int, 4);
        lemma_fundamental_div_mod_converse(n as int, 4, (i as int) / 4, n - i);
        assert(n - i == 2 || n - i == 3);
    }
    let v0 = b64_val(s[i]);
    let v1 = b64_val(s[i + 1]);
    if v0 >= 64 {
        proof {
            lemma_bad_char_no_image(s@, i as int);
        }
        return None;
    }
    if v1 >= 64 {
        proof {
            lemma_bad_char_no_image(s@, i + 1);
        }
        return None;
    }
    if n - i == 2 {
        if v1 % 16 != 0 {
            proof {
                lemma_b64_val_char(s@[i + 1]);
                assert forall|b: Seq<u8>| b64url_of(b) != s@ by {
                    if b64url_of(b) == s@ {
                        lemma_b64_len(b);
                        assert(b.len() % 3 == 1);
                        let pre = b.take(b.len() - 1);
                        let t = b.skip(b.len() - 1);
                        assert(b =~= pre + t);
                        lemma_b64_concat(pre, t);
                        assert(t.len() == 1);
                        assert(b64url_of(pre).len() == i);
                        assert(b64url_of(b)[i + 1] == b64url_of(t)[1]);
                        lemma_b64_char_val(((t[0] as int) % 4) * 16);
                        lemma_fundamental_div_mod_converse(
                            ((t[0] as int) % 4) * 16,
                            16,
                            (t[0] as int) % 4,
                            0,
                        );
                    }
                }
            }
            return None;
        }
        let ghost out0 = out@;
        let b0 = v0 * 4 + v1 / 16;
        out.push(b0);
        proof {
            lemma_b64_val_char(s@[i as int]);
            lemma_b64_val_char(s@[i + 1]);
            lemma_decode_group1(b64_val_of(s@[i as int]), b64_val_of(s@[i + 1]), b0);
            let pre = out@.take(out@.len() - 1);
            let t = out@.skip(out@.len() - 1);
            assert(pre =~= out0);
            assert(out@ =~= pre + t);
            lemma_b64_concat(pre, t);
            assert(t.len() == 1);
            assert(t[0] == b0);
            assert(b64url_of(t) =~= s@.subrange(i as int, i + 2));
            assert(b64url_of(out@) =~= s@);
        }
        return Some(out);
    }
    let v2 = b64_val(s[i + 2]);
    if v2 >= 64 {
        proof {
            lemma_bad_char_no_image(s@, i + 2);
        }
        return None;
    }
    if v2 % 4 != 0 {
        proof {
            lemma_b64_val_char(s@[i + 2]);
            assert forall|b: Seq<u8>| b64url_of(b) != s@ by {
                if b64url_of(b) == s@ {
                    lemma_b64_len(b);
                    assert(b.len() % 3 == 2);
                    let pre = b.take(b.len() - 2);
                    let t = b.skip(b.len() - 2);
                    assert(b =~= pre + t);
                    lemma_b64_concat(pre, t);
                    assert(t.len() == 2);
                    assert(b64url_of(t)[2] == s@[i + 2]);
                    lemma_b64_char_val(((t[1] as int) % 16) * 4);
                    assert(b64url_of(pre).len() == i);
                }
            }
        }
        return None;
    }
    let ghost out0 = out@;
    let b0 = v0 * 4 + v1 / 16;
    let b1 = (v1 % 16) * 16 + v2 / 4;
    out.push(b0);
    out.push(b1);
    proof {
        lemma_b64_val_char(s@[i as int]);
        lemma_b64_val_char(s@[i + 1]);
        lemma_b64_val_char(s@[i + 2]);
        lemma_decode_group2(
            b64_val_of(s@[i as int]),
            b64_val_of(s@[i + 1]),
            b64_val_of(s@[i + 2]),
            b0,
            b1,
        );
        let pre = out@.take(out@.len() - 2);
        let t = out@.skip(out@.len() - 2);
        assert(pre =~= out0);
        assert(out@ =~= pre + t);
        lemma_b64_concat(pre, t);
        assert(t.len() == 2);
        assert(t[0] == b0 && t[1] == b1);
        assert(b64url_of(t) =~= s@.subrange(i as int, i + 3));
        assert(b64url_of(out@) =~= s@);
    }
    Some(out)
}

} // verus!
