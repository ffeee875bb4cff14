//! Bridges between byte vectors, char vectors and `String`.
//!
//! The codec modules do their work on plain bytes and chars, which Verus
//! reasons about directly; the two trusted items here only move values
//! between those shapes and `String` or `char`.

use vstd::prelude::*;

verus! {

/// The chars spelled by a sequence of ASCII bytes, one char per byte.
pub open spec fn chars_of_bytes(b: Seq<u8>) -> Seq<char> {
    b.map_values(|x: u8| x as char)
}

/// Relies on `String`'s `FromIterator<char>`: collecting chars yields the
/// string of exactly those chars, in order.
#[verifier::external_body]
pub(crate) fn string_from_chars(v: &Vec<char>) -> (r: String)
    ensures
        r@ == v@,
{
    v.iter().copied().collect()
}

/// Relies on `char::from_u32`: every Unicode scalar value and nothing else
/// converts to the char with that code.
pub assume_specification[ char::from_u32 ](i: u32) -> (r: Option<char>)
    ensures
        r is Some <==> vstd::utf8::is_scalar(i),
        r is Some ==> (r->0 as u32) == i,
;

/// The chars of a string, one by one.
pub fn chars_of_str(s: &str) -> (r: Vec<char>)
    ensures
        r@ == s@,
{
    let n = s.unicode_len();
    let mut out: Vec<char> = Vec::new();
    let mut i: usize = 0;
    while i < n
        invariant
            i <= n,
            n == s@.len(),
            out@ == s@.take(i as int),
        decreases n - i,
    {
        out.push(s.get_char(i));
        proof {
            assert(out@ =~= s@.take(i + 1));
        }
        i = i + 1;
    }
    proof {
        assert(s@.take(n as int) =~= s@);
    }
    out
}

/// Whether two strings spell the same chars.
pub fn str_eq(a: &str, b: &str) -> (r: bool)
    ensures
        r <==> a@ == b@,
{
    let na = a.unicode_len();
    let nb = b.unicode_len();
    if na != nb {
        return false;
    }
    let mut i: usize = 0;
    while i < na
        invariant
            i <= na,
            na == a@.len(),
            na == b@.len(),
            forall|t: int| 0 <= t < i ==> a@[t] == b@[t],
        decreases na - i,
    {
        if a.get_char(i) != b.get_char(i) {
            return false;
        }
        i = i + 1;
    }
    proof {
        assert(a@ =~= b@);
    }
    true
}

/// The ASCII byte codes of a char sequence.
pub open spec fn ascii_bytes_of(s: Seq<char>) -> Seq<u8> {
    s.map_values(|c: char| c as u8)
}

/// Reading ASCII bytes back as chars returns the original chars.
pub proof fn lemma_ascii_roundtrip(s: Seq<char>)
    requires
        forall|i: int| 0 <= i < s.len() ==> (#[trigger] s[i] as u32) < 128,
    ensures
        chars_of_bytes(ascii_bytes_of(s)) == s,
{
    assert(chars_of_bytes(ascii_bytes_of(s)) =~= s) by {
        assert forall|i: int| 0 <= i < s.len() implies chars_of_bytes(ascii_bytes_of(s))[i]
            == s[i] by {
            vstd::utf8::char_is_scalar(s[i]);
            vstd::utf8::char_u32_cast(s[i], s[i] as u32);
            assert(ascii_bytes_of(s)[i] == s[i] as u8);
        }
    }
}

/// ASCII chars with equal byte codes are equal char for char.
pub proof fn lemma_ascii_bytes_injective(s1: Seq<char>, s2: Seq<char>)
    requires
        forall|i: int| 0 <= i < s1.len() ==> (#[trigger] s1[i] as u32) < 128,
        forall|i: int| 0 <= i < s2.len() ==> (#[trigger] s2[i] as u32) < 128,
        ascii_bytes_of(s1) == ascii_bytes_of(s2),
    ensures
        s1 == s2,
{
    lemma_ascii_roundtrip(s1);
    lemma_ascii_roundtrip(s2);
}

/// Turns bytes into the chars with the same codes.
pub fn bytes_to_chars(v: &Vec<u8>) -> (r: Vec<char>)
    ensures
        r@ == chars_of_bytes(v@),
{
    let n = v.len();
    let mut out: Vec<char> = Vec::new();
    let mut i: usize = 0;
    while i < n
        invariant
            i <= n,
            n == v@.len(),
            out@ == chars_of_bytes(v@.take(i as int)),
        decreases n - i,
    {
        out.push(v[i] as char);
        proof {
            assert(out@ =~= chars_of_bytes(v@.take(i + 1)));
        }
        i = i + 1;
    }
    proof {
        assert(v@.take(n as int) =~= v@);
    }
    out
}

/// Turns ASCII chars into the bytes with the same codes.
pub fn chars_to_bytes(v: &Vec<char>) -> (r: Vec<u8>)
    requires
        forall|i: int| 0 <= i < v@.len() ==> (#[trigger] v@[i] as u32) < 128,
    ensures
        r@ == ascii_bytes_of(v@),
{
    let n = v.len();
    let mut out: Vec<u8> = Vec::new();
    let mut i: usize = 0;
    while i < n
        invariant
            i <= n,
            n == v@.len(),
            forall|t: int| 0 <= t < n ==> (#[trigger] v@[t] as u32) < 128,
            out@ == ascii_bytes_of(v@.take(i as int)),
        decreases n - i,
    {
        let c = v[i];
        out.push(c as u8);
        proof {
            assert(out@ =~= ascii_bytes_of(v@.take(i + 1)));
        }
        i = i + 1;
    }
    proof {
        assert(v@.take(n as int) =~= v@);
    }
    out
}

} // verus!
