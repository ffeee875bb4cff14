//! The versioned, time-ordered identifier scheme.
//!
//! Every tenant-scoped resource is keyed by a 128-bit identifier laid out as
//! a version-7 UUID: a 48-bit millisecond timestamp, the version nibble `7`,
//! a 12-bit tie-break field, the two variant bits `10`, and a 62-bit
//! tie-break field.  Within one process a generator hands out strictly
//! increasing values: a fresh timestamp restarts the tie-break fields from
//! random seeds, and a call that cannot move the timestamp forward takes the
//! lexicographic successor of the last value instead.  That ordering is
//! load-bearing: indexes and pagination elsewhere assume identifiers sort by
//! creation time.
//!
//! Textual identifiers arriving from outside the process are re-validated
//! here: malformed text and text carrying any version other than `7` are
//! rejected with two distinguishable errors.

use vstd::arithmetic::div_mod::lemma_basic_div;
use vstd::arithmetic::div_mod::lemma_div_denominator;
use vstd::arithmetic::div_mod::lemma_fundamental_div_mod;
use vstd::arithmetic::div_mod::lemma_fundamental_div_mod_converse;
use vstd::prelude::*;

use crate::error::AppError;
use crate::sys;
use crate::text::string_from_chars;

verus! {

/// Largest 48-bit timestamp field value.
pub const TS_MAX: u64 = 0xFFFF_FFFF_FFFF;

/// Timestamps are clamped slightly below `TS_MAX` (about 70 minutes), so a
/// generator seeded from the far end of the timestamp range keeps ample
/// headroom of successor values.
pub const TS_CLAMP: u64 = 0xFFFF_FFFF_0000;

/// Largest 12-bit tie-break field value.
pub const RA_MAX: u16 = 0xFFF;

/// Largest 62-bit tie-break field value.
pub const RB_MAX: u64 = 0x3FFF_FFFF_FFFF_FFFF;

/// The packed 128-bit value of an identifier with timestamp `ts`, version
/// nibble 7, tie-break fields `ra` and `rb`, and variant bits `10`.
pub open spec fn pack_id(ts: int, ra: int, rb: int) -> int {
    ts * 0x100000000000000000000  // 2^80
     + 7 * 0x10000000000000000000  // version nibble at 2^76
     + ra * 0x10000000000000000  // 2^64
     + 2 * 0x4000000000000000  // variant bits at 2^62
     + rb
}

/// The version nibble (bits 76 to 79) of a packed identifier value.
pub open spec fn spec_version_of(v: int) -> int {
    (v / 0x10000000000000000000) % 16
}

/// A strictly-ordered, version-tagged, 128-bit resource identifier.
///
/// The only key type for tenant-scoped resources.  Values are immutable
/// once created and always carry version nibble 7, whether generated here
/// or accepted from outside through [`parse_uuid`].
#[derive(Clone, Copy, PartialEq, Eq, Structural, Debug)]
pub struct Identifier {
    value: u128,
}

impl Identifier {
    /// The 128-bit value, as a mathematical integer.
    pub closed spec fn spec_value(self) -> int {
        self.value as int
    }

    /// Every identifier this system issues or accepts carries version 7.
    pub open spec fn wf(self) -> bool {
        spec_version_of(self.spec_value()) == 7
    }

    /// The raw 128-bit value, for handing to the persistence boundary.
    pub fn as_u128(&self) -> (r: u128)
        ensures
            r as int == self.spec_value(),
    {
        self.value
    }
}

/// The per-process identifier generator: the field values of the last
/// identifier handed out.
pub struct IdGenerator {
    ts: u64,
    ra: u16,
    rb: u64,
}

impl IdGenerator {
    /// Timestamp field of the last identifier.
    pub closed spec fn spec_ts(self) -> int {
        self.ts as int
    }

    /// First tie-break field of the last identifier.
    pub closed spec fn spec_ra(self) -> int {
        self.ra as int
    }

    /// Second tie-break field of the last identifier.
    pub closed spec fn spec_rb(self) -> int {
        self.rb as int
    }

    /// All fields within their layout widths.
    pub open spec fn wf(self) -> bool {
        &&& self.spec_ts() <= TS_MAX
        &&& self.spec_ra() <= RA_MAX
        &&& self.spec_rb() <= RB_MAX
    }

    /// The packed value of the last identifier handed out (or the floor
    /// value for a fresh generator, which is below every generated value).
    pub open spec fn last_value(self) -> int {
        pack_id(self.spec_ts(), self.spec_ra(), self.spec_rb())
    }

    /// How many identifiers this generator can still hand out: the number
    /// of field tuples lexicographically above the current one.
    pub open spec fn remaining(self) -> int {
        (TS_MAX - self.spec_ts()) * 0x400000000000000000  // 2^74 tuples per timestamp step
         + (RA_MAX - self.spec_ra()) * 0x4000000000000000  // 2^62 per first-field step
         + (RB_MAX - self.spec_rb())
    }

    /// Whether at least `n` identifiers can still be handed out, so a
    /// caller can test the generation precondition before asking.
    pub fn remaining_at_least(&self, n: u64) -> (r: bool)
        requires
            self.wf(),
        ensures
            r == (self.remaining() >= n as int),
    {
        let left: u128 = ((TS_MAX - self.ts) as u128) * 0x400000000000000000 + ((RA_MAX
            - self.ra) as u128) * 0x4000000000000000 + ((RB_MAX - self.rb) as u128);
        left >= n as u128
    }

    /// A fresh generator, below every identifier it will hand out.
    pub fn new() -> (g: IdGenerator)
        ensures
            g.wf(),
            g.spec_ts() == 0,
            g.spec_ra() == 0,
            g.spec_rb() == 0,
    {
        IdGenerator { ts: 0, ra: 0, rb: 0 }
    }
}

/// A candidate whose timestamp was clamped to `TS_CLAMP` leaves at least
/// this many successor values.
pub open spec fn candidate_headroom() -> int {
    0xFFFF as int * 0x400000000000000000
}

/// Packed values respect the lexicographic order of their field tuples.
proof fn lemma_pack_lt(t1: int, a1: int, b1: int, t2: int, a2: int, b2: int)
    requires
        0 <= t1 <= TS_MAX,
        0 <= a1 <= RA_MAX,
        0 <= b1 <= RB_MAX,
        0 <= t2 <= TS_MAX,
        0 <= a2 <= RA_MAX,
        0 <= b2 <= RB_MAX,
        t1 < t2 || (t1 == t2 && a1 < a2) || (t1 == t2 && a1 == a2 && b1 < b2),
    ensures
        pack_id(t1, a1, b1) < pack_id(t2, a2, b2),
{
}

/// Packed identifier values carry version nibble 7.
proof fn lemma_version_of_pack(ts: int, ra: int, rb: int)
    requires
        0 <= ts <= TS_MAX,
        0 <= ra <= RA_MAX,
        0 <= rb <= RB_MAX,
    ensures
        spec_version_of(pack_id(ts, ra, rb)) == 7,
{
    let low = ra * 0x10000000000000000 + 2 * 0x4000000000000000 + rb;
    assert(pack_id(ts, ra, rb) == (16 * ts + 7) * 0x10000000000000000000 + low);
    assert(0 <= low < 0x10000000000000000000);
    lemma_fundamental_div_mod_converse(
        pack_id(ts, ra, rb),
        0x10000000000000000000,
        16 * ts + 7,
        low,
    );
    lemma_fundamental_div_mod_converse(16 * ts + 7, 16, ts, 7);
}

/// Packs the generator's current fields into an identifier.
fn pack_current(gen: &IdGenerator) -> (r: Identifier)
    requires
        gen.wf(),
    ensures
        r.wf(),
        r.spec_value() == gen.last_value(),
{
    proof {
        lemma_version_of_pack(gen.spec_ts(), gen.spec_ra(), gen.spec_rb());
    }
    Identifier {
        value: (gen.ts as u128) * 0x100000000000000000000 + 7 * 0x10000000000000000000 + (
        gen.ra as u128) * 0x10000000000000000 + 2 * 0x4000000000000000 + (gen.rb as u128),
    }
}

/// One generation step, with the time and randomness supplied by the caller.
///
/// If the clamped timestamp and random seeds form a tuple above the last
/// one, they become the new identifier; otherwise the last identifier's
/// lexicographic successor is taken, so the result is strictly greater
/// than everything handed out before in either case.
pub fn next_id(gen: &mut IdGenerator, now_ms: u64, seed_a: u16, seed_b: u64) -> (r: Identifier)
    requires
        old(gen).wf(),
        old(gen).remaining() >= 1,
    ensures
        final(gen).wf(),
        r.wf(),
        r.spec_value() == final(gen).last_value(),
        r.spec_value() > old(gen).last_value(),
        final(gen).remaining() >= old(gen).remaining() - 1 || final(gen).remaining()
            >= candidate_headroom(),
{
    let masked: u64 = now_ms % 0x1_0000_0000_0000;
    let ts_in: u64 = if masked > TS_CLAMP {
        TS_CLAMP
    } else {
        masked
    };
    let ra_in: u16 = seed_a % 0x1000;
    let rb_in: u64 = seed_b % 0x4000_0000_0000_0000;
    if ts_in > gen.ts || (ts_in == gen.ts && ra_in > gen.ra) || (ts_in == gen.ts && ra_in == gen.ra
        && rb_in > gen.rb) {
        proof {
            lemma_pack_lt(
                gen.spec_ts(),
                gen.spec_ra(),
                gen.spec_rb(),
                ts_in as int,
                ra_in as int,
                rb_in as int,
            );
        }
        gen.ts = ts_in;
        gen.ra = ra_in;
        gen.rb = rb_in;
    } else if gen.rb < RB_MAX {
        proof {
            lemma_pack_lt(
                gen.spec_ts(),
                gen.spec_ra(),
                gen.spec_rb(),
                gen.spec_ts(),
                gen.spec_ra(),
                gen.spec_rb() + 1,
            );
        }
        gen.rb = gen.rb + 1;
    } else if gen.ra < RA_MAX {
        proof {
            lemma_pack_lt(
                gen.spec_ts(),
                gen.spec_ra(),
                gen.spec_rb(),
                gen.spec_ts(),
                gen.spec_ra() + 1,
                0,
            );
        }
        gen.ra = gen.ra + 1;
        gen.rb = 0;
    } else {
        proof {
            lemma_pack_lt(
                gen.spec_ts(),
                gen.spec_ra(),
                gen.spec_rb(),
                gen.spec_ts() + 1,
                0,
                0,
            );
        }
        gen.ts = gen.ts + 1;
        gen.ra = 0;
        gen.rb = 0;
    }
    pack_current(gen)
}

/// Generates a fresh identifier from the system clock and the process
/// random number generator.
///
/// Neither source is trusted for ordering: whatever they return, the result
/// is strictly greater than every identifier this generator handed out
/// before.  An unreadable clock only costs time-ordering, never uniqueness.
pub fn new_uuid(gen: &mut IdGenerator) -> (r: Identifier)
    requires
        old(gen).wf(),
        old(gen).remaining() >= 1,
    ensures
        final(gen).wf(),
        r.wf(),
        r.spec_value() == final(gen).last_value(),
        r.spec_value() > old(gen).last_value(),
        final(gen).remaining() >= old(gen).remaining() - 1 || final(gen).remaining()
            >= candidate_headroom(),
{
    let now_ms: u64 = match sys::now_unix_millis() {
        Some(ms) => ms,
        None => 0,
    };
    let seed_a: u16 = (sys::random_u64() % 0x1000) as u16;
    let seed_b: u64 = sys::random_u64();
    next_id(gen, now_ms, seed_a, seed_b)
}

/// Identifiers generated one after the other form a strictly increasing
/// chain, so any sequence of generated values is strictly increasing as
/// 128-bit integers: each call's result is above the generator's last
/// value, and becomes the new last value.
pub proof fn lemma_generated_sequence_increases(vals: Seq<int>)
    requires
        forall|i: int| 0 <= i < vals.len() - 1 ==> #[trigger] vals[i] < vals[i + 1],
    ensures
        forall|i: int, j: int| 0 <= i < j < vals.len() ==> vals[i] < vals[j],
    decreases vals.len(),
{
    if vals.len() > 1 {
        lemma_generated_sequence_increases(vals.drop_last());
        assert forall|i: int, j: int| 0 <= i < j < vals.len() implies vals[i] < vals[j] by {
            if j < vals.len() - 1 {
                assert(vals.drop_last()[i] == vals[i]);
                assert(vals.drop_last()[j] == vals[j]);
            } else {
                if i < j - 1 {
                    assert(vals.drop_last()[i] == vals[i]);
                    assert(vals.drop_last()[j - 1] == vals[j - 1]);
                }
                assert(vals[j - 1] < vals[j]);
            }
        }
    }
}

/// Sixteen to the power `k`.
pub open spec fn pow16(k: nat) -> int
    decreases k,
{
    if k == 0 {
        1
    } else {
        16 * pow16((k - 1) as nat)
    }
}

pub proof fn lemma_pow16_pos(k: nat)
    ensures
        pow16(k) >= 1,
    decreases k,
{
    if k > 0 {
        lemma_pow16_pos((k - 1) as nat);
    }
}

pub proof fn lemma_pow16_le(a: nat, b: nat)
    requires
        a <= b,
    ensures
        pow16(a) <= pow16(b),
    decreases b,
{
    if a < b {
        lemma_pow16_le(a, (b - 1) as nat);
        lemma_pow16_pos((b - 1) as nat);
    }
}

/// The identifier space holds exactly `pow16(32)` values.
pub proof fn lemma_pow16_32()
    ensures
        pow16(32) == 0x100000000000000000000000000000000,
{
    reveal_with_fuel(pow16, 33);
}

/// The value of an identifier is always inside the textual codec's range.
pub proof fn lemma_identifier_value_bound(id: Identifier)
    ensures
        0 <= id.spec_value() < pow16(32),
{
    lemma_pow16_32();
}

/// Lowercase hex digits and the uppercase letters are the accepted digit
/// alphabet of identifier text.
pub open spec fn is_hex_char(c: char) -> bool {
    let u = c as u32;
    (48 <= u <= 57) || (97 <= u <= 102) || (65 <= u <= 70)
}

/// The numeric value of an accepted hex digit char.
pub open spec fn hex_val_of(c: char) -> int {
    let u = c as u32;
    if 48 <= u <= 57 {
        u - 48
    } else if 97 <= u <= 102 {
        u - 87
    } else {
        u - 55
    }
}

/// The lowercase hex digit char spelling the value `n`.
pub open spec fn hex_char_of(n: int) -> char {
    if n < 10 {
        ((48 + n) as u8) as char
    } else {
        ((87 + n) as u8) as char
    }
}

pub proof fn lemma_hex_char_val(n: int)
    requires
        0 <= n < 16,
    ensures
        is_hex_char(hex_char_of(n)),
        hex_val_of(hex_char_of(n)) == n,
{
}

/// The char position of hex digit `i` in the 8-4-4-4-12 hyphenated layout.
pub open spec fn nib_pos(i: int) -> int {
    if i < 8 {
        i
    } else if i < 12 {
        i + 1
    } else if i < 16 {
        i + 2
    } else if i < 20 {
        i + 3
    } else {
        i + 4
    }
}

/// Hex digit `i` (counting from the most significant) of a packed value.
pub open spec fn nib_of(v: int, i: int) -> int {
    v / pow16((31 - i) as nat) % 16
}

/// The char at position `j` of the textual form of `v`.
pub open spec fn uuid_char_at(v: int, j: int) -> char {
    if j == 8 || j == 13 || j == 18 || j == 23 {
        '-'
    } else {
        let i = if j < 8 {
            j
        } else if j < 13 {
            j - 1
        } else if j < 18 {
            j - 2
        } else if j < 23 {
            j - 3
        } else {
            j - 4
        };
        hex_char_of(nib_of(v, i))
    }
}

/// The canonical textual form of a packed value: 32 lowercase hex digits
/// in the hyphenated 8-4-4-4-12 layout.
pub open spec fn uuid_str_of(v: int) -> Seq<char> {
    Seq::new(36, |j: int| uuid_char_at(v, j))
}

/// Whether `s` is well-formed identifier text: exactly 36 chars, hyphens
/// at positions 8, 13, 18 and 23, hex digits (either case) elsewhere.
pub open spec fn is_uuid_text(s: Seq<char>) -> bool {
    &&& s.len() == 36
    &&& s[8] == '-'
    &&& s[13] == '-'
    &&& s[18] == '-'
    &&& s[23] == '-'
    &&& forall|i: int| 0 <= i < 32 ==> is_hex_char(#[trigger] s[nib_pos(i)])
}

/// The value spelled by the first `k` hex digits of identifier text.
pub open spec fn hex_prefix_value(s: Seq<char>, k: int) -> int
    decreases k,
{
    if k <= 0 {
        0
    } else {
        hex_prefix_value(s, k - 1) * 16 + hex_val_of(s[nib_pos(k - 1)])
    }
}

/// The packed value spelled by identifier text.
pub open spec fn uuid_value_of(s: Seq<char>) -> int {
    hex_prefix_value(s, 32)
}

proof fn lemma_hex_prefix_bound(s: Seq<char>, k: int)
    requires
        0 <= k <= 32,
        forall|i: int| 0 <= i < 32 ==> is_hex_char(#[trigger] s[nib_pos(i)]),
    ensures
        0 <= hex_prefix_value(s, k) < pow16(k as nat),
    decreases k,
{
    if k > 0 {
        lemma_hex_prefix_bound(s, k - 1);
        assert(0 <= hex_val_of(s[nib_pos(k - 1)]) < 16);
    }
}

proof fn lemma_uuid_prefix(v: int, k: int)
    requires
        0 <= v < pow16(32),
        0 <= k <= 32,
    ensures
        hex_prefix_value(uuid_str_of(v), k) == v / pow16((32 - k) as nat),
    decreases k,
{
    let s = uuid_str_of(v);
    if k == 0 {
        lemma_pow16_pos(32);
        lemma_basic_div(v, pow16(32));
    } else {
        lemma_uuid_prefix(v, k - 1);
        let i = k - 1;
        let m = (31 - i) as nat;
        lemma_pow16_pos(m);
        let x = v / pow16(m);
        assert(s[nib_pos(i)] == uuid_char_at(v, nib_pos(i)));
        assert(uuid_char_at(v, nib_pos(i)) == hex_char_of(nib_of(v, i)));
        assert(x % 16 == nib_of(v, i));
        lemma_fundamental_div_mod(x, 16);
        assert(0 <= x % 16 < 16);
        lemma_hex_char_val(x % 16);
        lemma_div_denominator(v, pow16(m), 16);
        assert(pow16((m + 1) as nat) == 16 * pow16(m));
        assert(v / pow16((32 - (k - 1)) as nat) == x / 16);
        assert(hex_prefix_value(s, k) == (x / 16) * 16 + x % 16);
        assert((x / 16) * 16 + x % 16 == x) by {
            lemma_fundamental_div_mod(x, 16);
        }
    }
}

/// The textual round trip: the canonical text of every identifier value is
/// well-formed and spells back exactly that value.  Together with the
/// contracts of [`Identifier::to_uuid_string`] and [`parse_uuid`], parsing
/// a generated identifier's text always succeeds and returns an identical
/// identifier.
pub proof fn lemma_uuid_text_round_trip(v: int)
    requires
        0 <= v < pow16(32),
    ensures
        is_uuid_text(uuid_str_of(v)),
        uuid_value_of(uuid_str_of(v)) == v,
{
    let s = uuid_str_of(v);
    assert forall|i: int| 0 <= i < 32 implies is_hex_char(#[trigger] s[nib_pos(i)]) by {
        let m = (31 - i) as nat;
        lemma_pow16_pos(m);
        lemma_fundamental_div_mod(v / pow16(m), 16);
        lemma_hex_char_val(nib_of(v, i));
        assert(s[nib_pos(i)] == hex_char_of(nib_of(v, i)));
    }
    lemma_uuid_prefix(v, 32);
    assert(pow16(0) == 1);
    assert(uuid_value_of(s) == v / 1);
}

impl Identifier {
    /// Spells this identifier in its canonical hyphenated lowercase form.
    pub fn to_uuid_string(&self) -> (r: String)
        ensures
            r@ == uuid_str_of(self.spec_value()),
    {
        let ghost v = self.spec_value();
        let mut nibbles: Vec<u8> = Vec::new();
        let mut cur: u128 = self.value;
        let mut k: usize = 0;
        while k < 32
            invariant
                k <= 32,
                nibbles@.len() == k,
                cur as int == v / pow16(k as nat),
                v == self.spec_value(),
                forall|t: int| 0 <= t < k ==> #[trigger] nibbles@[t] as int == v / pow16(
                    t as nat,
                ) % 16,
            decreases 32 - k,
        {
            proof {
                lemma_pow16_pos(k as nat);
                lemma_div_denominator(v, pow16(k as nat), 16);
                assert(pow16((k + 1) as nat) == 16 * pow16(k as nat));
            }
            nibbles.push((cur % 16) as u8);
            cur = cur / 16;
            k = k + 1;
        }
        let mut out: Vec<char> = Vec::new();
        let mut j: usize = 0;
        while j < 36
            invariant
                j <= 36,
                out@.len() == j,
                nibbles@.len() == 32,
                v == self.spec_value(),
                forall|t: int| 0 <= t < 32 ==> #[trigger] nibbles@[t] as int == v / pow16(
                    t as nat,
                ) % 16,
                forall|t: int| 0 <= t < j ==> #[trigger] out@[t] == uuid_char_at(v, t),
            decreases 36 - j,
        {
            if j == 8 || j == 13 || j == 18 || j == 23 {
                out.push('-');
            } else {
                let i: usize = if j < 8 {
                    j
                } else if j < 13 {
                    j - 1
                } else if j < 18 {
                    j - 2
                } else if j < 23 {
                    j - 3
                } else {
                    j - 4
                };
                let d: u8 = nibbles[31 - i];
                proof {
                    lemma_pow16_pos((31 - i) as nat);
                    lemma_fundamental_div_mod(v / pow16((31 - i) as nat), 16);
                }
                let c: char = if d < 10 {
                    (d + 48) as char
                } else {
                    (d + 87) as char
                };
                out.push(c);
            }
            j = j + 1;
        }
        proof {
            assert(out@ =~= uuid_str_of(v));
        }
        string_from_chars(&out)
    }
}

/// Non-hyphenated identifier text: exactly 32 hex digits.
pub open spec fn is_uuid_simple(s: Seq<char>) -> bool {
    s.len() == 32 && forall|i: int| 0 <= i < 32 ==> is_hex_char(#[trigger] s[i])
}

/// The value spelled by the first `k` digits of non-hyphenated text.
pub open spec fn simple_prefix_value(s: Seq<char>, k: int) -> int
    decreases k,
{
    if k <= 0 {
        0
    } else {
        simple_prefix_value(s, k - 1) * 16 + hex_val_of(s[k - 1])
    }
}

/// The packed value spelled by non-hyphenated identifier text.
pub open spec fn simple_value_of(s: Seq<char>) -> int {
    simple_prefix_value(s, 32)
}

/// The nine chars `urn:uuid:`, in either letter case.
pub open spec fn is_urn_prefix(s: Seq<char>) -> bool {
    &&& s.len() >= 9
    &&& (s[0] == 'u' || s[0] == 'U')
    &&& (s[1] == 'r' || s[1] == 'R')
    &&& (s[2] == 'n' || s[2] == 'N')
    &&& s[3] == ':'
    &&& (s[4] == 'u' || s[4] == 'U')
    &&& (s[5] == 'u' || s[5] == 'U')
    &&& (s[6] == 'i' || s[6] == 'I')
    &&& (s[7] == 'd' || s[7] == 'D')
    &&& s[8] == ':'
}

/// Hyphenated identifier text wrapped in braces.
pub open spec fn is_uuid_braced(s: Seq<char>) -> bool {
    s.len() == 38 && s[0] == '{' && s[37] == '}' && is_uuid_text(s.subrange(1, 37))
}

/// Hyphenated identifier text behind a `urn:uuid:` prefix.
pub open spec fn is_uuid_urn(s: Seq<char>) -> bool {
    s.len() == 45 && is_urn_prefix(s) && is_uuid_text(s.skip(9))
}

/// Every accepted textual shape: non-hyphenated, hyphenated, braced, or
/// URN-prefixed.  The shapes have pairwise different lengths.
pub open spec fn is_uuid_anytext(s: Seq<char>) -> bool {
    is_uuid_simple(s) || is_uuid_text(s) || is_uuid_braced(s) || is_uuid_urn(s)
}

/// The packed value spelled by identifier text of any accepted shape.
pub open spec fn uuid_anyvalue_of(s: Seq<char>) -> int {
    if s.len() == 32 {
        simple_value_of(s)
    } else if s.len() == 38 {
        uuid_value_of(s.subrange(1, 37))
    } else if s.len() == 45 {
        uuid_value_of(s.skip(9))
    } else {
        uuid_value_of(s)
    }
}

proof fn lemma_simple_prefix_bound(s: Seq<char>, k: int)
    requires
        0 <= k <= 32,
        forall|i: int| 0 <= i < 32 ==> is_hex_char(#[trigger] s[i]),
    ensures
        0 <= simple_prefix_value(s, k) < pow16(k as nat),
    decreases k,
{
    if k > 0 {
        lemma_simple_prefix_bound(s, k - 1);
        assert(0 <= hex_val_of(s[k - 1]) < 16);
    }
}

/// Reads 32 consecutive hex digits.
fn parse_simple_chars(chars: &Vec<char>) -> (r: Option<u128>)
    requires
        chars@.len() == 32,
    ensures
        r is Some <==> is_uuid_simple(chars@),
        r is Some ==> r->0 as int == simple_value_of(chars@),
{
    proof {
        lemma_pow16_32();
    }
    let mut value: u128 = 0;
    let mut i: usize = 0;
    while i < 32
        invariant
            i <= 32,
            chars@.len() == 32,
            value as int == simple_prefix_value(chars@, i as int),
            (value as int) < pow16(i as nat),
            pow16(32) == 0x100000000000000000000000000000000,
            forall|t: int| 0 <= t < i ==> is_hex_char(#[trigger] chars@[t]),
        decreases 32 - i,
    {
        let c = chars[i];
        let u = c as u32;
        let is_digit = 48 <= u && u <= 57;
        let is_lower = 97 <= u && u <= 102;
        let is_upper = 65 <= u && u <= 70;
        if !(is_digit || is_lower || is_upper) {
            assert(!is_hex_char(chars@[i as int]));
            return None;
        }
        let d: u32 = if is_digit {
            u - 48
        } else if is_lower {
            u - 87
        } else {
            u - 55
        };
        proof {
            lemma_pow16_le((i + 1) as nat, 32);
            assert(pow16((i + 1) as nat) == 16 * pow16(i as nat));
        }
        value = value * 16 + d as u128;
        i = i + 1;
    }
    Some(value)
}

/// Reads 36 chars of hyphenated identifier text starting at `off`.
fn parse_hyphenated_chars(chars: &Vec<char>, off: usize) -> (r: Option<u128>)
    requires
        off + 36 <= chars@.len(),
    ensures
        r is Some <==> is_uuid_text(chars@.subrange(off as int, off + 36)),
        r is Some ==> r->0 as int == uuid_value_of(chars@.subrange(off as int, off + 36)),
{
    let n = chars.len();
    proof {
        assert(off + 36 <= n);
    }
    let ghost sub = chars@.subrange(off as int, off + 36);
    if !(chars[off + 8] == '-' && chars[off + 13] == '-' && chars[off + 18] == '-' && chars[off
        + 23] == '-') {
        proof {
            assert(sub[8] == chars@[off + 8]);
            assert(sub[13] == chars@[off + 13]);
            assert(sub[18] == chars@[off + 18]);
            assert(sub[23] == chars@[off + 23]);
        }
        return None;
    }
    proof {
        lemma_pow16_32();
    }
    let mut value: u128 = 0;
    let mut i: usize = 0;
    while i < 32
        invariant
            i <= 32,
            n == chars@.len(),
            off + 36 <= n,
            sub == chars@.subrange(off as int, off + 36),
            value as int == hex_prefix_value(sub, i as int),
            (value as int) < pow16(i as nat),
            pow16(32) == 0x100000000000000000000000000000000,
            forall|t: int| 0 <= t < i ==> is_hex_char(#[trigger] sub[nib_pos(t)]),
        decreases 32 - i,
    {
        let j: usize = if i < 8 {
            i
        } else if i < 12 {
            i + 1
        } else if i < 16 {
            i + 2
        } else if i < 20 {
            i + 3
        } else {
            i + 4
        };
        let c = chars[off + j];
        proof {
            assert(sub[nib_pos(i as int)] == chars@[off + j]);
        }
        let u = c as u32;
        let is_digit = 48 <= u && u <= 57;
        let is_lower = 97 <= u && u <= 102;
        let is_upper = 65 <= u && u <= 70;
        if !(is_digit || is_lower || is_upper) {
            assert(!is_hex_char(sub[nib_pos(i as int)]));
            return None;
        }
        let d: u32 = if is_digit {
            u - 48
        } else if is_lower {
            u - 87
        } else {
            u - 55
        };
        proof {
            lemma_pow16_le((i + 1) as nat, 32);
            assert(pow16((i + 1) as nat) == 16 * pow16(i as nat));
        }
        value = value * 16 + d as u128;
        i = i + 1;
    }
    Some(value)
}

/// Validates identifier text arriving from outside the process.
///
/// All four textual shapes are accepted: 32 plain hex digits, the
/// hyphenated form, the braced hyphenated form, and the hyphenated form
/// behind a case-insensitive `urn:uuid:` prefix.  Malformed text is
/// rejected as `InvalidFormat`; well-formed text whose version nibble is
/// anything but 7 is rejected as `InvalidVersion`, so a caller can tell a
/// garbled identifier from a foreign one.
pub fn parse_uuid(input: &str) -> (r: Result<Identifier, AppError>)
    ensures
        match r {
            Ok(id) => is_uuid_anytext(input@) && spec_version_of(uuid_anyvalue_of(input@)) == 7
                && id.wf() && id.spec_value() == uuid_anyvalue_of(input@),
            Err(e) => (e is InvalidFormat && !is_uuid_anytext(input@)) || (e is InvalidVersion
                && is_uuid_anytext(input@) && spec_version_of(uuid_anyvalue_of(input@)) != 7),
        },
{
    let chars = crate::text::chars_of_str(input);
    let n = chars.len();
    let parsed: Option<u128> = if n == 32 {
        parse_simple_chars(&chars)
    } else if n == 36 {
        let r = parse_hyphenated_chars(&chars, 0);
        proof {
            assert(chars@.subrange(0, 36) =~= input@);
        }
        r
    } else if n == 38 {
        if chars[0] == '{' && chars[37] == '}' {
            parse_hyphenated_chars(&chars, 1)
        } else {
            None
        }
    } else if n == 45 {
        let u0 = chars[0] == 'u' || chars[0] == 'U';
        let u1 = chars[1] == 'r' || chars[1] == 'R';
        let u2 = chars[2] == 'n' || chars[2] == 'N';
        let u3 = chars[3] == ':';
        let u4 = chars[4] == 'u' || chars[4] == 'U';
        let u5 = chars[5] == 'u' || chars[5] == 'U';
        let u6 = chars[6] == 'i' || chars[6] == 'I';
        let u7 = chars[7] == 'd' || chars[7] == 'D';
        let u8c = chars[8] == ':';
        if u0 && u1 && u2 && u3 && u4 && u5 && u6 && u7 && u8c {
            let r = parse_hyphenated_chars(&chars, 9);
            proof {
                assert(chars@.subrange(9, 45) =~= input@.skip(9));
            }
            r
        } else {
            None
        }
    } else {
        None
    };
    let value = match parsed {
        Some(v) => v,
        None => {
            return Err(AppError::InvalidFormat);
        },
    };
    proof {
        if n == 38 {
            assert(chars@.subrange(1, 37) =~= input@.subrange(1, 37));
        }
        if n == 45 {
            assert(chars@.subrange(9, 45) =~= input@.skip(9));
        }
    }
    let ver = (value / 0x10000000000000000000) % 16;
    if ver == 7 {
        Ok(Identifier { value })
    } else {
        Err(AppError::InvalidVersion)
    }
}

/// Big-endian byte `i` (counting from the most significant) of a packed
/// identifier value.
pub open spec fn be_byte_of(v: int, i: int) -> int {
    v / pow16((2 * (15 - i)) as nat) % 256
}

proof fn lemma_first_diff_byte(a: int, b: int, k: int)
    requires
        0 <= a < pow16(32),
        0 <= b < pow16(32),
        a < b,
        0 <= k <= 16,
        a / pow16((2 * (16 - k)) as nat) == b / pow16((2 * (16 - k)) as nat),
    ensures
        exists|m: int|
            k <= m < 16 && (forall|j: int| k <= j < m ==> be_byte_of(a, j) == be_byte_of(b, j))
                && #[trigger] be_byte_of(a, m) < be_byte_of(b, m),
    decreases 16 - k,
{
    if k == 16 {
        assert(pow16(0) == 1);
        assert(false);
    } else {
        let p_lo = pow16((2 * (15 - k)) as nat);
        let p_hi = pow16((2 * (16 - k)) as nat);
        lemma_pow16_pos((2 * (15 - k)) as nat);
        assert(p_hi == 256 * p_lo) by {
            assert(pow16((2 * (15 - k) + 1) as nat) == 16 * p_lo);
            assert(pow16((2 * (15 - k) + 2) as nat) == 16 * pow16((2 * (15 - k) + 1) as nat));
        }
        lemma_div_denominator(a, p_lo, 256);
        lemma_div_denominator(b, p_lo, 256);
        lemma_fundamental_div_mod(a / p_lo, 256);
        lemma_fundamental_div_mod(b / p_lo, 256);
        assert(a / p_lo == (a / p_hi) * 256 + be_byte_of(a, k));
        assert(b / p_lo == (b / p_hi) * 256 + be_byte_of(b, k));
        if a / p_lo == b / p_lo {
            assert(be_byte_of(a, k) == be_byte_of(b, k));
            lemma_first_diff_byte(a, b, k + 1);
            let m = choose|m: int|
                k + 1 <= m < 16 && (forall|j: int|
                    k + 1 <= j < m ==> be_byte_of(a, j) == be_byte_of(b, j))
                    && #[trigger] be_byte_of(a, m) < be_byte_of(b, m);
            assert(forall|j: int| k <= j < m ==> be_byte_of(a, j) == be_byte_of(b, j));
        } else {
            vstd::arithmetic::div_mod::lemma_div_is_ordered(a, b, p_lo);
            assert(a / p_lo < b / p_lo);
            assert(be_byte_of(a, k) < be_byte_of(b, k));
            assert(forall|j: int| k <= j < k ==> be_byte_of(a, j) == be_byte_of(b, j));
        }
    }
}

/// Identifier values order the same way as their sixteen big-endian
/// bytes: a smaller value differs first in a smaller byte.  Together with
/// [`lemma_generated_sequence_increases`], any sequence of generated
/// identifiers is strictly increasing as byte strings, not only as
/// integers.
pub proof fn lemma_value_order_is_byte_order(a: int, b: int)
    requires
        0 <= a < pow16(32),
        0 <= b < pow16(32),
        a < b,
    ensures
        exists|m: int|
            0 <= m < 16 && (forall|j: int| 0 <= j < m ==> be_byte_of(a, j) == be_byte_of(b, j))
                && #[trigger] be_byte_of(a, m) < be_byte_of(b, m),
{
    assert(pow16(32) == pow16((2 * (16 - 0)) as nat));
    lemma_pow16_pos(32);
    lemma_basic_div(a, pow16(32));
    lemma_basic_div(b, pow16(32));
    lemma_first_diff_byte(a, b, 0);
}

/// The version round trip at the identifier level: every identifier's
/// canonical text is well-formed, spells the same value back, and (for the
/// version this system issues) carries the accepted version tag, so
/// parsing a generated identifier's text always succeeds and returns an
/// identical identifier.
pub proof fn lemma_identifier_text_round_trip(id: Identifier)
    ensures
        is_uuid_text(uuid_str_of(id.spec_value())),
        is_uuid_anytext(uuid_str_of(id.spec_value())),
        uuid_value_of(uuid_str_of(id.spec_value())) == id.spec_value(),
        uuid_anyvalue_of(uuid_str_of(id.spec_value())) == id.spec_value(),
        id.wf() ==> spec_version_of(uuid_anyvalue_of(uuid_str_of(id.spec_value()))) == 7,
{
    lemma_identifier_value_bound(id);
    lemma_uuid_text_round_trip(id.spec_value());
}

} // verus!
