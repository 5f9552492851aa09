//! A `Slot` packs a fingerprint and its length into one 64-bit word:
//!   - bits 0..56: fingerprint value
//!   - bits 56..64: fingerprint length in bits
//!
//! Two words are reserved as markers: the void marker (an entry whose
//! fingerprint bits have all been used up by expansions) and the tombstone
//! (a deleted void entry).

use vstd::prelude::*;
use vstd::arithmetic::power2::{pow2, lemma_pow2_pos, lemma2_to64, lemma_pow2_strictly_increases};
use vstd::bits::{
    low_bits_mask, lemma_u64_low_bits_mask_is_mod, lemma_u64_shl_is_mul, lemma_u64_pow2_no_overflow, lemma_u64_shr_is_div,
};

verus! {

/// 2^56: the weight of the length field.
pub const LENGTH_UNIT: u64 = 0x0100_0000_0000_0000;

/// Mask of the fingerprint field (the low 56 bits).
pub const FP_MASK: u64 = 0x00FF_FFFF_FFFF_FFFF;

/// Encoded value of the void marker.
pub const VOID_MARKER: u64 = 0x8000_0000_0000_0000;

/// Encoded value of the tombstone marker.
pub const TOMBSTONE_MARKER: u64 = 0xFFFF_FFFF_FFFF_FFFE;

/// Largest fingerprint length that `Slot::new` accepts.
pub const MAX_FP_LEN: u8 = 56;

/// The fingerprint field of an encoded slot.
pub open spec fn fp_field(e: u64) -> u64 {
    e % LENGTH_UNIT
}

/// The length field of an encoded slot.
pub open spec fn len_field(e: u64) -> u8 {
    (e / LENGTH_UNIT) as u8
}

/// The encoding of a fingerprint `fp` of `len` bits.
pub open spec fn encode(fp: u64, len: u8) -> u64 {
    (len * LENGTH_UNIT + fp % LENGTH_UNIT) as u64
}

pub open spec fn spec_is_empty(e: u64) -> bool {
    e == 0
}

pub open spec fn spec_is_tombstone(e: u64) -> bool {
    e == TOMBSTONE_MARKER
}

/// Void: the void marker itself, or any non-empty word whose length field is zero.
pub open spec fn spec_is_void(e: u64) -> bool {
    e == VOID_MARKER || (len_field(e) == 0 && e != 0)
}

pub open spec fn spec_has_fingerprint(e: u64) -> bool {
    !spec_is_empty(e) && !spec_is_void(e) && !spec_is_tombstone(e)
}

pub open spec fn min_u8(a: u8, b: u8) -> u8 {
    if a <= b { a } else { b }
}

/// The length of a stored word: zero for a void entry, else its length field.
pub open spec fn spec_length(e: u64) -> u8 {
    if spec_is_void(e) { 0 } else { len_field(e) }
}

/// Whether a stored word could hold the query fingerprint `qfp` of `qlen` bits:
/// empty slots and tombstones never match, void entries always match, and
/// otherwise the two fingerprints agree on the bits they share: with `c` the
/// smaller of the two lengths, the longer fingerprint drops its low bits
/// down to `c` bits (a shorter fingerprint is a longer one that gave its low
/// bits away) and the remaining `c` bits of both are equal.
pub open spec fn spec_matches(e: u64, qfp: u64, qlen: u8) -> bool {
    if spec_is_tombstone(e) || spec_is_empty(e) {
        false
    } else if spec_is_void(e) {
        true
    } else {
        let s = len_field(e);
        let c = min_u8(s, qlen);
        c == 0 || (fp_field(e) as nat / pow2((s - c) as nat)) % pow2(c as nat) == (qfp as nat / pow2(
            (qlen - c) as nat,
        )) % pow2(c as nat)
    }
}

/// `matches` shifts by the compared length; it must fit in a 64-bit word.
pub open spec fn match_defined(e: u64, qlen: u8) -> bool {
    spec_is_tombstone(e) || spec_is_empty(e) || spec_is_void(e) || min_u8(len_field(e), qlen) < 64
}

/// The word stored for a fingerprint `fp` at width `r`: the void marker when
/// no bits are left, else the fingerprint with its length.
pub open spec fn entry_word(fp: u64, r: nat) -> u64 {
    if r == 0 { VOID_MARKER } else { encode(fp, r as u8) }
}

/// A stored word fits the width `r`: a marker, or a fingerprint of exactly `r` bits.
pub open spec fn word_sized(w: u64, r: nat) -> bool {
    spec_is_void(w) || spec_is_tombstone(w) || (len_field(w) == r && fp_field(w) < pow2(r))
}

/// A freshly stored word matches the fingerprint it was made from.
pub proof fn lemma_entry_word_matches(fp: u64, r: nat)
    requires
        r <= MAX_FP_LEN,
        fp < pow2(r),
    ensures
        spec_matches(entry_word(fp, r), fp, r as u8),
        entry_word(fp, r) != 0,
        word_sized(entry_word(fp, r), r),
        word_ok(entry_word(fp, r)),
{
    if r > 0 {
        let e = encode(fp, r as u8);
        vstd::arithmetic::power2::lemma2_to64();
        vstd::arithmetic::power2::lemma2_to64_rest();
        if r < 56 {
            vstd::arithmetic::power2::lemma_pow2_strictly_increases(r, 56);
        }
        assert(fp < 0x0100_0000_0000_0000);
        assert(e == r * 0x0100_0000_0000_0000 + fp);
        assert(fp_field(e) == fp);
        assert(len_field(e) == r);
    }
}

/// Bit `i` of `x`.
pub open spec fn bit_of(x: nat, i: nat) -> nat {
    (x / pow2(i)) % 2
}

/// Two numbers leave the same remainder by `2^c` exactly when they agree
/// on each of their low `c` bits.
pub proof fn lemma_low_bits_agree(a: nat, b: nat, c: nat)
    ensures
        (a % pow2(c) == b % pow2(c)) <==> (forall|i: nat| i < c ==> #[trigger] bit_of(a, i) == bit_of(b, i)),
    decreases c,
{
    if c == 0 {
        vstd::arithmetic::power2::lemma2_to64();
        assert(a % 1 == 0 && b % 1 == 0) by (nonlinear_arith);
    } else {
        let d = (c - 1) as nat;
        lemma_low_bits_agree(a, b, d);
        let p = pow2(d);
        lemma_pow2_pos(d);
        vstd::arithmetic::power2::lemma_pow2_unfold(c);
        vstd::arithmetic::div_mod::lemma_mod_breakdown(a as int, p as int, 2);
        vstd::arithmetic::div_mod::lemma_mod_breakdown(b as int, p as int, 2);
        assert(p * 2 == pow2(c));
        let x1 = (a / p) % 2;
        let x2 = (b / p) % 2;
        let r1 = a % p;
        let r2 = b % p;
        assert(a % pow2(c) == p * x1 + r1);
        assert(b % pow2(c) == p * x2 + r2);
        assert(r1 < p && r2 < p);
        assert(p * x1 == if x1 == 0 { 0 } else { p }) by (nonlinear_arith)
            requires
                x1 < 2,
        ;
        assert(p * x2 == if x2 == 0 { 0 } else { p }) by (nonlinear_arith)
            requires
                x2 < 2,
        ;
        assert(bit_of(a, d) == x1 && bit_of(b, d) == x2);
        if a % pow2(c) == b % pow2(c) {
            assert(x1 == x2 && r1 == r2);
            assert forall|i: nat| i < c implies #[trigger] bit_of(a, i) == bit_of(b, i) by {
                if i < d {
                    assert(bit_of(a, i) == bit_of(b, i));
                }
            }
        }
        if forall|i: nat| i < c ==> #[trigger] bit_of(a, i) == bit_of(b, i) {
            assert(bit_of(a, d) == bit_of(b, d));
            assert forall|i: nat| i < d implies #[trigger] bit_of(a, i) == bit_of(b, i) by {
                assert(bit_of(a, i) == bit_of(b, i));
            }
        }
    }
}

/// A stored fingerprint of `s` bits and a query fingerprint of `q` bits
/// match exactly when they agree, bit for bit, on the `c = min(s, q)` bits
/// they share: the top `c` bits of each (the longer one drops its low bits).
/// So two fingerprints that differ in any one of those bits do not match,
/// whatever the two lengths.
pub proof fn lemma_matches_bitwise(e: u64, qfp: u64, qlen: u8)
    requires
        !spec_is_empty(e),
        !spec_is_void(e),
        !spec_is_tombstone(e),
    ensures
        ({
            let s = len_field(e) as nat;
            let c = min_u8(len_field(e), qlen) as nat;
            spec_matches(e, qfp, qlen) <==> (forall|i: nat|
                i < c ==> #[trigger] bit_of(fp_field(e) as nat / pow2((s - c) as nat), i) == bit_of(
                    qfp as nat / pow2((qlen - c) as nat),
                    i,
                ))
        }),
{
    let s = len_field(e) as nat;
    let c = min_u8(len_field(e), qlen) as nat;
    lemma_low_bits_agree(fp_field(e) as nat / pow2((s - c) as nat), qfp as nat / pow2((qlen - c) as nat), c);
}

/// The markers match by kind alone: a void entry matches every query, of
/// any length, and an empty slot or a tombstone matches none; none of the
/// three holds a fingerprint.
pub proof fn lemma_markers_match(qfp: u64, qlen: u8)
    ensures
        spec_matches(VOID_MARKER, qfp, qlen),
        !spec_matches(0, qfp, qlen),
        !spec_matches(TOMBSTONE_MARKER, qfp, qlen),
        !spec_has_fingerprint(VOID_MARKER),
        !spec_has_fingerprint(0),
        !spec_has_fingerprint(TOMBSTONE_MARKER),
{
}

/// Whether a word holds a fingerprint depends on its being empty, void or
/// a tombstone, never on the fingerprint's value: every word that
/// `Slot::new` builds with a length from 1 to `MAX_FP_LEN` holds one, with
/// that length and the fingerprint cut to 56 bits, 0 included.
pub proof fn lemma_new_has_fingerprint(fp: u64, len: u8)
    requires
        1 <= len <= MAX_FP_LEN,
    ensures
        spec_has_fingerprint(encode(fp, len)),
        !spec_is_empty(encode(fp, len)),
        !spec_is_void(encode(fp, len)),
        !spec_is_tombstone(encode(fp, len)),
        len_field(encode(fp, len)) == len,
        fp_field(encode(fp, len)) == fp % LENGTH_UNIT,
{
    let e = encode(fp, len);
    let f = fp % LENGTH_UNIT;
    assert(e == len * LENGTH_UNIT + f);
    assert(e / LENGTH_UNIT == len && e % LENGTH_UNIT == f) by (nonlinear_arith)
        requires
            e == len * LENGTH_UNIT + f,
            f < LENGTH_UNIT,
            LENGTH_UNIT == 0x0100_0000_0000_0000u64,
    ;
}

/// A stored word is a marker or a fingerprint of at most `MAX_FP_LEN` bits.
pub open spec fn word_ok(w: u64) -> bool {
    w == VOID_MARKER || w == TOMBSTONE_MARKER || len_field(w) <= MAX_FP_LEN
}

/// A 64-bit packed slot storing a fingerprint and its length.
#[derive(Clone, Copy, PartialEq, Eq, Structural)]
pub struct Slot {
    encoded: u64,
}

impl View for Slot {
    type V = u64;

    closed spec fn view(&self) -> u64 {
        self.encoded
    }
}

impl Default for Slot {
    fn default() -> (s: Slot)
        ensures
            s@ == 0,
    {
        Slot { encoded: 0 }
    }
}

proof fn lemma_fields(e: u64)
    ensures
        e & FP_MASK == fp_field(e),
        (e >> 56u64) as u8 == len_field(e),
        e == len_field(e) * LENGTH_UNIT + fp_field(e),
{
    assert(e & 0x00FF_FFFF_FFFF_FFFFu64 == e % 0x0100_0000_0000_0000u64) by (bit_vector);
    assert((e >> 56u64) as u8 == (e / 0x0100_0000_0000_0000u64) as u8) by (bit_vector);
    assert(e / 0x0100_0000_0000_0000u64 < 256) by (bit_vector);
}

impl Slot {
    /// Creates a slot with the given fingerprint (cut to 56 bits) and length.
    pub fn new(fingerprint: u64, length: u8) -> (s: Slot)
        requires
            length <= MAX_FP_LEN,
        ensures
            s@ == encode(fingerprint, length),
            fp_field(s@) == fingerprint % LENGTH_UNIT,
            len_field(s@) == length,
    {
        let encoded: u64 = ((length as u64) << 56u64) | (fingerprint & FP_MASK);
        proof {
            let l: u64 = length as u64;
            assert(encoded == ((l << 56u64) | (fingerprint & 0x00FF_FFFF_FFFF_FFFFu64)));
            assert(encoded % 0x0100_0000_0000_0000u64 == fingerprint % 0x0100_0000_0000_0000u64
                && encoded / 0x0100_0000_0000_0000u64 == l
                && encoded == l * 0x0100_0000_0000_0000u64 + fingerprint % 0x0100_0000_0000_0000u64) by (bit_vector)
                requires l < 256, encoded == ((l << 56u64) | (fingerprint & 0x00FF_FFFF_FFFF_FFFFu64));
        }
        Slot { encoded }
    }

    /// Creates an empty slot (all bits zero).
    pub fn empty() -> (s: Slot)
        ensures
            s@ == 0,
    {
        Slot { encoded: 0 }
    }

    /// Creates a void marker slot.
    pub fn void_marker() -> (s: Slot)
        ensures
            s@ == VOID_MARKER,
    {
        Slot { encoded: VOID_MARKER }
    }

    /// Creates a tombstone marker slot.
    pub fn tombstone() -> (s: Slot)
        ensures
            s@ == TOMBSTONE_MARKER,
    {
        Slot { encoded: TOMBSTONE_MARKER }
    }

    /// The fingerprint bits (low 56 bits).
    pub fn fingerprint(&self) -> (r: u64)
        ensures
            r == fp_field(self@),
    {
        proof { lemma_fields(self.encoded); }
        self.encoded & FP_MASK
    }

    /// The fingerprint length in bits (the high 8 bits); zero for a void
    /// entry, whose fingerprint bits are used up.
    pub fn length(&self) -> (r: u8)
        ensures
            r == spec_length(self@),
    {
        proof { lemma_fields(self.encoded); }
        if self.encoded == VOID_MARKER {
            return 0;
        }
        (self.encoded >> 56u64) as u8
    }

    /// Whether the slot holds nothing at all.
    pub fn is_empty(&self) -> (r: bool)
        ensures
            r == spec_is_empty(self@),
    {
        self.encoded == 0
    }

    /// Whether the slot is void: the void marker, or a non-empty word of length zero.
    pub fn is_void(&self) -> (r: bool)
        ensures
            r == spec_is_void(self@),
    {
        self.encoded == VOID_MARKER || (self.length() == 0 && !self.is_empty())
    }

    /// Whether the slot is the tombstone marker.
    pub fn is_tombstone(&self) -> (r: bool)
        ensures
            r == spec_is_tombstone(self@),
    {
        self.encoded == TOMBSTONE_MARKER
    }

    /// Whether the slot holds a real fingerprint (neither empty, void nor tombstone).
    pub fn has_fingerprint(&self) -> (r: bool)
        ensures
            r == spec_has_fingerprint(self@),
            r == (!spec_is_empty(self@) && !spec_is_void(self@) && !spec_is_tombstone(self@)),
    {
        !self.is_empty() && !self.is_void() && !self.is_tombstone()
    }

    /// The whole encoded word.
    pub fn raw(&self) -> (r: u64)
        ensures
            r == self@,
    {
        self.encoded
    }

    /// Rebuilds a slot from its encoded word.
    pub fn from_raw(encoded: u64) -> (s: Slot)
        ensures
            s@ == encoded,
    {
        Slot { encoded }
    }

    /// Takes the lowest fingerprint bit off a slot that holds a fingerprint:
    /// the fingerprint is shifted right by one and its length shrinks by one;
    /// a slot whose last bit is taken becomes the void marker. Slots without a
    /// fingerprint give `None` and stay unchanged.
    pub fn steal_bit(&mut self) -> (r: Option<u64>)
        requires
            spec_has_fingerprint(old(self)@) ==> len_field(old(self)@) <= MAX_FP_LEN + 1,
        ensures
            !spec_has_fingerprint(old(self)@) ==> r is None && final(self)@ == old(self)@,
            (spec_is_empty(old(self)@) || spec_is_void(old(self)@) || spec_is_tombstone(old(self)@)) ==> r is None
                && final(self)@ == old(self)@,
            !spec_is_empty(old(self)@) && !spec_is_void(old(self)@) && !spec_is_tombstone(old(self)@) ==> r == Some(
                fp_field(old(self)@) % 2,
            ),
            !spec_is_empty(old(self)@) && !spec_is_void(old(self)@) && !spec_is_tombstone(old(self)@) && len_field(
                old(self)@,
            ) == 1 ==> final(self)@ == VOID_MARKER,
            !spec_is_empty(old(self)@) && !spec_is_void(old(self)@) && !spec_is_tombstone(old(self)@) && len_field(
                old(self)@,
            ) > 1 ==> final(self)@ == encode((fp_field(old(self)@) / 2) as u64, (len_field(old(self)@) - 1) as u8),
            spec_has_fingerprint(old(self)@) ==> r == Some(fp_field(old(self)@) % 2),
            spec_has_fingerprint(old(self)@) && len_field(old(self)@) == 1 ==> final(self)@ == VOID_MARKER,
            spec_has_fingerprint(old(self)@) && len_field(old(self)@) > 1 ==> final(self)@ == encode(
                (fp_field(old(self)@) / 2) as u64,
                (len_field(old(self)@) - 1) as u8,
            ),
    {
        if self.is_empty() || self.is_void() || self.is_tombstone() {
            return None;
        }
        let fp: u64 = self.fingerprint();
        let len: u8 = self.length();
        if len == 0 {
            return None;
        }
        let stolen_bit: u64 = fp & 1;
        let new_fp: u64 = fp >> 1u64;
        let new_len: u8 = len - 1;
        proof {
            assert(fp & 1 == fp % 2) by (bit_vector);
            assert(fp >> 1u64 == fp / 2) by (bit_vector);
        }
        if new_len == 0 {
            *self = Slot::void_marker();
        } else {
            *self = Slot::new(new_fp, new_len);
        }
        Some(stolen_bit)
    }

    /// Whether this stored slot could hold the query fingerprint `query_fp` of
    /// `query_len` bits (see `spec_matches`).
    pub fn matches(&self, query_fp: u64, query_len: u8) -> (r: bool)
        requires
            match_defined(self@, query_len),
        ensures
            r == spec_matches(self@, query_fp, query_len),
    {
        if self.is_tombstone() || self.is_empty() {
            return false;
        }
        if self.is_void() {
            return true;
        }
        let stored_len: u8 = self.length();
        let stored_fp: u64 = self.fingerprint();
        let compare_len: u8 = if stored_len <= query_len { stored_len } else { query_len };
        if compare_len == 0 {
            return true;
        }
        let c: u64 = compare_len as u64;
        let a: u64 = shift_down(stored_fp, (stored_len - compare_len) as u64);
        let b: u64 = shift_down(query_fp, (query_len - compare_len) as u64);
        proof {
            lemma_u64_pow2_no_overflow(c as nat);
            lemma_pow2_pos(c as nat);
            lemma_u64_shl_is_mul(1, c);
            lemma_u64_low_bits_mask_is_mod(a, c as nat);
            lemma_u64_low_bits_mask_is_mod(b, c as nat);
        }
        let mask: u64 = (1u64 << c) - 1;
        assert(mask == low_bits_mask(c as nat) as u64);
        (a & mask) == (b & mask)
    }
}

/// `x` without its low `k` bits: `x / 2^k` (zero once `k` reaches 64).
fn shift_down(x: u64, k: u64) -> (r: u64)
    ensures
        r == x as nat / pow2(k as nat),
{
    if k >= 64 {
        proof {
            lemma2_to64();
            if k > 64 {
                lemma_pow2_strictly_increases(64, k as nat);
            }
            vstd::arithmetic::div_mod::lemma_basic_div(x as int, pow2(k as nat) as int);
        }
        0
    } else {
        proof {
            lemma_u64_shr_is_div(x, k);
            lemma_u64_pow2_no_overflow(k as nat);
        }
        x >> k
    }
}

} // verus!
