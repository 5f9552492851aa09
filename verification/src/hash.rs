//! Hashing: a key's 64-bit xxHash3 value is split into a quotient (the
//! canonical slot address, the low bits) and a remainder (the fingerprint,
//! the bits above the quotient).

use vstd::prelude::*;
use vstd::arithmetic::power2::{pow2, lemma_pow2_pos, lemma2_to64, lemma_pow2_strictly_increases, lemma_pow2_adds};
use vstd::arithmetic::div_mod::lemma_fundamental_div_mod_converse;
use vstd::bits::{
    low_bits_mask, lemma_u64_low_bits_mask_is_mod, lemma_u64_shl_is_mul, lemma_u64_pow2_no_overflow,
    lemma_u64_shr_is_div,
};
use vstd::std_specs::bits::axiom_u64_leading_zeros;

verus! {

/// The 64-bit xxHash3 value (default seed and secret) of a byte string.
pub uninterp spec fn xxh3_64_of(data: Seq<u8>) -> u64;

/// Hashes a byte string with xxHash3 (64-bit, default seed).
///
/// Calls `xxhash_rust::xxh3::xxh3_64`, which the contract takes to be a
/// function of the bytes alone: its result is named `xxh3_64_of`.
#[verifier::external_body]
pub fn hash_key(data: &[u8]) -> (h: u64)
    ensures
        h == xxh3_64_of(data@),
{
    xxhash_rust::xxh3::xxh3_64(data)
}

/// The quotient of a hash: its low `q_bits` bits.
pub open spec fn quotient_of(hash: u64, q_bits: nat) -> nat {
    hash as nat % pow2(q_bits)
}

/// The remainder of a hash: the `r_bits` bits above the low `q_bits` bits.
pub open spec fn remainder_of(hash: u64, q_bits: nat, r_bits: nat) -> nat {
    (hash as nat / pow2(q_bits)) % pow2(r_bits)
}

/// For `n < 64`, the mask `(1 << n) - 1` keeps exactly `x % 2^n`.
proof fn lemma_mask(x: u64, n: u64)
    requires
        n < 64,
    ensures
        (1u64 << n) as int == pow2(n as nat),
        0 < pow2(n as nat) < u64::MAX,
        x & (((1u64 << n) - 1) as u64) == x % (pow2(n as nat) as u64),
{
    lemma_u64_pow2_no_overflow(n as nat);
    lemma_pow2_pos(n as nat);
    lemma_u64_shl_is_mul(1, n);
    lemma_u64_low_bits_mask_is_mod(x, n as nat);
    assert(((1u64 << n) - 1) as u64 == low_bits_mask(n as nat) as u64);
}

/// A power of two at least 2^64 exceeds every `u64`.
proof fn lemma_pow2_big(n: nat, x: u64)
    requires
        n >= 64,
    ensures
        (x as nat) < pow2(n),
        x as nat % pow2(n) == x,
{
    lemma2_to64();
    if n > 64 {
        lemma_pow2_strictly_increases(64, n);
    }
    vstd::arithmetic::div_mod::lemma_small_mod(x as nat, pow2(n));
}

/// Splits a hash into its quotient (low `q_bits` bits, the canonical slot)
/// and its remainder (the next `r_bits` bits, the fingerprint).
pub fn split_hash(hash: u64, q_bits: u32, r_bits: u32) -> (res: (u64, u64))
    requires
        q_bits < 64,
    ensures
        res.0 == quotient_of(hash, q_bits as nat),
        res.1 == remainder_of(hash, q_bits as nat, r_bits as nat),
{
    let q: u64 = q_bits as u64;
    proof {
        lemma_mask(hash, q);
    }
    let q_mask: u64 = if q >= 64 { u64::MAX } else { (1u64 << q) - 1 };
    let quotient: u64 = hash & q_mask;

    let r: u64 = r_bits as u64;
    let shifted: u64 = hash >> q;
    proof {
        lemma_u64_shr_is_div(hash, q);
        lemma_pow2_pos(q as nat);
    }
    let remainder: u64 = if r >= 64 {
        proof {
            lemma_pow2_big(r as nat, shifted);
            assert(shifted & u64::MAX == shifted) by (bit_vector);
        }
        shifted & u64::MAX
    } else {
        proof {
            lemma_mask(shifted, r);
        }
        shifted & ((1u64 << r) - 1)
    };
    (quotient, remainder)
}

/// Places `quotient` in the low `q_bits` bits and `remainder` above them
/// (the bits of `remainder` that do not fit in 64 bits are lost).
pub fn combine_hash(quotient: u64, remainder: u64, q_bits: u32) -> (h: u64)
    requires
        q_bits < 64,
    ensures
        h == ((remainder << q_bits) | quotient),
        quotient < pow2(q_bits as nat) ==> h == (remainder as nat % pow2((64 - q_bits) as nat)) * pow2(
            q_bits as nat,
        ) + quotient,
{
    proof {
        lemma_combine(quotient, remainder, q_bits as u64);
        assert((remainder << q_bits) == (remainder << (q_bits as u64))) by (bit_vector);
    }
    (remainder << q_bits) | quotient
}

proof fn lemma_combine(quotient: u64, remainder: u64, q: u64)
    requires
        q < 64,
    ensures
        quotient < pow2(q as nat) ==> ((remainder << q) | quotient) == (remainder as nat % pow2(
            (64 - q) as nat,
        )) * pow2(q as nat) + quotient,
{
    lemma2_to64();
    if q == 0 && quotient < pow2(q as nat) {
        lemma_pow2_big(64, remainder);
        assert(quotient == 0);
        assert(((remainder << 0u64) | 0u64) == remainder) by (bit_vector);
    } else if quotient < pow2(q as nat) {
        let k: u64 = (64 - q) as u64;
        lemma_mask(remainder, k);
        lemma_mask(quotient, q);
        let m: u64 = remainder & ((1u64 << k) - 1) as u64;
        assert((remainder << q) == (m << q)) by (bit_vector)
            requires
                q < 64,
                k == 64 - q,
                m == remainder & ((1u64 << k) - 1) as u64,
        ;
        assert(quotient < (1u64 << q));
        assert(((m << q) | quotient) == ((m << q) + quotient) as u64) by (bit_vector)
            requires
                q < 64,
                quotient < (1u64 << q),
        ;
        lemma_pow2_adds(k as nat, q as nat);
        lemma2_to64();
        lemma_pow2_pos(q as nat);
        lemma_u64_pow2_no_overflow(k as nat);
        assert(m < pow2(k as nat));
        assert(m * pow2(q as nat) < pow2(k as nat) * pow2(q as nat)) by (nonlinear_arith)
            requires
                m < pow2(k as nat),
                pow2(q as nat) > 0,
        ;
        assert(m * pow2(q as nat) <= u64::MAX);
        lemma_u64_shl_is_mul(m, q);
        assert(m as nat * pow2(q as nat) + quotient < pow2(k as nat) * pow2(q as nat)) by (nonlinear_arith)
            requires
                m < pow2(k as nat),
                quotient < pow2(q as nat),
        ;
    }
}

/// The number of quotient bits that addresses `num_slots` slots:
/// ceil(log2(num_slots)), so 0 for a single slot; 1 when there are no slots.
pub open spec fn spec_quotient_bits_for_slots(num_slots: nat, bits: nat) -> bool {
    if num_slots == 0 {
        bits == 1
    } else if num_slots == 1 {
        bits == 0
    } else {
        bits >= 1 && pow2((bits - 1) as nat) < num_slots && num_slots <= pow2(bits)
    }
}

/// Computes ceil(log2(num_slots)), the number of bits that addresses every
/// slot (0 for a single slot); 1 when there are no slots.
pub fn quotient_bits_for_slots(num_slots: usize) -> (bits: u32)
    ensures
        spec_quotient_bits_for_slots(num_slots as nat, bits as nat),
        bits <= 64,
{
    if num_slots == 0 {
        return 1;
    }
    if num_slots == 1 {
        return 0;
    }
    let x: u64 = (num_slots - 1) as u64;
    let lz: u32 = x.leading_zeros();
    proof {
        axiom_u64_leading_zeros(x);
        let r: u64 = (64 - lz) as u64;
        assert(1 <= r <= 64);
        assert((x >> ((63 - lz) as u64)) & 1u64 != 0u64);
        assert(((63 - lz) as u64) == r - 1);
        lemma_u64_shr_is_div(x, (r - 1) as u64);
        let t: u64 = x >> ((r - 1) as u64);
        assert(t & 1u64 != 0u64 ==> t >= 1) by (bit_vector);
        lemma_pow2_pos((r - 1) as nat);
        assert(x as nat / pow2((r - 1) as nat) >= 1);
        if x < pow2((r - 1) as nat) {
            vstd::arithmetic::div_mod::lemma_basic_div(x as int, pow2((r - 1) as nat) as int);
        }
        if r < 64 {
            assert(x >> ((64 - lz) as u64) == 0);
            lemma_u64_shr_is_div(x, r);
            lemma_pow2_pos(r as nat);
            if x >= pow2(r as nat) {
                vstd::arithmetic::div_mod::lemma_div_is_ordered(pow2(r as nat) as int, x as int, pow2(r as nat) as int);
                vstd::arithmetic::div_mod::lemma_div_by_self(pow2(r as nat) as int);
            }
        } else {
            lemma2_to64();
        }
    }
    64 - lz
}

/// Splitting a combined hash gives back its parts: a quotient below `2^q_bits`
/// and a remainder that fits above it are recovered (the remainder cut to
/// `r_bits` bits).
pub proof fn lemma_split_combine(quotient: u64, remainder: u64, q_bits: nat, r_bits: nat)
    requires
        q_bits < 64,
        quotient < pow2(q_bits),
        remainder < pow2((64 - q_bits) as nat),
    ensures
        ({
            let h = remainder * pow2(q_bits) + quotient;
            &&& h <= u64::MAX
            &&& quotient_of(h as u64, q_bits) == quotient
            &&& remainder_of(h as u64, q_bits, r_bits) == remainder as nat % pow2(r_bits)
        }),
{
    let h = remainder * pow2(q_bits) + quotient;
    lemma_pow2_pos(q_bits);
    lemma_pow2_adds((64 - q_bits) as nat, q_bits);
    lemma2_to64();
    assert(h < pow2((64 - q_bits) as nat) * pow2(q_bits)) by (nonlinear_arith)
        requires
            remainder < pow2((64 - q_bits) as nat),
            quotient < pow2(q_bits),
            h == remainder * pow2(q_bits) + quotient,
    ;
    lemma_fundamental_div_mod_converse(h, pow2(q_bits) as int, remainder as int, quotient as int);
}

/// Combining the two parts of a split hash gives the hash back, when the
/// remainder takes all the bits above the quotient.
pub proof fn lemma_combine_split(hash: u64, q_bits: nat)
    requires
        q_bits < 64,
    ensures
        remainder_of(hash, q_bits, (64 - q_bits) as nat) * pow2(q_bits) + quotient_of(hash, q_bits) == hash,
{
    lemma_pow2_pos(q_bits);
    lemma_pow2_pos((64 - q_bits) as nat);
    lemma_pow2_adds((64 - q_bits) as nat, q_bits);
    lemma2_to64();
    let d = hash as nat / pow2(q_bits);
    vstd::arithmetic::div_mod::lemma_fundamental_div_mod(hash as int, pow2(q_bits) as int);
    assert(d < pow2((64 - q_bits) as nat)) by {
        vstd::arithmetic::mul::lemma_mul_is_commutative(pow2((64 - q_bits) as nat) as int, pow2(q_bits) as int);
        vstd::arithmetic::div_mod::lemma_multiply_divide_lt(
            hash as int, pow2(q_bits) as int, pow2((64 - q_bits) as nat) as int);
    }
    vstd::arithmetic::div_mod::lemma_small_mod(d, pow2((64 - q_bits) as nat));
    vstd::arithmetic::mul::lemma_mul_is_commutative(d as int, pow2(q_bits) as int);
}

/// One more quotient bit: the new quotient adds bit `q_bits` of the hash
/// (the lowest remainder bit) above the old quotient, and the new remainder,
/// one bit shorter, is the old one without that bit.
pub proof fn lemma_split_one_more_bit(hash: u64, q_bits: nat, r_bits: nat)
    requires
        r_bits >= 1,
    ensures
        quotient_of(hash, q_bits + 1) == quotient_of(hash, q_bits) + (remainder_of(hash, q_bits, r_bits) % 2)
            * pow2(q_bits),
        remainder_of(hash, q_bits + 1, (r_bits - 1) as nat) == remainder_of(hash, q_bits, r_bits) / 2,
        remainder_of(hash, q_bits, r_bits) < pow2(r_bits),
{
    let x = hash as nat;
    let p = pow2(q_bits);
    lemma_pow2_pos(q_bits);
    lemma_pow2_pos(r_bits);
    lemma_pow2_pos((r_bits - 1) as nat);
    vstd::arithmetic::power2::lemma_pow2_unfold(q_bits + 1);
    vstd::arithmetic::power2::lemma_pow2_unfold(r_bits);
    let d = x / p;
    // x % (p * 2) == p * ((x / p) % 2) + x % p
    vstd::arithmetic::div_mod::lemma_mod_breakdown(x as int, p as int, 2);
    vstd::arithmetic::mul::lemma_mul_is_commutative(2, p as int);
    // x / (p * 2) == (x / p) / 2
    vstd::arithmetic::div_mod::lemma_div_denominator(x as int, p as int, 2);
    let m = pow2((r_bits - 1) as nat);
    // d % (2 * m) == 2 * ((d / 2) % m) + d % 2
    vstd::arithmetic::div_mod::lemma_mod_breakdown(d as int, 2, m as int);
    // (d % (2 m)) % 2 == d % 2
    vstd::arithmetic::div_mod::lemma_mod_mod(d as int, 2, m as int);
    vstd::arithmetic::div_mod::lemma_mod_bound(d as int, (2 * m) as int);
    let rem = d % (2 * m);
    assert(rem == 2 * ((d / 2) % m) + d % 2);
    assert(rem % 2 == d % 2) by {
        vstd::arithmetic::div_mod::lemma_mod_multiples_vanish(((d / 2) % m) as int, (d % 2) as int, 2);
        vstd::arithmetic::div_mod::lemma_small_mod(d % 2, 2);
    }
    assert(rem / 2 == (d / 2) % m) by {
        vstd::arithmetic::div_mod::lemma_fundamental_div_mod_converse(rem as int, 2, ((d / 2) % m) as int, (d % 2) as int);
    }
    vstd::arithmetic::mul::lemma_mul_is_commutative(p as int, (d % 2) as int);
}

} // verus!
