//! The Aleph filter: a quotient filter that doubles its slot count when it
//! fills up, giving one fingerprint bit of every entry to the slot address.

use vstd::prelude::*;
use vstd::arithmetic::power2::{pow2, lemma_pow2_pos, lemma_pow2_unfold, lemma2_to64};
use crate::hash::{lemma_split_one_more_bit, hash_key, split_hash, quotient_of, remainder_of, xxh3_64_of};
use crate::metadata::{SlotMetadata, spec_occupied, spec_continuation, spec_shifted};
use crate::room::{
    count_ge, count_listed, rebuild_bounds, lemma_count_ge_none, lemma_count_listed_bound, lemma_bounds_grow,
    lemma_bounds_low_void, lemma_bounds_high_void, lemma_bounds_image, lemma_rebuild_fits, lemma_rebuild_count,
    lemma_rebuild_room, lemma_roomy_fits, lemma_count_ge_all, lemma_inserted_count, lemma_count_ge_mono, lemma_room_fits,
};
use crate::removal::{
    search_ok, last_match, held_apart, lemma_removal_undoes_insertion, lemma_deleted_keeps, lemma_deleted_from_old, delete_frame, delete_progress, moving_run, lemma_cluster_filled, lemma_next_run, lemma_moving_start,
    lemma_moving_step, lemma_run_moved, lemma_delete_done,
};
use crate::layout::{
    deleted_entry, shift_remove, lemma_rewrite_layout, lemma_homes_fix_meta, back_stop, runs_to_pass, run_start_of,
    run_matches, lemma_run_start_is, lemma_no_kth_head,
    holds_pair, lemma_inserted_pairs, occ_list, lemma_occ_list_front, lemma_occ_list_skip, lemma_no_occ_between, lemma_inserted_has, lemma_inserted_keeps, inserted_entry, lemma_run_extent, lemma_next_empty_skip, next_head, next_empty, lemma_next_head, lemma_next_empty, shift_insert, inserted_state, lemma_insert_layout,
    holds_match, first_of_home, meta_empty, lemma_clear_layout, is_home, pos_ok, homes_sorted, layout_ok, count_occ, count_heads, lemma_count_occ_split,
    lemma_count_heads_split, lemma_contig, lemma_rank, lemma_last_occ, lemma_count_occ_mono,
};
use crate::census::{
    expanded_image, census, lists, list_bound, voids_match, rebuilt_counts, lemma_lists_intro, lemma_census_start,
    lemma_census_void_insert, lemma_census_void_skip, lemma_void_entry_done, lemma_image_entry_done,
    lemma_bare_entry_done, lemma_census_end, live,
};
use crate::slot::{
    word_ok, word_sized, entry_word, lemma_entry_word_matches, Slot, MAX_FP_LEN, VOID_MARKER, TOMBSTONE_MARKER, fp_field, len_field, spec_is_void, spec_is_tombstone,
    spec_matches, spec_length, min_u8,
};

verus! {

broadcast use vstd::std_specs::hash::group_hash_axioms;

/// The fingerprint width after `expansions` expansions of a filter created
/// with `base` bits (never below zero).
pub open spec fn spec_fp_bits(base: nat, expansions: nat) -> nat {
    if base > expansions { (base - expansions) as nat } else { 0 }
}

/// The smallest power of two that is at least `n` (and at least 1).
pub open spec fn is_next_power_of_two(n: nat, p: nat) -> bool {
    exists|k: nat| p == #[trigger] pow2(k) && n <= p && (k == 0 || pow2((k - 1) as nat) < n)
}

/// The logical slot count for `expected_items` items at a load of at most
/// 4/5: the least power of two that is at least `ceil(5 * expected_items / 4)`,
/// and at least 8.
pub open spec fn slots_for_items(expected_items: nat, num_slots: nat) -> bool {
    let raw = (5 * expected_items + 3) / 4;
    if raw <= 8 {
        num_slots == 8
    } else {
        is_next_power_of_two(raw, num_slots)
    }
}

/// The logical slot count for a requested slot count: the least power of two
/// that is at least `requested`, and at least 8.
pub open spec fn slots_for_request(requested: nat, num_slots: nat) -> bool {
    if requested <= 8 {
        num_slots == 8
    } else {
        is_next_power_of_two(requested, num_slots)
    }
}

/// The filter expands before an insertion once items reach 4/5 of the slots
/// (for a power-of-two slot count, 4/5 of it is never a whole number, so
/// reaching and exceeding that load are the same).
pub open spec fn over_load(num_items: nat, num_slots: nat) -> bool {
    5 * num_items >= 4 * num_slots
}

/// The main Aleph filter data structure.
#[derive(Clone)]
pub struct AlephFilter {
    /// Packed fingerprints; `num_slots + num_extension_slots` of them.
    slots: Vec<Slot>,
    /// Per-slot flags (occupied, continuation, shifted).
    metadata: Vec<SlotMetadata>,
    /// Number of logical slots (a power of two).
    num_slots: usize,
    /// Overflow slots past the logical ones (no wraparound).
    num_extension_slots: usize,
    /// log2(num_slots).
    quotient_bits: u32,
    /// Fingerprint bits at creation time.
    base_fp_bits: u32,
    /// Number of expansions so far.
    num_expansions: usize,
    /// Number of insertions counted so far.
    num_items: usize,
    /// The home (canonical slot) of the entry in each slot, -1 for none.
    home: Ghost<Seq<int>>,
}

impl AlephFilter {
    /// The structural invariant that every operation keeps.
    pub closed spec fn wf(&self) -> bool {
        &&& self.slots.len() == self.num_slots + self.num_extension_slots
        &&& self.metadata.len() == self.slots.len()
        &&& self.num_slots == pow2(self.quotient_bits as nat)
        &&& 3 <= self.quotient_bits < 63
        &&& self.num_slots <= usize::MAX / 2
        &&& self.num_slots <= 0x4000_0000_0000_0000
        &&& self.num_extension_slots == 2 * self.quotient_bits
        &&& self.num_slots >= 8
        &&& self.quotient_bits + 1 < usize::BITS
        &&& self.base_fp_bits <= MAX_FP_LEN
        &&& self.num_expansions + 3 <= self.quotient_bits
        &&& forall|i: int| 0 <= i < self.slots.len() ==> #[trigger] word_ok(self.slots@[i]@)
        &&& forall|i: int| 0 <= i < self.metadata.len() ==> #[trigger] self.metadata@[i]@ < 8
    }

    /// What every well-formed filter has: `2^q` logical slots for `q`
    /// quotient bits, two extension slots per quotient bit, at least three
    /// quotient bits more than expansions (the filter starts with at least 8
    /// slots and each expansion adds one bit), and at most `MAX_FP_LEN`
    /// fingerprint bits. So the capacity is the capacity the filter was
    /// built with, `2^(q - expansions)`, doubled once per expansion, and the
    /// fingerprint width is the width it was built with less one bit per
    /// expansion.
    pub proof fn lemma_shape(&self)
        requires
            self.wf(),
        ensures
            self.spec_capacity() == pow2(self.spec_quotient_bits()),
            self.spec_extension() == 2 * self.spec_quotient_bits(),
            self.spec_expansions() + 3 <= self.spec_quotient_bits(),
            self.spec_base_fp_bits() <= MAX_FP_LEN,
            self.spec_capacity() == pow2((self.spec_quotient_bits() - self.spec_expansions()) as nat) * pow2(
                self.spec_expansions(),
            ),
            self.spec_expansions() <= self.spec_base_fp_bits() ==> self.spec_fp_bits() + self.spec_expansions()
                == self.spec_base_fp_bits(),
    {
        vstd::arithmetic::power2::lemma_pow2_adds(
            (self.spec_quotient_bits() - self.spec_expansions()) as nat,
            self.spec_expansions(),
        );
    }

    /// What a well-formed filter with a sound layout is, spelled out over its
    /// views: the flags, words and homes form a sound layout (see
    /// `crate::layout::layout_ok`) for its capacity, the three views have one
    /// item per slot, and every metadata byte holds nothing but its flags.
    pub proof fn lemma_layout(&self)
        requires
            self.wf(),
            self.layout_ok(),
        ensures
            layout_ok(self.meta_view(), self.slots_view(), self.homes(), self.spec_capacity() as int),
            self.homes().len() == self.slots_view().len(),
            self.meta_view().len() == self.slots_view().len(),
            self.slots_view().len() == self.spec_capacity() + self.spec_extension(),
            forall|i: int| 0 <= i < self.meta_view().len() ==> #[trigger] self.meta_view()[i] < 8,
    {
        self.lemma_views();
    }

    /// Two well-formed filters of the same size with sound layouts and the
    /// same homes have the same metadata bytes: the homes decide every flag,
    /// and a metadata byte holds nothing but its three flags.
    pub proof fn lemma_homes_fix_metadata(a: &Self, b: &Self)
        requires
            a.wf(),
            b.wf(),
            a.layout_ok(),
            b.layout_ok(),
            a.spec_capacity() == b.spec_capacity(),
            a.homes() == b.homes(),
        ensures
            a.meta_view() == b.meta_view(),
    {
        a.lemma_views();
        b.lemma_views();
        lemma_homes_fix_meta(a.meta_view(), a.slots_view(), b.meta_view(), b.slots_view(), a.home@, a.num_slots as int);
    }

    /// Number of logical slots.
    pub closed spec fn spec_capacity(&self) -> nat {
        self.num_slots as nat
    }

    /// Number of extension slots.
    pub closed spec fn spec_extension(&self) -> nat {
        self.num_extension_slots as nat
    }

    /// Number of quotient bits.
    pub closed spec fn spec_quotient_bits(&self) -> nat {
        self.quotient_bits as nat
    }

    /// Number of counted insertions.
    pub closed spec fn spec_len(&self) -> nat {
        self.num_items as nat
    }

    /// Number of expansions.
    pub closed spec fn spec_expansions(&self) -> nat {
        self.num_expansions as nat
    }

    /// Fingerprint bits at creation.
    pub closed spec fn spec_base_fp_bits(&self) -> nat {
        self.base_fp_bits as nat
    }

    /// Current fingerprint width.
    pub open spec fn spec_fp_bits(&self) -> nat {
        spec_fp_bits(self.spec_base_fp_bits(), self.spec_expansions())
    }

    /// The encoded slot words.
    pub closed spec fn slots_view(&self) -> Seq<u64> {
        self.slots@.map_values(|s: Slot| s@)
    }

    /// The raw metadata bytes.
    pub closed spec fn meta_view(&self) -> Seq<u8> {
        self.metadata@.map_values(|m: SlotMetadata| m@)
    }

    /// A freshly built filter: every slot and every flag is clear.
    pub open spec fn all_clear(&self) -> bool {
        &&& self.slots_view().len() == self.meta_view().len()
        &&& forall|i: int| 0 <= i < self.slots_view().len() ==> #[trigger] self.slots_view()[i] == 0
        &&& forall|i: int| 0 <= i < self.meta_view().len() ==> #[trigger] self.meta_view()[i] == 0
    }

    /// The layout of the table is sound (see `layout_ok`).
    pub closed spec fn layout_ok(&self) -> bool {
        layout_ok(self.meta_view(), self.slots_view(), self.home@, self.num_slots as int)
    }

    proof fn lemma_views(&self)
        ensures
            self.meta_view().len() == self.metadata.len(),
            self.slots_view().len() == self.slots.len(),
            forall|i: int| 0 <= i < self.metadata.len() ==> #[trigger] self.meta_view()[i] == self.metadata@[i]@,
            forall|i: int| 0 <= i < self.slots.len() ==> #[trigger] self.slots_view()[i] == self.slots@[i]@,
    {
    }

    spec fn total(&self) -> nat {
        self.slots.len() as nat
    }

    spec fn meta(&self, i: int) -> u8 {
        self.metadata@[i]@
    }

    spec fn word(&self, i: int) -> u64 {
        self.slots@[i]@
    }

    spec fn empty_at(&self, i: int) -> bool {
        meta_empty(self.meta(i))
    }

    /// Builds a filter with `num_slots` logical slots and `fp_bits` fingerprint bits.
    fn build(num_slots: usize, q: u32, fp_bits: u32) -> (f: AlephFilter)
        requires
            num_slots == pow2(q as nat),
            3 <= q,
            num_slots <= usize::MAX / 2,
            fp_bits <= MAX_FP_LEN,
        ensures
            f.wf(),
            f.all_clear(),
            f.valid(),
            f.spec_capacity() == num_slots,
            f.spec_quotient_bits() == q,
            f.spec_extension() == 2 * q,
            f.spec_base_fp_bits() == fp_bits,
            f.spec_expansions() == 0,
            f.spec_len() == 0,
            f.entry_count() == 0,
            forall|h: u64| !#[trigger] f.may_hold(h),
            forall|h: u64| #[trigger] f.fits(h),
    {
        proof {
            lemma_pow2_fits(q as nat);
            lemma2_to64();
            lemma_pow2_strictly_increases_le(3, q as nat);
        }
        let ext: usize = (q as usize) * 2;
        let total: usize = num_slots + ext;
        let e: Slot = Slot::empty();
        let m: SlotMetadata = SlotMetadata::new();
        let slots: Vec<Slot> = vec![e; total];
        let metadata: Vec<SlotMetadata> = vec![m; total];
        let f = AlephFilter {
            slots,
            metadata,
            num_slots,
            num_extension_slots: ext,
            quotient_bits: q,
            base_fp_bits: fp_bits,
            num_expansions: 0,
            num_items: 0,
            home: Ghost(Seq::new(total as nat, |i: int| -1int)),
        };
        proof {
            assert forall|i: int| 0 <= i < f.slots_view().len() implies #[trigger] f.slots_view()[i] == 0 by {
                assert(vstd::pervasive::cloned(e, f.slots@[i]));
            }
            assert forall|i: int| 0 <= i < f.slots.len() implies #[trigger] word_ok(f.slots@[i]@) by {
                assert(vstd::pervasive::cloned(e, f.slots@[i]));
                assert(len_field(0) == 0);
            }
            assert forall|i: int| 0 <= i < f.meta_view().len() implies #[trigger] f.meta_view()[i] == 0 by {
                assert(vstd::pervasive::cloned(m, f.metadata@[i]));
            }
            lemma_count_ge_none(f.home@, 0);
            assert forall|h: u64| !#[trigger] f.may_hold(h) by {
                if f.may_hold(h) {
                    let i = choose|i: int|
                        0 <= i < f.homes().len() && f.homes()[i] == f.canonical_of(h) as int && #[trigger] spec_matches(
                            f.slots_view()[i],
                            f.fingerprint_of(h) as u64,
                            f.spec_fp_bits() as u8,
                        );
                    assert(f.home@[i] == -1);
                }
            }
            assert forall|h: u64| #[trigger] f.fits(h) by {
                let c = f.canonical_of(h) as int;
                lemma_pow2_pos(q as nat);
                assert(c < f.num_slots);
                assert(f.meta_view()[c] == 0);
                assert(meta_empty(f.meta_view()[c]));
            }
        }
        f
    }

    /// Creates a filter sized for `expected_items` items with `fp_bits`
    /// fingerprint bits per entry: the logical slot count is the least power of
    /// two that is at least `ceil(5 * expected_items / 4)` (a load of at most
    /// 4/5), and at least 8; there are two extension slots per quotient bit.
    pub fn new(expected_items: usize, fp_bits: u32) -> (f: AlephFilter)
        requires
            expected_items > 0,
            expected_items <= usize::MAX / 8,
            fp_bits <= MAX_FP_LEN,
        ensures
            f.wf(),
            f.all_clear(),
            f.valid(),
            slots_for_items(expected_items as nat, f.spec_capacity()),
            f.spec_capacity() == pow2(f.spec_quotient_bits()),
            f.spec_extension() == 2 * f.spec_quotient_bits(),
            f.spec_base_fp_bits() == fp_bits,
            f.spec_expansions() == 0,
            f.spec_len() == 0,
            f.entry_count() == 0,
            forall|h: u64| !#[trigger] f.may_hold(h),
            forall|h: u64| #[trigger] f.fits(h),
    {
        let raw: usize = expected_items + expected_items / 4 + if expected_items % 4 != 0 { 1 } else { 0 };
        assert(raw == (5 * expected_items + 3) / 4);
        let (num_slots, q) = next_power_of_two_at_least_8(raw);
        AlephFilter::build(num_slots, q, fp_bits)
    }

    /// Creates a filter with the given logical slot count (rounded up to a
    /// power of two, at least 8) and fingerprint width.
    pub fn with_params(num_slots: usize, remainder_bits: u32) -> (f: AlephFilter)
        requires
            num_slots <= usize::MAX / 4,
            remainder_bits <= MAX_FP_LEN,
        ensures
            f.wf(),
            f.all_clear(),
            f.valid(),
            slots_for_request(num_slots as nat, f.spec_capacity()),
            f.spec_capacity() == pow2(f.spec_quotient_bits()),
            f.spec_extension() == 2 * f.spec_quotient_bits(),
            f.spec_base_fp_bits() == remainder_bits,
            f.spec_expansions() == 0,
            f.spec_len() == 0,
            f.entry_count() == 0,
            forall|h: u64| !#[trigger] f.may_hold(h),
            forall|h: u64| #[trigger] f.fits(h),
    {
        let (n, q) = next_power_of_two_at_least_8(num_slots);
        AlephFilter::build(n, q, remainder_bits)
    }

    /// Number of counted insertions.
    pub fn len(&self) -> (r: usize)
        ensures
            r == self.spec_len(),
    {
        self.num_items
    }

    /// Whether no insertion is counted.
    pub fn is_empty(&self) -> (r: bool)
        ensures
            r == (self.spec_len() == 0),
    {
        self.num_items == 0
    }

    /// Number of logical slots.
    pub fn capacity(&self) -> (r: usize)
        ensures
            r == self.spec_capacity(),
    {
        self.num_slots
    }

    /// Number of expansions so far.
    pub fn num_expansions(&self) -> (r: usize)
        ensures
            r == self.spec_expansions(),
    {
        self.num_expansions
    }

    /// Number of quotient bits (log2 of the logical slot count).
    pub fn quotient_bits(&self) -> (r: u32)
        ensures
            r == self.spec_quotient_bits(),
    {
        self.quotient_bits
    }

    /// The current fingerprint width: the width at creation less one bit per
    /// expansion, never below zero.
    pub fn fp_bits(&self) -> (r: u32)
        requires
            self.wf(),
        ensures
            r == self.spec_fp_bits(),
    {
        let e: u32 = self.num_expansions as u32;
        if self.base_fp_bits > e { self.base_fp_bits - e } else { 0 }
    }

    /// Whether the load has reached the expansion threshold (4/5).
    pub fn is_over_load(&self) -> (r: bool)
        ensures
            r == over_load(self.spec_len(), self.spec_capacity()),
    {
        (self.num_items as u128) * 5 >= (self.num_slots as u128) * 4
    }

    /// Total addressable slots (logical and extension).
    fn total_slots(&self) -> (r: usize)
        requires
            self.wf(),
        ensures
            r == self.total(),
    {
        self.num_slots + self.num_extension_slots
    }

    /// Whether slot `i` has none of the three flags.
    fn is_slot_empty(&self, i: usize) -> (r: bool)
        requires
            i < self.metadata.len(),
        ensures
            r == self.empty_at(i as int),
    {
        !self.metadata[i].is_occupied() && !self.metadata[i].is_continuation() && !self.metadata[i].is_shifted()
    }

    /// Puts `new_slot` in slot `i` and returns the slot it replaces.
    fn swap_slot(&mut self, i: usize, new_slot: Slot) -> (old_slot: Slot)
        requires
            old(self).wf(),
            i < old(self).slots.len(),
            word_ok(new_slot@),
        ensures
            final(self).wf(),
            same_params(final(self), old(self)),
            final(self).home == old(self).home,
            final(self).metadata == old(self).metadata,
            old_slot == old(self).slots@[i as int],
            old_slot@ == old(self).slots_view()[i as int],
            word_ok(old_slot@),
            final(self).slots@ == old(self).slots@.update(i as int, new_slot),
            final(self).slots_view() == old(self).slots_view().update(i as int, new_slot@),
            final(self).meta_view() == old(self).meta_view(),
    {
        proof {
            self.lemma_views();
        }
        let old_slot: Slot = self.slots[i];
        self.set_slot(i, new_slot);
        old_slot
    }
}

/// The least power of two that is at least `n` and at least 8, with its exponent.
fn next_power_of_two_at_least_8(n: usize) -> (r: (usize, u32))
    requires
        n <= usize::MAX / 4,
    ensures
        r.0 == pow2(r.1 as nat),
        3 <= r.1,
        r.0 <= usize::MAX / 2,
        slots_for_request(n as nat, r.0 as nat),
{
    let mut p: usize = 8;
    let mut k: u32 = 3;
    proof {
        lemma2_to64();
    }
    while p < n
        invariant
            p == pow2(k as nat),
            3 <= k,
            8 <= p <= usize::MAX / 2,
            n <= 8 ==> p == 8,
            k > 3 ==> pow2((k - 1) as nat) < n,
            n <= usize::MAX / 4,
        decreases usize::MAX - p,
    {
        proof {
            lemma_pow2_unfold((k + 1) as nat);
            lemma_pow2_fits(k as nat);
        }
        p = p * 2;
        k = k + 1;
    }
    proof {
        if n > 8 {
            assert(k > 3) by {
                if k == 3 {
                    assert(p == 8);
                }
            }
            assert(is_next_power_of_two(n as nat, p as nat)) by {
                assert(p == pow2(k as nat) && n <= p && (k == 0 || pow2((k - 1) as nat) < n));
            }
        }
    }
    (p, k)
}

/// A power of two that fits in half the `usize` range has an exponent below 63.
proof fn lemma_pow2_fits(k: nat)
    requires
        pow2(k) <= usize::MAX / 2,
    ensures
        k < 63,
        k + 1 < usize::BITS,
        pow2(k) > 0,
        pow2(k) <= 0x4000_0000_0000_0000,
{
    lemma_pow2_pos(k);
    lemma2_to64();
    vstd::arithmetic::power2::lemma2_to64_rest();
    if k >= 63 {
        lemma_pow2_strictly_increases_le(63, k);
    }
    lemma_pow2_strictly_increases_le(k, 62);
    if k + 1 >= usize::BITS {
        lemma_pow2_strictly_increases_le((usize::BITS - 1) as nat, k);
        assert(usize::BITS == 32 || usize::BITS == 64);
    }
}

proof fn lemma_pow2_strictly_increases_le(a: nat, b: nat)
    requires
        a <= b,
    ensures
        pow2(a) <= pow2(b),
{
    if a < b {
        vstd::arithmetic::power2::lemma_pow2_strictly_increases(a, b);
    }
}

/// Two filters with the same sizes, counters and array lengths.
spec fn same_params(a: &AlephFilter, b: &AlephFilter) -> bool {
    &&& a.num_slots == b.num_slots
    &&& a.num_extension_slots == b.num_extension_slots
    &&& a.quotient_bits == b.quotient_bits
    &&& a.base_fp_bits == b.base_fp_bits
    &&& a.num_expansions == b.num_expansions
    &&& a.num_items == b.num_items
    &&& a.slots.len() == b.slots.len()
    &&& a.metadata.len() == b.metadata.len()
}

/// `(c, x)` is an image of the listed entry `t` (see `expanded_image`).
spec fn tuple_image(t: (usize, u64, u8, bool, usize), q: nat, c: int, x: u64) -> bool {
    if t.3 {
        x == VOID_MARKER && (c == t.0 || c == t.0 + pow2(q))
    } else {
        t.2 > 0 && c == t.0 + (t.1 % 2) * pow2(q) && x == entry_word(t.1 / 2, (t.2 - 1) as nat)
    }
}

/// An insertion of an image of listed entry `k` keeps every entry of the
/// table an image of one of the first `lim` listed entries.
proof fn lemma_image_sources(
    h0: Seq<int>,
    w0: Seq<u64>,
    h1: Seq<int>,
    w1: Seq<u64>,
    c: int,
    x: u64,
    e: Seq<(usize, u64, u8, bool, usize)>,
    k: int,
    lim: int,
    q: nat,
)
    requires
        inserted_entry(h0, w0, h1, w1, c, x),
        w0.len() == h0.len(),
        0 <= k < lim,
        tuple_image(e[k], q, c, x),
        forall|i: int|
            0 <= i < h0.len() && h0[i] >= 0 ==> exists|j: int| 0 <= j < lim && #[trigger] tuple_image(e[j], q, h0[i], w0[i]),
    ensures
        forall|i: int|
            0 <= i < h1.len() && h1[i] >= 0 ==> exists|j: int| 0 <= j < lim && #[trigger] tuple_image(e[j], q, h1[i], w1[i]),
{
    lemma_inserted_pairs(h0, w0, h1, w1, c, x);
    assert forall|i: int| 0 <= i < h1.len() && h1[i] >= 0 implies exists|j: int|
        0 <= j < lim && #[trigger] tuple_image(e[j], q, h1[i], w1[i]) by {
        if h1[i] == c && w1[i] == x {
            assert(tuple_image(e[k], q, h1[i], w1[i]));
        } else {
            let j0 = choose|j0: int| 0 <= j0 < h0.len() && #[trigger] h0[j0] == h1[i] && w0[j0] == w1[i];
            let j = choose|j: int| 0 <= j < lim && #[trigger] tuple_image(e[j], q, h0[j0], w0[j0]);
            assert(tuple_image(e[j], q, h1[i], w1[i]));
        }
    }
}

/// Slot `p` holds an entry of home `c` that does not match `fp`.
spec fn no_match_at(h: Seq<int>, w: Seq<u64>, c: int, fp: u64, len: u8, p: int) -> bool {
    h[p] == c && !spec_matches(w[p], fp, len)
}

/// A queue of slot indices as integers.
spec fn as_ints(q: Seq<usize>) -> Seq<int> {
    q.map_values(|x: usize| x as int)
}

/// Dropping the front of a queue drops the front of its integer list.
proof fn lemma_as_ints_drop(q: Seq<usize>, l: Seq<int>, front: int)
    requires
        as_ints(q) == l,
        l.len() > 0,
        l[0] == front,
    ensures
        as_ints(q.remove(0)) == l.drop_first(),
        l == seq![front] + l.drop_first(),
{
    assert(as_ints(q.remove(0)) =~= l.drop_first()) by {
        assert forall|k: int| 0 <= k < l.len() - 1 implies #[trigger] as_ints(q.remove(0))[k] == l.drop_first()[k] by {
            assert(q.remove(0)[k] == q[k + 1]);
            assert(as_ints(q)[k + 1] == q[k + 1] as int);
        }
    }
    assert(l =~= seq![front] + l.drop_first());
}

impl AlephFilter {
    /// Sets or clears the occupied flag of slot `i`.
    fn set_occupied_at(&mut self, i: usize, v: bool)
        requires
            old(self).wf(),
            i < old(self).metadata.len(),
        ensures
            final(self).wf(),
            same_params(final(self), old(self)),
            final(self).home == old(self).home,
            final(self).slots == old(self).slots,
            final(self).meta_view() == old(self).meta_view().update(i as int, final(self).meta_view()[i as int]),
            final(self).slots_view() == old(self).slots_view(),
            final(self).meta(i as int) == final(self).meta_view()[i as int],
            old(self).meta(i as int) == old(self).meta_view()[i as int],
            final(self).metadata@ == old(self).metadata@.update(i as int, final(self).metadata@[i as int]),
            spec_occupied(final(self).meta(i as int)) == v,
            spec_continuation(final(self).meta(i as int)) == spec_continuation(old(self).meta(i as int)),
            spec_shifted(final(self).meta(i as int)) == spec_shifted(old(self).meta(i as int)),
    {
        let mut m = self.metadata[i];
        m.set_occupied(v);
        self.metadata.set(i, m);
        proof {
            assert(self.meta_view() =~= old(self).meta_view().update(i as int, self.meta_view()[i as int]));
            assert(self.slots_view() =~= old(self).slots_view());
        }
    }

    /// Sets or clears the continuation flag of slot `i`.
    fn set_continuation_at(&mut self, i: usize, v: bool)
        requires
            old(self).wf(),
            i < old(self).metadata.len(),
        ensures
            final(self).wf(),
            same_params(final(self), old(self)),
            final(self).home == old(self).home,
            final(self).slots == old(self).slots,
            final(self).meta_view() == old(self).meta_view().update(i as int, final(self).meta_view()[i as int]),
            final(self).slots_view() == old(self).slots_view(),
            final(self).meta(i as int) == final(self).meta_view()[i as int],
            old(self).meta(i as int) == old(self).meta_view()[i as int],
            final(self).metadata@ == old(self).metadata@.update(i as int, final(self).metadata@[i as int]),
            spec_continuation(final(self).meta(i as int)) == v,
            spec_occupied(final(self).meta(i as int)) == spec_occupied(old(self).meta(i as int)),
            spec_shifted(final(self).meta(i as int)) == spec_shifted(old(self).meta(i as int)),
    {
        let mut m = self.metadata[i];
        m.set_continuation(v);
        self.metadata.set(i, m);
        proof {
            assert(self.meta_view() =~= old(self).meta_view().update(i as int, self.meta_view()[i as int]));
            assert(self.slots_view() =~= old(self).slots_view());
        }
    }

    /// Sets or clears the shifted flag of slot `i`.
    fn set_shifted_at(&mut self, i: usize, v: bool)
        requires
            old(self).wf(),
            i < old(self).metadata.len(),
        ensures
            final(self).wf(),
            same_params(final(self), old(self)),
            final(self).home == old(self).home,
            final(self).slots == old(self).slots,
            final(self).meta_view() == old(self).meta_view().update(i as int, final(self).meta_view()[i as int]),
            final(self).slots_view() == old(self).slots_view(),
            final(self).meta(i as int) == final(self).meta_view()[i as int],
            old(self).meta(i as int) == old(self).meta_view()[i as int],
            final(self).metadata@ == old(self).metadata@.update(i as int, final(self).metadata@[i as int]),
            spec_shifted(final(self).meta(i as int)) == v,
            spec_occupied(final(self).meta(i as int)) == spec_occupied(old(self).meta(i as int)),
            spec_continuation(final(self).meta(i as int)) == spec_continuation(old(self).meta(i as int)),
    {
        let mut m = self.metadata[i];
        m.set_shifted(v);
        self.metadata.set(i, m);
        proof {
            assert(self.meta_view() =~= old(self).meta_view().update(i as int, self.meta_view()[i as int]));
            assert(self.slots_view() =~= old(self).slots_view());
        }
    }

    /// Writes slot `i`.
    fn set_slot(&mut self, i: usize, s: Slot)
        requires
            old(self).wf(),
            i < old(self).slots.len(),
            word_ok(s@),
        ensures
            final(self).wf(),
            same_params(final(self), old(self)),
            final(self).home == old(self).home,
            final(self).metadata == old(self).metadata,
            final(self).slots@ == old(self).slots@.update(i as int, s),
            final(self).slots_view() == old(self).slots_view().update(i as int, s@),
            final(self).meta_view() == old(self).meta_view(),
    {
        self.slots.set(i, s);
        proof {
            assert(self.slots_view() =~= old(self).slots_view().update(i as int, s@));
            assert(self.meta_view() =~= old(self).meta_view());
        }
    }

    /// Finds where the run of canonical slot `canonical` starts: walks back to
    /// the cluster start counting occupied slots, then forward counting run
    /// starts. Returns `canonical` if the walk runs off the end.
    fn find_run_start(&self, canonical: usize) -> (r: usize)
        requires
            self.wf(),
            canonical < self.total(),
        ensures
            r < self.total(),
            r == run_start_of(self.meta_view(), canonical as int),
            self.layout_ok() && spec_occupied(self.meta(canonical as int)) ==> self.home@[r as int] == canonical
                && first_of_home(self.home@, r as int),
            self.layout_ok() && !spec_occupied(self.meta(canonical as int)) && self.home@[canonical as int] < 0
                ==> r == canonical,
            self.layout_ok() && !spec_occupied(self.meta(canonical as int)) && self.home@[canonical as int] >= 0
                ==> {
                &&& 0 <= self.home@[r as int] < canonical
                &&& first_of_home(self.home@, r as int)
                &&& forall|j: int|
                    0 <= j < self.total() && self.home@[j] >= 0 ==> !(self.home@[r as int] < #[trigger] self.home@[j]
                        <= canonical)
            },
    {
        let ghost mv = self.meta_view();
        let ghost hv = self.home@;
        let ghost wv = self.slots_view();
        let ghost n = self.num_slots as int;
        let ghost c = canonical as int;
        proof {
            self.lemma_views();
        }
        let mut pos: usize = canonical;
        let mut skip: i64 = 1;
        while self.metadata[pos].is_shifted()
            invariant_except_break
                skip <= canonical - pos + 1,
                skip == 1 + count_occ(mv, pos + 1, c + 1),
            invariant
                self.wf(),
                mv == self.meta_view(),
                hv == self.home@,
                wv == self.slots_view(),
                n == self.num_slots,
                c == canonical,
                canonical < self.total(),
                pos <= canonical,
                1 <= skip <= canonical - pos + 2,
                forall|p: int| pos < p <= c ==> spec_shifted(#[trigger] mv[p]),
                back_stop(mv, c) == back_stop(mv, pos as int),
            ensures
                pos <= canonical,
                1 <= skip <= canonical + 2,
                pos == back_stop(mv, c),
                skip == runs_to_pass(mv, c),
                forall|p: int| pos < p <= c ==> spec_shifted(#[trigger] mv[p]),
                layout_ok(mv, wv, hv, n) ==> !spec_shifted(mv[pos as int]) && skip == 1 + count_occ(mv, pos + 1, c + 1),
            decreases pos,
        {
            proof {
                self.lemma_views();
                lemma_count_occ_split(mv, pos as int, pos + 1, c + 1);
                assert(count_occ(mv, pos as int, pos as int) == 0);
            }
            if self.metadata[pos].is_occupied() {
                skip += 1;
            }
            if pos == 0 {
                proof {
                    if layout_ok(mv, wv, hv, n) {
                        assert(pos_ok(mv, wv, hv, n, 0));
                    }
                    assert(count_occ(mv, 0, 1) == count_occ(mv, 0, 0) + (if spec_occupied(mv[0]) { 1nat } else { 0nat }));
                }
                break;
            }
            pos -= 1;
        }
        let total: usize = self.total_slots();
        let ghost cs = pos as int;
        let ghost lay = layout_ok(mv, wv, hv, n) && (spec_occupied(mv[c]) || hv[c] >= 0);
        let ghost empty_case = layout_ok(mv, wv, hv, n) && !spec_occupied(mv[c]) && hv[c] < 0;
        let ghost mut t: int = 0;
        let ghost mut jt: int = 0;
        let ghost k: int = skip as int;
        proof {
            self.lemma_views();
            if empty_case {
                assert(pos_ok(mv, wv, hv, n, c));
                assert(cs == c);
                assert(!spec_continuation(mv[c]));
            }
            if lay {
                // the cluster start holds its own entry, and the cluster reaches `canonical`
                if spec_occupied(mv[c]) {
                    assert(pos_ok(mv, wv, hv, n, c));
                    let j = choose|j: int| 0 <= j < hv.len() && #[trigger] hv[j] == c;
                    assert(pos_ok(mv, wv, hv, n, j));
                    lemma_contig(mv, wv, hv, n, j, c);
                }
                assert(hv[c] >= 0);
                if cs < c {
                    assert(spec_shifted(mv[cs + 1]));
                    assert(pos_ok(mv, wv, hv, n, cs + 1));
                }
                assert forall|p: int| cs <= p <= c implies #[trigger] hv[p] >= 0 by {
                    assert(pos_ok(mv, wv, hv, n, p));
                    if p > cs {
                        assert(spec_shifted(mv[p]));
                    }
                }
                assert(pos_ok(mv, wv, hv, n, cs));
                assert(hv[cs] == cs);
                assert(is_home(hv, cs)) by {
                    assert(hv[cs] == cs);
                }
                assert(count_occ(mv, cs, cs) == 0);
                assert(count_occ(mv, cs, cs + 1) == 1);
                lemma_count_occ_split(mv, cs, cs + 1, c + 1);
                assert(k == count_occ(mv, cs, c + 1));
                if spec_occupied(mv[c]) {
                    t = c;
                } else {
                    assert(cs < c) by {
                        if cs == c {
                            assert(is_home(hv, c)) by {
                                assert(hv[c] == c);
                            }
                        }
                    }
                    lemma_count_occ_split(mv, cs, c, c + 1);
                    lemma_count_occ_split(mv, cs, cs + 1, c);
                    t = lemma_last_occ(mv, cs, c);
                }
                assert(count_occ(mv, cs, t + 1) == k);
                assert(spec_occupied(mv[t]));
                assert(pos_ok(mv, wv, hv, n, t));
                jt = choose|j: int| 0 <= j < hv.len() && #[trigger] hv[j] == t;
                assert(cs <= t <= c);
            }
        }
        loop
            invariant
                self.wf(),
                mv == self.meta_view(),
                hv == self.home@,
                wv == self.slots_view(),
                n == self.num_slots,
                c == canonical,
                total == self.total(),
                canonical < total,
                pos < total,
                1 <= skip <= total + 1,
                cs == back_stop(mv, c),
                k == runs_to_pass(mv, c),
                0 <= cs <= pos,
                skip == k - count_heads(mv, cs, pos as int),
                mv.len() == total,
                empty_case ==> pos == canonical && skip == 1 && !spec_continuation(mv[c]),
                empty_case == (layout_ok(mv, wv, hv, n) && !spec_occupied(mv[c]) && hv[c] < 0),
                lay == (layout_ok(mv, wv, hv, n) && (spec_occupied(mv[c]) || hv[c] >= 0)),
                lay ==> {
                    &&& cs <= pos
                    &&& cs <= t <= c
                    &&& 0 <= jt < hv.len()
                    &&& hv[jt] == t
                    &&& hv[cs] == cs
                    &&& spec_occupied(mv[t])
                    &&& count_occ(mv, cs, t + 1) == k
                    &&& (spec_occupied(mv[c]) ==> t == c)
                    &&& (!spec_occupied(mv[c]) ==> t < c && forall|p: int| t < p < c ==> !spec_occupied(
                        #[trigger] mv[p],
                    ))
                    &&& (forall|p: int| cs <= p <= c ==> #[trigger] hv[p] >= 0)
                    &&& (forall|p: int| cs <= p < pos ==> #[trigger] hv[p] >= 0 && hv[p] < t)
                    &&& skip == k - count_heads(mv, cs, pos as int)
                },
            decreases total - pos,
        {
            proof {
                self.lemma_views();
                if lay {
                    // slot `pos` holds an entry whose home is at most `t`
                    assert(jt >= pos) by {
                        if jt < pos {
                            if jt >= cs {
                                assert(hv[jt] < t);
                            } else {
                                assert(pos_ok(mv, wv, hv, n, jt));
                            }
                        }
                    }
                    if pos as int > c {
                        assert(pos_ok(mv, wv, hv, n, jt));
                        lemma_contig(mv, wv, hv, n, jt, pos as int);
                    }
                    assert(hv[pos as int] >= 0);
                    assert(hv[pos as int] <= t) by {
                        if pos < jt {
                            assert(homes_sorted(hv));
                            assert(hv[pos as int] <= hv[jt]);
                        }
                    }
                    assert forall|p: int| cs <= p <= pos implies #[trigger] hv[p] >= 0 by {
                        if p < pos {
                        }
                    }
                    lemma_rank(mv, wv, hv, n, cs, pos as int);
                    lemma_count_heads_split(mv, cs, pos as int, pos + 1);
                    assert(pos_ok(mv, wv, hv, n, pos as int));
                    if hv[pos as int] == t {
                        assert(!spec_continuation(mv[pos as int])) by {
                            if pos > 0 {
                                assert(pos_ok(mv, wv, hv, n, pos - 1));
                                if pos - 1 >= cs {
                                    assert(hv[pos - 1] < t);
                                }
                            }
                        }
                    } else {
                        lemma_count_occ_split(mv, cs, hv[pos as int] + 1, t);
                        lemma_count_occ_split(mv, cs, t, t + 1);
                        lemma_count_occ_mono(mv, cs, hv[pos as int] + 1, t);
                        assert(pos + 1 < total);
                    }
                }
            }
            if !self.metadata[pos].is_continuation() {
                skip -= 1;
                if skip == 0 {
                    proof {
                        if lay {
                            assert(hv[pos as int] == t);
                            assert forall|p: int| 0 <= p < pos implies #[trigger] hv[p] != hv[pos as int] by {
                                if p < cs {
                                    assert(pos_ok(mv, wv, hv, n, p));
                                }
                            }
                            if !spec_occupied(mv[c]) {
                                assert forall|j: int| 0 <= j < self.total() && hv[j] >= 0 implies !(hv[pos as int]
                                    < #[trigger] hv[j] <= canonical) by {
                                    if hv[pos as int] < hv[j] <= canonical {
                                        assert(pos_ok(mv, wv, hv, n, hv[j]));
                                        assert(is_home(hv, hv[j]));
                                        assert(pos_ok(mv, wv, hv, n, j));
                                    }
                                }
                            }
                        }
                    }
                    proof {
                        lemma_run_start_is(mv, c, pos as int);
                    }
                    return pos;
                }
            }
            pos += 1;
            proof {
                assert(count_heads(mv, cs, pos as int) == count_heads(mv, cs, pos - 1) + (if !spec_continuation(
                    mv[pos - 1],
                ) {
                    1nat
                } else {
                    0nat
                }));
            }
            if pos >= total {
                proof {
                    lemma_no_kth_head(mv, cs, k);
                }
                return canonical;
            }
        }
    }

    /// From a run start, skips that run and returns where a new run can go:
    /// the first slot after it that is not a continuation (the index itself
    /// when its slot is empty).
    fn find_new_run_location(&self, index: usize) -> (r: usize)
        requires
            self.wf(),
            index <= self.total(),
        ensures
            index <= r <= self.total(),
            r == (if index < self.total() && !meta_empty(self.meta_view()[index as int]) {
                next_head(self.meta_view(), index + 1)
            } else {
                next_head(self.meta_view(), index as int)
            }),
    {
        proof {
            self.lemma_views();
        }
        let total: usize = self.total_slots();
        let mut pos: usize = index;
        if pos < total && !self.is_slot_empty(pos) {
            pos += 1;
        }
        let ghost start: int = pos as int;
        while pos < total && self.metadata[pos].is_continuation()
            invariant
                self.wf(),
                total == self.total(),
                index <= pos <= total,
                next_head(self.meta_view(), pos as int) == next_head(self.meta_view(), start),
            decreases total - pos,
        {
            proof {
                self.lemma_views();
            }
            pos += 1;
        }
        pos
    }

    /// Inserts `slot` for canonical slot `canonical`: into its run if it has
    /// one, else as a new run. Returns whether the slot found room, which it
    /// does exactly when some slot at or after `canonical` is empty.
    fn qf_insert_slot(&mut self, canonical: usize, slot: Slot) -> (ok: bool)
        requires
            old(self).wf(),
            canonical < old(self).num_slots,
            word_ok(slot@),
            slot@ != 0,
        ensures
            final(self).wf(),
            same_params(final(self), old(self)),
            old(self).layout_ok() ==> (ok <==> next_empty(old(self).meta_view(), canonical as int) < old(self).total()),
            old(self).layout_ok() && ok ==> final(self).layout_ok() && inserted_entry(
                old(self).home@,
                old(self).slots_view(),
                final(self).home@,
                final(self).slots_view(),
                canonical as int,
                slot@,
            ),
    {
        proof {
            self.lemma_views();
        }
        let does_run_exist: bool = self.metadata[canonical].is_occupied();
        if !does_run_exist {
            self.insert_new_run(canonical, slot)
        } else {
            let ghost m0 = self.meta_view();
            let ghost w0 = self.slots_view();
            let ghost h = self.home@;
            let ghost n = self.num_slots as int;
            let ghost c = canonical as int;
            let ghost x = slot@;
            let ghost lay = self.layout_ok();
            let run_start: usize = self.find_run_start(canonical);
            let ghost rs = run_start as int;
            let ghost e = next_head(m0, rs + 1);
            let ghost z = next_empty(m0, e);
            proof {
                if lay {
                    assert(pos_ok(m0, w0, h, n, rs));
                    lemma_run_extent(m0, w0, h, n, rs);
                    lemma_next_head(m0, rs + 1);
                    lemma_next_empty(m0, e);
                    assert forall|p: int| c <= p < e implies !meta_empty(#[trigger] m0[p]) by {
                        if p <= rs {
                            lemma_contig(m0, w0, h, n, rs, p);
                        }
                        assert(pos_ok(m0, w0, h, n, p));
                    }
                    lemma_next_empty_skip(m0, c, e);
                    assert forall|p: int| e <= p < z implies #[trigger] h[p] >= 0 by {
                        assert(pos_ok(m0, w0, h, n, p));
                        assert(!meta_empty(m0[p]));
                    }
                    if z < self.total() {
                        assert(pos_ok(m0, w0, h, n, z));
                    }
                    assert forall|p: int| 0 <= p < e && h[p] >= 0 implies #[trigger] h[p] <= c by {
                        if p < rs {
                        }
                    }
                    assert(h[e - 1] == c);
                }
            }
            let ok: bool = self.insert_into_run(slot, run_start);
            proof {
                if lay && ok {
                    lemma_insert_layout(
                        m0,
                        w0,
                        h,
                        n,
                        self.meta_view(),
                        self.slots_view(),
                        c,
                        x,
                        e,
                        z,
                        true,
                    );
                }
            }
            self.home = Ghost(if lay && ok { shift_insert(h, c, e, z) } else { h });
            proof {
                if lay && ok {
                    assert(self.home@ == shift_insert(h, c, e, z));
                }
            }
            ok
        }
    }

    /// Starts a new run for `canonical` holding `slot`, pushing the entries
    /// from the insertion point right by one slot up to the first empty slot.
    /// Returns false, leaving the filter unchanged, when the insertion point
    /// is past the last slot, and false when no empty slot is left to push into.
    fn insert_new_run(&mut self, canonical: usize, slot: Slot) -> (ok: bool)
        requires
            old(self).wf(),
            canonical < old(self).num_slots,
            word_ok(slot@),
            slot@ != 0,
        ensures
            final(self).wf(),
            same_params(final(self), old(self)),
            old(self).layout_ok() && !spec_occupied(old(self).meta(canonical as int)) ==> (ok <==> next_empty(
                old(self).meta_view(),
                canonical as int,
            ) < old(self).total()),
            old(self).layout_ok() && !spec_occupied(old(self).meta(canonical as int)) && ok ==> final(self).layout_ok()
                && inserted_entry(
                old(self).home@,
                old(self).slots_view(),
                final(self).home@,
                final(self).slots_view(),
                canonical as int,
                slot@,
            ),
    {
        let ghost m0 = self.meta_view();
        let ghost w0 = self.slots_view();
        let ghost h = self.home@;
        let ghost n = self.num_slots as int;
        let ghost c = canonical as int;
        let ghost x = slot@;
        proof {
            self.lemma_views();
        }
        let ghost lay = self.layout_ok() && !spec_occupied(m0[c]);
        let run_start: usize = self.find_run_start(canonical);
        let insert_pos: usize = self.find_new_run_location(run_start);
        let total: usize = self.total_slots();
        let ghost ip = insert_pos as int;
        let ghost z = next_empty(m0, ip);
        proof {
            if lay {
                assert(pos_ok(m0, w0, h, n, c));
                assert(!is_home(h, c));
                if h[c] < 0 {
                    assert(run_start == canonical);
                    assert(ip == c);
                    assert forall|p: int| ip <= p < h.len() && h[p] >= 0 implies #[trigger] h[p] > c by {
                        assert(pos_ok(m0, w0, h, n, p));
                        if h[p] <= c {
                            lemma_contig(m0, w0, h, n, p, c);
                        }
                    }
                    assert forall|p: int| 0 <= p < ip && h[p] >= 0 implies #[trigger] h[p] <= c by {
                        assert(pos_ok(m0, w0, h, n, p));
                    }
                } else {
                    let rs = run_start as int;
                    let t = h[rs];
                    assert(pos_ok(m0, w0, h, n, rs));
                    lemma_run_extent(m0, w0, h, n, rs);
                    lemma_next_head(m0, rs + 1);
                    assert(ip == next_head(m0, rs + 1));
                    assert(h[c] <= t) by {
                        assert(is_home(h, h[c])) by {
                            assert(h[c] == h[c]);
                        }
                        assert(pos_ok(m0, w0, h, n, h[c]));
                        if h[c] > t {
                            assert(h[c] != c);
                        }
                    }
                    assert(c < ip) by {
                        if c >= ip {
                            assert(h[c] > t);
                        }
                    }
                    assert(h[ip - 1] == t);
                    assert forall|p: int| ip <= p < h.len() && h[p] >= 0 implies #[trigger] h[p] > c by {
                        assert(h[p] > t);
                        if h[p] <= c {
                            assert(pos_ok(m0, w0, h, n, h[p]));
                            assert(is_home(h, h[p])) by {
                                assert(h[p] == h[p]);
                            }
                        }
                    }
                    assert forall|p: int| 0 <= p < ip && h[p] >= 0 implies #[trigger] h[p] <= c by {
                        if p < rs {
                        } else {
                        }
                    }
                    assert forall|p: int| c <= p < ip implies !meta_empty(#[trigger] m0[p]) by {
                        assert(pos_ok(m0, w0, h, n, ip - 1));
                        lemma_contig(m0, w0, h, n, ip - 1, p);
                        assert(pos_ok(m0, w0, h, n, p));
                    }
                    lemma_next_empty_skip(m0, c, ip);
                }
                lemma_next_empty(m0, ip);
                assert forall|p: int| ip <= p < z implies #[trigger] h[p] >= 0 by {
                    assert(pos_ok(m0, w0, h, n, p));
                    assert(!meta_empty(m0[p]));
                }
                if z < total {
                    assert(pos_ok(m0, w0, h, n, z));
                }
                if ip > 0 {
                    assert(h[ip - 1] != c);
                }
            }
        }
        if insert_pos >= total {
            return false;
        }
        let slot_empty: bool = self.is_slot_empty(insert_pos);
        self.set_occupied_at(canonical, true);
        if insert_pos != canonical {
            self.set_shifted_at(insert_pos, true);
        }
        self.set_continuation_at(insert_pos, false);
        if slot_empty {
            self.set_slot(insert_pos, slot);
            proof {
                self.lemma_views();
                if lay {
                    assert(z == ip);
                    let m1 = self.meta_view();
                    let w1 = self.slots_view();
                    assert(w1 =~= shift_insert(w0, x, ip, z));
                    assert(pos_ok(m0, w0, h, n, ip));
                    lemma_insert_layout(m0, w0, h, n, m1, w1, c, x, ip, z, false);
                }
            }
            self.home = Ghost(if lay { shift_insert(h, c, ip, z) } else { h });
            return true;
        }
        let mut current_slot: Slot = slot;
        let mut pos: usize = insert_pos;
        let mut temp_cont: bool = false;
        proof {
            if lay {
                assert(h[c] >= 0) by {
                    if h[c] < 0 {
                        assert(meta_empty(m0[c]));
                    }
                }
                assert(c < ip);
                assert(ip <= z);
                assert(!spec_continuation(m0[ip]));
                assert(spec_occupied(self.metadata@[c]@));
                assert(spec_shifted(self.metadata@[ip]@));
                assert(!spec_continuation(self.metadata@[ip]@));
                assert(spec_occupied(self.metadata@[ip]@) == spec_occupied(m0[ip]));
            }
        }
        loop
            invariant_except_break
                lay ==> {
                    &&& pos <= z
                    &&& (pos == ip ==> current_slot@ == x && !temp_cont)
                    &&& (pos > ip ==> current_slot@ == w0[pos - 1] && temp_cont == spec_continuation(m0[pos - 1]))
                    &&& (pos == ip ==> self.slots@[ip]@ == w0[ip])
                },
            invariant
                self.wf(),
                same_params(self, old(self)),
                self.home == old(self).home,
                total == self.total(),
                insert_pos <= pos,
                word_ok(current_slot@),
                m0 == old(self).meta_view(),
                w0 == old(self).slots_view(),
                h == old(self).home@,
                n == old(self).num_slots,
                c == canonical,
                ip == insert_pos,
                x == slot@,
                z == next_empty(m0, ip),
                ip < total,
                !slot_empty,
                slot_empty == meta_empty(m0[ip]),
                lay == (old(self).layout_ok() && !spec_occupied(m0[c])),
                lay ==> {
                    &&& next_empty(m0, c) == z
                    &&& c < ip <= z <= total
                    &&& layout_ok(m0, w0, h, n)
                    &&& m0.len() == total
                    &&& !spec_continuation(m0[ip])
                    &&& (forall|p: int| ip <= p < z ==> !meta_empty(#[trigger] m0[p]))
                    &&& (z < total ==> meta_empty(m0[z]))
                    &&& (forall|p: int|
                        #![trigger self.metadata@[p]]
                        #![trigger self.slots@[p]]
                        0 <= p < total && (p < ip || p >= pos) && p != c && p != ip ==> self.metadata@[p]@ == m0[p]
                            && self.slots@[p]@ == w0[p])
                    &&& (forall|p: int|
                        #![trigger self.metadata@[p]]
                        #![trigger self.slots@[p]]
                        0 <= p < total && p > ip && p >= pos ==> self.metadata@[p]@ == m0[p] && self.slots@[p]@ == w0[p])
                    &&& spec_occupied(self.metadata@[c]@)
                    &&& spec_continuation(self.metadata@[c]@) == spec_continuation(m0[c])
                    &&& spec_shifted(self.metadata@[c]@) == spec_shifted(m0[c])
                    &&& self.slots@[c]@ == w0[c]
                    &&& spec_occupied(self.metadata@[ip]@) == spec_occupied(m0[ip])
                    &&& spec_shifted(self.metadata@[ip]@)
                    &&& !spec_continuation(self.metadata@[ip]@)
                    &&& (pos > ip ==> self.slots@[ip]@ == x)
                    &&& (forall|p: int|
                        #![trigger self.metadata@[p]]
                        #![trigger self.slots@[p]]
                        ip < p < pos ==> {
                            &&& spec_occupied(self.metadata@[p]@) == spec_occupied(m0[p])
                            &&& spec_shifted(self.metadata@[p]@)
                            &&& spec_continuation(self.metadata@[p]@) == spec_continuation(m0[p - 1])
                            &&& self.slots@[p]@ == w0[p - 1]
                        })
                },
            ensures
                lay ==> pos == z + 1 && z < total,
            decreases total - pos,
        {
            if pos >= total {
                return false;
            }
            let was_empty: bool = self.is_slot_empty(pos);
            current_slot = self.swap_slot(pos, current_slot);
            if pos > insert_pos {
                self.set_shifted_at(pos, true);
            }
            if pos > insert_pos {
                let cur_cont: bool = self.metadata[pos].is_continuation();
                self.set_continuation_at(pos, temp_cont);
                temp_cont = cur_cont;
            }
            proof {
                if lay {
                    if pos == insert_pos {
                        assert(!was_empty);
                        assert(z > ip);
                        assert(current_slot@ == w0[ip]);
                    } else {
                        assert(self.metadata@[pos as int]@ == m0[pos as int] || true);
                        assert(was_empty == meta_empty(m0[pos as int]));
                        assert(current_slot@ == w0[pos as int]);
                        assert(temp_cont == spec_continuation(m0[pos as int]));
                    }
                }
            }
            pos += 1;
            if was_empty {
                break;
            }
        }
        proof {
            self.lemma_views();
            if lay {
                let m1 = self.meta_view();
                let w1 = self.slots_view();
                assert(w1 =~= shift_insert(w0, x, ip, z));
                assert(pos_ok(m0, w0, h, n, ip));
                lemma_insert_layout(m0, w0, h, n, m1, w1, c, x, ip, z, false);
            }
        }
        self.home = Ghost(if lay { shift_insert(h, c, ip, z) } else { h });
        true
    }

    /// Appends `slot` to the run that starts at `run_start`, pushing the
    /// entries after that run right by one slot up to the first empty slot.
    /// Returns false when no empty slot is left to push into.
    fn insert_into_run(&mut self, slot: Slot, run_start: usize) -> (ok: bool)
        requires
            old(self).wf(),
            run_start < old(self).total(),
            word_ok(slot@),
        ensures
            final(self).wf(),
            same_params(final(self), old(self)),
            final(self).home == old(self).home,
            ({
                let m0 = old(self).meta_view();
                let h = old(self).home@;
                let e = next_head(m0, run_start + 1);
                let z = next_empty(m0, e);
                old(self).layout_ok() && h[run_start as int] >= 0 && first_of_home(h, run_start as int) ==> {
                    &&& (ok <==> z < old(self).total())
                    &&& ok ==> inserted_state(
                        m0,
                        old(self).slots_view(),
                        final(self).meta_view(),
                        final(self).slots_view(),
                        h[run_start as int],
                        slot@,
                        e,
                        z,
                        true,
                    )
                }
            }),
    {
        let ghost m0 = self.meta_view();
        let ghost w0 = self.slots_view();
        let ghost h = self.home@;
        let ghost n = self.num_slots as int;
        let ghost rs = run_start as int;
        let ghost c = h[rs];
        let ghost e = next_head(m0, rs + 1);
        let ghost z = next_empty(m0, e);
        let ghost lay = self.layout_ok() && h[rs] >= 0 && first_of_home(h, rs);
        proof {
            self.lemma_views();
            if lay {
                lemma_next_head(m0, rs + 1);
                lemma_next_empty(m0, e);
            }
        }
        let total: usize = self.total_slots();
        let mut current_slot: Slot = slot;
        let mut pos: usize = run_start;
        let mut finished_first_run: bool = false;
        let mut temp_cont: bool = false;
        loop
            invariant_except_break
                lay ==> {
                    &&& rs < e <= z <= total
                    &&& pos <= z
                    &&& layout_ok(m0, w0, h, n)
                    &&& m0.len() == total
                    &&& (forall|p: int| rs < p < e ==> spec_continuation(#[trigger] m0[p]))
                    &&& (e < total ==> !spec_continuation(m0[e]))
                    &&& (forall|p: int| e <= p < z ==> !meta_empty(#[trigger] m0[p]))
                    &&& (z < total ==> meta_empty(m0[z]))
                    &&& (forall|p: int| rs <= p < pos && p < e ==> #[trigger] h[p] == c)
                    &&& (forall|p: int|
                        #![trigger self.metadata@[p]]
                        #![trigger self.slots@[p]]
                        0 <= p < total && (p < rs || p >= pos) ==> self.metadata@[p]@ == m0[p]
                            && self.slots@[p]@ == w0[p])
                    &&& (forall|p: int|
                        #![trigger self.metadata@[p]]
                        #![trigger self.slots@[p]]
                        rs <= p < pos && p < e ==> {
                            &&& spec_occupied(self.metadata@[p]@) == spec_occupied(m0[p])
                            &&& spec_continuation(self.metadata@[p]@) == spec_continuation(m0[p])
                            &&& spec_shifted(self.metadata@[p]@) == spec_shifted(m0[p])
                            &&& self.slots@[p]@ == w0[p]
                        })
                    &&& finished_first_run == (e < pos)
                    &&& (finished_first_run ==> {
                        &&& spec_occupied(self.metadata@[e]@) == spec_occupied(m0[e])
                        &&& spec_shifted(self.metadata@[e]@)
                        &&& spec_continuation(self.metadata@[e]@)
                        &&& self.slots@[e]@ == slot@
                        &&& current_slot@ == w0[pos - 1]
                        &&& temp_cont == spec_continuation(m0[pos - 1])
                    })
                    &&& (!finished_first_run ==> current_slot@ == slot@ && !temp_cont)
                    &&& (forall|p: int|
                        #![trigger self.metadata@[p]]
                        #![trigger self.slots@[p]]
                        e < p < pos ==> {
                            &&& spec_occupied(self.metadata@[p]@) == spec_occupied(m0[p])
                            &&& spec_shifted(self.metadata@[p]@)
                            &&& spec_continuation(self.metadata@[p]@) == spec_continuation(m0[p - 1])
                            &&& self.slots@[p]@ == w0[p - 1]
                        })
                },
            invariant
                self.wf(),
                same_params(self, old(self)),
                self.home == old(self).home,
                total == self.total(),
                run_start <= pos,
                word_ok(current_slot@),
                m0 == old(self).meta_view(),
                w0 == old(self).slots_view(),
                h == old(self).home@,
                n == old(self).num_slots,
                rs == run_start,
                c == h[rs],
                e == next_head(m0, rs + 1),
                z == next_empty(m0, e),
                lay == (old(self).layout_ok() && h[rs] >= 0 && first_of_home(h, rs)),
            ensures
                lay ==> pos == z + 1 && z < total,
                lay ==> {
                    &&& (forall|p: int|
                        #![trigger self.metadata@[p]]
                        #![trigger self.slots@[p]]
                        0 <= p < total && (p < rs || p >= pos) ==> self.metadata@[p]@ == m0[p]
                            && self.slots@[p]@ == w0[p])
                    &&& (forall|p: int|
                        #![trigger self.metadata@[p]]
                        #![trigger self.slots@[p]]
                        rs <= p < pos && p < e ==> {
                            &&& spec_occupied(self.metadata@[p]@) == spec_occupied(m0[p])
                            &&& spec_continuation(self.metadata@[p]@) == spec_continuation(m0[p])
                            &&& spec_shifted(self.metadata@[p]@) == spec_shifted(m0[p])
                            &&& self.slots@[p]@ == w0[p]
                        })
                    &&& spec_occupied(self.metadata@[e]@) == spec_occupied(m0[e])
                    &&& spec_shifted(self.metadata@[e]@)
                    &&& spec_continuation(self.metadata@[e]@)
                    &&& self.slots@[e]@ == slot@
                    &&& (forall|p: int|
                        #![trigger self.metadata@[p]]
                        #![trigger self.slots@[p]]
                        e < p < pos ==> {
                            &&& spec_occupied(self.metadata@[p]@) == spec_occupied(m0[p])
                            &&& spec_shifted(self.metadata@[p]@)
                            &&& spec_continuation(self.metadata@[p]@) == spec_continuation(m0[p - 1])
                            &&& self.slots@[p]@ == w0[p - 1]
                        })
                },
            decreases total - pos,
        {
            if pos >= total {
                return false;
            }
            proof {
                if lay {
                    assert(pos_ok(m0, w0, h, n, pos as int));
                    if pos < e {
                        if pos > rs {
                            assert(spec_continuation(m0[pos as int]));
                            assert(h[pos - 1] == c);
                        }
                        assert(h[pos as int] == c);
                        assert(pos_ok(m0, w0, h, n, rs));
                    }
                }
            }
            let was_empty: bool = self.is_slot_empty(pos);
            if pos > run_start {
                self.set_shifted_at(pos, true);
            }
            if pos > run_start && !finished_first_run && !self.metadata[pos].is_continuation() {
                finished_first_run = true;
                self.set_continuation_at(pos, true);
                current_slot = self.swap_slot(pos, current_slot);
            } else if finished_first_run {
                let cur_cont: bool = self.metadata[pos].is_continuation();
                self.set_continuation_at(pos, temp_cont);
                temp_cont = cur_cont;
                current_slot = self.swap_slot(pos, current_slot);
            }
            pos += 1;
            proof {
                if lay {
                    assert(forall|p: int| #![trigger self.metadata@[p]] #![trigger self.slots@[p]] 0 <= p < total && (p < rs || p >= pos) ==> self.metadata@[p]@ == m0[p]
                            && self.slots@[p]@ == w0[p]);
                    assert(forall|p: int|
                        #![trigger self.metadata@[p]]
                        #![trigger self.slots@[p]]
                        rs <= p < pos && p < e ==> {
                            &&& spec_occupied(self.metadata@[p]@) == spec_occupied(m0[p])
                            &&& spec_continuation(self.metadata@[p]@) == spec_continuation(m0[p])
                            &&& spec_shifted(self.metadata@[p]@) == spec_shifted(m0[p])
                            &&& self.slots@[p]@ == w0[p]
                        });
                    assert(finished_first_run == (e < pos));
                    assert(finished_first_run ==> {
                        &&& spec_occupied(self.metadata@[e]@) == spec_occupied(m0[e])
                        &&& spec_shifted(self.metadata@[e]@)
                        &&& spec_continuation(self.metadata@[e]@)
                        &&& self.slots@[e]@ == slot@
                    });
                    assert(finished_first_run ==> current_slot@ == w0[pos - 1]);
                    assert(finished_first_run ==> temp_cont == spec_continuation(m0[pos - 1]));
                    assert(forall|p: int|
                        #![trigger self.metadata@[p]]
                        #![trigger self.slots@[p]]
                        e < p < pos ==> {
                            &&& spec_occupied(self.metadata@[p]@) == spec_occupied(m0[p])
                            &&& spec_shifted(self.metadata@[p]@)
                            &&& spec_continuation(self.metadata@[p]@) == spec_continuation(m0[p - 1])
                            &&& self.slots@[p]@ == w0[p - 1]
                        });
                    assert(was_empty ==> pos == z + 1);
                    assert(!was_empty ==> pos <= z);
                }
            }
            if was_empty {
                break;
            }
        }
        proof {
            if lay {
                self.lemma_views();
                old(self).lemma_views();
                let m1 = self.meta_view();
                let w1 = self.slots_view();
                assert(w1 =~= shift_insert(w0, slot@, e, z));
                assert forall|p: int| 0 <= p < m0.len() implies (spec_occupied(#[trigger] m1[p]) == (spec_occupied(
                    m0[p],
                ) || p == c)) by {
                    if p == c {
                        assert(pos_ok(m0, w0, h, n, rs));
                        assert(pos_ok(m0, w0, h, n, c));
                        assert(is_home(h, c)) by {
                            assert(h[rs] == c);
                        }
                    }
                }
                assert(m1.len() == m0.len());
                assert(0 <= e <= z < m0.len());
                assert(forall|p: int|
                    0 <= p < m0.len() && (p < e || p > z) ==> (spec_continuation(#[trigger] m1[p]) == spec_continuation(m0[p])
                        && spec_shifted(m1[p]) == spec_shifted(m0[p])));
                assert(pos_ok(m0, w0, h, n, rs));
                assert(spec_shifted(m1[e]) == (c < e));
                assert(spec_continuation(m1[e]));
                assert(forall|p: int| e < p <= z ==> spec_shifted(#[trigger] m1[p]) && (spec_continuation(m1[p]) == spec_continuation(m0[p - 1])));
            }
        }
        true
    }

    /// Whether the run of canonical slot `canonical` holds a slot matching
    /// the fingerprint `fp` at the current width.
    fn qf_search(&self, fp: u64, canonical: usize) -> (r: bool)
        requires
            self.wf(),
            canonical < self.num_slots,
        ensures
            r == (spec_occupied(self.meta_view()[canonical as int]) && run_matches(
                self.meta_view(),
                self.slots_view(),
                run_start_of(self.meta_view(), canonical as int),
                fp,
                self.spec_fp_bits() as u8,
            )),
            self.layout_ok() ==> (r <==> holds_match(
                self.home@,
                self.slots_view(),
                canonical as int,
                fp,
                self.spec_fp_bits() as u8,
            )),
    {
        proof {
            self.lemma_views();
        }
        if !self.metadata[canonical].is_occupied() {
            proof {
                if self.layout_ok() {
                    assert(pos_ok(self.meta_view(), self.slots_view(), self.home@, self.num_slots as int, canonical as int));
                    if holds_match(self.home@, self.slots_view(), canonical as int, fp, self.spec_fp_bits() as u8) {
                        let i = choose|i: int|
                            0 <= i < self.home@.len() && self.home@[i] == canonical && #[trigger] spec_matches(
                                self.slots_view()[i],
                                fp,
                                self.spec_fp_bits() as u8,
                            );
                        assert(is_home(self.home@, canonical as int));
                    }
                }
            }
            return false;
        }
        let run_start: usize = self.find_run_start(canonical);
        self.find_in_run(run_start, fp)
    }

    /// Scans the run that starts at `start` for a slot matching `fp`,
    /// skipping tombstones.
    fn find_in_run(&self, start: usize, fp: u64) -> (r: bool)
        requires
            self.wf(),
            start < self.total(),
        ensures
            r == run_matches(self.meta_view(), self.slots_view(), start as int, fp, self.spec_fp_bits() as u8),
            self.layout_ok() && self.home@[start as int] >= 0 && first_of_home(self.home@, start as int) ==> (r
                <==> holds_match(self.home@, self.slots_view(), self.home@[start as int], fp, self.spec_fp_bits() as u8)),
    {
        let ghost mv = self.meta_view();
        let ghost hv = self.home@;
        let ghost wv = self.slots_view();
        let ghost n = self.num_slots as int;
        let ghost lay = self.layout_ok() && hv[start as int] >= 0 && first_of_home(hv, start as int);
        let ghost c = hv[start as int];
        proof {
            self.lemma_views();
        }
        let total: usize = self.total_slots();
        let r: u32 = self.fp_bits();
        let mut pos: usize = start;
        loop
            invariant_except_break
                start <= pos < total,
                lay ==> forall|p: int| start <= p < pos ==> #[trigger] no_match_at(hv, wv, c, fp, r as u8, p),
                lay ==> hv[pos as int] == c,
                forall|j: int| start < j <= pos ==> spec_continuation(#[trigger] mv[j]),
                forall|p: int| start <= p < pos ==> !#[trigger] spec_matches(wv[p], fp, r as u8),
            invariant
                wv.len() == total,
                mv.len() == total,
                self.wf(),
                mv == self.meta_view(),
                hv == self.home@,
                wv == self.slots_view(),
                n == self.num_slots,
                total == self.total(),
                r <= MAX_FP_LEN,
                r == self.spec_fp_bits(),
                lay == (self.layout_ok() && hv[start as int] >= 0 && first_of_home(hv, start as int)),
                c == hv[start as int],
            ensures
                lay ==> forall|p: int| start <= p < pos ==> #[trigger] no_match_at(hv, wv, c, fp, r as u8, p),
                lay ==> pos == total || hv[pos as int] != c,
                start < pos <= total,
                forall|j: int| start < j < pos ==> spec_continuation(#[trigger] mv[j]),
                forall|p: int| start <= p < pos ==> !#[trigger] spec_matches(wv[p], fp, r as u8),
                pos == total || !spec_continuation(mv[pos as int]),
            decreases total - pos,
        {
            proof {
                self.lemma_views();
            }
            if self.slots[pos].is_tombstone() {
            } else if self.slots[pos].matches(fp, r as u8) {
                proof {
                    if lay {
                        assert(hv[pos as int] == c && spec_matches(wv[pos as int], fp, r as u8));
                    }
                    assert(spec_matches(wv[pos as int], fp, r as u8));
                    reveal(run_matches);
                }
                return true;
            }
            let ghost prev: int = pos as int;
            proof {
                if lay {
                    assert(!spec_matches(wv[prev], fp, r as u8));
                    assert(no_match_at(hv, wv, c, fp, r as u8, prev));
                }
            }
            pos += 1;
            proof {
                if lay && pos < total {
                    assert(pos_ok(mv, wv, hv, n, pos as int));
                }
            }
            if pos >= total || !self.metadata[pos].is_continuation() {
                break;
            }
        }
        proof {
            if lay {
                assert forall|i: int| 0 <= i < hv.len() && hv[i] == c implies !#[trigger] spec_matches(wv[i], fp, r as u8) by {
                    if start <= i < pos {
                        assert(no_match_at(hv, wv, c, fp, r as u8, i));
                    }
                    if i < start {
                        assert(hv[i] != hv[start as int]);
                    } else if i >= pos {
                        assert(pos < total);
                        assert(pos_ok(mv, wv, hv, n, pos as int));
                        if hv[pos as int] >= 0 {
                            if i > pos {
                                assert(hv[pos as int] <= hv[i]);
                            }
                        } else {
                            assert(pos_ok(mv, wv, hv, n, i));
                            assert(pos_ok(mv, wv, hv, n, start as int));
                            lemma_contig(mv, wv, hv, n, i, pos as int);
                        }
                    }
                }
            }
            assert forall|p: int|
                start <= p < wv.len() && (forall|j: int| start < j <= p ==> spec_continuation(#[trigger] mv[j])) implies
                !#[trigger] spec_matches(wv[p], fp, r as u8) by {
                if p >= pos {
                    assert(spec_continuation(mv[pos as int]));
                }
            }
            reveal(run_matches);
        }
        false
    }

    /// The start of the cluster holding `index`: walks back while slots are shifted.
    fn find_cluster_start(&self, index: usize) -> (r: usize)
        requires
            self.wf(),
            index < self.total(),
        ensures
            r <= index,
            r == 0 || !spec_shifted(self.meta(r as int)),
            forall|j: int| r < j <= index ==> spec_shifted(#[trigger] self.meta(j)),
    {
        let mut pos: usize = index;
        while pos > 0 && self.metadata[pos].is_shifted()
            invariant
                self.wf(),
                index < self.total(),
                pos <= index,
                forall|j: int| pos < j <= index ==> spec_shifted(#[trigger] self.meta(j)),
            decreases pos,
        {
            pos -= 1;
        }
        pos
    }

    /// The end of the run that `index` is in: walks forward while the next
    /// slot is a continuation.
    fn find_run_end(&self, index: usize) -> (r: usize)
        requires
            self.wf(),
            index < self.total(),
        ensures
            index <= r < self.total(),
            r + 1 == self.total() || !spec_continuation(self.meta(r + 1)),
            forall|j: int| index < j <= r ==> spec_continuation(#[trigger] self.meta(j)),
    {
        let total: usize = self.total_slots();
        let mut pos: usize = index;
        while pos + 1 < total && self.metadata[pos + 1].is_continuation()
            invariant
                self.wf(),
                total == self.total(),
                index <= pos < total,
                forall|j: int| index < j <= pos ==> spec_continuation(#[trigger] self.meta(j)),
            decreases total - pos,
        {
            pos += 1;
        }
        pos
    }
}

impl AlephFilter {
    /// Deletes one slot matching `fp` from the run of canonical slot
    /// `canonical` (the last match in the run). A void match becomes a
    /// tombstone; any other match is removed and the rest of its run, and
    /// every later shifted run of the cluster, moves back by one slot.
    /// Returns whether a match was found.
    #[verifier::spinoff_prover]
    #[verifier::rlimit(50)]
    fn qf_delete(&mut self, fp: u64, canonical: usize) -> (deleted: bool)
        requires
            old(self).wf(),
        ensures
            final(self).wf(),
            same_params(final(self), old(self)),
            !deleted ==> *final(self) == *old(self),
            deleted == (canonical < old(self).num_slots && spec_occupied(old(self).meta_view()[canonical as int])
                && run_matches(
                old(self).meta_view(),
                old(self).slots_view(),
                run_start_of(old(self).meta_view(), canonical as int),
                fp,
                old(self).spec_fp_bits() as u8,
            )),
            old(self).layout_ok() && final(self).home@ == old(self).home@ ==> final(self).meta_view() == old(
                self,
            ).meta_view(),
            old(self).layout_ok() ==> {
                &&& final(self).layout_ok()
                &&& (deleted <==> holds_match(
                    old(self).home@,
                    old(self).slots_view(),
                    canonical as int,
                    fp,
                    old(self).spec_fp_bits() as u8,
                ))
                &&& (deleted ==> deleted_entry(
                    old(self).home@,
                    old(self).slots_view(),
                    final(self).home@,
                    final(self).slots_view(),
                    canonical as int,
                    fp,
                    old(self).spec_fp_bits() as u8,
                ))
            },
    {
        let ghost m0 = self.meta_view();
        let ghost w0 = self.slots_view();
        let ghost h0 = self.home@;
        let ghost n = self.num_slots as int;
        let ghost c = canonical as int;
        let ghost lay = self.layout_ok();
        let ghost ln: u8 = self.spec_fp_bits() as u8;
        proof {
            self.lemma_views();
        }
        if canonical >= self.num_slots {
            proof {
                if lay && holds_match(h0, w0, c, fp, ln) {
                    let i = choose|i: int| 0 <= i < h0.len() && h0[i] == c && #[trigger] spec_matches(w0[i], fp, ln);
                    assert(pos_ok(m0, w0, h0, n, i));
                }
            }
            return false;
        }
        if !self.metadata[canonical].is_occupied() {
            proof {
                if lay && holds_match(h0, w0, c, fp, ln) {
                    let i = choose|i: int| 0 <= i < h0.len() && h0[i] == c && #[trigger] spec_matches(w0[i], fp, ln);
                    assert(pos_ok(m0, w0, h0, n, c));
                    assert(is_home(h0, c));
                }
            }
            return false;
        }
        let run_start: usize = self.find_run_start(canonical);
        let r: u32 = self.fp_bits();
        let total: usize = self.total_slots();
        let ghost rs = run_start as int;
        let ghost nh = next_head(m0, rs + 1);
        proof {
            if lay {
                lemma_run_extent(m0, w0, h0, n, rs);
                lemma_next_head(m0, rs + 1);
                assert(pos_ok(m0, w0, h0, n, rs));
            }
        }

        let mut pos: usize = run_start;
        let mut found: Option<usize> = None;
        loop
            invariant_except_break
                run_start <= pos < total,
                pos > run_start ==> spec_continuation(m0[pos as int]),
                forall|j: int| run_start < j <= pos ==> spec_continuation(#[trigger] m0[j]),
            invariant
                self.wf(),
                w0.len() == total,
                m0.len() == total,
                rs == run_start_of(m0, c),
                found is None ==> forall|p: int| run_start <= p < pos ==> !#[trigger] spec_matches(w0[p], fp, ln),
                found matches Some(f) ==> spec_matches(w0[f as int], fp, ln) && forall|j: int|
                    run_start < j <= f ==> spec_continuation(#[trigger] m0[j]),
                *self == *old(self),
                m0 == old(self).meta_view(),
                w0 == old(self).slots_view(),
                h0 == old(self).home@,
                n == old(self).num_slots,
                c == canonical,
                lay == old(self).layout_ok(),
                ln == old(self).spec_fp_bits() as u8,
                rs == run_start,
                nh == next_head(m0, rs + 1),
                m0 == self.meta_view(),
                w0 == self.slots_view(),
                total == self.total(),
                r <= MAX_FP_LEN,
                r == self.spec_fp_bits(),
                ln == r as u8,
                found matches Some(f) ==> run_start <= f < pos,
                lay ==> rs < nh <= h0.len() && forall|q: int| rs <= q < nh ==> #[trigger] h0[q] == c,
                lay && pos > run_start ==> next_head(m0, pos as int) == nh,
                lay ==> search_ok(h0, w0, c, fp, ln, rs, pos as int, found),
            ensures
                run_start < pos <= total,
                found matches Some(f) ==> run_start <= f < pos,
                forall|j: int| run_start < j < pos ==> spec_continuation(#[trigger] m0[j]),
                pos == total || !spec_continuation(m0[pos as int]),
                lay ==> pos == nh,
                lay ==> search_ok(h0, w0, c, fp, ln, rs, pos as int, found),
            decreases total - pos,
        {
            proof {
                self.lemma_views();
                if lay {
                    if pos > run_start {
                        lemma_next_head(m0, pos + 1);
                        assert(next_head(m0, pos as int) == next_head(m0, pos + 1));
                    }
                    assert(pos < nh);
                    assert(h0[pos as int] == c);
                }
            }
            if !self.slots[pos].is_tombstone() && self.slots[pos].matches(fp, r as u8) {
                found = Some(pos);
            }
            pos += 1;
            if pos >= total || !self.metadata[pos].is_continuation() {
                break;
            }
        }
        let del_pos: usize = match found {
            Some(p) => p,
            None => {
                proof {
                    if lay && holds_match(h0, w0, c, fp, ln) {
                        let i = choose|i: int| 0 <= i < h0.len() && h0[i] == c && #[trigger] spec_matches(w0[i], fp, ln);
                        assert(rs <= i < nh);
                    }
                    assert forall|p: int|
                        rs <= p < w0.len() && (forall|j: int| rs < j <= p ==> spec_continuation(#[trigger] m0[j]))
                            implies !#[trigger] spec_matches(w0[p], fp, ln) by {
                        if p >= pos {
                            assert(spec_continuation(m0[pos as int]));
                        }
                    }
                    reveal(run_matches);
                }
                return false;
            },
        };
        let ghost d = del_pos as int;
        proof {
            assert(spec_matches(w0[d], fp, ln));
            reveal(run_matches);
            assert(run_matches(m0, w0, rs, fp, ln));
            if lay {
                assert(h0[d] == c && spec_matches(w0[d], fp, ln));
                assert forall|p: int| d < p < h0.len() && h0[p] == c implies !#[trigger] spec_matches(w0[p], fp, ln) by {
                    assert(p < nh);
                }
                assert(last_match(h0, w0, c, fp, ln, d));
            }
        }
        if self.slots[del_pos].is_void() {
            self.set_slot(del_pos, Slot::tombstone());
            proof {
                if lay {
                    lemma_rewrite_layout(m0, w0, h0, n, d, TOMBSTONE_MARKER);
                    assert(spec_is_void(w0[d]));
                }
            }
            return true;
        }
        let mut run_end: usize = self.find_run_end(del_pos);
        let ghost re = run_end as int;
        proof {
            self.lemma_views();
            if lay {
                lemma_next_head(m0, rs + 1);
                if re + 1 < nh {
                    assert(spec_continuation(m0[re + 1]));
                    assert(spec_continuation(self.meta(re + 1)));
                }
                if re + 1 > nh {
                    assert(spec_continuation(self.meta(nh)));
                }
                assert(re + 1 == nh);
            }
        }
        let turn_off: bool = run_start == run_end;
        proof {
            assert(!spec_is_void(w0[d]));
        }

        let mut i: usize = del_pos;
        while i < run_end
            invariant
                self.wf(),
                same_params(self, old(self)),
                total == self.total(),
                del_pos <= i <= run_end < total,
                m0 == old(self).meta_view(),
                run_matches(m0, w0, run_start_of(m0, c), fp, ln),
                spec_occupied(m0[c]),
                w0 == old(self).slots_view(),
                h0 == old(self).home@,
                n == old(self).num_slots,
                c == canonical,
                lay == old(self).layout_ok(),
                ln == old(self).spec_fp_bits() as u8,
                self.meta_view() == m0,
                self.home@ == h0,
                self.slots_view().len() == w0.len(),
                forall|p: int|
                    0 <= p < w0.len() ==> #[trigger] self.slots_view()[p] == (if del_pos <= p < i {
                        w0[p + 1]
                    } else {
                        w0[p]
                    }),
            decreases run_end - i,
        {
            proof {
                self.lemma_views();
            }
            let next: Slot = self.slots[i + 1];
            assert(self.slots_view()[i + 1] == w0[i + 1]);
            assert(next@ == w0[i + 1]);
            self.set_slot(i, next);
            i += 1;
        }

        let cluster_start: usize = self.find_cluster_start(canonical);
        let ghost cs = cluster_start as int;
        proof {
            self.lemma_views();
            if lay {
                assert(cs == 0 || !spec_shifted(m0[cs]));
                assert forall|q: int| cs < q <= c implies spec_shifted(#[trigger] m0[q]) by {
                    assert(spec_shifted(self.meta(q)));
                }
                lemma_cluster_filled(m0, w0, h0, n, c, cs, re);
                assert(delete_frame(m0, w0, h0, n, c, rs, d, re, cs));
            }
        }
        let mut num_shifted_count: i64 = 0;
        let mut num_non_occupied: i64 = 0;
        let mut j: usize = cluster_start;
        while j <= run_end
            invariant
                self.wf(),
                same_params(self, old(self)),
                total == self.total(),
                self.meta_view() == m0,
                m0 == old(self).meta_view(),
                run_matches(m0, w0, run_start_of(m0, c), fp, ln),
                spec_occupied(m0[c]),
                w0 == old(self).slots_view(),
                h0 == old(self).home@,
                n == old(self).num_slots,
                c == canonical,
                lay == old(self).layout_ok(),
                ln == old(self).spec_fp_bits() as u8,
                cs == cluster_start,
                cluster_start <= j,
                j == cluster_start || j <= run_end + 1,
                run_end < total,
                0 <= num_shifted_count <= j - cluster_start,
                0 <= num_non_occupied <= j - cluster_start,
                num_shifted_count == (j - cs) - count_heads(m0, cs, j as int),
                num_non_occupied == (j - cs) - count_occ(m0, cs, j as int),
            decreases run_end + 1 - j,
        {
            proof {
                self.lemma_views();
            }
            if self.metadata[j].is_continuation() {
                num_shifted_count += 1;
            }
            if !self.metadata[j].is_occupied() {
                num_non_occupied += 1;
            }
            j += 1;
        }
        self.set_slot(run_end, Slot::empty());
        self.set_shifted_at(run_end, false);
        self.set_continuation_at(run_end, false);
        proof {
            if lay {
                assert(j == run_end + 1);
                assert(self.slots_view() =~= shift_remove(w0, d, re, 0u64));
                assert(delete_progress(
                    m0,
                    w0,
                    h0,
                    self.meta_view(),
                    self.slots_view(),
                    c,
                    d,
                    re,
                    cs,
                    re,
                    num_shifted_count as int,
                    num_non_occupied as int,
                ));
            }
        }

        loop
            invariant
                self.wf(),
                same_params(self, old(self)),
                total == self.total(),
                canonical < self.num_slots,
                run_end < total,
                0 <= num_shifted_count <= run_end + 1,
                0 <= num_non_occupied <= run_end + 1,
                self.home@ == h0,
                m0 == old(self).meta_view(),
                run_matches(m0, w0, run_start_of(m0, c), fp, ln),
                spec_occupied(m0[c]),
                w0 == old(self).slots_view(),
                h0 == old(self).home@,
                n == old(self).num_slots,
                c == canonical,
                lay == old(self).layout_ok(),
                ln == old(self).spec_fp_bits() as u8,
                lay ==> last_match(h0, w0, c, fp, ln, d),
                !spec_is_void(w0[d]),
                lay ==> delete_frame(m0, w0, h0, n, c, rs, d, re, cs),
                turn_off == (rs == re),
                lay ==> delete_progress(
                    m0,
                    w0,
                    h0,
                    self.meta_view(),
                    self.slots_view(),
                    c,
                    d,
                    re,
                    cs,
                    run_end as int,
                    num_shifted_count as int,
                    num_non_occupied as int,
                ),
            decreases total - run_end,
        {
            proof {
                self.lemma_views();
            }
            if run_end + 1 >= total || self.is_slot_empty(run_end + 1) || !self.metadata[run_end + 1].is_shifted() {
                let ghost mz = self.meta_view();
                let ghost wz = self.slots_view();
                if turn_off {
                    self.set_occupied_at(canonical, false);
                    assert(self.meta_view() == mz.update(c, self.meta_view()[c]));
                    assert(!spec_occupied(self.meta_view()[c]));
                    assert(spec_continuation(self.meta_view()[c]) == spec_continuation(mz[c]));
                    assert(spec_shifted(self.meta_view()[c]) == spec_shifted(mz[c]));
                }
                self.home = Ghost(if lay { shift_remove(h0, d, run_end as int, -1int) } else { h0 });
                proof {
                    if lay {
                        lemma_delete_done(m0, w0, h0, n, mz, wz, self.meta_view(), c, rs, d, re, cs, run_end as int,
                            num_shifted_count as int, num_non_occupied as int, turn_off);
                        assert(last_match(h0, w0, c, fp, ln, d));
                        assert(deleted_entry(h0, w0, self.home@, self.slots_view(), c, fp, ln)) by {
                            assert(spec_matches(w0[d], fp, ln));
                            assert(self.home@ == shift_remove(h0, d, run_end as int, -1int));
                        }
                    }
                }
                return true;
            }
            let next_run_start: usize = run_end + 1;
            let ghost prev_end = run_end as int;
            let ghost ma = self.meta_view();
            let ghost wa = self.slots_view();
            run_end = self.find_run_end(next_run_start);
            proof {
                self.lemma_views();
                if lay {
                    assert forall|q: int| prev_end + 1 < q <= run_end implies spec_continuation(#[trigger] ma[q]) by {
                        assert(spec_continuation(self.meta(q)));
                    }
                    lemma_next_run(m0, w0, h0, n, ma, wa, c, rs, d, re, cs, prev_end, run_end as int,
                        num_shifted_count as int, num_non_occupied as int);
                }
            }
            if self.metadata[next_run_start - 1].is_occupied() && num_shifted_count - num_non_occupied == 1 {
                self.set_shifted_at(next_run_start - 1, false);
            } else {
                self.set_shifted_at(next_run_start - 1, true);
            }
            proof {
                if lay {
                    lemma_moving_start(m0, w0, h0, ma, wa, self.meta_view(), c, d, re, cs, prev_end, run_end as int,
                        num_shifted_count as int, num_non_occupied as int);
                }
            }

            let mut k: usize = next_run_start;
            while k <= run_end
                invariant
                    self.wf(),
                    same_params(self, old(self)),
                    total == self.total(),
                    1 <= next_run_start <= k <= run_end + 1,
                    next_run_start == prev_end + 1,
                    run_end < total,
                    0 <= num_non_occupied <= k,
                    self.home@ == h0,
                    lay ==> delete_frame(m0, w0, h0, n, c, rs, d, re, cs),
                    lay ==> moving_run(
                        m0,
                        w0,
                        h0,
                        self.meta_view(),
                        self.slots_view(),
                        d,
                        re,
                        cs,
                        prev_end,
                        run_end as int,
                        k as int,
                        num_non_occupied as int,
                    ),
                decreases run_end + 1 - k,
            {
                proof {
                    self.lemma_views();
                }
                let ghost mk = self.meta_view();
                let ghost wk = self.slots_view();
                let ghost nk = num_non_occupied as int;
                let moved: Slot = self.slots[k];
                self.set_slot(k - 1, moved);
                if self.metadata[k].is_continuation() {
                    self.set_continuation_at(k - 1, true);
                }
                if !self.metadata[k].is_occupied() {
                    num_non_occupied += 1;
                }
                proof {
                    if lay {
                        lemma_moving_step(m0, w0, h0, n, mk, wk, self.meta_view(), self.slots_view(), d, re, cs,
                            prev_end, run_end as int, k as int, nk, num_non_occupied as int);
                    }
                }
                k += 1;
            }
            let ghost nsc_a = num_shifted_count as int;
            num_shifted_count += (run_end - next_run_start) as i64;
            let ghost mb = self.meta_view();
            let ghost wb = self.slots_view();
            self.set_slot(run_end, Slot::empty());
            self.set_shifted_at(run_end, false);
            self.set_continuation_at(run_end, false);
            proof {
                if lay {
                    assert(self.meta_view() =~= mb.update(run_end as int, self.meta_view()[run_end as int]));
                    lemma_run_moved(m0, w0, h0, mb, wb, self.meta_view(), self.slots_view(), c, d, re, cs, prev_end,
                        run_end as int, nsc_a, num_shifted_count as int, num_non_occupied as int);
                }
            }
        }
    }

    /// The listing of the entry in slot `i`: its home, fingerprint, length,
    /// whether it is void, and its position.
    spec fn entry_tuple(&self, i: int) -> (usize, u64, u8, bool, usize) {
        let w = self.slots@[i]@;
        (self.home@[i] as usize, fp_field(w), spec_length(w), spec_is_void(w), i as usize)
    }

    /// `t` is the listing of some non-tombstone entry.
    spec fn listed(&self, t: (usize, u64, u8, bool, usize)) -> bool {
        exists|i: int|
            0 <= i < self.slots.len() && self.home@[i] >= 0 && !spec_is_tombstone(self.slots@[i]@) && t
                == #[trigger] self.entry_tuple(i)
    }

    /// Lists every stored entry as (canonical slot, fingerprint, fingerprint
    /// length, is void, position), skipping empty slots and tombstones. The
    /// canonical slot is tracked with a queue of the occupied slots whose
    /// runs are pending while scanning the clusters.
    fn iterate_entries(&self) -> (entries: Vec<(usize, u64, u8, bool, usize)>)
        requires
            self.wf(),
        ensures
            entries.len() <= self.total(),
            forall|i: int| 0 <= i < entries.len() ==> (#[trigger] entries@[i]).0 < self.total(),
            forall|i: int| 0 <= i < entries.len() ==> (#[trigger] entries@[i]).2 <= MAX_FP_LEN
                || entries@[i].3,
            self.layout_ok() ==> forall|i: int|
                0 <= i < self.total() && self.home@[i] >= 0 && !spec_is_tombstone(self.slots@[i]@) ==> exists|j: int|
                    0 <= j < entries.len() && #[trigger] entries@[j] == self.entry_tuple(i),
            self.layout_ok() ==> forall|j: int| 0 <= j < entries.len() ==> self.listed(#[trigger] entries@[j]),
            forall|j: int| 0 <= j < entries.len() ==> (#[trigger] entries@[j]).4 < self.total(),
            forall|j: int, l: int| 0 <= j < l < entries.len() ==> (#[trigger] entries@[j]).4 < (#[trigger] entries@[l]).4,
            self.layout_ok() ==> forall|j: int| 0 <= j < entries.len() ==> (#[trigger] entries@[j]).0 <= entries@[j].4,
            self.layout_ok() ==> self.listing_exact(entries@),
    {
        let ghost mv = self.meta_view();
        let ghost wv = self.slots_view();
        let ghost hv = self.home@;
        let ghost n = self.num_slots as int;
        let ghost lay = self.layout_ok();
        proof {
            self.lemma_views();
        }
        let mut result: Vec<(usize, u64, u8, bool, usize)> = Vec::new();
        let mut queue: Vec<usize> = Vec::new();
        let mut current_bucket: usize = 0;
        let total: usize = self.total_slots();
        let mut index: usize = 0;
        while index < total
            invariant
                self.wf(),
                total == self.total(),
                index <= total,
                result.len() <= index,
                current_bucket < total,
                mv == self.meta_view(),
                wv == self.slots_view(),
                hv == self.home@,
                n == self.num_slots,
                lay == self.layout_ok(),
                forall|i: int| 0 <= i < queue.len() ==> #[trigger] queue@[i] < total,
                forall|i: int| 0 <= i < result.len() ==> (#[trigger] result@[i]).0 < total,
                forall|i: int| 0 <= i < result.len() ==> (#[trigger] result@[i]).2 <= MAX_FP_LEN
                    || result@[i].3,
                lay && index > 0 && hv[index - 1] >= 0 ==> {
                    &&& current_bucket == hv[index - 1]
                    &&& as_ints(queue@) == occ_list(mv, hv[index - 1], index as int)
                },
                lay ==> forall|i: int|
                    0 <= i < index && hv[i] >= 0 && !spec_is_tombstone(self.slots@[i]@) ==> exists|j: int|
                        0 <= j < result.len() && #[trigger] result@[j] == self.entry_tuple(i),
                lay ==> forall|j: int| 0 <= j < result.len() ==> self.listed(#[trigger] result@[j]),
                forall|j: int| 0 <= j < result.len() ==> (#[trigger] result@[j]).4 < index,
                forall|j: int, l: int| 0 <= j < l < result.len() ==> (#[trigger] result@[j]).4 < (#[trigger] result@[l]).4,
                lay ==> forall|j: int| 0 <= j < result.len() ==> (#[trigger] result@[j]).0 <= result@[j].4,
            decreases total - index,
        {
            let ghost idx = index as int;
            proof {
                self.lemma_views();
                if lay {
                    assert(pos_ok(mv, wv, hv, n, idx));
                    if idx > 0 {
                        assert(pos_ok(mv, wv, hv, n, idx - 1));
                    }
                    if hv[idx] >= 0 && hv[idx] < idx {
                        assert(hv[idx - 1] >= 0);
                        assert(pos_ok(mv, wv, hv, n, idx - 1));
                        assert(hv[idx - 1] <= hv[idx]);
                        assert(is_home(hv, hv[idx - 1])) by {
                            assert(hv[idx - 1] == hv[idx - 1]);
                        }
                        assert(pos_ok(mv, wv, hv, n, hv[idx - 1]));
                        assert(is_home(hv, hv[idx])) by {
                            assert(hv[idx] == hv[idx]);
                        }
                        assert(pos_ok(mv, wv, hv, n, hv[idx]));
                        lemma_no_occ_between(mv, wv, hv, n, idx);
                    }
                }
            }
            if self.is_slot_empty(index) && self.slots[index].is_empty() {
                index += 1;
                continue;
            }
            proof {
                if lay {
                    assert(hv[idx] >= 0);
                }
            }
            let ghost q0 = queue@;
            let occ: bool = self.metadata[index].is_occupied();
            let cont: bool = self.metadata[index].is_continuation();
            let shift: bool = self.metadata[index].is_shifted();
            if occ && !cont && !shift {
                queue.clear();
                queue.push(index);
                current_bucket = index;
                proof {
                    if lay {
                        assert(occ_list(mv, idx, idx) =~= Seq::<int>::empty());
                        assert(as_ints(queue@) =~= occ_list(mv, idx, idx + 1));
                    }
                }
            } else if occ && cont && shift {
                queue.push(index);
                proof {
                    if lay {
                        assert(as_ints(queue@) =~= as_ints(q0).push(idx));
                    }
                }
            } else if !occ && !cont && shift {
                if queue.len() > 0 {
                    queue.remove(0);
                }
                proof {
                    if lay {
                        let a = hv[idx - 1];
                        let b = hv[idx];
                        lemma_occ_list_front(mv, a, idx);
                        lemma_occ_list_skip(mv, a + 1, b, idx);
                        lemma_occ_list_front(mv, b, idx);
                        assert(queue@ =~= q0.remove(0));
                        lemma_as_ints_drop(q0, occ_list(mv, a, idx), a);
                        assert(as_ints(queue@) == occ_list(mv, b, idx));
                        assert(occ_list(mv, b, idx + 1) == occ_list(mv, b, idx));
                        assert(occ_list(mv, b, idx)[0] == b);
                        assert(as_ints(queue@)[0] == queue@[0] as int);
                    }
                }
                current_bucket = if queue.len() > 0 { queue[0] } else { index };
            } else if !occ && cont && shift {
            } else if occ && !cont && shift {
                queue.push(index);
                if queue.len() > 0 {
                    queue.remove(0);
                }
                proof {
                    if lay {
                        let a = hv[idx - 1];
                        let b = hv[idx];
                        lemma_occ_list_front(mv, a, idx + 1);
                        lemma_occ_list_skip(mv, a + 1, b, idx + 1);
                        lemma_occ_list_front(mv, b, idx + 1);
                        assert(as_ints(q0.push(index)) =~= as_ints(q0).push(idx));
                        assert(as_ints(q0.push(index)) == occ_list(mv, a, idx + 1));
                        assert(queue@ =~= q0.push(index).remove(0));
                        lemma_as_ints_drop(q0.push(index), occ_list(mv, a, idx + 1), a);
                        assert(as_ints(queue@) == occ_list(mv, b, idx + 1));
                        assert(occ_list(mv, b, idx + 1)[0] == b);
                        assert(as_ints(queue@)[0] == queue@[0] as int);
                    }
                }
                current_bucket = if queue.len() > 0 { queue[0] } else { index };
            }
            proof {
                if lay {
                    if occ && cont && shift {
                        assert(current_bucket == hv[idx]);
                        assert(as_ints(queue@) == occ_list(mv, hv[idx], idx + 1));
                    } else if !occ && cont && shift {
                        assert(current_bucket == hv[idx]);
                        assert(as_ints(queue@) == occ_list(mv, hv[idx], idx + 1));
                    } else if occ && !cont && !shift {
                        assert(current_bucket == hv[idx]);
                        assert(as_ints(queue@) == occ_list(mv, hv[idx], idx + 1));
                    } else if !occ && !cont && shift {
                        assert(current_bucket == hv[idx]);
                        assert(as_ints(queue@) == occ_list(mv, hv[idx], idx + 1));
                    } else {
                        assert(current_bucket == hv[idx]);
                        assert(as_ints(queue@) == occ_list(mv, hv[idx], idx + 1));
                    }
                }
            }
            let s: Slot = self.slots[index];
            let ghost r0 = result@;
            if !s.is_empty() && !s.is_tombstone() {
                proof {
                    assert(word_ok(self.slots@[index as int]@));
                }
                result.push((current_bucket, s.fingerprint(), s.length(), s.is_void(), index));
                proof {
                    if lay {
                        assert(result@[result.len() - 1] == self.entry_tuple(idx));
                    }
                    assert forall|j: int, l: int| 0 <= j < l < result.len() implies (#[trigger] result@[j]).4 < (
                    #[trigger] result@[l]).4 by {
                        if l < r0.len() {
                            assert(result@[j] == r0[j] && result@[l] == r0[l]);
                        } else {
                            assert(result@[j] == r0[j]);
                        }
                    }
                }
            }
            proof {
                if lay {
                    assert forall|i: int|
                        0 <= i < idx + 1 && hv[i] >= 0 && !spec_is_tombstone(self.slots@[i]@) implies exists|j: int|
                        0 <= j < result.len() && #[trigger] result@[j] == self.entry_tuple(i) by {
                        if i < idx {
                            let j = choose|j: int| 0 <= j < r0.len() && #[trigger] r0[j] == self.entry_tuple(i);
                            assert(result@[j] == r0[j]);
                        } else {
                            assert(result@[result.len() - 1] == self.entry_tuple(idx));
                        }
                    }
                    assert forall|j: int| 0 <= j < result.len() implies self.listed(#[trigger] result@[j]) by {
                        if j < r0.len() {
                            assert(result@[j] == r0[j]);
                        } else {
                            assert(result@[j] == self.entry_tuple(idx));
                        }
                    }
                }
            }
            index += 1;
        }
        proof {
            if lay {
                assert(self.listing_exact(result@)) by {
                    self.lemma_listing(result@);
                }
            }
        }
        result
    }

    /// `e` lists exactly the live entries of the table, in slot order (see
    /// `lists`).
    spec fn listing_exact(&self, e: Seq<(usize, u64, u8, bool, usize)>) -> bool {
        lists(self.home@, self.slots_view(), e, self.total() as int)
    }

    /// Every entry's word fits the current fingerprint width (see `word_sized`).
    pub closed spec fn entries_sized(&self) -> bool {
        forall|i: int|
            0 <= i < self.home@.len() && self.home@[i] >= 0 ==> #[trigger] word_sized(
                self.slots_view()[i],
                self.spec_fp_bits(),
            )
    }

    /// A filter in a state that its operations keep: the layout is sound and
    /// every entry has the current fingerprint width.
    pub open spec fn valid(&self) -> bool {
        self.layout_ok() && self.entries_sized()
    }

    /// This table is a rebuild of `old` with one more quotient bit: each of
    /// its entries is an image (see `expanded_image`) of an entry of `old`,
    /// every image of every entry of `old` is there, and each pair of home
    /// and word is there as often as `rebuilt_counts` says: once per entry
    /// of `old` with a fingerprint whose image it is, and once more for a
    /// void marker at a slot that a void entry of `old` reaches.
    pub open spec fn rebuilt_from(&self, old: &AlephFilter) -> bool {
        &&& forall|i: int|
            0 <= i < self.homes().len() && self.homes()[i] >= 0 ==> exists|p: int|
                0 <= p < old.homes().len() && old.homes()[p] >= 0 && !spec_is_tombstone(old.slots_view()[p])
                    && #[trigger] expanded_image(
                    old.homes()[p],
                    old.slots_view()[p],
                    old.spec_quotient_bits(),
                    self.homes()[i],
                    self.slots_view()[i],
                )
        &&& forall|p: int, c: int, x: u64|
            0 <= p < old.homes().len() && old.homes()[p] >= 0 && !spec_is_tombstone(old.slots_view()[p])
                && #[trigger] expanded_image(old.homes()[p], old.slots_view()[p], old.spec_quotient_bits(), c, x)
                ==> holds_pair(self.homes(), self.slots_view(), c, x)
        &&& rebuilt_counts(self.homes(), self.slots_view(), old.homes(), old.slots_view(), old.spec_quotient_bits())
    }

    /// A listing that `iterate_entries` gives of a sound table lists its live
    /// entries in slot order (see `lists`).
    proof fn lemma_listing(&self, e: Seq<(usize, u64, u8, bool, usize)>)
        requires
            self.wf(),
            self.layout_ok(),
            forall|j: int| 0 <= j < e.len() ==> self.listed(#[trigger] e[j]),
            forall|i: int|
                0 <= i < self.total() && self.home@[i] >= 0 && !spec_is_tombstone(self.slots@[i]@) ==> exists|j: int|
                    0 <= j < e.len() && #[trigger] e[j] == self.entry_tuple(i),
            forall|j: int, l: int| 0 <= j < l < e.len() ==> (#[trigger] e[j]).4 < (#[trigger] e[l]).4,
        ensures
            lists(self.home@, self.slots_view(), e, self.total() as int),
    {
        self.lemma_views();
        let h = self.home@;
        let w = self.slots_view();
        assert forall|j: int| 0 <= j < e.len() implies {
            let p = (#[trigger] e[j]).4 as int;
            &&& live(h, w, p)
            &&& e[j].0 as int == h[p]
            &&& e[j].1 == fp_field(w[p])
            &&& e[j].2 == spec_length(w[p])
            &&& e[j].3 == spec_is_void(w[p])
        } by {
            assert(self.listed(e[j]));
            let i = choose|i: int|
                0 <= i < self.slots.len() && self.home@[i] >= 0 && !spec_is_tombstone(self.slots@[i]@) && e[j]
                    == #[trigger] self.entry_tuple(i);
            assert(pos_ok(self.meta_view(), self.slots_view(), self.home@, self.num_slots as int, i));
            assert(e[j].4 as int == i);
        }
        assert forall|p: int| live(h, w, p) implies exists|j: int| 0 <= j < e.len() && (#[trigger] e[j]).4 == p by {
            let j = choose|j: int| 0 <= j < e.len() && #[trigger] e[j] == self.entry_tuple(p);
            assert(e[j].4 == p);
        }
        lemma_lists_intro(h, w, e, self.total() as int);
    }

    /// After a rebuild, every entry of the table is an image of a listed entry
    /// and every listed entry's images are there: the table is rebuilt from
    /// the listed one.
    proof fn lemma_rebuilt(
        &self,
        oldf: AlephFilter,
        entries: Seq<(usize, u64, u8, bool, usize)>,
        qn: nat,
    )
        requires
            oldf.wf(),
            oldf.valid(),
            qn == oldf.quotient_bits,
            forall|j: int| 0 <= j < entries.len() ==> self.image_ok(#[trigger] entries[j], qn),
            forall|j: int| 0 <= j < entries.len() ==> oldf.listed(#[trigger] entries[j]),
            forall|i: int|
                0 <= i < oldf.total() && oldf.home@[i] >= 0 && !spec_is_tombstone(oldf.slots@[i]@) ==> exists|j: int|
                    0 <= j < entries.len() && #[trigger] entries[j] == oldf.entry_tuple(i),
            forall|i: int|
                0 <= i < self.home@.len() && self.home@[i] >= 0 ==> exists|j: int|
                    0 <= j < entries.len() && #[trigger] tuple_image(entries[j], qn, self.home@[i], self.slots_view()[i]),
            rebuilt_counts(self.home@, self.slots_view(), oldf.home@, oldf.slots_view(), qn),
        ensures
            self.rebuilt_from(&oldf),
    {
        oldf.lemma_views();
        assert forall|i: int| 0 <= i < self.homes().len() && self.homes()[i] >= 0 implies exists|p: int|
            0 <= p < oldf.homes().len() && oldf.homes()[p] >= 0 && !spec_is_tombstone(oldf.slots_view()[p])
                && #[trigger] expanded_image(
                oldf.homes()[p],
                oldf.slots_view()[p],
                oldf.spec_quotient_bits(),
                self.homes()[i],
                self.slots_view()[i],
            ) by {
            let j = choose|j: int|
                0 <= j < entries.len() && #[trigger] tuple_image(entries[j], qn, self.home@[i], self.slots_view()[i]);
            assert(oldf.listed(entries[j]));
            let p = choose|p: int|
                0 <= p < oldf.slots.len() && oldf.home@[p] >= 0 && !spec_is_tombstone(oldf.slots@[p]@) && entries[j]
                    == #[trigger] oldf.entry_tuple(p);
            assert(pos_ok(oldf.meta_view(), oldf.slots_view(), oldf.home@, oldf.num_slots as int, p));
            assert(expanded_image(
                oldf.homes()[p],
                oldf.slots_view()[p],
                oldf.spec_quotient_bits(),
                self.homes()[i],
                self.slots_view()[i],
            ));
        }
        assert forall|p: int, c: int, x: u64|
            0 <= p < oldf.homes().len() && oldf.homes()[p] >= 0 && !spec_is_tombstone(oldf.slots_view()[p])
                && #[trigger] expanded_image(
                oldf.homes()[p],
                oldf.slots_view()[p],
                oldf.spec_quotient_bits(),
                c,
                x,
            ) implies holds_pair(self.homes(), self.slots_view(), c, x) by {
            assert(pos_ok(oldf.meta_view(), oldf.slots_view(), oldf.home@, oldf.num_slots as int, p));
            let j = choose|j: int| 0 <= j < entries.len() && #[trigger] entries[j] == oldf.entry_tuple(p);
            assert(self.image_ok(entries[j], qn));
        }
    }

    /// The rebuilt table holds what the listed entry `t` of a table with
    /// `q` quotient bits becomes: a void at both of its possible new homes, or
    /// its fingerprint less its lowest bit at the home that bit selects.
    spec fn image_ok(&self, t: (usize, u64, u8, bool, usize), q: nat) -> bool {
        if t.3 {
            &&& holds_pair(self.home@, self.slots_view(), t.0 as int, VOID_MARKER)
            &&& holds_pair(self.home@, self.slots_view(), t.0 + pow2(q), VOID_MARKER)
        } else if t.2 > 0 {
            holds_pair(
                self.home@,
                self.slots_view(),
                t.0 + (t.1 % 2) * pow2(q),
                entry_word(t.1 / 2, (t.2 - 1) as nat),
            )
        } else {
            true
        }
    }

    /// After a rebuild that kept every listed entry, each hash that the old
    /// table may have held, the new table may hold.
    proof fn lemma_expanded_holds(
        &self,
        oldf: AlephFilter,
        entries: Seq<(usize, u64, u8, bool, usize)>,
        qn: nat,
        k: u64,
    )
        requires
            oldf.wf(),
            oldf.valid(),
            qn == oldf.quotient_bits,
            self.quotient_bits == qn + 1,
            self.base_fp_bits == oldf.base_fp_bits,
            self.num_expansions == oldf.num_expansions + 1,
            forall|j: int| 0 <= j < entries.len() ==> self.image_ok(#[trigger] entries[j], qn),
            forall|i: int|
                0 <= i < oldf.total() && oldf.home@[i] >= 0 && !spec_is_tombstone(oldf.slots@[i]@) ==> exists|j: int|
                    0 <= j < entries.len() && #[trigger] entries[j] == oldf.entry_tuple(i),
            oldf.may_hold(k),
        ensures
            self.may_hold(k),
    {
        let q_old = oldf.canonical_of(k);
        let r = oldf.spec_fp_bits();
        let fp_old = oldf.fingerprint_of(k);
        oldf.lemma_views();
        let i = choose|i: int|
            0 <= i < oldf.homes().len() && oldf.homes()[i] == q_old && #[trigger] spec_matches(
                oldf.slots_view()[i],
                fp_old as u64,
                r as u8,
            );
        let w = oldf.slots_view()[i];
        assert(pos_ok(oldf.meta_view(), oldf.slots_view(), oldf.home@, oldf.num_slots as int, i));
        assert(w != 0);
        assert(!spec_is_tombstone(w));
        let j = choose|j: int| 0 <= j < entries.len() && #[trigger] entries[j] == oldf.entry_tuple(i);
        let t = entries[j];
        assert(self.image_ok(t, qn));
        assert(t.0 as int == q_old);
        lemma_split_one_more_bit(k, qn, 1);
        lemma_pow2_pos(qn);
        let bit = remainder_of(k, qn, 1) % 2;
        assert(self.canonical_of(k) == q_old + bit * pow2(qn));
        if spec_is_void(w) {
            assert(bit == 0 || bit == 1);
            let target = self.canonical_of(k) as int;
            assert(holds_pair(self.home@, self.slots_view(), target, VOID_MARKER));
            let p = choose|p: int|
                0 <= p < self.home@.len() && #[trigger] self.home@[p] == target && self.slots_view()[p] == VOID_MARKER;
            assert(spec_matches(self.slots_view()[p], self.fingerprint_of(k) as u64, self.spec_fp_bits() as u8));
        } else {
            assert(word_sized(w, r));
            assert(len_field(w) == r);
            assert(r >= 1);
            assert(fp_field(w) < pow2(r));
            lemma_split_one_more_bit(k, qn, r);
            vstd::bits::lemma_u64_pow2_no_overflow(r);
            vstd::arithmetic::power2::lemma2_to64();
            assert(r - min_u8(len_field(w), r as u8) == 0);
            assert(pow2(0) == 1);
            assert(fp_field(w) as nat / 1 == fp_field(w) as nat);
            assert((fp_old as u64) as nat / 1 == fp_old);
            assert(fp_field(w) as nat / pow2(0) == fp_field(w) as nat);
            assert((fp_old as u64) as nat / pow2(0) == fp_old);
            assert(fp_field(w) as nat % pow2(r) == fp_old % pow2(r));
            vstd::arithmetic::div_mod::lemma_small_mod(fp_field(w) as nat, pow2(r));
            vstd::arithmetic::div_mod::lemma_small_mod(fp_old, pow2(r));
            assert(fp_field(w) == fp_old);
            assert(remainder_of(k, qn, r) % 2 == remainder_of(k, qn, 1) % 2) by {
                vstd::arithmetic::power2::lemma_pow2_unfold(r);
                vstd::arithmetic::power2::lemma2_to64();
                vstd::arithmetic::div_mod::lemma_mod_mod((k as nat / pow2(qn)) as int, 2, pow2((r - 1) as nat) as int);
            }
            assert(self.spec_fp_bits() == r - 1);
            lemma_pow2_unfold(r);
            lemma_entry_word_matches(fp_field(w) / 2, (r - 1) as nat);
            let target = self.canonical_of(k) as int;
            let x = entry_word(fp_field(w) / 2, (r - 1) as nat);
            assert(holds_pair(self.home@, self.slots_view(), target, x));
            let p = choose|p: int| 0 <= p < self.home@.len() && #[trigger] self.home@[p] == target && self.slots_view()[p] == x;
            assert(spec_matches(self.slots_view()[p], self.fingerprint_of(k) as u64, self.spec_fp_bits() as u8));
        }
    }

    /// Changing only the item count changes none of the table's properties.
    proof fn lemma_count_frame(&self, other: &AlephFilter)
        requires
            self.home == other.home,
            self.slots == other.slots,
            self.metadata == other.metadata,
            self.num_slots == other.num_slots,
            self.base_fp_bits == other.base_fp_bits,
            self.num_expansions == other.num_expansions,
        ensures
            self.layout_ok() == other.layout_ok(),
            self.entries_sized() == other.entries_sized(),
            self.slots_view() == other.slots_view(),
            forall|t: (usize, u64, u8, bool, usize), q: nat| #[trigger] self.image_ok(t, q) == other.image_ok(t, q),
    {
        assert(self.spec_fp_bits() == other.spec_fp_bits());
        assert(self.slots_view() =~= other.slots_view());
    }

    /// Re-inserts one word during a rebuild, keeping track of what holds.
    fn reinsert(&mut self, s: usize, slot: Slot, all_fit: bool, Ghost(pre): Ghost<bool>) -> (fit: bool)
        requires
            old(self).wf(),
            s < old(self).num_slots,
            word_ok(slot@),
            slot@ != 0,
            all_fit ==> old(self).layout_ok(),
            pre && all_fit ==> old(self).entries_sized(),
            pre && all_fit ==> word_sized(slot@, old(self).spec_fp_bits()),
        ensures
            final(self).wf(),
            same_params(final(self), old(self)),
            fit ==> all_fit,
            fit ==> final(self).layout_ok(),
            pre && fit ==> final(self).entries_sized(),
            fit ==> holds_pair(final(self).home@, final(self).slots_view(), s as int, slot@),
            all_fit && next_empty(old(self).meta_view(), s as int) < old(self).total() ==> fit,
            fit ==> inserted_entry(
                old(self).home@,
                old(self).slots_view(),
                final(self).home@,
                final(self).slots_view(),
                s as int,
                slot@,
            ),
            fit ==> forall|q: int, y: u64|
                q >= 0 && holds_pair(old(self).home@, old(self).slots_view(), q, y) ==> #[trigger] holds_pair(
                    final(self).home@,
                    final(self).slots_view(),
                    q,
                    y,
                ),
    {
        let placed: bool = self.qf_insert_slot(s, slot);
        proof {
            if all_fit && placed {
                old(self).lemma_views();
                lemma_inserted_pairs(
                    old(self).home@,
                    old(self).slots_view(),
                    self.home@,
                    self.slots_view(),
                    s as int,
                    slot@,
                );
                if pre {
                    assert forall|i: int| 0 <= i < self.home@.len() && self.home@[i] >= 0 implies #[trigger] word_sized(
                        self.slots_view()[i],
                        self.spec_fp_bits(),
                    ) by {
                        if !(self.home@[i] == s && self.slots_view()[i] == slot@) {
                            let j = choose|j: int|
                                0 <= j < old(self).home@.len() && #[trigger] old(self).home@[j] == self.home@[i]
                                    && old(self).slots_view()[j] == self.slots_view()[i];
                            assert(word_sized(old(self).slots_view()[j], old(self).spec_fp_bits()));
                        }
                    }
                }
            }
        }
        all_fit && placed
    }

    /// Doubles the logical slot count and rebuilds the table: every entry
    /// gives its lowest fingerprint bit to the slot address; void entries go
    /// to both possible new canonical slots, at most one void per slot; the
    /// item count becomes the number of re-inserted entries. Returns whether
    /// every re-inserted entry found room, which for a valid filter it always
    /// does (the doubled table has two slots to spare towards its end); the
    /// rebuilt table then holds exactly the images of the old entries, and
    /// every hash that the filter may have held before, it may still hold.
    #[verifier::spinoff_prover]
    #[verifier::rlimit(100)]
    fn expand(&mut self) -> (ok: bool)
        requires
            old(self).wf(),
            old(self).num_slots <= usize::MAX / 4,
        ensures
            final(self).wf(),
            final(self).num_slots == 2 * old(self).num_slots,
            final(self).quotient_bits == old(self).quotient_bits + 1,
            final(self).num_expansions == old(self).num_expansions + 1,
            final(self).num_extension_slots == old(self).num_extension_slots + 2,
            final(self).base_fp_bits == old(self).base_fp_bits,
            final(self).num_items <= old(self).total() * 2,
            ok ==> final(self).layout_ok(),
            ok && old(self).valid() ==> final(self).entries_sized(),
            ok && old(self).valid() ==> forall|k: u64| old(self).may_hold(k) ==> #[trigger] final(self).may_hold(k),
            old(self).valid() ==> ok,
            old(self).valid() ==> final(self).rebuilt_from(old(self)),
            old(self).valid() ==> final(self).num_items == count_ge(final(self).home@, 0),
            old(self).valid() ==> forall|x: int|
                0 <= x < final(self).num_slots ==> #[trigger] count_ge(final(self).home@, x) + x + 2 <= final(self).total(),
    {
        let entries: Vec<(usize, u64, u8, bool, usize)> = self.iterate_entries();
        let ghost pre = self.valid();
        let ghost oldf = *self;
        let old_q_bits: u32 = self.quotient_bits;
        let old_total: usize = self.total_slots();
        let ghost qn = old_q_bits as nat;
        proof {
            lemma_pow2_unfold(old_q_bits as nat + 1);
            lemma_pow2_fits(old_q_bits as nat + 1);
            vstd::bits::lemma_usize_shl_is_mul(1, old_q_bits as usize);
            assert((1usize << old_q_bits) == (1usize << (old_q_bits as usize))) by (bit_vector);
        }
        self.num_slots = self.num_slots * 2;
        self.quotient_bits = self.quotient_bits + 1;
        self.num_expansions = self.num_expansions + 1;
        self.num_extension_slots = self.num_extension_slots + 2;
        let total: usize = self.num_slots + self.num_extension_slots;
        let e: Slot = Slot::empty();
        let m: SlotMetadata = SlotMetadata::new();
        self.slots = vec![e; total];
        self.metadata = vec![m; total];
        self.num_items = 0;
        self.home = Ghost(Seq::new(total as nat, |i: int| -1int));
        proof {
            assert forall|i: int| 0 <= i < self.slots.len() implies #[trigger] word_ok(self.slots@[i]@) by {
                assert(vstd::pervasive::cloned(e, self.slots@[i]));
                assert(len_field(0) == 0);
            }
            assert forall|i: int| 0 <= i < self.slots_view().len() implies #[trigger] self.slots_view()[i] == 0 by {
                assert(vstd::pervasive::cloned(e, self.slots@[i]));
            }
            assert forall|i: int| 0 <= i < self.meta_view().len() implies #[trigger] self.meta_view()[i] == 0 by {
                assert(vstd::pervasive::cloned(m, self.metadata@[i]));
            }
            lemma_clear_layout(self.meta_view(), self.slots_view(), self.home@, self.num_slots as int);
        }
        let ghost old_n: int = oldf.num_slots as int;
        let ghost mut snv: Seq<int> = Seq::empty();
        let ghost mut sv: Seq<int> = Seq::empty();
        proof {
            assert forall|x: int| 0 <= x implies #[trigger] count_ge(self.home@, x) == count_ge(snv, x) + count_ge(sv, x) by {
                lemma_count_ge_none(self.home@, x);
            }
            if pre {
                assert forall|y: int| 0 <= y <= old_total implies #[trigger] count_listed(entries@, entries.len() as int, y) + y
                    <= old_total by {
                    lemma_count_listed_bound(entries@, y, old_total as int);
                }
                assert(lists(oldf.home@, oldf.slots_view(), entries@, old_total as int) && census(
                    self.home@,
                    self.slots_view(),
                    oldf.home@,
                    oldf.slots_view(),
                    qn,
                    list_bound(entries@, 0, old_total as int),
                    Set::empty(),
                ) && voids_match(Set::empty(), oldf.home@, oldf.slots_view(), qn, list_bound(entries@, 0, old_total as int)))
                    by {
                    assert(oldf.listing_exact(entries@));
                    lemma_census_start(self.home@, self.slots_view(), oldf.home@, oldf.slots_view(), qn, entries@,
                        old_total as int);
                }
            }
        }
        let mut void_slots: std::collections::HashSet<usize> = std::collections::HashSet::new();
        let mut all_fit: bool = true;
        let mut n: usize = 0;
        while n < entries.len()
            invariant
                self.wf(),
                self.num_slots == 2 * old(self).num_slots,
                self.quotient_bits == old_q_bits + 1,
                old_q_bits == old(self).quotient_bits,
                qn == old_q_bits,
                self.num_expansions == old(self).num_expansions + 1,
                self.num_extension_slots == old(self).num_extension_slots + 2,
                self.base_fp_bits == old(self).base_fp_bits,
                old(self).num_slots == pow2(qn),
                (1usize << old_q_bits) as int == pow2(qn),
                old_q_bits < 64,
                old_total == old(self).total(),
                old_total <= usize::MAX / 4 + 256,
                n <= entries.len(),
                self.num_items <= 2 * n,
                entries.len() <= old_total,
                oldf == *old(self),
                pre == old(self).valid(),
                forall|i: int| 0 <= i < entries.len() ==> (#[trigger] entries@[i]).0 < old_total,
                forall|i: int| 0 <= i < entries.len() ==> (#[trigger] entries@[i]).2 <= MAX_FP_LEN
                    || entries@[i].3,
                pre ==> forall|j: int| 0 <= j < entries.len() ==> oldf.listed(#[trigger] entries@[j]),
                pre ==> forall|i: int|
                    0 <= i < oldf.total() && oldf.home@[i] >= 0 && !spec_is_tombstone(oldf.slots@[i]@) ==> exists|j: int|
                        0 <= j < entries.len() && #[trigger] entries@[j] == oldf.entry_tuple(i),
                all_fit ==> self.layout_ok(),
                pre && all_fit ==> self.entries_sized(),
                pre && all_fit ==> forall|j: int| 0 <= j < n ==> self.image_ok(#[trigger] entries@[j], qn),
                pre && all_fit ==> forall|v: usize|
                    void_slots@.contains(v) ==> #[trigger] holds_pair(
                        self.home@,
                        self.slots_view(),
                        v as int,
                        VOID_MARKER,
                    ),
                old_n == old(self).num_slots,
                old_total == old(self).num_slots + old(self).num_extension_slots,
                pre ==> all_fit,
                pre ==> forall|x: int| 0 <= x ==> #[trigger] count_ge(self.home@, x) == count_ge(snv, x) + count_ge(sv, x),
                pre ==> rebuild_bounds(snv, sv, entries@, n as int, old_n),
                pre ==> forall|v: usize| void_slots@.contains(v) <==> sv.contains(v as int),
                pre ==> forall|i: int| 0 <= i < sv.len() ==> 0 <= #[trigger] sv[i] < 2 * old_n,
                pre ==> forall|i: int| 0 <= i < snv.len() ==> 0 <= #[trigger] snv[i],
                pre ==> self.num_items == snv.len() + sv.len(),
                pre ==> forall|i: int|
                    0 <= i < self.home@.len() && self.home@[i] >= 0 ==> exists|j: int|
                        0 <= j < n && #[trigger] tuple_image(entries@[j], qn, self.home@[i], self.slots_view()[i]),
                pre ==> forall|y: int| 0 <= y <= old_total ==> #[trigger] count_listed(entries@, entries.len() as int, y) + y
                    <= old_total,
                pre ==> lists(oldf.home@, oldf.slots_view(), entries@, old_total as int),
                pre ==> census(
                    self.home@,
                    self.slots_view(),
                    oldf.home@,
                    oldf.slots_view(),
                    qn,
                    list_bound(entries@, n as int, old_total as int),
                    Set::empty(),
                ),
                pre ==> voids_match(
                    void_slots@,
                    oldf.home@,
                    oldf.slots_view(),
                    qn,
                    list_bound(entries@, n as int, old_total as int),
                ),
            decreases entries.len() - n,
        {
            let ghost before = *self;
            let ghost vs0 = void_slots@;
            let ghost t = entries@[n as int];
            let (bucket, fingerprint, fp_len, is_void, _old_pos) = entries[n];
            let ghost oh = oldf.home@;
            let ghost ow = oldf.slots_view();
            let ghost b_n = list_bound(entries@, n as int, old_total as int);
            let ghost b_n1 = list_bound(entries@, n + 1, old_total as int);
            proof {
                if pre {
                    assert(oldf.listed(t));
                    let i = choose|i: int|
                        0 <= i < oldf.slots.len() && oldf.home@[i] >= 0 && !spec_is_tombstone(oldf.slots@[i]@)
                            && t == #[trigger] oldf.entry_tuple(i);
                    oldf.lemma_views();
                    assert(pos_ok(oldf.meta_view(), oldf.slots_view(), oldf.home@, oldf.num_slots as int, i));
                    assert(bucket < pow2(qn));
                    assert(word_sized(oldf.slots_view()[i], oldf.spec_fp_bits()));
                    if !is_void {
                        assert(fp_len == oldf.spec_fp_bits() && fingerprint < pow2(fp_len as nat));
                    }
                }
            }
            if is_void {
                let s0: usize = bucket;
                let s1: usize = bucket | (1usize << old_q_bits);
                proof {
                    if pre {
                        let p2: usize = 1usize << old_q_bits;
                        assert(bucket < p2);
                        assert(bucket | p2 == bucket + p2) by (bit_vector)
                            requires
                                bucket < p2,
                                p2 == 1usize << old_q_bits,
                                old_q_bits < 64,
                        ;
                        assert(s1 == s0 + pow2(qn));
                        assert(s1 < self.num_slots);
                    }
                }
                let ghost sv_a = sv;
                if s0 < self.num_slots && void_slots.insert(s0) {
                    proof {
                        if pre {
                            assert(!sv.contains(s0 as int));
                            self.lemma_views();
                            assert(self.home@.len() == old_total + old_n + 2);
                            lemma_bounds_low_void(snv, sv, entries@, n as int, old_n, s0 as int);
                            lemma_bounds_grow(snv, sv.push(s0 as int), entries@, n as int, n + 1, old_n);
                            lemma_rebuild_fits(self.meta_view(), self.slots_view(), self.home@, snv, sv, true, s0 as int,
                                entries@, n + 1, old_n, old_total as int);
                        }
                    }
                    let ghost h_a = self.home@;
                    let ghost w_a = self.slots_view();
                    all_fit = self.reinsert(s0, Slot::void_marker(), all_fit, Ghost(pre));
                    proof {
                        if pre {
                            lemma_census_void_insert(h_a, w_a, self.home@, self.slots_view(), oh, ow, qn, b_n, Set::empty(),
                                vs0, s0);
                            lemma_rebuild_count(h_a, w_a, self.home@, self.slots_view(), VOID_MARKER, snv, sv, true, s0 as int);
                            assert(tuple_image(entries@[n as int], qn, s0 as int, VOID_MARKER));
                            lemma_image_sources(h_a, w_a, self.home@, self.slots_view(), s0 as int, VOID_MARKER, entries@,
                                n as int, n + 1, qn);
                            sv = sv.push(s0 as int);
                            assert forall|v: usize| void_slots@.contains(v) <==> sv.contains(v as int) by {
                                if sv.contains(v as int) && v != s0 {
                                    let i = choose|i: int| 0 <= i < sv.len() && sv[i] == v as int;
                                    assert(sv_a[i] == v as int);
                                }
                                if sv_a.contains(v as int) {
                                    let i = choose|i: int| 0 <= i < sv_a.len() && sv_a[i] == v as int;
                                    assert(sv[i] == v as int);
                                }
                                if v == s0 {
                                    assert(sv[sv.len() - 1] == v as int);
                                }
                            }
                        }
                    }
                    let ghost prev = *self;
                    self.num_items = self.num_items + 1;
                    proof {
                        self.lemma_count_frame(&prev);
                    }
                }
                proof {
                    if pre {
                        if vs0.contains(s0) {
                            lemma_census_void_skip(self.home@, self.slots_view(), oh, ow, qn, b_n, Set::empty(), vs0, s0);
                        }
                        assert(census(self.home@, self.slots_view(), oh, ow, qn, b_n, Set::empty().insert(s0 as int)));
                        assert(void_slots@ == vs0.insert(s0));
                    }
                }
                let ghost mid = *self;
                let ghost vs1 = void_slots@;
                let ghost sv_b = sv;
                let ghost mut kb: int = n as int;
                if s1 < self.num_slots && void_slots.insert(s1) {
                    proof {
                        if pre {
                            assert(!sv.contains(s1 as int));
                            self.lemma_views();
                            assert(self.home@.len() == old_total + old_n + 2);
                            assert(entries@[n as int].0 + old_n == s1);
                            lemma_bounds_high_void(snv, sv, entries@, n as int, old_n);
                            lemma_rebuild_fits(self.meta_view(), self.slots_view(), self.home@, snv, sv, true, s1 as int,
                                entries@, n + 1, old_n, old_total as int);
                        }
                    }
                    let ghost h_a = self.home@;
                    let ghost w_a = self.slots_view();
                    all_fit = self.reinsert(s1, Slot::void_marker(), all_fit, Ghost(pre));
                    proof {
                        if pre {
                            lemma_census_void_insert(h_a, w_a, self.home@, self.slots_view(), oh, ow, qn, b_n,
                                Set::empty().insert(s0 as int), vs0, s1);
                            lemma_rebuild_count(h_a, w_a, self.home@, self.slots_view(), VOID_MARKER, snv, sv, true, s1 as int);
                            assert(tuple_image(entries@[n as int], qn, s1 as int, VOID_MARKER));
                            lemma_image_sources(h_a, w_a, self.home@, self.slots_view(), s1 as int, VOID_MARKER, entries@,
                                n as int, n + 1, qn);
                            sv = sv.push(s1 as int);
                            kb = n + 1;
                            assert forall|v: usize| void_slots@.contains(v) <==> sv.contains(v as int) by {
                                if sv.contains(v as int) && v != s1 {
                                    let i = choose|i: int| 0 <= i < sv.len() && sv[i] == v as int;
                                    assert(sv_b[i] == v as int);
                                }
                                if sv_b.contains(v as int) {
                                    let i = choose|i: int| 0 <= i < sv_b.len() && sv_b[i] == v as int;
                                    assert(sv[i] == v as int);
                                }
                                if v == s1 {
                                    assert(sv[sv.len() - 1] == v as int);
                                }
                            }
                        }
                    }
                    let ghost prev = *self;
                    self.num_items = self.num_items + 1;
                    proof {
                        self.lemma_count_frame(&prev);
                    }
                }
                proof {
                    if pre {
                        lemma_bounds_grow(snv, sv, entries@, kb, n + 1, old_n);
                        if vs1.contains(s1) {
                            assert(vs0.contains(s1));
                            lemma_census_void_skip(self.home@, self.slots_view(), oh, ow, qn, b_n,
                                Set::empty().insert(s0 as int), vs0, s1);
                        }
                        assert(void_slots@ == vs0.insert(s0).insert(s1));
                        lemma_void_entry_done(self.home@, self.slots_view(), oh, ow, qn, entries@, old_total as int,
                            n as int, vs0, s0, s1);
                    }
                }
                proof {
                    if pre && all_fit {
                        assert forall|v: usize| void_slots@.contains(v) implies #[trigger] holds_pair(
                            self.home@,
                            self.slots_view(),
                            v as int,
                            VOID_MARKER,
                        ) by {
                            if vs0.contains(v) {
                                assert(holds_pair(before.home@, before.slots_view(), v as int, VOID_MARKER));
                                assert(holds_pair(mid.home@, mid.slots_view(), v as int, VOID_MARKER));
                            } else if vs1.contains(v) {
                                assert(holds_pair(mid.home@, mid.slots_view(), v as int, VOID_MARKER));
                            }
                        }
                        assert(void_slots@.contains(s0));
                        assert(void_slots@.contains(s1));
                        assert(holds_pair(self.home@, self.slots_view(), s0 as int, VOID_MARKER));
                        assert(holds_pair(self.home@, self.slots_view(), s1 as int, VOID_MARKER));
                    }
                }
            } else if fp_len > 0 {
                let pivot: u64 = fingerprint & 1;
                assert(fingerprint & 1 <= 1) by (bit_vector);
                let new_bucket: usize = bucket | ((pivot as usize) << old_q_bits);
                let new_fp: u64 = fingerprint >> 1u64;
                let new_len: u8 = fp_len - 1;
                proof {
                    assert(fingerprint & 1 == fingerprint % 2) by (bit_vector);
                    assert(fingerprint >> 1u64 == fingerprint / 2) by (bit_vector);
                    if pre {
                        let p2: usize = 1usize << old_q_bits;
                        let pv: usize = pivot as usize;
                        if pv == 0 {
                            assert(bucket | (0usize << old_q_bits) == bucket) by (bit_vector);
                            assert(new_bucket == bucket);
                            assert(fingerprint % 2 == 0);
                            assert((fingerprint % 2) * pow2(qn) == 0);
                        } else {
                            assert(pv == 1);
                            assert(bucket | (1usize << old_q_bits) == bucket + p2) by (bit_vector)
                                requires
                                    bucket < p2,
                                    p2 == 1usize << old_q_bits,
                                    old_q_bits < 64,
                            ;
                            assert(new_bucket == bucket + p2);
                            assert(fingerprint % 2 == 1);
                            assert(p2 == pow2(qn));
                            assert((fingerprint % 2) * pow2(qn) == pow2(qn));
                        }
                        assert(new_bucket == bucket + (fingerprint % 2) * pow2(qn));
                        lemma_pow2_unfold(fp_len as nat);
                        lemma_entry_word_matches(new_fp, new_len as nat);
                    }
                }
                proof {
                    if pre {
                        assert(new_bucket < self.num_slots);
                    }
                }
                if new_bucket < self.num_slots {
                    let slot: Slot = if new_len == 0 { Slot::void_marker() } else { Slot::new(new_fp, new_len) };
                    assert(slot@ == entry_word(new_fp, new_len as nat));
                    proof {
                        if pre {
                            self.lemma_views();
                            assert(self.home@.len() == old_total + old_n + 2);
                            lemma_bounds_image(snv, sv, entries@, n as int, old_n, (fingerprint % 2) as int);
                            assert(entries@[n as int].0 + (fingerprint % 2) * old_n == new_bucket);
                            lemma_rebuild_fits(self.meta_view(), self.slots_view(), self.home@, snv, sv, false,
                                new_bucket as int, entries@, n + 1, old_n, old_total as int);
                        }
                    }
                    let ghost h_a = self.home@;
                    let ghost w_a = self.slots_view();
                    all_fit = self.reinsert(new_bucket, slot, all_fit, Ghost(pre));
                    proof {
                        if pre {
                            lemma_image_entry_done(h_a, w_a, self.home@, self.slots_view(), oh, ow, qn, entries@,
                                old_total as int, n as int, vs0, new_bucket as int, slot@);
                            lemma_rebuild_count(h_a, w_a, self.home@, self.slots_view(), slot@, snv, sv, false,
                                new_bucket as int);
                            assert(tuple_image(entries@[n as int], qn, new_bucket as int, slot@));
                            lemma_image_sources(h_a, w_a, self.home@, self.slots_view(), new_bucket as int, slot@, entries@,
                                n as int, n + 1, qn);
                            snv = snv.push(new_bucket as int);
                        }
                    }
                    let ghost prev = *self;
                    self.num_items = self.num_items + 1;
                    proof {
                        self.lemma_count_frame(&prev);
                        if pre && all_fit {
                            assert(holds_pair(self.home@, self.slots_view(), new_bucket as int, slot@));
                            assert(self.image_ok(t, qn));
                        }
                    }
                }
            }
            proof {
                if pre && !is_void && fp_len == 0 {
                    lemma_bounds_grow(snv, sv, entries@, n as int, n + 1, old_n);
                    lemma_bare_entry_done(self.home@, self.slots_view(), oh, ow, qn, entries@, old_total as int,
                        n as int, vs0);
                }
                if pre && all_fit {
                    assert forall|j: int| 0 <= j < n + 1 implies self.image_ok(#[trigger] entries@[j], qn) by {
                        if j < n {
                            assert(before.image_ok(entries@[j], qn));
                        } else {
                            assert(entries@[j] == t);
                        }
                    }
                    if !is_void {
                        assert forall|v: usize| void_slots@.contains(v) implies #[trigger] holds_pair(
                            self.home@,
                            self.slots_view(),
                            v as int,
                            VOID_MARKER,
                        ) by {
                            assert(holds_pair(before.home@, before.slots_view(), v as int, VOID_MARKER));
                        }
                    }
                }
            }
            n += 1;
        }
        proof {
            if pre && all_fit {
                assert forall|k: u64| oldf.may_hold(k) implies #[trigger] self.may_hold(k) by {
                    self.lemma_expanded_holds(oldf, entries@, qn, k);
                }
            }
            if pre {
                assert(self.rebuilt_from(&oldf)) by {
                    lemma_census_end(self.home@, self.slots_view(), oldf.home@, oldf.slots_view(), qn, entries@,
                        old_total as int);
                    self.lemma_rebuilt(oldf, entries@, qn);
                }
                lemma_count_ge_all(snv, 0);
                lemma_count_ge_all(sv, 0);
                assert forall|x: int| 0 <= x < self.num_slots implies #[trigger] count_ge(self.home@, x) + x + 2
                    <= self.total() by {
                    lemma_rebuild_room(snv, sv, entries@, entries.len() as int, old_n, old_total as int, x);
                }
            }
        }
        all_fit
    }
}

impl AlephFilter {
    /// The canonical slot of a hash at the current quotient width.
    pub open spec fn canonical_of(&self, hash: u64) -> nat {
        quotient_of(hash, self.spec_quotient_bits())
    }

    /// The fingerprint of a hash at the current widths.
    pub open spec fn fingerprint_of(&self, hash: u64) -> nat {
        remainder_of(hash, self.spec_quotient_bits(), self.spec_fp_bits())
    }

    /// What a lookup of `hash` finds by reading the table's flags and words
    /// as they stand, whatever state they are in: the canonical slot is
    /// marked occupied, and the run that a scan of the flags takes for its
    /// run (see `run_start_of`) holds a word that matches the fingerprint
    /// (see `run_matches`). `contains_hash` answers it, and `delete_hash`
    /// deletes exactly when it holds.
    pub open spec fn scan_finds(&self, hash: u64) -> bool {
        let m = self.meta_view();
        let c = self.canonical_of(hash) as int;
        spec_occupied(m[c]) && run_matches(
            m,
            self.slots_view(),
            run_start_of(m, c),
            self.fingerprint_of(hash) as u64,
            self.spec_fp_bits() as u8,
        )
    }

    /// The homes of the entries, slot by slot (-1 for an empty slot).
    pub closed spec fn homes(&self) -> Seq<int> {
        self.home@
    }

    /// The number of slots that hold an entry.
    pub open spec fn entry_count(&self) -> nat {
        count_ge(self.homes(), 0)
    }

    /// A filter with a sound layout that holds no more entries than it has
    /// extension slots has room for an entry of any hash: the entries with a
    /// home at or after any slot cannot fill every slot from there to the end.
    pub proof fn lemma_room_for_any(&self, hash: u64)
        requires
            self.wf(),
            self.layout_ok(),
            self.entry_count() <= self.spec_extension(),
        ensures
            self.fits(hash),
    {
        self.lemma_views();
        let n = self.num_slots as int;
        lemma_pow2_pos(self.quotient_bits as nat);
        assert forall|x: int| 0 <= x < n implies #[trigger] count_ge(self.home@, x) + x < self.home@.len() by {
            lemma_count_ge_mono(self.home@, 0, x);
        }
        lemma_room_fits(self.meta_view(), self.slots_view(), self.home@, n, self.canonical_of(hash) as int);
    }

    /// Some entry of the filter may stand for the hash value `hash`: an entry
    /// whose home is the hash's canonical slot holds a word that matches the
    /// hash's fingerprint.
    pub open spec fn may_hold(&self, hash: u64) -> bool {
        holds_match(
            self.homes(),
            self.slots_view(),
            self.canonical_of(hash) as int,
            self.fingerprint_of(hash) as u64,
            self.spec_fp_bits() as u8,
        )
    }

    /// Some slot at or after the hash's canonical slot is empty, so an entry
    /// for it finds room without running past the last slot.
    pub closed spec fn fits(&self, hash: u64) -> bool {
        next_empty(self.meta_view(), self.canonical_of(hash) as int) < self.total()
    }

    /// The word that an insertion of `hash` stores at the current widths.
    pub open spec fn word_for(&self, hash: u64) -> u64 {
        entry_word(self.fingerprint_of(hash) as u64, self.spec_fp_bits())
    }

    /// Inserts an entry for the hash value `hash`: first expands the filter
    /// if the load has reached 4/5, then stores the hash's fingerprint (a void
    /// marker once no fingerprint bits are left) at the end of the run of its
    /// canonical slot, and counts one more item. Returns whether the entry was
    /// stored and the expansion, if there was one, kept every entry it
    /// re-inserted: for a valid filter, always when it expanded, and otherwise
    /// exactly when some slot at or after the canonical slot is empty.
    pub fn insert_hash(&mut self, hash: u64) -> (ok: bool)
        requires
            old(self).wf(),
            old(self).spec_len() < usize::MAX,
            over_load(old(self).spec_len(), old(self).spec_capacity()) ==> old(self).spec_capacity()
                <= usize::MAX / 4,
        ensures
            final(self).wf(),
            final(self).spec_base_fp_bits() == old(self).spec_base_fp_bits(),
            !over_load(old(self).spec_len(), old(self).spec_capacity()) ==> {
                &&& final(self).spec_len() == old(self).spec_len() + 1
                &&& final(self).spec_capacity() == old(self).spec_capacity()
                &&& final(self).spec_quotient_bits() == old(self).spec_quotient_bits()
                &&& final(self).spec_expansions() == old(self).spec_expansions()
                &&& (old(self).layout_ok() ==> (ok <==> old(self).fits(hash)))
                &&& (old(self).layout_ok() && ok ==> inserted_entry(
                    old(self).homes(),
                    old(self).slots_view(),
                    final(self).homes(),
                    final(self).slots_view(),
                    old(self).canonical_of(hash) as int,
                    old(self).word_for(hash),
                ))
                &&& (old(self).layout_ok() && ok ==> forall|k: u64| old(self).may_hold(k) ==> #[trigger] final(self).may_hold(k))
                &&& (old(self).layout_ok() && ok ==> final(self).entry_count() == old(self).entry_count() + 1)
            },
            over_load(old(self).spec_len(), old(self).spec_capacity()) ==> {
                &&& final(self).spec_capacity() == 2 * old(self).spec_capacity()
                &&& final(self).spec_quotient_bits() == old(self).spec_quotient_bits() + 1
                &&& final(self).spec_expansions() == old(self).spec_expansions() + 1
                &&& final(self).spec_len() >= 1
                &&& (old(self).valid() ==> ok && final(self).spec_len() == final(self).entry_count())
                &&& (old(self).valid() ==> exists|mid: AlephFilter|
                    #[trigger] mid.rebuilt_from(old(self)) && mid.spec_quotient_bits() == final(self).spec_quotient_bits()
                        && mid.spec_fp_bits() == final(self).spec_fp_bits() && inserted_entry(
                        mid.homes(),
                        mid.slots_view(),
                        final(self).homes(),
                        final(self).slots_view(),
                        final(self).canonical_of(hash) as int,
                        final(self).word_for(hash),
                    ))
            },
            (over_load(old(self).spec_len(), old(self).spec_capacity()) || old(self).layout_ok()) && ok
                ==> final(self).layout_ok() && final(self).may_hold(hash),
            old(self).valid() && ok ==> {
                &&& final(self).valid()
                &&& final(self).may_hold(hash)
                &&& forall|k: u64| old(self).may_hold(k) ==> #[trigger] final(self).may_hold(k)
            },
    {
        let mut all_fit: bool = true;
        if self.is_over_load() {
            all_fit = self.expand();
        }
        let ghost mid = *self;
        let ghost expanded = over_load(old(self).spec_len(), old(self).spec_capacity());
        proof {
            if !all_fit {
            } else if old(self).valid() {
                assert(mid.valid());
                assert(forall|k: u64| old(self).may_hold(k) ==> #[trigger] mid.may_hold(k));
            }
        }
        let r: u32 = self.fp_bits();
        let (slot_idx, fp) = split_hash(hash, self.quotient_bits, r);
        proof {
            lemma_pow2_pos(self.quotient_bits as nat);
            lemma_pow2_pos(r as nat);
            lemma_entry_word_matches(fp, r as nat);
        }
        let canonical: usize = slot_idx as usize;
        let slot: Slot = if r == 0 { Slot::void_marker() } else { Slot::new(fp, r as u8) };
        assert(slot@ == entry_word(fp, r as nat));
        proof {
            if expanded && old(self).valid() {
                mid.lemma_views();
                lemma_roomy_fits(mid.meta_view(), mid.slots_view(), mid.home@, mid.num_slots as int, canonical as int);
            }
        }
        let stored: bool = self.qf_insert_slot(canonical, slot);
        proof {
            if mid.layout_ok() && stored {
                lemma_inserted_has(mid.home@, mid.slots_view(), self.home@, self.slots_view(), canonical as int, slot@);
                let i = choose|i: int|
                    0 <= i < self.home@.len() && #[trigger] self.home@[i] == canonical && self.slots_view()[i] == slot@;
                assert(spec_matches(self.slots_view()[i], fp, r as u8));
            }
        }
        let ghost placed = *self;
        self.num_items = self.num_items + 1;
        proof {
            self.lemma_count_frame(&placed);
            if mid.layout_ok() && stored {
                lemma_inserted_count(mid.home@, mid.slots_view(), placed.home@, placed.slots_view(), canonical as int, slot@, 0);
            }
            if expanded && old(self).valid() {
                assert(mid.rebuilt_from(old(self)));
                assert(inserted_entry(
                    mid.homes(),
                    mid.slots_view(),
                    self.homes(),
                    self.slots_view(),
                    self.canonical_of(hash) as int,
                    self.word_for(hash),
                ));
            }
            if mid.valid() && stored {
                mid.lemma_views();
                lemma_inserted_pairs(mid.home@, mid.slots_view(), self.home@, self.slots_view(), canonical as int, slot@);
                assert forall|i: int| 0 <= i < self.home@.len() && self.home@[i] >= 0 implies #[trigger] word_sized(
                    self.slots_view()[i],
                    self.spec_fp_bits(),
                ) by {
                    if !(self.home@[i] == canonical && self.slots_view()[i] == slot@) {
                        let j = choose|j: int|
                            0 <= j < mid.home@.len() && #[trigger] mid.home@[j] == self.home@[i]
                                && mid.slots_view()[j] == self.slots_view()[i];
                        assert(word_sized(mid.slots_view()[j], mid.spec_fp_bits()));
                    }
                }
                assert(self.entries_sized());
            }
            if mid.layout_ok() && stored {
                mid.lemma_views();
                assert forall|k: u64| mid.may_hold(k) implies #[trigger] self.may_hold(k) by {
                    lemma_inserted_keeps(
                        mid.home@,
                        mid.slots_view(),
                        self.home@,
                        self.slots_view(),
                        canonical as int,
                        slot@,
                        mid.canonical_of(k) as int,
                        mid.fingerprint_of(k) as u64,
                        mid.spec_fp_bits() as u8,
                    );
                }
            }
        }
        stored && all_fit
    }

    /// Inserts a key (see `insert_hash`; the key's hash is its xxHash3 value).
    pub fn insert(&mut self, key: &[u8])
        requires
            old(self).wf(),
            old(self).spec_len() < usize::MAX,
            over_load(old(self).spec_len(), old(self).spec_capacity()) ==> old(self).spec_capacity()
                <= usize::MAX / 4,
        ensures
            final(self).wf(),
            final(self).spec_base_fp_bits() == old(self).spec_base_fp_bits(),
            !over_load(old(self).spec_len(), old(self).spec_capacity()) ==> {
                &&& final(self).spec_len() == old(self).spec_len() + 1
                &&& final(self).spec_capacity() == old(self).spec_capacity()
                &&& final(self).spec_quotient_bits() == old(self).spec_quotient_bits()
                &&& final(self).spec_expansions() == old(self).spec_expansions()
                &&& (old(self).layout_ok() && old(self).fits(xxh3_64_of(key@)) ==> {
                    &&& final(self).layout_ok()
                    &&& final(self).may_hold(xxh3_64_of(key@))
                    &&& inserted_entry(
                        old(self).homes(),
                        old(self).slots_view(),
                        final(self).homes(),
                        final(self).slots_view(),
                        old(self).canonical_of(xxh3_64_of(key@)) as int,
                        old(self).word_for(xxh3_64_of(key@)),
                    )
                    &&& final(self).entry_count() == old(self).entry_count() + 1
                })
            },
            over_load(old(self).spec_len(), old(self).spec_capacity()) ==> {
                &&& final(self).spec_capacity() == 2 * old(self).spec_capacity()
                &&& final(self).spec_quotient_bits() == old(self).spec_quotient_bits() + 1
                &&& final(self).spec_expansions() == old(self).spec_expansions() + 1
                &&& final(self).spec_len() >= 1
                &&& (old(self).valid() ==> final(self).spec_len() == final(self).entry_count())
                &&& (old(self).valid() ==> exists|mid: AlephFilter|
                    #[trigger] mid.rebuilt_from(old(self)) && mid.spec_quotient_bits() == final(self).spec_quotient_bits()
                        && mid.spec_fp_bits() == final(self).spec_fp_bits() && inserted_entry(
                        mid.homes(),
                        mid.slots_view(),
                        final(self).homes(),
                        final(self).slots_view(),
                        final(self).canonical_of(xxh3_64_of(key@)) as int,
                        final(self).word_for(xxh3_64_of(key@)),
                    ))
            },
            old(self).valid() && (over_load(old(self).spec_len(), old(self).spec_capacity()) || old(self).fits(
                xxh3_64_of(key@),
            )) ==> {
                &&& final(self).valid()
                &&& final(self).may_hold(xxh3_64_of(key@))
                &&& forall|k: u64| old(self).may_hold(k) ==> #[trigger] final(self).may_hold(k)
            },
    {
        let hash: u64 = hash_key(key);
        let _stored: bool = self.insert_hash(hash);
    }

    /// Whether the filter may hold an entry for the hash value `hash`: the
    /// run of its canonical slot holds a slot matching its fingerprint.
    pub fn contains_hash(&self, hash: u64) -> (r: bool)
        requires
            self.wf(),
        ensures
            r == self.scan_finds(hash),
            self.layout_ok() ==> (r == self.may_hold(hash)),
    {
        let r: u32 = self.fp_bits();
        let (slot_idx, fp) = split_hash(hash, self.quotient_bits, r);
        proof {
            lemma_pow2_pos(self.quotient_bits as nat);
        }
        let canonical: usize = slot_idx as usize;
        self.qf_search(fp, canonical)
    }

    /// Whether the filter may hold the key (see `contains_hash`).
    pub fn contains(&self, key: &[u8]) -> (r: bool)
        requires
            self.wf(),
        ensures
            r == self.scan_finds(xxh3_64_of(key@)),
            self.layout_ok() ==> (r == self.may_hold(xxh3_64_of(key@))),
    {
        let hash: u64 = hash_key(key);
        self.contains_hash(hash)
    }

    /// Some entry of the filter may stand for `hash` and could not stand for
    /// `other`: it has `hash`'s canonical slot as home and matches `hash`'s
    /// fingerprint, and does not both have `other`'s home and match `other`'s
    /// fingerprint.
    pub open spec fn may_hold_apart(&self, hash: u64, other: u64) -> bool {
        held_apart(
            self.homes(),
            self.slots_view(),
            self.canonical_of(hash) as int,
            self.fingerprint_of(hash) as u64,
            self.spec_fp_bits() as u8,
            self.canonical_of(other) as int,
            self.fingerprint_of(other) as u64,
            self.spec_fp_bits() as u8,
        )
    }

    /// Removes one entry that may stand for the hash value `hash`, if there is
    /// one (the last in its run: a void entry becomes a tombstone, any other is
    /// taken out and the rest of its cluster moves back by one slot), and counts
    /// one item less. Returns whether an entry was removed, which it is exactly
    /// when the filter may hold `hash`. Every other key that some entry
    /// apart from `hash`'s stands for is still held afterwards.
    pub fn delete_hash(&mut self, hash: u64) -> (deleted: bool)
        requires
            old(self).wf(),
        ensures
            final(self).wf(),
            final(self).spec_capacity() == old(self).spec_capacity(),
            final(self).spec_quotient_bits() == old(self).spec_quotient_bits(),
            final(self).spec_expansions() == old(self).spec_expansions(),
            final(self).spec_base_fp_bits() == old(self).spec_base_fp_bits(),
            deleted ==> final(self).spec_len() == if old(self).spec_len() > 0 { old(self).spec_len() - 1 } else { 0 },
            !deleted ==> *final(self) == *old(self),
            deleted == old(self).scan_finds(hash),
            old(self).layout_ok() ==> {
                &&& final(self).layout_ok()
                &&& (deleted <==> old(self).may_hold(hash))
                &&& (deleted ==> deleted_entry(
                    old(self).homes(),
                    old(self).slots_view(),
                    final(self).homes(),
                    final(self).slots_view(),
                    old(self).canonical_of(hash) as int,
                    old(self).fingerprint_of(hash) as u64,
                    old(self).spec_fp_bits() as u8,
                ))
                &&& (deleted ==> forall|k: u64| #[trigger] old(self).may_hold_apart(k, hash) ==> final(self).may_hold(k))
            },
            old(self).valid() ==> final(self).valid(),
    {
        let r: u32 = self.fp_bits();
        let (slot_idx, fp) = split_hash(hash, self.quotient_bits, r);
        proof {
            lemma_pow2_pos(self.quotient_bits as nat);
        }
        let canonical: usize = slot_idx as usize;
        let ghost before = *self;
        if self.qf_delete(fp, canonical) {
            let ghost after = *self;
            self.num_items = if self.num_items > 0 { self.num_items - 1 } else { 0 };
            proof {
                self.lemma_count_frame(&after);
                assert(self.slots_view() == after.slots_view());
                assert(self.home@ == after.home@);
                if before.layout_ok() {
                    before.lemma_views();
                    assert forall|k: u64| #[trigger] before.may_hold_apart(k, hash) implies self.may_hold(k) by {
                        lemma_deleted_keeps(
                            before.home@,
                            before.slots_view(),
                            after.home@,
                            after.slots_view(),
                            canonical as int,
                            fp,
                            before.spec_fp_bits() as u8,
                            before.canonical_of(k) as int,
                            before.fingerprint_of(k) as u64,
                            before.spec_fp_bits() as u8,
                        );
                    }
                }
                if before.valid() {
                    before.lemma_views();
                    lemma_deleted_from_old(
                        before.home@,
                        before.slots_view(),
                        after.home@,
                        after.slots_view(),
                        canonical as int,
                        fp,
                        before.spec_fp_bits() as u8,
                    );
                    assert forall|i: int| 0 <= i < self.home@.len() && self.home@[i] >= 0 implies #[trigger] word_sized(
                        self.slots_view()[i],
                        self.spec_fp_bits(),
                    ) by {
                        if self.slots_view()[i] != TOMBSTONE_MARKER {
                            let j = choose|j: int|
                                0 <= j < before.home@.len() && #[trigger] before.home@[j] == self.home@[i]
                                    && before.slots_view()[j] == self.slots_view()[i];
                            assert(word_sized(before.slots_view()[j], before.spec_fp_bits()));
                        }
                    }
                    assert(self.entries_sized());
                }
            }
            true
        } else {
            false
        }
    }

    /// Deleting a hash right after inserting it, with no expansion in
    /// between and with fingerprint bits left, gives back the table as it
    /// was: the same homes and the same slot words. (The insertion puts the
    /// new entry after every entry of its home, and the deletion takes out
    /// the last entry of that home that matches.)
    pub proof fn lemma_insert_then_delete(before: &Self, between: &Self, after: &Self, hash: u64)
        requires
            before.wf(),
            before.layout_ok(),
            before.spec_fp_bits() > 0,
            between.spec_quotient_bits() == before.spec_quotient_bits(),
            between.spec_fp_bits() == before.spec_fp_bits(),
            inserted_entry(
                before.homes(),
                before.slots_view(),
                between.homes(),
                between.slots_view(),
                before.canonical_of(hash) as int,
                before.word_for(hash),
            ),
            deleted_entry(
                between.homes(),
                between.slots_view(),
                after.homes(),
                after.slots_view(),
                between.canonical_of(hash) as int,
                between.fingerprint_of(hash) as u64,
                between.spec_fp_bits() as u8,
            ),
        ensures
            after.homes() == before.homes(),
            after.slots_view() == before.slots_view(),
    {
        let r = before.spec_fp_bits();
        let fp = before.fingerprint_of(hash);
        lemma_pow2_pos(r);
        lemma_entry_word_matches(fp as u64, r);
        let x = before.word_for(hash);
        assert(len_field(x) == r);
        assert(len_field(VOID_MARKER) == 128);
        before.lemma_views();
        lemma_removal_undoes_insertion(
            before.meta_view(),
            before.slots_view(),
            before.home@,
            before.num_slots as int,
            between.homes(),
            between.slots_view(),
            after.homes(),
            after.slots_view(),
            before.canonical_of(hash) as int,
            x,
            fp as u64,
            r as u8,
        );
    }

    /// Removes one entry that may stand for the key (see `delete_hash`; the
    /// key's hash is its xxHash3 value).
    pub fn delete(&mut self, key: &[u8]) -> (deleted: bool)
        requires
            old(self).wf(),
        ensures
            final(self).wf(),
            final(self).spec_capacity() == old(self).spec_capacity(),
            final(self).spec_quotient_bits() == old(self).spec_quotient_bits(),
            final(self).spec_expansions() == old(self).spec_expansions(),
            final(self).spec_base_fp_bits() == old(self).spec_base_fp_bits(),
            deleted ==> final(self).spec_len() == if old(self).spec_len() > 0 { old(self).spec_len() - 1 } else { 0 },
            !deleted ==> *final(self) == *old(self),
            deleted == old(self).scan_finds(xxh3_64_of(key@)),
            old(self).layout_ok() ==> {
                &&& final(self).layout_ok()
                &&& (deleted <==> old(self).may_hold(xxh3_64_of(key@)))
                &&& (deleted ==> deleted_entry(
                    old(self).homes(),
                    old(self).slots_view(),
                    final(self).homes(),
                    final(self).slots_view(),
                    old(self).canonical_of(xxh3_64_of(key@)) as int,
                    old(self).fingerprint_of(xxh3_64_of(key@)) as u64,
                    old(self).spec_fp_bits() as u8,
                ))
                &&& (deleted ==> forall|k: u64| #[trigger] old(self).may_hold_apart(k, xxh3_64_of(key@))
                    ==> final(self).may_hold(k))
            },
            old(self).valid() ==> final(self).valid(),
    {
        let hash: u64 = hash_key(key);
        self.delete_hash(hash)
    }
}

} // verus!
