use aleph_filter::hash::{combine_hash, hash_key, quotient_bits_for_slots, split_hash};
use aleph_filter::metadata::SlotMetadata;
use aleph_filter::slot::{Slot, TOMBSTONE_MARKER, VOID_MARKER};
use aleph_filter::AlephFilter;

// ---------------------------------------------------------------------------
// Slots
// ---------------------------------------------------------------------------

#[test]
fn slot_packs_fingerprint_and_length() {
    let s = Slot::new(5, 3);
    assert_eq!(s.raw(), 0x0300_0000_0000_0005);
    assert_eq!(s.fingerprint(), 5);
    assert_eq!(s.length(), 3);
    assert!(s.has_fingerprint());
    assert!(!s.is_empty());
    assert!(!s.is_void());
    assert!(!s.is_tombstone());
}

#[test]
fn slot_new_masks_high_fingerprint_bits() {
    let s = Slot::new(0xFF00_0000_0000_0001, 8);
    assert_eq!(s.fingerprint(), 1);
    assert_eq!(s.length(), 8);
}

#[test]
fn slot_markers() {
    assert!(Slot::empty().is_empty());
    assert_eq!(Slot::empty().raw(), 0);
    assert!(Slot::void_marker().is_void());
    assert_eq!(Slot::void_marker().raw(), VOID_MARKER);
    assert_eq!(Slot::void_marker().length(), 0);
    assert!(!Slot::void_marker().has_fingerprint());
    assert!(Slot::tombstone().is_tombstone());
    assert_eq!(Slot::tombstone().raw(), TOMBSTONE_MARKER);
    assert!(!Slot::tombstone().has_fingerprint());
    // A non-empty word with a zero length field counts as void.
    assert!(Slot::from_raw(5).is_void());
    assert!(Slot::from_raw(0x0300_0000_0000_0005) == Slot::new(5, 3));
}

#[test]
fn slot_matching() {
    let s = Slot::new(0xFF, 4);
    assert!(s.matches(0x0F, 4));
    assert!(!s.matches(0x0E, 4));
    // The longer fingerprint drops its low bits down to the shorter length.
    assert!(s.matches(0xF3, 8));
    assert!(!s.matches(0x1F, 8));
    assert!(s.matches(0x3, 2));
    assert!(!s.matches(0x2, 2));
    // A stored 0b110 (3 bits) matches the query 0b1101 (4 bits).
    assert!(Slot::new(0b110, 3).matches(0b1101, 4));
    assert!(!Slot::new(0b110, 3).matches(0b0111, 4));
    assert!(Slot::void_marker().matches(12345, 10));
    assert!(!Slot::tombstone().matches(0, 0));
    assert!(!Slot::empty().matches(0, 0));
}

#[test]
fn slot_steal_bit() {
    let mut s = Slot::new(0b101, 3);
    assert_eq!(s.steal_bit(), Some(1));
    assert_eq!(s.fingerprint(), 0b10);
    assert_eq!(s.length(), 2);
    assert_eq!(s.steal_bit(), Some(0));
    assert!(s == Slot::new(1, 1));
    assert_eq!(s.steal_bit(), Some(1));
    assert!(s.is_void());
    assert_eq!(s.steal_bit(), None);
    assert!(s.is_void());

    let mut e = Slot::empty();
    assert_eq!(e.steal_bit(), None);
    assert!(e.is_empty());
    let mut t = Slot::tombstone();
    assert_eq!(t.steal_bit(), None);
    assert!(t.is_tombstone());
}

// ---------------------------------------------------------------------------
// Metadata
// ---------------------------------------------------------------------------

#[test]
fn metadata_flags() {
    let m = SlotMetadata::new();
    assert!(m.is_empty());
    assert_eq!(m.raw(), 0);
    // Bits beyond the three flags are no flag.
    assert!(SlotMetadata::from_raw(8).is_empty());
    assert!(!SlotMetadata::from_raw(9).is_empty());

    let mut m = SlotMetadata::with_flags(true, false, true);
    assert_eq!(m.raw(), 5);
    assert!(m.is_occupied());
    assert!(!m.is_continuation());
    assert!(m.is_shifted());
    assert!(!m.is_cluster_start());
    assert!(m.is_run_start());
    assert!(m.has_data());

    m.set_continuation(true);
    assert_eq!(m.raw(), 7);
    assert!(!m.is_run_start());
    m.set_shifted(false);
    assert_eq!(m.raw(), 3);
    m.set_occupied(false);
    assert_eq!(m.raw(), 2);
    m.set_occupied(true);
    assert!(m.is_cluster_start());
    assert!(!m.is_run_start());
    m.set_continuation(false);
    assert!(m.is_run_start());
    m.clear();
    assert!(m.is_empty());
}

#[test]
fn metadata_setters_keep_other_bits() {
    let mut m = SlotMetadata::from_raw(0b1111_1000);
    m.set_occupied(true);
    assert_eq!(m.raw(), 0b1111_1001);
    m.set_shifted(true);
    assert_eq!(m.raw(), 0b1111_1101);
    m.set_occupied(false);
    assert_eq!(m.raw(), 0b1111_1100);
    assert!(m.has_data());
}

// ---------------------------------------------------------------------------
// Hashing
// ---------------------------------------------------------------------------

#[test]
fn hash_key_is_xxh3() {
    assert_eq!(hash_key(b"hello"), xxhash_rust::xxh3::xxh3_64(b"hello"));
    assert_eq!(hash_key(b""), xxhash_rust::xxh3::xxh3_64(b""));
    assert_ne!(hash_key(b"hello"), hash_key(b"world"));
}

#[test]
fn split_hash_exact() {
    assert_eq!(split_hash(0b1011_0110, 4, 3), (0b0110, 0b011));
    assert_eq!(split_hash(u64::MAX, 0, 64), (0, u64::MAX));
    assert_eq!(split_hash(u64::MAX, 63, 8), ((1u64 << 63) - 1, 1));
}

#[test]
fn combine_hash_exact() {
    assert_eq!(combine_hash(6, 3, 4), 0b0011_0110);
    assert_eq!(combine_hash(0, 1, 63), 1u64 << 63);
}

#[test]
fn split_then_combine_round_trip() {
    let h: u64 = 0xDEAD_BEEF_1234_5678;
    let (q, r) = split_hash(h, 12, 52);
    assert_eq!(combine_hash(q, r, 12), h);
    let (q2, r2) = split_hash(combine_hash(0x0ABC, 0x1234, 12), 12, 52);
    assert_eq!((q2, r2), (0x0ABC, 0x1234));
}

#[test]
fn quotient_bits_for_slot_counts() {
    assert_eq!(quotient_bits_for_slots(0), 1);
    assert_eq!(quotient_bits_for_slots(1), 0);
    assert_eq!(quotient_bits_for_slots(2), 1);
    assert_eq!(quotient_bits_for_slots(8), 3);
    assert_eq!(quotient_bits_for_slots(9), 4);
    assert_eq!(quotient_bits_for_slots(10), 4);
    assert_eq!(quotient_bits_for_slots(1024), 10);
}

// ---------------------------------------------------------------------------
// Construction
// ---------------------------------------------------------------------------

#[test]
fn new_sizes_for_four_fifths_load() {
    let f = AlephFilter::new(100, 7);
    assert_eq!(f.capacity(), 128);
    assert_eq!(f.quotient_bits(), 7);
    assert_eq!(f.fp_bits(), 7);
    assert_eq!(f.num_expansions(), 0);
    assert!(f.is_empty());

    // ceil(5 * 103 / 4) = 129 needs 256 slots.
    assert_eq!(AlephFilter::new(103, 7).capacity(), 256);
    assert_eq!(AlephFilter::new(1, 8).capacity(), 8);
    assert_eq!(AlephFilter::new(1, 8).quotient_bits(), 3);
}

#[test]
fn with_params_rounds_up() {
    assert_eq!(AlephFilter::with_params(0, 4).capacity(), 8);
    assert_eq!(AlephFilter::with_params(8, 4).capacity(), 8);
    assert_eq!(AlephFilter::with_params(9, 4).capacity(), 16);
    assert_eq!(AlephFilter::with_params(10, 8).capacity(), 16);
    assert_eq!(AlephFilter::with_params(10, 8).quotient_bits(), 4);
    assert_eq!(AlephFilter::with_params(10, 8).fp_bits(), 8);
}

// ---------------------------------------------------------------------------
// Insert, query, delete
// ---------------------------------------------------------------------------

#[test]
fn insert_hash_reports_success() {
    let mut f = AlephFilter::with_params(8, 8);
    assert!(f.insert_hash(0x1234_5678));
    assert!(f.contains_hash(0x1234_5678));
    assert_eq!(f.len(), 1);
}

#[test]
fn contains_agrees_with_contains_hash() {
    let mut f = AlephFilter::new(50, 10);
    for i in 0..20u32 {
        f.insert(format!("k{}", i).as_bytes());
    }
    for i in 0..40u32 {
        let key = format!("k{}", i);
        assert_eq!(f.contains(key.as_bytes()), f.contains_hash(xxhash_rust::xxh3::xxh3_64(key.as_bytes())));
    }
}

#[test]
fn same_slot_entries_share_a_run() {
    // Hashes with the same low bits share a canonical slot.
    let mut f = AlephFilter::with_params(8, 8);
    let a: u64 = (0x11 << 3) | 5;
    let b: u64 = (0x22 << 3) | 5;
    let c: u64 = (0x33 << 3) | 6;
    assert!(f.insert_hash(a));
    assert!(f.insert_hash(b));
    assert!(f.insert_hash(c));
    assert!(f.contains_hash(a));
    assert!(f.contains_hash(b));
    assert!(f.contains_hash(c));
    assert!(!f.contains_hash((0x44 << 3) | 5));
    assert!(!f.contains_hash((0x11 << 3) | 4));
}

#[test]
fn delete_hash_succeeds_exactly_when_held() {
    let mut f = AlephFilter::with_params(8, 8);
    assert!(!f.delete_hash(42));
    assert_eq!(f.len(), 0);
    assert!(f.insert_hash(42));
    assert!(f.delete_hash(42));
    assert!(!f.contains_hash(42));
    assert!(!f.delete_hash(42));
    assert_eq!(f.len(), 0);
}

#[test]
fn delete_keeps_other_entries_of_the_cluster() {
    let mut f = AlephFilter::with_params(8, 8);
    // Three runs in one cluster: slots 2, 2, 3, 3, 4.
    let keys: [u64; 5] = [(1 << 3) | 2, (2 << 3) | 2, (3 << 3) | 3, (4 << 3) | 3, (5 << 3) | 4];
    for k in keys.iter() {
        assert!(f.insert_hash(*k));
    }
    assert!(f.delete_hash(keys[0]));
    assert!(!f.contains_hash(keys[0]));
    for k in keys[1..].iter() {
        assert!(f.contains_hash(*k));
    }
    assert!(f.delete_hash(keys[2]));
    assert!(f.contains_hash(keys[1]));
    assert!(f.contains_hash(keys[3]));
    assert!(f.contains_hash(keys[4]));
    assert_eq!(f.len(), 3);
    // The remaining entries can still be deleted one by one.
    assert!(f.delete_hash(keys[4]));
    assert!(f.delete_hash(keys[3]));
    assert!(f.delete_hash(keys[1]));
    assert!(f.is_empty());
    for k in keys.iter() {
        assert!(!f.contains_hash(*k));
    }
}

#[test]
fn len_saturates_at_zero() {
    let mut f = AlephFilter::with_params(8, 8);
    assert!(f.insert_hash(7));
    assert!(f.insert_hash(7));
    assert_eq!(f.len(), 2);
    assert!(f.delete_hash(7));
    assert_eq!(f.len(), 1);
    assert!(f.contains_hash(7));
    assert!(f.delete_hash(7));
    assert_eq!(f.len(), 0);
}

#[test]
fn void_entries_match_everything_until_tombstoned() {
    let mut f = AlephFilter::with_params(8, 0);
    assert_eq!(f.fp_bits(), 0);
    let h: u64 = (0x77 << 3) | 1;
    assert!(f.insert_hash(h));
    assert!(f.contains_hash(h));
    // Any hash with the same canonical slot matches a void entry.
    assert!(f.contains_hash((0x55 << 3) | 1));
    assert!(!f.contains_hash((0x55 << 3) | 2));
    assert!(f.delete_hash(h));
    assert!(!f.contains_hash(h));
    assert!(!f.delete_hash(h));
}

// ---------------------------------------------------------------------------
// Load and expansion
// ---------------------------------------------------------------------------

#[test]
fn over_load_at_four_fifths() {
    let mut f = AlephFilter::with_params(8, 8);
    for i in 0..6u64 {
        assert!(f.insert_hash(i * 11));
        assert!(!f.is_over_load());
    }
    // 7 items in 8 slots: 5 * 7 >= 4 * 8.
    assert!(f.insert_hash(66));
    assert!(f.is_over_load());
    assert_eq!(f.num_expansions(), 0);
}

#[test]
fn expansion_doubles_and_keeps_entries() {
    let mut f = AlephFilter::with_params(8, 8);
    let hashes: Vec<u64> = (0..7u64).map(|i| i * 0x0101_0101 + 3).collect();
    for h in hashes.iter() {
        assert!(f.insert_hash(*h));
    }
    assert_eq!(f.capacity(), 8);
    assert!(f.insert_hash(999));
    assert_eq!(f.num_expansions(), 1);
    assert_eq!(f.capacity(), 16);
    assert_eq!(f.quotient_bits(), 4);
    assert_eq!(f.fp_bits(), 7);
    // Seven entries re-inserted, one new.
    assert_eq!(f.len(), 8);
    for h in hashes.iter() {
        assert!(f.contains_hash(*h));
    }
    assert!(f.contains_hash(999));
}

#[test]
fn expansion_keeps_duplicates() {
    // Canonical slot 2, fingerprint 5, inserted twice.
    let mut f = AlephFilter::with_params(8, 8);
    let dup: u64 = (5 << 3) | 2;
    assert!(f.insert_hash(dup));
    assert!(f.insert_hash(dup));
    for i in [0u64, 1, 3, 4, 6] {
        assert!(f.insert_hash(((i + 7) << 3) | i));
    }
    assert_eq!(f.len(), 7);
    // The eighth insertion expands; both copies move to slot 10 with the
    // 7-bit fingerprint 2.
    assert!(f.insert_hash((20 << 3) | 7));
    assert_eq!(f.num_expansions(), 1);
    assert_eq!(f.len(), 8);
    assert!(f.contains_hash(dup));
    assert!(f.delete_hash(dup));
    assert!(f.contains_hash(dup));
    assert!(f.delete_hash(dup));
    assert!(!f.contains_hash(dup));
    assert!(!f.delete_hash(dup));
    assert_eq!(f.len(), 6);
}

#[test]
fn fingerprints_run_out_into_voids() {
    let mut f = AlephFilter::with_params(8, 1);
    let hashes: Vec<u64> = (0..7u64).map(|i| (i << 3) | (i % 8)).collect();
    for h in hashes.iter() {
        assert!(f.insert_hash(*h));
    }
    // The eighth insertion expands: every 1-bit fingerprint gives its bit to
    // the address and becomes a void entry.
    assert!(f.insert_hash(0xABCD));
    assert_eq!(f.num_expansions(), 1);
    assert_eq!(f.fp_bits(), 0);
    assert_eq!(f.capacity(), 16);
    assert_eq!(f.len(), 8);
    for h in hashes.iter() {
        assert!(f.contains_hash(*h));
    }
    assert!(f.contains_hash(0xABCD));
}

#[test]
fn insert_then_delete_restores_answers() {
    let mut f = AlephFilter::with_params(64, 6);
    let present: Vec<u64> = (0..30u64).map(|i| i.wrapping_mul(0x9E37_79B9_7F4A_7C15)).collect();
    for h in present.iter() {
        assert!(f.insert_hash(*h));
    }
    let probes: Vec<u64> = (0..400u64).map(|i| i.wrapping_mul(0xD1B5_4A32_D192_ED03)).collect();
    let before: Vec<bool> = probes.iter().map(|h| f.contains_hash(*h)).collect();
    let len_before = f.len();
    let extra: u64 = 0x0123_4567_89AB_CDEF;
    assert!(f.insert_hash(extra));
    assert!(f.contains_hash(extra));
    assert!(f.delete_hash(extra));
    let after: Vec<bool> = probes.iter().map(|h| f.contains_hash(*h)).collect();
    assert_eq!(before, after);
    assert_eq!(f.len(), len_before);
    for h in present.iter() {
        assert!(f.contains_hash(*h));
    }
}

#[test]
fn insert_without_room_reports_failure() {
    // 1024 logical slots and 20 extension slots: 21 entries of canonical
    // slot 1023 fill every slot from 1023 to the end.
    let mut f = AlephFilter::with_params(1024, 8);
    for i in 1..=21u64 {
        assert!(f.insert_hash((i << 10) | 1023));
    }
    assert!(!f.insert_hash((22 << 10) | 1023));
    assert_eq!(f.len(), 22);
    assert_eq!(f.num_expansions(), 0);
    for i in 1..=21u64 {
        assert!(f.contains_hash((i << 10) | 1023));
    }
    assert!(!f.contains_hash((22 << 10) | 1023));
    // Other canonical slots still have room.
    assert!(f.insert_hash((5 << 10) | 3));
    assert!(f.contains_hash((5 << 10) | 3));
}

#[test]
fn delete_answers_as_contains_after_failed_insert() {
    let mut f = AlephFilter::with_params(1024, 8);
    for i in 1..=21u64 {
        assert!(f.insert_hash((i << 10) | 1023));
    }
    assert!(!f.insert_hash((22 << 10) | 1023));
    for i in 0..40u64 {
        for low in [1021u64, 1022, 1023, 5] {
            let h = (i << 10) | low;
            let mut g = f.clone();
            assert_eq!(g.delete_hash(h), f.contains_hash(h));
        }
    }
}

#[test]
fn metadata_renders_flags() {
    assert_eq!(SlotMetadata::with_flags(true, false, true).to_flag_string(), "O-S");
    assert_eq!(SlotMetadata::with_flags(true, true, true).to_flag_string(), "OCS");
    assert_eq!(SlotMetadata::with_flags(false, true, false).to_flag_string(), "-C-");
    assert_eq!(SlotMetadata::new().to_flag_string(), "---");
    assert_eq!(
        SlotMetadata::with_flags(true, false, true).debug_string(),
        "SlotMetadata { occupied: true, continuation: false, shifted: true}"
    );
    assert_eq!(
        SlotMetadata::new().debug_string(),
        "SlotMetadata { occupied: false, continuation: false, shifted: false}"
    );
}
