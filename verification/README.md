# aleph_filter

An Aleph filter: a quotient filter for approximate membership that doubles
its slot count when it reaches a load of 4/5, giving one fingerprint bit of
every entry to the slot address. Entries whose fingerprint bits run out
become void entries, which match every key of their slot and are copied to
both possible slots at the next doubling.

The library is written in Verus. Every function in `src/` is verified except
one: `hash_key` in `src/hash.rs`, a trusted wrapper around
`xxhash_rust::xxh3::xxh3_64` whose contract only says that the result is
that function of the key's bytes.

## Layout

- `src/slot.rs`: a slot word packing a fingerprint and its length, with the
  void and tombstone markers; matching a query fingerprint.
- `src/metadata.rs`: the occupied / continuation / shifted flags of a slot.
- `src/hash.rs`: the xxHash3 value of a key (the one call into `xxhash-rust`)
  and its split into quotient and fingerprint.
- `src/layout.rs`: the sound layout of a quotient-filter table, in the
  abstract (slot flags, words and the home of each entry), and what an
  insertion or deletion does to it.
- `src/removal.rs`: the steps of a deletion and why they keep the layout.
- `src/room.rs`: why an insertion finds an empty slot, and why rebuilding a
  doubled table never runs out of slots.
- `src/census.rs`: counting the entries of a table by home and word, and
  how many of each a rebuild places.
- `src/aleph_filter.rs`: the filter itself: insertion, lookup, deletion and
  expansion.
- `app/lib.rs`: what stays outside the verified library: sizing the
  fingerprint from a target false positive rate, and the load factor (both
  floating point).

## What is proved

- Every operation keeps the table's layout sound and every stored fingerprint
  at the current width.
- A lookup answers exactly whether some entry of the key's canonical slot
  matches the key's fingerprint.
- After an insertion the key is found, and every key found before is still
  found, across expansions too; inserting into a sound filter at the load
  threshold always succeeds, and below it succeeds exactly when some slot at
  or after the key's canonical slot is empty.
- An expansion rebuilds the table exactly from the images of the old entries:
  each entry with a fingerprint gives one entry (duplicates stay duplicates),
  and each slot that a void entry reaches gets exactly one void marker.
- The capacity is the initial capacity doubled once per expansion, and the
  fingerprint width is the initial width less one bit per expansion.
- A deletion succeeds exactly when the key may be present, removes the last
  matching entry of its run, and keeps every other key that some other entry
  stands for; deleting a key right after inserting it gives back the same
  table.
- A deletion takes out exactly one entry, counted by home and word.
- In every state, a sound layout or not, a deletion succeeds exactly when a
  lookup of the same key answers yes: both read the same run the same way.
