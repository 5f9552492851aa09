//! Room in a table.
//!
//! An insertion for home `c` fails only when every slot from `c` to the end
//! of the table is filled. Then the cluster holding `c` reaches the end, so
//! for the slot `x` where that cluster starts, at least `total - x` entries
//! have a home at or after `x`. Bounding how many entries can have a home at
//! or after each slot therefore guarantees room; a rebuild that doubles the
//! table stays within such bounds, which is why it never runs out of slots.

use vstd::prelude::*;
use crate::layout::{layout_ok, pos_ok, next_empty, lemma_next_empty, meta_empty, shift_insert, inserted_entry};

verus! {

/// The number of items of `s` that are at least `x`.
pub open spec fn count_ge(s: Seq<int>, x: int) -> nat
    decreases s.len(),
{
    if s.len() == 0 {
        0
    } else {
        count_ge(s.drop_last(), x) + (if s.last() >= x { 1nat } else { 0nat })
    }
}

/// The number of items of `s` equal to `v`.
pub open spec fn count_eq(s: Seq<int>, v: int) -> nat
    decreases s.len(),
{
    if s.len() == 0 {
        0
    } else {
        count_eq(s.drop_last(), v) + (if s.last() == v { 1nat } else { 0nat })
    }
}

pub proof fn lemma_count_ge_push(s: Seq<int>, v: int, x: int)
    ensures
        count_ge(s.push(v), x) == count_ge(s, x) + (if v >= x { 1nat } else { 0nat }),
{
    assert(s.push(v).drop_last() =~= s);
}

pub proof fn lemma_count_ge_add(a: Seq<int>, b: Seq<int>, x: int)
    ensures
        count_ge(a + b, x) == count_ge(a, x) + count_ge(b, x),
    decreases b.len(),
{
    if b.len() == 0 {
        assert(a + b =~= a);
    } else {
        lemma_count_ge_add(a, b.drop_last(), x);
        assert((a + b).drop_last() =~= a + b.drop_last());
    }
}

pub proof fn lemma_count_ge_le_len(s: Seq<int>, x: int)
    ensures
        count_ge(s, x) <= s.len(),
    decreases s.len(),
{
    if s.len() > 0 {
        lemma_count_ge_le_len(s.drop_last(), x);
    }
}

/// When every item is at least `x`, all of them count.
pub proof fn lemma_count_ge_all(s: Seq<int>, x: int)
    requires
        forall|i: int| 0 <= i < s.len() ==> #[trigger] s[i] >= x,
    ensures
        count_ge(s, x) == s.len(),
    decreases s.len(),
{
    if s.len() > 0 {
        lemma_count_ge_all(s.drop_last(), x);
    }
}

/// Counting from a higher bound counts no more.
pub proof fn lemma_count_ge_mono(s: Seq<int>, x: int, y: int)
    requires
        x <= y,
    ensures
        count_ge(s, y) <= count_ge(s, x),
    decreases s.len(),
{
    if s.len() > 0 {
        lemma_count_ge_mono(s.drop_last(), x, y);
    }
}

/// The items at least `v` are those at least `v + 1` and those equal to `v`.
pub proof fn lemma_count_ge_step(s: Seq<int>, v: int)
    ensures
        count_ge(s, v) == count_ge(s, v + 1) + count_eq(s, v),
    decreases s.len(),
{
    if s.len() > 0 {
        lemma_count_ge_step(s.drop_last(), v);
    }
}

proof fn lemma_count_eq_absent(s: Seq<int>, v: int)
    requires
        !s.contains(v),
    ensures
        count_eq(s, v) == 0,
    decreases s.len(),
{
    if s.len() > 0 {
        assert(!s.drop_last().contains(v)) by {
            if s.drop_last().contains(v) {
                let i = choose|i: int| 0 <= i < s.drop_last().len() && s.drop_last()[i] == v;
                assert(s[i] == v);
            }
        }
        assert(s[s.len() - 1] != v);
        lemma_count_eq_absent(s.drop_last(), v);
    }
}

/// A sequence without repeats holds each value at most once.
pub proof fn lemma_count_eq_distinct(s: Seq<int>, v: int)
    requires
        s.no_duplicates(),
    ensures
        count_eq(s, v) <= 1,
    decreases s.len(),
{
    if s.len() > 0 {
        let t = s.drop_last();
        assert(t.no_duplicates()) by {
            assert forall|i: int, j: int| 0 <= i < t.len() && 0 <= j < t.len() && i != j implies t[i] != t[j] by {
                assert(s[i] != s[j]);
            }
        }
        lemma_count_eq_distinct(t, v);
        if s.last() == v {
            assert(!t.contains(v)) by {
                if t.contains(v) {
                    let i = choose|i: int| 0 <= i < t.len() && t[i] == v;
                    assert(s[i] == s[s.len() - 1]);
                }
            }
            lemma_count_eq_absent(t, v);
        }
    }
}

/// A sequence without repeats has at most `b - a` items in `[a, b)`.
pub proof fn lemma_count_ge_distinct(s: Seq<int>, a: int, b: int)
    requires
        s.no_duplicates(),
        a <= b,
    ensures
        count_ge(s, a) <= count_ge(s, b) + (b - a),
    decreases b - a,
{
    if a < b {
        lemma_count_ge_step(s, a);
        lemma_count_eq_distinct(s, a);
        lemma_count_ge_distinct(s, a + 1, b);
    }
}

/// Appending a value that is not there yet keeps a sequence free of repeats.
pub proof fn lemma_push_distinct(s: Seq<int>, v: int)
    requires
        s.no_duplicates(),
        !s.contains(v),
    ensures
        s.push(v).no_duplicates(),
{
    let t = s.push(v);
    assert forall|i: int, j: int| 0 <= i < t.len() && 0 <= j < t.len() && i != j implies t[i] != t[j] by {
        if i < s.len() && j < s.len() {
            assert(s[i] != s[j]);
        } else if i < s.len() {
            assert(s.contains(s[i]));
        } else {
            assert(s.contains(s[j]));
        }
    }
}

/// An insertion that moves entries into an empty slot adds its home to the count.
pub proof fn lemma_count_ge_shift_insert(h: Seq<int>, c: int, ip: int, z: int, x: int)
    requires
        0 <= ip <= z < h.len(),
        h[z] < x,
    ensures
        count_ge(shift_insert(h, c, ip, z), x) == count_ge(h, x) + (if c >= x { 1nat } else { 0nat }),
{
    let a = h.subrange(0, ip);
    let b = h.subrange(ip, z);
    let d = h.subrange(z + 1, h.len() as int);
    assert(shift_insert(h, c, ip, z) =~= a + seq![c] + b + d);
    assert(h =~= a + b + seq![h[z]] + d);
    lemma_count_ge_add(a + seq![c] + b, d, x);
    lemma_count_ge_add(a + seq![c], b, x);
    lemma_count_ge_add(a, seq![c], x);
    lemma_count_ge_add(a + b + seq![h[z]], d, x);
    lemma_count_ge_add(a + b, seq![h[z]], x);
    lemma_count_ge_add(a, b, x);
    lemma_count_ge_push(Seq::<int>::empty(), c, x);
    lemma_count_ge_push(Seq::<int>::empty(), h[z], x);
    assert(seq![c] =~= Seq::<int>::empty().push(c));
    assert(seq![h[z]] =~= Seq::<int>::empty().push(h[z]));
}

/// Walking back from a filled slot reaches the start of its cluster: a slot
/// that holds an entry at its home, with every slot in between filled.
pub proof fn lemma_cluster_root(m: Seq<u8>, w: Seq<u64>, h: Seq<int>, n: int, p: int) -> (x: int)
    requires
        layout_ok(m, w, h, n),
        0 <= p < h.len(),
        h[p] >= 0,
    ensures
        0 <= x <= p,
        h[x] == x,
        forall|q: int| x <= q <= p ==> #[trigger] h[q] >= 0,
    decreases p,
{
    assert(pos_ok(m, w, h, n, p));
    if h[p] == p {
        p
    } else {
        let x = lemma_cluster_root(m, w, h, n, p - 1);
        x
    }
}

/// When no slot from `c` to the end is empty, the entries with a home at or
/// after the start `x` of `c`'s cluster fill every slot from `x` on.
pub proof fn lemma_full_tail(m: Seq<u8>, w: Seq<u64>, h: Seq<int>, n: int, c: int) -> (x: int)
    requires
        layout_ok(m, w, h, n),
        0 <= c < h.len(),
        next_empty(m, c) >= h.len(),
    ensures
        0 <= x <= c,
        count_ge(h, x) >= h.len() - x,
{
    lemma_next_empty(m, c);
    assert(!meta_empty(m[c]));
    assert(pos_ok(m, w, h, n, c));
    let x = lemma_cluster_root(m, w, h, n, c);
    let t = h.subrange(x, h.len() as int);
    assert forall|i: int| 0 <= i < t.len() implies #[trigger] t[i] >= x by {
        let q = x + i;
        assert(t[i] == h[q]);
        if q > c {
            assert(!meta_empty(m[q]));
            assert(pos_ok(m, w, h, n, q));
        }
        assert(h[q] >= 0);
        if q > x {
            assert(h[x] <= h[q]);
        }
    }
    lemma_count_ge_all(t, x);
    lemma_count_ge_add(h.subrange(0, x), t, x);
    assert(h =~= h.subrange(0, x) + t);
    x
}

/// A sound table with fewer entries of home at or after each slot `x` below
/// `n` than slots from `x` on has room for an entry of any home below `n`.
pub proof fn lemma_room_fits(m: Seq<u8>, w: Seq<u64>, h: Seq<int>, n: int, c: int)
    requires
        layout_ok(m, w, h, n),
        0 <= c < n,
        n <= h.len(),
        forall|x: int| 0 <= x < n ==> #[trigger] count_ge(h, x) + x < h.len(),
    ensures
        next_empty(m, c) < h.len(),
{
    if next_empty(m, c) >= h.len() {
        let x = lemma_full_tail(m, w, h, n, c);
        assert(count_ge(h, x) + x < h.len());
    }
}

/// The number of the first `k` listed entries whose home is at least `y`.
pub open spec fn count_listed(e: Seq<(usize, u64, u8, bool, usize)>, k: int, y: int) -> nat
    decreases k,
{
    if k <= 0 {
        0
    } else {
        count_listed(e, k - 1, y) + (if e[k - 1].0 >= y { 1nat } else { 0nat })
    }
}

pub proof fn lemma_count_listed_mono(e: Seq<(usize, u64, u8, bool, usize)>, k: int, k2: int, y: int)
    requires
        0 <= k <= k2,
    ensures
        count_listed(e, k, y) <= count_listed(e, k2, y),
    decreases k2 - k,
{
    if k < k2 {
        lemma_count_listed_mono(e, k, k2 - 1, y);
    }
}

/// Listed entries at increasing positions, each at or after its home, that
/// have a home at least `y` number at most the positions from `y` to the
/// last listed one.
proof fn lemma_count_listed_prefix(e: Seq<(usize, u64, u8, bool, usize)>, k: int, y: int)
    requires
        0 <= k <= e.len(),
        forall|j: int, l: int| 0 <= j < l < e.len() ==> (#[trigger] e[j]).4 < (#[trigger] e[l]).4,
        forall|j: int| 0 <= j < e.len() ==> (#[trigger] e[j]).0 <= e[j].4,
    ensures
        k > 0 ==> count_listed(e, k, y) + y <= e[k - 1].4 + 1 || count_listed(e, k, y) == 0,
    decreases k,
{
    if k > 1 {
        lemma_count_listed_prefix(e, k - 1, y);
        assert(e[k - 2].4 < e[k - 1].4);
        assert(e[k - 1].0 <= e[k - 1].4);
    } else if k == 1 {
        assert(count_listed(e, 0, y) == 0);
        assert(e[0].0 <= e[0].4);
    }
}

/// The listed entries with a home at least `y` number at most `total - y`.
pub proof fn lemma_count_listed_bound(e: Seq<(usize, u64, u8, bool, usize)>, y: int, total: int)
    requires
        0 <= y <= total,
        forall|j: int, l: int| 0 <= j < l < e.len() ==> (#[trigger] e[j]).4 < (#[trigger] e[l]).4,
        forall|j: int| 0 <= j < e.len() ==> (#[trigger] e[j]).0 <= e[j].4,
        forall|j: int| 0 <= j < e.len() ==> (#[trigger] e[j]).4 < total,
    ensures
        count_listed(e, e.len() as int, y) + y <= total,
{
    lemma_count_listed_prefix(e, e.len() as int, y);
    if e.len() > 0 {
        assert(e[e.len() - 1].4 < total);
    }
}

/// What a rebuild has placed after `k` listed entries: the images `snv` of
/// entries with a fingerprint and the images `sv` of void entries (each slot
/// at most once). Each entry adds at most one image in the upper half
/// (`n` on), and only when its home is high enough.
pub open spec fn rebuild_bounds(
    snv: Seq<int>,
    sv: Seq<int>,
    e: Seq<(usize, u64, u8, bool, usize)>,
    k: int,
    n: int,
) -> bool {
    &&& snv.len() + count_ge(sv, n) <= k
    &&& forall|x: int| n <= x ==> #[trigger] count_ge(snv, x) + count_ge(sv, x) <= count_listed(e, k, x - n)
    &&& sv.no_duplicates()
}

/// Within the bounds, at most `old_total + n - x` images lie at or after
/// each slot `x` of the doubled table: two fewer than the slots from `x` on,
/// since the doubled table has `n + 2` more slots than the old one.
pub proof fn lemma_rebuild_room(
    snv: Seq<int>,
    sv: Seq<int>,
    e: Seq<(usize, u64, u8, bool, usize)>,
    k: int,
    n: int,
    old_total: int,
    x: int,
)
    requires
        rebuild_bounds(snv, sv, e, k, n),
        0 <= k <= e.len(),
        e.len() <= old_total,
        n <= old_total,
        0 <= x < 2 * n,
        forall|y: int| 0 <= y <= old_total ==> #[trigger] count_listed(e, e.len() as int, y) + y <= old_total,
    ensures
        count_ge(snv, x) + count_ge(sv, x) + x <= old_total + n,
{
    if x >= n {
        assert(count_ge(snv, x) + count_ge(sv, x) <= count_listed(e, k, x - n));
        lemma_count_listed_mono(e, k, e.len() as int, x - n);
        assert(count_listed(e, e.len() as int, x - n) + (x - n) <= old_total);
    } else {
        lemma_count_ge_le_len(snv, x);
        lemma_count_ge_distinct(sv, x, n);
    }
}


/// When every item is below `x`, none counts.
pub proof fn lemma_count_ge_none(s: Seq<int>, x: int)
    requires
        forall|i: int| 0 <= i < s.len() ==> #[trigger] s[i] < x,
    ensures
        count_ge(s, x) == 0,
    decreases s.len(),
{
    if s.len() > 0 {
        lemma_count_ge_none(s.drop_last(), x);
    }
}

/// The bounds after `k` entries hold after any later count of entries too.
pub proof fn lemma_bounds_grow(
    snv: Seq<int>,
    sv: Seq<int>,
    e: Seq<(usize, u64, u8, bool, usize)>,
    k: int,
    k2: int,
    n: int,
)
    requires
        rebuild_bounds(snv, sv, e, k, n),
        0 <= k <= k2,
    ensures
        rebuild_bounds(snv, sv, e, k2, n),
{
    assert forall|x: int| n <= x implies #[trigger] count_ge(snv, x) + count_ge(sv, x) <= count_listed(e, k2, x - n) by {
        lemma_count_listed_mono(e, k, k2, x - n);
    }
}

/// A void image in the lower half, not placed before, keeps the bounds.
pub proof fn lemma_bounds_low_void(
    snv: Seq<int>,
    sv: Seq<int>,
    e: Seq<(usize, u64, u8, bool, usize)>,
    k: int,
    n: int,
    v: int,
)
    requires
        rebuild_bounds(snv, sv, e, k, n),
        v < n,
        !sv.contains(v),
    ensures
        rebuild_bounds(snv, sv.push(v), e, k, n),
{
    lemma_count_ge_push(sv, v, n);
    lemma_push_distinct(sv, v);
    assert forall|x: int| n <= x implies #[trigger] count_ge(snv, x) + count_ge(sv.push(v), x) <= count_listed(
        e,
        k,
        x - n,
    ) by {
        lemma_count_ge_push(sv, v, x);
    }
}

/// The upper-half void image of listed entry `k`, not placed before, keeps
/// the bounds once that entry counts.
pub proof fn lemma_bounds_high_void(
    snv: Seq<int>,
    sv: Seq<int>,
    e: Seq<(usize, u64, u8, bool, usize)>,
    k: int,
    n: int,
)
    requires
        rebuild_bounds(snv, sv, e, k, n),
        0 <= k < e.len(),
        !sv.contains(e[k].0 + n),
    ensures
        rebuild_bounds(snv, sv.push(e[k].0 + n), e, k + 1, n),
{
    let v = e[k].0 + n;
    lemma_count_ge_push(sv, v, n);
    lemma_push_distinct(sv, v);
    assert forall|x: int| n <= x implies #[trigger] count_ge(snv, x) + count_ge(sv.push(v), x) <= count_listed(
        e,
        k + 1,
        x - n,
    ) by {
        lemma_count_ge_push(sv, v, x);
    }
}

/// The image of listed entry `k` with a fingerprint, at its home plus `bit`
/// times `n`, keeps the bounds once that entry counts.
pub proof fn lemma_bounds_image(
    snv: Seq<int>,
    sv: Seq<int>,
    e: Seq<(usize, u64, u8, bool, usize)>,
    k: int,
    n: int,
    bit: int,
)
    requires
        rebuild_bounds(snv, sv, e, k, n),
        0 <= k < e.len(),
        e[k].0 < n,
        bit == 0 || bit == 1,
    ensures
        rebuild_bounds(snv.push(e[k].0 + bit * n), sv, e, k + 1, n),
{
    let v = e[k].0 + bit * n;
    assert forall|x: int| n <= x implies #[trigger] count_ge(snv.push(v), x) + count_ge(sv, x) <= count_listed(
        e,
        k + 1,
        x - n,
    ) by {
        lemma_count_ge_push(snv, v, x);
    }
}

/// An image `c` added to the placed images finds room in the doubled table
/// while the bounds hold.
pub proof fn lemma_rebuild_fits(
    m: Seq<u8>,
    w: Seq<u64>,
    h: Seq<int>,
    snv: Seq<int>,
    sv: Seq<int>,
    to_void: bool,
    c: int,
    e: Seq<(usize, u64, u8, bool, usize)>,
    k: int,
    n: int,
    old_total: int,
)
    requires
        layout_ok(m, w, h, 2 * n),
        h.len() == old_total + n + 2,
        0 <= c < 2 * n,
        forall|x: int| 0 <= x ==> #[trigger] count_ge(h, x) == count_ge(snv, x) + count_ge(sv, x),
        rebuild_bounds(
            if to_void { snv } else { snv.push(c) },
            if to_void { sv.push(c) } else { sv },
            e,
            k,
            n,
        ),
        0 <= k <= e.len(),
        e.len() <= old_total,
        n <= old_total,
        forall|y: int| 0 <= y <= old_total ==> #[trigger] count_listed(e, e.len() as int, y) + y <= old_total,
    ensures
        next_empty(m, c) < h.len(),
{
    let snv2 = if to_void { snv } else { snv.push(c) };
    let sv2 = if to_void { sv.push(c) } else { sv };
    assert forall|x: int| 0 <= x < 2 * n implies #[trigger] count_ge(h, x) + x < h.len() by {
        lemma_rebuild_room(snv2, sv2, e, k, n, old_total, x);
        lemma_count_ge_push(snv, c, x);
        lemma_count_ge_push(sv, c, x);
    }
    lemma_room_fits(m, w, h, 2 * n, c);
}

/// After the image `c` is inserted, the table's home counts are those of
/// the placed images with `c` added.
pub proof fn lemma_rebuild_count(
    h0: Seq<int>,
    w0: Seq<u64>,
    h1: Seq<int>,
    w1: Seq<u64>,
    word: u64,
    snv: Seq<int>,
    sv: Seq<int>,
    to_void: bool,
    c: int,
)
    requires
        inserted_entry(h0, w0, h1, w1, c, word),
        forall|x: int| 0 <= x ==> #[trigger] count_ge(h0, x) == count_ge(snv, x) + count_ge(sv, x),
    ensures
        forall|x: int|
            0 <= x ==> #[trigger] count_ge(h1, x) == count_ge(if to_void { snv } else { snv.push(c) }, x) + count_ge(
                if to_void { sv.push(c) } else { sv },
                x,
            ),
{
    let (ip, z) = choose|ip: int, z: int|
        0 <= ip <= z < h0.len() && h0[z] < 0 && h1 == #[trigger] shift_insert(h0, c, ip, z) && w1 == shift_insert(
            w0,
            word,
            ip,
            z,
        );
    assert forall|x: int| 0 <= x implies #[trigger] count_ge(h1, x) == count_ge(
        if to_void { snv } else { snv.push(c) },
        x,
    ) + count_ge(if to_void { sv.push(c) } else { sv }, x) by {
        lemma_count_ge_shift_insert(h0, c, ip, z, x);
        lemma_count_ge_push(snv, c, x);
        lemma_count_ge_push(sv, c, x);
    }
}

/// A table with at most `total - x - 2` entries of home at or after each
/// slot `x` below `n` has room for an entry of any home below `n`.
pub proof fn lemma_roomy_fits(m: Seq<u8>, w: Seq<u64>, h: Seq<int>, n: int, c: int)
    requires
        layout_ok(m, w, h, n),
        0 <= c < n,
        n <= h.len(),
        forall|x: int| 0 <= x < n ==> #[trigger] count_ge(h, x) + x + 2 <= h.len(),
    ensures
        next_empty(m, c) < h.len(),
{
    lemma_room_fits(m, w, h, n, c);
}


/// An insertion of an entry of home `c >= x` adds one to the count from `x`.
pub proof fn lemma_inserted_count(h0: Seq<int>, w0: Seq<u64>, h1: Seq<int>, w1: Seq<u64>, c: int, word: u64, x: int)
    requires
        inserted_entry(h0, w0, h1, w1, c, word),
        0 <= x,
    ensures
        count_ge(h1, x) == count_ge(h0, x) + (if c >= x { 1nat } else { 0nat }),
{
    let (ip, z) = choose|ip: int, z: int|
        0 <= ip <= z < h0.len() && h0[z] < 0 && h1 == #[trigger] shift_insert(h0, c, ip, z) && w1 == shift_insert(
            w0,
            word,
            ip,
            z,
        );
    lemma_count_ge_shift_insert(h0, c, ip, z, x);
}

} // verus!
