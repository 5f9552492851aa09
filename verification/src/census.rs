//! Counting what a rebuild places.
//!
//! When the table doubles, every entry with a fingerprint becomes one image
//! in the new table, and every void entry reaches two slots, each of which
//! gets one void marker however many void entries reach it. These
//! definitions count the entries of a table by (home, word) pair and the
//! images of an old table, and the lemmas follow a rebuild that walks the
//! old entries in slot order. Counted the same way, a deletion takes out
//! exactly one entry.

use vstd::prelude::*;
use vstd::arithmetic::power2::pow2;
use crate::layout::{inserted_entry, shift_insert, deleted_entry, shift_remove, stretch_end};
use crate::slot::{
    spec_is_void, spec_is_tombstone, spec_length, spec_matches, fp_field, len_field, entry_word, VOID_MARKER,
    TOMBSTONE_MARKER,
};

verus! {

/// `(c, x)` is one of the entries that the entry of home `b` and word `w`
/// becomes when the quotient grows from `q` bits to `q + 1`: a void entry
/// goes as a void marker to `b` or to `b + 2^q`; an entry with a fingerprint
/// moves to `b` plus its lowest fingerprint bit times `2^q`, keeping its
/// other bits.
pub open spec fn expanded_image(b: int, w: u64, q: nat, c: int, x: u64) -> bool {
    if spec_is_void(w) {
        x == VOID_MARKER && (c == b || c == b + pow2(q))
    } else {
        len_field(w) > 0 && c == b + (fp_field(w) % 2) * pow2(q) && x == entry_word(
            fp_field(w) / 2,
            (len_field(w) - 1) as nat,
        )
    }
}

/// The number of slots holding an entry of home `c` with word `x`.
pub open spec fn pair_count(h: Seq<int>, w: Seq<u64>, c: int, x: u64) -> nat
    decreases h.len(),
{
    if h.len() == 0 {
        0
    } else {
        pair_count(h.drop_last(), w.drop_last(), c, x) + (if h.last() == c && w[h.len() - 1] == x {
            1nat
        } else {
            0nat
        })
    }
}

/// Slot `p` of a table holds an entry that is not a tombstone.
pub open spec fn live(h: Seq<int>, w: Seq<u64>, p: int) -> bool {
    0 <= p < h.len() && h[p] >= 0 && !spec_is_tombstone(w[p])
}

/// The number of entries with a fingerprint among the slots below `b` whose
/// image is `(c, x)`.
pub open spec fn image_count(h: Seq<int>, w: Seq<u64>, q: nat, b: int, c: int, x: u64) -> nat
    decreases b,
{
    if b <= 0 {
        0
    } else {
        image_count(h, w, q, b - 1, c, x) + (if live(h, w, b - 1) && !spec_is_void(w[b - 1]) && expanded_image(
            h[b - 1],
            w[b - 1],
            q,
            c,
            x,
        ) {
            1nat
        } else {
            0nat
        })
    }
}

/// Some void entry among the slots below `b` reaches slot `c`.
pub open spec fn void_reaches(h: Seq<int>, w: Seq<u64>, q: nat, b: int, c: int) -> bool {
    exists|p: int| 0 <= p < b && #[trigger] live(h, w, p) && spec_is_void(w[p]) && (c == h[p] || c == h[p] + pow2(q))
}

/// The table `(h, w)` holds, for each pair, one entry per image of an entry
/// with a fingerprint below slot `b` of the old table `(oh, ow)`, and one
/// void marker at each slot reached by a void entry below `b` or listed in
/// `extra`.
pub closed spec fn census(
    h: Seq<int>,
    w: Seq<u64>,
    oh: Seq<int>,
    ow: Seq<u64>,
    q: nat,
    b: int,
    extra: Set<int>,
) -> bool {
    forall|c: int, x: u64|
        c >= 0 ==> #[trigger] pair_count(h, w, c, x) == image_count(oh, ow, q, b, c, x) + (if x == VOID_MARKER && (
        void_reaches(oh, ow, q, b, c) || extra.contains(c)) {
            1nat
        } else {
            0nat
        })
}

/// `e` lists the live entries of the table `(h, w)` of `t` slots in slot
/// order: (home, fingerprint, length, void, position).
pub closed spec fn lists(h: Seq<int>, w: Seq<u64>, e: Seq<(usize, u64, u8, bool, usize)>, t: int) -> bool {
    &&& h.len() == t
    &&& w.len() == t
    &&& forall|j: int|
        0 <= j < e.len() ==> {
            let p = (#[trigger] e[j]).4 as int;
            &&& live(h, w, p)
            &&& e[j].0 as int == h[p]
            &&& e[j].1 == fp_field(w[p])
            &&& e[j].2 == spec_length(w[p])
            &&& e[j].3 == spec_is_void(w[p])
        }
    &&& forall|j: int, l: int| 0 <= j < l < e.len() ==> (#[trigger] e[j]).4 < (#[trigger] e[l]).4
    &&& forall|p: int| live(h, w, p) ==> exists|j: int| 0 <= j < e.len() && (#[trigger] e[j]).4 == p
}

/// The slot up to which the first `n` listed entries reach: the position of
/// the next listed entry, or the end of the table.
pub open spec fn list_bound(e: Seq<(usize, u64, u8, bool, usize)>, n: int, t: int) -> int {
    if n < e.len() { e[n].4 as int } else { t }
}

/// `vs` is the set of slots that the void entries below slot `b` of the
/// table `(h, w)` reach.
pub closed spec fn voids_match(vs: Set<usize>, h: Seq<int>, w: Seq<u64>, q: nat, b: int) -> bool {
    forall|v: usize| #[trigger] vs.contains(v) <==> void_reaches(h, w, q, b, v as int)
}

/// The table `(h, w)` holds, for each home `c` and word `x`, one entry per
/// entry with a fingerprint of the table `(oh, ow)` whose image (see
/// `expanded_image`) is `(c, x)`, and one void marker more where `x` is the
/// void marker and some void entry of `(oh, ow)` reaches `c`: duplicates
/// stay duplicates, and every reached slot has exactly one void of its own.
pub open spec fn rebuilt_counts(h: Seq<int>, w: Seq<u64>, oh: Seq<int>, ow: Seq<u64>, q: nat) -> bool {
    forall|c: int, x: u64|
        c >= 0 ==> #[trigger] pair_count(h, w, c, x) == image_count(oh, ow, q, oh.len() as int, c, x) + (if x
            == VOID_MARKER && void_reaches(oh, ow, q, oh.len() as int, c) {
            1nat
        } else {
            0nat
        })
}

/// What `lists` asks, clause by clause.
pub proof fn lemma_lists_intro(h: Seq<int>, w: Seq<u64>, e: Seq<(usize, u64, u8, bool, usize)>, t: int)
    requires
        h.len() == t,
        w.len() == t,
        forall|j: int|
            0 <= j < e.len() ==> {
                let p = (#[trigger] e[j]).4 as int;
                &&& live(h, w, p)
                &&& e[j].0 as int == h[p]
                &&& e[j].1 == fp_field(w[p])
                &&& e[j].2 == spec_length(w[p])
                &&& e[j].3 == spec_is_void(w[p])
            },
        forall|j: int, l: int| 0 <= j < l < e.len() ==> (#[trigger] e[j]).4 < (#[trigger] e[l]).4,
        forall|p: int| live(h, w, p) ==> exists|j: int| 0 <= j < e.len() && (#[trigger] e[j]).4 == p,
    ensures
        lists(h, w, e, t),
{
}

proof fn lemma_pair_count_add(h1: Seq<int>, w1: Seq<u64>, h2: Seq<int>, w2: Seq<u64>, c: int, x: u64)
    requires
        h1.len() == w1.len(),
        h2.len() == w2.len(),
    ensures
        pair_count(h1 + h2, w1 + w2, c, x) == pair_count(h1, w1, c, x) + pair_count(h2, w2, c, x),
    decreases h2.len(),
{
    if h2.len() == 0 {
        assert(h1 + h2 =~= h1);
        assert(w1 + w2 =~= w1);
    } else {
        lemma_pair_count_add(h1, w1, h2.drop_last(), w2.drop_last(), c, x);
        assert((h1 + h2).drop_last() =~= h1 + h2.drop_last());
        assert((w1 + w2).drop_last() =~= w1 + w2.drop_last());
    }
}

proof fn lemma_pair_count_one(a: int, b: u64, c: int, x: u64)
    ensures
        pair_count(seq![a], seq![b], c, x) == (if a == c && b == x { 1nat } else { 0nat }),
{
    assert(seq![a].drop_last() =~= Seq::<int>::empty());
    assert(seq![b].drop_last() =~= Seq::<u64>::empty());
    assert(pair_count(Seq::<int>::empty(), Seq::<u64>::empty(), c, x) == 0);
    assert(seq![a].last() == a);
    assert(seq![b][0] == b);
}

/// An insertion of `(c0, x0)` into an empty slot adds one entry of that pair.
proof fn lemma_pair_count_inserted(h0: Seq<int>, w0: Seq<u64>, h1: Seq<int>, w1: Seq<u64>, c0: int, x0: u64)
    requires
        inserted_entry(h0, w0, h1, w1, c0, x0),
        w0.len() == h0.len(),
    ensures
        forall|c: int, x: u64|
            c >= 0 ==> #[trigger] pair_count(h1, w1, c, x) == pair_count(h0, w0, c, x) + (if c0 == c && x0 == x {
                1nat
            } else {
                0nat
            }),
{
    let (ip, z) = choose|ip: int, z: int|
        0 <= ip <= z < h0.len() && h0[z] < 0 && h1 == #[trigger] shift_insert(h0, c0, ip, z) && w1 == shift_insert(
            w0,
            x0,
            ip,
            z,
        ) && (forall|p: int| ip <= p < z ==> #[trigger] h0[p] >= 0) && (forall|p: int|
            ip <= p < h0.len() && h0[p] >= 0 ==> #[trigger] h0[p] > c0);
    let n = h0.len() as int;
    let a = h0.subrange(0, ip);
    let b = h0.subrange(ip, z);
    let d = h0.subrange(z + 1, n);
    let aw = w0.subrange(0, ip);
    let bw = w0.subrange(ip, z);
    let dw = w0.subrange(z + 1, n);
    assert(h1 =~= a + seq![c0] + b + d);
    assert(w1 =~= aw + seq![x0] + bw + dw);
    assert(h0 =~= a + b + seq![h0[z]] + d);
    assert(w0 =~= aw + bw + seq![w0[z]] + dw);
    assert forall|c: int, x: u64| c >= 0 implies #[trigger] pair_count(h1, w1, c, x) == pair_count(h0, w0, c, x) + (
    if c0 == c && x0 == x {
        1nat
    } else {
        0nat
    }) by {
        lemma_pair_count_add(a + seq![c0] + b, aw + seq![x0] + bw, d, dw, c, x);
        lemma_pair_count_add(a + seq![c0], aw + seq![x0], b, bw, c, x);
        lemma_pair_count_add(a, aw, seq![c0], seq![x0], c, x);
        lemma_pair_count_add(a + b + seq![h0[z]], aw + bw + seq![w0[z]], d, dw, c, x);
        lemma_pair_count_add(a + b, aw + bw, seq![h0[z]], seq![w0[z]], c, x);
        lemma_pair_count_add(a, aw, b, bw, c, x);
        lemma_pair_count_one(c0, x0, c, x);
        lemma_pair_count_one(h0[z], w0[z], c, x);
    }
}

/// A table that holds no entry has no pair of a home.
proof fn lemma_pair_count_none(h: Seq<int>, w: Seq<u64>, c: int, x: u64)
    requires
        forall|i: int| 0 <= i < h.len() ==> #[trigger] h[i] < 0,
        c >= 0,
    ensures
        pair_count(h, w, c, x) == 0,
    decreases h.len(),
{
    if h.len() > 0 {
        lemma_pair_count_none(h.drop_last(), w.drop_last(), c, x);
    }
}

/// Slots with no live entry add nothing to the counts.
proof fn lemma_census_gap(h: Seq<int>, w: Seq<u64>, q: nat, a: int, b: int)
    requires
        0 <= a <= b,
        forall|p: int| a <= p < b ==> !#[trigger] live(h, w, p),
    ensures
        forall|c: int, x: u64| #[trigger] image_count(h, w, q, b, c, x) == image_count(h, w, q, a, c, x),
        forall|c: int| #[trigger] void_reaches(h, w, q, b, c) == void_reaches(h, w, q, a, c),
    decreases b - a,
{
    if a < b {
        lemma_census_gap(h, w, q, a, b - 1);
        assert(!live(h, w, b - 1));
        assert forall|c: int, x: u64| #[trigger] image_count(h, w, q, b, c, x) == image_count(h, w, q, a, c, x) by {
            assert(image_count(h, w, q, b, c, x) == image_count(h, w, q, b - 1, c, x));
        }
        assert forall|c: int| #[trigger] void_reaches(h, w, q, b, c) == void_reaches(h, w, q, a, c) by {
            if void_reaches(h, w, q, b, c) {
                let p = choose|p: int| 0 <= p < b && #[trigger] live(h, w, p) && spec_is_void(w[p]) && (c == h[p] || c == h[p] + pow2(q));
                assert(p != b - 1);
                assert(void_reaches(h, w, q, b - 1, c));
            }
            if void_reaches(h, w, q, b - 1, c) {
                let p = choose|p: int| 0 <= p < b - 1 && #[trigger] live(h, w, p) && spec_is_void(w[p]) && (c == h[p] || c == h[p] + pow2(q));
                assert(void_reaches(h, w, q, b, c));
            }
        }
    }
}

/// Before the first listed entry there is nothing to count.
proof fn lemma_list_start(h: Seq<int>, w: Seq<u64>, q: nat, e: Seq<(usize, u64, u8, bool, usize)>, t: int)
    requires
        lists(h, w, e, t),
    ensures
        forall|c: int, x: u64| #[trigger] image_count(h, w, q, list_bound(e, 0, t), c, x) == 0,
        forall|c: int| !#[trigger] void_reaches(h, w, q, list_bound(e, 0, t), c),
{
    let b = list_bound(e, 0, t);
    assert forall|p: int| 0 <= p < b implies !#[trigger] live(h, w, p) by {
        if live(h, w, p) {
            let j = choose|j: int| 0 <= j < e.len() && (#[trigger] e[j]).4 == p;
            if j > 0 {
                assert(e[0].4 < e[j].4);
            }
        }
    }
    if b > 0 {
        lemma_census_gap(h, w, q, 0, b);
    }
    assert forall|c: int| !#[trigger] void_reaches(h, w, q, list_bound(e, 0, t), c) by {
        if b > 0 {
            assert(void_reaches(h, w, q, b, c) == void_reaches(h, w, q, 0, c));
        }
    }
}

/// Passing listed entry `n` adds its slot to the counts.
proof fn lemma_list_step(h: Seq<int>, w: Seq<u64>, q: nat, e: Seq<(usize, u64, u8, bool, usize)>, t: int, n: int)
    requires
        lists(h, w, e, t),
        0 <= n < e.len(),
    ensures
        list_bound(e, n, t) == e[n].4 as int,
        live(h, w, e[n].4 as int),
        forall|c: int, x: u64|
            #[trigger] image_count(h, w, q, list_bound(e, n + 1, t), c, x) == image_count(
                h,
                w,
                q,
                e[n].4 as int,
                c,
                x,
            ) + (if !spec_is_void(w[e[n].4 as int]) && expanded_image(h[e[n].4 as int], w[e[n].4 as int], q, c, x) {
                1nat
            } else {
                0nat
            }),
        forall|c: int|
            #[trigger] void_reaches(h, w, q, list_bound(e, n + 1, t), c) == (void_reaches(h, w, q, e[n].4 as int, c)
                || (spec_is_void(w[e[n].4 as int]) && (c == h[e[n].4 as int] || c == h[e[n].4 as int] + pow2(q)))),
{
    let p = e[n].4 as int;
    let b2 = list_bound(e, n + 1, t);
    assert(live(h, w, p));
    assert(p < b2) by {
        if n + 1 < e.len() {
            assert(e[n].4 < e[n + 1].4);
        }
    }
    assert forall|r: int| p + 1 <= r < b2 implies !#[trigger] live(h, w, r) by {
        if live(h, w, r) {
            let j = choose|j: int| 0 <= j < e.len() && (#[trigger] e[j]).4 == r;
            if j < n {
                assert(e[j].4 < e[n].4);
            } else if j > n + 1 {
                assert(e[n + 1].4 < e[j].4);
            }
        }
    }
    lemma_census_gap(h, w, q, p + 1, b2);
    assert forall|c: int|
        #[trigger] void_reaches(h, w, q, list_bound(e, n + 1, t), c) == (void_reaches(h, w, q, p, c) || (spec_is_void(
            w[p],
        ) && (c == h[p] || c == h[p] + pow2(q)))) by {
        assert(void_reaches(h, w, q, b2, c) == void_reaches(h, w, q, p + 1, c));
        if void_reaches(h, w, q, p + 1, c) {
            let r = choose|r: int| 0 <= r < p + 1 && #[trigger] live(h, w, r) && spec_is_void(w[r]) && (c == h[r] || c == h[r] + pow2(q));
            if r < p {
                assert(void_reaches(h, w, q, p, c));
            }
        }
        if void_reaches(h, w, q, p, c) {
            let r = choose|r: int| 0 <= r < p && #[trigger] live(h, w, r) && spec_is_void(w[r]) && (c == h[r] || c == h[r] + pow2(q));
            assert(void_reaches(h, w, q, p + 1, c));
        }
        if spec_is_void(w[p]) && (c == h[p] || c == h[p] + pow2(q)) {
            assert(c == h[p] || c == h[p] + pow2(q));
            assert(void_reaches(h, w, q, p + 1, c));
        }
    }
}

/// A void marker placed at slot `c0`, which no void reached before, keeps
/// the counts with `c0` among the reached slots.
proof fn lemma_census_void_insert_at(
    h0: Seq<int>,
    w0: Seq<u64>,
    h1: Seq<int>,
    w1: Seq<u64>,
    oh: Seq<int>,
    ow: Seq<u64>,
    q: nat,
    b: int,
    extra: Set<int>,
    c0: int,
)
    requires
        census(h0, w0, oh, ow, q, b, extra),
        inserted_entry(h0, w0, h1, w1, c0, VOID_MARKER),
        w0.len() == h0.len(),
        c0 >= 0,
        !(void_reaches(oh, ow, q, b, c0) || extra.contains(c0)),
    ensures
        census(h1, w1, oh, ow, q, b, extra.insert(c0)),
{
    lemma_pair_count_inserted(h0, w0, h1, w1, c0, VOID_MARKER);
    assert forall|c: int, x: u64| c >= 0 implies #[trigger] pair_count(h1, w1, c, x) == image_count(oh, ow, q, b, c, x)
        + (if x == VOID_MARKER && (void_reaches(oh, ow, q, b, c) || extra.insert(c0).contains(c)) {
        1nat
    } else {
        0nat
    }) by {
        assert(pair_count(h0, w0, c, x) == image_count(oh, ow, q, b, c, x) + (if x == VOID_MARKER && (void_reaches(
            oh,
            ow,
            q,
            b,
            c,
        ) || extra.contains(c)) {
            1nat
        } else {
            0nat
        }));
    }
}

/// A slot that a void already reached keeps the counts when listed again.
proof fn lemma_census_void_skip_at(
    h: Seq<int>,
    w: Seq<u64>,
    oh: Seq<int>,
    ow: Seq<u64>,
    q: nat,
    b: int,
    extra: Set<int>,
    c0: int,
)
    requires
        census(h, w, oh, ow, q, b, extra),
        void_reaches(oh, ow, q, b, c0) || extra.contains(c0),
    ensures
        census(h, w, oh, ow, q, b, extra.insert(c0)),
{
    assert forall|c: int, x: u64| c >= 0 implies #[trigger] pair_count(h, w, c, x) == image_count(oh, ow, q, b, c, x)
        + (if x == VOID_MARKER && (void_reaches(oh, ow, q, b, c) || extra.insert(c0).contains(c)) {
        1nat
    } else {
        0nat
    }) by {
        assert(pair_count(h, w, c, x) == image_count(oh, ow, q, b, c, x) + (if x == VOID_MARKER && (void_reaches(
            oh,
            ow,
            q,
            b,
            c,
        ) || extra.contains(c)) {
            1nat
        } else {
            0nat
        }));
    }
}

/// The counts move on to a later bound that adds exactly the reached slots
/// `extra` and no image.
proof fn lemma_census_move(
    h: Seq<int>,
    w: Seq<u64>,
    oh: Seq<int>,
    ow: Seq<u64>,
    q: nat,
    b: int,
    b2: int,
    extra: Set<int>,
)
    requires
        census(h, w, oh, ow, q, b, extra),
        forall|c: int, x: u64| #[trigger] image_count(oh, ow, q, b2, c, x) == image_count(oh, ow, q, b, c, x),
        forall|c: int| #[trigger] void_reaches(oh, ow, q, b2, c) == (void_reaches(oh, ow, q, b, c) || extra.contains(c)),
    ensures
        census(h, w, oh, ow, q, b2, Set::empty()),
{
    assert forall|c: int, x: u64| c >= 0 implies #[trigger] pair_count(h, w, c, x) == image_count(oh, ow, q, b2, c, x)
        + (if x == VOID_MARKER && (void_reaches(oh, ow, q, b2, c) || Set::<int>::empty().contains(c)) {
        1nat
    } else {
        0nat
    }) by {
        assert(image_count(oh, ow, q, b2, c, x) == image_count(oh, ow, q, b, c, x));
        assert(void_reaches(oh, ow, q, b2, c) == (void_reaches(oh, ow, q, b, c) || extra.contains(c)));
    }
}

/// The image `(c0, x0)` of the entry at the new bound's last slot placed:
/// the counts move on to the new bound.
proof fn lemma_census_image(
    h0: Seq<int>,
    w0: Seq<u64>,
    h1: Seq<int>,
    w1: Seq<u64>,
    oh: Seq<int>,
    ow: Seq<u64>,
    q: nat,
    b: int,
    b2: int,
    c0: int,
    x0: u64,
)
    requires
        census(h0, w0, oh, ow, q, b, Set::empty()),
        inserted_entry(h0, w0, h1, w1, c0, x0),
        w0.len() == h0.len(),
        forall|c: int, x: u64|
            #[trigger] image_count(oh, ow, q, b2, c, x) == image_count(oh, ow, q, b, c, x) + (if c == c0 && x == x0 {
                1nat
            } else {
                0nat
            }),
        forall|c: int| #[trigger] void_reaches(oh, ow, q, b2, c) == void_reaches(oh, ow, q, b, c),
    ensures
        census(h1, w1, oh, ow, q, b2, Set::empty()),
{
    lemma_pair_count_inserted(h0, w0, h1, w1, c0, x0);
    assert forall|c: int, x: u64| c >= 0 implies #[trigger] pair_count(h1, w1, c, x) == image_count(
        oh,
        ow,
        q,
        b2,
        c,
        x,
    ) + (if x == VOID_MARKER && (void_reaches(oh, ow, q, b2, c) || Set::<int>::empty().contains(c)) {
        1nat
    } else {
        0nat
    }) by {
        assert(pair_count(h0, w0, c, x) == image_count(oh, ow, q, b, c, x) + (if x == VOID_MARKER && (void_reaches(
            oh,
            ow,
            q,
            b,
            c,
        ) || Set::<int>::empty().contains(c)) {
            1nat
        } else {
            0nat
        }));
        assert(image_count(oh, ow, q, b2, c, x) == image_count(oh, ow, q, b, c, x) + (if c == c0 && x == x0 {
            1nat
        } else {
            0nat
        }));
        assert(void_reaches(oh, ow, q, b2, c) == void_reaches(oh, ow, q, b, c));
    }
}

/// A table that holds no entry agrees with the counts before the first
/// listed entry, where no void reaches any slot.
pub proof fn lemma_census_start(
    h: Seq<int>,
    w: Seq<u64>,
    oh: Seq<int>,
    ow: Seq<u64>,
    q: nat,
    e: Seq<(usize, u64, u8, bool, usize)>,
    t: int,
)
    requires
        lists(oh, ow, e, t),
        forall|i: int| 0 <= i < h.len() ==> #[trigger] h[i] < 0,
    ensures
        census(h, w, oh, ow, q, list_bound(e, 0, t), Set::empty()),
        voids_match(Set::empty(), oh, ow, q, list_bound(e, 0, t)),
{
    lemma_list_start(oh, ow, q, e, t);
    assert forall|c: int, x: u64| c >= 0 implies #[trigger] pair_count(h, w, c, x) == image_count(
        oh,
        ow,
        q,
        list_bound(e, 0, t),
        c,
        x,
    ) + (if x == VOID_MARKER && (void_reaches(oh, ow, q, list_bound(e, 0, t), c) || Set::<int>::empty().contains(c)) {
        1nat
    } else {
        0nat
    }) by {
        lemma_pair_count_none(h, w, c, x);
    }
}

/// A void marker placed at a slot `c0` that no void reached yet.
pub proof fn lemma_census_void_insert(
    h0: Seq<int>,
    w0: Seq<u64>,
    h1: Seq<int>,
    w1: Seq<u64>,
    oh: Seq<int>,
    ow: Seq<u64>,
    q: nat,
    b: int,
    extra: Set<int>,
    vs: Set<usize>,
    c0: usize,
)
    requires
        census(h0, w0, oh, ow, q, b, extra),
        voids_match(vs, oh, ow, q, b),
        inserted_entry(h0, w0, h1, w1, c0 as int, VOID_MARKER),
        w0.len() == h0.len(),
        !vs.contains(c0),
        !extra.contains(c0 as int),
    ensures
        census(h1, w1, oh, ow, q, b, extra.insert(c0 as int)),
{
    assert(vs.contains(c0) == void_reaches(oh, ow, q, b, c0 as int));
    lemma_census_void_insert_at(h0, w0, h1, w1, oh, ow, q, b, extra, c0 as int);
}

/// A slot that a void already reached, listed again: nothing is placed.
pub proof fn lemma_census_void_skip(
    h: Seq<int>,
    w: Seq<u64>,
    oh: Seq<int>,
    ow: Seq<u64>,
    q: nat,
    b: int,
    extra: Set<int>,
    vs: Set<usize>,
    c0: usize,
)
    requires
        census(h, w, oh, ow, q, b, extra),
        voids_match(vs, oh, ow, q, b),
        vs.contains(c0),
    ensures
        census(h, w, oh, ow, q, b, extra.insert(c0 as int)),
{
    assert(vs.contains(c0) == void_reaches(oh, ow, q, b, c0 as int));
    lemma_census_void_skip_at(h, w, oh, ow, q, b, extra, c0 as int);
}

/// After the void listed entry `n` has had its two slots `s0` and `s1`
/// seen to, the counts move past it.
pub proof fn lemma_void_entry_done(
    h: Seq<int>,
    w: Seq<u64>,
    oh: Seq<int>,
    ow: Seq<u64>,
    q: nat,
    e: Seq<(usize, u64, u8, bool, usize)>,
    t: int,
    n: int,
    vs: Set<usize>,
    s0: usize,
    s1: usize,
)
    requires
        lists(oh, ow, e, t),
        0 <= n < e.len(),
        e[n].3,
        s0 as int == e[n].0 as int,
        s1 as int == s0 + pow2(q),
        census(h, w, oh, ow, q, list_bound(e, n, t), Set::empty().insert(s0 as int).insert(s1 as int)),
        voids_match(vs, oh, ow, q, list_bound(e, n, t)),
    ensures
        census(h, w, oh, ow, q, list_bound(e, n + 1, t), Set::empty()),
        voids_match(vs.insert(s0).insert(s1), oh, ow, q, list_bound(e, n + 1, t)),
{
    let ex = Set::<int>::empty().insert(s0 as int).insert(s1 as int);
    let b = list_bound(e, n, t);
    let b1 = list_bound(e, n + 1, t);
    lemma_list_step(oh, ow, q, e, t, n);
    let p = e[n].4 as int;
    assert(spec_is_void(ow[p]) && oh[p] == s0 as int);
    assert forall|c: int, x: u64| #[trigger] image_count(oh, ow, q, b1, c, x) == image_count(oh, ow, q, b, c, x) by {}
    assert forall|c: int| #[trigger] void_reaches(oh, ow, q, b1, c) == (void_reaches(oh, ow, q, b, c) || ex.contains(c)) by {}
    lemma_census_move(h, w, oh, ow, q, b, b1, ex);
    assert forall|v: usize| #[trigger] vs.insert(s0).insert(s1).contains(v) <==> void_reaches(oh, ow, q, b1, v as int) by {
        assert(vs.contains(v) == void_reaches(oh, ow, q, b, v as int));
        assert(void_reaches(oh, ow, q, b1, v as int) == (void_reaches(oh, ow, q, b, v as int) || ex.contains(v as int)));
    }
}

/// After the image `(c0, x0)` of the listed entry `n`, which has a
/// fingerprint, is placed, the counts move past it.
pub proof fn lemma_image_entry_done(
    h0: Seq<int>,
    w0: Seq<u64>,
    h1: Seq<int>,
    w1: Seq<u64>,
    oh: Seq<int>,
    ow: Seq<u64>,
    q: nat,
    e: Seq<(usize, u64, u8, bool, usize)>,
    t: int,
    n: int,
    vs: Set<usize>,
    c0: int,
    x0: u64,
)
    requires
        lists(oh, ow, e, t),
        0 <= n < e.len(),
        !e[n].3,
        e[n].2 > 0,
        c0 == e[n].0 + (e[n].1 % 2) * pow2(q),
        x0 == entry_word(e[n].1 / 2, (e[n].2 - 1) as nat),
        census(h0, w0, oh, ow, q, list_bound(e, n, t), Set::empty()),
        voids_match(vs, oh, ow, q, list_bound(e, n, t)),
        inserted_entry(h0, w0, h1, w1, c0, x0),
        w0.len() == h0.len(),
    ensures
        census(h1, w1, oh, ow, q, list_bound(e, n + 1, t), Set::empty()),
        voids_match(vs, oh, ow, q, list_bound(e, n + 1, t)),
{
    let b = list_bound(e, n, t);
    let b1 = list_bound(e, n + 1, t);
    lemma_list_step(oh, ow, q, e, t, n);
    let p = e[n].4 as int;
    assert(!spec_is_void(ow[p]) && len_field(ow[p]) == e[n].2 && fp_field(ow[p]) == e[n].1 && oh[p] == e[n].0);
    assert forall|c: int, x: u64| #[trigger] image_count(oh, ow, q, b1, c, x) == image_count(oh, ow, q, b, c, x) + (if c
        == c0 && x == x0 {
        1nat
    } else {
        0nat
    }) by {}
    assert forall|c: int| #[trigger] void_reaches(oh, ow, q, b1, c) == void_reaches(oh, ow, q, b, c) by {}
    lemma_census_image(h0, w0, h1, w1, oh, ow, q, b, b1, c0, x0);
    assert forall|v: usize| #[trigger] vs.contains(v) <==> void_reaches(oh, ow, q, b1, v as int) by {
        assert(vs.contains(v) == void_reaches(oh, ow, q, b, v as int));
    }
}

/// A listed entry that is neither void nor has a fingerprint bit to give
/// has no image: the counts move past it.
pub proof fn lemma_bare_entry_done(
    h: Seq<int>,
    w: Seq<u64>,
    oh: Seq<int>,
    ow: Seq<u64>,
    q: nat,
    e: Seq<(usize, u64, u8, bool, usize)>,
    t: int,
    n: int,
    vs: Set<usize>,
)
    requires
        lists(oh, ow, e, t),
        0 <= n < e.len(),
        !e[n].3,
        e[n].2 == 0,
        census(h, w, oh, ow, q, list_bound(e, n, t), Set::empty()),
        voids_match(vs, oh, ow, q, list_bound(e, n, t)),
    ensures
        census(h, w, oh, ow, q, list_bound(e, n + 1, t), Set::empty()),
        voids_match(vs, oh, ow, q, list_bound(e, n + 1, t)),
{
    let b = list_bound(e, n, t);
    let b1 = list_bound(e, n + 1, t);
    lemma_list_step(oh, ow, q, e, t, n);
    let p = e[n].4 as int;
    assert(!spec_is_void(ow[p]) && len_field(ow[p]) == 0);
    assert forall|c: int, x: u64| #[trigger] image_count(oh, ow, q, b1, c, x) == image_count(oh, ow, q, b, c, x) by {}
    assert forall|c: int| #[trigger] void_reaches(oh, ow, q, b1, c) == (void_reaches(oh, ow, q, b, c)
        || Set::<int>::empty().contains(c)) by {}
    lemma_census_move(h, w, oh, ow, q, b, b1, Set::empty());
    assert forall|v: usize| #[trigger] vs.contains(v) <==> void_reaches(oh, ow, q, b1, v as int) by {
        assert(vs.contains(v) == void_reaches(oh, ow, q, b, v as int));
    }
}

/// Past the last listed entry the counts are those of the whole old table.
pub proof fn lemma_census_end(
    h: Seq<int>,
    w: Seq<u64>,
    oh: Seq<int>,
    ow: Seq<u64>,
    q: nat,
    e: Seq<(usize, u64, u8, bool, usize)>,
    t: int,
)
    requires
        lists(oh, ow, e, t),
        census(h, w, oh, ow, q, list_bound(e, e.len() as int, t), Set::empty()),
    ensures
        rebuilt_counts(h, w, oh, ow, q),
{
    assert(oh.len() == t);
    assert forall|c: int, x: u64| c >= 0 implies #[trigger] pair_count(h, w, c, x) == image_count(
        oh,
        ow,
        q,
        oh.len() as int,
        c,
        x,
    ) + (if x == VOID_MARKER && void_reaches(oh, ow, q, oh.len() as int, c) {
        1nat
    } else {
        0nat
    }) by {
        assert(pair_count(h, w, c, x) == image_count(oh, ow, q, t, c, x) + (if x == VOID_MARKER && (void_reaches(
            oh,
            ow,
            q,
            t,
            c,
        ) || Set::<int>::empty().contains(c)) {
            1nat
        } else {
            0nat
        }));
    }
}

/// Slot `d` of `(h0, w0)` becomes a tombstone: its pair has one entry
/// fewer, and no other pair of a home changes.
proof fn lemma_pair_count_tombstoned(h0: Seq<int>, w0: Seq<u64>, w1: Seq<u64>, d: int)
    requires
        w0.len() == h0.len(),
        0 <= d < h0.len(),
        w1 == w0.update(d, TOMBSTONE_MARKER),
    ensures
        forall|c2: int, x: u64|
            !spec_is_tombstone(x) ==> #[trigger] pair_count(h0, w1, c2, x) + (if c2 == h0[d] && x == w0[d] {
                1nat
            } else {
                0nat
            }) == pair_count(h0, w0, c2, x),
{
    let n = h0.len() as int;
    let c = h0[d];
    let x0 = w0[d];
    let a = h0.subrange(0, d);
    let aw = w0.subrange(0, d);
    let b = h0.subrange(d + 1, n);
    let bw = w0.subrange(d + 1, n);
    assert(h0 =~= a + seq![c] + b);
    assert(w0 =~= aw + seq![x0] + bw);
    assert(w1 =~= aw + seq![TOMBSTONE_MARKER] + bw);
    assert forall|c2: int, x: u64| !spec_is_tombstone(x) implies #[trigger] pair_count(h0, w1, c2, x) + (if c2 == c && x
        == x0 {
        1nat
    } else {
        0nat
    }) == pair_count(h0, w0, c2, x) by {
        lemma_pair_count_add(a + seq![c], aw + seq![x0], b, bw, c2, x);
        lemma_pair_count_add(a, aw, seq![c], seq![x0], c2, x);
        lemma_pair_count_add(a + seq![c], aw + seq![TOMBSTONE_MARKER], b, bw, c2, x);
        lemma_pair_count_add(a, aw, seq![c], seq![TOMBSTONE_MARKER], c2, x);
        lemma_pair_count_one(c, x0, c2, x);
        lemma_pair_count_one(c, TOMBSTONE_MARKER, c2, x);
    }
}

/// The entry at slot `d` taken out and the entries up to `z` moved left by
/// one: its pair has one entry fewer, and no other pair of a home changes.
proof fn lemma_pair_count_removed(h0: Seq<int>, w0: Seq<u64>, d: int, z: int)
    requires
        w0.len() == h0.len(),
        0 <= d <= z < h0.len(),
    ensures
        forall|c2: int, x: u64|
            c2 >= 0 ==> #[trigger] pair_count(shift_remove(h0, d, z, -1int), shift_remove(w0, d, z, 0u64), c2, x) + (
            if c2 == h0[d] && x == w0[d] {
                1nat
            } else {
                0nat
            }) == pair_count(h0, w0, c2, x),
{
    let n = h0.len() as int;
    let c = h0[d];
    let x0 = w0[d];
    let h1 = shift_remove(h0, d, z, -1int);
    let w1 = shift_remove(w0, d, z, 0u64);
    let a = h0.subrange(0, d);
    let aw = w0.subrange(0, d);
    let m = h0.subrange(d + 1, z + 1);
    let mw = w0.subrange(d + 1, z + 1);
    let r = h0.subrange(z + 1, n);
    let rw = w0.subrange(z + 1, n);
    assert(h0 =~= a + seq![c] + m + r);
    assert(w0 =~= aw + seq![x0] + mw + rw);
    assert(h1 =~= a + m + seq![-1int] + r);
    assert(w1 =~= aw + mw + seq![0u64] + rw);
    assert forall|c2: int, x: u64| c2 >= 0 implies #[trigger] pair_count(h1, w1, c2, x) + (if c2 == c && x == x0 {
        1nat
    } else {
        0nat
    }) == pair_count(h0, w0, c2, x) by {
        lemma_pair_count_add(a + seq![c] + m, aw + seq![x0] + mw, r, rw, c2, x);
        lemma_pair_count_add(a + seq![c], aw + seq![x0], m, mw, c2, x);
        lemma_pair_count_add(a, aw, seq![c], seq![x0], c2, x);
        lemma_pair_count_add(a + m + seq![-1int], aw + mw + seq![0u64], r, rw, c2, x);
        lemma_pair_count_add(a + m, aw + mw, seq![-1int], seq![0u64], c2, x);
        lemma_pair_count_add(a, aw, m, mw, c2, x);
        lemma_pair_count_one(c, x0, c2, x);
        lemma_pair_count_one(-1int, 0u64, c2, x);
    }
}

/// A deletion takes out exactly one entry: one entry of home `c` whose word
/// `x0` matches the fingerprint. Counted by home and word, that pair has one
/// entry fewer and every other pair of a home keeps its count; a void entry
/// leaves a tombstone in its place, which is no entry.
pub proof fn lemma_deletion_removes_one(
    h0: Seq<int>,
    w0: Seq<u64>,
    h1: Seq<int>,
    w1: Seq<u64>,
    c: int,
    fp: u64,
    len: u8,
)
    requires
        deleted_entry(h0, w0, h1, w1, c, fp, len),
        w0.len() == h0.len(),
        c >= 0,
    ensures
        exists|x0: u64|
            spec_matches(x0, fp, len) && pair_count(h0, w0, c, x0) >= 1 && forall|c2: int, x: u64|
                c2 >= 0 && !spec_is_tombstone(x) ==> #[trigger] pair_count(h1, w1, c2, x) + (if c2 == c && x == x0 {
                    1nat
                } else {
                    0nat
                }) == pair_count(h0, w0, c2, x),
{
    let d = choose|d: int|
        0 <= d < h0.len() && h0[d] == c && #[trigger] spec_matches(w0[d], fp, len) && (forall|p: int|
            d < p < h0.len() && h0[p] == c ==> !#[trigger] spec_matches(w0[p], fp, len)) && (if spec_is_void(w0[d]) {
            h1 == h0 && w1 == w0.update(d, TOMBSTONE_MARKER)
        } else {
            exists|z: int|
                d <= z < h0.len() && h1 == #[trigger] shift_remove(h0, d, z, -1int) && w1 == shift_remove(w0, d, z, 0u64)
                    && stretch_end(h0, d, z)
        });
    let x0 = w0[d];
    assert(!spec_is_tombstone(x0));
    if spec_is_void(w0[d]) {
        lemma_pair_count_tombstoned(h0, w0, w1, d);
    } else {
        let z = choose|z: int|
            d <= z < h0.len() && h1 == #[trigger] shift_remove(h0, d, z, -1int) && w1 == shift_remove(w0, d, z, 0u64)
                && stretch_end(h0, d, z);
        lemma_pair_count_removed(h0, w0, d, z);
    }
    assert(pair_count(h1, w1, c, x0) + 1 == pair_count(h0, w0, c, x0));
}

} // verus!
