//! The steps of a deletion in the abstract.
//!
//! A deletion takes one entry out of its run and moves every entry after it
//! in the cluster left by one slot, run by run. These predicates describe the
//! table part way through that walk, and the lemmas show that each step keeps
//! the description and that the finished walk leaves a sound layout.

use vstd::prelude::*;
use crate::metadata::{spec_occupied, spec_continuation, spec_shifted};
use crate::slot::{spec_matches, spec_is_void, TOMBSTONE_MARKER};
use crate::layout::{
    layout_ok, pos_ok, first_of_home, meta_empty, count_occ, count_heads, shift_remove, removed_flags,
    lemma_remove_layout, lemma_count_heads_split, lemma_count_heads_zero, lemma_run_body, lemma_run_border,
    lemma_rank, lemma_count_occ_split, deleted_entry, holds_match, stretch_end, inserted_entry, shift_insert,
};

verus! {

/// The scan of the run from `rs` up to `pos` has found the last slot that
/// matches `fp` (or none).
pub open spec fn search_ok(
    h: Seq<int>,
    w: Seq<u64>,
    c: int,
    fp: u64,
    len: u8,
    rs: int,
    pos: int,
    found: Option<usize>,
) -> bool {
    match found {
        Some(f) => rs <= f < pos && h[f as int] == c && spec_matches(w[f as int], fp, len) && forall|q: int|
            f < q < pos ==> !#[trigger] spec_matches(w[q], fp, len),
        None => forall|q: int| rs <= q < pos ==> !#[trigger] spec_matches(w[q], fp, len),
    }
}

/// Some entry of home `q` matches `fq` (of `lq` bits) and could not stand
/// for the fingerprint `fp` (of `len` bits) at home `c`.
pub open spec fn held_apart(h: Seq<int>, w: Seq<u64>, q: int, fq: u64, lq: u8, c: int, fp: u64, len: u8) -> bool {
    exists|i: int|
        0 <= i < h.len() && h[i] == q && #[trigger] spec_matches(w[i], fq, lq) && !(q == c && spec_matches(w[i], fp, len))
}

/// Slot `d` holds the last entry of home `c` that matches `fp`.
pub open spec fn last_match(h: Seq<int>, w: Seq<u64>, c: int, fp: u64, len: u8, d: int) -> bool {
    &&& 0 <= d < h.len()
    &&& h[d] == c
    &&& spec_matches(w[d], fp, len)
    &&& forall|p: int| d < p < h.len() && h[p] == c ==> !#[trigger] spec_matches(w[p], fp, len)
}

/// After a deletion every filled slot holds, under its home, the word of an
/// old entry of that home or a tombstone.
pub proof fn lemma_deleted_from_old(h0: Seq<int>, w0: Seq<u64>, h1: Seq<int>, w1: Seq<u64>, c: int, fp: u64, len: u8)
    requires
        deleted_entry(h0, w0, h1, w1, c, fp, len),
        w0.len() == h0.len(),
    ensures
        h1.len() == h0.len(),
        w1.len() == h0.len(),
        forall|i: int|
            0 <= i < h1.len() && h1[i] >= 0 ==> w1[i] == TOMBSTONE_MARKER || exists|j: int|
                0 <= j < h0.len() && #[trigger] h0[j] == h1[i] && w0[j] == w1[i],
{
    let d = choose|d: int|
        0 <= d < h0.len() && h0[d] == c && #[trigger] spec_matches(w0[d], fp, len) && (forall|p: int|
            d < p < h0.len() && h0[p] == c ==> !#[trigger] spec_matches(w0[p], fp, len)) && (if spec_is_void(w0[d]) {
            h1 == h0 && w1 == w0.update(d, TOMBSTONE_MARKER)
        } else {
            exists|z: int|
                d <= z < h0.len() && h1 == #[trigger] shift_remove(h0, d, z, -1int) && w1 == shift_remove(w0, d, z, 0u64)
        });
    if spec_is_void(w0[d]) {
        assert forall|i: int| 0 <= i < h1.len() && h1[i] >= 0 implies w1[i] == TOMBSTONE_MARKER || exists|j: int|
            0 <= j < h0.len() && #[trigger] h0[j] == h1[i] && w0[j] == w1[i] by {
            if i != d {
                assert(h0[i] == h1[i] && w0[i] == w1[i]);
            }
        }
    } else {
        let z = choose|z: int|
            d <= z < h0.len() && h1 == #[trigger] shift_remove(h0, d, z, -1int) && w1 == shift_remove(w0, d, z, 0u64);
        assert forall|i: int| 0 <= i < h1.len() && h1[i] >= 0 implies w1[i] == TOMBSTONE_MARKER || exists|j: int|
            0 <= j < h0.len() && #[trigger] h0[j] == h1[i] && w0[j] == w1[i] by {
            if i < d || i > z {
                assert(h0[i] == h1[i] && w0[i] == w1[i]);
            } else {
                assert(i != z);
                assert(h0[i + 1] == h1[i] && w0[i + 1] == w1[i]);
            }
        }
    }
}

/// Deleting keeps every other entry: when some entry of home `q` matches
/// `fq` and does not also stand for the deleted fingerprint `fp` at home
/// `c`, the table still holds an entry of home `q` that matches `fq`.
pub proof fn lemma_deleted_keeps(
    h0: Seq<int>,
    w0: Seq<u64>,
    h1: Seq<int>,
    w1: Seq<u64>,
    c: int,
    fp: u64,
    len: u8,
    q: int,
    fq: u64,
    lq: u8,
)
    requires
        deleted_entry(h0, w0, h1, w1, c, fp, len),
        w0.len() == h0.len(),
        held_apart(h0, w0, q, fq, lq, c, fp, len),
    ensures
        holds_match(h1, w1, q, fq, lq),
{
    let d = choose|d: int|
        0 <= d < h0.len() && h0[d] == c && #[trigger] spec_matches(w0[d], fp, len) && (forall|p: int|
            d < p < h0.len() && h0[p] == c ==> !#[trigger] spec_matches(w0[p], fp, len)) && (if spec_is_void(w0[d]) {
            h1 == h0 && w1 == w0.update(d, TOMBSTONE_MARKER)
        } else {
            exists|z: int|
                d <= z < h0.len() && h1 == #[trigger] shift_remove(h0, d, z, -1int) && w1 == shift_remove(w0, d, z, 0u64)
        });
    let i = choose|i: int|
        0 <= i < h0.len() && h0[i] == q && #[trigger] spec_matches(w0[i], fq, lq) && !(q == c && spec_matches(
            w0[i],
            fp,
            len,
        ));
    assert(i != d);
    if spec_is_void(w0[d]) {
        assert(h1[i] == q && w1[i] == w0[i]);
    } else {
        let z = choose|z: int|
            d <= z < h0.len() && h1 == #[trigger] shift_remove(h0, d, z, -1int) && w1 == shift_remove(w0, d, z, 0u64);
        if i < d || i > z {
            assert(h1[i] == q && w1[i] == w0[i]);
        } else {
            assert(h1[i - 1] == q && w1[i - 1] == w0[i]);
        }
    }
}

/// Deleting, right after an insertion, the last entry of the inserted home
/// that matches a fingerprint the inserted word matches takes out exactly the
/// inserted entry, when that word is not void: the table is as before.
pub proof fn lemma_removal_undoes_insertion(
    m0: Seq<u8>,
    w0: Seq<u64>,
    h0: Seq<int>,
    n: int,
    h1: Seq<int>,
    w1: Seq<u64>,
    h2: Seq<int>,
    w2: Seq<u64>,
    c: int,
    x: u64,
    fp: u64,
    len: u8,
)
    requires
        layout_ok(m0, w0, h0, n),
        c >= 0,
        inserted_entry(h0, w0, h1, w1, c, x),
        spec_matches(x, fp, len),
        !spec_is_void(x),
        deleted_entry(h1, w1, h2, w2, c, fp, len),
    ensures
        h2 == h0,
        w2 == w0,
{
    let (ip, z) = choose|ip: int, z: int|
        0 <= ip <= z < h0.len() && h0[z] < 0 && h1 == #[trigger] shift_insert(h0, c, ip, z) && w1 == shift_insert(
            w0,
            x,
            ip,
            z,
        ) && (forall|p: int| ip <= p < z ==> #[trigger] h0[p] >= 0) && (forall|p: int|
            ip <= p < h0.len() && h0[p] >= 0 ==> #[trigger] h0[p] > c);
    let d = choose|d: int|
        0 <= d < h1.len() && h1[d] == c && #[trigger] spec_matches(w1[d], fp, len) && (forall|p: int|
            d < p < h1.len() && h1[p] == c ==> !#[trigger] spec_matches(w1[p], fp, len)) && (if spec_is_void(w1[d]) {
            h2 == h1 && w2 == w1.update(d, TOMBSTONE_MARKER)
        } else {
            exists|z: int|
                d <= z < h1.len() && h2 == #[trigger] shift_remove(h1, d, z, -1int) && w2 == shift_remove(w1, d, z, 0u64)
                    && stretch_end(h1, d, z)
        });
    // the inserted entry is the last of its home
    assert(h1[ip] == c && w1[ip] == x);
    assert forall|p: int| ip < p < h1.len() implies #[trigger] h1[p] != c by {
        if p <= z {
            assert(h1[p] == h0[p - 1]);
            assert(h0[p - 1] >= 0);
        } else {
            assert(h1[p] == h0[p]);
        }
    }
    if d < ip {
        assert(!spec_matches(w1[ip], fp, len));
    }
    assert(d == ip);
    let z2 = choose|z2: int|
        d <= z2 < h1.len() && h2 == #[trigger] shift_remove(h1, d, z2, -1int) && w2 == shift_remove(w1, d, z2, 0u64)
            && stretch_end(h1, d, z2);
    // the stretch after the inserted entry ends where the insertion found its empty slot
    assert(stretch_end(h1, ip, z)) by {
        assert forall|q: int| ip < q <= z implies 0 <= #[trigger] h1[q] < q by {
            assert(h1[q] == h0[q - 1]);
            assert(pos_ok(m0, w0, h0, n, q - 1));
        }
        if z + 1 < h1.len() {
            assert(h1[z + 1] == h0[z + 1]);
            assert(pos_ok(m0, w0, h0, n, z + 1));
        }
    }
    if z2 < z {
        assert(h1[z2 + 1] >= 0 && h1[z2 + 1] < z2 + 1);
    }
    if z2 > z {
        assert(h1[z + 1] >= 0 && h1[z + 1] < z + 1);
    }
    assert(z2 == z);
    assert(pos_ok(m0, w0, h0, n, z));
    assert(h2 =~= h0);
    assert(w2 =~= w0);
}

/// What a deletion knows before it moves anything: the entry at `d` lies in
/// the run `[rs, re]` of home `c`, and the cluster holding it starts at `cs`.
pub open spec fn delete_frame(
    m0: Seq<u8>,
    w0: Seq<u64>,
    h0: Seq<int>,
    n: int,
    c: int,
    rs: int,
    d: int,
    re: int,
    cs: int,
) -> bool {
    &&& layout_ok(m0, w0, h0, n)
    &&& 0 <= cs <= c <= rs <= d <= re < h0.len()
    &&& h0[rs] == c
    &&& first_of_home(h0, rs)
    &&& forall|q: int| rs <= q <= re ==> #[trigger] h0[q] == c
    &&& re + 1 < h0.len() ==> h0[re + 1] != c
    &&& h0[cs] == cs
}

/// The table after the entries up to slot `r` have moved: `r` ends a run of
/// the old table, the slots of `(re, r]` held shifted entries, and the two
/// counters hold the number of continuations and of unoccupied slots in
/// `[cs, r]`.
pub open spec fn delete_progress(
    m0: Seq<u8>,
    w0: Seq<u64>,
    h0: Seq<int>,
    m: Seq<u8>,
    w: Seq<u64>,
    c: int,
    d: int,
    re: int,
    cs: int,
    r: int,
    nsc: int,
    nno: int,
) -> bool {
    &&& cs <= re <= r < h0.len()
    &&& m0.len() == h0.len()
    &&& w0.len() == h0.len()
    &&& w == shift_remove(w0, d, r, 0u64)
    &&& removed_flags(m0, h0, m, c, re, r, false)
    &&& forall|q: int| re < q <= r ==> #[trigger] h0[q] >= 0 && h0[q] < q
    &&& r + 1 < h0.len() ==> !spec_continuation(m0[r + 1])
    &&& forall|q: int| cs <= q <= r ==> #[trigger] h0[q] >= 0
    &&& nsc == (r + 1 - cs) - count_heads(m0, cs, r + 1)
    &&& nno == (r + 1 - cs) - count_occ(m0, cs, r + 1)
}

/// Slot `p` now holds the entry that was at `p + 1`, with its flags.
pub open spec fn moved_at(m0: Seq<u8>, h0: Seq<int>, m: Seq<u8>, p: int) -> bool {
    spec_continuation(m[p]) == spec_continuation(m0[p + 1]) && spec_shifted(m[p]) == (h0[p + 1] < p)
}

/// Slot `p` has its old continuation and shifted flags.
pub open spec fn kept_at(m0: Seq<u8>, m: Seq<u8>, p: int) -> bool {
    spec_continuation(m[p]) == spec_continuation(m0[p]) && spec_shifted(m[p]) == spec_shifted(m0[p])
}

/// The run `[r + 1, r2]` is moving left by one; its slots before `k` have moved.
pub open spec fn moving_run(
    m0: Seq<u8>,
    w0: Seq<u64>,
    h0: Seq<int>,
    m: Seq<u8>,
    w: Seq<u64>,
    d: int,
    re: int,
    cs: int,
    r: int,
    r2: int,
    k: int,
    nno: int,
) -> bool {
    &&& cs <= re <= r
    &&& r + 1 <= r2
    &&& r + 1 <= k <= r2 + 1
    &&& r2 < h0.len()
    &&& m0.len() == h0.len()
    &&& w0.len() == h0.len()
    &&& w == shift_remove(w0, d, k - 1, if k == r + 1 { 0u64 } else { w0[k - 1] })
    &&& m.len() == m0.len()
    &&& forall|p: int| 0 <= p < m0.len() ==> spec_occupied(#[trigger] m[p]) == spec_occupied(m0[p])
    &&& forall|p: int| 0 <= p < m0.len() && (p < re || (p >= k - 1 && p > r)) ==> #[trigger] kept_at(m0, m, p)
    &&& forall|p: int| re <= p < k - 1 ==> #[trigger] moved_at(m0, h0, m, p)
    &&& k == r + 1 ==> moved_at(m0, h0, m, r)
    &&& forall|q: int| re < q <= r ==> #[trigger] h0[q] >= 0 && h0[q] < q
    &&& forall|q: int| cs <= q <= r ==> #[trigger] h0[q] >= 0
    &&& 0 <= h0[r + 1] < r + 1
    &&& forall|q: int| r + 1 <= q <= r2 ==> #[trigger] h0[q] == h0[r + 1]
    &&& !spec_continuation(m0[r + 1])
    &&& forall|q: int| r + 1 < q <= r2 ==> spec_continuation(#[trigger] m0[q])
    &&& r2 + 1 < h0.len() ==> !spec_continuation(m0[r2 + 1])
    &&& nno == (k - cs) - count_occ(m0, cs, k)
}

/// The cluster that holds canonical slot `c` starts at `cs`, and every slot
/// from there to the end `re` of `c`'s run holds an entry.
pub proof fn lemma_cluster_filled(m0: Seq<u8>, w0: Seq<u64>, h0: Seq<int>, n: int, c: int, cs: int, re: int)
    requires
        layout_ok(m0, w0, h0, n),
        0 <= cs <= c <= re < h0.len(),
        h0[re] == c,
        cs == 0 || !spec_shifted(m0[cs]),
        forall|j: int| cs < j <= c ==> spec_shifted(#[trigger] m0[j]),
    ensures
        h0[cs] == cs,
        forall|q: int| cs <= q <= re ==> #[trigger] h0[q] >= 0,
{
    assert forall|q: int| cs <= q <= re implies #[trigger] h0[q] >= 0 by {
        if q >= c {
            crate::layout::lemma_contig(m0, w0, h0, n, re, q);
        } else if q > cs {
            assert(spec_shifted(m0[q]));
            assert(pos_ok(m0, w0, h0, n, q));
        } else {
            if c > cs {
                assert(spec_shifted(m0[q + 1]));
                assert(pos_ok(m0, w0, h0, n, q + 1));
            } else {
                crate::layout::lemma_contig(m0, w0, h0, n, re, c);
            }
        }
    }
    assert(h0[cs] >= 0);
    assert(pos_ok(m0, w0, h0, n, cs));
}

/// The run after slot `r`, which `find_run_end` says ends at `r2`, in the
/// old table; and the test on the counters decides whether that run's first
/// entry is at its home once moved back to `r`.
pub proof fn lemma_next_run(
    m0: Seq<u8>,
    w0: Seq<u64>,
    h0: Seq<int>,
    n: int,
    m: Seq<u8>,
    w: Seq<u64>,
    c: int,
    rs: int,
    d: int,
    re: int,
    cs: int,
    r: int,
    r2: int,
    nsc: int,
    nno: int,
)
    requires
        delete_frame(m0, w0, h0, n, c, rs, d, re, cs),
        delete_progress(m0, w0, h0, m, w, c, d, re, cs, r, nsc, nno),
        r + 1 < h0.len(),
        !meta_empty(m[r + 1]),
        spec_shifted(m[r + 1]),
        r + 1 <= r2 < h0.len(),
        r2 + 1 == h0.len() || !spec_continuation(m[r2 + 1]),
        forall|j: int| r + 1 < j <= r2 ==> spec_continuation(#[trigger] m[j]),
    ensures
        0 <= h0[r + 1] <= r,
        forall|q: int| r + 1 <= q <= r2 ==> #[trigger] h0[q] == h0[r + 1],
        !spec_continuation(m0[r + 1]),
        forall|q: int| r + 1 < q <= r2 ==> spec_continuation(#[trigger] m0[q]),
        r2 + 1 < h0.len() ==> !spec_continuation(m0[r2 + 1]),
        spec_occupied(m[r]) == spec_occupied(m0[r]),
        (spec_occupied(m0[r]) && nsc - nno == 1) <==> h0[r + 1] == r,
{
    assert(kept_at(m0, m, r + 1));
    assert(spec_occupied(m[r + 1]) == spec_occupied(m0[r + 1]));
    assert(pos_ok(m0, w0, h0, n, r + 1));
    assert forall|q: int| r + 1 < q <= r2 implies spec_continuation(#[trigger] m0[q]) by {
        assert(kept_at(m0, m, q));
        assert(spec_continuation(m[q]));
    }
    if r2 + 1 < h0.len() {
        assert(kept_at(m0, m, r2 + 1));
    }
    lemma_run_body(m0, w0, h0, n, r + 1, r2 + 1);
    lemma_run_border(m0, w0, h0, n, r);
    lemma_rank(m0, w0, h0, n, cs, r);
    lemma_count_occ_split(m0, cs, h0[r] + 1, r + 1);
}

/// Setting the shifted flag of slot `r` as the test decides starts the move
/// of the run after it.
pub proof fn lemma_moving_start(
    m0: Seq<u8>,
    w0: Seq<u64>,
    h0: Seq<int>,
    m: Seq<u8>,
    w: Seq<u64>,
    mb: Seq<u8>,
    c: int,
    d: int,
    re: int,
    cs: int,
    r: int,
    r2: int,
    nsc: int,
    nno: int,
)
    requires
        delete_progress(m0, w0, h0, m, w, c, d, re, cs, r, nsc, nno),
        r + 1 <= r2 < h0.len(),
        0 <= h0[r + 1] <= r,
        forall|q: int| r + 1 <= q <= r2 ==> #[trigger] h0[q] == h0[r + 1],
        !spec_continuation(m0[r + 1]),
        forall|q: int| r + 1 < q <= r2 ==> spec_continuation(#[trigger] m0[q]),
        r2 + 1 < h0.len() ==> !spec_continuation(m0[r2 + 1]),
        mb == m.update(r, mb[r]),
        spec_shifted(mb[r]) == (h0[r + 1] < r),
        spec_occupied(mb[r]) == spec_occupied(m[r]),
        spec_continuation(mb[r]) == spec_continuation(m[r]),
    ensures
        moving_run(m0, w0, h0, mb, w, d, re, cs, r, r2, r + 1, nno),
{
    assert forall|p: int| 0 <= p < m0.len() implies spec_occupied(#[trigger] mb[p]) == spec_occupied(m0[p]) by {
        if p != r {
            assert(mb[p] == m[p]);
        }
    }
    assert forall|p: int| 0 <= p < m0.len() && (p < re || (p >= r && p > r)) implies #[trigger] kept_at(m0, mb, p) by {
        assert(mb[p] == m[p]);
    }
    assert forall|p: int| re <= p < r implies #[trigger] moved_at(m0, h0, mb, p) by {
        assert(mb[p] == m[p]);
    }
}

/// One slot of the moving run goes back by one.
pub proof fn lemma_moving_step(
    m0: Seq<u8>,
    w0: Seq<u64>,
    h0: Seq<int>,
    n: int,
    ma: Seq<u8>,
    wa: Seq<u64>,
    mb: Seq<u8>,
    wb: Seq<u64>,
    d: int,
    re: int,
    cs: int,
    r: int,
    r2: int,
    k: int,
    nno_a: int,
    nno_b: int,
)
    requires
        layout_ok(m0, w0, h0, n),
        0 <= d <= re,
        moving_run(m0, w0, h0, ma, wa, d, re, cs, r, r2, k, nno_a),
        k <= r2,
        wb == wa.update(k - 1, wa[k]),
        spec_continuation(ma[k]) ==> mb == ma.update(k - 1, mb[k - 1]) && spec_continuation(mb[k - 1])
            && spec_occupied(mb[k - 1]) == spec_occupied(ma[k - 1]) && spec_shifted(mb[k - 1]) == spec_shifted(
            ma[k - 1],
        ),
        !spec_continuation(ma[k]) ==> mb == ma,
        nno_b == nno_a + (if spec_occupied(ma[k]) { 0int } else { 1int }),
    ensures
        moving_run(m0, w0, h0, mb, wb, d, re, cs, r, r2, k + 1, nno_b),
{
    assert(kept_at(m0, ma, k));
    assert(spec_occupied(ma[k]) == spec_occupied(m0[k]));
    assert(wb =~= shift_remove(w0, d, k, w0[k]));
    assert forall|p: int| 0 <= p < m0.len() implies spec_occupied(#[trigger] mb[p]) == spec_occupied(m0[p]) by {
        if p != k - 1 && spec_continuation(ma[k]) {
            assert(mb[p] == ma.update(k - 1, mb[k - 1])[p]);
        }
    }
    assert forall|p: int| 0 <= p < m0.len() && (p < re || (p >= k && p > r)) implies #[trigger] kept_at(m0, mb, p) by {
        if spec_continuation(ma[k]) {
            assert(mb[p] == ma.update(k - 1, mb[k - 1])[p]);
        }
        assert(kept_at(m0, ma, p));
    }
    if k > r + 1 {
        assert(kept_at(m0, ma, k - 1));
        assert(pos_ok(m0, w0, h0, n, k - 1));
        assert(h0[k - 1] == h0[r + 1]);
        assert(spec_continuation(m0[k]));
        assert(moved_at(m0, h0, mb, k - 1));
    } else {
        assert(mb == ma);
        assert(moved_at(m0, h0, ma, r));
    }
    assert(moved_at(m0, h0, mb, k - 1));
    assert forall|p: int| re <= p < k implies #[trigger] moved_at(m0, h0, mb, p) by {
        if p < k - 1 {
            if spec_continuation(ma[k]) {
                assert(mb[p] == ma.update(k - 1, mb[k - 1])[p]);
            }
            assert(moved_at(m0, h0, ma, p));
        }
    }
}

/// Once the run after `r` has moved and its last slot `r2` is cleared, the
/// walk has reached `r2`.
pub proof fn lemma_run_moved(
    m0: Seq<u8>,
    w0: Seq<u64>,
    h0: Seq<int>,
    ma: Seq<u8>,
    wa: Seq<u64>,
    mb: Seq<u8>,
    wb: Seq<u64>,
    c: int,
    d: int,
    re: int,
    cs: int,
    r: int,
    r2: int,
    nsc_a: int,
    nsc_b: int,
    nno: int,
)
    requires
        moving_run(m0, w0, h0, ma, wa, d, re, cs, r, r2, r2 + 1, nno),
        r + 1 <= r2,
        0 <= d <= re,
        nsc_a == (r + 1 - cs) - count_heads(m0, cs, r + 1),
        nsc_b == nsc_a + (r2 - (r + 1)),
        cs <= r + 1,
        wb == wa.update(r2, 0u64),
        mb == ma.update(r2, mb[r2]),
        !spec_continuation(mb[r2]),
        !spec_shifted(mb[r2]),
        spec_occupied(mb[r2]) == spec_occupied(ma[r2]),
    ensures
        delete_progress(m0, w0, h0, mb, wb, c, d, re, cs, r2, nsc_b, nno),
{
    assert(wb =~= shift_remove(w0, d, r2, 0u64));
    assert forall|p: int| 0 <= p < m0.len() implies spec_occupied(#[trigger] mb[p]) == (spec_occupied(m0[p]) && !(false
        && p == c)) by {
        if p != r2 {
            assert(mb[p] == ma[p]);
        }
    }
    assert forall|p: int|
        0 <= p < m0.len() && (p < re || p > r2) implies spec_continuation(#[trigger] mb[p]) == spec_continuation(m0[p])
        && spec_shifted(mb[p]) == spec_shifted(m0[p]) by {
        assert(mb[p] == ma[p]);
        assert(kept_at(m0, ma, p));
    }
    assert forall|p: int| re <= p < r2 implies spec_continuation(#[trigger] mb[p]) == spec_continuation(m0[p + 1])
        && spec_shifted(mb[p]) == (h0[p + 1] < p) by {
        assert(mb[p] == ma[p]);
        assert(moved_at(m0, h0, ma, p));
    }
    assert forall|q: int| re < q <= r2 implies #[trigger] h0[q] >= 0 && h0[q] < q by {
        if q > r {
            assert(h0[q] == h0[r + 1]);
        }
    }
    assert forall|q: int| cs <= q <= r2 implies #[trigger] h0[q] >= 0 by {
        if q > r {
            assert(h0[q] == h0[r + 1]);
        }
    }
    lemma_count_heads_split(m0, cs, r + 1, r2 + 1);
    lemma_count_heads_split(m0, r + 1, r + 2, r2 + 1);
    assert(count_heads(m0, r + 1, r + 1) == 0);
    assert(count_heads(m0, r + 1, r + 2) == 1);
    lemma_count_heads_zero(m0, r + 2, r2 + 1);
}

/// When the walk stops at `z`, the end of the cluster, clearing the
/// occupied flag of `c` if its run is gone leaves a sound layout.
pub proof fn lemma_delete_done(
    m0: Seq<u8>,
    w0: Seq<u64>,
    h0: Seq<int>,
    n: int,
    mz: Seq<u8>,
    wz: Seq<u64>,
    m1: Seq<u8>,
    c: int,
    rs: int,
    d: int,
    re: int,
    cs: int,
    z: int,
    nsc: int,
    nno: int,
    off: bool,
)
    requires
        delete_frame(m0, w0, h0, n, c, rs, d, re, cs),
        delete_progress(m0, w0, h0, mz, wz, c, d, re, cs, z, nsc, nno),
        z + 1 < h0.len() ==> meta_empty(mz[z + 1]) || !spec_shifted(mz[z + 1]),
        off == (rs == re),
        off ==> m1 == mz.update(c, m1[c]) && !spec_occupied(m1[c]) && spec_continuation(m1[c]) == spec_continuation(
            mz[c],
        ) && spec_shifted(m1[c]) == spec_shifted(mz[c]),
        !off ==> m1 == mz,
    ensures
        layout_ok(m1, wz, shift_remove(h0, d, z, -1int), n),
        stretch_end(h0, d, z),
{
    assert forall|q: int| d < q <= z implies 0 <= #[trigger] h0[q] < q by {
        if q <= re {
            assert(h0[q] == c);
            assert(pos_ok(m0, w0, h0, n, rs));
        }
    }
    if z + 1 < h0.len() {
        assert(kept_at(m0, mz, z + 1)) by {
            assert(spec_continuation(mz[z + 1]) == spec_continuation(m0[z + 1]));
        }
        assert(spec_occupied(mz[z + 1]) == spec_occupied(m0[z + 1]));
        assert(pos_ok(m0, w0, h0, n, z + 1));
    }
    assert(removed_flags(m0, h0, m1, c, re, z, off)) by {
        assert forall|p: int| 0 <= p < m0.len() implies spec_occupied(#[trigger] m1[p]) == (spec_occupied(m0[p])
            && !(off && p == c)) by {
            if p != c {
                assert(m1[p] == mz[p]);
            }
        }
        assert forall|p: int|
            0 <= p < m0.len() && (p < re || p > z) implies spec_continuation(#[trigger] m1[p]) == spec_continuation(
            m0[p],
        ) && spec_shifted(m1[p]) == spec_shifted(m0[p]) by {
            if p != c {
                assert(m1[p] == mz[p]);
            }
        }
        assert forall|p: int| re <= p < z implies spec_continuation(#[trigger] m1[p]) == spec_continuation(m0[p + 1])
            && spec_shifted(m1[p]) == (h0[p + 1] < p) by {
            if p != c {
                assert(m1[p] == mz[p]);
            }
        }
        if z != c {
            assert(m1[z] == mz[z]);
        }
    }
    lemma_remove_layout(m0, w0, h0, n, m1, wz, c, rs, d, re, z, off);
}

} // verus!
