//! The quotient-filter layout in the abstract.
//!
//! A table of slots is described by three sequences of equal length: the
//! metadata bytes `m`, the slot words `w`, and the home (canonical slot) `h`
//! of the entry held in each slot, `-1` for a slot that holds none. The
//! layout is sound when the flags are exactly those that the homes call for:
//! a slot is occupied when some entry has it as home, shifted when its entry
//! lies after its home, and a continuation when its entry has the home of the
//! entry before it; entries are sorted by home and each one lies at or after
//! its home with no gap between the two.

use vstd::prelude::*;
use crate::metadata::{spec_occupied, spec_continuation, spec_shifted, lemma_flags_byte};
use crate::slot::{spec_matches, spec_is_void, TOMBSTONE_MARKER};

verus! {

/// Whether a metadata byte has none of the three flags.
pub open spec fn meta_empty(m: u8) -> bool {
    !spec_occupied(m) && !spec_continuation(m) && !spec_shifted(m)
}

/// Whether some slot's entry has home `c`.
pub open spec fn is_home(h: Seq<int>, c: int) -> bool {
    exists|j: int| 0 <= j < h.len() && #[trigger] h[j] == c
}

/// The conditions on slot `i` of a sound layout with `n` logical slots.
pub open spec fn pos_ok(m: Seq<u8>, w: Seq<u64>, h: Seq<int>, n: int, i: int) -> bool {
    &&& -1 <= h[i] <= i
    &&& h[i] < n
    &&& (h[i] >= 0 <==> !meta_empty(m[i]))
    &&& h[i] >= 0 ==> (spec_shifted(m[i]) <==> h[i] < i)
    &&& h[i] >= 0 ==> (spec_continuation(m[i]) <==> (i > 0 && h[i - 1] == h[i]))
    &&& h[i] >= 0 && h[i] < i ==> h[i - 1] >= 0
    &&& h[i] < 0 ==> w[i] == 0
    &&& h[i] >= 0 ==> w[i] != 0
    &&& (spec_occupied(m[i]) <==> is_home(h, i))
}

/// Entries are sorted by home.
pub open spec fn homes_sorted(h: Seq<int>) -> bool {
    forall|i: int, j: int| 0 <= i < j < h.len() && h[i] >= 0 && h[j] >= 0 ==> #[trigger] h[i] <= #[trigger] h[j]
}

/// A sound layout.
pub open spec fn layout_ok(m: Seq<u8>, w: Seq<u64>, h: Seq<int>, n: int) -> bool {
    &&& m.len() == w.len()
    &&& h.len() == m.len()
    &&& forall|i: int| 0 <= i < h.len() ==> #[trigger] pos_ok(m, w, h, n, i)
    &&& homes_sorted(h)
}

/// Slot `r` holds the first entry with its home: the start of that home's run.
pub open spec fn first_of_home(h: Seq<int>, r: int) -> bool {
    forall|p: int| 0 <= p < r ==> #[trigger] h[p] != h[r]
}

/// Some entry with home `c` holds a word that matches the fingerprint `fp` of `len` bits.
pub open spec fn holds_match(h: Seq<int>, w: Seq<u64>, c: int, fp: u64, len: u8) -> bool {
    exists|i: int| 0 <= i < h.len() && h[i] == c && #[trigger] spec_matches(w[i], fp, len)
}

/// Number of occupied slots in `[lo, hi)`.
pub open spec fn count_occ(m: Seq<u8>, lo: int, hi: int) -> nat
    decreases hi - lo,
{
    if hi <= lo {
        0
    } else {
        count_occ(m, lo, hi - 1) + (if spec_occupied(m[hi - 1]) { 1nat } else { 0nat })
    }
}

/// Walking back from slot `p` over shifted slots: the first slot that is not
/// shifted, or slot 0.
pub open spec fn back_stop(m: Seq<u8>, p: int) -> int
    decreases p,
{
    if p <= 0 || !spec_shifted(m[p]) {
        p
    } else {
        back_stop(m, p - 1)
    }
}

/// How many runs a scan of the flags passes, from `back_stop(m, c)` on, to
/// reach the run of slot `c`: one more than the occupied slots after the
/// stop (the stop itself too when it is shifted) up to `c`.
pub open spec fn runs_to_pass(m: Seq<u8>, c: int) -> int {
    let b = back_stop(m, c);
    (1 + count_occ(m, if spec_shifted(m[b]) { b } else { b + 1 }, c + 1)) as int
}

/// Slot `p` starts the `k`-th run counted from slot `b`.
pub open spec fn kth_head(m: Seq<u8>, b: int, k: int, p: int) -> bool {
    b <= p < m.len() && !spec_continuation(m[p]) && count_heads(m, b, p) + 1 == k
}

/// Where a scan of the flags alone puts the run of canonical slot `c`: at
/// the start of the `runs_to_pass(m, c)`-th run from `back_stop(m, c)`, or at
/// `c` itself when the table ends first.
pub open spec fn run_start_of(m: Seq<u8>, c: int) -> int {
    let b = back_stop(m, c);
    let k = runs_to_pass(m, c);
    if exists|p: int| kth_head(m, b, k, p) {
        choose|p: int| kth_head(m, b, k, p)
    } else {
        c
    }
}

/// Some slot of the run that starts at slot `s` (`s` and the continuation
/// slots right after it) holds a word that matches `fp` of `len` bits.
#[verifier::opaque]
pub open spec fn run_matches(m: Seq<u8>, w: Seq<u64>, s: int, fp: u64, len: u8) -> bool {
    exists|p: int|
        s <= p < w.len() && (forall|j: int| s < j <= p ==> spec_continuation(#[trigger] m[j])) && #[trigger] spec_matches(
            w[p],
            fp,
            len,
        )
}

/// The start of a given run counted from a given slot is unique, so it is
/// where `run_start_of` puts the run.
pub proof fn lemma_run_start_is(m: Seq<u8>, c: int, p: int)
    requires
        kth_head(m, back_stop(m, c), runs_to_pass(m, c), p),
    ensures
        run_start_of(m, c) == p,
{
    let b = back_stop(m, c);
    let k = runs_to_pass(m, c);
    let q = choose|q: int| kth_head(m, b, k, q);
    assert(kth_head(m, b, k, q));
    if q < p {
        lemma_count_heads_split(m, b, q + 1, p);
    } else if p < q {
        lemma_count_heads_split(m, b, p + 1, q);
    }
}

/// With fewer than `k` run starts from `b` to the end, no slot starts the
/// `k`-th run.
pub proof fn lemma_no_kth_head(m: Seq<u8>, b: int, k: int)
    requires
        0 <= b <= m.len(),
        count_heads(m, b, m.len() as int) < k,
    ensures
        forall|p: int| !#[trigger] kth_head(m, b, k, p),
{
    assert forall|p: int| !#[trigger] kth_head(m, b, k, p) by {
        if kth_head(m, b, k, p) {
            lemma_count_heads_split(m, b, p + 1, m.len() as int);
        }
    }
}

/// Number of slots in `[lo, hi)` that are not continuations.
pub open spec fn count_heads(m: Seq<u8>, lo: int, hi: int) -> nat
    decreases hi - lo,
{
    if hi <= lo {
        0
    } else {
        count_heads(m, lo, hi - 1) + (if !spec_continuation(m[hi - 1]) { 1nat } else { 0nat })
    }
}

pub proof fn lemma_count_occ_split(m: Seq<u8>, lo: int, mid: int, hi: int)
    requires
        lo <= mid <= hi,
    ensures
        count_occ(m, lo, mid) + count_occ(m, mid, hi) == count_occ(m, lo, hi),
    decreases hi - mid,
{
    if hi > mid {
        lemma_count_occ_split(m, lo, mid, hi - 1);
    }
}

pub proof fn lemma_count_heads_split(m: Seq<u8>, lo: int, mid: int, hi: int)
    requires
        lo <= mid <= hi,
    ensures
        count_heads(m, lo, mid) + count_heads(m, mid, hi) == count_heads(m, lo, hi),
    decreases hi - mid,
{
    if hi > mid {
        lemma_count_heads_split(m, lo, mid, hi - 1);
    }
}

/// A range with no occupied slot counts zero; a count of zero means none.
pub proof fn lemma_count_occ_zero(m: Seq<u8>, lo: int, hi: int)
    ensures
        count_occ(m, lo, hi) == 0 <==> (forall|p: int| lo <= p < hi ==> !spec_occupied(#[trigger] m[p])),
    decreases hi - lo,
{
    if hi > lo {
        lemma_count_occ_zero(m, lo, hi - 1);
        if count_occ(m, lo, hi) == 0 {
            assert forall|p: int| lo <= p < hi implies !spec_occupied(#[trigger] m[p]) by {
                if p < hi - 1 {
                } else {
                }
            }
        }
    }
}

/// Every filled slot between an entry's home and the entry itself: the
/// slots from `p` up to `j` hold entries when `h[j] <= p <= j`.
pub proof fn lemma_contig(m: Seq<u8>, w: Seq<u64>, h: Seq<int>, n: int, j: int, p: int)
    requires
        layout_ok(m, w, h, n),
        0 <= j < h.len(),
        h[j] >= 0,
        h[j] <= p <= j,
    ensures
        h[p] >= 0,
    decreases j - p,
{
    if p < j {
        assert(pos_ok(m, w, h, n, j));
        assert(h[j - 1] >= 0);
        assert(h[j - 1] <= h[j]);
        lemma_contig(m, w, h, n, j - 1, p);
    }
}

/// Within a cluster that starts at `cs`, the number of run heads up to slot
/// `i` equals the number of occupied slots up to the home of slot `i`.
pub proof fn lemma_rank(m: Seq<u8>, w: Seq<u64>, h: Seq<int>, n: int, cs: int, i: int)
    requires
        layout_ok(m, w, h, n),
        0 <= cs <= i < h.len(),
        h[cs] == cs,
        forall|p: int| cs <= p <= i ==> #[trigger] h[p] >= 0,
    ensures
        cs <= h[i],
        count_heads(m, cs, i + 1) == count_occ(m, cs, h[i] + 1),
    decreases i - cs,
{
    assert(pos_ok(m, w, h, n, i));
    assert(pos_ok(m, w, h, n, cs));
    if i == cs {
        assert(is_home(h, cs)) by {
            assert(h[cs] == cs);
        }
        if cs > 0 {
            assert(pos_ok(m, w, h, n, cs - 1));
        }
        assert(count_heads(m, cs, cs) == 0);
        assert(count_occ(m, cs, cs) == 0);
    } else {
        lemma_rank(m, w, h, n, cs, i - 1);
        assert(h[i - 1] >= 0);
        assert(h[i - 1] <= h[i]);
        lemma_count_heads_split(m, cs, i, i + 1);
        if h[i - 1] == h[i] {
            assert(count_heads(m, i, i + 1) == 0);
        } else {
            assert(count_heads(m, i, i + 1) == 1);
            lemma_count_occ_split(m, cs, h[i - 1] + 1, h[i] + 1);
            lemma_count_occ_split(m, h[i - 1] + 1, h[i], h[i] + 1);
            assert(pos_ok(m, w, h, n, h[i]));
            assert(is_home(h, h[i])) by {
                assert(h[i] == h[i]);
            }
            assert forall|p: int| h[i - 1] + 1 <= p < h[i] implies !spec_occupied(#[trigger] m[p]) by {
                assert(pos_ok(m, w, h, n, p));
                if spec_occupied(m[p]) {
                    let j = choose|j: int| 0 <= j < h.len() && #[trigger] h[j] == p;
                    if j <= i - 1 {
                        if j < i - 1 {
                            assert(h[j] <= h[i - 1]);
                        }
                    } else {
                        if j > i {
                            assert(h[i] <= h[j]);
                        }
                    }
                }
            }
            lemma_count_occ_zero(m, h[i - 1] + 1, h[i]);
            assert(count_occ(m, h[i], h[i] + 1) == 1);
        }
    }
}

/// The last occupied slot before `c` in `[cs, c)`, when there is one.
pub proof fn lemma_last_occ(m: Seq<u8>, cs: int, c: int) -> (t: int)
    requires
        cs < c,
        count_occ(m, cs, c) >= 1,
    ensures
        cs <= t < c,
        spec_occupied(m[t]),
        count_occ(m, cs, t + 1) == count_occ(m, cs, c),
        forall|p: int| t < p < c ==> !spec_occupied(#[trigger] m[p]),
    decreases c - cs,
{
    if spec_occupied(m[c - 1]) {
        c - 1
    } else {
        assert(count_occ(m, cs, c) == count_occ(m, cs, c - 1));
        let t = lemma_last_occ(m, cs, c - 1);
        t
    }
}

/// A table whose bytes and words are all zero, holding no entry, is sound.
pub proof fn lemma_clear_layout(m: Seq<u8>, w: Seq<u64>, h: Seq<int>, n: int)
    requires
        m.len() == w.len(),
        h.len() == m.len(),
        n >= 0,
        forall|i: int| 0 <= i < m.len() ==> #[trigger] m[i] == 0,
        forall|i: int| 0 <= i < w.len() ==> #[trigger] w[i] == 0,
        forall|i: int| 0 <= i < h.len() ==> #[trigger] h[i] == -1,
    ensures
        layout_ok(m, w, h, n),
{
    assert forall|i: int| 0 <= i < h.len() implies #[trigger] pos_ok(m, w, h, n, i) by {
        assert(m[i] == 0);
        assert(w[i] == 0);
        if is_home(h, i) {
            let j = choose|j: int| 0 <= j < h.len() && #[trigger] h[j] == i;
            assert(h[j] == -1);
        }
    }
}


/// The first slot at or after `p` that is not a continuation (or `m.len()`).
pub open spec fn next_head(m: Seq<u8>, p: int) -> int
    decreases m.len() - p,
{
    if p >= m.len() || !spec_continuation(m[p]) {
        p
    } else {
        next_head(m, p + 1)
    }
}

/// The first slot at or after `p` with no flag set (or `m.len()`).
pub open spec fn next_empty(m: Seq<u8>, p: int) -> int
    decreases m.len() - p,
{
    if p >= m.len() || meta_empty(m[p]) {
        p
    } else {
        next_empty(m, p + 1)
    }
}

pub proof fn lemma_next_head(m: Seq<u8>, p: int)
    requires
        0 <= p <= m.len(),
    ensures
        p <= next_head(m, p) <= m.len(),
        forall|q: int| p <= q < next_head(m, p) ==> spec_continuation(#[trigger] m[q]),
        next_head(m, p) < m.len() ==> !spec_continuation(m[next_head(m, p)]),
    decreases m.len() - p,
{
    if p < m.len() && spec_continuation(m[p]) {
        lemma_next_head(m, p + 1);
    }
}

pub proof fn lemma_next_empty(m: Seq<u8>, p: int)
    requires
        0 <= p <= m.len(),
    ensures
        p <= next_empty(m, p) <= m.len(),
        forall|q: int| p <= q < next_empty(m, p) ==> !meta_empty(#[trigger] m[q]),
        next_empty(m, p) < m.len() ==> meta_empty(m[next_empty(m, p)]),
    decreases m.len() - p,
{
    if p < m.len() && !meta_empty(m[p]) {
        lemma_next_empty(m, p + 1);
    }
}

/// `s` with `x` put at `ip` and the items of `[ip, z)` moved one slot right
/// (the item at `z` is dropped).
pub open spec fn shift_insert<T>(s: Seq<T>, x: T, ip: int, z: int) -> Seq<T> {
    Seq::new(s.len(), |p: int| if p < ip || p > z { s[p] } else if p == ip { x } else { s[p - 1] })
}

/// The flags and words of a table after an entry of home `c` and word `x`
/// goes to slot `ip`, the entries of `[ip, z)` moving right by one:
/// `c` becomes occupied, the moved slots are shifted and carry their
/// continuation flags along, and slot `ip` is shifted unless it is `c`, and a
/// continuation when `joins`.
pub open spec fn inserted_state(
    m0: Seq<u8>,
    w0: Seq<u64>,
    m1: Seq<u8>,
    w1: Seq<u64>,
    c: int,
    x: u64,
    ip: int,
    z: int,
    joins: bool,
) -> bool {
    &&& m1.len() == m0.len()
    &&& w0.len() == m0.len()
    &&& 0 <= ip <= z < m0.len()
    &&& w1 == shift_insert(w0, x, ip, z)
    &&& forall|p: int| 0 <= p < m0.len() ==> (spec_occupied(#[trigger] m1[p]) == (spec_occupied(m0[p]) || p == c))
    &&& forall|p: int|
        0 <= p < m0.len() && (p < ip || p > z) ==> (spec_continuation(#[trigger] m1[p]) == spec_continuation(m0[p])
            && spec_shifted(m1[p]) == spec_shifted(m0[p]))
    &&& spec_shifted(m1[ip]) == (c < ip)
    &&& spec_continuation(m1[ip]) == joins
    &&& forall|p: int| ip < p <= z ==> spec_shifted(#[trigger] m1[p]) && (spec_continuation(m1[p]) == spec_continuation(m0[p - 1]))
}

/// The homes after the insertion hold exactly the old homes and `c`.
pub proof fn lemma_shift_insert_is_home(h: Seq<int>, c: int, ip: int, z: int, x: int)
    requires
        0 <= ip <= z < h.len(),
        h[z] < 0,
        x >= 0,
    ensures
        is_home(shift_insert(h, c, ip, z), x) <==> (is_home(h, x) || x == c),
{
    let h1 = shift_insert(h, c, ip, z);
    if is_home(h, x) {
        let j = choose|j: int| 0 <= j < h.len() && #[trigger] h[j] == x;
        if j < ip || j > z {
            assert(h1[j] == x);
        } else {
            assert(j != z);
            assert(h1[j + 1] == x);
        }
    }
    if x == c {
        assert(h1[ip] == c);
    }
    if is_home(h1, x) {
        let j = choose|j: int| 0 <= j < h1.len() && #[trigger] h1[j] == x;
        if j < ip || j > z {
            assert(h[j] == x);
        } else if j > ip {
            assert(h[j - 1] == x);
        }
    }
}

/// Inserting an entry at the end of the entries of smaller or equal home,
/// moving the following entries of the cluster right up to the first empty
/// slot, keeps the layout sound.
pub proof fn lemma_insert_layout(
    m0: Seq<u8>,
    w0: Seq<u64>,
    h: Seq<int>,
    n: int,
    m1: Seq<u8>,
    w1: Seq<u64>,
    c: int,
    x: u64,
    ip: int,
    z: int,
    joins: bool,
)
    requires
        layout_ok(m0, w0, h, n),
        0 <= c < n,
        c <= ip,
        h[z] < 0,
        forall|p: int| ip <= p < z ==> #[trigger] h[p] >= 0,
        forall|p: int| 0 <= p < ip && h[p] >= 0 ==> #[trigger] h[p] <= c,
        forall|p: int| ip <= p < h.len() && h[p] >= 0 ==> #[trigger] h[p] > c,
        ip > c ==> h[ip - 1] >= 0,
        x != 0,
        inserted_state(m0, w0, m1, w1, c, x, ip, z, joins),
        joins == (ip > 0 && h[ip - 1] == c),
    ensures
        layout_ok(m1, w1, shift_insert(h, c, ip, z), n),
{
    let h1 = shift_insert(h, c, ip, z);
    assert(h1.len() == h.len());
    assert forall|p: int| 0 <= p < h1.len() implies #[trigger] pos_ok(m1, w1, h1, n, p) by {
        assert(pos_ok(m0, w0, h, n, p));
        lemma_shift_insert_is_home(h, c, ip, z, p);
        if p < ip {
            if p == c {
                assert(h[ip - 1] <= c);
                lemma_contig(m0, w0, h, n, ip - 1, c);
            }
            if p > 0 {
                assert(pos_ok(m0, w0, h, n, p - 1));
            }
        } else if p == ip {
            if ip > 0 {
                assert(h1[ip - 1] == h[ip - 1]);
            }
        } else if p <= z {
            assert(pos_ok(m0, w0, h, n, p - 1));
            assert(h1[p] == h[p - 1]);
            if p - 1 == ip {
                assert(h1[p - 1] == c);
                assert(h[ip] > c);
                if ip > 0 {
                    assert(pos_ok(m0, w0, h, n, ip - 1));
                    if h[ip - 1] >= 0 {
                        if ip - 1 < ip {
                            assert(h[ip - 1] <= c);
                        }
                    }
                }
            } else {
                assert(h1[p - 1] == h[p - 2]);
            }
        } else {
            if p == z + 1 {
                if h[p] >= 0 {
                    assert(h[p] == p);
                    assert(h1[p - 1] < p) by {
                        if z == ip {
                            assert(h1[z] == c);
                        } else {
                            assert(pos_ok(m0, w0, h, n, z - 1));
                        }
                    }
                }
            } else {
                assert(pos_ok(m0, w0, h, n, p - 1));
            }
        }
    }
    assert forall|i: int, j: int| 0 <= i < j < h1.len() && h1[i] >= 0 && h1[j] >= 0 implies #[trigger] h1[i]
        <= #[trigger] h1[j] by {
        let i0 = if i < ip || i > z { i } else if i == ip { -1 } else { i - 1 };
        let j0 = if j < ip || j > z { j } else if j == ip { -1 } else { j - 1 };
        if i == ip {
            assert(h[j0] > c);
        } else if j == ip {
            assert(h[i0] <= c);
        } else {
            assert(i0 < j0);
            assert(h[i0] <= h[j0]);
        }
    }
}


/// The run that starts at `rs` fills `[rs, next_head(m, rs + 1))`: the
/// entries before it have smaller homes, those after it larger ones.
pub proof fn lemma_run_extent(m: Seq<u8>, w: Seq<u64>, h: Seq<int>, n: int, rs: int)
    requires
        layout_ok(m, w, h, n),
        0 <= rs < h.len(),
        h[rs] >= 0,
        first_of_home(h, rs),
    ensures
        rs < next_head(m, rs + 1) <= h.len(),
        forall|p: int| rs <= p < next_head(m, rs + 1) ==> #[trigger] h[p] == h[rs],
        forall|p: int| next_head(m, rs + 1) <= p < h.len() && h[p] >= 0 ==> #[trigger] h[p] > h[rs],
        forall|p: int| 0 <= p < rs && h[p] >= 0 ==> #[trigger] h[p] < h[rs],
{
    let e = next_head(m, rs + 1);
    lemma_next_head(m, rs + 1);
    lemma_run_body(m, w, h, n, rs, e);
    assert forall|p: int| e <= p < h.len() && h[p] >= 0 implies #[trigger] h[p] > h[rs] by {
        assert(h[rs] <= h[p]);
        if h[p] == h[rs] {
            // the slots from the run's end up to `p` all hold entries of this home
            assert(pos_ok(m, w, h, n, rs));
            assert(pos_ok(m, w, h, n, e));
            lemma_contig(m, w, h, n, p, e);
            assert(h[e] >= 0);
            assert(h[e - 1] == h[rs]);
            if e < p {
                assert(h[e] <= h[p]);
            }
            assert(h[rs] <= h[e]);
            assert(h[e] == h[rs]);
            assert(spec_continuation(m[e]));
        }
    }
    assert forall|p: int| 0 <= p < rs && h[p] >= 0 implies #[trigger] h[p] < h[rs] by {
        assert(h[p] <= h[rs]);
        assert(h[p] != h[rs]);
    }
}

pub proof fn lemma_run_body(m: Seq<u8>, w: Seq<u64>, h: Seq<int>, n: int, rs: int, e: int)
    requires
        layout_ok(m, w, h, n),
        0 <= rs < e <= h.len(),
        h[rs] >= 0,
        forall|q: int| rs + 1 <= q < e ==> spec_continuation(#[trigger] m[q]),
    ensures
        forall|p: int| rs <= p < e ==> #[trigger] h[p] == h[rs],
    decreases e - rs,
{
    if e > rs + 1 {
        lemma_run_body(m, w, h, n, rs, e - 1);
        assert(pos_ok(m, w, h, n, e - 1));
        assert(spec_continuation(m[e - 1]));
        assert(h[e - 2] == h[rs]);
    }
}

/// With `[a, b)` filled, the first empty slot at or after `a` is the one at or after `b`.
pub proof fn lemma_next_empty_skip(m: Seq<u8>, a: int, b: int)
    requires
        0 <= a <= b <= m.len(),
        forall|p: int| a <= p < b ==> !meta_empty(#[trigger] m[p]),
    ensures
        next_empty(m, a) == next_empty(m, b),
    decreases b - a,
{
    if a < b {
        lemma_next_empty_skip(m, a + 1, b);
    }
}


/// `h1`/`w1` are `h0`/`w0` with the entry `(c, x)` put at some slot `ip`, the
/// entries from `ip` up to the first empty slot `z` moving right by one; the
/// entries that were at or after `ip` all have homes after `c`.
pub open spec fn inserted_entry(h0: Seq<int>, w0: Seq<u64>, h1: Seq<int>, w1: Seq<u64>, c: int, x: u64) -> bool {
    exists|ip: int, z: int|
        0 <= ip <= z < h0.len() && h0[z] < 0 && h1 == #[trigger] shift_insert(h0, c, ip, z) && w1 == shift_insert(
            w0,
            x,
            ip,
            z,
        ) && (forall|p: int| ip <= p < z ==> #[trigger] h0[p] >= 0) && (forall|p: int|
            ip <= p < h0.len() && h0[p] >= 0 ==> #[trigger] h0[p] > c)
}

/// After an insertion the new entry is there.
pub proof fn lemma_inserted_has(h0: Seq<int>, w0: Seq<u64>, h1: Seq<int>, w1: Seq<u64>, c: int, x: u64)
    requires
        inserted_entry(h0, w0, h1, w1, c, x),
        w0.len() == h0.len(),
    ensures
        exists|i: int| 0 <= i < h1.len() && #[trigger] h1[i] == c && w1[i] == x,
{
    let (ip, z) = choose|ip: int, z: int|
        0 <= ip <= z < h0.len() && h0[z] < 0 && h1 == #[trigger] shift_insert(h0, c, ip, z) && w1 == shift_insert(
            w0,
            x,
            ip,
            z,
        );
    assert(h1[ip] == c && w1[ip] == x);
}

/// After an insertion every old entry is still there.
pub proof fn lemma_inserted_keeps(
    h0: Seq<int>,
    w0: Seq<u64>,
    h1: Seq<int>,
    w1: Seq<u64>,
    c: int,
    x: u64,
    q: int,
    fp: u64,
    len: u8,
)
    requires
        inserted_entry(h0, w0, h1, w1, c, x),
        w0.len() == h0.len(),
        q >= 0,
        holds_match(h0, w0, q, fp, len),
    ensures
        holds_match(h1, w1, q, fp, len),
{
    let (ip, z) = choose|ip: int, z: int|
        0 <= ip <= z < h0.len() && h0[z] < 0 && h1 == #[trigger] shift_insert(h0, c, ip, z) && w1 == shift_insert(
            w0,
            x,
            ip,
            z,
        );
    let i = choose|i: int| 0 <= i < h0.len() && h0[i] == q && #[trigger] spec_matches(w0[i], fp, len);
    if i < ip || i > z {
        assert(h1[i] == q && w1[i] == w0[i]);
    } else {
        assert(i != z);
        assert(h1[i + 1] == q && w1[i + 1] == w0[i]);
    }
}


/// The occupied slots of `[lo, hi)`, in increasing order.
pub open spec fn occ_list(m: Seq<u8>, lo: int, hi: int) -> Seq<int>
    decreases hi - lo,
{
    if hi <= lo {
        Seq::empty()
    } else if spec_occupied(m[hi - 1]) {
        occ_list(m, lo, hi - 1).push(hi - 1)
    } else {
        occ_list(m, lo, hi - 1)
    }
}

/// An occupied lower bound leads the list.
pub proof fn lemma_occ_list_front(m: Seq<u8>, lo: int, hi: int)
    requires
        lo < hi,
        spec_occupied(m[lo]),
    ensures
        occ_list(m, lo, hi) == seq![lo] + occ_list(m, lo + 1, hi),
    decreases hi - lo,
{
    if hi - 1 > lo {
        lemma_occ_list_front(m, lo, hi - 1);
        if spec_occupied(m[hi - 1]) {
            assert(occ_list(m, lo, hi) == (seq![lo] + occ_list(m, lo + 1, hi - 1)).push(hi - 1));
            assert((seq![lo] + occ_list(m, lo + 1, hi - 1)).push(hi - 1) =~= seq![lo] + occ_list(m, lo + 1, hi - 1).push(
                hi - 1,
            ));
        }
    } else {
        assert(occ_list(m, lo, lo) =~= Seq::<int>::empty());
        assert(occ_list(m, lo + 1, hi) =~= Seq::<int>::empty());
        assert(occ_list(m, lo, hi) =~= seq![lo]);
    }
}

/// Slots with no occupied flag below `mid` add nothing to the list.
pub proof fn lemma_occ_list_skip(m: Seq<u8>, lo: int, mid: int, hi: int)
    requires
        lo <= mid <= hi,
        forall|p: int| lo <= p < mid ==> !spec_occupied(#[trigger] m[p]),
    ensures
        occ_list(m, lo, hi) == occ_list(m, mid, hi),
    decreases hi - lo,
{
    if hi > mid {
        lemma_occ_list_skip(m, lo, mid, hi - 1);
    } else {
        lemma_occ_list_empty(m, lo, hi);
        assert(occ_list(m, mid, hi) =~= Seq::<int>::empty());
    }
}

proof fn lemma_occ_list_empty(m: Seq<u8>, lo: int, hi: int)
    requires
        forall|p: int| lo <= p < hi ==> !spec_occupied(#[trigger] m[p]),
    ensures
        occ_list(m, lo, hi) =~= Seq::<int>::empty(),
    decreases hi - lo,
{
    if hi > lo {
        lemma_occ_list_empty(m, lo, hi - 1);
    }
}

/// Between the homes of two neighbouring entries no slot is occupied.
pub proof fn lemma_no_occ_between(m: Seq<u8>, w: Seq<u64>, h: Seq<int>, n: int, i: int)
    requires
        layout_ok(m, w, h, n),
        0 < i < h.len(),
        h[i - 1] >= 0,
        h[i] >= 0,
    ensures
        forall|p: int| h[i - 1] < p < h[i] ==> !spec_occupied(#[trigger] m[p]),
{
    assert forall|p: int| h[i - 1] < p < h[i] implies !spec_occupied(#[trigger] m[p]) by {
        assert(pos_ok(m, w, h, n, i));
        assert(pos_ok(m, w, h, n, p));
        if spec_occupied(m[p]) {
            let j = choose|j: int| 0 <= j < h.len() && #[trigger] h[j] == p;
            if j <= i - 1 {
                if j < i - 1 {
                    assert(h[j] <= h[i - 1]);
                }
            } else {
                if j > i {
                    assert(h[i] <= h[j]);
                }
            }
        }
    }
}


/// Some slot holds an entry of home `c` with word `x`.
pub open spec fn holds_pair(h: Seq<int>, w: Seq<u64>, c: int, x: u64) -> bool {
    exists|i: int| 0 <= i < h.len() && #[trigger] h[i] == c && w[i] == x
}

/// After an insertion every old (home, word) pair is still there, and so is the new one.
pub proof fn lemma_inserted_pairs(h0: Seq<int>, w0: Seq<u64>, h1: Seq<int>, w1: Seq<u64>, c: int, x: u64)
    requires
        inserted_entry(h0, w0, h1, w1, c, x),
        w0.len() == h0.len(),
    ensures
        holds_pair(h1, w1, c, x),
        forall|q: int, y: u64| q >= 0 && holds_pair(h0, w0, q, y) ==> #[trigger] holds_pair(h1, w1, q, y),
        forall|i: int|
            0 <= i < h1.len() && h1[i] >= 0 ==> (h1[i] == c && w1[i] == x) || exists|j: int|
                0 <= j < h0.len() && #[trigger] h0[j] == h1[i] && w0[j] == w1[i],
{
    let (ip, z) = choose|ip: int, z: int|
        0 <= ip <= z < h0.len() && h0[z] < 0 && h1 == #[trigger] shift_insert(h0, c, ip, z) && w1 == shift_insert(
            w0,
            x,
            ip,
            z,
        );
    assert(h1[ip] == c && w1[ip] == x);
    assert forall|q: int, y: u64| q >= 0 && holds_pair(h0, w0, q, y) implies #[trigger] holds_pair(h1, w1, q, y) by {
        let i = choose|i: int| 0 <= i < h0.len() && #[trigger] h0[i] == q && w0[i] == y;
        if i < ip || i > z {
            assert(h1[i] == q && w1[i] == y);
        } else {
            assert(i != z);
            assert(h1[i + 1] == q && w1[i + 1] == y);
        }
    }
    assert forall|i: int| 0 <= i < h1.len() && h1[i] >= 0 implies (h1[i] == c && w1[i] == x) || exists|j: int|
        0 <= j < h0.len() && #[trigger] h0[j] == h1[i] && w0[j] == w1[i] by {
        if i < ip || i > z {
            assert(h0[i] == h1[i] && w0[i] == w1[i]);
        } else if i > ip {
            assert(h0[i - 1] == h1[i] && w0[i - 1] == w1[i]);
        }
    }
}

/// The counts grow with the upper bound.
pub proof fn lemma_count_occ_mono(m: Seq<u8>, lo: int, a: int, b: int)
    requires
        lo <= a <= b,
    ensures
        count_occ(m, lo, a) <= count_occ(m, lo, b),
{
    lemma_count_occ_split(m, lo, a, b);
}



/// `s` with the item at `d` taken out: the items of `(d, z]` move left by one
/// and `fill` goes to `z`.
pub open spec fn shift_remove<T>(s: Seq<T>, d: int, z: int, fill: T) -> Seq<T> {
    Seq::new(s.len(), |p: int| if p < d || p > z { s[p] } else if p < z { s[p + 1] } else { fill })
}

/// The flags of a table after the entry at some slot of the run that ends at
/// `re` is taken out and the entries up to `z` move left by one: the occupied
/// flags stay, but that of `c` is cleared when `off`; the flags before `re`
/// and after `z` stay; a slot of `[re, z)` takes the continuation flag of the
/// slot after it and is shifted when the entry it now holds lies after its
/// home; slot `z` has neither flag.
pub open spec fn removed_flags(m0: Seq<u8>, h: Seq<int>, m1: Seq<u8>, c: int, re: int, z: int, off: bool) -> bool {
    &&& m1.len() == m0.len()
    &&& forall|p: int| 0 <= p < m0.len() ==> spec_occupied(#[trigger] m1[p]) == (spec_occupied(m0[p]) && !(off && p == c))
    &&& forall|p: int|
        0 <= p < m0.len() && (p < re || p > z) ==> spec_continuation(#[trigger] m1[p]) == spec_continuation(m0[p])
            && spec_shifted(m1[p]) == spec_shifted(m0[p])
    &&& forall|p: int|
        re <= p < z ==> spec_continuation(#[trigger] m1[p]) == spec_continuation(m0[p + 1]) && spec_shifted(m1[p]) == (h[p
            + 1] < p)
    &&& !spec_continuation(m1[z])
    &&& !spec_shifted(m1[z])
}

/// The entries of home `c` are exactly those of the run `[rs, re]`.
pub proof fn lemma_run_members(m: Seq<u8>, w: Seq<u64>, h: Seq<int>, n: int, rs: int, re: int)
    requires
        layout_ok(m, w, h, n),
        0 <= rs <= re < h.len(),
        h[rs] >= 0,
        first_of_home(h, rs),
        forall|p: int| rs <= p <= re ==> #[trigger] h[p] == h[rs],
        re + 1 < h.len() ==> h[re + 1] != h[rs],
    ensures
        forall|j: int| 0 <= j < h.len() && #[trigger] h[j] == h[rs] ==> rs <= j <= re,
{
    assert forall|j: int| 0 <= j < h.len() && #[trigger] h[j] == h[rs] implies rs <= j <= re by {
        if j < rs {
            assert(h[j] != h[rs]);
        }
        if j > re {
            assert(h[re] == h[rs]);
            assert(pos_ok(m, w, h, n, rs));
            lemma_contig(m, w, h, n, j, re + 1);
            if re + 1 < j {
                assert(h[re + 1] <= h[j]);
            }
            assert(h[re] <= h[re + 1]);
        }
    }
}

/// After a removal the homes are those of every slot but `d`.
pub proof fn lemma_shift_remove_is_home(h: Seq<int>, d: int, z: int, x: int)
    requires
        0 <= d <= z < h.len(),
        x >= 0,
    ensures
        is_home(shift_remove(h, d, z, -1int), x) <==> exists|j: int| 0 <= j < h.len() && j != d && #[trigger] h[j] == x,
{
    let h1 = shift_remove(h, d, z, -1int);
    if is_home(h1, x) {
        let j = choose|j: int| 0 <= j < h1.len() && #[trigger] h1[j] == x;
        if j < d || j > z {
            assert(h[j] == x);
        } else {
            assert(j != z);
            assert(h[j + 1] == x);
        }
    }
    if exists|j: int| 0 <= j < h.len() && j != d && #[trigger] h[j] == x {
        let j = choose|j: int| 0 <= j < h.len() && j != d && #[trigger] h[j] == x;
        if j < d || j > z {
            assert(h1[j] == x);
        } else {
            assert(h1[j - 1] == x);
        }
    }
}

/// A run with one entry vanishes with it; any other home keeps its entries.
proof fn lemma_removed_homes(m: Seq<u8>, w: Seq<u64>, h: Seq<int>, n: int, rs: int, d: int, re: int, z: int, x: int)
    requires
        layout_ok(m, w, h, n),
        0 <= rs <= d <= re <= z < h.len(),
        h[rs] >= 0,
        first_of_home(h, rs),
        forall|p: int| rs <= p <= re ==> #[trigger] h[p] == h[rs],
        re + 1 < h.len() ==> h[re + 1] != h[rs],
        x >= 0,
    ensures
        is_home(shift_remove(h, d, z, -1int), x) <==> (is_home(h, x) && !(rs == re && x == h[rs])),
{
    lemma_shift_remove_is_home(h, d, z, x);
    lemma_run_members(m, w, h, n, rs, re);
    if is_home(h, x) && !(rs == re && x == h[rs]) {
        let j = choose|j: int| 0 <= j < h.len() && #[trigger] h[j] == x;
        if j == d {
            if d > rs {
                assert(h[rs] == x);
            } else {
                assert(h[re] == x);
            }
        }
    }
    if exists|j: int| 0 <= j < h.len() && j != d && #[trigger] h[j] == x {
        let j = choose|j: int| 0 <= j < h.len() && j != d && #[trigger] h[j] == x;
        assert(is_home(h, x));
    }
}

/// Slot `p` of the table after a removal, when `p` lies before the removed entry.
proof fn lemma_removed_before(
    m0: Seq<u8>, w0: Seq<u64>, h: Seq<int>, n: int, m1: Seq<u8>, w1: Seq<u64>,
    c: int, rs: int, d: int, re: int, z: int, off: bool, p: int,
)
    requires
        layout_ok(m0, w0, h, n),
        0 <= rs <= d <= re <= z < h.len(),
        h[rs] == c,
        c >= 0,
        first_of_home(h, rs),
        forall|q: int| rs <= q <= re ==> #[trigger] h[q] == c,
        re + 1 < h.len() ==> h[re + 1] != c,
        off == (rs == re),
        w1 == shift_remove(w0, d, z, 0u64),
        removed_flags(m0, h, m1, c, re, z, off),
        0 <= p < d,
    ensures
        pos_ok(m1, w1, shift_remove(h, d, z, -1int), n, p),
{
    let h1 = shift_remove(h, d, z, -1int);
    assert(pos_ok(m0, w0, h, n, p));
    lemma_removed_homes(m0, w0, h, n, rs, d, re, z, p);
    if p > 0 {
        assert(h1[p - 1] == h[p - 1]);
    }
    if off && p == c {
        lemma_contig(m0, w0, h, n, rs, c);
        assert(h[c] != c) by {
            assert(c < rs);
        }
    }
}

/// Slot `p` of the table after a removal, when `p` lies inside the removed entry's run.
proof fn lemma_removed_in_run(
    m0: Seq<u8>, w0: Seq<u64>, h: Seq<int>, n: int, m1: Seq<u8>, w1: Seq<u64>,
    c: int, rs: int, d: int, re: int, z: int, off: bool, p: int,
)
    requires
        layout_ok(m0, w0, h, n),
        0 <= rs <= d <= re <= z < h.len(),
        h[rs] == c,
        c >= 0,
        first_of_home(h, rs),
        forall|q: int| rs <= q <= re ==> #[trigger] h[q] == c,
        re + 1 < h.len() ==> h[re + 1] != c,
        off == (rs == re),
        w1 == shift_remove(w0, d, z, 0u64),
        removed_flags(m0, h, m1, c, re, z, off),
        d <= p < re,
    ensures
        pos_ok(m1, w1, shift_remove(h, d, z, -1int), n, p),
{
    let h1 = shift_remove(h, d, z, -1int);
    assert(pos_ok(m0, w0, h, n, p));
    assert(pos_ok(m0, w0, h, n, p + 1));
    assert(h1[p] == h[p + 1]);
    assert(w1[p] == w0[p + 1]);
    assert(h[p + 1] == c);
    assert(h[p] == c);
    assert(!off);
    lemma_removed_homes(m0, w0, h, n, rs, d, re, z, p);
    if p > d {
        assert(h1[p - 1] == h[p]);
    } else if p > 0 {
        assert(h1[p - 1] == h[p - 1]);
    }
}

/// Slot `p` of the table after a removal, when `p` takes the entry of a later run.
proof fn lemma_removed_moved(
    m0: Seq<u8>, w0: Seq<u64>, h: Seq<int>, n: int, m1: Seq<u8>, w1: Seq<u64>,
    c: int, rs: int, d: int, re: int, z: int, off: bool, p: int,
)
    requires
        layout_ok(m0, w0, h, n),
        0 <= rs <= d <= re <= z < h.len(),
        h[rs] == c,
        c >= 0,
        first_of_home(h, rs),
        forall|q: int| rs <= q <= re ==> #[trigger] h[q] == c,
        re + 1 < h.len() ==> h[re + 1] != c,
        forall|q: int| re < q <= z ==> #[trigger] h[q] >= 0 && h[q] < q,
        off == (rs == re),
        w1 == shift_remove(w0, d, z, 0u64),
        removed_flags(m0, h, m1, c, re, z, off),
        re <= p < z,
    ensures
        pos_ok(m1, w1, shift_remove(h, d, z, -1int), n, p),
{
    let h1 = shift_remove(h, d, z, -1int);
    assert(pos_ok(m0, w0, h, n, p + 1));
    assert(pos_ok(m0, w0, h, n, p));
    assert(h1[p] == h[p + 1]);
    assert(h[p + 1] >= 0 && h[p + 1] < p + 1);
    lemma_run_members(m0, w0, h, n, rs, re);
    lemma_removed_homes(m0, w0, h, n, rs, d, re, z, p);
    assert(h[p + 1] != c);
    if h[p + 1] == p {
        assert(is_home(h, p)) by {
            assert(h[p + 1] == p);
        }
    }
    if p > d {
        assert(h1[p - 1] == h[p]);
        assert(h[p] >= 0);
    } else {
        // the removed entry was the last of its run
        assert(p == d && d == re);
        if p > 0 {
            assert(h1[p - 1] == h[p - 1]);
            if h[p + 1] < p {
                lemma_contig(m0, w0, h, n, p + 1, p - 1);
            }
            if h[p - 1] >= 0 {
                assert(h[p - 1] <= h[p]);
            }
        }
        assert(h[p] <= h[p + 1]);
    }
}

/// Slot `p` of the table after a removal, when `p` is the slot that is cleared.
proof fn lemma_removed_last(
    m0: Seq<u8>, w0: Seq<u64>, h: Seq<int>, n: int, m1: Seq<u8>, w1: Seq<u64>,
    c: int, rs: int, d: int, re: int, z: int, off: bool,
)
    requires
        layout_ok(m0, w0, h, n),
        0 <= rs <= d <= re <= z < h.len(),
        h[rs] == c,
        c >= 0,
        first_of_home(h, rs),
        forall|q: int| rs <= q <= re ==> #[trigger] h[q] == c,
        re + 1 < h.len() ==> h[re + 1] != c,
        forall|q: int| re < q <= z ==> #[trigger] h[q] >= 0 && h[q] < q,
        z + 1 < h.len() ==> h[z + 1] < 0 || h[z + 1] == z + 1,
        off == (rs == re),
        w1 == shift_remove(w0, d, z, 0u64),
        removed_flags(m0, h, m1, c, re, z, off),
    ensures
        pos_ok(m1, w1, shift_remove(h, d, z, -1int), n, z),
{
    let h1 = shift_remove(h, d, z, -1int);
    assert(pos_ok(m0, w0, h, n, z));
    assert(pos_ok(m0, w0, h, n, rs));
    assert(h1[z] == -1 && w1[z] == 0);
    lemma_removed_homes(m0, w0, h, n, rs, d, re, z, z);
    if spec_occupied(m0[z]) {
        let j = choose|j: int| 0 <= j < h.len() && #[trigger] h[j] == z;
        if j > z {
            lemma_contig(m0, w0, h, n, j, z + 1);
            if z + 1 < j {
                assert(h[z + 1] <= h[j]);
            }
            assert(false);
        }
        assert(h[z] == z);
        if z > re {
            assert(h[z] >= 0 && h[z] < z);
        }
        assert(z == re);
        assert(off && z == c);
    }
}

/// Slot `p` of the table after a removal, when `p` lies after the moved entries.
proof fn lemma_removed_after(
    m0: Seq<u8>, w0: Seq<u64>, h: Seq<int>, n: int, m1: Seq<u8>, w1: Seq<u64>,
    c: int, rs: int, d: int, re: int, z: int, off: bool, p: int,
)
    requires
        layout_ok(m0, w0, h, n),
        0 <= rs <= d <= re <= z < h.len(),
        h[rs] == c,
        c >= 0,
        first_of_home(h, rs),
        forall|q: int| rs <= q <= re ==> #[trigger] h[q] == c,
        re + 1 < h.len() ==> h[re + 1] != c,
        z + 1 < h.len() ==> h[z + 1] < 0 || h[z + 1] == z + 1,
        off == (rs == re),
        w1 == shift_remove(w0, d, z, 0u64),
        removed_flags(m0, h, m1, c, re, z, off),
        z < p < h.len(),
    ensures
        pos_ok(m1, w1, shift_remove(h, d, z, -1int), n, p),
{
    let h1 = shift_remove(h, d, z, -1int);
    assert(pos_ok(m0, w0, h, n, p));
    assert(pos_ok(m0, w0, h, n, p - 1));
    lemma_removed_homes(m0, w0, h, n, rs, d, re, z, p);
    if p - 1 > z {
        assert(h1[p - 1] == h[p - 1]);
    } else {
        assert(h1[p - 1] == -1);
    }
}

/// Taking out the entry at `d` of the run `[rs, re]` of home `c`, and moving
/// the entries after it left by one up to the end `z` of the cluster, keeps
/// the layout sound.
pub proof fn lemma_remove_layout(
    m0: Seq<u8>, w0: Seq<u64>, h: Seq<int>, n: int, m1: Seq<u8>, w1: Seq<u64>,
    c: int, rs: int, d: int, re: int, z: int, off: bool,
)
    requires
        layout_ok(m0, w0, h, n),
        0 <= rs <= d <= re <= z < h.len(),
        h[rs] == c,
        c >= 0,
        first_of_home(h, rs),
        forall|q: int| rs <= q <= re ==> #[trigger] h[q] == c,
        re + 1 < h.len() ==> h[re + 1] != c,
        forall|q: int| re < q <= z ==> #[trigger] h[q] >= 0 && h[q] < q,
        z + 1 < h.len() ==> h[z + 1] < 0 || h[z + 1] == z + 1,
        off == (rs == re),
        w1 == shift_remove(w0, d, z, 0u64),
        removed_flags(m0, h, m1, c, re, z, off),
    ensures
        layout_ok(m1, w1, shift_remove(h, d, z, -1int), n),
{
    let h1 = shift_remove(h, d, z, -1int);
    assert forall|p: int| 0 <= p < h1.len() implies #[trigger] pos_ok(m1, w1, h1, n, p) by {
        if p < d {
            lemma_removed_before(m0, w0, h, n, m1, w1, c, rs, d, re, z, off, p);
        } else if p < re {
            lemma_removed_in_run(m0, w0, h, n, m1, w1, c, rs, d, re, z, off, p);
        } else if p < z {
            lemma_removed_moved(m0, w0, h, n, m1, w1, c, rs, d, re, z, off, p);
        } else if p == z {
            lemma_removed_last(m0, w0, h, n, m1, w1, c, rs, d, re, z, off);
        } else {
            lemma_removed_after(m0, w0, h, n, m1, w1, c, rs, d, re, z, off, p);
        }
    }
    assert forall|i: int, j: int| 0 <= i < j < h1.len() && h1[i] >= 0 && h1[j] >= 0 implies #[trigger] h1[i]
        <= #[trigger] h1[j] by {
        let i0 = if i < d || i > z { i } else { i + 1 };
        let j0 = if j < d || j > z { j } else { j + 1 };
        assert(h1[i] == h[i0]);
        assert(h1[j] == h[j0]);
        assert(i0 < j0);
    }
}

/// Rewriting the word of a filled slot with another non-zero word keeps the layout sound.
pub proof fn lemma_rewrite_layout(m: Seq<u8>, w: Seq<u64>, h: Seq<int>, n: int, d: int, x: u64)
    requires
        layout_ok(m, w, h, n),
        0 <= d < w.len(),
        w[d] != 0,
        x != 0,
    ensures
        layout_ok(m, w.update(d, x), h, n),
{
    assert forall|i: int| 0 <= i < h.len() implies #[trigger] pos_ok(m, w.update(d, x), h, n, i) by {
        assert(pos_ok(m, w, h, n, i));
        assert(pos_ok(m, w, h, n, d));
    }
}

/// A range of continuations counts no run head.
pub proof fn lemma_count_heads_zero(m: Seq<u8>, lo: int, hi: int)
    requires
        forall|p: int| lo <= p < hi ==> spec_continuation(#[trigger] m[p]),
    ensures
        count_heads(m, lo, hi) == 0,
    decreases hi - lo,
{
    if hi > lo {
        lemma_count_heads_zero(m, lo, hi - 1);
    }
}

/// At the border between two runs of a cluster, the slot before the second
/// run is that run's home exactly when it is occupied and is the only
/// occupied slot after the first run's home.
pub proof fn lemma_run_border(m: Seq<u8>, w: Seq<u64>, h: Seq<int>, n: int, r: int)
    requires
        layout_ok(m, w, h, n),
        0 <= r,
        r + 1 < h.len(),
        h[r + 1] >= 0,
        h[r + 1] < r + 1,
        !spec_continuation(m[r + 1]),
    ensures
        0 <= h[r] < h[r + 1],
        (spec_occupied(m[r]) && count_occ(m, h[r] + 1, r + 1) == 1) <==> h[r + 1] == r,
{
    assert(pos_ok(m, w, h, n, r + 1));
    assert(pos_ok(m, w, h, n, r));
    assert(h[r] <= h[r + 1]);
    lemma_no_occ_between(m, w, h, n, r + 1);
    lemma_count_occ_zero(m, h[r] + 1, h[r + 1]);
    let hn = h[r + 1];
    assert(spec_occupied(m[hn])) by {
        assert(pos_ok(m, w, h, n, hn));
        assert(is_home(h, hn)) by {
            assert(h[r + 1] == hn);
        }
    }
    lemma_count_occ_split(m, h[r] + 1, hn, r + 1);
    lemma_count_occ_split(m, hn, hn + 1, r + 1);
    assert(count_occ(m, hn, hn) == 0);
    assert(count_occ(m, hn, hn + 1) == 1);
    if hn < r && spec_occupied(m[r]) {
        lemma_count_occ_split(m, hn + 1, r, r + 1);
        assert(count_occ(m, r, r) == 0);
        assert(count_occ(m, r, r + 1) == 1);
    }
}


/// `h1`/`w1` are `h0`/`w0` with one entry of home `c` that matches the
/// fingerprint `fp` of `len` bits deleted: the last such entry in slot order.
/// A void entry becomes a tombstone; any other is taken out, the entries
/// after it up to the end `z` of the stretch of shifted entries that follows
/// it moving left by one, and slot `z` emptied.
pub open spec fn deleted_entry(h0: Seq<int>, w0: Seq<u64>, h1: Seq<int>, w1: Seq<u64>, c: int, fp: u64, len: u8) -> bool {
    exists|d: int|
        0 <= d < h0.len() && h0[d] == c && #[trigger] spec_matches(w0[d], fp, len) && (forall|p: int|
            d < p < h0.len() && h0[p] == c ==> !#[trigger] spec_matches(w0[p], fp, len)) && (if spec_is_void(w0[d]) {
            h1 == h0 && w1 == w0.update(d, TOMBSTONE_MARKER)
        } else {
            exists|z: int|
                d <= z < h0.len() && h1 == #[trigger] shift_remove(h0, d, z, -1int) && w1 == shift_remove(w0, d, z, 0u64)
                    && stretch_end(h0, d, z)
        })
}

/// The entries of `(d, z]` lie after their homes, and slot `z + 1` (if any)
/// is empty or holds an entry at its home: `z` ends the stretch of shifted
/// entries that follows `d`.
pub open spec fn stretch_end(h: Seq<int>, d: int, z: int) -> bool {
    &&& forall|q: int| d < q <= z ==> 0 <= #[trigger] h[q] < q
    &&& z + 1 < h.len() ==> h[z + 1] < 0 || h[z + 1] == z + 1
}


/// The homes decide every flag of a sound layout: two sound layouts with the
/// same homes, whose bytes hold nothing but the three flags, have the same
/// metadata bytes.
pub proof fn lemma_homes_fix_meta(m1: Seq<u8>, w1: Seq<u64>, m2: Seq<u8>, w2: Seq<u64>, h: Seq<int>, n: int)
    requires
        layout_ok(m1, w1, h, n),
        layout_ok(m2, w2, h, n),
        forall|i: int| 0 <= i < m1.len() ==> #[trigger] m1[i] < 8,
        forall|i: int| 0 <= i < m2.len() ==> #[trigger] m2[i] < 8,
    ensures
        m1 == m2,
{
    assert forall|i: int| 0 <= i < m1.len() implies #[trigger] m1[i] == m2[i] by {
        assert(pos_ok(m1, w1, h, n, i));
        assert(pos_ok(m2, w2, h, n, i));
        lemma_flags_byte(m1[i]);
        lemma_flags_byte(m2[i]);
    }
    assert(m1 =~= m2);
}

} // verus!
