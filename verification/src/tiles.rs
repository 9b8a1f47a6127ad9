//! Tile binning for the refinement kernel.
//!
//! The canvas is cut into square tiles. Every primitive covers a rectangle of
//! tiles, and each tile needs the list of primitives that touch it, in
//! primitive order: that order is the composite order, so building the lists
//! in it keeps compositing exact without a sort.
//!
//! The result is a compressed table: `off[t]..off[t + 1]` is the slice of
//! `idx` that lists tile `t`.
use vstd::prelude::*;

verus! {

/// Edge of a square tile, in pixels.
pub const TILE: u32 = 16;

/// The tiles a primitive covers: columns `x0..=x1`, rows `y0..=y1`.
/// A span with `x0 > x1` or `y0 > y1` covers nothing.
#[derive(Clone, Copy, Debug, PartialEq, Eq)]
pub struct TileSpan {
    pub x0: u32,
    pub x1: u32,
    pub y0: u32,
    pub y1: u32,
}

/// Tile `t` of a grid `tx` tiles wide lies in column `t % tx`, row `t / tx`.
pub open spec fn covers(s: TileSpan, tx: int, t: int) -> bool {
    &&& s.x0 <= t % tx <= s.x1
    &&& s.y0 <= t / tx <= s.y1
}

/// The primitives among the first `k` that cover tile `t`, in primitive order.
pub open spec fn tile_members(spans: Seq<TileSpan>, tx: int, t: int, k: nat) -> Seq<u32>
    decreases k,
{
    if k == 0 {
        Seq::empty()
    } else {
        let before = tile_members(spans, tx, t, (k - 1) as nat);
        if covers(spans[k - 1], tx, t) {
            before.push((k - 1) as u32)
        } else {
            before
        }
    }
}

/// How many primitives cover tile `t`.
pub open spec fn tile_count(spans: Seq<TileSpan>, tx: int, t: int) -> nat {
    tile_members(spans, tx, t, spans.len()).len()
}

/// Where the list of tile `t` starts: the lengths of all earlier lists.
pub open spec fn tile_offset(spans: Seq<TileSpan>, tx: int, t: nat) -> nat
    decreases t,
{
    if t == 0 {
        0
    } else {
        tile_offset(spans, tx, (t - 1) as nat) + tile_count(spans, tx, t - 1)
    }
}

/// `idx[start..]` begins with the entries of `m`.
pub open spec fn segment_holds(idx: Seq<u32>, start: int, m: Seq<u32>) -> bool {
    forall|j: int| 0 <= j < m.len() ==> idx[start + j] == #[trigger] m[j]
}

/// While the rectangle of span `k` is walked row by row, the tiles already
/// visited (row `gy`, columns before `gx`, or an earlier row) have `k` on
/// their lists.
spec fn visited(s: TileSpan, tx: int, u: int, gy: int, gx: int) -> bool {
    covers(s, tx, u) && (u / tx < gy || (u / tx == gy && u % tx < gx))
}

spec fn partial_members(
    spans: Seq<TileSpan>,
    tx: int,
    u: int,
    k: nat,
    gy: int,
    gx: int,
) -> Seq<u32> {
    if visited(spans[k as int], tx, u, gy, gx) {
        tile_members(spans, tx, u, k).push(k as u32)
    } else {
        tile_members(spans, tx, u, k)
    }
}

proof fn lemma_members_grow(spans: Seq<TileSpan>, tx: int, t: int, k: nat, n: nat)
    requires
        k <= n,
    ensures
        tile_members(spans, tx, t, k).len() <= tile_members(spans, tx, t, n).len(),
    decreases n - k,
{
    if k < n {
        lemma_members_grow(spans, tx, t, k, (n - 1) as nat);
    }
}

proof fn lemma_offset_grows(spans: Seq<TileSpan>, tx: int, a: nat, b: nat)
    requires
        a <= b,
    ensures
        tile_offset(spans, tx, a) <= tile_offset(spans, tx, b),
        a < b ==> tile_offset(spans, tx, a) + tile_count(spans, tx, a as int) <= tile_offset(
            spans,
            tx,
            b,
        ),
    decreases b - a,
{
    if a < b {
        lemma_offset_grows(spans, tx, a, (b - 1) as nat);
    }
}

proof fn lemma_tile_coords(t: int, tx: int, gx: int, gy: int)
    requires
        tx > 0,
        0 <= gx < tx,
        gy >= 0,
        t == gy * tx + gx,
    ensures
        t % tx == gx,
        t / tx == gy,
{
    vstd::arithmetic::div_mod::lemma_fundamental_div_mod_converse(t, tx, gy, gx);
}

proof fn lemma_same_coords(u: int, t: int, tx: int)
    requires
        tx > 0,
        u >= 0,
        t >= 0,
        u % tx == t % tx,
        u / tx == t / tx,
    ensures
        u == t,
{
    vstd::arithmetic::div_mod::lemma_fundamental_div_mod(u, tx);
    vstd::arithmetic::div_mod::lemma_fundamental_div_mod(t, tx);
}

/// After the row walk of a span is done, every covered tile has been visited.
proof fn lemma_span_done(s: TileSpan, tx: int, u: int, gy: int)
    requires
        tx > 0,
        s.y0 <= s.y1 ==> gy == s.y1 + 1,
        s.y0 > s.y1 ==> gy == s.y0,
    ensures
        visited(s, tx, u, gy, s.x0 as int) == covers(s, tx, u),
{
}

/// Moving from the end of row `gy` to the start of row `gy + 1` visits nothing new.
proof fn lemma_row_done(s: TileSpan, tx: int, u: int, gy: int, gx: int)
    requires
        s.x0 <= s.x1 ==> gx == s.x1 + 1,
        s.x0 > s.x1 ==> gx == s.x0,
    ensures
        visited(s, tx, u, gy, gx) == visited(s, tx, u, gy + 1, s.x0 as int),
{
}

/// Composite order is kept per tile: the list of tile `t` holds exactly the
/// primitives whose spans cover `t`, each once, in increasing (paint) order.
pub proof fn lemma_tile_list_is_paint_order(spans: Seq<TileSpan>, tx: int, t: int, k: nat)
    requires
        k <= spans.len(),
        spans.len() <= u32::MAX,
    ensures
        forall|j: int|
            0 <= j < tile_members(spans, tx, t, k).len() ==> {
                let i = #[trigger] tile_members(spans, tx, t, k)[j];
                &&& i < k
                &&& covers(spans[i as int], tx, t)
            },
        forall|a: int, b: int|
            0 <= a < b < tile_members(spans, tx, t, k).len() ==> tile_members(spans, tx, t, k)[a]
                < tile_members(spans, tx, t, k)[b],
        forall|i: int|
            0 <= i < k && covers(spans[i], tx, t) ==> tile_members(spans, tx, t, k).contains(
                i as u32,
            ),
    decreases k,
{
    if k > 0 {
        lemma_tile_list_is_paint_order(spans, tx, t, (k - 1) as nat);
        let before = tile_members(spans, tx, t, (k - 1) as nat);
        let now = tile_members(spans, tx, t, k);
        if covers(spans[k - 1], tx, t) {
            assert(now == before.push((k - 1) as u32));
            assert forall|i: int| 0 <= i < k && covers(spans[i], tx, t) implies now.contains(
                i as u32,
            ) by {
                if i < k - 1 {
                    let w = choose|w: int| 0 <= w < before.len() && before[w] == i as u32;
                    assert(now[w] == i as u32);
                } else {
                    assert(now[before.len() as int] == i as u32);
                }
            }
        } else {
            assert(now == before);
        }
    }
}

/// What `bin_tiles` needs of its input: a non-empty grid whose tile count
/// and total list length fit in `u32`, and spans that stay on the grid.
pub open spec fn spans_fit(spans: Seq<TileSpan>, tx: u32, ty: u32) -> bool {
    &&& tx >= 1
    &&& ty >= 1
    &&& tx * ty < u32::MAX
    &&& spans.len() <= u32::MAX
    &&& forall|i: int| 0 <= i < spans.len() ==> #[trigger] spans[i].x1 < tx && spans[i].y1 < ty
    &&& tile_offset(spans, tx as int, (tx * ty) as nat) <= u32::MAX
}

/// Counts for the first `k` primitives: `counts[u]` holds the number that cover tile `u - 1`.
spec fn counted(counts: Seq<u32>, spans: Seq<TileSpan>, tx: u32, ty: u32, k: nat, gy: int, gx: int) -> bool {
    &&& counts.len() == tx * ty + 1
    &&& counts[0] == 0
    &&& forall|u: int|
        1 <= u <= tx * ty ==> #[trigger] counts[u] == partial_members(spans, tx as int, u - 1, k, gy, gx).len()
}

/// One covered tile of span `k`: its count goes up by one.
fn count_step(spans: &Vec<TileSpan>, k: usize, tx: u32, ty: u32, gy: u32, gx: u32, counts: &mut Vec<u32>)
    requires
        spans_fit(spans@, tx, ty),
        k < spans.len(),
        spans[k as int].y0 <= gy <= spans[k as int].y1,
        spans[k as int].x0 <= gx <= spans[k as int].x1,
        counted(old(counts)@, spans@, tx, ty, k as nat, gy as int, gx as int),
    ensures
        counted(final(counts)@, spans@, tx, ty, k as nat, gy as int, gx + 1),
{
    let ghost sp = spans@;
    let ghost txi = tx as int;
    let ghost ntiles = tx * ty;
    assert(gy < ty && gx < tx);
    assert(gy * tx + gx < tx * ty) by (nonlinear_arith)
        requires
            gy < ty,
            gx < tx,
    ;
    let t = gy * tx + gx;
    proof {
        lemma_tile_coords(t as int, txi, gx as int, gy as int);
        lemma_members_grow(sp, txi, t as int, (k + 1) as nat, sp.len());
        lemma_offset_grows(sp, txi, t as nat, ntiles as nat);
        assert(covers(sp[k as int], txi, t as int));
        assert(tile_members(sp, txi, t as int, (k + 1) as nat).len() == tile_members(
            sp,
            txi,
            t as int,
            k as nat,
        ).len() + 1);
        assert(counts[t + 1] == tile_members(sp, txi, t as int, k as nat).len());
    }
    let ti = t as usize + 1;
    let c = counts[ti];
    counts.set(ti, c + 1);
    proof {
        assert forall|u: int| 1 <= u <= ntiles implies #[trigger] counts[u]
            == partial_members(sp, txi, u - 1, k as nat, gy as int, gx + 1).len() by {
            if u != ti {
                if (u - 1) / txi == gy as int && (u - 1) % txi == gx as int {
                    lemma_same_coords(u - 1, t as int, txi);
                }
            }
        }
    }
}

/// Adds span `k` to the counts.
fn count_span(spans: &Vec<TileSpan>, k: usize, tx: u32, ty: u32, counts: &mut Vec<u32>)
    requires
        spans_fit(spans@, tx, ty),
        k < spans.len(),
        counted(old(counts)@, spans@, tx, ty, k as nat, spans[k as int].y0 as int, spans[k as int].x0 as int),
    ensures
        forall|u: int| 1 <= u <= tx * ty ==> #[trigger] partial_members(spans@, tx as int, u - 1, k as nat, spans[k as int].y0 as int, spans[k as int].x0 as int)
            == tile_members(spans@, tx as int, u - 1, k as nat),
        counted(final(counts)@, spans@, tx, ty, (k + 1) as nat, spans[(k + 1) as int].y0 as int, spans[(k + 1) as int].x0 as int)
            || k + 1 == spans.len(),
        final(counts)@.len() == tx * ty + 1,
        final(counts)@[0] == 0,
        forall|u: int| 1 <= u <= tx * ty ==> #[trigger] final(counts)@[u] == tile_members(spans@, tx as int, u - 1, (k + 1) as nat).len(),
{
    let ghost sp = spans@;
    let ghost txi = tx as int;
    let ghost ntiles = tx * ty;
    let s = spans[k];
    let mut gy = s.y0;
    while gy <= s.y1
        invariant
            spans_fit(sp, tx, ty),
            sp == spans@,
            txi == tx as int,
            ntiles == tx * ty,
            k < sp.len(),
            s == sp[k as int],
            s.y0 <= gy,
            gy <= s.y1 + 1 || gy == s.y0,
            counted(counts@, sp, tx, ty, k as nat, gy as int, s.x0 as int),
        decreases s.y1 + 1 - gy,
    {
        let mut gx = s.x0;
        while gx <= s.x1
            invariant
                spans_fit(sp, tx, ty),
                sp == spans@,
                txi == tx as int,
                ntiles == tx * ty,
            txi == tx as int,
            ntiles == tx * ty,
                k < sp.len(),
                s == sp[k as int],
                s.y0 <= gy <= s.y1,
                s.x0 <= gx,
                gx <= s.x1 + 1 || gx == s.x0,
                counted(counts@, sp, tx, ty, k as nat, gy as int, gx as int),
            decreases s.x1 + 1 - gx,
        {
            count_step(spans, k, tx, ty, gy, gx, counts);
            gx += 1;
        }
        proof {
            assert forall|u: int| 1 <= u <= ntiles implies #[trigger] counts[u]
                == partial_members(sp, txi, u - 1, k as nat, gy + 1, s.x0 as int).len() by {
                lemma_row_done(s, txi, u - 1, gy as int, gx as int);
            }
        }
        gy += 1;
    }
    proof {
        assert forall|u: int| 1 <= u <= ntiles implies #[trigger] counts[u]
            == tile_members(sp, txi, u - 1, (k + 1) as nat).len() by {
            lemma_span_done(s, txi, u - 1, gy as int);
        }
        assert forall|u: int| 1 <= u <= ntiles implies #[trigger] partial_members(sp, txi, u - 1, k as nat, s.y0 as int, s.x0 as int)
            == tile_members(sp, txi, u - 1, k as nat) by {
        }
        if k + 1 < sp.len() {
            assert forall|u: int| 1 <= u <= ntiles implies #[trigger] partial_members(sp, txi, u - 1, (k + 1) as nat, sp[k + 1].y0 as int, sp[k + 1].x0 as int)
                == tile_members(sp, txi, u - 1, (k + 1) as nat) by {
            }
        }
    }
}

/// `counts[t + 1]` is the number of primitives covering tile `t`; `counts[0]` is zero.
fn count_tiles(spans: &Vec<TileSpan>, tx: u32, ty: u32) -> (counts: Vec<u32>)
    requires
        spans_fit(spans@, tx, ty),
    ensures
        counts@.len() == tx * ty + 1,
        counts@[0] == 0,
        forall|u: int| 1 <= u <= tx * ty ==> #[trigger] counts@[u] == tile_count(spans@, tx as int, u - 1),
{
    let ghost sp = spans@;
    let ghost txi = tx as int;
    let n = spans.len();
    let ntiles: usize = (tx * ty) as usize;
    let mut counts: Vec<u32> = Vec::new();
    let mut i: usize = 0;
    while i <= ntiles
        invariant
            ntiles == tx * ty,
            tx * ty < u32::MAX,
            i <= ntiles + 1,
            counts.len() == i,
            forall|u: int| 0 <= u < i ==> counts[u] == 0,
        decreases ntiles + 1 - i,
    {
        counts.push(0);
        i += 1;
    }
    let mut k: usize = 0;
    while k < n
        invariant
            spans_fit(sp, tx, ty),
            sp == spans@,
            txi == tx as int,
            ntiles == tx * ty,
            n == sp.len(),
            ntiles == tx * ty,
            k <= n,
            counts@.len() == ntiles + 1,
            counts@[0] == 0,
            forall|u: int| 1 <= u <= ntiles ==> #[trigger] counts@[u] == tile_members(sp, txi, u - 1, k as nat).len(),
        decreases n - k,
    {
        proof {
            assert forall|u: int| 1 <= u <= ntiles implies #[trigger] counts@[u]
                == partial_members(sp, txi, u - 1, k as nat, sp[k as int].y0 as int, sp[k as int].x0 as int).len() by {
            }
        }
        count_span(spans, k, tx, ty, &mut counts);
        k += 1;
    }
    counts
}

/// Turns per-tile counts into offsets by a running sum.
fn prefix_sums(spans: &Vec<TileSpan>, tx: u32, ty: u32, counts: &mut Vec<u32>)
    requires
        spans_fit(spans@, tx, ty),
        old(counts)@.len() == tx * ty + 1,
        old(counts)@[0] == 0,
        forall|u: int| 1 <= u <= tx * ty ==> #[trigger] old(counts)@[u] == tile_count(spans@, tx as int, u - 1),
    ensures
        final(counts)@.len() == tx * ty + 1,
        forall|u: int| 0 <= u <= tx * ty ==> #[trigger] final(counts)@[u] == tile_offset(spans@, tx as int, u as nat),
{
    let ghost sp = spans@;
    let ghost txi = tx as int;
    let ntiles: usize = (tx * ty) as usize;
    let mut i: usize = 0;
    while i < ntiles
        invariant
            spans_fit(sp, tx, ty),
            sp == spans@,
            txi == tx as int,
            ntiles == tx * ty,
            ntiles == tx * ty,
            i <= ntiles,
            counts.len() == ntiles + 1,
            forall|u: int| 0 <= u <= i ==> #[trigger] counts[u] == tile_offset(sp, txi, u as nat),
            forall|u: int| i < u <= ntiles ==> #[trigger] counts[u] == tile_count(sp, txi, u - 1),
        decreases ntiles - i,
    {
        proof {
            lemma_offset_grows(sp, txi, (i + 1) as nat, ntiles as nat);
        }
        let c = counts[i + 1] + counts[i];
        counts.set(i + 1, c);
        i += 1;
    }
}

/// The table being filled: offsets are final, and tile `u` has the entries
/// of `partial_members` written at the start of its slice, with its cursor
/// just past them.
spec fn filling(
    off: Seq<u32>,
    cursor: Seq<u32>,
    idx: Seq<u32>,
    spans: Seq<TileSpan>,
    tx: u32,
    ty: u32,
    k: nat,
    gy: int,
    gx: int,
) -> bool {
    &&& off.len() == tx * ty + 1
    &&& cursor.len() == tx * ty + 1
    &&& idx.len() == tile_offset(spans, tx as int, (tx * ty) as nat)
    &&& forall|u: int| 0 <= u <= tx * ty ==> #[trigger] off[u] == tile_offset(spans, tx as int, u as nat)
    &&& forall|u: int|
        0 <= u < tx * ty ==> #[trigger] cursor[u] == off[u] + partial_members(spans, tx as int, u, k, gy, gx).len()
    &&& forall|u: int|
        0 <= u < tx * ty ==> segment_holds(idx, off[u] as int, #[trigger] partial_members(spans, tx as int, u, k, gy, gx))
}

/// One covered tile of span `k`: `k` goes at its cursor, and the cursor moves on.
fn fill_step(
    spans: &Vec<TileSpan>,
    k: usize,
    tx: u32,
    ty: u32,
    gy: u32,
    gx: u32,
    off: &Vec<u32>,
    cursor: &mut Vec<u32>,
    idx: &mut Vec<u32>,
)
    requires
        spans_fit(spans@, tx, ty),
        k < spans.len(),
        spans[k as int].y0 <= gy <= spans[k as int].y1,
        spans[k as int].x0 <= gx <= spans[k as int].x1,
        filling(off@, old(cursor)@, old(idx)@, spans@, tx, ty, k as nat, gy as int, gx as int),
    ensures
        filling(off@, final(cursor)@, final(idx)@, spans@, tx, ty, k as nat, gy as int, gx + 1),
{
    let ghost sp = spans@;
    let ghost txi = tx as int;
    let ghost ntiles = tx * ty;
    let ghost s = sp[k as int];
    assert(gy < ty && gx < tx);
    assert(gy * tx + gx < tx * ty) by (nonlinear_arith)
        requires
            gy < ty,
            gx < tx,
    ;
    let t = gy * tx + gx;
    let ghost tt = t as int;
    proof {
        lemma_tile_coords(tt, txi, gx as int, gy as int);
        lemma_members_grow(sp, txi, tt, (k + 1) as nat, sp.len());
        lemma_offset_grows(sp, txi, t as nat, (t + 1) as nat);
        lemma_offset_grows(sp, txi, (t + 1) as nat, ntiles as nat);
        assert(covers(sp[k as int], txi, tt));
        assert(tile_members(sp, txi, tt, (k + 1) as nat).len() == tile_members(
            sp,
            txi,
            tt,
            k as nat,
        ).len() + 1);
        assert(!visited(s, txi, tt, gy as int, gx as int));
        assert(cursor[tt] == off[tt] + tile_members(sp, txi, tt, k as nat).len());
    }
    let tu = t as usize;
    let p = cursor[tu];
    let ghost old_idx = idx@;
    let ghost old_cursor = cursor@;
    idx.set(p as usize, k as u32);
    cursor.set(tu, p + 1);
    proof {
        assert forall|u: int| 0 <= u < ntiles implies #[trigger] cursor@[u] == off@[u]
            + partial_members(sp, txi, u, k as nat, gy as int, gx + 1).len() by {
            if u != tt {
                if u / txi == gy as int && u % txi == gx as int {
                    lemma_same_coords(u, tt, txi);
                }
                assert(cursor@[u] == old_cursor[u]);
            }
        }
        assert forall|u: int| 0 <= u < ntiles implies segment_holds(
            idx@,
            off@[u] as int,
            #[trigger] partial_members(sp, txi, u, k as nat, gy as int, gx + 1),
        ) by {
            let m_old = partial_members(sp, txi, u, k as nat, gy as int, gx as int);
            let m_new = partial_members(sp, txi, u, k as nat, gy as int, gx + 1);
            assert(segment_holds(old_idx, off@[u] as int, m_old));
            if u == tt {
                assert(m_old == tile_members(sp, txi, tt, k as nat));
                assert(m_new == m_old.push(k as u32));
                assert(p == off@[u] + m_old.len());
                assert forall|j: int| 0 <= j < m_new.len() implies idx@[off@[u] + j]
                    == #[trigger] m_new[j] by {
                    if j < m_old.len() {
                        assert(old_idx[off@[u] + j] == m_old[j]);
                        assert(off@[u] + j != p);
                    } else {
                        assert(off@[u] + j == p);
                    }
                }
            } else {
                if u / txi == gy as int && u % txi == gx as int {
                    lemma_same_coords(u, tt, txi);
                }
                assert(m_new == m_old);
                lemma_members_grow(sp, txi, u, (k + 1) as nat, sp.len());
                assert(m_old.len() <= tile_count(sp, txi, u));
                lemma_offset_grows(sp, txi, u as nat, (u + 1) as nat);
                lemma_offset_grows(sp, txi, (u + 1) as nat, ntiles as nat);
                if u < tt {
                    lemma_offset_grows(sp, txi, u as nat, tt as nat);
                } else {
                    lemma_offset_grows(sp, txi, (tt + 1) as nat, u as nat);
                }
                assert forall|j: int| 0 <= j < m_new.len() implies idx@[off@[u] + j]
                    == #[trigger] m_new[j] by {
                    assert(old_idx[off@[u] + j] == m_old[j]);
                    assert(off@[u] + j != p);
                }
            }
        }
    }
}

/// Writes span `k` into the lists of the tiles it covers.
fn fill_span(
    spans: &Vec<TileSpan>,
    k: usize,
    tx: u32,
    ty: u32,
    off: &Vec<u32>,
    cursor: &mut Vec<u32>,
    idx: &mut Vec<u32>,
)
    requires
        spans_fit(spans@, tx, ty),
        k < spans.len(),
        filling(off@, old(cursor)@, old(idx)@, spans@, tx, ty, k as nat, spans[k as int].y0 as int, spans[k as int].x0 as int),
    ensures
        final(cursor)@.len() == tx * ty + 1,
        final(idx)@.len() == tile_offset(spans@, tx as int, (tx * ty) as nat),
        forall|u: int|
            0 <= u < tx * ty ==> #[trigger] final(cursor)@[u] == off@[u] + tile_members(spans@, tx as int, u, (k + 1) as nat).len(),
        forall|u: int|
            0 <= u < tx * ty ==> segment_holds(final(idx)@, off@[u] as int, #[trigger] tile_members(spans@, tx as int, u, (k + 1) as nat)),
{
    let ghost sp = spans@;
    let ghost txi = tx as int;
    let ghost ntiles = tx * ty;
    let s = spans[k];
    let mut gy = s.y0;
    while gy <= s.y1
        invariant
            spans_fit(sp, tx, ty),
            sp == spans@,
            txi == tx as int,
            ntiles == tx * ty,
            k < sp.len(),
            s == sp[k as int],
            s.y0 <= gy,
            gy <= s.y1 + 1 || gy == s.y0,
            filling(off@, cursor@, idx@, sp, tx, ty, k as nat, gy as int, s.x0 as int),
        decreases s.y1 + 1 - gy,
    {
        let mut gx = s.x0;
        while gx <= s.x1
            invariant
                spans_fit(sp, tx, ty),
                sp == spans@,
                txi == tx as int,
                ntiles == tx * ty,
            txi == tx as int,
            ntiles == tx * ty,
                k < sp.len(),
                s == sp[k as int],
                s.y0 <= gy <= s.y1,
                s.x0 <= gx,
                gx <= s.x1 + 1 || gx == s.x0,
                filling(off@, cursor@, idx@, sp, tx, ty, k as nat, gy as int, gx as int),
            decreases s.x1 + 1 - gx,
        {
            fill_step(spans, k, tx, ty, gy, gx, off, cursor, idx);
            gx += 1;
        }
        proof {
            assert forall|u: int| 0 <= u < ntiles implies #[trigger] partial_members(sp, txi, u, k as nat, gy as int, gx as int)
                == partial_members(sp, txi, u, k as nat, gy + 1, s.x0 as int) by {
                lemma_row_done(s, txi, u, gy as int, gx as int);
            }
            assert forall|u: int| 0 <= u < ntiles implies segment_holds(
                idx@,
                off@[u] as int,
                #[trigger] partial_members(sp, txi, u, k as nat, gy + 1, s.x0 as int),
            ) by {
                lemma_row_done(s, txi, u, gy as int, gx as int);
                assert(segment_holds(idx@, off@[u] as int, partial_members(sp, txi, u, k as nat, gy as int, gx as int)));
            }
        }
        gy += 1;
    }
    proof {
        assert forall|u: int| 0 <= u < ntiles implies #[trigger] tile_members(sp, txi, u, (k + 1) as nat)
            == partial_members(sp, txi, u, k as nat, gy as int, s.x0 as int) by {
            lemma_span_done(s, txi, u, gy as int);
        }
        assert forall|u: int| 0 <= u < ntiles implies segment_holds(
            idx@,
            off@[u] as int,
            #[trigger] tile_members(sp, txi, u, (k + 1) as nat),
        ) by {
            lemma_span_done(s, txi, u, gy as int);
            assert(segment_holds(idx@, off@[u] as int, partial_members(sp, txi, u, k as nat, gy as int, s.x0 as int)));
        }
    }
}

/// The lists of all tiles, in primitive order, packed into one table.
///
/// Returns `(off, idx)`: `off` has one entry per tile plus a final total, and
/// `idx[off[t]..off[t + 1]]` lists, in increasing order, every primitive whose
/// span covers tile `t` of a `tx` by `ty` grid.
pub fn bin_tiles(spans: &Vec<TileSpan>, tx: u32, ty: u32) -> (res: (Vec<u32>, Vec<u32>))
    requires
        spans_fit(spans@, tx, ty),
    ensures
        res.0@.len() == tx * ty + 1,
        forall|t: int| 0 <= t <= tx * ty ==> #[trigger] res.0@[t] == tile_offset(spans@, tx as int, t as nat),
        res.1@.len() == tile_offset(spans@, tx as int, (tx * ty) as nat),
        forall|t: int|
            0 <= t < tx * ty ==> #[trigger] res.1@.subrange(res.0@[t] as int, res.0@[t + 1] as int)
                == tile_members(spans@, tx as int, t, spans.len() as nat),
{
    let ghost sp = spans@;
    let ghost txi = tx as int;
    let n = spans.len();
    let ntiles: usize = (tx * ty) as usize;

    let mut counts = count_tiles(spans, tx, ty);
    prefix_sums(spans, tx, ty, &mut counts);

    let mut off: Vec<u32> = Vec::new();
    let mut i: usize = 0;
    while i <= ntiles
        invariant
            ntiles == tx * ty,
            tx * ty < u32::MAX,
            i <= ntiles + 1,
            off@.len() == i,
            counts@.len() == ntiles + 1,
            forall|u: int| 0 <= u < i ==> off@[u] == counts@[u],
        decreases ntiles + 1 - i,
    {
        off.push(counts[i]);
        i += 1;
    }
    let mut cursor = counts;

    let total_len = off[ntiles] as usize;
    let mut idx: Vec<u32> = Vec::new();
    let mut i: usize = 0;
    while i < total_len
        invariant
            i <= total_len,
            idx@.len() == i,
        decreases total_len - i,
    {
        idx.push(0);
        i += 1;
    }

    let mut k: usize = 0;
    while k < n
        invariant
            spans_fit(sp, tx, ty),
            sp == spans@,
            txi == tx as int,
            ntiles == tx * ty,
            n == sp.len(),
            ntiles == tx * ty,
            k <= n,
            off@.len() == ntiles + 1,
            cursor@.len() == ntiles + 1,
            idx@.len() == tile_offset(sp, txi, ntiles as nat),
            forall|u: int| 0 <= u <= ntiles ==> #[trigger] off@[u] == tile_offset(sp, txi, u as nat),
            forall|u: int|
                0 <= u < ntiles ==> #[trigger] cursor@[u] == off@[u] + tile_members(sp, txi, u, k as nat).len(),
            forall|u: int|
                0 <= u < ntiles ==> segment_holds(idx@, off@[u] as int, #[trigger] tile_members(sp, txi, u, k as nat)),
        decreases n - k,
    {
        proof {
            let s = sp[k as int];
            assert forall|u: int| 0 <= u < ntiles implies #[trigger] partial_members(sp, txi, u, k as nat, s.y0 as int, s.x0 as int)
                == tile_members(sp, txi, u, k as nat) by {
            }
        }
        let ghost next: nat = (k + 1) as nat;
        fill_span(spans, k, tx, ty, &off, &mut cursor, &mut idx);
        k += 1;
        assert(k as nat == next);
    }

    proof {
        assert forall|t: int| 0 <= t < ntiles implies #[trigger] idx@.subrange(
            off@[t] as int,
            off@[t + 1] as int,
        ) == tile_members(sp, txi, t, n as nat) by {
            lemma_offset_grows(sp, txi, t as nat, (t + 1) as nat);
            lemma_offset_grows(sp, txi, (t + 1) as nat, ntiles as nat);
            let m = tile_members(sp, txi, t, n as nat);
            assert(segment_holds(idx@, off@[t] as int, m));
            assert(idx@.subrange(off@[t] as int, off@[t + 1] as int) =~= m);
        }
    }
    (off, idx)
}


} // verus!
