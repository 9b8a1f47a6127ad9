//! Resolution choices of the decoder and the optimisers, and the source
//! images brought to them.
//!
//! A set has no resolution of its own; `canvas` only fixes the aspect ratio.
//! Working sizes are therefore derived by scaling the canvas so that its long
//! edge fits a limit, rounding each side to the nearest pixel.
use vstd::prelude::*;
use crate::resample::{keeps_local, lemma_uniform_channel_kept, resample_bounded, resize_rgba8, uniform_channel};

verus! {

/// `n * m / d`, rounded to the nearest integer, halves rounded up.
pub open spec fn scale_round(n: nat, m: nat, d: nat) -> nat
    recommends
        d > 0,
{
    (2 * n * m + d) / (2 * d)
}

pub open spec fn long_edge(canvas: [u32; 2]) -> u32 {
    if canvas[0] >= canvas[1] {
        canvas[0]
    } else {
        canvas[1]
    }
}

/// The canvas shrunk so that its long edge is at most `max_side`, each side
/// rounded and kept at least one pixel; never enlarged.
pub open spec fn spec_working_size(canvas: [u32; 2], max_side: Option<u32>) -> (u32, u32) {
    let long = long_edge(canvas);
    match max_side {
        Some(m) if long > m => {
            let w = scale_round(canvas[0] as nat, m as nat, long as nat);
            let h = scale_round(canvas[1] as nat, m as nat, long as nat);
            ((if w < 1 { 1 } else { w }) as u32, (if h < 1 { 1 } else { h }) as u32)
        },
        _ => (canvas[0], canvas[1]),
    }
}

proof fn lemma_scale_round_bound(n: nat, m: nat, d: nat)
    requires
        d > 0,
        n <= d,
    ensures
        scale_round(n, m, d) <= m,
        m < d ==> scale_round(n, m, d) <= n,
{
    assert(2 * n * m + d <= 2 * d * m + d) by (nonlinear_arith)
        requires
            n <= d,
    ;
    assert((2 * d * m + d) / (2 * d) == m) by (nonlinear_arith)
        requires
            d > 0,
    ;
    vstd::arithmetic::div_mod::lemma_div_is_ordered((2 * n * m + d) as int, (2 * d * m + d) as int, (2 * d) as int);
    if m < d {
        assert(2 * n * m + d <= 2 * n * d + d) by (nonlinear_arith)
            requires
                m < d,
        ;
        assert((2 * n * d + d) / (2 * d) == n) by (nonlinear_arith)
            requires
                d > 0,
        ;
        vstd::arithmetic::div_mod::lemma_div_is_ordered((2 * n * m + d) as int, (2 * n * d + d) as int, (2 * d) as int);
    }
}

fn scale_side(n: u32, m: u32, long: u32) -> (r: u32)
    requires
        long > 0,
        n <= long,
        m < long,
    ensures
        r as nat == (if scale_round(n as nat, m as nat, long as nat) < 1 {
            1
        } else {
            scale_round(n as nat, m as nat, long as nat)
        }),
{
    proof {
        lemma_scale_round_bound(n as nat, m as nat, long as nat);
    }
    assert(n * m <= 0xffff_ffffu64 * 0xffff_ffffu64) by (nonlinear_arith)
        requires
            n <= 0xffff_ffffu32,
            m <= 0xffff_ffffu32,
    ;
    let nm: u128 = (n as u128) * (m as u128);
    let num: u128 = 2 * nm + long as u128;
    let q = num / (2 * long as u128);
    assert(2 * nm == 2 * n * m) by (nonlinear_arith)
        requires
            nm == n * m,
    ;
    assert(num == 2 * n * m + long);
    assert(q == scale_round(n as nat, m as nat, long as nat));
    assert(q <= m);
    if q < 1 {
        1
    } else {
        q as u32
    }
}

/// The size at which a set is searched or refined: the canvas, shrunk to fit
/// `max_side` on its long edge when it is larger, never enlarged.
pub fn working_size(canvas: [u32; 2], max_side: Option<u32>) -> (r: (u32, u32))
    ensures
        r == spec_working_size(canvas, max_side),
{
    let long = if canvas[0] >= canvas[1] {
        canvas[0]
    } else {
        canvas[1]
    };
    match max_side {
        Some(m) => {
            if long > m {
                (scale_side(canvas[0], m, long), scale_side(canvas[1], m, long))
            } else {
                (canvas[0], canvas[1])
            }
        },
        None => (canvas[0], canvas[1]),
    }
}

/// A source image brought to the working size of a set: an RGBA8 image of
/// `iw` by `ih` pixels resampled with Lanczos3 to
/// `working_size(canvas, max_side)`, returned with that size. A source
/// already at that size comes back unchanged; one with no pixels gives a
/// black, transparent target. Within the sizes where resampling is known to
/// be local, every target pixel takes any channel value shared by the source
/// pixels in its reach, so colours and positions are kept.
pub fn working_target(src: &Vec<u8>, iw: u32, ih: u32, canvas: [u32; 2], max_side: Option<u32>) -> (r: (
    u32,
    u32,
    Vec<u8>,
))
    requires
        src.len() == 4 * iw * ih,
        16 * iw * spec_working_size(canvas, max_side).1 <= isize::MAX,
        4 * spec_working_size(canvas, max_side).0 * spec_working_size(canvas, max_side).1 <= isize::MAX,
    ensures
        (r.0, r.1) == spec_working_size(canvas, max_side),
        r.2@.len() == 4 * r.0 * r.1,
        (iw, ih) == (r.0, r.1) ==> r.2@ == src@,
        iw == 0 || ih == 0 ==> forall|i: int| 0 <= i < r.2@.len() ==> r.2@[i] == 0u8,
        resample_bounded(iw, ih, r.0, r.1) ==> keeps_local(src@, r.2@, 4, iw as int, ih as int, r.0 as int, r.1 as int),
        resample_bounded(iw, ih, r.0, r.1) ==> forall|k: int, v: u8|
            0 <= k < 4 && #[trigger] uniform_channel(src@, 4, iw as int, ih as int, k, v) ==> uniform_channel(
                r.2@,
                4,
                r.0 as int,
                r.1 as int,
                k,
                v,
            ),
{
    let (w, h) = working_size(canvas, max_side);
    let target = resize_rgba8(src, iw, ih, w, h);
    proof {
        if resample_bounded(iw, ih, w, h) {
            assert forall|k: int, v: u8|
                0 <= k < 4 && #[trigger] uniform_channel(src@, 4, iw as int, ih as int, k, v) implies uniform_channel(
                target@,
                4,
                w as int,
                h as int,
                k,
                v,
            ) by {
                lemma_uniform_channel_kept(src@, target@, 4, iw as int, ih as int, w as int, h as int, k, v);
            }
        }
    }
    (w, h, target)
}

/// Never enlarged, and the long edge lands on `max_side` when the canvas
/// exceeds it: a working size is at most the canvas, each side at least one
/// pixel, and its long edge is the smaller of the canvas's long edge and the
/// limit.
pub proof fn lemma_working_size_never_upscales(canvas: [u32; 2], m: u32)
    requires
        canvas[0] >= 1,
        canvas[1] >= 1,
        m >= 1,
    ensures
        ({
            let (w, h) = spec_working_size(canvas, Some(m));
            &&& 1 <= w <= canvas[0]
            &&& 1 <= h <= canvas[1]
            &&& w <= m && h <= m
            &&& (w == m || h == m || long_edge(canvas) <= m)
        }),
{
    let long = long_edge(canvas);
    if long > m {
        lemma_scale_round_bound(canvas[0] as nat, m as nat, long as nat);
        lemma_scale_round_bound(canvas[1] as nat, m as nat, long as nat);
        assert(scale_round(long as nat, m as nat, long as nat) == m) by (nonlinear_arith)
            requires
                long > 0,
        ;
    }
}

/// The aspect ratio survives: each side of a shrunk canvas is within half a
/// pixel of its exact proportional size `side * max_side / long`, unless the
/// one-pixel floor lifted it.
pub proof fn lemma_working_size_keeps_aspect(canvas: [u32; 2], m: u32, side: int)
    requires
        side == 0 || side == 1,
        long_edge(canvas) > m,
    ensures
        ({
            let r = spec_working_size(canvas, Some(m));
            let s = if side == 0 { r.0 } else { r.1 };
            let n = canvas[side];
            let long = long_edge(canvas);
            s == 1 || (2 * s * long <= 2 * n * m + long && 2 * n * m < 2 * s * long + long)
        }),
{
    let long = long_edge(canvas) as int;
    let n = canvas[side] as int;
    lemma_scale_round_bound(n as nat, m as nat, long as nat);
    let num = 2 * n * m + long;
    let q = num / (2 * long);
    vstd::arithmetic::div_mod::lemma_fundamental_div_mod(num, 2 * long);
    let rem = num % (2 * long);
    assert(0 <= rem < 2 * long);
    assert(2 * q * long <= num && num < 2 * q * long + 2 * long) by (nonlinear_arith)
        requires
            num == 2 * long * q + rem,
            0 <= rem < 2 * long,
    ;
}

/// How many primitives a render draws: the first `limit`, or all of them.
/// Every prefix of a set is itself a complete set.
pub fn drawn_count(limit: Option<usize>, total: usize) -> (n: usize)
    ensures
        n == match limit {
            Some(l) => if l < total { l } else { total },
            None => total,
        },
{
    match limit {
        Some(l) => if l < total {
            l
        } else {
            total
        },
        None => total,
    }
}

} // verus!
