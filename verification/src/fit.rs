//! What the greedy fitter decides without touching a pixel: the resolution it
//! works at, and the report it hands back.
use vstd::prelude::*;
use crate::format::{f32_is_finite, f32_is_zero, f32_le_zero, f32_sign_set, is_finite, le_zero, F32_ONE};
use crate::render::{spec_working_size, working_size};
use crate::resample::{keeps_local, lemma_uniform_channel_kept, resample_bounded, resize_rgba8, uniform_channel};

verus! {

/// The fitter never works below this many pixels on a side.
pub const MIN_FIT_SIDE: u32 = 8;

/// What a fit was aiming at and how far it got.
pub struct Report {
    /// Working width, pixels.
    pub w: u32,
    /// Working height, pixels.
    pub h: u32,
    /// The resized source, RGBA8, row-major.
    pub target: Vec<u8>,
    /// How many placement passes ran before the budget or the schedule ended.
    pub passes_run: u32,
}

/// The most candidates a cell may propose per pass.
pub const MAX_CANDIDATES: u32 = 64;

/// How the greedy fitter runs. Every `f32` is held as its bit pattern.
#[derive(Clone, Copy, Debug, PartialEq, Eq)]
pub struct Options {
    /// Working resolution, long edge.
    pub max_side: u32,
    /// Coarse-to-fine steps.
    pub passes: u32,
    /// Stop after this many primitives.
    pub budget: usize,
    /// Proposals per cell per pass.
    pub candidates: u32,
    /// Fraction of cells allowed to place per pass.
    pub pace: u32,
    /// Size schedule, start and end.
    pub sigma_start: u32,
    pub sigma_end: u32,
    /// Opacity range for proposals.
    pub alpha_lo: u32,
    pub alpha_hi: u32,
    /// Sharpest proposal allowed.
    pub beta_max: u32,
    /// Weight error by the sRGB slope.
    pub perceptual: bool,
}

impl Default for Options {
    /// 1024 pixels, 220 passes, a 200000 primitive cap, 32 candidates, pace
    /// 0.08, sizes 0.11 down to 0.0045, opacity 0.35 to 1, sharpness up to 6,
    /// plain error.
    fn default() -> (o: Self)
        ensures
            o.max_side == 1024,
            o.passes == 220,
            o.budget == 200_000,
            o.candidates == 32,
            o.pace == 0x3da3_d70au32,
            o.sigma_start == 0x3de1_47aeu32,
            o.sigma_end == 0x3b93_74bcu32,
            o.alpha_lo == 0x3eb3_3333u32,
            o.alpha_hi == F32_ONE,
            o.beta_max == 0x40c0_0000u32,
            !o.perceptual,
    {
        Options {
            max_side: 1024,
            passes: 220,
            budget: 200_000,
            candidates: 32,
            pace: 0x3da3_d70a,
            sigma_start: 0x3de1_47ae,
            sigma_end: 0x3b93_74bc,
            alpha_lo: 0x3eb3_3333,
            alpha_hi: F32_ONE,
            beta_max: 0x40c0_0000,
            perceptual: false,
        }
    }
}

/// Which fit option is out of range.
#[derive(Clone, Copy, Debug, PartialEq, Eq)]
pub enum FitOptionError {
    /// `candidates` outside `1..=64`.
    Candidates,
    /// `pace` outside `[0, 1]`.
    Pace,
}

/// `0.0 <= v <= 1.0` for the `f32` with bit pattern `v`; false for a NaN.
pub open spec fn unit_interval(v: u32) -> bool {
    f32_is_finite(v) && (f32_is_zero(v) || (!f32_sign_set(v) && v <= F32_ONE))
}

pub open spec fn spec_check_fit_options(o: Options) -> Result<(), FitOptionError> {
    if o.candidates == 0 || o.candidates > MAX_CANDIDATES {
        Err(FitOptionError::Candidates)
    } else if !unit_interval(o.pace) {
        Err(FitOptionError::Pace)
    } else {
        Ok(())
    }
}

impl Options {
    /// Between one and 64 candidates, and a pace in `[0, 1]`.
    pub fn check(&self) -> (r: Result<(), FitOptionError>)
        ensures
            r == spec_check_fit_options(*self),
    {
        if self.candidates == 0 || self.candidates > MAX_CANDIDATES {
            Err(FitOptionError::Candidates)
        } else if !(is_finite(self.pace) && (self.pace & 0x7fff_ffffu32 == 0 || (self.pace
            & 0x8000_0000u32 == 0 && self.pace <= F32_ONE))) {
            Err(FitOptionError::Pace)
        } else {
            Ok(())
        }
    }
}

pub open spec fn spec_fit_size(image: [u32; 2], max_side: u32) -> (u32, u32) {
    let (w, h) = spec_working_size(image, Some(max_side));
    (if w < MIN_FIT_SIDE { MIN_FIT_SIDE } else { w }, if h < MIN_FIT_SIDE { MIN_FIT_SIDE } else { h })
}

/// The fitter's working resolution for an `image[0]` by `image[1]` source:
/// shrunk so the long edge fits `max_side`, never enlarged, and at least
/// eight pixels on each side.
pub fn fit_size(image: [u32; 2], max_side: u32) -> (r: (u32, u32))
    ensures
        r == spec_fit_size(image, max_side),
        r.0 >= MIN_FIT_SIDE && r.1 >= MIN_FIT_SIDE,
{
    let (w, h) = working_size(image, Some(max_side));
    (if w < MIN_FIT_SIDE { MIN_FIT_SIDE } else { w }, if h < MIN_FIT_SIDE { MIN_FIT_SIDE } else { h })
}

/// The fit's target: an RGBA8 source of `iw` by `ih` pixels resampled with
/// Lanczos3 to the fitter's working resolution, which it returns with the
/// pixels. A source already at that size comes back unchanged; one with no
/// pixels gives a black, transparent target. Within the sizes where
/// resampling is known to be local, every target pixel takes any channel
/// value shared by the source pixels in its reach; in particular a channel
/// of one colour in the source keeps that colour in the target.
pub fn fit_target(src: &Vec<u8>, iw: u32, ih: u32, max_side: u32) -> (r: (u32, u32, Vec<u8>))
    requires
        src.len() == 4 * iw * ih,
        16 * iw * spec_fit_size([iw, ih], max_side).1 <= isize::MAX,
        4 * spec_fit_size([iw, ih], max_side).0 * spec_fit_size([iw, ih], max_side).1 <= isize::MAX,
    ensures
        (r.0, r.1) == spec_fit_size([iw, ih], max_side),
        r.2@.len() == 4 * r.0 * r.1,
        (iw, ih) == (r.0, r.1) ==> r.2@ == src@,
        iw == 0 || ih == 0 ==> forall|i: int| 0 <= i < r.2@.len() ==> r.2@[i] == 0u8,
        resample_bounded(iw, ih, r.0, r.1) ==> keeps_local(src@, r.2@, 4, iw as int, ih as int, r.0 as int, r.1 as int),
        resample_bounded(iw, ih, r.0, r.1) ==> forall|k: int, v: u8|
            0 <= k < 4 && #[trigger] uniform_channel(src@, 4, iw as int, ih as int, k, v) ==> uniform_channel(
                r.2@,
                4,
                r.0 as int,
                r.1 as int,
                k,
                v,
            ),
{
    let (w, h) = fit_size([iw, ih], max_side);
    let target = resize_rgba8(src, iw, ih, w, h);
    proof {
        if resample_bounded(iw, ih, w, h) {
            assert forall|k: int, v: u8|
                0 <= k < 4 && #[trigger] uniform_channel(src@, 4, iw as int, ih as int, k, v) implies uniform_channel(
                target@,
                4,
                w as int,
                h as int,
                k,
                v,
            ) by {
                lemma_uniform_channel_kept(src@, target@, 4, iw as int, ih as int, w as int, h as int, k, v);
            }
        }
    }
    (w, h, target)
}

// ── per-pass jitter ──────────────────────────────────────────────────────

/// The integer hash behind the fitter's per-pass jitter: a multiply-add
/// step, a data-dependent shift, a second multiply and a final fold, all
/// modulo 2^32. The jitter itself is this value divided by 2^32.
pub open spec fn spec_pass_hash(n: u32) -> u32 {
    let s = ((n * 747796405nat + 2891336453nat) % 0x1_0000_0000) as u32;
    let k = ((s >> 28u32) + 4) as u32;
    let w = ((((s >> k) ^ s) * 277803737nat) % 0x1_0000_0000) as u32;
    (w >> 22u32) ^ w
}

/// Deterministic per-pass jitter source. Anything that varies between
/// passes has to be reproducible, or two runs of the same fit diverge.
pub fn pass_hash(n: u32) -> (r: u32)
    ensures
        r == spec_pass_hash(n),
{
    let m = n.wrapping_mul(747796405);
    let s = m.wrapping_add(2891336453);
    proof {
        let a = n * 747796405nat;
        vstd::arithmetic::div_mod::lemma_add_mod_noop(a as int, 2891336453int, 0x1_0000_0000int);
        assert(s == ((a + 2891336453nat) % 0x1_0000_0000) as u32);
    }
    assert(s >> 28u32 <= 15u32) by (bit_vector);
    let k = (s >> 28) + 4;
    let w = ((s >> k) ^ s).wrapping_mul(277803737);
    (w >> 22) ^ w
}

// ── winners of a pass ────────────────────────────────────────────────────

/// One cell's winner as the fitter reads it back from the GPU: geometry
/// `(x, y, sx, sy)`, `(theta, alpha, beta, envelope)` and colour
/// `(r, g, b, spare)`, every number the bit pattern of its `f32`. A cell
/// that found nothing better holds an alpha of zero.
#[derive(Clone, Copy, Debug, PartialEq, Eq)]
pub struct Winner {
    pub geom: [u32; 4],
    pub rot: [u32; 4],
    pub color: [u32; 4],
}

/// The ten numbers a winner becomes in the file:
/// `x y sx sy theta r g b a beta`.
pub open spec fn winner_row(w: Winner) -> Seq<u32> {
    seq![
        w.geom[0], w.geom[1], w.geom[2], w.geom[3], w.rot[0],
        w.color[0], w.color[1], w.color[2], w.rot[1], w.rot[2],
    ]
}

/// A cell placed something: its alpha is not `<= 0.0`.
pub open spec fn accepted(w: Winner) -> bool {
    !f32_le_zero(w.rot[1])
}

/// The rows of the accepted winners, in cell order.
pub open spec fn accepted_rows(won: Seq<Winner>) -> Seq<Seq<u32>>
    decreases won.len(),
{
    if won.len() == 0 {
        Seq::empty()
    } else {
        let r = accepted_rows(won.drop_last());
        if accepted(won.last()) {
            r.push(winner_row(won.last()))
        } else {
            r
        }
    }
}

proof fn lemma_accepted_rows_prefix(won: Seq<Winner>, i: int)
    requires
        0 <= i <= won.len(),
    ensures
        accepted_rows(won.take(i)).len() <= accepted_rows(won).len(),
        accepted_rows(won).take(accepted_rows(won.take(i)).len() as int) == accepted_rows(won.take(i)),
    decreases won.len(),
{
    if i < won.len() {
        assert(won.drop_last().take(i) =~= won.take(i));
        lemma_accepted_rows_prefix(won.drop_last(), i);
        let p = accepted_rows(won.take(i));
        let d = accepted_rows(won.drop_last());
        assert(accepted_rows(won).take(p.len() as int) =~= d.take(p.len() as int));
    } else {
        assert(won.take(i) =~= won);
        assert(accepted_rows(won).take(accepted_rows(won).len() as int) =~= accepted_rows(won));
    }
}

/// Appends the winners of one pass to the primitive list: in cell order,
/// which is the order they were blended in; rejected cells skipped; and no
/// further once the list holds `budget` primitives. The list is only ever
/// appended to.
pub fn collect_winners(splats: &mut Vec<Vec<u32>>, won: &Vec<Winner>, budget: usize)
    requires
        old(splats).len() < budget,
    ensures
        ({
            let acc = accepted_rows(won@);
            let room = budget - old(splats).len();
            let k = if acc.len() < room { acc.len() } else { room as nat };
            final(splats).deep_view() == old(splats).deep_view() + acc.take(k as int)
        }),
{
    let ghost start = splats.deep_view();
    let mut i: usize = 0;
    while i < won.len() && splats.len() < budget
        invariant
            i <= won.len(),
            start.len() < budget,
            splats.len() <= budget,
            splats.deep_view() == start + accepted_rows(won@.take(i as int)),
        decreases won.len() - i,
    {
        let c = won[i];
        proof {
            assert(won@.take(i as int + 1).drop_last() =~= won@.take(i as int));
        }
        if !le_zero(c.rot[1]) {
            let row = vec![
                c.geom[0], c.geom[1], c.geom[2], c.geom[3], c.rot[0],
                c.color[0], c.color[1], c.color[2], c.rot[1], c.rot[2],
            ];
            assert(row@ =~= winner_row(c));
            assert(row.deep_view() =~= row@);
            let ghost before = splats.deep_view();
            splats.push(row);
            assert(splats.deep_view() =~= before.push(winner_row(c)));
            assert(splats.deep_view() =~= start + accepted_rows(won@.take(i as int + 1)));
        }
        i += 1;
    }
    proof {
        let acc = accepted_rows(won@);
        let p = accepted_rows(won@.take(i as int));
        lemma_accepted_rows_prefix(won@, i as int);
        if i == won.len() {
            assert(won@.take(i as int) =~= won@);
            assert(acc.take(acc.len() as int) =~= acc);
        }
    }
}

} // verus!
