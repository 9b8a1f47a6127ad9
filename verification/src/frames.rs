//! Two frames of footage, brought to the working size of a set and compared.
use vstd::prelude::*;
use crate::motion::{cells_across, change_regions, regions_of_frames, ChangeRegion};
use crate::render::{spec_working_size, working_size};
use crate::resample::{keeps_local, lemma_uniform_channel_kept, resample_bounded, resize_rgb8, uniform_channel};

verus! {

/// Two frames at the working size, and where they differ.
pub struct FrameChanges {
    pub w: u32,
    pub h: u32,
    /// The first frame resampled, RGB8.
    pub a: Vec<u8>,
    /// The second frame resampled, RGB8.
    pub b: Vec<u8>,
    /// The change regions of the resampled frames, largest first.
    pub regions: Vec<ChangeRegion>,
}

/// What `frame_changes` needs: frames that match their sizes, and a working
/// size whose buffers and cell grid fit the machine.
pub open spec fn frames_ok(canvas: [u32; 2], max_side: u32, aw: u32, ah: u32, bw: u32, bh: u32) -> bool {
    let (w, h) = spec_working_size(canvas, Some(max_side));
    &&& 16 * aw * h <= isize::MAX
    &&& 16 * bw * h <= isize::MAX
    &&& 3 * w * h <= isize::MAX
    &&& cells_across(w) * cells_across(h) <= u32::MAX
}

/// Brings both frames to the working size of a set with reference canvas
/// `canvas` (long edge at most `max_side`), resampling with Lanczos3, and
/// finds where the resampled frames changed by at least `thr`. A frame
/// already at the working size is compared as it is; one with no pixels
/// becomes black. Within the sizes where resampling is known to be local,
/// `a` becomes the first resampled frame and `b` the second: each keeps the
/// channel values shared by the source pixels in reach, so a frame of one
/// colour stays that colour. Whatever
/// pixels the resampling gave, the regions are exactly those of the buffers
/// handed back.
pub fn frame_changes(
    canvas: [u32; 2],
    max_side: u32,
    a: &Vec<u8>,
    aw: u32,
    ah: u32,
    b: &Vec<u8>,
    bw: u32,
    bh: u32,
    thr: u8,
) -> (fc: FrameChanges)
    requires
        a.len() == 3 * aw * ah,
        b.len() == 3 * bw * bh,
        frames_ok(canvas, max_side, aw, ah, bw, bh),
    ensures
        (fc.w, fc.h) == spec_working_size(canvas, Some(max_side)),
        fc.a@.len() == 3 * fc.w * fc.h,
        fc.b@.len() == 3 * fc.w * fc.h,
        (aw, ah) == (fc.w, fc.h) ==> fc.a@ == a@,
        (bw, bh) == (fc.w, fc.h) ==> fc.b@ == b@,
        aw == 0 || ah == 0 ==> forall|i: int| 0 <= i < fc.a@.len() ==> fc.a@[i] == 0u8,
        bw == 0 || bh == 0 ==> forall|i: int| 0 <= i < fc.b@.len() ==> fc.b@[i] == 0u8,
        resample_bounded(aw, ah, fc.w, fc.h) ==> keeps_local(a@, fc.a@, 3, aw as int, ah as int, fc.w as int, fc.h as int),
        resample_bounded(bw, bh, fc.w, fc.h) ==> keeps_local(b@, fc.b@, 3, bw as int, bh as int, fc.w as int, fc.h as int),
        resample_bounded(aw, ah, fc.w, fc.h) ==> forall|k: int, v: u8|
            0 <= k < 3 && #[trigger] uniform_channel(a@, 3, aw as int, ah as int, k, v) ==> uniform_channel(
                fc.a@,
                3,
                fc.w as int,
                fc.h as int,
                k,
                v,
            ),
        resample_bounded(bw, bh, fc.w, fc.h) ==> forall|k: int, v: u8|
            0 <= k < 3 && #[trigger] uniform_channel(b@, 3, bw as int, bh as int, k, v) ==> uniform_channel(
                fc.b@,
                3,
                fc.w as int,
                fc.h as int,
                k,
                v,
            ),
        regions_of_frames(fc.a@, fc.b@, fc.w, fc.h, thr, fc.regions@),
{
    let (w, h) = working_size(canvas, Some(max_side));
    let ar = resize_rgb8(a, aw, ah, w, h);
    let br = resize_rgb8(b, bw, bh, w, h);
    proof {
        if resample_bounded(aw, ah, w, h) {
            assert forall|k: int, v: u8|
                0 <= k < 3 && #[trigger] uniform_channel(a@, 3, aw as int, ah as int, k, v) implies uniform_channel(
                ar@,
                3,
                w as int,
                h as int,
                k,
                v,
            ) by {
                lemma_uniform_channel_kept(a@, ar@, 3, aw as int, ah as int, w as int, h as int, k, v);
            }
        }
        if resample_bounded(bw, bh, w, h) {
            assert forall|k: int, v: u8|
                0 <= k < 3 && #[trigger] uniform_channel(b@, 3, bw as int, bh as int, k, v) implies uniform_channel(
                br@,
                3,
                w as int,
                h as int,
                k,
                v,
            ) by {
                lemma_uniform_channel_kept(b@, br@, 3, bw as int, bh as int, w as int, h as int, k, v);
            }
        }
    }
    let regions = change_regions(&ar, &br, w, h, thr);
    FrameChanges { w, h, a: ar, b: br, regions }
}

} // verus!
