//! A keyframed timeline of one persistent ordered set.
//!
//! The frame files are not independent fits: each is warm-started from the
//! previous state without changing row count or order. A timeline records
//! those states, the paths of their files, and the rate they play at.
use vstd::prelude::*;
use crate::format::{f32_gt_zero, f32_is_finite, gt_zero, is_finite};

verus! {

/// The timeline version this library reads.
pub const TIMELINE_VERSION: u32 = 0;

/// A timeline descriptor. `fps` is held as the bit pattern of its `f32`.
pub struct Timeline {
    pub timeline: u32,
    pub fps: u32,
    pub frames: Vec<String>,
}

/// Why a timeline descriptor is refused.
#[derive(Clone, Copy, Debug, PartialEq, Eq)]
pub enum TimelineError {
    /// A version other than `TIMELINE_VERSION`.
    Version(u32),
    /// A frame rate that is not positive and finite.
    Fps,
    /// Fewer than two frames: nothing to sample between.
    TooFewFrames,
    /// A frame path that is empty.
    EmptyFrame,
}

pub open spec fn spec_timeline_check(tl: Timeline) -> Result<(), TimelineError> {
    if tl.timeline != TIMELINE_VERSION {
        Err(TimelineError::Version(tl.timeline))
    } else if !(f32_is_finite(tl.fps) && f32_gt_zero(tl.fps)) {
        Err(TimelineError::Fps)
    } else if tl.frames.len() < 2 {
        Err(TimelineError::TooFewFrames)
    } else if exists|i: int| 0 <= i < tl.frames.len() && (#[trigger] tl.frames[i])@.len() == 0 {
        Err(TimelineError::EmptyFrame)
    } else {
        Ok(())
    }
}

impl Timeline {
    /// Checks a descriptor: its version, a positive finite rate, at least two
    /// frames, and no empty frame path, in that order.
    #[verifier::loop_isolation(false)]
    pub fn validate(&self) -> (r: Result<(), TimelineError>)
        ensures
            r == spec_timeline_check(*self),
    {
        if self.timeline != TIMELINE_VERSION {
            return Err(TimelineError::Version(self.timeline));
        }
        if !(is_finite(self.fps) && gt_zero(self.fps)) {
            return Err(TimelineError::Fps);
        }
        let n = self.frames.len();
        if n < 2 {
            return Err(TimelineError::TooFewFrames);
        }
        let mut i: usize = 0;
        while i < n
            invariant
                n == self.frames.len(),
                i <= n,
                forall|k: int| 0 <= k < i ==> (#[trigger] self.frames[k])@.len() != 0,
            decreases n - i,
        {
            if self.frames[i].as_str().is_empty() {
                assert(self.frames[i as int]@.len() == 0);
                return Err(TimelineError::EmptyFrame);
            }
            i += 1;
        }
        Ok(())
    }
}

} // verus!
