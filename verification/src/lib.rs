use vstd::prelude::*;

pub mod components;
pub mod fit;
pub mod format;
pub mod frames;
pub mod motion;
pub mod render;
pub mod resample;
pub mod text;
pub mod tiles;
pub mod timeline;
pub mod transition;

verus! {

} // verus!
