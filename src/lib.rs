//! A kernel that prepares long time series for drawing as lines on a pixel
//! canvas: it decimates a series to one column per pixel, counts the points a
//! dashed, gap-aware line over those columns needs, and plans the quads that
//! draw it.
use vstd::prelude::*;

pub mod walk;
pub mod quads;
pub mod decimate;

verus! {

} // verus!
