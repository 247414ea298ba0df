//! The motion-filter work that the tracker asks for.
//!
//! The tracker decides which filter is stepped, how and with which box. The
//! arithmetic of the filters is done by the caller, who keeps one filter for
//! each track.

use crate::number::Single;
use vstd::prelude::*;

verus! {

/// One step of the motion filter of a track. Boxes are in TLWH
/// (Top-Left-Width-Height) form.
#[derive(Clone, Copy, Debug)]
pub enum KalmanStep {
    /// Start a filter at this box.
    Initiate([Single; 4]),
    /// Correct the filter with this measured box.
    Update([Single; 4]),
    /// Advance the filter by one frame and report its box, after setting the
    /// velocity of the height to zero if asked to.
    Predict { clear_height_velocity: bool },
}

/// A filter step together with the track whose filter takes it.
#[derive(Clone, Copy, Debug)]
pub struct MotionRequest {
    /// The track whose filter takes the step.
    pub track_id: u64,
    /// The step.
    pub step: KalmanStep,
}

} // verus!
