//! Verified core of the ByteTrack multi-object tracker.
//!
//! The tracker decides: it splits detections by confidence, matches them with tracks in
//! two stages, and moves tracks through their lifecycle. Numbers are held as bit
//! patterns and only compared ([`number`]). The arithmetic of boxes and motion filters is
//! done by the caller, at the tracker's request ([`motion`]).
//!
//! * [`assignment`]: greedy matching by a cost matrix
//! * [`cascade`]: the two-stage association cascade
//! * [`byte_track`]: tracks, settings and the tracker
//! * [`conservation`], [`outcome`]: what holds of a cascade pass
//! * [`laws`], [`account`], [`uniqueness`]: what holds of a frame
//! * [`history`]: what holds of any sequence of frames

pub mod account;
pub mod assignment;
pub mod byte_track;
pub mod cascade;
pub mod conservation;
pub mod history;
pub mod indices;
pub mod laws;
pub mod motion;
pub mod number;
pub mod outcome;
pub mod uniqueness;
