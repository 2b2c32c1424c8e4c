//! The values that pass between the stages. Times are in nanoseconds.
use vstd::prelude::*;

use crate::sync::{Correlation, Drift};

verus! {

/// What ffprobe says of a media file. Duration and frame rate are kept as the text that
/// ffprobe prints, such as `3946.220000` and `30000/1001`.
#[derive(Debug, Clone)]
pub struct ProbeInfo {
    pub path: String,
    pub width: u32,
    pub height: u32,
    pub duration: Option<String>,
    pub has_audio: bool,
    pub video_fps: Option<String>,
}

/// A single participant's local recording, plus its computed alignment.
#[derive(Debug, Clone)]
pub struct Participant {
    /// Stable slug used across the timeline (e.g. `dan-garfield-webcam`).
    pub id: String,
    /// Human name parsed from the filename (e.g. `Dan Garfield`).
    pub name: String,
    /// `webcam` or `screen`.
    pub source: String,
    /// Path of the local recording.
    pub file: String,
    /// Duration of the local recording.
    pub duration: i64,
    /// Cloud time at which the local recording begins. `None` until aligned.
    pub offset_ns: Option<i64>,
    /// Rate difference against the cloud master. `None` until aligned.
    pub drift: Option<Drift>,
    /// Peak correlation in `[0, 1]`. `None` until aligned.
    pub confidence: Option<Correlation>,
}

/// One contiguous interval where a participant occupies a fixed on-screen box.
#[derive(Debug)]
pub struct SpatialSegment {
    pub start_time: i64,
    pub end_time: i64,
    pub participant_id: String,
    /// (x, y, width, height) in full-resolution cloud pixels.
    pub bounding_box: (u32, u32, u32, u32),
}

impl Clone for SpatialSegment {
    fn clone(&self) -> (r: Self)
        ensures
            r == *self,
    {
        SpatialSegment {
            start_time: self.start_time,
            end_time: self.end_time,
            participant_id: self.participant_id.clone(),
            bounding_box: self.bounding_box,
        }
    }
}

/// The full set of spatial segments.
#[derive(Debug, Clone)]
pub struct LayoutTimeline {
    pub cloud: String,
    pub width: u32,
    pub height: u32,
    pub duration: i64,
    pub segments: Vec<SpatialSegment>,
}

/// Per-participant alignment result: one row of the synchronization report.
#[derive(Debug, Clone)]
pub struct ParticipantSync {
    pub id: String,
    pub name: String,
    pub source: String,
    pub offset_ns: i64,
    pub drift: Drift,
    pub confidence: Correlation,
}

/// The synchronization report.
#[derive(Debug, Clone)]
pub struct SyncReport {
    pub cloud: String,
    pub cloud_duration: i64,
    pub sample_rate: u32,
    pub participants: Vec<ParticipantSync>,
}

} // verus!
