//! The ByteTrack tracker: tracks, settings and the frame update.

use crate::assignment;
use crate::cascade;
use crate::cascade::{CascadeDet, CascadeTrack};
use crate::indices;
use crate::motion::{KalmanStep, MotionRequest};
use crate::number::{Single, MAX_BITS};
use vstd::prelude::*;

verus! {

/// A detection: its box in TLWH form, its score and its class ID.
pub type Detection = ([Single; 4], Single, i64);

/// A Single Track (STrack) representing a tracked object.
///
/// The motion filter of a track is kept by the caller, under the track ID. The
/// operations that move it return the step that it has to take.
#[derive(Debug, Clone, Copy)]
pub struct STrack {
    /// Bounding box in TLWH (Top-Left-Width-Height) format.
    pub tlwh: [Single; 4],
    /// Detection confidence score.
    pub score: Single,
    /// Class ID of the object.
    pub class_id: i64,
    /// Unique track ID.
    pub track_id: u64,
    /// Current tracking state (New, Tracking, Lost, Removed).
    pub state: TrackState,
    /// Whether the track is currently activated (confirmed).
    pub is_activated: bool,
    /// Current frame ID.
    pub frame_id: usize,
    /// Frame ID where the track started.
    pub start_frame: usize,
    /// Length of the tracklet (number of frames tracked).
    pub tracklet_len: usize,
}

/// The state of a track.
#[derive(Debug, Clone, Copy, PartialEq, Eq, Structural)]
pub enum TrackState {
    New,
    Tracking,
    Lost,
    Removed,
}

impl STrack {
    /// A detection that no track has taken up yet.
    pub open spec fn fresh(det: Detection) -> STrack {
        STrack {
            tlwh: det.0,
            score: det.1,
            class_id: det.2,
            track_id: 0,
            state: TrackState::New,
            is_activated: false,
            frame_id: 0,
            start_frame: 0,
            tracklet_len: 0,
        }
    }

    /// A detection as a track that is not activated yet.
    pub fn new(tlwh: [Single; 4], score: Single, class_id: i64) -> (r: STrack)
        ensures
            r == STrack::fresh((tlwh, score, class_id)),
            r.tlwh == tlwh,
            r.score == score,
            r.class_id == class_id,
            r.track_id == 0,
            r.state == TrackState::New,
            !r.is_activated,
            r.frame_id == 0,
            r.start_frame == 0,
            r.tracklet_len == 0,
    {
        STrack {
            tlwh,
            score,
            class_id,
            track_id: 0,
            state: TrackState::New,
            is_activated: false,
            frame_id: 0,
            start_frame: 0,
            tracklet_len: 0,
        }
    }

    /// Start a track here, in this frame and under this ID, with a new filter at
    /// its box.
    pub fn activate(&mut self, frame_id: usize, track_id: u64) -> (step: KalmanStep)
        ensures
            *final(self) == (STrack {
                frame_id,
                start_frame: frame_id,
                state: TrackState::Tracking,
                is_activated: true,
                track_id,
                tracklet_len: 0,
                ..*old(self)
            }),
            step == KalmanStep::Initiate(old(self).tlwh),
    {
        self.frame_id = frame_id;
        self.start_frame = frame_id;
        self.state = TrackState::Tracking;
        self.is_activated = true;
        self.track_id = track_id;
        self.tracklet_len = 0;
        KalmanStep::Initiate(self.tlwh)
    }

    /// Bring the track back with a detection. It keeps its ID unless given another.
    pub fn re_activate(
        &mut self,
        new_track: STrack,
        frame_id: usize,
        new_track_id: Option<u64>,
    ) -> (step: KalmanStep)
        ensures
            *final(self) == (STrack {
                state: TrackState::Tracking,
                is_activated: true,
                frame_id,
                tracklet_len: 0,
                score: new_track.score,
                tlwh: new_track.tlwh,
                track_id: match new_track_id {
                    Some(id) => id,
                    None => old(self).track_id,
                },
                ..*old(self)
            }),
            step == KalmanStep::Update(new_track.tlwh),
    {
        self.state = TrackState::Tracking;
        self.is_activated = true;
        self.frame_id = frame_id;
        self.tracklet_len = 0;
        self.score = new_track.score;
        self.tlwh = new_track.tlwh;  // Use new detection box
        if let Some(id) = new_track_id {
            self.track_id = id;
        }
        KalmanStep::Update(new_track.tlwh)
    }

    /// Continue the track with a detection.
    pub fn update(&mut self, new_track: STrack, frame_id: usize) -> (step: KalmanStep)
        requires
            old(self).tracklet_len < usize::MAX,
        ensures
            *final(self) == (STrack {
                frame_id,
                tracklet_len: (old(self).tracklet_len + 1) as usize,
                state: TrackState::Tracking,
                is_activated: true,
                score: new_track.score,
                tlwh: new_track.tlwh,
                ..*old(self)
            }),
            step == KalmanStep::Update(new_track.tlwh),
    {
        self.frame_id = frame_id;
        self.tracklet_len += 1;
        self.state = TrackState::Tracking;
        self.is_activated = true;
        self.score = new_track.score;
        self.tlwh = new_track.tlwh;
        KalmanStep::Update(new_track.tlwh)
    }

    /// The filter step that predicts the track: the velocity of the height is
    /// cleared if the track is not in the tracked state.
    pub open spec fn prediction(self) -> MotionRequest {
        MotionRequest {
            track_id: self.track_id,
            step: KalmanStep::Predict {
                clear_height_velocity: self.state != TrackState::Tracking,
            },
        }
    }

    /// Ask for the box that the filter predicts; [`STrack::predict`] takes it.
    pub fn predict_request(&self) -> (r: MotionRequest)
        ensures
            r == self.prediction(),
            r.track_id == self.track_id,
            r.step == (KalmanStep::Predict {
                clear_height_velocity: self.state != TrackState::Tracking,
            }),
    {
        MotionRequest {
            track_id: self.track_id,
            step: KalmanStep::Predict {
                clear_height_velocity: self.state != TrackState::Tracking,
            },
        }
    }

    /// Take the box that the filter predicted as the box estimate.
    pub fn predict(&mut self, tlwh: [Single; 4])
        ensures
            *final(self) == (STrack { tlwh, ..*old(self) }),
    {
        self.tlwh = tlwh;
    }
}

impl CascadeDet for STrack {
    open spec fn tlwh_of(&self) -> [Single; 4] {
        self.tlwh
    }

    open spec fn score_of(&self) -> Single {
        self.score
    }

    fn det_box(&self) -> (r: [Single; 4]) {
        self.tlwh
    }

    fn det_score(&self) -> (r: Single) {
        self.score
    }
}

impl CascadeTrack for STrack {
    type Det = STrack;

    open spec fn in_tracked_state(&self) -> bool {
        self.state == TrackState::Tracking
    }

    open spec fn in_lost_state(&self) -> bool {
        self.state == TrackState::Lost
    }

    open spec fn as_lost(&self) -> STrack {
        STrack { state: TrackState::Lost, ..*self }
    }

    open spec fn last_frame(&self) -> usize {
        self.frame_id
    }

    open spec fn estimate(&self) -> [Single; 4] {
        self.tlwh
    }

    open spec fn can_continue(&self) -> bool {
        self.tracklet_len < usize::MAX
    }

    open spec fn updated(&self, det: STrack, frame_id: usize) -> (STrack, KalmanStep) {
        (
            STrack {
                frame_id,
                tracklet_len: (self.tracklet_len + 1) as usize,
                state: TrackState::Tracking,
                is_activated: true,
                score: det.score,
                tlwh: det.tlwh,
                ..*self
            },
            KalmanStep::Update(det.tlwh),
        )
    }

    open spec fn reactivated(&self, det: STrack, frame_id: usize) -> (STrack, KalmanStep) {
        (
            STrack {
                frame_id,
                tracklet_len: 0,
                state: TrackState::Tracking,
                is_activated: true,
                score: det.score,
                tlwh: det.tlwh,
                ..*self
            },
            KalmanStep::Update(det.tlwh),
        )
    }

    open spec fn spawned(det: STrack, frame_id: usize, track_id: u64) -> (STrack, KalmanStep) {
        (
            STrack {
                frame_id,
                start_frame: frame_id,
                tracklet_len: 0,
                state: TrackState::Tracking,
                is_activated: true,
                track_id,
                ..det
            },
            KalmanStep::Initiate(det.tlwh),
        )
    }

    open spec fn admits(&self, det: STrack) -> bool {
        self.class_id == det.class_id
    }

    fn is_tracked(&self) -> (r: bool) {
        self.state == TrackState::Tracking
    }

    fn is_lost(&self) -> (r: bool) {
        self.state == TrackState::Lost
    }

    fn set_lost(&mut self) {
        self.state = TrackState::Lost;
    }

    fn cascade_frame_id(&self) -> (r: usize) {
        self.frame_id
    }

    fn cascade_tlwh(&self) -> (r: [Single; 4]) {
        self.tlwh
    }

    fn update_matched(&mut self, det: &STrack, frame_id: usize) -> (step: KalmanStep) {
        self.update(*det, frame_id)
    }

    fn reactivate_matched(&mut self, det: &STrack, frame_id: usize) -> (step: KalmanStep) {
        self.re_activate(*det, frame_id, None)
    }

    fn spawn(det: &STrack, frame_id: usize, track_id: u64) -> (r: (STrack, KalmanStep)) {
        let mut track = *det;
        let step = track.activate(frame_id, track_id);
        (track, step)
    }

    fn accepts(&self, det: &STrack) -> (r: bool) {
        self.class_id == det.class_id
    }
}

/// Lifecycle settings that the trackers of the family share.
#[derive(Debug, Clone, Copy, PartialEq)]
pub struct CommonParams {
    /// How many frames a lost track is kept alive.
    pub max_age: usize,
    /// How many matches confirm a track. ByteTrack does not use it.
    pub min_hits: usize,
}

/// Settings for [`ByteTrack`].
///
/// The shared lifecycle fields live in [`CommonParams`]; ByteTrack maps its track
/// buffer onto `common.max_age`. Build it with [`ByteTrackParams::default`], tweak
/// what you need, then pass it to [`ByteTrack::from_params`].
#[derive(Debug, Clone, Copy, PartialEq)]
pub struct ByteTrackParams {
    /// Shared lifecycle settings. `common.max_age` is how many frames a lost track is
    /// kept alive, what ByteTrack calls the track buffer.
    pub common: CommonParams,
    /// Score from which on a detection is treated as high confidence and matched first.
    /// Detections below it are held back for the second, low confidence pass.
    pub track_thresh: Single,
    /// First stage match cutoff, given as a maximum IoU distance of one minus IoU. A
    /// pair matches when its IoU distance is at or below this. Lower is stricter.
    pub match_thresh: Single,
    /// Smallest score an unmatched high confidence detection needs to start a brand
    /// new track. Raising it avoids spawning tracks from weak one-off detections.
    pub det_thresh: Single,
    /// Second stage match cutoff for recovering objects from low confidence
    /// detections, again a maximum IoU distance.
    pub second_match_thresh: Single,
}

/// The bit pattern of 0.5.
pub const HALF_BITS: u32 = 0x3f00_0000;

/// The bit pattern of the number nearest to 0.6.
pub const SIX_TENTHS_BITS: u32 = 0x3f19_999a;

/// The bit pattern of the number nearest to 0.8.
pub const EIGHT_TENTHS_BITS: u32 = 0x3f4c_cccd;

impl ByteTrackParams {
    /// The default settings.
    pub open spec fn defaults() -> ByteTrackParams {
        ByteTrackParams {
            common: CommonParams { max_age: 30, min_hits: 3 },
            track_thresh: Single { bits: HALF_BITS },
            match_thresh: Single { bits: EIGHT_TENTHS_BITS },
            det_thresh: Single { bits: SIX_TENTHS_BITS },
            second_match_thresh: Single { bits: HALF_BITS },
        }
    }
}

impl Default for ByteTrackParams {
    fn default() -> (r: ByteTrackParams)
        ensures
            r == ByteTrackParams::defaults(),
            r.common.max_age == 30,
            r.common.min_hits == 3,
            r.track_thresh.bits == 0x3f00_0000,
            r.match_thresh.bits == 0x3f4c_cccd,
            r.det_thresh.bits == 0x3f19_999a,
            r.second_match_thresh.bits == 0x3f00_0000,
    {
        ByteTrackParams {
            common: CommonParams { max_age: 30, min_hits: 3 },
            track_thresh: Single { bits: HALF_BITS },
            match_thresh: Single { bits: EIGHT_TENTHS_BITS },
            det_thresh: Single { bits: SIX_TENTHS_BITS },
            second_match_thresh: Single { bits: HALF_BITS },
        }
    }
}

/// ByteTrack tracker implementation.
///
/// **ByteTrack** is a simple, fast and strong multi-object tracker.
///
/// A frame goes as follows. The caller asks for the predictions that the tracker
/// needs ([`ByteTrack::predict_requests`]) and has the motion filters make them,
/// computes the IoU distances of the boxes that the tracker names
/// ([`ByteTrack::association_boxes`]), hands both over with the detections
/// ([`ByteTrack::update`]), and has the motion filters take the steps that come back.
pub struct ByteTrack {
    tracked_stracks: Vec<STrack>,
    lost_stracks: Vec<STrack>,
    frame_id: usize,
    buffer_size: usize,
    track_thresh: Single,
    match_thresh: Single,
    det_thresh: Single,
    second_match_thresh: Single,
    next_id: u64,
}

/// What a frame update returns.
pub struct FrameOutput {
    /// The active tracks in the current frame.
    pub tracks: Vec<STrack>,
    /// The filter steps of the tracks that took a detection.
    pub motion: Vec<MotionRequest>,
}

/// The contents of a [`ByteTrack`].
#[verifier::ext_equal]
pub struct TrackerView {
    /// The tracks in the tracked state.
    pub tracked_stracks: Seq<STrack>,
    /// The lost tracks that are still kept.
    pub lost_stracks: Seq<STrack>,
    /// The number of frames so far.
    pub frame_id: usize,
    /// How many frames a lost track is kept.
    pub buffer_size: usize,
    /// Score from which on a detection has high confidence.
    pub track_thresh: Single,
    /// First-stage match cutoff.
    pub match_thresh: Single,
    /// Smallest score that starts a track.
    pub det_thresh: Single,
    /// Second-stage match cutoff.
    pub second_match_thresh: Single,
    /// The id of the next new track.
    pub next_id: u64,
}

/// What a frame brings to the tracker.
#[verifier::ext_equal]
pub struct Frame {
    /// The detections.
    pub detections: Seq<Detection>,
    /// The predicted boxes of the tracked tracks, then of the lost ones.
    pub predictions: Seq<[Single; 4]>,
    /// The IoU distance of each predicted box and each detection box.
    pub iou_cost: Seq<Seq<Single>>,
}

impl TrackerView {
    /// A tracker that has seen no frame.
    pub open spec fn initial(params: ByteTrackParams) -> TrackerView {
        TrackerView {
            tracked_stracks: Seq::empty(),
            lost_stracks: Seq::empty(),
            frame_id: 0,
            buffer_size: params.common.max_age,
            track_thresh: params.track_thresh,
            match_thresh: params.match_thresh,
            det_thresh: params.det_thresh,
            second_match_thresh: params.second_match_thresh,
            next_id: 1,
        }
    }

    /// The tracked tracks, then the lost ones.
    pub open spec fn stored(self) -> Seq<STrack> {
        self.tracked_stracks + self.lost_stracks
    }

    /// How many frames after its last match a track can still be stored: a track is
    /// kept for the buffer, and in any case in the frame in which it becomes lost.
    pub open spec fn horizon(self) -> int {
        if self.buffer_size == 0 {
            1
        } else {
            self.buffer_size as int
        }
    }

    /// What holds of a stored track in whatever state.
    pub open spec fn sound(self, t: STrack) -> bool {
        &&& t.is_activated
        &&& 1 <= t.track_id < self.next_id
        &&& t.start_frame <= t.frame_id <= self.frame_id
        &&& t.tracklet_len <= t.frame_id - t.start_frame
    }

    /// The invariant of the tracker.
    ///
    /// Tracked tracks were matched in the current frame, lost tracks in an
    /// earlier one within the horizon; all are activated, and no two share an ID.
    pub open spec fn wf(self) -> bool {
        &&& 1 <= self.next_id
        &&& forall|i: int| 0 <= i < self.stored().len() ==> self.sound(#[trigger] self.stored()[i])
        &&& forall|i: int|
            0 <= i < self.tracked_stracks.len() ==> (#[trigger] self.tracked_stracks[i]).state
                == TrackState::Tracking && self.tracked_stracks[i].frame_id == self.frame_id
        &&& forall|i: int|
            0 <= i < self.lost_stracks.len() ==> (#[trigger] self.lost_stracks[i]).state
                == TrackState::Lost && 1 <= self.frame_id - self.lost_stracks[i].frame_id
                <= self.horizon()
        &&& forall|i: int, j: int|
            0 <= i < j < self.stored().len() ==> (#[trigger] self.stored()[i]).track_id != (
            #[trigger] self.stored()[j]).track_id
    }

    /// Whether the tracker can take a frame: there is a prediction for each stored
    /// track and a distance for each pair, and no counter runs over.
    pub open spec fn can_take(self, frame: Frame) -> bool {
        &&& self.stored().len() <= usize::MAX
        &&& frame.detections.len() <= usize::MAX
        &&& frame.predictions.len() == self.stored().len()
        &&& frame.iou_cost.len() == self.stored().len()
        &&& assignment::has_columns(frame.iou_cost, frame.detections.len())
        &&& self.has_room(frame.detections.len())
    }

    /// Whether the counters leave room for one more frame with `n` detections.
    pub open spec fn has_room(self, n: nat) -> bool {
        self.frame_id < usize::MAX && self.next_id + n <= u64::MAX
    }

    /// Whether a score is one of high confidence.
    pub open spec fn is_high(self, score: Single) -> bool {
        self.track_thresh.at_most(score)
    }

    /// The indices of the high confidence detections.
    pub open spec fn high_indices(self, detections: Seq<Detection>) -> Seq<usize> {
        indices::select(detections.len(), |k: usize| self.is_high(detections[k as int].1))
    }

    /// The indices of the other detections.
    pub open spec fn low_indices(self, detections: Seq<Detection>) -> Seq<usize> {
        indices::select(detections.len(), |k: usize| !self.is_high(detections[k as int].1))
    }

    /// The stored tracks with their boxes moved to the predicted ones.
    pub open spec fn pool(self, predictions: Seq<[Single; 4]>) -> Seq<STrack> {
        Seq::new(
            self.stored().len(),
            |i: int| STrack { tlwh: predictions[i], ..self.stored()[i] },
        )
    }

    /// What the cascade of a frame is given. The first-stage cost of a track and a
    /// detection of different classes is prohibitive; the second stage sees to the same by
    /// what a track admits.
    pub open spec fn pass(self, frame: Frame) -> cascade::Pass<STrack> {
        let pool = self.pool(frame.predictions);
        let high = self.high_indices(frame.detections);
        let low = self.low_indices(frame.detections);
        cascade::Pass {
            pool,
            n_tracked: self.tracked_stracks.len(),
            high: pick(frame.detections, high),
            low: pick(frame.detections, low),
            stage1_cost: Seq::new(
                pool.len(),
                |i: int|
                    Seq::new(
                        high.len(),
                        |j: int|
                            class_strict(
                                pool[i].class_id,
                                frame.detections[high[j] as int].2,
                                frame.iou_cost[i][high[j] as int],
                            ),
                    ),
            ),
            low_cost: Seq::new(
                pool.len(),
                |i: int| Seq::new(low.len(), |j: int| frame.iou_cost[i][low[j] as int]),
            ),
            match_thresh: self.match_thresh,
            second_match_thresh: self.second_match_thresh,
            det_thresh: self.det_thresh,
            buffer_size: self.buffer_size as nat,
            frame_id: (self.frame_id + 1) as usize,
            next_id: self.next_id,
        }
    }

    /// The tracks that took a detection in a frame, with their filter steps.
    pub open spec fn active(self, frame: Frame) -> Seq<(STrack, KalmanStep)> {
        self.pass(frame).activated() + self.pass(frame).refind()
    }

    /// The tracker after a frame.
    pub open spec fn step(self, frame: Frame) -> TrackerView {
        TrackerView {
            tracked_stracks: self.active(frame).map_values(|a: (STrack, KalmanStep)| a.0),
            lost_stracks: self.pass(frame).lost(),
            frame_id: (self.frame_id + 1) as usize,
            next_id: (self.next_id + self.pass(frame).starters().len()) as u64,
            ..self
        }
    }

    /// The active tracks that a frame reports.
    pub open spec fn report(self, frame: Frame) -> Seq<STrack> {
        self.step(frame).tracked_stracks.filter(|t: STrack| t.is_activated)
    }

    /// The filter steps that a frame asks for.
    pub open spec fn motion(self, frame: Frame) -> Seq<MotionRequest> {
        self.active(frame).map_values(
            |a: (STrack, KalmanStep)| MotionRequest { track_id: a.0.track_id, step: a.1 },
        )
    }
}

/// The detections at the given indices, as tracks not yet taken up.
pub open spec fn pick(detections: Seq<Detection>, chosen: Seq<usize>) -> Seq<STrack> {
    chosen.map_values(|k: usize| STrack::fresh(detections[k as int]))
}

/// The IoU distance, or a prohibitive one where the classes differ.
pub open spec fn class_strict(track_class: i64, det_class: i64, distance: Single) -> Single {
    if track_class != det_class {
        Single { bits: MAX_BITS }
    } else {
        distance
    }
}

impl View for ByteTrack {
    type V = TrackerView;

    closed spec fn view(&self) -> TrackerView {
        TrackerView {
            tracked_stracks: self.tracked_stracks@,
            lost_stracks: self.lost_stracks@,
            frame_id: self.frame_id,
            buffer_size: self.buffer_size,
            track_thresh: self.track_thresh,
            match_thresh: self.match_thresh,
            det_thresh: self.det_thresh,
            second_match_thresh: self.second_match_thresh,
            next_id: self.next_id,
        }
    }
}

/// What [`ByteTrack::update`] is given, with vectors by their contents.
pub open spec fn frame_of(
    detections: Seq<Detection>,
    predictions: Seq<[Single; 4]>,
    iou_cost: Seq<Vec<Single>>,
) -> Frame {
    Frame { detections, predictions, iou_cost: assignment::matrix(iou_cost) }
}

impl ByteTrack {
    /// Create a new ByteTrack instance.
    ///
    /// # Arguments
    ///
    /// * `track_thresh` - Threshold for high confidence detections (e.g., 0.5 or 0.6).
    /// * `track_buffer` - Number of frames to keep a lost track alive (e.g., 30).
    /// * `match_thresh` - IoU threshold for matching (e.g., 0.8).
    /// * `det_thresh` - Threshold for initializing a new track (usually same as or slightly
    ///   lower than track_thresh).
    pub fn new(
        track_thresh: Single,
        track_buffer: usize,
        match_thresh: Single,
        det_thresh: Single,
    ) -> (r: ByteTrack)
        ensures
            r@ == TrackerView::initial(
                (ByteTrackParams {
                    common: CommonParams { max_age: track_buffer, min_hits: 3 },
                    track_thresh,
                    match_thresh,
                    det_thresh,
                    ..ByteTrackParams::defaults()
                }),
            ),
            r@.wf(),
            r@.track_thresh == track_thresh,
            r@.buffer_size == track_buffer,
            r@.match_thresh == match_thresh,
            r@.det_thresh == det_thresh,
            r@.second_match_thresh.bits == 0x3f00_0000,
            r@.tracked_stracks.len() == 0,
            r@.lost_stracks.len() == 0,
            r@.frame_id == 0,
            r@.next_id == 1,
    {
        ByteTrack::from_params(
            ByteTrackParams {
                common: CommonParams { max_age: track_buffer, min_hits: 3 },
                track_thresh,
                match_thresh,
                det_thresh,
                ..ByteTrackParams::default()
            },
        )
    }

    /// Create a ByteTrack tracker from a [`ByteTrackParams`].
    ///
    /// ByteTrack activates a track on its first high confidence match, so
    /// `params.common.min_hits` has no effect here; only `common.max_age` is used.
    pub fn from_params(params: ByteTrackParams) -> (r: ByteTrack)
        ensures
            r@ == TrackerView::initial(params),
            r@.wf(),
            r@.track_thresh == params.track_thresh,
            r@.buffer_size == params.common.max_age,
            r@.match_thresh == params.match_thresh,
            r@.det_thresh == params.det_thresh,
            r@.second_match_thresh == params.second_match_thresh,
            r@.tracked_stracks.len() == 0,
            r@.lost_stracks.len() == 0,
            r@.frame_id == 0,
            r@.next_id == 1,
    {
        ByteTrack {
            tracked_stracks: Vec::new(),
            lost_stracks: Vec::new(),
            frame_id: 0,
            buffer_size: params.common.max_age,
            track_thresh: params.track_thresh,
            match_thresh: params.match_thresh,
            det_thresh: params.det_thresh,
            second_match_thresh: params.second_match_thresh,
            next_id: 1,
        }
    }

    /// The tracks in the tracked state.
    pub fn tracked_stracks(&self) -> (r: &Vec<STrack>)
        ensures
            r@ == self@.tracked_stracks,
    {
        &self.tracked_stracks
    }

    /// The lost tracks that are still kept.
    pub fn lost_stracks(&self) -> (r: &Vec<STrack>)
        ensures
            r@ == self@.lost_stracks,
    {
        &self.lost_stracks
    }

    /// Whether the frame and ID counters leave room for one more frame with `n`
    /// detections.
    pub fn has_room(&self, n: usize) -> (r: bool)
        ensures
            r == self@.has_room(n as nat),
            r <==> self@.frame_id < usize::MAX && self@.next_id + n <= u64::MAX,
    {
        self.frame_id < usize::MAX && self.next_id.checked_add(n as u64).is_some()
    }

    /// The predictions that the next frame needs: for the tracked tracks first, then
    /// for the lost ones.
    pub fn predict_requests(&self) -> (r: Vec<MotionRequest>)
        ensures
            r@ == self@.stored().map_values(|t: STrack| t.prediction()),
            r@.len() == self@.tracked_stracks.len() + self@.lost_stracks.len(),
            forall|i: int|
                0 <= i < r@.len() ==> {
                    let t = if i < self@.tracked_stracks.len() {
                        self@.tracked_stracks[i]
                    } else {
                        self@.lost_stracks[i - self@.tracked_stracks.len()]
                    };
                    #[trigger] r@[i] == (MotionRequest {
                        track_id: t.track_id,
                        step: KalmanStep::Predict {
                            clear_height_velocity: t.state != TrackState::Tracking,
                        },
                    })
                },
    {
        let mut r: Vec<MotionRequest> = Vec::new();
        let mut i: usize = 0;
        while i < self.tracked_stracks.len()
            invariant
                i <= self.tracked_stracks.len(),
                r.len() == i,
                forall|k: int|
                    0 <= k < i ==> #[trigger] r[k] == self@.stored()[k].prediction(),
            decreases self.tracked_stracks.len() - i,
        {
            r.push(self.tracked_stracks[i].predict_request());
            i += 1;
        }
        let mut i: usize = 0;
        while i < self.lost_stracks.len()
            invariant
                i <= self.lost_stracks.len(),
                r.len() == self.tracked_stracks.len() + i,
                forall|k: int|
                    0 <= k < r.len() ==> #[trigger] r[k] == self@.stored()[k].prediction(),
            decreases self.lost_stracks.len() - i,
        {
            r.push(self.lost_stracks[i].predict_request());
            i += 1;
        }
        r
    }

    /// The boxes whose IoU distances the frame needs: those of the predicted pool, one
    /// for each row, and those of the detections, one for each column.
    pub fn association_boxes(
        &self,
        output_results: &Vec<Detection>,
        predictions: &Vec<[Single; 4]>,
    ) -> (r: (Vec<[Single; 4]>, Vec<[Single; 4]>))
        requires
            predictions@.len() == self@.stored().len(),
        ensures
            r.0@ == self@.pool(predictions@).map_values(|t: STrack| t.tlwh),
            r.1@ == output_results@.map_values(|d: Detection| d.0),
            r.0@ == predictions@,
            r.1@.len() == output_results@.len(),
            forall|k: int| 0 <= k < r.1@.len() ==> #[trigger] r.1@[k] == output_results@[k].0,
    {
        let pool = self.predicted_pool(predictions);
        let mut rows: Vec<[Single; 4]> = Vec::new();
        let mut i: usize = 0;
        while i < pool.len()
            invariant
                i <= pool.len(),
                rows.len() == i,
                forall|k: int| 0 <= k < i ==> #[trigger] rows[k] == pool[k].tlwh,
            decreases pool.len() - i,
        {
            rows.push(pool[i].cascade_tlwh());
            i += 1;
        }
        let mut columns: Vec<[Single; 4]> = Vec::new();
        let mut k: usize = 0;
        while k < output_results.len()
            invariant
                k <= output_results.len(),
                columns.len() == k,
                forall|x: int| 0 <= x < k ==> #[trigger] columns[x] == output_results[x].0,
            decreases output_results.len() - k,
        {
            let (tlwh, score, cls) = output_results[k];
            columns.push(STrack::new(tlwh, score, cls).det_box());
            k += 1;
        }
        assert(rows@ =~= self@.pool(predictions@).map_values(|t: STrack| t.tlwh));
        assert(columns@ =~= output_results@.map_values(|d: Detection| d.0));
        (rows, columns)
    }

    /// The stored tracks, tracked ones first, moved to the predicted boxes.
    fn predicted_pool(&self, predictions: &Vec<[Single; 4]>) -> (pool: Vec<STrack>)
        requires
            predictions@.len() == self@.stored().len(),
        ensures
            pool@ == self@.pool(predictions@),
    {
        let mut pool: Vec<STrack> = Vec::new();
        let mut i: usize = 0;
        while i < self.tracked_stracks.len()
            invariant
                predictions@.len() == self@.stored().len(),
                i <= self.tracked_stracks.len(),
                pool.len() == i,
                forall|k: int|
                    0 <= k < i ==> #[trigger] pool[k] == self@.pool(predictions@)[k],
            decreases self.tracked_stracks.len() - i,
        {
            let mut track = self.tracked_stracks[i];
            track.predict(predictions[i]);
            pool.push(track);
            i += 1;
        }
        let mut i: usize = 0;
        while i < self.lost_stracks.len()
            invariant
                predictions@.len() == self@.stored().len(),
                i <= self.lost_stracks.len(),
                pool.len() == self.tracked_stracks.len() + i,
                forall|k: int|
                    0 <= k < pool.len() ==> #[trigger] pool[k] == self@.pool(predictions@)[k],
            decreases self.lost_stracks.len() - i,
        {
            let mut track = self.lost_stracks[i];
            track.predict(predictions[pool.len()]);
            pool.push(track);
            i += 1;
        }
        assert(pool@ =~= self@.pool(predictions@));
        pool
    }

    /// The indices of the high- and of the low-confidence detections.
    fn split(&self, output_results: &Vec<Detection>) -> (r: (Vec<usize>, Vec<usize>))
        ensures
            r.0@ == self@.high_indices(output_results@),
            r.1@ == self@.low_indices(output_results@),
            forall|k: usize|
                k < output_results@.len() ==> (#[trigger] r.0@.contains(k)
                    <==> self@.track_thresh.at_most(output_results@[k as int].1)),
            forall|k: usize|
                k < output_results@.len() ==> (#[trigger] r.1@.contains(k)
                    <==> !self@.track_thresh.at_most(output_results@[k as int].1)),
    {
        proof {
            let view = self@;
            let dets = output_results@;
            assert(dets.len() == output_results.len());
            assert forall|k: usize| k < dets.len() implies (#[trigger] view.high_indices(
                dets,
            ).contains(k) <==> view.track_thresh.at_most(dets[k as int].1)) by {
                view.detections_are_split_by_score(dets, k);
            }
            assert forall|k: usize| k < dets.len() implies (#[trigger] view.low_indices(
                dets,
            ).contains(k) <==> !view.track_thresh.at_most(dets[k as int].1)) by {
                view.detections_are_split_by_score(dets, k);
            }
        }
        let mut high: Vec<usize> = Vec::new();
        let mut low: Vec<usize> = Vec::new();
        let mut k: usize = 0;
        while k < output_results.len()
            invariant
                k <= output_results.len(),
                high@ == indices::select(
                    k as nat,
                    |k: usize| self@.is_high(output_results@[k as int].1),
                ),
                low@ == indices::select(
                    k as nat,
                    |k: usize| !self@.is_high(output_results@[k as int].1),
                ),
            decreases output_results.len() - k,
        {
            if output_results[k].1 >= self.track_thresh {
                high.push(k);
            } else {
                low.push(k);
            }
            k += 1;
        }
        (high, low)
    }

    /// Update the tracker with detections from the current frame.
    ///
    /// # Arguments
    ///
    /// * `output_results` - A vector of detections, where each detection is `(TLWH_Box, Score,
    ///   ClassID)`.
    /// * `predictions` - The boxes that the motion filters predicted, in the order of
    ///   [`ByteTrack::predict_requests`].
    /// * `iou_cost` - The IoU distances (one minus IoU) of the boxes of
    ///   [`ByteTrack::association_boxes`].
    ///
    /// Returns the active tracks in the current frame, and the filter steps of the tracks
    /// that took a detection.
    pub fn update(
        &mut self,
        output_results: Vec<Detection>,
        predictions: &Vec<[Single; 4]>,
        iou_cost: &Vec<Vec<Single>>,
    ) -> (r: FrameOutput)
        requires
            old(self)@.wf(),
            old(self)@.can_take(frame_of(output_results@, predictions@, iou_cost@)),
        ensures
            ({
                let frame = frame_of(output_results@, predictions@, iou_cost@);
                &&& final(self)@ == old(self)@.step(frame)
                &&& final(self)@.wf()
                &&& r.tracks@ == old(self)@.report(frame)
                &&& r.motion@ == old(self)@.motion(frame)
                &&& frame.detections == output_results@
                &&& frame.predictions == predictions@
                &&& frame.iou_cost.len() == iou_cost@.len()
                &&& forall|i: int|
                    0 <= i < iou_cost@.len() ==> #[trigger] frame.iou_cost[i] == iou_cost@[i]@
            }),
            final(self)@.frame_id == old(self)@.frame_id + 1,
            final(self)@.buffer_size == old(self)@.buffer_size,
            final(self)@.track_thresh == old(self)@.track_thresh,
            final(self)@.match_thresh == old(self)@.match_thresh,
            final(self)@.det_thresh == old(self)@.det_thresh,
            final(self)@.second_match_thresh == old(self)@.second_match_thresh,
            r.tracks@ == final(self)@.tracked_stracks,
    {
        let ghost frame = frame_of(output_results@, predictions@, iou_cost@);
        let ghost before = self@;
        let ghost pass = before.pass(frame);

        // Split detections into high- and low-confidence sets.
        let (high_at, low_at) = self.split(&output_results);
        proof {
            before.lemma_split(frame.detections);
            before.lemma_pass_valid(frame);
        }
        let detections_high = take_up(&output_results, &high_at);
        let detections_low = take_up(&output_results, &low_at);

        // Pool: tracked tracks first, then lost tracks, all predicted forward.
        let pool = self.predicted_pool(predictions);
        let n_tracked = self.tracked_stracks.len();

        // The stage-one cost is the plain IoU distance. Association is class-strict on
        // top: a track never consumes a detection of another class, so a misclassification
        // flicker starves instead of stealing the detections of the body it overlaps.
        // Stage two sees to it by what the tracks accept.
        let cost = class_strict_columns(iou_cost, &pool, &output_results, &high_at);
        let low_cost = columns_of(iou_cost, &low_at, Ghost(frame.detections.len()));
        assert(assignment::matrix(cost@) =~= pass.stage1_cost);
        assert(assignment::matrix(low_cost@) =~= pass.low_cost);

        self.frame_id += 1;
        let mut next_id = self.next_id;
        assert(cascade::pass_of(
            pool@,
            n_tracked,
            detections_high@,
            detections_low@,
            cost@,
            low_cost@,
            self.match_thresh,
            self.second_match_thresh,
            self.det_thresh,
            self.buffer_size,
            self.frame_id,
            next_id,
        ) =~= pass);
        let outcome = cascade::run(
            pool,
            n_tracked,
            &detections_high,
            &detections_low,
            &cost,
            &low_cost,
            self.match_thresh,
            self.second_match_thresh,
            self.det_thresh,
            self.buffer_size,
            self.frame_id,
            &mut next_id,
        );
        self.next_id = next_id;

        let mut stracks: Vec<STrack> = Vec::new();
        let mut motion: Vec<MotionRequest> = Vec::new();
        commit(&outcome.activated, &mut stracks, &mut motion);
        commit(&outcome.refind, &mut stracks, &mut motion);
        assert(stracks@ =~= before.step(frame).tracked_stracks);
        assert(motion@ =~= before.motion(frame));
        self.tracked_stracks = stracks;
        self.lost_stracks = outcome.lost;
        assert(self@ =~= before.step(frame));
        proof {
            before.step_keeps_wf(frame);
        }

        let tracks = self.activated_tracks();
        FrameOutput { tracks, motion }
    }

    /// The tracked tracks that are activated.
    fn activated_tracks(&self) -> (r: Vec<STrack>)
        ensures
            r@ == self@.tracked_stracks.filter(|t: STrack| t.is_activated),
    {
        let ghost p = |t: STrack| t.is_activated;
        let mut r: Vec<STrack> = Vec::new();
        let mut k: usize = 0;
        while k < self.tracked_stracks.len()
            invariant
                p == (|t: STrack| t.is_activated),
                k <= self.tracked_stracks.len(),
                r@ == self.tracked_stracks@.take(k as int).filter(p),
            decreases self.tracked_stracks.len() - k,
        {
            proof {
                cascade::lemma_filter_take(self.tracked_stracks@, k as int, p);
            }
            if self.tracked_stracks[k].is_activated {
                r.push(self.tracked_stracks[k]);
            }
            k += 1;
        }
        assert(self.tracked_stracks@.take(k as int) =~= self.tracked_stracks@);
        r
    }
}

/// Appends tracks and their filter steps.
fn commit(
    active: &Vec<(STrack, KalmanStep)>,
    stracks: &mut Vec<STrack>,
    motion: &mut Vec<MotionRequest>,
)
    ensures
        final(stracks)@ == old(stracks)@ + active@.map_values(|a: (STrack, KalmanStep)| a.0),
        final(motion)@ == old(motion)@ + active@.map_values(
            |a: (STrack, KalmanStep)| MotionRequest { track_id: a.0.track_id, step: a.1 },
        ),
{
    let ghost (s0, m0) = (stracks@, motion@);
    let mut k: usize = 0;
    while k < active.len()
        invariant
            k <= active.len(),
            stracks@ == s0 + active@.take(k as int).map_values(|a: (STrack, KalmanStep)| a.0),
            motion@ == m0 + active@.take(k as int).map_values(
                |a: (STrack, KalmanStep)| MotionRequest { track_id: a.0.track_id, step: a.1 },
            ),
        decreases active.len() - k,
    {
        let (track, step) = active[k];
        stracks.push(track);
        motion.push(MotionRequest { track_id: track.track_id, step });
        k += 1;
        assert(active@.take(k as int).drop_last() =~= active@.take(k - 1));
        assert(stracks@ =~= s0 + active@.take(k as int).map_values(
            |a: (STrack, KalmanStep)| a.0,
        ));
        assert(motion@ =~= m0 + active@.take(k as int).map_values(
            |a: (STrack, KalmanStep)| MotionRequest { track_id: a.0.track_id, step: a.1 },
        ));
    }
    assert(active@.take(k as int) =~= active@);
}

/// The detections at the given indices, as tracks not yet taken up.
fn take_up(output_results: &Vec<Detection>, chosen: &Vec<usize>) -> (r: Vec<STrack>)
    requires
        forall|k: int| 0 <= k < chosen@.len() ==> #[trigger] chosen@[k] < output_results.len(),
    ensures
        r@ == pick(output_results@, chosen@),
{
    let mut r: Vec<STrack> = Vec::new();
    let mut k: usize = 0;
    while k < chosen.len()
        invariant
            forall|k: int| 0 <= k < chosen@.len() ==> #[trigger] chosen@[k] < output_results.len(),
            k <= chosen.len(),
            r.len() == k,
            forall|x: int| 0 <= x < k ==> #[trigger] r[x] == pick(output_results@, chosen@)[x],
        decreases chosen.len() - k,
    {
        let (tlwh, score, cls) = output_results[chosen[k]];
        r.push(STrack::new(tlwh, score, cls));
        k += 1;
    }
    assert(r@ =~= pick(output_results@, chosen@));
    r
}

/// The columns of a matrix at the given indices.
fn columns_of(
    cost: &Vec<Vec<Single>>,
    chosen: &Vec<usize>,
    Ghost(columns): Ghost<nat>,
) -> (r: Vec<Vec<Single>>)
    requires
        assignment::has_columns(assignment::matrix(cost@), columns),
        forall|k: int| 0 <= k < chosen@.len() ==> #[trigger] chosen@[k] < columns,
    ensures
        assignment::matrix(r@) == Seq::new(
            cost@.len(),
            |i: int| Seq::new(chosen@.len(), |j: int| cost@[i]@[chosen@[j] as int]),
        ),
{
    let mut r: Vec<Vec<Single>> = Vec::new();
    let mut i: usize = 0;
    while i < cost.len()
        invariant
            assignment::has_columns(assignment::matrix(cost@), columns),
            forall|k: int| 0 <= k < chosen@.len() ==> #[trigger] chosen@[k] < columns,
            i <= cost.len(),
            r.len() == i,
            forall|x: int|
                0 <= x < i ==> (#[trigger] r[x])@ == Seq::new(
                    chosen@.len(),
                    |j: int| cost@[x]@[chosen@[j] as int],
                ),
        decreases cost.len() - i,
    {
        assert(assignment::matrix(cost@)[i as int] == cost[i as int]@);
        let known = &cost[i];
        let mut row: Vec<Single> = Vec::new();
        let mut j: usize = 0;
        while j < chosen.len()
            invariant
                known.len() == columns,
                forall|k: int| 0 <= k < chosen@.len() ==> #[trigger] chosen@[k] < columns,
                j <= chosen.len(),
                row.len() == j,
                forall|x: int| 0 <= x < j ==> #[trigger] row[x] == known@[chosen@[x] as int],
            decreases chosen.len() - j,
        {
            row.push(known[chosen[j]]);
            j += 1;
        }
        assert(row@ =~= Seq::new(chosen@.len(), |j: int| cost@[i as int]@[chosen@[j] as int]));
        r.push(row);
        i += 1;
    }
    assert(assignment::matrix(r@) =~= Seq::new(
        cost@.len(),
        |i: int| Seq::new(chosen@.len(), |j: int| cost@[i]@[chosen@[j] as int]),
    ));
    r
}

/// The columns of a matrix at the given indices, prohibitive where the class of the
/// track differs from that of the detection.
fn class_strict_columns(
    cost: &Vec<Vec<Single>>,
    pool: &Vec<STrack>,
    output_results: &Vec<Detection>,
    chosen: &Vec<usize>,
) -> (r: Vec<Vec<Single>>)
    requires
        cost.len() == pool.len(),
        assignment::has_columns(assignment::matrix(cost@), output_results@.len()),
        forall|k: int| 0 <= k < chosen@.len() ==> #[trigger] chosen@[k] < output_results.len(),
    ensures
        assignment::matrix(r@) == Seq::new(
            pool@.len(),
            |i: int|
                Seq::new(
                    chosen@.len(),
                    |j: int|
                        class_strict(
                            pool@[i].class_id,
                            output_results@[chosen@[j] as int].2,
                            cost@[i]@[chosen@[j] as int],
                        ),
                ),
        ),
{
    let mut r: Vec<Vec<Single>> = Vec::new();
    let mut i: usize = 0;
    while i < cost.len()
        invariant
            cost.len() == pool.len(),
            assignment::has_columns(assignment::matrix(cost@), output_results@.len()),
            forall|k: int| 0 <= k < chosen@.len() ==> #[trigger] chosen@[k] < output_results.len(),
            i <= cost.len(),
            r.len() == i,
            forall|x: int|
                0 <= x < i ==> (#[trigger] r[x])@ == Seq::new(
                    chosen@.len(),
                    |j: int|
                        class_strict(
                            pool@[x].class_id,
                            output_results@[chosen@[j] as int].2,
                            cost@[x]@[chosen@[j] as int],
                        ),
                ),
        decreases cost.len() - i,
    {
        assert(assignment::matrix(cost@)[i as int] == cost[i as int]@);
        let known = &cost[i];
        let track_class: i64 = pool[i].class_id;
        let mut row: Vec<Single> = Vec::new();
        let mut j: usize = 0;
        while j < chosen.len()
            invariant
                known.len() == output_results.len(),
                forall|k: int|
                    0 <= k < chosen@.len() ==> #[trigger] chosen@[k] < output_results.len(),
                j <= chosen.len(),
                row.len() == j,
                forall|x: int|
                    0 <= x < j ==> #[trigger] row[x] == class_strict(
                        track_class,
                        output_results@[chosen@[x] as int].2,
                        known@[chosen@[x] as int],
                    ),
            decreases chosen.len() - j,
        {
            if track_class != output_results[chosen[j]].2 {
                row.push(Single { bits: MAX_BITS });
            } else {
                row.push(known[chosen[j]]);
            }
            j += 1;
        }
        assert(row@ =~= Seq::new(
            chosen@.len(),
            |j: int|
                class_strict(
                    pool@[i as int].class_id,
                    output_results@[chosen@[j] as int].2,
                    cost@[i as int]@[chosen@[j] as int],
                ),
        ));
        r.push(row);
        i += 1;
    }
    assert(assignment::matrix(r@) =~= Seq::new(
        pool@.len(),
        |i: int|
            Seq::new(
                chosen@.len(),
                |j: int|
                    class_strict(
                        pool@[i].class_id,
                        output_results@[chosen@[j] as int].2,
                        cost@[i]@[chosen@[j] as int],
                    ),
            ),
    ));
    r
}

impl TrackerView {
    /// The high and the low indices are indices of detections.
    pub(crate) proof fn lemma_split(self, detections: Seq<Detection>)
        requires
            detections.len() <= usize::MAX,
        ensures
            self.high_indices(detections).len() <= detections.len(),
            self.low_indices(detections).len() <= detections.len(),
            forall|k: int|
                0 <= k < self.high_indices(detections).len() ==> #[trigger] self.high_indices(
                    detections,
                )[k] < detections.len(),
            forall|k: int|
                0 <= k < self.low_indices(detections).len() ==> #[trigger] self.low_indices(
                    detections,
                )[k] < detections.len(),
    {
        indices::lemma_select(
            detections.len(),
            |k: usize| self.is_high(detections[k as int].1),
        );
        indices::lemma_select(
            detections.len(),
            |k: usize| !self.is_high(detections[k as int].1),
        );
    }

    /// A well-formed tracker gives the cascade what it needs.
    pub(crate) proof fn lemma_pass_valid(self, frame: Frame)
        requires
            self.wf(),
            self.can_take(frame),
        ensures
            self.pass(frame).valid(),
            self.pass(frame).layered(),
    {
        self.lemma_split(frame.detections);
        let pass = self.pass(frame);
        let n = self.tracked_stracks.len();
        assert forall|i: int| 0 <= i < pass.pool.len() implies {
            &&& (#[trigger] pass.pool[i]).in_tracked_state() <==> i < n
            &&& pass.pool[i].can_continue()
            &&& pass.pool[i].last_frame() <= pass.frame_id
        } by {
            assert(self.sound(self.stored()[i]));
            if i < n {
                assert(self.stored()[i] == self.tracked_stracks[i]);
            } else {
                assert(self.stored()[i] == self.lost_stracks[i - n]);
            }
        }
        assert forall|i: int|
            pass.n_tracked <= i < pass.pool.len() && !assignment::row_taken(
                pass.first_matches(),
                i as usize,
            ) implies (#[trigger] pass.settled()[i]).last_frame() <= pass.frame_id by {
            pass.lemma_settled(i);
        }
    }
}

} // verus!
