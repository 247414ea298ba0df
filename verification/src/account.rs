//! What a frame comes to, in terms of the detections, the distances and the stored tracks.
//!
//! For the `x`-th reported track, `uses` names the detection that it took, and the origins of the
//! frame's cascade pass name the stored track that it continues: a stored track by its place
//! among the tracked and then the lost tracks, a new one by a number past these.

use crate::assignment;
use crate::byte_track;
use crate::byte_track::{ByteTrackParams, Detection, Frame, STrack, TrackState, TrackerView};
use crate::cascade::{CascadeDet, CascadeTrack};
use crate::indices;
use crate::motion::KalmanStep;
use crate::number::Single;
use vstd::prelude::*;

verus! {

/// A frame is given what [`byte_track::ByteTrack::update`] is given, unchanged.
pub proof fn a_frame_holds_its_inputs(
    detections: Seq<Detection>,
    predictions: Seq<[Single; 4]>,
    iou_cost: Seq<Vec<Single>>,
)
    ensures
        ({
            let frame = byte_track::frame_of(detections, predictions, iou_cost);
            &&& frame.detections == detections
            &&& frame.predictions == predictions
            &&& frame.iou_cost.len() == iou_cost.len()
            &&& forall|i: int|
                0 <= i < iou_cost.len() ==> #[trigger] frame.iou_cost[i] == iou_cost[i]@
        }),
{
}

/// How the cascade drives a track. Whatever detection it takes, a track keeps its ID, class and
/// first frame, is activated and in the tracked state, and has the box and the score of the
/// detection; a continued track counts one frame more, one brought back starts its count
/// anew. A started track has the class of its detection and the ID and frame that it is
/// given. Turning lost changes the state alone.
pub proof fn tracks_go_through_their_lifecycle(
    track: STrack,
    det: STrack,
    frame_id: usize,
    track_id: u64,
)
    ensures
        ({
            let (next, step) = track.updated(det, frame_id);
            &&& next.tlwh == det.tlwh && next.score == det.score
            &&& next.class_id == track.class_id && next.track_id == track.track_id
            &&& next.state == TrackState::Tracking && next.is_activated
            &&& next.frame_id == frame_id && next.start_frame == track.start_frame
            &&& track.tracklet_len < usize::MAX ==> next.tracklet_len == track.tracklet_len + 1
            &&& step == KalmanStep::Update(det.tlwh)
        }),
        ({
            let (next, step) = track.reactivated(det, frame_id);
            &&& next.tlwh == det.tlwh && next.score == det.score
            &&& next.class_id == track.class_id && next.track_id == track.track_id
            &&& next.state == TrackState::Tracking && next.is_activated
            &&& next.frame_id == frame_id && next.start_frame == track.start_frame
            &&& next.tracklet_len == 0
            &&& step == KalmanStep::Update(det.tlwh)
        }),
        ({
            let (next, step) = STrack::spawned(det, frame_id, track_id);
            &&& next.tlwh == det.tlwh && next.score == det.score
            &&& next.class_id == det.class_id && next.track_id == track_id
            &&& next.state == TrackState::Tracking && next.is_activated
            &&& next.frame_id == frame_id && next.start_frame == frame_id
            &&& next.tracklet_len == 0
            &&& step == KalmanStep::Initiate(det.tlwh)
        }),
        track.as_lost() == (STrack { state: TrackState::Lost, ..track }),
        track.in_tracked_state() <==> track.state == TrackState::Tracking,
        track.in_lost_state() <==> track.state == TrackState::Lost,
        track.can_continue() <==> track.tracklet_len < usize::MAX,
        track.last_frame() == track.frame_id,
        track.estimate() == track.tlwh,
        track.admits(det) <==> track.class_id == det.class_id,
        det.tlwh_of() == det.tlwh,
        det.score_of() == det.score,
{
}

impl TrackerView {
    /// A tracker takes any frame that has a predicted box for each stored track and a distance
    /// for each stored track and detection, as long as the counters last.
    pub proof fn well_shaped_frames_can_be_taken(self, frame: Frame)
        requires
            self.tracked_stracks.len() + self.lost_stracks.len() <= usize::MAX,
            frame.detections.len() <= usize::MAX,
            frame.predictions.len() == self.tracked_stracks.len() + self.lost_stracks.len(),
            frame.iou_cost.len() == self.tracked_stracks.len() + self.lost_stracks.len(),
            forall|i: int|
                0 <= i < frame.iou_cost.len() ==> (#[trigger] frame.iou_cost[i]).len()
                    == frame.detections.len(),
            self.frame_id < usize::MAX,
            self.next_id + frame.detections.len() <= u64::MAX,
        ensures
            self.can_take(frame),
    {
    }

    /// Detections are split by score alone: a detection is a high one exactly if its score is at
    /// or above the threshold and else a low one, so each is one of them.
    pub proof fn detections_are_split_by_score(self, detections: Seq<Detection>, k: usize)
        requires
            k < detections.len() <= usize::MAX,
        ensures
            self.high_indices(detections).contains(k) <==> self.track_thresh.at_most(
                detections[k as int].1,
            ),
            self.low_indices(detections).contains(k) <==> !self.track_thresh.at_most(
                detections[k as int].1,
            ),
    {
        let p = |k: usize| self.is_high(detections[k as int].1);
        let q = |k: usize| !self.is_high(detections[k as int].1);
        indices::lemma_select(detections.len(), p);
        indices::lemma_select(detections.len(), q);
        assert(p(k) || q(k));
        if self.high_indices(detections).contains(k) {
            assert(p(k));
        }
        if self.low_indices(detections).contains(k) {
            assert(q(k));
        }
    }

    /// The high and the low detections are detections of the frame, each once and in their order.
    pub proof fn the_split_keeps_the_order(self, detections: Seq<Detection>, a: int, b: int)
        requires
            detections.len() <= usize::MAX,
            0 <= a < b,
        ensures
            b < self.high_indices(detections).len() ==> self.high_indices(detections)[a]
                < self.high_indices(detections)[b] < detections.len(),
            b < self.low_indices(detections).len() ==> self.low_indices(detections)[a]
                < self.low_indices(detections)[b] < detections.len(),
    {
        indices::lemma_select(
            detections.len(),
            |k: usize| self.is_high(detections[k as int].1),
        );
        indices::lemma_select(
            detections.len(),
            |k: usize| !self.is_high(detections[k as int].1),
        );
    }

    /// How the pass of a frame reads its detections and distances.
    proof fn lemma_reading(self, frame: Frame)
        requires
            self.wf(),
            self.can_take(frame),
        ensures
            ({
                let dets = frame.detections;
                let pass = self.pass(frame);
                let high = self.high_indices(dets);
                let low = self.low_indices(dets);
                let s = self.tracked_stracks + self.lost_stracks;
                &&& pass.valid()
                &&& pass.layered()
                &&& pass.pool.len() == s.len()
                &&& pass.n_tracked == self.tracked_stracks.len()
                &&& pass.high.len() == high.len() <= dets.len()
                &&& pass.low.len() == low.len() <= dets.len()
                &&& forall|i: int|
                    0 <= i < s.len() ==> #[trigger] pass.pool[i] == (STrack {
                        tlwh: frame.predictions[i],
                        ..s[i]
                    })
                &&& forall|j: int|
                    0 <= j < high.len() ==> {
                        &&& #[trigger] high[j] < dets.len()
                        &&& self.track_thresh.at_most(dets[high[j] as int].1)
                        &&& pass.high[j] == STrack::fresh(dets[high[j] as int])
                    }
                &&& forall|j: int|
                    0 <= j < low.len() ==> {
                        &&& #[trigger] low[j] < dets.len()
                        &&& !self.track_thresh.at_most(dets[low[j] as int].1)
                        &&& pass.low[j] == STrack::fresh(dets[low[j] as int])
                    }
                &&& forall|i: int, j: int|
                    0 <= i < s.len() && 0 <= j < high.len() ==> #[trigger] pass.stage1_cost[i][j]
                        == if s[i].class_id == dets[high[j] as int].2 {
                        frame.iou_cost[i][high[j] as int]
                    } else {
                        Single { bits: 0x7f7f_ffff }
                    }
                &&& forall|i: int, j: int|
                    0 <= i < s.len() && 0 <= j < low.len() ==> #[trigger] pass.low_cost[i][j]
                        == frame.iou_cost[i][low[j] as int]
                &&& forall|i: int, j: int|
                    0 <= i < s.len() && 0 <= j < low.len() ==> (#[trigger] pass.pool[i].admits(
                        pass.low[j],
                    ) <==> s[i].class_id == dets[low[j] as int].2)
                &&& forall|a: int, b: int| 0 <= a < b < high.len() ==> high[a] < high[b]
                &&& forall|a: int, b: int| 0 <= a < b < low.len() ==> low[a] < low[b]
            }),
    {
        let dets = frame.detections;
        self.lemma_pass_valid(frame);
        self.lemma_split(dets);
        let p = |k: usize| self.is_high(dets[k as int].1);
        let q = |k: usize| !self.is_high(dets[k as int].1);
        indices::lemma_select(dets.len(), p);
        indices::lemma_select(dets.len(), q);
        let high = self.high_indices(dets);
        let low = self.low_indices(dets);
        assert forall|j: int| 0 <= j < high.len() implies #[trigger] high[j] < dets.len()
            && self.track_thresh.at_most(dets[high[j] as int].1) by {
            assert(p(high[j]));
        }
        assert forall|j: int| 0 <= j < low.len() implies #[trigger] low[j] < dets.len()
            && !self.track_thresh.at_most(dets[low[j] as int].1) by {
            assert(q(low[j]));
        }
    }

    /// Which detection a reported track took, by its place in the pass.
    proof fn lemma_uses(self, frame: Frame, x: int)
        requires
            self.wf(),
            self.can_take(frame),
            0 <= x < self.active(frame).len(),
        ensures
            ({
                let dets = frame.detections;
                let pass = self.pass(frame);
                let (strong, j) = pass.takes()[x];
                let k = self.uses(frame)[x];
                &&& self.report(frame) == self.step(frame).tracked_stracks
                &&& self.report(frame).len() == self.active(frame).len()
                &&& self.report(frame)[x] == self.active(frame)[x].0
                &&& pass.active_origins().len() == self.active(frame).len()
                &&& pass.takes().len() == self.active(frame).len()
                &&& self.uses(frame).len() == self.active(frame).len()
                &&& 0 <= k < dets.len()
                &&& strong <==> self.track_thresh.at_most(dets[k].1)
                &&& strong ==> 0 <= j < pass.high.len() && k == self.high_indices(dets)[j]
                &&& !strong ==> 0 <= j < pass.low.len() && k == self.low_indices(dets)[j]
            }),
    {
        let pass = self.pass(frame);
        self.lemma_reading(frame);
        self.step_keeps_wf(frame);
        pass.lemma_parts();
        pass.lemma_selections();
        assert(pass.active_origins().len() == self.active(frame).len());
        pass.lemma_place(x);
        let (strong, j) = pass.takes()[x];
        let (na, nb) = (pass.continuing().len(), pass.second_matches().len());
        let nc = pass.starters().len();
        if strong {
            assert(self.high_indices(frame.detections)[j] < frame.detections.len());
        } else {
            assert(self.low_indices(frame.detections)[j] < frame.detections.len());
        }
    }

    /// What becomes of a detection that is taken. A tracked track that takes it goes on: it has
    /// its box and score, counts one frame more, and keeps all else. A lost track comes back
    /// in the same way, with its count started anew, and takes only a detection at or
    /// above the high threshold. Any other reported track is new: it has the box, score
    /// and class of such a detection, and its ID follows on that of the new track before.
    pub proof fn reported_tracks_follow_from_what_they_took(self, frame: Frame, x: int)
        requires
            self.wf(),
            self.can_take(frame),
            0 <= x < self.report(frame).len(),
        ensures
            self.step(frame).tracked_stracks == self.report(frame),
            self.uses(frame).len() == self.report(frame).len(),
            self.pass(frame).active_origins().len() == self.report(frame).len(),
            self.motion(frame).len() == self.report(frame).len(),
            0 <= self.uses(frame)[x] < frame.detections.len(),
            0 <= self.pass(frame).active_origins()[x],
            ({
                let s = self.tracked_stracks + self.lost_stracks;
                let o = self.pass(frame).active_origins()[x];
                let d = frame.detections[self.uses(frame)[x]];
                let t = self.report(frame)[x];
                let request = self.motion(frame)[x];
                &&& t.tlwh == d.0
                &&& t.score == d.1
                &&& t.state == TrackState::Tracking
                &&& t.is_activated
                &&& t.frame_id == self.frame_id + 1
                &&& request.track_id == t.track_id
                &&& if o < s.len() {
                    &&& t.class_id == s[o].class_id
                    &&& t.track_id == s[o].track_id
                    &&& t.start_frame == s[o].start_frame
                    &&& o < self.tracked_stracks.len() ==> t.tracklet_len == s[o].tracklet_len + 1
                    &&& o >= self.tracked_stracks.len() ==> t.tracklet_len == 0
                    &&& o >= self.tracked_stracks.len() ==> self.track_thresh.at_most(d.1)
                    &&& request.step == KalmanStep::Update(d.0)
                } else {
                    &&& self.track_thresh.at_most(d.1)
                    &&& t.class_id == d.2
                    &&& t.track_id == self.next_id + (o - s.len())
                    &&& t.start_frame == self.frame_id + 1
                    &&& t.tracklet_len == 0
                    &&& request.step == KalmanStep::Initiate(d.0)
                }
            }),
    {
        let pass = self.pass(frame);
        self.lemma_reading(frame);
        self.step_keeps_wf(frame);
        self.lemma_uses(frame, x);
        pass.active_tracks_follow_from_what_they_took(x);
        let s = self.tracked_stracks + self.lost_stracks;
        let o = pass.active_origins()[x];
        let (strong, j) = pass.takes()[x];
        if o < s.len() {
            assert(self.sound(self.stored()[o]));
            assert(pass.pool[o].in_tracked_state() <==> o < pass.n_tracked);
            assert(pass.pool[o].in_tracked_state() ==> pass.pool[o].can_continue());
        }
        if strong {
            assert(pass.high[j] == STrack::fresh(
                frame.detections[self.high_indices(frame.detections)[j] as int],
            ));
        } else {
            assert(pass.low[j] == STrack::fresh(
                frame.detections[self.low_indices(frame.detections)[j] as int],
            ));
        }
    }

    /// A frame reports the tracks that are tracked after it, each of which took one detection of
    /// the frame and asks for one filter step.
    pub proof fn every_tracked_track_is_reported_once(self, frame: Frame)
        requires
            self.wf(),
            self.can_take(frame),
        ensures
            self.report(frame) == self.step(frame).tracked_stracks,
            self.motion(frame).len() == self.report(frame).len(),
            self.uses(frame).len() == self.report(frame).len(),
            self.pass(frame).active_origins().len() == self.report(frame).len(),
            self.report(frame).len() <= frame.detections.len(),
    {
        self.lemma_reading(frame);
        self.step_keeps_wf(frame);
        self.reported_tracks_carry_distinct_detections(frame);
        self.pass(frame).lost_tracks_are_accounted_for();
    }

    /// No two reported tracks took one detection, and no two continue one stored track.
    pub proof fn reported_tracks_share_nothing(self, frame: Frame, x: int, y: int)
        requires
            self.wf(),
            self.can_take(frame),
            0 <= x < y < self.report(frame).len(),
        ensures
            self.uses(frame)[x] != self.uses(frame)[y],
            self.pass(frame).active_origins()[x] != self.pass(frame).active_origins()[y],
    {
        self.lemma_reading(frame);
        self.step_keeps_wf(frame);
        self.lemma_uses(frame, x);
        self.lemma_uses(frame, y);
        self.pass(frame).active_tracks_share_nothing(x, y);
        self.reported_tracks_carry_distinct_detections(frame);
    }

    /// A stored track takes a detection only within the cutoff that goes with the score of the
    /// detection, where the distance of different classes counts as the largest finite
    /// number, and a detection starts a track only if its score is not below the init
    /// threshold.
    pub proof fn detections_are_taken_within_the_cutoffs(self, frame: Frame, x: int)
        requires
            self.wf(),
            self.can_take(frame),
            0 <= x < self.report(frame).len(),
        ensures
            ({
                let s = self.tracked_stracks + self.lost_stracks;
                let o = self.pass(frame).active_origins()[x];
                let k = self.uses(frame)[x];
                let d = frame.detections[k];
                if o < s.len() {
                    (if s[o].class_id == d.2 {
                        frame.iou_cost[o][k]
                    } else {
                        Single { bits: 0x7f7f_ffff }
                    }).at_most(
                        if self.track_thresh.at_most(d.1) {
                            self.match_thresh
                        } else {
                            self.second_match_thresh
                        },
                    )
                } else {
                    !d.1.less_than(self.det_thresh)
                }
            }),
    {
        let pass = self.pass(frame);
        self.lemma_reading(frame);
        self.step_keeps_wf(frame);
        self.lemma_uses(frame, x);
        pass.active_tracks_follow_from_what_they_took(x);
        pass.detections_are_taken_within_the_cutoffs(x);
        let o = pass.active_origins()[x];
        let (strong, j) = pass.takes()[x];
        if o < pass.pool.len() && strong {
            assert(pass.stage1_cost[o][j].at_most(self.match_thresh));
        } else if o < pass.pool.len() {
            assert(pass.pool[o].admits(pass.low[j]) <==> self.stored()[o].class_id
                == frame.detections[self.low_indices(frame.detections)[j] as int].2);
            assert(pass.low_cost[o][j]
                == frame.iou_cost[o][self.low_indices(frame.detections)[j] as int]);
        } else {
            assert(pass.high[j] == STrack::fresh(
                frame.detections[self.high_indices(frame.detections)[j] as int],
            ));
        }
    }

    /// The place of a high detection.
    proof fn lemma_high_place(self, detections: Seq<Detection>, k: int) -> (j: int)
        requires
            0 <= k < detections.len() <= usize::MAX,
            self.track_thresh.at_most(detections[k].1),
        ensures
            0 <= j < self.high_indices(detections).len(),
            self.high_indices(detections)[j] == k,
    {
        self.detections_are_split_by_score(detections, k as usize);
        let high = self.high_indices(detections);
        choose|j: int| 0 <= j < high.len() && high[j] == k as usize
    }

    /// The place of a low detection.
    proof fn lemma_low_place(self, detections: Seq<Detection>, k: int) -> (j: int)
        requires
            0 <= k < detections.len() <= usize::MAX,
            !self.track_thresh.at_most(detections[k].1),
        ensures
            0 <= j < self.low_indices(detections).len(),
            self.low_indices(detections)[j] == k,
    {
        self.detections_are_split_by_score(detections, k as usize);
        let low = self.low_indices(detections);
        choose|j: int| 0 <= j < low.len() && low[j] == k as usize
    }

    /// Every detection whose score is at or above the high threshold and not below the init
    /// threshold is reported: its box and score are those of a stored track that took it,
    /// or of the new track that it starts, which also has its class and starts in this
    /// frame.
    pub proof fn every_strong_detection_is_reported(self, frame: Frame, k: int)
        requires
            self.wf(),
            self.can_take(frame),
            0 <= k < frame.detections.len(),
            self.track_thresh.at_most(frame.detections[k].1),
            !frame.detections[k].1.less_than(self.det_thresh),
        ensures
            exists|x: int|
                0 <= x < self.report(frame).len() && #[trigger] self.uses(frame)[x] == k && {
                    let t = self.report(frame)[x];
                    let o = self.pass(frame).active_origins()[x];
                    &&& t.tlwh == frame.detections[k].0
                    &&& t.score == frame.detections[k].1
                    &&& o >= self.tracked_stracks.len() + self.lost_stracks.len() ==> t.class_id
                        == frame.detections[k].2 && t.start_frame == self.frame_id + 1
                        && t.track_id >= self.next_id
                },
    {
        let pass = self.pass(frame);
        self.lemma_reading(frame);
        self.step_keeps_wf(frame);
        let j = self.lemma_high_place(frame.detections, k);
        assert(pass.high[j] == STrack::fresh(frame.detections[k]));
        pass.every_strong_detection_is_taken(j);
        let x = choose|x: int|
            0 <= x < pass.activated().len() + pass.refind().len() && #[trigger] pass.takes()[x] == (
                true,
                j,
            );
        self.lemma_uses(frame, x);
        self.reported_tracks_follow_from_what_they_took(frame, x);
        assert(self.uses(frame)[x] == k);
    }

    /// A detection whose score is at or above the high threshold and not below the init
    /// threshold, and which the first stage leaves unmatched, starts a track.
    pub proof fn unmatched_strong_detections_start_tracks(self, frame: Frame, j: usize)
        requires
            self.wf(),
            self.can_take(frame),
            j < self.high_indices(frame.detections).len(),
            ({
                let d = frame.detections[self.high_indices(frame.detections)[j as int] as int];
                &&& self.track_thresh.at_most(d.1)
                &&& !d.1.less_than(self.det_thresh)
            }),
            forall|m: int|
                0 <= m < self.pass(frame).first_matches().len() ==> (#[trigger] self.pass(
                    frame,
                ).first_matches()[m]).1 != j,
        ensures
            self.pass(frame).starters().contains(j),
            ({
                let d = frame.detections[self.high_indices(frame.detections)[j as int] as int];
                exists|x: int|
                    0 <= x < self.report(frame).len() && {
                        let t = #[trigger] self.report(frame)[x];
                        &&& t.tlwh == d.0
                        &&& t.score == d.1
                        &&& t.class_id == d.2
                        &&& t.start_frame == self.frame_id + 1
                        &&& t.frame_id == self.frame_id + 1
                        &&& t.track_id >= self.next_id
                    }
            }),
    {
        let pass = self.pass(frame);
        self.lemma_reading(frame);
        self.step_keeps_wf(frame);
        let k = self.high_indices(frame.detections)[j as int] as int;
        assert(pass.high[j as int] == STrack::fresh(frame.detections[k]));
        let strong = |j: usize|
            !assignment::column_taken(pass.first_matches(), j)
                && !pass.high[j as int].score_of().less_than(pass.det_thresh);
        indices::lemma_select(pass.high.len(), strong);
        assert(strong(j));
        self.every_strong_detection_is_reported(frame, k);
        let x = choose|x: int|
            0 <= x < self.report(frame).len() && #[trigger] self.uses(frame)[x] == k;
        self.lemma_uses(frame, x);
        self.reported_tracks_follow_from_what_they_took(frame, x);
        let o = pass.active_origins()[x];
        if o < pass.pool.len() {
            let m = pass.lemma_first_match(x);
            let i = pass.takes()[x].1;
            if i < j {
                assert(self.high_indices(frame.detections)[i] < k);
            } else if j < i {
                assert(k < self.high_indices(frame.detections)[i]);
            }
            assert(pass.first_matches()[m].1 == j);
        }
        assert(self.report(frame)[x].start_frame == self.frame_id + 1);
    }

    /// The first stage matches the nearest pair first, by the distances of the frame: a stored
    /// track and a detection at or above the high threshold whose distance is within the cutoff
    /// are matched with each other, or one of them is matched in that stage at a smaller
    /// distance, or at the same distance with the earlier track, or detection. The
    /// distance of different classes counts as the largest finite number.
    pub proof fn first_stage_takes_the_nearest(self, frame: Frame, i: int, k: int)
        requires
            self.wf(),
            self.can_take(frame),
            0 <= i < self.tracked_stracks.len() + self.lost_stracks.len(),
            0 <= k < frame.detections.len(),
            self.track_thresh.at_most(frame.detections[k].1),
            (if (self.tracked_stracks + self.lost_stracks)[i].class_id == frame.detections[k].2 {
                frame.iou_cost[i][k]
            } else {
                Single { bits: 0x7f7f_ffff }
            }).at_most(self.match_thresh),
        ensures
            ({
                let s = self.tracked_stracks + self.lost_stracks;
                let distance = |i: int, k: int|
                    if s[i].class_id == frame.detections[k].2 {
                        frame.iou_cost[i][k]
                    } else {
                        Single { bits: 0x7f7f_ffff }
                    };
                exists|x: int|
                    0 <= x < self.report(frame).len() && {
                        let o = #[trigger] self.pass(frame).active_origins()[x];
                        let u = self.uses(frame)[x];
                        &&& 0 <= o < s.len()
                        &&& 0 <= u < frame.detections.len()
                        &&& self.track_thresh.at_most(frame.detections[u].1)
                        &&& o == i || u == k
                        &&& distance(o, u).less_than(distance(i, k)) || (distance(o, u).equals(
                            distance(i, k),
                        ) && (o < i || (o == i && u <= k)))
                    }
            }),
    {
        let pass = self.pass(frame);
        let high = self.high_indices(frame.detections);
        self.lemma_reading(frame);
        self.step_keeps_wf(frame);
        let j = self.lemma_high_place(frame.detections, k);
        assert(pass.stage1_cost[i][j].at_most(self.match_thresh));
        pass.first_stage_takes_the_nearest(i, j);
        let x = choose|x: int|
            0 <= x < pass.activated().len() + pass.refind().len() && {
                let o = #[trigger] pass.active_origins()[x];
                let (strong, h) = pass.takes()[x];
                &&& strong && 0 <= o < pass.pool.len() && 0 <= h < pass.high.len()
                &&& o == i || h == j
                &&& pass.stage1_cost[o][h].less_than(pass.stage1_cost[i][j]) || (
                pass.stage1_cost[o][h].equals(pass.stage1_cost[i][j]) && (o < i || (o == i && h
                    <= j)))
            };
        self.lemma_uses(frame, x);
        let o = pass.active_origins()[x];
        let h = pass.takes()[x].1;
        assert(self.uses(frame)[x] == high[h]);
        assert(pass.stage1_cost[o][h].at_most(pass.stage1_cost[i][j]));
        if h < j {
            assert(high[h] < high[j]);
        }
    }

    /// If a stored track and a detection of its class at or above the high threshold, within the
    /// cutoff and nearer than the largest finite number, are not matched with each other, then
    /// one of them is matched in the first stage with a partner of its class at no larger
    /// distance.
    pub proof fn no_nearer_pair_is_passed_over(self, frame: Frame, i: int, k: int)
        requires
            self.wf(),
            self.can_take(frame),
            0 <= i < self.tracked_stracks.len() + self.lost_stracks.len(),
            0 <= k < frame.detections.len(),
            self.track_thresh.at_most(frame.detections[k].1),
            (self.tracked_stracks + self.lost_stracks)[i].class_id == frame.detections[k].2,
            frame.iou_cost[i][k].at_most(self.match_thresh),
            frame.iou_cost[i][k].less_than(Single { bits: 0x7f7f_ffff }),
        ensures
            exists|x: int|
                0 <= x < self.report(frame).len() && {
                    let o = #[trigger] self.pass(frame).active_origins()[x];
                    let u = self.uses(frame)[x];
                    &&& 0 <= o < self.tracked_stracks.len() + self.lost_stracks.len()
                    &&& 0 <= u < frame.detections.len()
                    &&& self.track_thresh.at_most(frame.detections[u].1)
                    &&& self.report(frame)[x].track_id == (self.tracked_stracks
                        + self.lost_stracks)[o].track_id
                    &&& self.report(frame)[x].tlwh == frame.detections[u].0
                    &&& self.report(frame)[x].class_id == frame.detections[u].2
                    &&& o == i || u == k
                    &&& frame.iou_cost[o][u].at_most(frame.iou_cost[i][k])
                },
    {
        let s = self.tracked_stracks + self.lost_stracks;
        self.first_stage_takes_the_nearest(frame, i, k);
        let distance = |i: int, k: int|
            if s[i].class_id == frame.detections[k].2 {
                frame.iou_cost[i][k]
            } else {
                Single { bits: 0x7f7f_ffff }
            };
        let x = choose|x: int|
            0 <= x < self.report(frame).len() && {
                let o = #[trigger] self.pass(frame).active_origins()[x];
                let u = self.uses(frame)[x];
                &&& 0 <= o < s.len()
                &&& 0 <= u < frame.detections.len()
                &&& self.track_thresh.at_most(frame.detections[u].1)
                &&& o == i || u == k
                &&& distance(o, u).less_than(distance(i, k)) || (distance(o, u).equals(
                    distance(i, k),
                ) && (o < i || (o == i && u <= k)))
            };
        self.reported_tracks_follow_from_what_they_took(frame, x);
        let o = self.pass(frame).active_origins()[x];
        let u = self.uses(frame)[x];
        assert(distance(o, u).at_most(distance(i, k)));
        assert(distance(o, u) == frame.iou_cost[o][u]);
    }

    /// The second stage goes likewise: a tracked track that took no detection at or above the
    /// high threshold, and a detection below it, whose distance is within the second cutoff, are
    /// matched with each other, or one of them is matched in that stage at a smaller
    /// distance, or at the same distance with the earlier track, or detection.
    #[verifier::rlimit(40)]
    pub proof fn second_stage_takes_the_nearest(self, frame: Frame, i: int, k: int)
        requires
            self.wf(),
            self.can_take(frame),
            0 <= i < self.tracked_stracks.len(),
            0 <= k < frame.detections.len(),
            !self.track_thresh.at_most(frame.detections[k].1),
            forall|x: int|
                0 <= x < self.report(frame).len() && #[trigger] self.pass(
                    frame,
                ).active_origins()[x] == i ==> !self.track_thresh.at_most(
                    frame.detections[self.uses(frame)[x]].1,
                ),
            (if self.tracked_stracks[i].class_id == frame.detections[k].2 {
                frame.iou_cost[i][k]
            } else {
                Single { bits: 0x7f7f_ffff }
            }).at_most(self.second_match_thresh),
        ensures
            ({
                let s = self.tracked_stracks;
                let distance = |i: int, k: int|
                    if s[i].class_id == frame.detections[k].2 {
                        frame.iou_cost[i][k]
                    } else {
                        Single { bits: 0x7f7f_ffff }
                    };
                exists|x: int|
                    0 <= x < self.report(frame).len() && {
                        let o = #[trigger] self.pass(frame).active_origins()[x];
                        let u = self.uses(frame)[x];
                        &&& 0 <= o < s.len()
                        &&& 0 <= u < frame.detections.len()
                        &&& !self.track_thresh.at_most(frame.detections[u].1)
                        &&& o == i || u == k
                        &&& distance(o, u).less_than(distance(i, k)) || (distance(o, u).equals(
                            distance(i, k),
                        ) && (o < i || (o == i && u <= k)))
                    }
            }),
    {
        let pass = self.pass(frame);
        let low = self.low_indices(frame.detections);
        self.lemma_reading(frame);
        self.step_keeps_wf(frame);
        let j = self.lemma_low_place(frame.detections, k);
        let s = self.tracked_stracks + self.lost_stracks;
        assert(s[i] == self.tracked_stracks[i]);
        assert(pass.pool[i].in_tracked_state());
        assert(pass.pool[i].admits(pass.low[j]) <==> s[i].class_id == frame.detections[k].2);
        assert(pass.low_cost[i][j] == frame.iou_cost[i][k]);
        assert forall|x: int|
            0 <= x < pass.activated().len() + pass.refind().len()
                && #[trigger] pass.active_origins()[x] == i implies !pass.takes()[x].0 by {
            self.lemma_uses(frame, x);
        }
        pass.second_stage_takes_the_nearest(i, j);
        let x = choose|x: int|
            0 <= x < pass.activated().len() + pass.refind().len() && {
                let o = #[trigger] pass.active_origins()[x];
                let (strong, h) = pass.takes()[x];
                let c = if pass.pool[o].admits(pass.low[h]) {
                    pass.low_cost[o][h]
                } else {
                    Single { bits: 0x7f7f_ffff }
                };
                let d = if pass.pool[i].admits(pass.low[j]) {
                    pass.low_cost[i][j]
                } else {
                    Single { bits: 0x7f7f_ffff }
                };
                &&& !strong && 0 <= o < pass.pool.len() && 0 <= h < pass.low.len()
                &&& o == i || h == j
                &&& c.less_than(d) || (c.equals(d) && (o < i || (o == i && h <= j)))
            };
        self.lemma_uses(frame, x);
        self.reported_tracks_follow_from_what_they_took(frame, x);
        let o = pass.active_origins()[x];
        let h = pass.takes()[x].1;
        assert(o < self.tracked_stracks.len());
        assert(s[o] == self.tracked_stracks[o]);
        assert(self.uses(frame)[x] == low[h]);
        assert(pass.pool[o].admits(pass.low[h]) <==> s[o].class_id
            == frame.detections[low[h] as int].2);
        assert(pass.low_cost[o][h] == frame.iou_cost[o][low[h] as int]);
        if h < j {
            assert(low[h] < low[j]);
        }
    }

    /// A tracked track with a detection of its class within the cutoff that goes with the score
    /// of the detection is reported under its ID, unless that detection went to another
    /// track.
    #[verifier::rlimit(40)]
    pub proof fn near_tracks_are_lost_only_to_others(self, frame: Frame, i: int, k: int)
        requires
            self.wf(),
            self.can_take(frame),
            0 <= i < self.tracked_stracks.len(),
            0 <= k < frame.detections.len(),
            self.tracked_stracks[i].class_id == frame.detections[k].2,
            frame.iou_cost[i][k].at_most(
                if self.track_thresh.at_most(frame.detections[k].1) {
                    self.match_thresh
                } else {
                    self.second_match_thresh
                },
            ),
        ensures
            exists|x: int|
                0 <= x < self.report(frame).len() && {
                    ||| (#[trigger] self.report(frame)[x]).track_id
                        == self.tracked_stracks[i].track_id
                    ||| self.uses(frame)[x] == k && self.report(frame)[x].tlwh
                        == frame.detections[k].0 && self.report(frame)[x].score
                        == frame.detections[k].1
                },
    {
        let s = self.tracked_stracks + self.lost_stracks;
        let pass = self.pass(frame);
        assert(s[i] == self.tracked_stracks[i]);
        if exists|x: int|
            0 <= x < self.report(frame).len() && #[trigger] pass.active_origins()[x] == i {
            let x = choose|x: int|
                0 <= x < self.report(frame).len() && #[trigger] pass.active_origins()[x] == i;
            self.reported_tracks_follow_from_what_they_took(frame, x);
            assert(self.report(frame)[x].track_id == self.tracked_stracks[i].track_id);
        } else if self.track_thresh.at_most(frame.detections[k].1) {
            self.first_stage_takes_the_nearest(frame, i, k);
            let x = choose|x: int|
                0 <= x < self.report(frame).len() && (#[trigger] pass.active_origins()[x] == i
                    || self.uses(frame)[x] == k);
            self.reported_tracks_follow_from_what_they_took(frame, x);
            assert(self.report(frame)[x].tlwh == frame.detections[k].0);
        } else {
            self.second_stage_takes_the_nearest(frame, i, k);
            let x = choose|x: int|
                0 <= x < self.report(frame).len() && (#[trigger] pass.active_origins()[x] == i
                    || self.uses(frame)[x] == k);
            self.reported_tracks_follow_from_what_they_took(frame, x);
            assert(self.report(frame)[x].tlwh == frame.detections[k].0);
        }
    }

    /// The order of the reported tracks: the tracked tracks that took a detection at or above the
    /// high threshold, those that took one below it, the new tracks, and the lost tracks that
    /// came back. Within each they come by distance and then by their place in storage; the
    /// new ones come by detection, with successive IDs.
    #[verifier::rlimit(40)]
    pub proof fn reported_tracks_come_in_order(self, frame: Frame, x: int, y: int)
        requires
            self.wf(),
            self.can_take(frame),
            0 <= x < y < self.report(frame).len(),
        ensures
            ({
                let s = self.tracked_stracks + self.lost_stracks;
                let (o, p) = (
                    self.pass(frame).active_origins()[x],
                    self.pass(frame).active_origins()[y],
                );
                let (k, l) = (self.uses(frame)[x], self.uses(frame)[y]);
                let distance = |i: int, k: int|
                    if s[i].class_id == frame.detections[k].2 {
                        frame.iou_cost[i][k]
                    } else {
                        Single { bits: 0x7f7f_ffff }
                    };
                let run = |i: int, k: int|
                    if i >= s.len() {
                        3int
                    } else if i >= self.tracked_stracks.len() {
                        4
                    } else if self.track_thresh.at_most(frame.detections[k].1) {
                        1
                    } else {
                        2
                    };
                &&& run(o, k) <= run(p, l)
                &&& run(o, k) == run(p, l) ==> if o >= s.len() {
                    &&& k < l
                    &&& self.report(frame)[y].track_id - self.report(frame)[x].track_id == y - x
                } else {
                    distance(o, k).less_than(distance(p, l)) || (distance(o, k).equals(
                        distance(p, l),
                    ) && o < p)
                }
            }),
    {
        let pass = self.pass(frame);
        let dets = frame.detections;
        self.lemma_reading(frame);
        self.step_keeps_wf(frame);
        self.lemma_uses(frame, x);
        self.lemma_uses(frame, y);
        self.reported_tracks_follow_from_what_they_took(frame, x);
        self.reported_tracks_follow_from_what_they_took(frame, y);
        pass.active_tracks_follow_from_what_they_took(x);
        pass.active_tracks_follow_from_what_they_took(y);
        pass.active_tracks_come_in_order(x, y);
        let s = self.tracked_stracks + self.lost_stracks;
        let (o, p) = (pass.active_origins()[x], pass.active_origins()[y]);
        let ((strong, j), (also, h)) = (pass.takes()[x], pass.takes()[y]);
        if o < s.len() {
            assert(pass.pool[o].in_tracked_state() <==> o < pass.n_tracked);
            if strong {
                assert(pass.stage1_cost[o][j] == if s[o].class_id == dets[self.high_indices(
                    dets,
                )[j] as int].2 {
                    frame.iou_cost[o][self.high_indices(dets)[j] as int]
                } else {
                    Single { bits: 0x7f7f_ffff }
                });
            } else {
                assert(pass.pool[o].admits(pass.low[j]) <==> s[o].class_id
                    == dets[self.low_indices(dets)[j] as int].2);
                assert(pass.low_cost[o][j] == frame.iou_cost[o][self.low_indices(dets)[j] as int]);
            }
        }
        if p < s.len() {
            assert(pass.pool[p].in_tracked_state() <==> p < pass.n_tracked);
            if also {
                assert(pass.stage1_cost[p][h] == if s[p].class_id == dets[self.high_indices(
                    dets,
                )[h] as int].2 {
                    frame.iou_cost[p][self.high_indices(dets)[h] as int]
                } else {
                    Single { bits: 0x7f7f_ffff }
                });
            } else {
                assert(pass.pool[p].admits(pass.low[h]) <==> s[p].class_id
                    == dets[self.low_indices(dets)[h] as int].2);
                assert(pass.low_cost[p][h] == frame.iou_cost[p][self.low_indices(dets)[h] as int]);
            }
        }
        if o >= s.len() && p >= s.len() {
            assert(self.high_indices(dets)[j] < self.high_indices(dets)[h]);
        }
    }

    /// A frame uses up as many IDs as it starts tracks: the new tracks have the IDs from the next
    /// one on, without a gap.
    pub proof fn ids_are_used_up_without_a_gap(self, frame: Frame, id: int)
        requires
            self.wf(),
            self.can_take(frame),
            self.next_id <= id,
        ensures
            self.next_id <= self.step(frame).next_id,
            id < self.step(frame).next_id <==> exists|x: int|
                0 <= x < self.report(frame).len() && (#[trigger] self.report(frame)[x]).track_id
                    == id,
    {
        let pass = self.pass(frame);
        let n = self.tracked_stracks.len() + self.lost_stracks.len();
        self.lemma_reading(frame);
        self.step_keeps_wf(frame);
        pass.lemma_selections();
        let origin = n + (id - self.next_id);
        pass.new_tracks_are_numbered_without_a_gap(origin);
        assert(self.step(frame).next_id == self.next_id + pass.starters().len());
        pass.lemma_parts();
        assert(pass.active_origins().len() == self.report(frame).len());
        if id < self.step(frame).next_id {
            let x = choose|x: int|
                0 <= x < pass.active_origins().len() && pass.active_origins()[x] == origin;
            self.reported_tracks_follow_from_what_they_took(frame, x);
            assert(self.report(frame)[x].track_id == id);
        }
        if exists|x: int|
            0 <= x < self.report(frame).len() && (#[trigger] self.report(frame)[x]).track_id
                == id {
            let x = choose|x: int|
                0 <= x < self.report(frame).len() && (#[trigger] self.report(frame)[x]).track_id
                    == id;
            self.reported_tracks_follow_from_what_they_took(frame, x);
            let o = pass.active_origins()[x];
            if o < n {
                assert(self.sound(self.stored()[o]));
            }
            assert(o == origin);
        }
    }

    /// The lost tracks after a frame are, in the order of storage, the stored tracks that took no
    /// detection: every one of the tracked tracks, and a lost one as long as its last match
    /// lies within the buffer. They are lost, at their predicted boxes, and else as they were.
    #[verifier::rlimit(40)]
    pub proof fn lost_tracks_are_accounted_for(self, frame: Frame)
        requires
            self.wf(),
            self.can_take(frame),
        ensures
            ({
                let s = self.tracked_stracks + self.lost_stracks;
                let lost = self.step(frame).lost_stracks;
                let from = self.pass(frame).lost_origins();
                let taken = self.pass(frame).active_origins();
                &&& taken.len() == self.report(frame).len()
                &&& from.len() == lost.len()
                &&& forall|x: int, y: int|
                    0 <= x < y < lost.len() ==> #[trigger] from[x] < #[trigger] from[y]
                &&& forall|x: int|
                    0 <= x < lost.len() ==> 0 <= #[trigger] from[x] < s.len() && lost[x]
                        == (STrack {
                        state: TrackState::Lost,
                        tlwh: frame.predictions[from[x]],
                        ..s[from[x]]
                    })
                &&& forall|i: int|
                    0 <= i < s.len() ==> (#[trigger] from.contains(i) <==> !taken.contains(i) && (i
                        < self.tracked_stracks.len() || self.frame_id + 1 - s[i].frame_id
                        <= self.buffer_size))
            }),
    {
        let pass = self.pass(frame);
        let s = self.tracked_stracks + self.lost_stracks;
        let lost = self.step(frame).lost_stracks;
        let from = pass.lost_origins();
        let taken = pass.active_origins();
        let n = self.tracked_stracks.len();
        let nd = pass.dropouts().len();
        self.lemma_reading(frame);
        self.step_keeps_wf(frame);
        pass.lemma_parts();
        pass.lemma_selections();
        assert(taken.len() == pass.activated().len() + pass.refind().len());
        pass.lost_tracks_are_accounted_for();
        assert forall|i: int| 0 <= i < s.len() implies (#[trigger] s[i]).state == if i < n {
            TrackState::Tracking
        } else {
            TrackState::Lost
        } by {
            if i < n {
                assert(s[i] == self.tracked_stracks[i]);
            } else {
                assert(s[i] == self.lost_stracks[i - n]);
            }
        }
        assert forall|i: int| n <= i < s.len() && taken.contains(i) implies exists|z: int|
            0 <= z < taken.len() && #[trigger] taken[z] == i && pass.takes()[z].0 by {
            let z = choose|z: int| 0 <= z < taken.len() && taken[z] == i;
            pass.lemma_place(z);
            assert(!pass.pool[i].in_tracked_state());
            assert(taken[z] == i && pass.takes()[z].0);
        }
        assert forall|i: int| n <= i < s.len() && !taken.contains(i) implies pass.settled()[i]
            == #[trigger] pass.pool[i] by {
            assert forall|x: int| 0 <= x < taken.len() && #[trigger] taken[x] == i implies !pass
                .takes()[x].0 by {
                assert(taken.contains(i));
            }
            pass.the_rest_of_the_pool_settles(i);
        }
        assert forall|x: int| 0 <= x < lost.len() implies {
            let o = #[trigger] from[x];
            &&& 0 <= o < s.len()
            &&& !taken.contains(o)
            &&& lost[x] == (STrack {
                state: TrackState::Lost,
                tlwh: frame.predictions[o],
                ..s[o]
            })
            &&& o < n <==> x < nd
            &&& o >= n ==> self.frame_id + 1 - s[o].frame_id <= self.buffer_size
        } by {
            let o = from[x];
            if x < nd {
                assert(pass.pool[o].in_tracked_state());
            } else {
                assert(pass.n_tracked <= o < pass.pool.len());
                if taken.contains(o) {
                    let z = choose|z: int|
                        0 <= z < taken.len() && #[trigger] taken[z] == o && pass.takes()[z].0;
                    assert(!pass.takes()[z].0);
                }
                assert(pass.settled()[o] == pass.pool[o]);
                assert(s[o].state == TrackState::Lost);
            }
        }
        assert forall|x: int, y: int| 0 <= x < y < lost.len() implies #[trigger] from[x]
            < #[trigger] from[y] by {
            if x < nd && nd <= y {
                assert(from[x] < n && from[y] >= n);
            }
        }
        assert forall|i: int| 0 <= i < s.len() implies (#[trigger] from.contains(i)
            <==> !taken.contains(i) && (i < n || self.frame_id + 1 - s[i].frame_id
            <= self.buffer_size)) by {
            if from.contains(i) {
                let x = choose|x: int| 0 <= x < from.len() && from[x] == i;
                assert(!taken.contains(from[x]));
            }
            if !taken.contains(i) && i < n {
                assert(s[i].state == TrackState::Tracking);
                assert(pass.pool[i].in_tracked_state() && !pass.pool[i].in_lost_state());
                let x = choose|x: int| 0 <= x < nd && #[trigger] from[x] == i;
                assert(from[x] == i);
            }
            if !taken.contains(i) && i >= n && self.frame_id + 1 - s[i].frame_id
                <= self.buffer_size {
                assert(pass.settled()[i] == pass.pool[i]);
                assert forall|z: int| 0 <= z < taken.len() && #[trigger] taken[z]
                    == i implies !pass.takes()[z].0 by {
                    assert(taken.contains(i));
                }
                let x = choose|x: int| nd <= x < lost.len() && #[trigger] from[x] == i;
                assert(from[x] == i);
            }
        }
    }

    /// A frame counts itself and leaves the settings as they are.
    pub proof fn a_frame_keeps_the_settings(self, frame: Frame)
        requires
            self.frame_id < usize::MAX,
        ensures
            self.step(frame).frame_id == self.frame_id + 1,
            self.step(frame).buffer_size == self.buffer_size,
            self.step(frame).track_thresh == self.track_thresh,
            self.step(frame).match_thresh == self.match_thresh,
            self.step(frame).det_thresh == self.det_thresh,
            self.step(frame).second_match_thresh == self.second_match_thresh,
    {
    }

    /// A new tracker has the settings that it is given, stores nothing, has seen no frame, and
    /// gives out IDs from 1 on.
    pub proof fn a_new_tracker_has_its_settings(params: ByteTrackParams)
        ensures
            TrackerView::initial(params).buffer_size == params.common.max_age,
            TrackerView::initial(params).track_thresh == params.track_thresh,
            TrackerView::initial(params).match_thresh == params.match_thresh,
            TrackerView::initial(params).det_thresh == params.det_thresh,
            TrackerView::initial(params).second_match_thresh == params.second_match_thresh,
            TrackerView::initial(params).tracked_stracks.len() == 0,
            TrackerView::initial(params).lost_stracks.len() == 0,
            TrackerView::initial(params).frame_id == 0,
            TrackerView::initial(params).next_id == 1,
            TrackerView::initial(params).wf(),
    {
    }
}

} // verus!
