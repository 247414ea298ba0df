//! The tracker driven frame by frame, with motion filters and IoU distances in
//! floating-point arithmetic.

use std::collections::HashMap;

use trackforge::byte_track::{
    ByteTrack, ByteTrackParams, CommonParams, STrack, TrackState,
};
use trackforge::motion::{KalmanStep, MotionRequest};
use trackforge::number::Single;

/// A tracker together with its motion filters.
struct Driver {
    tracker: ByteTrack,
    kalman_filter: KalmanFilter,
    filters: HashMap<u64, KalmanTrack>,
}

trait Tracker {
    type Track;
    fn update(&mut self, detections: Vec<([f32; 4], f32, i64)>) -> Vec<Self::Track>;
}

impl Driver {
    fn around(tracker: ByteTrack) -> Self {
        Driver {
            tracker,
            kalman_filter: KalmanFilter::default(),
            filters: HashMap::new(),
        }
    }

    fn new(track_thresh: f32, track_buffer: usize, match_thresh: f32, det_thresh: f32) -> Self {
        Self::around(ByteTrack::new(
            to_single(track_thresh),
            track_buffer,
            to_single(match_thresh),
            to_single(det_thresh),
        ))
    }

    fn from_params(params: ByteTrackParams) -> Self {
        Self::around(ByteTrack::from_params(params))
    }

    fn update(&mut self, output_results: Vec<([f32; 4], f32, i64)>) -> Vec<STrack> {
        assert!(self.tracker.has_room(output_results.len()));
        let requests = self.tracker.predict_requests();
        self.filters
            .retain(|id, _| requests.iter().any(|r| r.track_id == *id));
        let predictions = requests.iter().map(|r| to_singles(&self.step(r))).collect();
        let detections = output_results
            .iter()
            .map(|(tlwh, score, class_id)| (to_singles(tlwh), to_single(*score), *class_id))
            .collect();
        let (rows, columns) = self.tracker.association_boxes(&detections, &predictions);
        let rows: Vec<_> = rows.iter().map(from_singles).collect();
        let columns: Vec<_> = columns.iter().map(from_singles).collect();
        let iou_cost = iou_cost_matrix(&rows, &columns)
            .into_iter()
            .map(|row| row.into_iter().map(to_single).collect())
            .collect();
        let output = self.tracker.update(detections, &predictions, &iou_cost);
        for request in &output.motion {
            self.step(request);
        }
        output.tracks
    }

    fn step(&mut self, request: &MotionRequest) -> [f32; 4] {
        let filter = self.filters.entry(request.track_id).or_default();
        match request.step {
            KalmanStep::Initiate(tlwh) => {
                let tlwh = from_singles(&tlwh);
                *filter = KalmanTrack::initiate(&tlwh_to_xyah(&tlwh), &self.kalman_filter);
                tlwh
            }
            KalmanStep::Update(tlwh) => {
                let tlwh = from_singles(&tlwh);
                filter.update(&tlwh_to_xyah(&tlwh), &self.kalman_filter);
                tlwh
            }
            KalmanStep::Predict {
                clear_height_velocity,
            } => {
                if clear_height_velocity {
                    filter.mean[7] = 0.0;
                }
                filter.predict(&self.kalman_filter)
            }
        }
    }
}

impl Tracker for Driver {
    type Track = STrack;

    fn update(&mut self, detections: Vec<([f32; 4], f32, i64)>) -> Vec<STrack> {
        Driver::update(self, detections)
    }
}

/// Top-left, width, height to center, aspect ratio, height.
fn tlwh_to_xyah(tlwh: &[f32; 4]) -> [f32; 4] {
    let [x, y, w, h] = *tlwh;
    [x + w / 2.0, y + h / 2.0, w / h, h]
}

/// Center, aspect ratio, height to top-left, width, height.
fn xyah_to_tlwh(xyah: &[f32; 4]) -> [f32; 4] {
    let [x, y, a, h] = *xyah;
    let w = a * h;
    [x - w / 2.0, y - h / 2.0, w, h]
}

/// Intersection over union of two boxes.
fn iou(a: &[f32; 4], b: &[f32; 4]) -> f32 {
    let w = (a[0] + a[2]).min(b[0] + b[2]) - a[0].max(b[0]);
    let h = (a[1] + a[3]).min(b[1] + b[3]) - a[1].max(b[1]);
    if w <= 0.0 || h <= 0.0 {
        return 0.0;
    }
    let intersection = w * h;
    let union = a[2] * a[3] + b[2] * b[3] - intersection;
    if union <= 0.0 {
        0.0
    } else {
        intersection / union
    }
}

/// One minus IoU for each pair of boxes.
fn iou_cost_matrix(rows: &[[f32; 4]], columns: &[[f32; 4]]) -> Vec<Vec<f32>> {
    rows.iter()
        .map(|a| columns.iter().map(|b| 1.0 - iou(a, b)).collect())
        .collect()
}

/// A number as the library holds it.
fn to_single(x: f32) -> Single {
    Single::from_bits(x.to_bits())
}

/// A number of the library.
fn from_single(x: Single) -> f32 {
    f32::from_bits(x.to_bits())
}

/// A box as the library holds it.
fn to_singles(tlwh: &[f32; 4]) -> [Single; 4] {
    tlwh.map(to_single)
}

/// A box of the library.
fn from_singles(tlwh: &[Single; 4]) -> [f32; 4] {
    tlwh.map(from_single)
}

/// State: center, aspect ratio and height, then their velocities.
type StateVector = [f32; 8];

/// Covariance of a [`StateVector`].
type CovarianceMatrix = [[f32; 8]; 8];

/// Noise settings of the filter, relative to the height of the object.
#[derive(Debug, Clone, Copy)]
struct KalmanFilter {
    std_weight_position: f32,
    std_weight_velocity: f32,
}

impl Default for KalmanFilter {
    fn default() -> Self {
        Self {
            std_weight_position: 1.0 / 20.0,
            std_weight_velocity: 1.0 / 160.0,
        }
    }
}

/// The filter state of one track.
#[derive(Debug, Clone, Copy)]
struct KalmanTrack {
    mean: StateVector,
    covariance: CovarianceMatrix,
}

impl Default for KalmanTrack {
    /// Zero mean and identity covariance, as before any measurement.
    fn default() -> Self {
        let mut covariance = [[0.0; 8]; 8];
        for (i, row) in covariance.iter_mut().enumerate() {
            row[i] = 1.0;
        }
        Self {
            mean: [0.0; 8],
            covariance,
        }
    }
}

impl KalmanTrack {
    /// Start a filter at a measurement.
    fn initiate(xyah: &[f32; 4], kf: &KalmanFilter) -> Self {
        let h = xyah[3];
        let position = 2.0 * kf.std_weight_position * h;
        let velocity = 10.0 * kf.std_weight_velocity * h;
        let std = [
            position, position, 1e-2, position, velocity, velocity, 1e-5, velocity,
        ];
        let mut mean = [0.0; 8];
        mean[..4].copy_from_slice(xyah);
        let mut covariance = [[0.0; 8]; 8];
        for i in 0..8 {
            covariance[i][i] = std[i] * std[i];
        }
        Self { mean, covariance }
    }

    /// Advance by one frame; returns the predicted box in TLWH form.
    fn predict(&mut self, kf: &KalmanFilter) -> [f32; 4] {
        let h = self.mean[3];
        let position = kf.std_weight_position * h;
        let velocity = kf.std_weight_velocity * h;
        let std = [
            position, position, 1e-2, position, velocity, velocity, 1e-5, velocity,
        ];
        for i in 0..4 {
            self.mean[i] += self.mean[i + 4];
        }
        // F P F^T for F = [[I, I], [0, I]].
        let p = self.covariance;
        for i in 0..4 {
            for j in 0..4 {
                self.covariance[i][j] = p[i][j] + p[i + 4][j] + p[i][j + 4] + p[i + 4][j + 4];
                self.covariance[i][j + 4] = p[i][j + 4] + p[i + 4][j + 4];
                self.covariance[i + 4][j] = p[i + 4][j] + p[i + 4][j + 4];
            }
        }
        for i in 0..8 {
            self.covariance[i][i] += std[i] * std[i];
        }
        xyah_to_tlwh(&[self.mean[0], self.mean[1], self.mean[2], self.mean[3]])
    }

    /// Correct with a measurement.
    fn update(&mut self, xyah: &[f32; 4], kf: &KalmanFilter) {
        let position = kf.std_weight_position * self.mean[3];
        let std = [position, position, 1e-1, position];
        let mut projected = [[0.0; 4]; 4];
        for i in 0..4 {
            projected[i].copy_from_slice(&self.covariance[i][..4]);
            projected[i][i] += std[i] * std[i];
        }
        let inverse = invert(projected);
        let mut gain = [[0.0; 4]; 8];
        for i in 0..8 {
            for j in 0..4 {
                for k in 0..4 {
                    gain[i][j] += self.covariance[i][k] * inverse[k][j];
                }
            }
        }
        let mut innovation = [0.0; 4];
        for i in 0..4 {
            innovation[i] = xyah[i] - self.mean[i];
        }
        let p = self.covariance;
        for i in 0..8 {
            for k in 0..4 {
                self.mean[i] += gain[i][k] * innovation[k];
            }
            for j in 0..8 {
                for k in 0..4 {
                    self.covariance[i][j] -= gain[i][k] * p[k][j];
                }
            }
        }
    }
}

/// Inverse of a symmetric positive definite matrix, by Gauss-Jordan elimination.
fn invert(mut a: [[f32; 4]; 4]) -> [[f32; 4]; 4] {
    let mut inverse = [[0.0; 4]; 4];
    for (i, row) in inverse.iter_mut().enumerate() {
        row[i] = 1.0;
    }
    for i in 0..4 {
        let pivot = a[i][i];
        for k in 0..4 {
            a[i][k] /= pivot;
            inverse[i][k] /= pivot;
        }
        for j in 0..4 {
            if j != i {
                let factor = a[j][i];
                for k in 0..4 {
                    a[j][k] -= factor * a[i][k];
                    inverse[j][k] -= factor * inverse[i][k];
                }
            }
        }
    }
    inverse
}

#[test]
fn test_strack_init() {
    let tlwh = [10.0, 10.0, 50.0, 100.0];
    let score = 0.9;
    let class_id = 1;
    let strack = STrack::new(to_singles(&tlwh), to_single(score), class_id);

    assert_eq!(from_singles(&strack.tlwh), tlwh);
    assert_eq!(from_single(strack.score), score);
    assert_eq!(strack.class_id, class_id);
    assert_eq!(strack.state, TrackState::New);
    assert!(!strack.is_activated);
}

#[test]
fn test_bytetrack_update_simple() {
    let mut tracker = Driver::new(0.5, 30, 0.8, 0.6);

    // Frame 1: One high confidence detection
    let detection = ([10.0, 10.0, 50.0, 100.0], 0.9_f32, 0_i64);
    let output = tracker.update(vec![detection]);

    assert_eq!(output.len(), 1);
    let track = &output[0];
    let first_id = track.track_id;
    assert_eq!(track.state, TrackState::Tracking);

    // Frame 2: Move slightly
    let detection2 = ([15.0, 15.0, 50.0, 100.0], 0.9_f32, 0_i64);
    let output2 = tracker.update(vec![detection2]);

    assert_eq!(output2.len(), 1);
    assert_eq!(output2[0].track_id, first_id); // Should match same ID
}

#[test]
fn test_bytetrack_low_conf_match() {
    // A low-confidence detection (below track_thresh) is recovered by the
    // second association round and keeps the existing track id.
    let mut tracker = Driver::new(0.6, 30, 0.8, 0.6);
    let d1 = ([10.0, 10.0, 50.0, 50.0], 0.9, 0);
    let out1 = tracker.update(vec![d1]);
    assert_eq!(out1.len(), 1);
    let id = out1[0].track_id;

    // Frame 2: same object at low confidence; second-round IoU match keeps the id.
    let d2 = ([12.0, 12.0, 50.0, 50.0], 0.4, 0);
    let output2 = tracker.update(vec![d2]);
    assert_eq!(output2.len(), 1, "Expected 1 track, got {}", output2.len());
    assert_eq!(output2[0].track_id, id);
}

#[test]
fn test_bytetrack_instance_isolation() {
    let mut tracker1 = Driver::new(0.5, 30, 0.8, 0.6);
    let mut tracker2 = Driver::new(0.5, 30, 0.8, 0.6);

    let det1 = vec![([100.0, 100.0, 50.0, 100.0], 0.9_f32, 0_i64)];
    let tracks1 = tracker1.update(det1);
    assert_eq!(tracks1.len(), 1);
    assert_eq!(tracks1[0].track_id, 1);

    let det2 = vec![([100.0, 100.0, 50.0, 100.0], 0.9_f32, 0_i64)];
    let tracks2 = tracker2.update(det2);
    assert_eq!(tracks2.len(), 1);
    assert_eq!(tracks2[0].track_id, 1);
}

#[test]
fn test_bytetrack_tracker_trait() {
    let mut tracker = Driver::new(0.5, 30, 0.8, 0.6);
    let tracks = Tracker::update(&mut tracker, vec![([10.0, 10.0, 50.0, 100.0], 0.9, 0)]);
    assert_eq!(tracks.len(), 1);
}

#[test]
fn test_bytetrack_id_sequential() {
    let mut tracker = Driver::new(0.5, 30, 0.8, 0.6);

    let det1 = vec![([100.0, 100.0, 50.0, 100.0], 0.9_f32, 0_i64)];
    let tracks1 = tracker.update(det1);
    assert_eq!(tracks1[0].track_id, 1);

    let det2 = vec![([200.0, 200.0, 50.0, 100.0], 0.9_f32, 1_i64)];
    let tracks2 = tracker.update(det2);
    assert_eq!(tracks2[0].track_id, 2);
}

#[test]
fn test_bytetrack_re_activate_lost_track() {
    // Frame 1: high-conf detection track activated.
    // Frame 2: no detection track unmatched in both rounds state=Lost.
    // Frame 3: detection at same position lost track matched in round 1
    // re_activate() called instead of update().
    let mut tracker = Driver::new(0.5, 30, 0.8, 0.6);

    let d = ([10.0, 10.0, 50.0, 100.0], 0.9_f32, 0_i64);
    let out1 = tracker.update(vec![d]);
    assert_eq!(out1.len(), 1);
    let id = out1[0].track_id;

    let out2 = tracker.update(vec![]);
    assert_eq!(out2.len(), 0, "track should not appear while lost");

    let out3 = tracker.update(vec![d]);
    assert_eq!(out3.len(), 1);
    assert_eq!(
        out3[0].track_id, id,
        "re-activated track retains its original ID"
    );
}

#[test]
fn test_bytetrack_lost_track_kept_within_buffer() {
    // Frame 1 activates a track. Frame 2 misses it, so it becomes Lost. Frame 3
    // misses it again while still inside the buffer, exercising the branch that
    // keeps a first-round lost track alive. Frame 4 re-detects it and recovers
    // the original id from the buffer.
    let mut tracker = Driver::new(0.5, 30, 0.8, 0.6);
    let d = ([10.0, 10.0, 50.0, 100.0], 0.9_f32, 0_i64);
    let id = tracker.update(vec![d])[0].track_id;

    assert!(tracker.update(vec![]).is_empty());
    assert!(tracker.update(vec![]).is_empty());

    let out = tracker.update(vec![d]);
    assert_eq!(out.len(), 1);
    assert_eq!(out[0].track_id, id, "track recovered from the lost buffer");
}

#[test]
fn storage_stays_bounded_under_churn() {
    // Every frame a brand-new object appears far from any previous one and then
    // vanishes, so nothing ever re-matches. Lost tracks must age out of the
    // buffer instead of piling up. The internal vectors must stay bounded by the
    // buffer window, not grow with the frame count.
    let buffer = 30;
    let mut tracker = Driver::new(0.5, buffer, 0.8, 0.6);
    for f in 0..3000 {
        let x = 5.0 + (f % 100) as f32 * 40.0; // spaced apart, cycle exceeds buffer
        let _ = tracker.update(vec![([x, 10.0, 20.0, 40.0], 0.9, 0)]);
        let stored =
            tracker.tracker.tracked_stracks().len() + tracker.tracker.lost_stracks().len();
        assert!(
            stored <= buffer + 5,
            "storage grew to {stored} at frame {f}, buffer is {buffer}"
        );
    }
}

#[test]
fn active_ids_are_unique_each_frame() {
    // Five persistent objects; every active id in a frame must be distinct.
    let mut tracker = Driver::new(0.5, 30, 0.8, 0.6);
    for f in 0..200 {
        let dets: Vec<_> = (0..5)
            .map(|i| {
                let x = 20.0 + i as f32 * 120.0 + (f % 3) as f32;
                ([x, 30.0, 40.0, 80.0], 0.9, i)
            })
            .collect();
        let out = tracker.update(dets);
        let mut ids: Vec<u64> = out.iter().map(|t| t.track_id).collect();
        ids.sort_unstable();
        let unique = {
            let mut u = ids.clone();
            u.dedup();
            u.len()
        };
        assert_eq!(ids.len(), unique, "duplicate id in frame {f}: {ids:?}");
    }
}

#[test]
fn from_params_default_matches_new() {
    // The params path with defaults must behave exactly like the positional new.
    let mut a = Driver::from_params(ByteTrackParams::default());
    let mut b = Driver::new(0.5, 30, 0.8, 0.6);
    let d = vec![([10.0, 10.0, 50.0, 100.0], 0.9, 0)];
    let ra = a.update(d.clone());
    let rb = b.update(d);
    assert_eq!(ra.len(), rb.len());
    assert_eq!(ra[0].track_id, rb[0].track_id);
    assert_eq!(ra[0].tlwh, rb[0].tlwh);
}

#[test]
fn second_match_thresh_controls_low_stage_recovery() {
    let high = ([10.0, 10.0, 50.0, 50.0], 0.9, 0);
    let low = ([12.0, 12.0, 50.0, 50.0], 0.4, 0); // below track_thresh, second stage

    // Impossible second stage: the low-confidence detection cannot be recovered.
    let mut strict = Driver::from_params(ByteTrackParams {
        second_match_thresh: to_single(0.0),
        ..ByteTrackParams::default()
    });
    strict.update(vec![high]);
    assert!(strict.update(vec![low]).is_empty());

    // Default second stage recovers the same object and keeps its id.
    let mut lax = Driver::from_params(ByteTrackParams::default());
    let id = lax.update(vec![high])[0].track_id;
    let out = lax.update(vec![low]);
    assert_eq!(out.len(), 1);
    assert_eq!(out[0].track_id, id);
}

#[test]
fn default_params_are_the_documented_ones() {
    let p = ByteTrackParams::default();
    assert_eq!(p.common.max_age, 30);
    assert_eq!(p.common.min_hits, 3);
    assert_eq!(from_single(p.track_thresh), 0.5);
    assert_eq!(from_single(p.match_thresh), 0.8);
    assert_eq!(from_single(p.det_thresh), 0.6);
    assert_eq!(from_single(p.second_match_thresh), 0.5);
    assert_eq!(p, p);
}

#[test]
fn activation_starts_a_filter_at_the_box() {
    let tlwh = to_singles(&[10.0, 20.0, 30.0, 40.0]);
    let mut t = STrack::new(tlwh, to_single(0.7), 3);
    t.tracklet_len = 9;
    let step = t.activate(5, 11);
    assert!(matches!(step, KalmanStep::Initiate(b) if b == tlwh));
    assert_eq!((t.frame_id, t.start_frame, t.track_id), (5, 5, 11));
    assert_eq!((t.tracklet_len, t.class_id), (0, 3));
    assert_eq!(t.state, TrackState::Tracking);
    assert!(t.is_activated);
}

#[test]
fn update_counts_the_tracklet_and_takes_the_detection() {
    let mut t = STrack::new(to_singles(&[10.0, 20.0, 30.0, 40.0]), to_single(0.7), 3);
    t.activate(5, 11);
    let new_box = to_singles(&[11.0, 21.0, 30.0, 40.0]);
    let step = t.update(STrack::new(new_box, to_single(0.8), 4), 6);
    assert!(matches!(step, KalmanStep::Update(b) if b == new_box));
    assert_eq!((t.frame_id, t.start_frame, t.tracklet_len), (6, 5, 1));
    assert_eq!((t.track_id, t.class_id), (11, 3));
    assert_eq!(from_single(t.score), 0.8);
    assert_eq!(t.tlwh, new_box);
}

#[test]
fn re_activate_takes_another_id_only_if_given() {
    let mut t = STrack::new(to_singles(&[10.0, 20.0, 30.0, 40.0]), to_single(0.7), 3);
    t.activate(5, 11);
    t.update(t, 6);
    t.state = TrackState::Lost;
    let new_box = to_singles(&[12.0, 22.0, 30.0, 40.0]);
    let det = STrack::new(new_box, to_single(0.9), 3);
    let step = t.re_activate(det, 8, None);
    assert!(matches!(step, KalmanStep::Update(b) if b == new_box));
    assert_eq!((t.track_id, t.frame_id, t.tracklet_len), (11, 8, 0));
    assert_eq!(t.state, TrackState::Tracking);
    t.re_activate(det, 9, Some(12));
    assert_eq!((t.track_id, t.start_frame), (12, 5));
}

#[test]
fn prediction_clears_the_height_velocity_of_lost_tracks() {
    let mut t = STrack::new(to_singles(&[10.0, 20.0, 30.0, 40.0]), to_single(0.7), 3);
    t.activate(1, 4);
    let request = t.predict_request();
    assert_eq!(request.track_id, 4);
    assert!(matches!(request.step, KalmanStep::Predict { clear_height_velocity: false }));
    t.state = TrackState::Lost;
    assert!(matches!(
        t.predict_request().step,
        KalmanStep::Predict { clear_height_velocity: true }
    ));
    let predicted = to_singles(&[13.0, 20.0, 30.0, 40.0]);
    t.predict(predicted);
    assert_eq!(t.tlwh, predicted);
    assert_eq!(t.state, TrackState::Lost);
}

#[test]
fn first_stage_does_not_mix_classes() {
    let mut tracker = Driver::new(0.5, 30, 0.8, 0.6);
    let b = [10.0, 10.0, 50.0, 100.0];
    let id = tracker.update(vec![(b, 0.9, 0)])[0].track_id;
    let out = tracker.update(vec![(b, 0.9, 1)]);
    assert_eq!(out.len(), 1);
    assert_eq!(out[0].track_id, id + 1);
    assert_eq!(out[0].class_id, 1);
    assert_eq!(tracker.tracker.lost_stracks().len(), 1);
    // A high-confidence detection of the first class brings the first track back.
    let back = tracker.update(vec![(b, 0.9, 0)]);
    assert_eq!(back.len(), 1);
    assert_eq!(back[0].track_id, id);
}

#[test]
fn second_stage_does_not_mix_classes() {
    let mut tracker = Driver::new(0.6, 30, 0.8, 0.6);
    let id = tracker.update(vec![([10.0, 10.0, 50.0, 50.0], 0.9, 0)])[0].track_id;
    let out = tracker.update(vec![([12.0, 12.0, 50.0, 50.0], 0.4, 1)]);
    assert!(out.is_empty());
    assert_eq!(tracker.tracker.lost_stracks().len(), 1);
    assert_eq!(tracker.tracker.lost_stracks()[0].track_id, id);

    // Of two low-confidence detections, a track takes the one of its own class though the
    // other is nearer.
    let mut tracker = Driver::new(0.6, 30, 0.8, 0.6);
    let id = tracker.update(vec![([10.0, 10.0, 50.0, 50.0], 0.9, 0)])[0].track_id;
    let out = tracker.update(vec![
        ([10.0, 10.0, 50.0, 50.0], 0.4, 1),
        ([14.0, 14.0, 50.0, 50.0], 0.3, 0),
    ]);
    assert_eq!(out.len(), 1);
    assert_eq!(out[0].track_id, id);
    assert_eq!(out[0].class_id, 0);
    assert_eq!(from_single(out[0].score), 0.3);
}

#[test]
fn weak_detections_start_no_track() {
    let mut tracker = Driver::new(0.5, 30, 0.8, 0.6);
    let b = [10.0, 10.0, 50.0, 100.0];
    // High confidence, but below the init threshold.
    assert!(tracker.update(vec![(b, 0.55, 0)]).is_empty());
    // Low confidence.
    assert!(tracker.update(vec![(b, 0.4, 0)]).is_empty());
    // Not a number is never high confidence.
    assert!(tracker.update(vec![(b, f32::NAN, 0)]).is_empty());
    // Exactly at the init threshold.
    assert_eq!(tracker.update(vec![(b, 0.6, 0)]).len(), 1);
}

#[test]
fn lost_tracks_expire_after_the_buffer() {
    let b = [10.0, 10.0, 50.0, 100.0];
    let mut tracker = Driver::new(0.5, 2, 0.8, 0.6);
    tracker.update(vec![(b, 0.9, 0)]);
    tracker.update(vec![]);
    assert_eq!(tracker.tracker.lost_stracks().len(), 1);
    tracker.update(vec![]);
    assert_eq!(tracker.tracker.lost_stracks().len(), 1);
    tracker.update(vec![]);
    assert_eq!(tracker.tracker.lost_stracks().len(), 0);
    let out = tracker.update(vec![(b, 0.9, 0)]);
    assert_eq!(out[0].track_id, 2);
}

#[test]
fn a_track_is_kept_in_the_frame_that_loses_it() {
    let b = [10.0, 10.0, 50.0, 100.0];
    let mut tracker = Driver::new(0.5, 0, 0.8, 0.6);
    let id = tracker.update(vec![(b, 0.9, 0)])[0].track_id;
    tracker.update(vec![]);
    assert_eq!(tracker.tracker.lost_stracks().len(), 1);
    let out = tracker.update(vec![(b, 0.9, 0)]);
    assert_eq!(out[0].track_id, id);
    tracker.update(vec![]);
    tracker.update(vec![]);
    assert!(tracker.tracker.lost_stracks().is_empty());
}

#[test]
fn min_hits_changes_nothing() {
    let b = [10.0, 10.0, 50.0, 100.0];
    let mut tracker = Driver::from_params(ByteTrackParams {
        common: CommonParams {
            max_age: 30,
            min_hits: 100,
        },
        ..ByteTrackParams::default()
    });
    let out = tracker.update(vec![(b, 0.9, 0)]);
    assert_eq!(out.len(), 1);
    assert!(out[0].is_activated);
    assert_eq!(out[0].frame_id, 1);
}

#[test]
fn each_detection_serves_one_track() {
    let mut tracker = Driver::new(0.5, 30, 0.8, 0.6);
    let a = [10.0, 10.0, 50.0, 100.0];
    let b = [30.0, 10.0, 50.0, 100.0];
    assert_eq!(tracker.update(vec![(a, 0.9, 0), (b, 0.8, 0)]).len(), 2);
    // One detection between the two: the nearer track takes it, the other is lost.
    let out = tracker.update(vec![([12.0, 10.0, 50.0, 100.0], 0.9, 0)]);
    assert_eq!(out.len(), 1);
    assert_eq!(out[0].track_id, 1);
    assert_eq!(from_singles(&out[0].tlwh), [12.0, 10.0, 50.0, 100.0]);
    assert_eq!(tracker.tracker.lost_stracks().len(), 1);
    assert_eq!(tracker.tracker.lost_stracks()[0].track_id, 2);
    assert_eq!(tracker.tracker.lost_stracks()[0].state, TrackState::Lost);
}

#[test]
fn filter_steps_follow_the_reported_tracks() {
    let b = to_singles(&[10.0, 10.0, 50.0, 100.0]);
    let mut tracker = ByteTrack::new(to_single(0.5), 30, to_single(0.8), to_single(0.6));
    let first = tracker.update(vec![(b, to_single(0.9), 0)], &vec![], &vec![]);
    assert_eq!(first.motion.len(), 1);
    assert_eq!(first.motion[0].track_id, first.tracks[0].track_id);
    assert!(matches!(first.motion[0].step, KalmanStep::Initiate(x) if x == b));
    let second = tracker.update(
        vec![(b, to_single(0.9), 0)],
        &vec![b],
        &vec![vec![to_single(0.0)]],
    );
    assert_eq!(second.motion.len(), 1);
    assert!(matches!(second.motion[0].step, KalmanStep::Update(x) if x == b));
    assert_eq!(second.tracks[0].tracklet_len, 1);
    // A distance above the cutoff leaves the track without a step.
    let third = tracker.update(
        vec![(b, to_single(0.9), 0)],
        &vec![b],
        &vec![vec![to_single(0.81)]],
    );
    assert_eq!(third.tracks.len(), 1);
    assert_eq!(third.tracks[0].track_id, 2);
    assert!(matches!(third.motion[0].step, KalmanStep::Initiate(_)));
    let requests = tracker.predict_requests();
    assert_eq!(requests.len(), 2);
    assert_eq!((requests[0].track_id, requests[1].track_id), (2, 1));
}

#[test]
fn room_depends_on_the_counters() {
    let tracker = ByteTrack::new(to_single(0.5), 30, to_single(0.8), to_single(0.6));
    assert!(tracker.has_room(0));
    assert!(tracker.has_room(1000));
    assert!(!tracker.has_room(usize::MAX));
}
