//! The two-stage cascade on given costs.

use trackforge::byte_track::{STrack, TrackState};
use trackforge::cascade::run;
use trackforge::motion::KalmanStep;
use trackforge::number::Single;

fn single(x: f32) -> Single {
    Single::from_bits(x.to_bits())
}

fn det(x: f32, score: f32) -> STrack {
    STrack::new([x, 0.0, 10.0, 10.0].map(single), single(score), 0)
}

fn track(x: f32, frame_id: usize, track_id: u64) -> STrack {
    let mut t = det(x, 0.9);
    t.activate(frame_id, track_id);
    t
}

fn lost(x: f32, frame_id: usize, track_id: u64) -> STrack {
    let mut t = track(x, frame_id, track_id);
    t.state = TrackState::Lost;
    t
}

fn costs(rows: &[&[f32]]) -> Vec<Vec<Single>> {
    rows.iter()
        .map(|row| row.iter().map(|x| single(*x)).collect())
        .collect()
}

fn ids(tracks: &[STrack]) -> Vec<u64> {
    tracks.iter().map(|t| t.track_id).collect()
}

#[test]
fn every_fate_in_one_pass() {
    // Tracked 1, 2, 3, then lost 4 (recent), 5 (recent), 6 (too old).
    let pool = vec![
        track(0.0, 9, 1),
        track(100.0, 9, 2),
        track(200.0, 9, 3),
        lost(300.0, 8, 4),
        lost(400.0, 7, 5),
        lost(500.0, 6, 6),
    ];
    let high = vec![det(1.0, 0.9), det(301.0, 0.8), det(900.0, 0.7), det(950.0, 0.55)];
    let low = vec![det(101.0, 0.3)];
    let far = [1.0, 1.0, 1.0, 1.0];
    let stage1 = costs(&[
        &[0.1, 1.0, 1.0, 1.0],
        &far,
        &far,
        &[1.0, 0.2, 1.0, 1.0],
        &far,
        &far,
    ]);
    let low_cost = costs(&[&[1.0], &[0.3], &[0.9], &[0.0], &[0.0], &[0.0]]);
    let mut next_id = 7;
    let out = run(
        pool,
        3,
        &high,
        &low,
        &stage1,
        &low_cost,
        single(0.8),
        single(0.5),
        single(0.6),
        3,
        10,
        &mut next_id,
    );
    let activated: Vec<STrack> = out.activated.iter().map(|a| a.0).collect();
    let refind: Vec<STrack> = out.refind.iter().map(|a| a.0).collect();
    assert_eq!(ids(&activated), vec![1, 2, 7]);
    assert_eq!(ids(&refind), vec![4]);
    assert_eq!(ids(&out.lost), vec![3, 5]);
    assert_eq!(next_id, 8);
    assert!(activated.iter().all(|t| t.state == TrackState::Tracking && t.frame_id == 10));
    assert!(out.lost.iter().all(|t| t.state == TrackState::Lost));
    assert!(matches!(out.activated[0].1, KalmanStep::Update(_)));
    assert!(matches!(out.activated[1].1, KalmanStep::Update(b) if b == low[0].tlwh));
    assert!(matches!(out.activated[2].1, KalmanStep::Initiate(b) if b == high[2].tlwh));
    assert!(matches!(out.refind[0].1, KalmanStep::Update(b) if b == high[1].tlwh));
    assert_eq!(activated[1].tracklet_len, 1);
    assert_eq!(refind[0].tracklet_len, 0);
}

#[test]
fn without_tracks_all_strong_detections_start() {
    let high = vec![det(0.0, 0.9), det(50.0, 0.5), det(100.0, 0.6)];
    let mut next_id = 1;
    let out = run(
        Vec::<STrack>::new(),
        0,
        &high,
        &vec![det(0.0, 0.1)],
        &vec![],
        &vec![],
        single(0.8),
        single(0.5),
        single(0.6),
        30,
        1,
        &mut next_id,
    );
    let started: Vec<STrack> = out.activated.iter().map(|a| a.0).collect();
    assert_eq!(ids(&started), vec![1, 2]);
    assert_eq!(started[1].tlwh, high[2].tlwh);
    assert!(out.refind.is_empty() && out.lost.is_empty());
    assert_eq!(next_id, 3);
}

#[test]
fn lost_tracks_are_not_offered_low_detections() {
    let low = vec![det(0.0, 0.3)];
    let mut next_id = 2;
    let out = run(
        vec![lost(0.0, 4, 1)],
        0,
        &vec![],
        &low,
        &vec![vec![]],
        &costs(&[&[0.0]]),
        single(0.8),
        single(0.5),
        single(0.6),
        30,
        5,
        &mut next_id,
    );
    assert!(out.activated.is_empty() && out.refind.is_empty());
    assert_eq!(ids(&out.lost), vec![1]);
    assert_eq!(next_id, 2);
}

#[test]
fn tracked_tracks_past_the_tracked_part_are_listed_twice() {
    // The pool is read as it stands after the second stage.
    let low = vec![det(0.0, 0.3)];
    let mut next_id = 3;
    let out = run(
        vec![track(0.0, 4, 1), track(100.0, 4, 2)],
        0,
        &vec![],
        &low,
        &vec![vec![], vec![]],
        &costs(&[&[0.1], &[0.9]]),
        single(0.8),
        single(0.5),
        single(0.6),
        1,
        5,
        &mut next_id,
    );
    assert_eq!(out.activated.len(), 1);
    assert_eq!(ids(&out.lost), vec![2, 1, 2]);
    assert_eq!(out.lost[1].state, TrackState::Tracking);
    assert_eq!(out.lost[1].frame_id, 5);
    assert_eq!(out.lost[2].state, TrackState::Lost);
}

#[test]
fn second_stage_asks_whether_a_track_accepts_a_detection() {
    let mut other = det(0.0, 0.3);
    other.class_id = 1;
    let mut next_id = 2;
    let out = run(
        vec![track(0.0, 4, 1)],
        1,
        &vec![],
        &vec![other],
        &vec![vec![]],
        &costs(&[&[0.0]]),
        single(0.8),
        single(0.5),
        single(0.6),
        30,
        5,
        &mut next_id,
    );
    assert!(out.activated.is_empty() && out.refind.is_empty());
    assert_eq!(ids(&out.lost), vec![1]);
}
