//! What holds of the tracker over frames.

use crate::assignment;
use crate::byte_track::{ByteTrackParams, CommonParams, Detection, Frame, STrack, TrackState, TrackerView};
use crate::cascade;
use crate::cascade::{CascadeDet, CascadeTrack};
use crate::indices;
use crate::motion::{KalmanStep, MotionRequest};
use crate::number::{Single, MAX_BITS};
use vstd::prelude::*;

verus! {

impl TrackerView {
    /// What an active track has from its origin.
    #[verifier::rlimit(40)]
    proof fn lemma_active(self, frame: Frame, x: int)
        requires
            self.wf(),
            self.can_take(frame),
            0 <= x < self.active(frame).len(),
        ensures
            ({
                let (t, step) = self.active(frame)[x];
                let n = self.stored().len();
                let o = self.pass(frame).active_origins()[x];
                &&& self.active(frame).len() == self.pass(frame).active_origins().len()
                &&& 0 <= o < n + self.pass(frame).starters().len()
                &&& t.state == TrackState::Tracking
                &&& t.is_activated
                &&& t.frame_id == self.frame_id + 1
                &&& o < n ==> {
                    &&& t.track_id == self.stored()[o].track_id
                    &&& t.class_id == self.stored()[o].class_id
                    &&& t.start_frame == self.stored()[o].start_frame
                    &&& t.tracklet_len <= t.frame_id - t.start_frame
                    &&& step == KalmanStep::Update(t.tlwh)
                }
                &&& o >= n ==> {
                    &&& t.track_id == self.next_id + (o - n)
                    &&& t.start_frame == t.frame_id
                    &&& t.tracklet_len == 0
                    &&& step == KalmanStep::Initiate(t.tlwh)
                }
            }),
    {
        self.lemma_pass_valid(frame);
        let pass = self.pass(frame);
        pass.lemma_parts();
        pass.lemma_selections();
        pass.tracks_have_one_origin();
        let (na, nb) = (pass.continuing().len(), pass.second_matches().len());
        let nc = pass.starters().len();
        let o = pass.active_origins()[x];
        assert(pass.origins()[x] == o);
        if x < na {
            let m = pass.continuing()[x];
            assert(pass.first_matches().contains(m));
            assert(o == m.0);
            assert(self.active(frame)[x] == pass.pool[o].updated(
                pass.high[m.1 as int],
                pass.frame_id,
            ));
            assert(self.sound(self.stored()[o]));
            assert(self.stored()[o] == self.tracked_stracks[o]);
        } else if x < na + nb {
            let m = pass.second_matches()[x - na];
            assert(m.0 < pass.leftover().len());
            assert(o == pass.leftover()[m.0 as int]);
            assert(self.active(frame)[x] == pass.pool[o].updated(
                pass.low[m.1 as int],
                pass.frame_id,
            ));
            assert(self.sound(self.stored()[o]));
            assert(self.stored()[o] == self.tracked_stracks[o]);
        } else if x < na + nb + nc {
            let k = x - na - nb;
            assert(o == pass.pool.len() + k);
            assert(self.active(frame)[x] == STrack::spawned(
                pass.high[pass.starters()[k] as int],
                pass.frame_id,
                (pass.next_id + k) as u64,
            ));
        } else {
            let m = pass.returning()[x - na - nb - nc];
            assert(pass.first_matches().contains(m));
            assert(o == m.0);
            assert(self.active(frame)[x] == pass.pool[o].reactivated(
                pass.high[m.1 as int],
                pass.frame_id,
            ));
            assert(self.sound(self.stored()[o]));
        }
    }

    /// What a lost track has from its origin.
    pub(crate) proof fn lemma_lost(self, frame: Frame, x: int)
        requires
            self.wf(),
            self.can_take(frame),
            0 <= x < self.pass(frame).lost().len(),
        ensures
            ({
                let t = self.pass(frame).lost()[x];
                let o = self.pass(frame).lost_origins()[x];
                &&& self.pass(frame).lost().len() == self.pass(frame).lost_origins().len()
                &&& 0 <= o < self.stored().len()
                &&& t == (STrack {
                    state: TrackState::Lost,
                    tlwh: frame.predictions[o],
                    ..self.stored()[o]
                })
                &&& 1 <= self.frame_id + 1 - t.frame_id <= self.horizon()
            }),
    {
        self.lemma_pass_valid(frame);
        let pass = self.pass(frame);
        pass.lemma_parts();
        pass.lemma_selections();
        pass.tracks_have_one_origin();
        let o = pass.lost_origins()[x];
        let ne = pass.dropouts().len();
        if x < ne {
            let l = pass.dropouts()[x];
            assert(o == pass.leftover()[l as int]);
            assert(self.stored()[o] == self.tracked_stracks[o]);
        } else {
            assert(o == pass.kept()[x - ne]);
            let n = self.tracked_stracks.len();
            assert(self.stored()[o] == self.lost_stracks[o - n]);
            pass.lemma_settled(o);
            assert(pass.pool[o].last_frame() == self.stored()[o].frame_id);
        }
    }

    /// A frame keeps the invariant, and every track in the tracked state is reported.
    #[verifier::rlimit(40)]
    pub proof fn step_keeps_wf(self, frame: Frame)
        requires
            self.wf(),
            self.can_take(frame),
        ensures
            self.step(frame).wf(),
            self.report(frame) == self.step(frame).tracked_stracks,
    {
        self.lemma_pass_valid(frame);
        let pass = self.pass(frame);
        let next = self.step(frame);
        let n = self.stored().len();
        let na = self.active(frame).len();
        pass.tracks_have_one_origin();
        pass.detections_are_used_once();
        pass.lemma_selections();
        self.lemma_split(frame.detections);
        assert forall|x: int| 0 <= x < next.stored().len() implies {
            &&& next.sound(#[trigger] next.stored()[x])
            &&& next.stored()[x].track_id == self.id_of(pass.origins()[x])
        } by {
            if x < na {
                self.lemma_active(frame, x);
                assert(next.stored()[x] == self.active(frame)[x].0);
                let o = pass.origins()[x];
                assert(o == pass.active_origins()[x]);
                if o < n {
                    assert(self.sound(self.stored()[o]));
                }
            } else {
                self.lemma_lost(frame, x - na);
                assert(next.stored()[x] == pass.lost()[x - na]);
                assert(pass.origins()[x] == pass.lost_origins()[x - na]);
                assert(self.sound(self.stored()[pass.origins()[x]]));
            }
        }
        assert forall|i: int, j: int| 0 <= i < j < next.stored().len() implies (
        #[trigger] next.stored()[i]).track_id != (#[trigger] next.stored()[j]).track_id by {
            let (o, p) = (pass.origins()[i], pass.origins()[j]);
            assert(o != p);
            self.lemma_ids_differ(o, p);
        }
        assert forall|i: int| 0 <= i < next.tracked_stracks.len() implies (
        #[trigger] next.tracked_stracks[i]).state == TrackState::Tracking
            && next.tracked_stracks[i].frame_id == next.frame_id
            && next.tracked_stracks[i].is_activated by {
            self.lemma_active(frame, i);
        }
        assert forall|i: int| 0 <= i < next.lost_stracks.len() implies (
        #[trigger] next.lost_stracks[i]).state == TrackState::Lost && 1 <= next.frame_id
            - next.lost_stracks[i].frame_id <= next.horizon() by {
            self.lemma_lost(frame, i);
        }
        lemma_filter_all(next.tracked_stracks, |t: STrack| t.is_activated);
    }

    /// No two tracks that a frame reports share an ID.
    pub proof fn active_ids_are_unique(self, frame: Frame, i: int, j: int)
        requires
            self.wf(),
            self.can_take(frame),
            0 <= i < self.report(frame).len(),
            0 <= j < self.report(frame).len(),
            i != j,
        ensures
            self.report(frame)[i].track_id != self.report(frame)[j].track_id,
    {
        self.step_keeps_wf(frame);
        let next = self.step(frame);
        let (a, b) = if i < j {
            (i, j)
        } else {
            (j, i)
        };
        assert(next.stored()[a] == next.tracked_stracks[a]);
        assert(next.stored()[b] == next.tracked_stracks[b]);
        assert(next.stored()[a].track_id != next.stored()[b].track_id);
    }

    /// Every track that a frame reports is activated, in the tracked state, and was
    /// matched in this very frame.
    pub proof fn reported_tracks_are_current(self, frame: Frame, i: int)
        requires
            self.wf(),
            self.can_take(frame),
            0 <= i < self.report(frame).len(),
        ensures
            self.report(frame)[i].state == TrackState::Tracking,
            self.report(frame)[i].is_activated,
            self.report(frame)[i].frame_id == self.frame_id + 1,
    {
        self.step_keeps_wf(frame);
        self.lemma_active(frame, i);
    }

    /// Whether a track is the continuation of another: it has the ID, the class and the
    /// first frame of that one.
    pub open spec fn continues(old_track: STrack, new_track: STrack) -> bool {
        &&& new_track.track_id == old_track.track_id
        &&& new_track.class_id == old_track.class_id
        &&& new_track.start_frame == old_track.start_frame
    }

    /// A track keeps its ID, class and first frame for life: a track stored after a
    /// frame continues one stored before, or it is new, started in this frame under an
    /// ID that was never given before.
    pub proof fn tracks_keep_their_identity(self, frame: Frame, x: int)
        requires
            self.wf(),
            self.can_take(frame),
            0 <= x < self.step(frame).stored().len(),
        ensures
            ({
                let t = self.step(frame).stored()[x];
                ||| exists|o: int|
                    0 <= o < self.stored().len() && Self::continues(
                        #[trigger] self.stored()[o],
                        t,
                    )
                ||| t.track_id >= self.next_id && t.start_frame == self.frame_id + 1
            }),
    {
        let na = self.active(frame).len();
        let t = self.step(frame).stored()[x];
        if x < na {
            self.lemma_active(frame, x);
            assert(t == self.active(frame)[x].0);
            let o = self.pass(frame).active_origins()[x];
            if o < self.stored().len() {
                assert(Self::continues(self.stored()[o], t));
            }
        } else {
            self.lemma_lost(frame, x - na);
            assert(t == self.pass(frame).lost()[x - na]);
            assert(Self::continues(self.stored()[self.pass(frame).lost_origins()[x - na]], t));
        }
    }

    /// IDs are sequential: the new tracks of a frame, in the order of their detections,
    /// are given the next unused IDs, and the frame uses up no others.
    pub proof fn new_ids_are_sequential(self, frame: Frame, k: int)
        requires
            self.wf(),
            self.can_take(frame),
            0 <= k < self.pass(frame).starters().len(),
        ensures
            ({
                let pass = self.pass(frame);
                let at = pass.continued().len() + pass.recovered().len() + k;
                let t = self.step(frame).tracked_stracks[at];
                &&& at < self.step(frame).tracked_stracks.len()
                &&& t.track_id == self.next_id + k
                &&& t.start_frame == self.frame_id + 1
                &&& self.step(frame).next_id == self.next_id + pass.starters().len()
            }),
    {
        let pass = self.pass(frame);
        self.lemma_pass_valid(frame);
        pass.lemma_selections();
        let at = pass.continued().len() + pass.recovered().len() + k;
        assert(pass.active_origins()[at] == self.stored().len() + k);
        self.lemma_active(frame, at);
    }

    /// Only a detection of high confidence whose score is not below the init threshold,
    /// and which no track took in the first stage, starts a track. The track has its box,
    /// score and class.
    pub proof fn only_strong_detections_start_tracks(self, frame: Frame, k: int)
        requires
            self.wf(),
            self.can_take(frame),
            0 <= k < self.pass(frame).starters().len(),
        ensures
            ({
                let pass = self.pass(frame);
                let j = pass.starters()[k];
                let d = frame.detections[self.high_indices(frame.detections)[j as int] as int];
                let t = self.step(frame).tracked_stracks[pass.continued().len()
                    + pass.recovered().len() + k];
                &&& self.track_thresh.at_most(d.1)
                &&& !d.1.less_than(self.det_thresh)
                &&& !assignment::column_taken(pass.first_matches(), j)
                &&& t.tlwh == d.0
                &&& t.score == d.1
                &&& t.class_id == d.2
            }),
    {
        let pass = self.pass(frame);
        let dets = frame.detections;
        self.lemma_pass_valid(frame);
        pass.lemma_selections();
        self.lemma_split(dets);
        let p = |i: usize| self.is_high(dets[i as int].1);
        indices::lemma_select(dets.len(), p);
        let strong = |j: usize|
            !assignment::column_taken(pass.first_matches(), j)
                && !pass.high[j as int].score_of().less_than(pass.det_thresh);
        indices::lemma_select(pass.high.len(), strong);
        let j = pass.starters()[k];
        assert(strong(j));
        assert(p(self.high_indices(dets)[j as int]));
        let at = pass.continued().len() + pass.recovered().len() + k;
        assert(self.active(frame)[at as int] == STrack::spawned(
            pass.high[j as int],
            pass.frame_id,
            (pass.next_id + k) as u64,
        ));
    }

    /// The first stage is class-strict: unless the cutoff admits the prohibitive cost, a
    /// track is matched with a high confidence detection of its own class only.
    pub proof fn first_stage_is_class_strict(self, frame: Frame, k: int)
        requires
            self.wf(),
            self.can_take(frame),
            !(Single { bits: MAX_BITS }).at_most(self.match_thresh),
            0 <= k < self.pass(frame).first_matches().len(),
        ensures
            ({
                let m = self.pass(frame).first_matches()[k];
                let d = frame.detections[self.high_indices(frame.detections)[m.1 as int] as int];
                self.stored()[m.0 as int].class_id == d.2
            }),
    {
        let pass = self.pass(frame);
        self.lemma_pass_valid(frame);
        pass.lemma_parts();
        crate::conservation::lemma_stage(
            pass.pool.len(),
            pass.high.len(),
            pass.stage1_cost,
            pass.match_thresh,
        );
        let m = pass.first_matches()[k];
        assert(assignment::admissible(pass.stage1_cost, pass.match_thresh, m));
    }

    /// The first stage matches a pair of one class only at or below its cutoff, and leaves no
    /// track and no high confidence detection of one class both unmatched at or below it.
    pub proof fn first_stage_goes_by_its_cutoff(self, frame: Frame, i: usize, j: usize)
        requires
            self.wf(),
            self.can_take(frame),
            i < self.stored().len(),
            j < self.high_indices(frame.detections).len(),
            self.stored()[i as int].class_id == frame.detections[self.high_indices(
                frame.detections,
            )[j as int] as int].2,
        ensures
            ({
                let matches = self.pass(frame).first_matches();
                let distance = frame.iou_cost[i as int][self.high_indices(
                    frame.detections,
                )[j as int] as int];
                &&& matches.contains((i, j)) ==> distance.at_most(self.match_thresh)
                &&& distance.at_most(self.match_thresh) ==> assignment::row_taken(matches, i)
                    || assignment::column_taken(matches, j)
            }),
    {
        let pass = self.pass(frame);
        self.lemma_pass_valid(frame);
        crate::conservation::lemma_stage(
            pass.pool.len(),
            pass.high.len(),
            pass.stage1_cost,
            pass.match_thresh,
        );
        assert(assignment::entry(pass.stage1_cost, (i, j))
            == frame.iou_cost[i as int][self.high_indices(frame.detections)[j as int] as int]);
        assert(pass.stage1_cost[0].len() == pass.high.len());
        if pass.first_matches().contains((i, j)) {
            let k = choose|k: int|
                0 <= k < pass.first_matches().len() && pass.first_matches()[k] == (i, j);
            assert(assignment::admissible(
                pass.stage1_cost,
                pass.match_thresh,
                pass.first_matches()[k],
            ));
        }
        if assignment::entry(pass.stage1_cost, (i, j)).at_most(self.match_thresh) {
            assignment::no_admissible_pair_is_left(pass.stage1_cost, pass.match_thresh, (i, j));
        }
    }

    /// The second stage is class-strict too: unless its cutoff admits the prohibitive cost, a
    /// track is matched with a low confidence detection of its own class only.
    pub proof fn second_stage_is_class_strict(self, frame: Frame, k: int)
        requires
            self.wf(),
            self.can_take(frame),
            !(Single { bits: MAX_BITS }).at_most(self.second_match_thresh),
            0 <= k < self.pass(frame).second_matches().len(),
        ensures
            ({
                let m = self.pass(frame).second_matches()[k];
                let i = self.pass(frame).leftover()[m.0 as int];
                let d = frame.detections[self.low_indices(frame.detections)[m.1 as int] as int];
                self.stored()[i as int].class_id == d.2
            }),
    {
        let pass = self.pass(frame);
        self.lemma_pass_valid(frame);
        pass.lemma_parts();
        pass.lemma_selections();
        crate::conservation::lemma_stage(
            pass.leftover().len(),
            pass.low.len(),
            pass.second_cost(),
            pass.second_match_thresh,
        );
        let m = pass.second_matches()[k];
        let i = pass.leftover()[m.0 as int];
        assert(assignment::admissible(pass.second_cost(), pass.second_match_thresh, m));
        assert(assignment::entry(pass.second_cost(), m) == pass.second_entry(
            i as int,
            m.1 as int,
        ));
    }

    /// The second stage matches a leftover and a low confidence detection of one class only
    /// at or below its own cutoff, and leaves no two of one class both unmatched at or below
    /// it.
    #[verifier::rlimit(40)]
    pub proof fn second_stage_goes_by_its_cutoff(self, frame: Frame, l: usize, j: usize)
        requires
            self.wf(),
            self.can_take(frame),
            l < self.pass(frame).leftover().len(),
            j < self.low_indices(frame.detections).len(),
            self.stored()[self.pass(frame).leftover()[l as int] as int].class_id
                == frame.detections[self.low_indices(frame.detections)[j as int] as int].2,
        ensures
            ({
                let matches = self.pass(frame).second_matches();
                let distance = frame.iou_cost[self.pass(
                    frame,
                ).leftover()[l as int] as int][self.low_indices(
                    frame.detections,
                )[j as int] as int];
                &&& matches.contains((l, j)) ==> distance.at_most(self.second_match_thresh)
                &&& distance.at_most(self.second_match_thresh) ==> assignment::row_taken(
                    matches,
                    l,
                ) || assignment::column_taken(matches, j)
            }),
    {
        let pass = self.pass(frame);
        self.lemma_pass_valid(frame);
        pass.lemma_selections();
        let cost = pass.second_cost();
        crate::conservation::lemma_stage(
            pass.leftover().len(),
            pass.low.len(),
            cost,
            pass.second_match_thresh,
        );
        assert(cost[0].len() == pass.low.len());
        assert(assignment::entry(cost, (l, j)) == pass.second_entry(
            pass.leftover()[l as int] as int,
            j as int,
        ));
        if pass.second_matches().contains((l, j)) {
            let k = choose|k: int|
                0 <= k < pass.second_matches().len() && pass.second_matches()[k] == (l, j);
            assert(assignment::admissible(
                cost,
                pass.second_match_thresh,
                pass.second_matches()[k],
            ));
        }
        if assignment::entry(cost, (l, j)).at_most(self.second_match_thresh) {
            assignment::no_admissible_pair_is_left(cost, pass.second_match_thresh, (l, j));
        }
    }

    /// A tracked track that the second stage matches with a low confidence detection goes
    /// on under its own ID.
    pub proof fn low_confidence_matches_keep_the_id(self, frame: Frame, k: int)
        requires
            self.wf(),
            self.can_take(frame),
            0 <= k < self.pass(frame).second_matches().len(),
        ensures
            ({
                let pass = self.pass(frame);
                let m = pass.second_matches()[k];
                let before = self.stored()[pass.leftover()[m.0 as int] as int];
                let after = self.step(frame).tracked_stracks[pass.continued().len() + k];
                let d = frame.detections[self.low_indices(frame.detections)[m.1 as int] as int];
                &&& before.state == TrackState::Tracking
                &&& !self.track_thresh.at_most(d.1)
                &&& Self::continues(before, after)
                &&& after.tracklet_len == before.tracklet_len + 1
            }),
    {
        let pass = self.pass(frame);
        let dets = frame.detections;
        self.lemma_pass_valid(frame);
        pass.lemma_parts();
        pass.lemma_selections();
        let is_low = |k: usize| !self.is_high(dets[k as int].1);
        indices::lemma_select(dets.len(), is_low);
        let m = pass.second_matches()[k];
        assert(m.0 < pass.leftover().len() && m.1 < pass.low.len());
        let o = pass.leftover()[m.0 as int] as int;
        assert(is_low(self.low_indices(dets)[m.1 as int]));
        assert(self.active(frame)[pass.continued().len() + k] == pass.pool[o].updated(
            pass.low[m.1 as int],
            pass.frame_id,
        ));
        assert(pass.pool[o].in_tracked_state());
        assert(pass.pool[o].can_continue());
    }

    /// A lost track that the first stage matches comes back under its own ID.
    pub proof fn recovered_tracks_keep_their_id(self, frame: Frame, k: int)
        requires
            self.wf(),
            self.can_take(frame),
            0 <= k < self.pass(frame).returning().len(),
        ensures
            ({
                let pass = self.pass(frame);
                let before = self.stored()[pass.returning()[k].0 as int];
                let after = self.step(frame).tracked_stracks[pass.activated().len() + k];
                &&& before.state == TrackState::Lost
                &&& after.state == TrackState::Tracking
                &&& Self::continues(before, after)
                &&& after.tracklet_len == 0
            }),
    {
        let pass = self.pass(frame);
        self.lemma_pass_valid(frame);
        pass.lemma_parts();
        let m = pass.returning()[k];
        assert(pass.first_matches().contains(m));
        let at = pass.activated().len() + k;
        assert(self.active(frame)[at as int] == pass.pool[m.0 as int].reactivated(
            pass.high[m.1 as int],
            pass.frame_id,
        ));
        let n = self.tracked_stracks.len();
        assert(!pass.pool[m.0 as int].in_tracked_state());
        if m.0 < n {
            assert(self.stored()[m.0 as int] == self.tracked_stracks[m.0 as int]);
        } else {
            assert(self.stored()[m.0 as int] == self.lost_stracks[m.0 - n]);
        }
    }

    /// Whether the tracker stores a track under an ID.
    pub open spec fn stores(self, track_id: u64) -> bool {
        exists|i: int| 0 <= i < self.stored().len() && (#[trigger] self.stored()[i]).track_id
            == track_id
    }

    /// A stored track is dropped exactly if it was lost already, is not matched in the first
    /// stage, and its last match lies further back than the buffer. In particular a
    /// tracked track is never dropped at once.
    #[verifier::rlimit(40)]
    pub proof fn only_expired_tracks_are_dropped(self, frame: Frame, i: usize)
        requires
            self.wf(),
            self.can_take(frame),
            i < self.stored().len(),
        ensures
            !self.step(frame).stores(self.stored()[i as int].track_id) <==> {
                &&& self.stored()[i as int].state == TrackState::Lost
                &&& !assignment::row_taken(self.pass(frame).first_matches(), i)
                &&& self.frame_id + 1 - self.stored()[i as int].frame_id > self.buffer_size
            },
    {
        let pass = self.pass(frame);
        let next = self.step(frame);
        let id = self.stored()[i as int].track_id;
        let na = self.active(frame).len();
        self.lemma_pass_valid(frame);
        pass.tracks_have_one_origin();
        pass.only_expired_tracks_vanish(i);
        assert forall|x: int| 0 <= x < next.stored().len() implies (
        #[trigger] next.stored()[x]).track_id == self.id_of(pass.origins()[x]) by {
            if x < na {
                self.lemma_active(frame, x);
                assert(next.stored()[x] == self.active(frame)[x].0);
                assert(pass.origins()[x] == pass.active_origins()[x]);
            } else {
                self.lemma_lost(frame, x - na);
                assert(next.stored()[x] == pass.lost()[x - na]);
                assert(pass.origins()[x] == pass.lost_origins()[x - na]);
            }
        }
        assert(next.stored().len() == pass.origins().len());
        if pass.origins().contains(i as int) {
            let x = choose|x: int| 0 <= x < pass.origins().len() && pass.origins()[x] == i;
            assert(next.stored()[x].track_id == id);
        }
        if next.stores(id) {
            let x = choose|x: int|
                0 <= x < next.stored().len() && (#[trigger] next.stored()[x]).track_id == id;
            if pass.origins()[x] != i {
                self.lemma_ids_differ(pass.origins()[x], i as int);
            }
        }
        let n = self.tracked_stracks.len();
        if i < n {
            assert(self.stored()[i as int] == self.tracked_stracks[i as int]);
        } else {
            assert(self.stored()[i as int] == self.lost_stracks[i - n]);
        }
        assert(pass.pool[i as int].last_frame() == self.stored()[i as int].frame_id);
    }

    /// A frame without detections reports nothing, starts nothing, and turns every
    /// tracked track into a lost one with all else but the predicted box unchanged.
    #[verifier::rlimit(40)]
    pub proof fn tracks_are_lost_without_detections(self, frame: Frame)
        requires
            self.wf(),
            self.can_take(frame),
            frame.detections.len() == 0,
        ensures
            self.report(frame).len() == 0,
            self.step(frame).next_id == self.next_id,
            self.tracked_stracks.len() <= self.step(frame).lost_stracks.len(),
            forall|i: int|
                0 <= i < self.tracked_stracks.len() ==> #[trigger] self.step(frame).lost_stracks[i]
                    == (STrack {
                    state: TrackState::Lost,
                    tlwh: frame.predictions[i],
                    ..self.tracked_stracks[i]
                }),
    {
        let pass = self.pass(frame);
        self.lemma_pass_valid(frame);
        self.lemma_split(frame.detections);
        pass.detections_are_used_once();
        pass.lemma_selections();
        self.step_keeps_wf(frame);
        let n = self.tracked_stracks.len();
        assert(pass.first_matches() =~= Seq::empty());
        assert(pass.second_matches() =~= Seq::empty());
        assert forall|i: usize| i < n implies pass.pool[i as int].in_tracked_state()
            && !pass.pool[i as int].in_lost_state() by {
            assert(self.stored()[i as int] == self.tracked_stracks[i as int]);
        }
        lemma_select_prefix(
            pass.pool.len(),
            n,
            |i: usize|
                !assignment::row_taken(pass.first_matches(), i)
                    && pass.pool[i as int].in_tracked_state(),
        );
        lemma_select_prefix(
            n,
            n,
            |l: usize|
                !assignment::row_taken(pass.second_matches(), l)
                    && !pass.pool[pass.leftover()[l as int] as int].in_lost_state(),
        );
    }

    /// For each active track of a frame, in order: the detection that it took.
    pub open spec fn uses(self, frame: Frame) -> Seq<int> {
        let pass = self.pass(frame);
        let high = self.high_indices(frame.detections);
        let low = self.low_indices(frame.detections);
        pass.continuing().map_values(|m: (usize, usize)| high[m.1 as int] as int)
            + pass.second_matches().map_values(|m: (usize, usize)| low[m.1 as int] as int)
            + pass.starters().map_values(|j: usize| high[j as int] as int)
            + pass.returning().map_values(|m: (usize, usize)| high[m.1 as int] as int)
    }

    /// Each reported track carries the box and the score of a detection of the
    /// frame, and no two tracks carry the same detection. So a frame reports no more
    /// tracks than it has detections.
    #[verifier::rlimit(40)]
    pub proof fn reported_tracks_carry_distinct_detections(self, frame: Frame)
        requires
            self.wf(),
            self.can_take(frame),
        ensures
            self.uses(frame).len() == self.report(frame).len(),
            self.uses(frame).no_duplicates(),
            forall|x: int|
                0 <= x < self.report(frame).len() ==> 0 <= #[trigger] self.uses(frame)[x]
                    < frame.detections.len() && self.report(frame)[x].tlwh
                    == frame.detections[self.uses(frame)[x]].0 && self.report(frame)[x].score
                    == frame.detections[self.uses(frame)[x]].1,
            self.report(frame).len() <= frame.detections.len(),
    {
        let pass = self.pass(frame);
        let dets = frame.detections;
        let high = self.high_indices(dets);
        let low = self.low_indices(dets);
        self.lemma_pass_valid(frame);
        self.step_keeps_wf(frame);
        pass.lemma_parts();
        pass.lemma_selections();
        pass.detections_are_used_once();
        self.lemma_split(dets);
        let is_high = |k: usize| self.is_high(dets[k as int].1);
        let is_low = |k: usize| !self.is_high(dets[k as int].1);
        indices::lemma_select(dets.len(), is_high);
        indices::lemma_select(dets.len(), is_low);
        let u = self.uses(frame);
        let (na, nb) = (pass.continuing().len(), pass.second_matches().len());
        let (nc, nd) = (pass.starters().len(), pass.returning().len());
        let hu = pass.high_uses();
        // The place of an active track among those that took a high detection.
        let place = |x: int|
            if x < na {
                x
            } else {
                x - nb
            };
        assert forall|x: int| 0 <= x < u.len() && !(na <= x < na + nb) implies {
            &&& 0 <= #[trigger] place(x) < hu.len()
            &&& 0 <= hu[place(x)] < high.len()
            &&& u[x] == high[hu[place(x)]]
            &&& self.is_high(dets[u[x]].1)
        } by {
            if x < na {
                assert(hu[x] == pass.continuing()[x].1);
            } else if x < na + nb + nc {
                assert(hu[x - nb] == pass.starters()[x - na - nb]);
            } else {
                assert(hu[x - nb] == pass.returning()[x - na - nb - nc].1);
            }
            assert(0 <= hu[place(x)] < pass.high.len());
            assert(is_high(high[hu[place(x)]]));
        }
        assert forall|x: int| na <= x < na + nb implies {
            &&& 0 <= pass.second_matches()[x - na].1 < low.len()
            &&& #[trigger] u[x] == low[pass.second_matches()[x - na].1 as int]
            &&& !self.is_high(dets[u[x]].1)
        } by {
            let j = pass.second_matches()[x - na].1;
            assert(j < pass.low.len());
            assert(is_low(low[j as int]));
        }
        assert forall|x: int, y: int| 0 <= x < y < u.len() implies u[x] != u[y] by {
            let (mx, my) = (na <= x < na + nb, na <= y < na + nb);
            if !mx && !my {
                let (a, b) = (place(x), place(y));
                assert(a != b);
                assert(hu[a] != hu[b]);
                if hu[a] < hu[b] {
                    assert(high[hu[a]] < high[hu[b]]);
                } else {
                    assert(high[hu[b]] < high[hu[a]]);
                }
            } else if mx && my {
                let s = pass.second_matches();
                let (a, b) = (s[x - na], s[y - na]);
                assert(a.1 != b.1);
                if a.1 < b.1 {
                    assert(low[a.1 as int] < low[b.1 as int]);
                } else {
                    assert(low[b.1 as int] < low[a.1 as int]);
                }
            } else if mx {
                assert(0 <= place(y) < hu.len());
            } else {
                assert(0 <= place(x) < hu.len());
            }
        }
        assert forall|x: int| 0 <= x < u.len() implies 0 <= #[trigger] u[x] < dets.len()
            && self.active(frame)[x].0.tlwh == dets[u[x]].0 && self.active(frame)[x].0.score
            == dets[u[x]].1 by {
            if x < na {
                let m = pass.continuing()[x];
                assert(0 <= place(x) < hu.len());
                assert(self.active(frame)[x] == pass.pool[m.0 as int].updated(
                    pass.high[m.1 as int],
                    pass.frame_id,
                ));
                assert(pass.high[m.1 as int] == STrack::fresh(dets[u[x]]));
            } else if x < na + nb {
                let m = pass.second_matches()[x - na];
                assert(self.active(frame)[x]
                    == pass.pool[pass.leftover()[m.0 as int] as int].updated(
                    pass.low[m.1 as int],
                    pass.frame_id,
                ));
                assert(pass.low[m.1 as int] == STrack::fresh(dets[u[x]]));
            } else if x < na + nb + nc {
                let k = x - na - nb;
                assert(0 <= place(x) < hu.len());
                assert(self.active(frame)[x] == STrack::spawned(
                    pass.high[pass.starters()[k] as int],
                    pass.frame_id,
                    (pass.next_id + k) as u64,
                ));
                assert(pass.high[pass.starters()[k] as int] == STrack::fresh(dets[u[x]]));
            } else {
                let m = pass.returning()[x - na - nb - nc];
                assert(0 <= place(x) < hu.len());
                assert(self.active(frame)[x] == pass.pool[m.0 as int].reactivated(
                    pass.high[m.1 as int],
                    pass.frame_id,
                ));
                assert(pass.high[m.1 as int] == STrack::fresh(dets[u[x]]));
            }
        }
        assignment::lemma_distinct_below(u, dets.len());
    }

    /// A track never consumes a detection of another class, in neither stage: unless a cutoff
    /// admits the prohibitive cost, each reported track has the class of the detection
    /// that it took.
    pub proof fn association_is_class_strict(self, frame: Frame, x: int)
        requires
            self.wf(),
            self.can_take(frame),
            !(Single { bits: MAX_BITS }).at_most(self.match_thresh),
            !(Single { bits: MAX_BITS }).at_most(self.second_match_thresh),
            0 <= x < self.report(frame).len(),
        ensures
            self.report(frame)[x].class_id == frame.detections[self.uses(frame)[x]].2,
    {
        let pass = self.pass(frame);
        self.step_keeps_wf(frame);
        self.lemma_pass_valid(frame);
        pass.lemma_parts();
        pass.lemma_selections();
        let first = pass.first_matches();
        let (na, nb) = (pass.continuing().len(), pass.second_matches().len());
        let nc = pass.starters().len();
        if x < na {
            let m = pass.continuing()[x];
            assert(first.contains(m));
            let k = choose|k: int| 0 <= k < first.len() && first[k] == m;
            self.first_stage_is_class_strict(frame, k);
            assert(self.active(frame)[x] == pass.pool[m.0 as int].updated(
                pass.high[m.1 as int],
                pass.frame_id,
            ));
        } else if x < na + nb {
            let m = pass.second_matches()[x - na];
            self.second_stage_is_class_strict(frame, x - na);
            assert(self.active(frame)[x] == pass.recovery(m));
        } else if x < na + nb + nc {
            self.only_strong_detections_start_tracks(frame, x - na - nb);
        } else {
            let m = pass.returning()[x - na - nb - nc];
            assert(first.contains(m));
            let k = choose|k: int| 0 <= k < first.len() && first[k] == m;
            self.first_stage_is_class_strict(frame, k);
            assert(self.active(frame)[x] == pass.pool[m.0 as int].reactivated(
                pass.high[m.1 as int],
                pass.frame_id,
            ));
        }
    }

    /// A frame asks for one filter step for each reported track: a track that the
    /// frame started has a filter initiated at its box, any other is corrected with its box.
    pub proof fn each_reported_track_steps_its_filter(self, frame: Frame, x: int)
        requires
            self.wf(),
            self.can_take(frame),
            0 <= x < self.report(frame).len(),
        ensures
            self.motion(frame).len() == self.report(frame).len(),
            ({
                let t = self.report(frame)[x];
                self.motion(frame)[x] == (MotionRequest {
                    track_id: t.track_id,
                    step: if t.start_frame == t.frame_id {
                        KalmanStep::Initiate(t.tlwh)
                    } else {
                        KalmanStep::Update(t.tlwh)
                    },
                })
            }),
    {
        self.step_keeps_wf(frame);
        self.lemma_active(frame, x);
        let o = self.pass(frame).active_origins()[x];
        if o < self.stored().len() {
            assert(self.sound(self.stored()[o]));
        }
    }

    /// The prediction of a stored track clears the velocity of the height exactly if the
    /// track is lost.
    pub proof fn only_lost_tracks_clear_their_height_velocity(self, i: int)
        requires
            self.wf(),
            0 <= i < self.stored().len(),
        ensures
            self.stored()[i].prediction().step == (KalmanStep::Predict {
                clear_height_velocity: i >= self.tracked_stracks.len(),
            }),
    {
        let n = self.tracked_stracks.len();
        if i < n {
            assert(self.stored()[i] == self.tracked_stracks[i]);
        } else {
            assert(self.stored()[i] == self.lost_stracks[i - n]);
        }
    }

    /// Settings that differ in `min_hits` only make the same tracker.
    pub proof fn min_hits_has_no_effect(params: ByteTrackParams, min_hits: usize)
        ensures
            TrackerView::initial(
                (ByteTrackParams {
                    common: CommonParams { min_hits, ..params.common },
                    ..params
                }),
            ) == TrackerView::initial(params),
    {
    }

    /// The ID of a stored track, or of the new track after them.
    spec fn id_of(self, origin: int) -> int {
        if origin < self.stored().len() {
            self.stored()[origin].track_id as int
        } else {
            self.next_id + (origin - self.stored().len())
        }
    }

    proof fn lemma_ids_differ(self, o: int, p: int)
        requires
            self.wf(),
            0 <= o,
            0 <= p,
            o != p,
        ensures
            self.id_of(o) != self.id_of(p),
    {
        let n = self.stored().len();
        if o < n {
            assert(self.sound(self.stored()[o]));
        }
        if p < n {
            assert(self.sound(self.stored()[p]));
        }
        if o < n && p < n {
            if o < p {
                assert(self.stored()[o].track_id != self.stored()[p].track_id);
            } else {
                assert(self.stored()[p].track_id != self.stored()[o].track_id);
            }
        }
    }
}

/// Filtering by what holds of all elements changes nothing.
pub(crate) proof fn lemma_filter_all<A>(s: Seq<A>, p: spec_fn(A) -> bool)
    requires
        forall|k: int| 0 <= k < s.len() ==> p(#[trigger] s[k]),
    ensures
        s.filter(p) == s,
    decreases s.len(),
{
    reveal(Seq::filter);
    if s.len() > 0 {
        lemma_filter_all(s.drop_last(), p);
        assert(s.drop_last().push(s.last()) =~= s);
    }
}

/// Indices that satisfy a predicate exactly below `m` are selected as they are.
proof fn lemma_select_prefix(n: nat, m: nat, p: spec_fn(usize) -> bool)
    requires
        m <= n <= usize::MAX,
        forall|i: usize| i < n ==> (#[trigger] p(i) <==> i < m),
    ensures
        indices::select(n, p).len() == m,
        forall|k: int| 0 <= k < m ==> #[trigger] indices::select(n, p)[k] == k,
    decreases n,
{
    if n > 0 {
        let last = (n - 1) as usize;
        assert(p(last) <==> last < m);
        if n == m {
            lemma_select_prefix((n - 1) as nat, (m - 1) as nat, p);
        } else {
            lemma_select_prefix((n - 1) as nat, m, p);
        }
    }
}

} // verus!
