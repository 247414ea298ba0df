//! What holds of the tracker after any number of frames.

use crate::byte_track::{ByteTrackParams, Frame, STrack, TrackerView};
use vstd::prelude::*;

verus! {

/// The tracker after the given frames.
pub open spec fn after(start: TrackerView, frames: Seq<Frame>) -> TrackerView
    decreases frames.len(),
{
    if frames.len() == 0 {
        start
    } else {
        after(start, frames.drop_last()).step(frames.last())
    }
}

/// Whether the tracker can take the given frames one after the other.
pub open spec fn playable(start: TrackerView, frames: Seq<Frame>) -> bool
    decreases frames.len(),
{
    frames.len() == 0 || {
        &&& playable(start, frames.drop_last())
        &&& after(start, frames.drop_last()).can_take(frames.last())
    }
}

/// The number of detections in the frames from index `from` on.
pub open spec fn detections_since(frames: Seq<Frame>, from: int) -> nat
    decreases frames.len(),
{
    if frames.len() == 0 || frames.len() <= from {
        0
    } else {
        detections_since(frames.drop_last(), from) + frames.last().detections.len()
    }
}

/// Whatever frames a new tracker takes, it is well-formed, counts them, and keeps its
/// buffer size.
#[verifier::rlimit(40)]
pub proof fn every_reachable_tracker_is_wf(params: ByteTrackParams, frames: Seq<Frame>)
    requires
        playable(TrackerView::initial(params), frames),
    ensures
        after(TrackerView::initial(params), frames).wf(),
        after(TrackerView::initial(params), frames).frame_id == frames.len(),
        after(TrackerView::initial(params), frames).buffer_size == params.common.max_age,
    decreases frames.len(),
{
    if frames.len() > 0 {
        every_reachable_tracker_is_wf(params, frames.drop_last());
        after(TrackerView::initial(params), frames.drop_last()).step_keeps_wf(frames.last());
    }
}

/// The settings of a tracker are those that it was made with, whatever frames it takes.
#[verifier::rlimit(40)]
pub proof fn settings_never_change(params: ByteTrackParams, frames: Seq<Frame>)
    requires
        playable(TrackerView::initial(params), frames),
    ensures
        ({
            let now = after(TrackerView::initial(params), frames);
            &&& now.frame_id == frames.len()
            &&& now.buffer_size == params.common.max_age
            &&& now.track_thresh == params.track_thresh
            &&& now.match_thresh == params.match_thresh
            &&& now.det_thresh == params.det_thresh
            &&& now.second_match_thresh == params.second_match_thresh
        }),
    decreases frames.len(),
{
    if frames.len() > 0 {
        settings_never_change(params, frames.drop_last());
        after(TrackerView::initial(params), frames.drop_last()).a_frame_keeps_the_settings(
            frames.last(),
        );
    }
}

/// The tracks that were matched in frame `since` or later.
spec fn recent(tracks: Seq<STrack>, since: int) -> Seq<STrack> {
    tracks.filter(|t: STrack| t.frame_id >= since)
}

/// The positions of the elements that satisfy a predicate.
spec fn positions<A>(s: Seq<A>, p: spec_fn(A) -> bool) -> Set<int> {
    Set::new(|i: int| 0 <= i < s.len() && p(s[i]))
}

proof fn lemma_positions<A>(s: Seq<A>, p: spec_fn(A) -> bool)
    ensures
        positions(s, p).finite(),
        positions(s, p).len() == s.filter(p).len(),
    decreases s.len(),
{
    reveal(Seq::filter);
    if s.len() == 0 {
        assert(positions(s, p) =~= Set::empty());
    } else {
        let short = s.drop_last();
        lemma_positions(short, p);
        let last = s.len() - 1;
        assert forall|i: int| positions(short, p).contains(i) implies positions(s, p).contains(
            i,
        ) by {
            assert(short[i] == s[i]);
        }
        if p(s.last()) {
            assert(positions(s, p) =~= positions(short, p).insert(last));
        } else {
            assert(positions(s, p) =~= positions(short, p));
        }
    }
}

/// If the elements of `s` stand for distinct elements of `t` that agree with
/// them on a predicate, it holds of no more elements of `s` than of `t`.
proof fn lemma_filter_inject<A>(s: Seq<A>, t: Seq<A>, origin: Seq<int>, p: spec_fn(A) -> bool)
    requires
        origin.len() == s.len(),
        origin.no_duplicates(),
        forall|x: int| 0 <= x < s.len() ==> 0 <= #[trigger] origin[x] < t.len(),
        forall|x: int| 0 <= x < s.len() ==> p(#[trigger] s[x]) == p(t[origin[x]]),
    ensures
        s.filter(p).len() <= t.filter(p).len(),
{
    lemma_positions(s, p);
    lemma_positions(t, p);
    let f = |x: int| origin[x];
    let a = positions(s, p);
    let image = a.map(f);
    assert(vstd::relations::injective_on(f, a));
    vstd::set_lib::lemma_map_size(a, image, f);
    assert(image.subset_of(positions(t, p))) by {
        assert forall|o: int| image.contains(o) implies positions(t, p).contains(o) by {
            let x = choose|x: int| a.contains(x) && f(x) == o;
            assert(p(s[x]));
        }
    }
    vstd::set_lib::lemma_len_subset(image, positions(t, p));
}

/// One frame adds at most its detections to the recently matched tracks.
#[verifier::rlimit(40)]
proof fn lemma_recent_step(before: TrackerView, frame: Frame, since: int)
    requires
        before.wf(),
        before.can_take(frame),
    ensures
        recent(before.step(frame).stored(), since).len() <= recent(before.stored(), since).len()
            + frame.detections.len(),
{
    let p = |t: STrack| t.frame_id >= since;
    let next = before.step(frame);
    let pass = before.pass(frame);
    before.reported_tracks_carry_distinct_detections(frame);
    before.step_keeps_wf(frame);
    before.lemma_pass_valid(frame);
    pass.tracks_have_one_origin();
    Seq::filter_distributes_over_add(next.tracked_stracks, next.lost_stracks, p);
    next.tracked_stracks.lemma_filter_len(p);
    let origin = pass.lost_origins();
    assert(origin.no_duplicates()) by {
        assert forall|x: int, y: int| 0 <= x < y < origin.len() implies origin[x] != origin[y] by {
            let n = pass.active_origins().len();
            assert(origin[x] == pass.origins()[n + x]);
            assert(origin[y] == pass.origins()[n + y]);
        }
    }
    assert forall|x: int| 0 <= x < next.lost_stracks.len() implies p(
        #[trigger] next.lost_stracks[x],
    ) == p(before.stored()[origin[x]]) by {
        before.lemma_lost(frame, x);
    }
    lemma_filter_inject(next.lost_stracks, before.stored(), origin, p);
}

#[verifier::rlimit(40)]
proof fn lemma_recent_bound(params: ByteTrackParams, frames: Seq<Frame>, since: int)
    requires
        playable(TrackerView::initial(params), frames),
    ensures
        recent(after(TrackerView::initial(params), frames).stored(), since).len()
            <= detections_since(frames, since - 1),
    decreases frames.len(),
{
    let start = TrackerView::initial(params);
    let now = after(start, frames);
    let p = |t: STrack| t.frame_id >= since;
    every_reachable_tracker_is_wf(params, frames);
    if frames.len() == 0 {
        assert(now.stored() =~= Seq::empty());
        now.stored().lemma_filter_len(p);
    } else if frames.len() <= since - 1 {
        let r = recent(now.stored(), since);
        if r.len() > 0 {
            now.stored().lemma_filter_pred(p, 0);
            crate::cascade::lemma_filter_member(now.stored(), p, 0);
            let i = choose|i: int| 0 <= i < now.stored().len() && now.stored()[i] == r[0];
            assert(now.sound(now.stored()[i]));
        }
    } else {
        let shorter = frames.drop_last();
        every_reachable_tracker_is_wf(params, shorter);
        lemma_recent_bound(params, shorter, since);
        lemma_recent_step(after(start, shorter), frames.last(), since);
    }
}

/// Storage is bounded by the buffer window and does not grow with the frame count: the
/// tracker stores no more tracks than there were detections in the current frame and
/// in as many frames before it as the buffer holds (at least one).
#[verifier::rlimit(40)]
pub proof fn storage_is_bounded(params: ByteTrackParams, frames: Seq<Frame>)
    requires
        playable(TrackerView::initial(params), frames),
    ensures
        ({
            let now = after(TrackerView::initial(params), frames);
            now.stored().len() <= detections_since(frames, frames.len() - 1 - now.horizon())
        }),
{
    every_reachable_tracker_is_wf(params, frames);
    let now = after(TrackerView::initial(params), frames);
    lemma_all_recent(now);
    lemma_recent_bound(params, frames, frames.len() - now.horizon());
}

/// All stored tracks were matched within the horizon.
proof fn lemma_all_recent(now: TrackerView)
    requires
        now.wf(),
    ensures
        recent(now.stored(), now.frame_id - now.horizon()) == now.stored(),
{
    let since = now.frame_id - now.horizon();
    let p = |t: STrack| t.frame_id >= since;
    assert forall|i: int| 0 <= i < now.stored().len() implies p(#[trigger] now.stored()[i]) by {
        let n = now.tracked_stracks.len();
        if i < n {
            assert(now.stored()[i] == now.tracked_stracks[i]);
        } else {
            assert(now.stored()[i] == now.lost_stracks[i - n]);
        }
    }
    crate::laws::lemma_filter_all(now.stored(), p);
}

/// An ID, once given, is never given again: from some point on, a track under an ID
/// that had been given by then is always the continuation of the track that was
/// stored under it, with its class and first frame.
#[verifier::rlimit(40)]
pub proof fn ids_are_never_reused(start: TrackerView, frames: Seq<Frame>, x: int)
    requires
        start.wf(),
        playable(start, frames),
        0 <= x < after(start, frames).stored().len(),
        after(start, frames).stored()[x].track_id < start.next_id,
    ensures
        after(start, frames).wf(),
        exists|o: int|
            0 <= o < start.stored().len() && TrackerView::continues(
                #[trigger] start.stored()[o],
                after(start, frames).stored()[x],
            ),
    decreases frames.len(),
{
    let now = after(start, frames);
    if frames.len() == 0 {
        assert(TrackerView::continues(start.stored()[x], now.stored()[x]));
    } else {
        let before = after(start, frames.drop_last());
        lemma_progress(start, frames.drop_last());
        before.step_keeps_wf(frames.last());
        before.tracks_keep_their_identity(frames.last(), x);
        let t = now.stored()[x];
        let y = choose|y: int|
            0 <= y < before.stored().len() && TrackerView::continues(#[trigger] before.stored()[y], t);
        ids_are_never_reused(start, frames.drop_last(), y);
        let o = choose|o: int|
            0 <= o < start.stored().len() && TrackerView::continues(
                #[trigger] start.stored()[o],
                before.stored()[y],
            );
        assert(TrackerView::continues(start.stored()[o], t));
    }
}

#[verifier::rlimit(40)]
proof fn lemma_progress(start: TrackerView, frames: Seq<Frame>)
    requires
        start.wf(),
        playable(start, frames),
    ensures
        after(start, frames).wf(),
        start.next_id <= after(start, frames).next_id,
    decreases frames.len(),
{
    if frames.len() > 0 {
        let before = after(start, frames.drop_last());
        lemma_progress(start, frames.drop_last());
        before.step_keeps_wf(frames.last());
        before.lemma_pass_valid(frames.last());
        before.pass(frames.last()).lemma_selections();
        before.lemma_split(frames.last().detections);
    }
}

} // verus!
