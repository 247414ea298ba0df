//! Shared two-stage association cascade for the ByteTrack family.
//!
//! High confidence detections are matched against the pool of tracked and lost
//! tracks, low confidence detections then try to recover the still-tracked
//! leftovers, unmatched high detections start new tracks, and originally-lost
//! tracks are kept alive until they age out of the buffer.
//!
//! What differs between the trackers of the family is the stage-one cost matrix.

use crate::assignment;
use crate::assignment::greedy_match;
use crate::indices;
use crate::motion::KalmanStep;
use crate::number::{Single, MAX_BITS};
use vstd::prelude::*;

verus! {

/// A detection the cascade can read: its box and its score.
pub trait CascadeDet: Sized {
    /// The box.
    spec fn tlwh_of(&self) -> [Single; 4];

    /// The confidence.
    spec fn score_of(&self) -> Single;

    /// The detection box in TLWH form.
    fn det_box(&self) -> (r: [Single; 4])
        ensures
            r == self.tlwh_of(),
    ;

    /// The detection confidence.
    fn det_score(&self) -> (r: Single)
        ensures
            r == self.score_of(),
    ;
}

/// A track the cascade can drive through the ByteTrack lifecycle.
///
/// The operations that move a motion filter return the step that it has to take.
pub trait CascadeTrack: Sized + Copy {
    /// The detection type this track is matched against.
    type Det: CascadeDet;

    /// Whether the track is in the tracked state.
    spec fn in_tracked_state(&self) -> bool;

    /// Whether the track is in the lost state.
    spec fn in_lost_state(&self) -> bool;

    /// The track moved into the lost state.
    spec fn as_lost(&self) -> Self;

    /// The frame of the most recent match.
    spec fn last_frame(&self) -> usize;

    /// The current box estimate.
    spec fn estimate(&self) -> [Single; 4];

    /// Whether one more frame can be counted on the track.
    spec fn can_continue(&self) -> bool;

    /// The track continued with a detection.
    spec fn updated(&self, det: Self::Det, frame_id: usize) -> (Self, KalmanStep);

    /// The track brought back with a detection.
    spec fn reactivated(&self, det: Self::Det, frame_id: usize) -> (Self, KalmanStep);

    /// The track that a detection starts.
    spec fn spawned(det: Self::Det, frame_id: usize, track_id: u64) -> (Self, KalmanStep);

    /// Whether the track may take the detection.
    spec fn admits(&self, det: Self::Det) -> bool;

    /// Whether the track is currently in the tracked state.
    fn is_tracked(&self) -> (r: bool)
        ensures
            r == self.in_tracked_state(),
    ;

    /// Whether the track is currently in the lost state.
    fn is_lost(&self) -> (r: bool)
        ensures
            r == self.in_lost_state(),
    ;

    /// Move the track into the lost state.
    fn set_lost(&mut self)
        ensures
            *final(self) == old(self).as_lost(),
    ;

    /// Frame id of the track's most recent match.
    fn cascade_frame_id(&self) -> (r: usize)
        ensures
            r == self.last_frame(),
    ;

    /// Current box estimate in TLWH form.
    fn cascade_tlwh(&self) -> (r: [Single; 4])
        ensures
            r == self.estimate(),
    ;

    /// Continue an already-tracked track with a matched detection.
    fn update_matched(&mut self, det: &Self::Det, frame_id: usize) -> (step: KalmanStep)
        requires
            old(self).can_continue(),
        ensures
            (*final(self), step) == old(self).updated(*det, frame_id),
    ;

    /// Bring a lost track back with a matched detection, keeping its id.
    fn reactivate_matched(&mut self, det: &Self::Det, frame_id: usize) -> (step: KalmanStep)
        ensures
            (*final(self), step) == old(self).reactivated(*det, frame_id),
    ;

    /// Create and activate a brand-new track from a detection.
    fn spawn(det: &Self::Det, frame_id: usize, track_id: u64) -> (r: (Self, KalmanStep))
        ensures
            r == Self::spawned(*det, frame_id, track_id),
    ;

    /// Whether this track may take the detection at all. The second stage checks it;
    /// the first stage gets it through the caller's cost matrix.
    fn accepts(&self, det: &Self::Det) -> (r: bool)
        ensures
            r == self.admits(*det),
    ;
}

/// The tracks produced by one cascade pass, ready for the caller to commit. A
/// track that took a detection comes with the step of its motion filter.
pub struct CascadeOutcome<T> {
    /// Tracks matched this frame or freshly spawned.
    pub activated: Vec<(T, KalmanStep)>,
    /// Lost tracks recovered this frame.
    pub refind: Vec<(T, KalmanStep)>,
    /// Tracks that are lost and still within the buffer.
    pub lost: Vec<T>,
}

/// What one cascade pass is given.
#[verifier::ext_equal]
pub struct Pass<T: CascadeTrack> {
    /// The tracked tracks, then the lost ones.
    pub pool: Seq<T>,
    /// How many tracks of the pool are tracked.
    pub n_tracked: nat,
    /// The high confidence detections.
    pub high: Seq<T::Det>,
    /// The low confidence detections.
    pub low: Seq<T::Det>,
    /// The first-stage cost of a pool track and a high detection.
    pub stage1_cost: Seq<Seq<Single>>,
    /// The second-stage cost of a pool track and a low detection.
    pub low_cost: Seq<Seq<Single>>,
    /// First-stage match cutoff.
    pub match_thresh: Single,
    /// Second-stage match cutoff.
    pub second_match_thresh: Single,
    /// Smallest score that starts a track.
    pub det_thresh: Single,
    /// How many frames a lost track is kept.
    pub buffer_size: nat,
    /// The current frame.
    pub frame_id: usize,
    /// The id of the next new track.
    pub next_id: u64,
}

/// The greedy matches of a stage: none when there is nothing to match.
pub open spec fn stage_matches(
    rows: nat,
    columns: nat,
    cost: Seq<Seq<Single>>,
    thresh: Single,
) -> Seq<(usize, usize)> {
    if rows == 0 || columns == 0 {
        Seq::empty()
    } else {
        assignment::greedy(cost, thresh)
    }
}

impl<T: CascadeTrack> Pass<T> {
    /// Whether the parts fit together: the matrices have a row for each pool track
    /// and a column for each detection, and no counter runs over.
    pub open spec fn valid(self) -> bool {
        &&& self.fits()
        &&& forall|i: int|
            0 <= i < self.pool.len() && (#[trigger] self.pool[i]).in_tracked_state()
                ==> self.pool[i].can_continue()
        &&& forall|i: int|
            self.n_tracked <= i < self.pool.len() && !assignment::row_taken(
                self.first_matches(),
                i as usize,
            ) ==> (#[trigger] self.settled()[i]).last_frame() <= self.frame_id
        &&& self.next_id + self.high.len() <= u64::MAX
    }

    /// Whether the matrices have a row for each pool track and a column for each
    /// detection.
    pub open spec fn fits(self) -> bool {
        &&& self.pool.len() <= usize::MAX
        &&& self.high.len() <= usize::MAX
        &&& self.low.len() <= usize::MAX
        &&& self.stage1_cost.len() == self.pool.len()
        &&& assignment::has_columns(self.stage1_cost, self.high.len())
        &&& self.low_cost.len() == self.pool.len()
        &&& assignment::has_columns(self.low_cost, self.low.len())
    }

    /// Whether the pool holds the tracked tracks first (`0..n_tracked`) and then others.
    pub open spec fn layered(self) -> bool {
        &&& self.n_tracked <= self.pool.len()
        &&& forall|i: int|
            0 <= i < self.pool.len() ==> ((#[trigger] self.pool[i]).in_tracked_state() <==> i
                < self.n_tracked)
    }

    /// First-stage matches of pool tracks and high detections.
    pub open spec fn first_matches(self) -> Seq<(usize, usize)> {
        stage_matches(self.pool.len(), self.high.len(), self.stage1_cost, self.match_thresh)
    }

    /// The tracked tracks that the first stage left unmatched.
    pub open spec fn leftover(self) -> Seq<usize> {
        indices::select(
            self.pool.len(),
            |i: usize|
                !assignment::row_taken(self.first_matches(), i)
                    && self.pool[i as int].in_tracked_state(),
        )
    }

    /// The second-stage cost of a leftover and a low detection; prohibitive where
    /// the track may not take the detection.
    pub open spec fn second_cost(self) -> Seq<Seq<Single>> {
        Seq::new(
            self.leftover().len(),
            |l: int|
                Seq::new(
                    self.low.len(),
                    |j: int| self.second_entry(self.leftover()[l] as int, j),
                ),
        )
    }

    /// The second-stage cost of pool track `i` and low detection `j`.
    pub open spec fn second_entry(self, i: int, j: int) -> Single {
        if self.pool[i].admits(self.low[j]) {
            self.low_cost[i][j]
        } else {
            Single { bits: MAX_BITS }
        }
    }

    /// Second-stage matches of leftovers and low detections.
    pub open spec fn second_matches(self) -> Seq<(usize, usize)> {
        stage_matches(
            self.leftover().len(),
            self.low.len(),
            self.second_cost(),
            self.second_match_thresh,
        )
    }

    /// The leftovers that become lost: unmatched in the second stage too, and not
    /// lost yet.
    pub open spec fn dropouts(self) -> Seq<usize> {
        indices::select(
            self.leftover().len(),
            |l: usize|
                !assignment::row_taken(self.second_matches(), l)
                    && !self.pool[self.leftover()[l as int] as int].in_lost_state(),
        )
    }

    /// The unmatched high detections whose score is not below the init threshold.
    pub open spec fn starters(self) -> Seq<usize> {
        indices::select(
            self.high.len(),
            |j: usize|
                !assignment::column_taken(self.first_matches(), j)
                    && !self.high[j as int].score_of().less_than(self.det_thresh),
        )
    }

    /// The originally-lost tracks that stayed unmatched and within the buffer.
    pub open spec fn kept(self) -> Seq<usize> {
        indices::select(
            self.pool.len(),
            |i: usize|
                !assignment::row_taken(self.first_matches(), i) && self.n_tracked <= i
                    && self.frame_id - self.settled()[i as int].last_frame() <= self.buffer_size,
        )
    }

    /// The pool with the leftovers of the given second-stage matches continued.
    pub open spec fn pool_after_matches(self, matches: Seq<(usize, usize)>) -> Seq<T>
        decreases matches.len(),
    {
        if matches.len() == 0 {
            self.pool
        } else {
            self.pool_after_matches(matches.drop_last()).update(
                self.leftover()[matches.last().0 as int] as int,
                self.recovery(matches.last()).0,
            )
        }
    }

    /// The pool with all second-stage matches applied and the given leftovers lost.
    pub open spec fn pool_after_dropouts(self, dropouts: Seq<usize>) -> Seq<T>
        decreases dropouts.len(),
    {
        if dropouts.len() == 0 {
            self.pool_after_matches(self.second_matches())
        } else {
            self.pool_after_dropouts(dropouts.drop_last()).update(
                self.leftover()[dropouts.last() as int] as int,
                self.dropout(dropouts.last()),
            )
        }
    }

    /// The pool after the second stage, apart from the tracks that the first
    /// stage matched.
    pub open spec fn settled(self) -> Seq<T> {
        self.pool_after_dropouts(self.dropouts())
    }

    /// The leftover of a second-stage match, continued.
    pub open spec fn recovery(self, m: (usize, usize)) -> (T, KalmanStep) {
        self.pool[self.leftover()[m.0 as int] as int].updated(self.low[m.1 as int], self.frame_id)
    }

    /// A leftover, lost.
    pub open spec fn dropout(self, l: usize) -> T {
        self.pool[self.leftover()[l as int] as int].as_lost()
    }

    /// The first-stage matches of tracked tracks.
    pub open spec fn continuing(self) -> Seq<(usize, usize)> {
        self.first_matches().filter(|m: (usize, usize)| self.pool[m.0 as int].in_tracked_state())
    }

    /// The first-stage matches of the other tracks.
    pub open spec fn returning(self) -> Seq<(usize, usize)> {
        self.first_matches().filter(|m: (usize, usize)| !self.pool[m.0 as int].in_tracked_state())
    }

    /// Tracks continued by the first stage.
    pub open spec fn continued(self) -> Seq<(T, KalmanStep)> {
        self.continuing().map_values(
            |m: (usize, usize)|
                self.pool[m.0 as int].updated(self.high[m.1 as int], self.frame_id),
        )
    }

    /// Tracks continued by the second stage.
    pub open spec fn recovered(self) -> Seq<(T, KalmanStep)> {
        self.second_matches().map_values(|m: (usize, usize)| self.recovery(m))
    }

    /// New tracks, with ids from `next_id` on.
    pub open spec fn started(self) -> Seq<(T, KalmanStep)> {
        Seq::new(
            self.starters().len(),
            |k: int|
                T::spawned(
                    self.high[self.starters()[k] as int],
                    self.frame_id,
                    (self.next_id + k) as u64,
                ),
        )
    }

    /// The tracks matched this frame or freshly spawned.
    pub open spec fn activated(self) -> Seq<(T, KalmanStep)> {
        self.continued() + self.recovered() + self.started()
    }

    /// The lost tracks recovered this frame.
    pub open spec fn refind(self) -> Seq<(T, KalmanStep)> {
        self.returning().map_values(
            |m: (usize, usize)|
                self.pool[m.0 as int].reactivated(self.high[m.1 as int], self.frame_id),
        )
    }

    /// The tracks that became lost this frame.
    pub open spec fn newly_lost(self) -> Seq<T> {
        self.dropouts().map_values(|l: usize| self.dropout(l))
    }

    /// The tracks that are lost after this frame.
    pub open spec fn lost(self) -> Seq<T> {
        self.newly_lost() + self.kept().map_values(|i: usize| self.settled()[i as int])
    }
}

/// Filtering one more element.
pub(crate) proof fn lemma_filter_take<A>(s: Seq<A>, k: int, p: spec_fn(A) -> bool)
    requires
        0 <= k < s.len(),
    ensures
        s.take(k + 1).filter(p) == if p(s[k]) {
            s.take(k).filter(p).push(s[k])
        } else {
            s.take(k).filter(p)
        },
{
    reveal(Seq::filter);
    assert(s.take(k + 1).drop_last() =~= s.take(k));
}

/// What filtering keeps was there before.
pub(crate) proof fn lemma_filter_member<A>(s: Seq<A>, p: spec_fn(A) -> bool, k: int)
    requires
        0 <= k < s.filter(p).len(),
    ensures
        s.contains(s.filter(p)[k]),
    decreases s.len(),
{
    reveal(Seq::filter);
    let short = s.drop_last();
    if k < short.filter(p).len() {
        lemma_filter_member(short, p, k);
        let i = choose|i: int| 0 <= i < short.len() && short[i] == short.filter(p)[k];
        assert(s[i] == s.filter(p)[k]);
    } else {
        assert(s[s.len() - 1] == s.filter(p)[k]);
    }
}

/// Selecting twice is selecting by both predicates.
proof fn lemma_select_filter(
    n: nat,
    p: spec_fn(usize) -> bool,
    q: spec_fn(usize) -> bool,
    both: spec_fn(usize) -> bool,
)
    requires
        n <= usize::MAX,
        forall|i: usize| i < n ==> #[trigger] both(i) == (p(i) && q(i)),
    ensures
        indices::select(n, p).filter(q) == indices::select(n, both),
    decreases n,
{
    reveal(Seq::filter);
    if n > 0 {
        let last = (n - 1) as usize;
        lemma_select_filter((n - 1) as nat, p, q, both);
        assert(both(last) == (p(last) && q(last)));
        let s = indices::select(n, p);
        if p(last) {
            assert(s.drop_last() =~= indices::select((n - 1) as nat, p));
        }
    }
}

/// All indices below `n`.
fn all_indices(n: usize) -> (r: Vec<usize>)
    ensures
        r@ == indices::select(n as nat, |i: usize| true),
{
    let mut r: Vec<usize> = Vec::new();
    let mut i: usize = 0;
    while i < n
        invariant
            i <= n,
            r@ == indices::select(i as nat, |i: usize| true),
        decreases n - i,
    {
        r.push(i);
        i += 1;
    }
    r
}

/// Matches one stage. Guards the empty case because a matrix without rows cannot
/// report its unmatched columns.
fn match_stage(rows: usize, columns: usize, cost: &Vec<Vec<Single>>, thresh: Single) -> (r: (
    Vec<(usize, usize)>,
    Vec<usize>,
    Vec<usize>,
))
    requires
        cost.len() == rows,
        assignment::has_columns(assignment::matrix(cost@), columns as nat),
    ensures
        r.0@ == stage_matches(rows as nat, columns as nat, assignment::matrix(cost@), thresh),
        r.1@ == assignment::unmatched_rows(r.0@, rows as nat),
        r.2@ == assignment::unmatched_columns(r.0@, columns as nat),
        forall|k: int| 0 <= k < r.0@.len() ==> (#[trigger] r.0@[k]).0 < rows,
        forall|k: int| 0 <= k < r.0@.len() ==> (#[trigger] r.0@[k]).1 < columns,
        forall|a: int, b: int|
            0 <= a < b < r.0@.len() ==> (#[trigger] r.0@[a]).0 != (#[trigger] r.0@[b]).0,
{
    if rows == 0 || columns == 0 {
        let ghost none = Seq::<(usize, usize)>::empty();
        let u_rows = all_indices(rows);
        let u_columns = all_indices(columns);
        proof {
            indices::lemma_select_agree(
                rows as nat,
                |i: usize| true,
                |i: usize| !assignment::row_taken(none, i),
            );
            indices::lemma_select_agree(
                columns as nat,
                |i: usize| true,
                |j: usize| !assignment::column_taken(none, j),
            );
        }
        (Vec::new(), u_rows, u_columns)
    } else {
        let ghost m = assignment::matrix(cost@);
        assert(m[0].len() == columns);
        let r = greedy_match(cost, thresh);
        assert forall|k: int| 0 <= k < r.0@.len() implies (#[trigger] r.0@[k]).0 < rows
            && r.0@[k].1 < columns by {
            assert(assignment::admissible(m, thresh, r.0@[k]));
        }
        assert forall|a: int, b: int| 0 <= a < b < r.0@.len() implies (#[trigger] r.0@[a]).0 != (
        #[trigger] r.0@[b]).0 by {
            assert(!assignment::clash(r.0@[a], r.0@[b]));
        }
        r
    }
}

/// Second-stage costs: those of the leftovers, prohibitive where a track may not
/// take a detection.
fn restrict_costs<T: CascadeTrack>(
    pool: &Vec<T>,
    r_tracked: &Vec<usize>,
    low: &Vec<T::Det>,
    low_cost: &Vec<Vec<Single>>,
    Ghost(pass): Ghost<Pass<T>>,
) -> (r: Vec<Vec<Single>>)
    requires
        pass.valid(),
        pool@ == pass.pool,
        low@ == pass.low,
        assignment::matrix(low_cost@) == pass.low_cost,
        r_tracked@ == pass.leftover(),
    ensures
        assignment::matrix(r@) == pass.second_cost(),
{
    let mut cost: Vec<Vec<Single>> = Vec::new();
    proof {
        pass.lemma_leftover();
    }
    let mut local: usize = 0;
    while local < r_tracked.len()
        invariant
            pass.valid(),
            pool@ == pass.pool,
            low@ == pass.low,
            assignment::matrix(low_cost@) == pass.low_cost,
            r_tracked@ == pass.leftover(),
            forall|l: int| 0 <= l < r_tracked@.len() ==> #[trigger] r_tracked@[l] < pool.len(),
            local <= r_tracked.len(),
            cost.len() == local,
            forall|l: int| 0 <= l < local ==> (#[trigger] cost[l])@ == pass.second_cost()[l],
        decreases r_tracked.len() - local,
    {
        let itrack = r_tracked[local];
        let track = &pool[itrack];
        assert(assignment::matrix(low_cost@)[itrack as int] == low_cost[itrack as int]@);
        let known = &low_cost[itrack];
        assert(known@ == pass.low_cost[itrack as int]);
        let mut row: Vec<Single> = Vec::new();
        let mut j: usize = 0;
        while j < low.len()
            invariant
                low@ == pass.low,
                *track == pass.pool[itrack as int],
                known@ == pass.low_cost[itrack as int],
                known.len() == low.len(),
                j <= low.len(),
                row.len() == j,
                forall|x: int|
                    0 <= x < j ==> #[trigger] row[x] == pass.second_entry(itrack as int, x),
            decreases low.len() - j,
        {
            if track.accepts(&low[j]) {
                row.push(known[j]);
            } else {
                row.push(Single { bits: MAX_BITS });
            }
            j += 1;
        }
        assert(row@ =~= pass.second_cost()[local as int]);
        cost.push(row);
        local += 1;
    }
    assert(assignment::matrix(cost@) =~= pass.second_cost());
    cost
}

/// What [`run`] is given, with vectors by their contents.
pub open spec fn pass_of<T: CascadeTrack>(
    pool: Seq<T>,
    n_tracked: usize,
    high: Seq<T::Det>,
    low: Seq<T::Det>,
    stage1_cost: Seq<Vec<Single>>,
    low_cost: Seq<Vec<Single>>,
    match_thresh: Single,
    second_match_thresh: Single,
    det_thresh: Single,
    buffer_size: usize,
    frame_id: usize,
    next_id: u64,
) -> Pass<T> {
    Pass {
        pool,
        n_tracked: n_tracked as nat,
        high,
        low,
        stage1_cost: assignment::matrix(stage1_cost),
        low_cost: assignment::matrix(low_cost),
        match_thresh,
        second_match_thresh,
        det_thresh,
        buffer_size: buffer_size as nat,
        frame_id,
        next_id,
    }
}

impl<T: CascadeTrack> Pass<T> {
    /// The leftovers are tracks of the pool in the tracked state.
    pub(crate) proof fn lemma_leftover(self)
        requires
            self.pool.len() <= usize::MAX,
        ensures
            self.leftover().len() <= self.pool.len(),
            forall|l: int|
                0 <= l < self.leftover().len() ==> #[trigger] self.leftover()[l]
                    < self.pool.len(),
            forall|l: int|
                0 <= l < self.leftover().len()
                    ==> self.pool[#[trigger] self.leftover()[l] as int].in_tracked_state(),
            forall|a: int, b: int|
                0 <= a < b < self.leftover().len() ==> self.leftover()[a] < self.leftover()[b],
    {
        indices::lemma_select(
            self.pool.len(),
            |i: usize|
                !assignment::row_taken(self.first_matches(), i)
                    && self.pool[i as int].in_tracked_state(),
        );
    }
}

impl<T: CascadeTrack> Pass<T> {
    /// Applying second-stage matches leaves the other tracks of the pool as they are.
    pub(crate) proof fn lemma_pool_after_matches(self, matches: Seq<(usize, usize)>, i: int)
        requires
            self.pool.len() <= usize::MAX,
            0 <= i < self.pool.len(),
            forall|k: int|
                0 <= k < matches.len() ==> (#[trigger] matches[k]).0 < self.leftover().len(),
            forall|k: int|
                0 <= k < matches.len() ==> self.leftover()[(#[trigger] matches[k]).0 as int] != i,
        ensures
            self.pool_after_matches(matches).len() == self.pool.len(),
            self.pool_after_matches(matches)[i] == self.pool[i],
        decreases matches.len(),
    {
        self.lemma_leftover();
        if matches.len() > 0 {
            let shorter = matches.drop_last();
            assert forall|k: int| 0 <= k < shorter.len() implies (#[trigger] shorter[k]).0
                < self.leftover().len() && self.leftover()[shorter[k].0 as int] != i by {
                assert(shorter[k] == matches[k]);
            }
            assert(matches[matches.len() - 1] == matches.last());
            self.lemma_pool_after_matches(shorter, i);
        }
    }

    /// Losing leftovers leaves the other tracks of the pool as they are.
    pub(crate) proof fn lemma_pool_after_dropouts(self, dropouts: Seq<usize>, i: int)
        requires
            self.pool.len() <= usize::MAX,
            0 <= i < self.pool.len(),
            forall|k: int|
                0 <= k < self.second_matches().len() ==> (#[trigger] self.second_matches()[k]).0
                    < self.leftover().len(),
            forall|k: int|
                0 <= k < self.second_matches().len() ==> self.leftover()[(
                #[trigger] self.second_matches()[k]).0 as int] != i,
            forall|k: int|
                0 <= k < dropouts.len() ==> #[trigger] dropouts[k] < self.leftover().len(),
            forall|k: int|
                0 <= k < dropouts.len() ==> self.leftover()[#[trigger] dropouts[k] as int] != i,
        ensures
            self.pool_after_dropouts(dropouts).len() == self.pool.len(),
            self.pool_after_dropouts(dropouts)[i] == self.pool[i],
        decreases dropouts.len(),
    {
        self.lemma_leftover();
        if dropouts.len() > 0 {
            let shorter = dropouts.drop_last();
            assert forall|k: int| 0 <= k < shorter.len() implies #[trigger] shorter[k]
                < self.leftover().len() && self.leftover()[shorter[k] as int] != i by {
                assert(shorter[k] == dropouts[k]);
            }
            assert(dropouts[dropouts.len() - 1] == dropouts.last());
            self.lemma_pool_after_dropouts(shorter, i);
        } else {
            self.lemma_pool_after_matches(self.second_matches(), i);
        }
    }
}

/// Run the two-stage cascade over a pool of tracks.
///
/// `pool` holds the tracked tracks first (`0..n_tracked`) then the lost tracks.
/// `stage1_cost[i][j]` is the cost of pairing pool track `i` with high detection `j`,
/// and `low_cost[i][j]` that of pairing it with low detection `j`.
#[verifier::rlimit(60)]
pub fn run<T: CascadeTrack>(
    pool: Vec<T>,
    n_tracked: usize,
    high: &Vec<T::Det>,
    low: &Vec<T::Det>,
    stage1_cost: &Vec<Vec<Single>>,
    low_cost: &Vec<Vec<Single>>,
    match_thresh: Single,
    second_match_thresh: Single,
    det_thresh: Single,
    buffer_size: usize,
    frame_id: usize,
    next_id: &mut u64,
) -> (r: CascadeOutcome<T>)
    requires
        pass_of(
            pool@, n_tracked, high@, low@, stage1_cost@, low_cost@, match_thresh,
            second_match_thresh, det_thresh, buffer_size, frame_id, *old(next_id),
        ).valid(),
    ensures
        ({
            let pass = pass_of(
                pool@, n_tracked, high@, low@, stage1_cost@, low_cost@, match_thresh,
                second_match_thresh, det_thresh, buffer_size, frame_id, *old(next_id),
            );
            &&& r.activated@ == pass.activated()
            &&& r.refind@ == pass.refind()
            &&& r.lost@ == pass.lost()
            &&& *final(next_id) == *old(next_id) + pass.starters().len()
        }),
{
    let ghost first_id = *next_id;
    let ghost pass = pass_of(
        pool@, n_tracked, high@, low@, stage1_cost@, low_cost@, match_thresh,
        second_match_thresh, det_thresh, buffer_size, frame_id, first_id,
    );
    let mut activated: Vec<(T, KalmanStep)> = Vec::new();
    let mut refind: Vec<(T, KalmanStep)> = Vec::new();
    let mut lost: Vec<T> = Vec::new();

    // Stage 1: high-confidence detections against the whole pool.
    let (matches, u_track, u_det_high) = match_stage(
        pool.len(),
        high.len(),
        stage1_cost,
        match_thresh,
    );
    assert(matches@ == pass.first_matches());
    let ghost is_kept = |m: (usize, usize)| pass.pool[m.0 as int].in_tracked_state();
    let ghost is_back = |m: (usize, usize)| !pass.pool[m.0 as int].in_tracked_state();
    let ghost go_on = |m: (usize, usize)|
        pass.pool[m.0 as int].updated(pass.high[m.1 as int], pass.frame_id);
    let ghost come_back = |m: (usize, usize)|
        pass.pool[m.0 as int].reactivated(pass.high[m.1 as int], pass.frame_id);
    let mut k: usize = 0;
    while k < matches.len()
        invariant
            pass.valid(),
            pool@ == pass.pool,
            high@ == pass.high,
            frame_id == pass.frame_id,
            matches@ == pass.first_matches(),
            forall|x: int| 0 <= x < matches@.len() ==> (#[trigger] matches@[x]).0 < pool.len(),
            forall|x: int| 0 <= x < matches@.len() ==> (#[trigger] matches@[x]).1 < high.len(),
            is_kept == (|m: (usize, usize)| pass.pool[m.0 as int].in_tracked_state()),
            is_back == (|m: (usize, usize)| !pass.pool[m.0 as int].in_tracked_state()),
            go_on == (|m: (usize, usize)|
                pass.pool[m.0 as int].updated(pass.high[m.1 as int], pass.frame_id)),
            come_back == (|m: (usize, usize)|
                pass.pool[m.0 as int].reactivated(pass.high[m.1 as int], pass.frame_id)),
            k <= matches.len(),
            activated@ == matches@.take(k as int).filter(is_kept).map_values(go_on),
            refind@ == matches@.take(k as int).filter(is_back).map_values(come_back),
        decreases matches.len() - k,
    {
        proof {
            lemma_filter_take(matches@, k as int, is_kept);
            lemma_filter_take(matches@, k as int, is_back);
        }
        let (itrack, idet) = matches[k];
        let mut track = pool[itrack];
        if track.is_tracked() {
            let step = track.update_matched(&high[idet], frame_id);
            activated.push((track, step));
        } else {
            let step = track.reactivate_matched(&high[idet], frame_id);
            refind.push((track, step));
        }
        k += 1;
    }
    assert(matches@.take(matches@.len() as int) =~= matches@);
    assert(activated@ == pass.continued());
    assert(refind@ == pass.refind());

    // Stage 2: low-confidence detections against still-tracked leftovers.
    let mut r_tracked: Vec<usize> = Vec::new();
    let ghost in_state = |i: usize| pass.pool[i as int].in_tracked_state();
    let ghost unmatched = |i: usize| !assignment::row_taken(pass.first_matches(), i);
    proof {
        indices::lemma_select(pass.pool.len(), unmatched);
        lemma_select_filter(
            pass.pool.len(),
            unmatched,
            in_state,
            |i: usize|
                !assignment::row_taken(pass.first_matches(), i)
                    && pass.pool[i as int].in_tracked_state(),
        );
    }
    let mut k: usize = 0;
    while k < u_track.len()
        invariant
            pool@ == pass.pool,
            in_state == (|i: usize| pass.pool[i as int].in_tracked_state()),
            forall|x: int| 0 <= x < u_track@.len() ==> #[trigger] u_track@[x] < pool.len(),
            k <= u_track.len(),
            r_tracked@ == u_track@.take(k as int).filter(in_state),
        decreases u_track.len() - k,
    {
        proof {
            lemma_filter_take(u_track@, k as int, in_state);
        }
        let i = u_track[k];
        if pool[i].is_tracked() {
            r_tracked.push(i);
        }
        k += 1;
    }
    assert(u_track@.take(u_track@.len() as int) =~= u_track@);
    assert(r_tracked@ == pass.leftover());
    proof {
        pass.lemma_leftover();
    }
    let cost = restrict_costs(&pool, &r_tracked, low, low_cost, Ghost(pass));
    assert(assignment::matrix(cost@).len() == cost@.len());
    assert(assignment::has_columns(pass.second_cost(), low@.len()));
    let (matches_low, u_track_low, _) = match_stage(
        r_tracked.len(),
        low.len(),
        &cost,
        second_match_thresh,
    );
    assert(matches_low@ == pass.second_matches());
    let ghost go_on_low = |m: (usize, usize)| pass.recovery(m);
    let mut pool = pool;
    let mut k: usize = 0;
    while k < matches_low.len()
        invariant
            pass.valid(),
            pool@ == pass.pool_after_matches(matches_low@.take(k as int)),
            pool.len() == pass.pool.len(),
            low@ == pass.low,
            frame_id == pass.frame_id,
            matches_low@ == pass.second_matches(),
            r_tracked@ == pass.leftover(),
            forall|l: int| 0 <= l < r_tracked@.len() ==> #[trigger] r_tracked@[l] < pool.len(),
            forall|l: int|
                0 <= l < r_tracked@.len()
                    ==> pass.pool[#[trigger] r_tracked@[l] as int].in_tracked_state(),
            forall|a: int, b: int|
                0 <= a < b < r_tracked@.len() ==> r_tracked@[a] < r_tracked@[b],
            forall|a: int, b: int|
                0 <= a < b < matches_low@.len() ==> (#[trigger] matches_low@[a]).0 != (
                #[trigger] matches_low@[b]).0,
            forall|x: int|
                0 <= x < matches_low@.len() ==> (#[trigger] matches_low@[x]).0 < r_tracked.len(),
            forall|x: int|
                0 <= x < matches_low@.len() ==> (#[trigger] matches_low@[x]).1 < low.len(),
            go_on_low == (|m: (usize, usize)| pass.recovery(m)),
            k <= matches_low.len(),
            activated@ == pass.continued() + matches_low@.take(k as int).map_values(go_on_low),
        decreases matches_low.len() - k,
    {
        let ghost done = matches_low@.take(k as int);
        let (local, idet) = matches_low[k];
        let itrack = r_tracked[local];
        proof {
            assert forall|x: int| 0 <= x < done.len() implies pass.leftover()[(
            #[trigger] done[x]).0 as int] != itrack by {
                let m = matches_low@[x];
                assert(m.0 != matches_low@[k as int].0);
                if m.0 < local {
                    assert(r_tracked@[m.0 as int] < r_tracked@[local as int]);
                } else {
                    assert(r_tracked@[local as int] < r_tracked@[m.0 as int]);
                }
            }
            pass.lemma_pool_after_matches(done, itrack as int);
            assert(matches_low@.take(k + 1).drop_last() =~= done);
        }
        let mut track = pool[itrack];
        let step = track.update_matched(&low[idet], frame_id);
        pool[itrack] = track;
        activated.push((track, step));
        assert(matches_low@.take(k + 1).map_values(go_on_low) =~= done.map_values(go_on_low).push(
            (track, step),
        ));
        k += 1;
    }
    assert(matches_low@.take(matches_low@.len() as int) =~= matches_low@);
    assert(activated@ == pass.continued() + pass.recovered());

    // Tracked leftovers from the second stage become lost.
    let ghost not_lost = |l: usize| !pass.pool[pass.leftover()[l as int] as int].in_lost_state();
    let ghost unmatched_low = |l: usize| !assignment::row_taken(pass.second_matches(), l);
    let ghost drop_out = |l: usize| pass.dropout(l);
    proof {
        indices::lemma_select(pass.leftover().len(), unmatched_low);
        lemma_select_filter(
            pass.leftover().len(),
            unmatched_low,
            not_lost,
            |l: usize|
                !assignment::row_taken(pass.second_matches(), l)
                    && !pass.pool[pass.leftover()[l as int] as int].in_lost_state(),
        );
    }
    let mut k: usize = 0;
    while k < u_track_low.len()
        invariant
            pool@ == pass.pool_after_dropouts(u_track_low@.take(k as int).filter(not_lost)),
            pool.len() == pass.pool.len(),
            r_tracked@ == pass.leftover(),
            forall|l: int| 0 <= l < r_tracked@.len() ==> #[trigger] r_tracked@[l] < pool.len(),
            forall|a: int, b: int|
                0 <= a < b < r_tracked@.len() ==> r_tracked@[a] < r_tracked@[b],
            forall|x: int|
                0 <= x < pass.second_matches().len() ==> (#[trigger] pass.second_matches()[x]).0
                    < r_tracked.len(),
            forall|x: int|
                0 <= x < u_track_low@.len() ==> #[trigger] u_track_low@[x] < r_tracked.len(),
            forall|x: int|
                0 <= x < u_track_low@.len() ==> !assignment::row_taken(
                    pass.second_matches(),
                    #[trigger] u_track_low@[x],
                ),
            forall|a: int, b: int|
                0 <= a < b < u_track_low@.len() ==> u_track_low@[a] < u_track_low@[b],
            not_lost == (|l: usize|
                !pass.pool[pass.leftover()[l as int] as int].in_lost_state()),
            drop_out == (|l: usize| pass.dropout(l)),
            k <= u_track_low.len(),
            lost@ == u_track_low@.take(k as int).filter(not_lost).map_values(drop_out),
        decreases u_track_low.len() - k,
    {
        let ghost done = u_track_low@.take(k as int).filter(not_lost);
        let local = u_track_low[k];
        let itrack = r_tracked[local];
        proof {
            lemma_filter_take(u_track_low@, k as int, not_lost);
            assert forall|x: int| 0 <= x < done.len() implies #[trigger] done[x]
                < r_tracked.len() && pass.leftover()[done[x] as int] != itrack by {
                lemma_filter_member(u_track_low@.take(k as int), not_lost, x);
                let y = choose|y: int| 0 <= y < k && u_track_low@.take(k as int)[y] == done[x];
                assert(u_track_low@[y] < u_track_low@[k as int]);
                assert(r_tracked@[done[x] as int] < r_tracked@[local as int]);
            }
            assert forall|x: int| 0 <= x < pass.second_matches().len() implies pass.leftover()[(
            #[trigger] pass.second_matches()[x]).0 as int] != itrack by {
                let m = pass.second_matches()[x];
                assert(assignment::row_taken(pass.second_matches(), m.0));
                assert(!assignment::row_taken(pass.second_matches(), local));
                if m.0 < local {
                    assert(r_tracked@[m.0 as int] < r_tracked@[local as int]);
                } else {
                    assert(r_tracked@[local as int] < r_tracked@[m.0 as int]);
                }
            }
            pass.lemma_pool_after_dropouts(done, itrack as int);
            assert(done.push(local).drop_last() =~= done);
        }
        if !pool[itrack].is_lost() {
            let mut track = pool[itrack];
            track.set_lost();
            pool[itrack] = track;
            lost.push(track);
        }
        k += 1;
    }
    assert(u_track_low@.take(u_track_low@.len() as int) =~= u_track_low@);
    assert(lost@ == pass.newly_lost());
    assert(pool@ == pass.settled());

    // Unmatched high detections above the init threshold start new tracks.
    let ghost strong = |j: usize| !pass.high[j as int].score_of().less_than(pass.det_thresh);
    let ghost unmatched_high = |j: usize| !assignment::column_taken(pass.first_matches(), j);
    let ghost before = activated@;
    proof {
        indices::lemma_select(pass.high.len(), unmatched_high);
        lemma_select_filter(
            pass.high.len(),
            unmatched_high,
            strong,
            |j: usize|
                !assignment::column_taken(pass.first_matches(), j)
                    && !pass.high[j as int].score_of().less_than(pass.det_thresh),
        );
    }
    let mut k: usize = 0;
    while k < u_det_high.len()
        invariant
            pass.valid(),
            high@ == pass.high,
            frame_id == pass.frame_id,
            det_thresh == pass.det_thresh,
            first_id == pass.next_id,
            u_det_high@.len() <= high.len(),
            forall|x: int| 0 <= x < u_det_high@.len() ==> #[trigger] u_det_high@[x] < high.len(),
            strong == (|j: usize|
                !pass.high[j as int].score_of().less_than(pass.det_thresh)),
            k <= u_det_high.len(),
            u_det_high@.take(k as int).filter(strong).len() <= k,
            *next_id == first_id + u_det_high@.take(k as int).filter(strong).len(),
            activated@ == before + spawn_all::<T>(
                pass,
                u_det_high@.take(k as int).filter(strong),
            ),
        decreases u_det_high.len() - k,
    {
        proof {
            lemma_filter_take(u_det_high@, k as int, strong);
        }
        let idet = u_det_high[k];
        k += 1;
        if high[idet].det_score() < det_thresh {
            continue;
        }
        let track = T::spawn(&high[idet], frame_id, *next_id);
        *next_id += 1;
        activated.push(track);
        assert(activated@ =~= before + spawn_all::<T>(
            pass,
            u_det_high@.take(k as int).filter(strong),
        ));
    }
    assert(u_det_high@.take(u_det_high@.len() as int) =~= u_det_high@);
    assert(activated@ =~= pass.activated());

    // Keep originally-lost tracks that stayed unmatched alive until they exceed the
    // buffer. Tracks that just became lost in stage two are already in `lost`, so this
    // is restricted to the originally-lost part of the pool (indices at or past
    // `n_tracked`).
    let ghost alive = |i: usize|
        pass.n_tracked <= i && pass.frame_id - pass.settled()[i as int].last_frame()
            <= pass.buffer_size;
    let ghost same = |i: usize| pass.settled()[i as int];
    let ghost before = lost@;
    proof {
        lemma_select_filter(
            pass.pool.len(),
            unmatched,
            alive,
            |i: usize|
                !assignment::row_taken(pass.first_matches(), i) && pass.n_tracked <= i
                    && pass.frame_id - pass.settled()[i as int].last_frame() <= pass.buffer_size,
        );
    }
    let mut k: usize = 0;
    while k < u_track.len()
        invariant
            pass.valid(),
            pool@ == pass.settled(),
            pool.len() == pass.pool.len(),
            frame_id == pass.frame_id,
            n_tracked == pass.n_tracked,
            buffer_size == pass.buffer_size,
            forall|x: int| 0 <= x < u_track@.len() ==> #[trigger] u_track@[x] < pool.len(),
            forall|x: int|
                0 <= x < u_track@.len() ==> !assignment::row_taken(
                    pass.first_matches(),
                    #[trigger] u_track@[x],
                ),
            alive == (|i: usize|
                pass.n_tracked <= i && pass.frame_id - pass.settled()[i as int].last_frame()
                    <= pass.buffer_size),
            same == (|i: usize| pass.settled()[i as int]),
            k <= u_track.len(),
            lost@ == before + u_track@.take(k as int).filter(alive).map_values(same),
        decreases u_track.len() - k,
    {
        proof {
            lemma_filter_take(u_track@, k as int, alive);
        }
        let i = u_track[k];
        if i >= n_tracked && frame_id - pool[i].cascade_frame_id() <= buffer_size {
            lost.push(pool[i]);
            assert(lost@ =~= before + u_track@.take(k + 1).filter(alive).map_values(same));
        }
        k += 1;
    }
    CascadeOutcome { activated, refind, lost }
}

/// The tracks that the high detections `chosen` start, in order.
spec fn spawn_all<T: CascadeTrack>(pass: Pass<T>, chosen: Seq<usize>) -> Seq<(T, KalmanStep)> {
    Seq::new(
        chosen.len(),
        |k: int|
            T::spawned(
                pass.high[chosen[k] as int],
                pass.frame_id,
                (pass.next_id + k) as u64,
            ),
    )
}

} // verus!
