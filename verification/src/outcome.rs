//! What a cascade pass comes to, in terms of what it is given: which track takes which
//! detection, what becomes of it, and in which order.

use crate::assignment;
use crate::cascade;
use crate::cascade::{CascadeDet, CascadeTrack, Pass};
use crate::indices;
use crate::number::Single;
use vstd::prelude::*;

verus! {

impl<T: CascadeTrack> Pass<T> {
    /// For each activated or recovered track, in order: whether it took a high detection, and
    /// which of the high or of the low ones.
    pub open spec fn takes(self) -> Seq<(bool, int)> {
        self.continuing().map_values(|m: (usize, usize)| (true, m.1 as int))
            + self.second_matches().map_values(|m: (usize, usize)| (false, m.1 as int))
            + self.starters().map_values(|j: usize| (true, j as int))
            + self.returning().map_values(|m: (usize, usize)| (true, m.1 as int))
    }

    /// The four runs of active tracks.
    pub(crate) proof fn lemma_place(self, x: int)
        requires
            self.fits(),
            0 <= x < self.active_origins().len(),
        ensures
            ({
                let (na, nb) = (self.continuing().len(), self.second_matches().len());
                let (nc, nd) = (self.starters().len(), self.returning().len());
                let active = self.activated() + self.refind();
                let o = self.active_origins()[x];
                let u = self.takes()[x];
                &&& self.takes().len() == self.active_origins().len() == active.len()
                &&& active.len() == na + nb + nc + nd
                &&& x < na ==> {
                    let m = self.continuing()[x];
                    &&& o == m.0 && u == (true, m.1 as int)
                    &&& o < self.pool.len() && u.1 < self.high.len()
                    &&& self.first_matches().contains(m)
                    &&& self.pool[o].in_tracked_state()
                    &&& active[x] == self.pool[o].updated(self.high[u.1], self.frame_id)
                }
                &&& na <= x < na + nb ==> {
                    let m = self.second_matches()[x - na];
                    &&& m.0 < self.leftover().len()
                    &&& o == self.leftover()[m.0 as int] && u == (false, m.1 as int)
                    &&& o < self.pool.len() && u.1 < self.low.len()
                    &&& !assignment::row_taken(self.first_matches(), o as usize)
                    &&& self.pool[o].in_tracked_state()
                    &&& active[x] == self.pool[o].updated(self.low[u.1], self.frame_id)
                }
                &&& na + nb <= x < na + nb + nc ==> {
                    let k = x - na - nb;
                    &&& o == self.pool.len() + k && u == (true, self.starters()[k] as int)
                    &&& u.1 < self.high.len()
                    &&& active[x] == T::spawned(
                        self.high[u.1],
                        self.frame_id,
                        (self.next_id + k) as u64,
                    )
                }
                &&& na + nb + nc <= x ==> {
                    let m = self.returning()[x - na - nb - nc];
                    &&& o == m.0 && u == (true, m.1 as int)
                    &&& o < self.pool.len() && u.1 < self.high.len()
                    &&& self.first_matches().contains(m)
                    &&& !self.pool[o].in_tracked_state()
                    &&& active[x] == self.pool[o].reactivated(self.high[u.1], self.frame_id)
                }
            }),
    {
        self.lemma_parts();
        self.lemma_selections();
        let (na, nb) = (self.continuing().len(), self.second_matches().len());
        let nc = self.starters().len();
        if x < na {
            let m = self.continuing()[x];
            assert(self.first_matches().contains(m));
        } else if x < na + nb {
            let m = self.second_matches()[x - na];
            assert(m.0 < self.leftover().len());
            assert(self.leftover()[m.0 as int] < self.pool.len());
        } else if x < na + nb + nc {
            assert(self.starters()[x - na - nb] < self.high.len());
        } else {
            let m = self.returning()[x - na - nb - nc];
            assert(self.first_matches().contains(m));
        }
    }

    /// A first-stage match has its place among the active tracks.
    pub(crate) proof fn lemma_first_place(self, k: int) -> (x: int)
        requires
            self.fits(),
            0 <= k < self.first_matches().len(),
        ensures
            0 <= x < self.active_origins().len(),
            self.takes().len() == self.active_origins().len(),
            self.active_origins()[x] == self.first_matches()[k].0,
            self.takes()[x] == (true, self.first_matches()[k].1 as int),
    {
        self.lemma_parts();
        let m = self.first_matches()[k];
        let (na, nb) = (self.continuing().len(), self.second_matches().len());
        let nc = self.starters().len();
        if self.continuing().contains(m) {
            choose|x: int| 0 <= x < na && self.continuing()[x] == m
        } else {
            assert(self.returning().contains(m));
            let y = choose|y: int| 0 <= y < self.returning().len() && self.returning()[y] == m;
            na + nb + nc + y
        }
    }

    /// An active track that comes from the pool and took a high detection is a first-stage
    /// match.
    pub(crate) proof fn lemma_first_match(self, x: int) -> (k: int)
        requires
            self.fits(),
            0 <= x < self.active_origins().len(),
            self.active_origins()[x] < self.pool.len(),
            self.takes()[x].0,
        ensures
            0 <= k < self.first_matches().len(),
            self.first_matches()[k].0 == self.active_origins()[x],
            self.first_matches()[k].1 == self.takes()[x].1,
    {
        self.lemma_place(x);
        let m = (self.active_origins()[x] as usize, self.takes()[x].1 as usize);
        assert(self.first_matches().contains(m));
        choose|k: int| 0 <= k < self.first_matches().len() && self.first_matches()[k] == m
    }

    /// A second-stage match has its place among the active tracks.
    pub(crate) proof fn lemma_second_place(self, k: int)
        requires
            self.fits(),
            0 <= k < self.second_matches().len(),
        ensures
            ({
                let x = self.continuing().len() + k;
                &&& 0 <= x < self.active_origins().len()
                &&& self.takes().len() == self.active_origins().len()
                &&& self.active_origins()[x]
                    == self.leftover()[self.second_matches()[k].0 as int]
                &&& self.takes()[x] == (false, self.second_matches()[k].1 as int)
            }),
    {
        self.lemma_place(self.continuing().len() + k);
    }

    /// What becomes of a track that takes a detection. A track in the tracked state goes on
    /// with it, another one comes back with it and only with a high one, and a detection
    /// that no track of the pool took starts a track; new tracks have successive ids. The
    /// tracks that come back are the recovered ones, all others are activated.
    pub proof fn active_tracks_follow_from_what_they_took(self, x: int)
        requires
            self.valid(),
            0 <= x < self.activated().len() + self.refind().len(),
        ensures
            self.active_origins().len() == self.activated().len() + self.refind().len(),
            self.takes().len() == self.activated().len() + self.refind().len(),
            ({
                let active = (self.activated() + self.refind())[x];
                let o = self.active_origins()[x];
                let (high, j) = self.takes()[x];
                let id = self.next_id + (o - self.pool.len());
                &&& 0 <= o
                &&& x >= self.activated().len() <==> o < self.pool.len()
                    && !self.pool[o].in_tracked_state()
                &&& 0 <= j < if high {
                    self.high.len()
                } else {
                    self.low.len()
                }
                &&& if o >= self.pool.len() {
                    &&& high
                    &&& id <= u64::MAX
                    &&& active == T::spawned(self.high[j], self.frame_id, id as u64)
                } else if !self.pool[o].in_tracked_state() {
                    &&& high
                    &&& active == self.pool[o].reactivated(self.high[j], self.frame_id)
                } else if high {
                    active == self.pool[o].updated(self.high[j], self.frame_id)
                } else {
                    active == self.pool[o].updated(self.low[j], self.frame_id)
                }
            }),
    {
        self.lemma_parts();
        self.lemma_selections();
        assert(self.active_origins().len() == self.activated().len() + self.refind().len());
        self.lemma_place(x);
    }

    /// No two active tracks have one origin, and no two took one detection.
    pub proof fn active_tracks_share_nothing(self, x: int, y: int)
        requires
            self.valid(),
            0 <= x < y < self.activated().len() + self.refind().len(),
        ensures
            self.active_origins()[x] != self.active_origins()[y],
            self.takes()[x] != self.takes()[y],
    {
        self.lemma_parts();
        self.lemma_selections();
        self.lemma_place(x);
        self.lemma_place(y);
        let n = self.pool.len();
        let (o, p) = (self.active_origins()[x], self.active_origins()[y]);
        let (u, v) = (self.takes()[x], self.takes()[y]);
        let na = self.continuing().len();
        let nb = self.second_matches().len();
        let first = self.first_matches();
        if o < n && u.0 {
            let k = self.lemma_first_match(x);
            if p < n && v.0 {
                let l = self.lemma_first_match(y);
                self.lemma_same_match(x, y);
            } else if p < n {
                assert(assignment::row_taken(first, o as usize));
            } else {
                let j = y - na - nb;
                assert(!assignment::column_taken(first, self.starters()[j]));
                assert(first[k].1 == u.1);
            }
        } else if o < n {
            if p < n && v.0 {
                let l = self.lemma_first_match(y);
                assert(assignment::row_taken(first, p as usize));
            } else if p < n {
                let (a, b) = (self.second_matches()[x - na], self.second_matches()[y - na]);
                assert(a.0 != b.0 && a.1 != b.1);
                if a.0 < b.0 {
                    assert(self.leftover()[a.0 as int] < self.leftover()[b.0 as int]);
                } else {
                    assert(self.leftover()[b.0 as int] < self.leftover()[a.0 as int]);
                }
            }
        } else if p < n {
            if v.0 {
                let l = self.lemma_first_match(y);
                let j = x - na - nb;
                assert(!assignment::column_taken(first, self.starters()[j]));
                assert(first[l].1 == v.1);
            }
        } else {
            assert(self.starters()[x - na - nb] < self.starters()[y - na - nb]);
        }
    }

    /// Two first-stage matches have different origins.
    proof fn lemma_same_match(self, x: int, y: int)
        requires
            self.fits(),
            0 <= x < y < self.active_origins().len(),
            self.active_origins()[x] < self.pool.len(),
            self.active_origins()[y] < self.pool.len(),
            self.takes()[x].0,
            self.takes()[y].0,
        ensures
            self.active_origins()[x] != self.active_origins()[y],
    {
        self.lemma_parts();
        self.lemma_place(x);
        self.lemma_place(y);
        let (na, nb) = (self.continuing().len(), self.second_matches().len());
        let nc = self.starters().len();
        if y < na {
            assert(self.continuing()[x].0 != self.continuing()[y].0);
        } else if x >= na {
            assert(self.returning()[x - na - nb - nc].0 != self.returning()[y - na - nb - nc].0);
        }
    }

    /// A track takes a detection only at a cost at or below the cutoff of the stage, and one that
    /// it does not admit only if the cutoff of the second stage is prohibitive itself; a
    /// track is started only by a detection whose score is not below the init threshold.
    pub proof fn detections_are_taken_within_the_cutoffs(self, x: int)
        requires
            self.valid(),
            0 <= x < self.activated().len() + self.refind().len(),
        ensures
            ({
                let o = self.active_origins()[x];
                let (high, j) = self.takes()[x];
                if o >= self.pool.len() {
                    !self.high[j].score_of().less_than(self.det_thresh)
                } else if high {
                    self.stage1_cost[o][j].at_most(self.match_thresh)
                } else if self.pool[o].admits(self.low[j]) {
                    self.low_cost[o][j].at_most(self.second_match_thresh)
                } else {
                    (Single { bits: 0x7f7f_ffff }).at_most(self.second_match_thresh)
                }
            }),
    {
        self.lemma_parts();
        self.lemma_selections();
        self.lemma_place(x);
        let o = self.active_origins()[x];
        let u = self.takes()[x];
        let na = self.continuing().len();
        let nb = self.second_matches().len();
        crate::conservation::lemma_stage(
            self.pool.len(),
            self.high.len(),
            self.stage1_cost,
            self.match_thresh,
        );
        crate::conservation::lemma_stage(
            self.leftover().len(),
            self.low.len(),
            self.second_cost(),
            self.second_match_thresh,
        );
        if o >= self.pool.len() {
            let strong = |j: usize|
                !assignment::column_taken(self.first_matches(), j)
                    && !self.high[j as int].score_of().less_than(self.det_thresh);
            indices::lemma_select(self.high.len(), strong);
            assert(strong(self.starters()[x - na - nb]));
        } else if u.0 {
            let k = self.lemma_first_match(x);
            assert(assignment::admissible(
                self.stage1_cost,
                self.match_thresh,
                self.first_matches()[k],
            ));
        } else {
            let m = self.second_matches()[x - na];
            assert(assignment::admissible(self.second_cost(), self.second_match_thresh, m));
            assert(assignment::entry(self.second_cost(), m) == self.second_entry(o, u.1));
        }
    }

    /// Every high detection whose score is not below the init threshold is taken: by a track of
    /// the pool, or by the track that it starts.
    pub proof fn every_strong_detection_is_taken(self, j: int)
        requires
            self.valid(),
            0 <= j < self.high.len(),
            !self.high[j].score_of().less_than(self.det_thresh),
        ensures
            exists|x: int|
                0 <= x < self.activated().len() + self.refind().len() && #[trigger] self.takes()[x]
                    == (true, j),
    {
        self.lemma_parts();
        self.lemma_selections();
        let first = self.first_matches();
        if assignment::column_taken(first, j as usize) {
            let k = choose|k: int| 0 <= k < first.len() && (#[trigger] first[k]).1 == j as usize;
            let x = self.lemma_first_place(k);
            self.lemma_place(x);
        } else {
            let strong = |j: usize|
                !assignment::column_taken(first, j)
                    && !self.high[j as int].score_of().less_than(self.det_thresh);
            indices::lemma_select(self.high.len(), strong);
            assert(strong(j as usize));
            assert(self.starters().contains(j as usize));
            let k = choose|k: int|
                0 <= k < self.starters().len() && self.starters()[k] == j as usize;
            let x = self.continuing().len() + self.second_matches().len() + k;
            assert(self.takes()[x] == (true, j));
            self.lemma_place(x);
        }
    }

    /// The first stage takes the cheapest pair first: a track and a high detection within the
    /// cutoff are matched with each other, or one of them is matched at a lower cost, or
    /// at the same cost with the earlier track, or detection.
    pub proof fn first_stage_takes_the_nearest(self, i: int, j: int)
        requires
            self.valid(),
            0 <= i < self.pool.len(),
            0 <= j < self.high.len(),
            self.stage1_cost[i][j].at_most(self.match_thresh),
        ensures
            exists|x: int|
                0 <= x < self.activated().len() + self.refind().len() && {
                    let o = #[trigger] self.active_origins()[x];
                    let (high, k) = self.takes()[x];
                    &&& high && 0 <= o < self.pool.len() && 0 <= k < self.high.len()
                    &&& o == i || k == j
                    &&& self.stage1_cost[o][k].less_than(self.stage1_cost[i][j]) || (
                    self.stage1_cost[o][k].equals(self.stage1_cost[i][j]) && (o < i || (o == i && k
                        <= j)))
                },
    {
        lemma_stage_decides(
            self.pool.len(),
            self.high.len(),
            self.stage1_cost,
            self.match_thresh,
            (i as usize, j as usize),
        );
        let first = self.first_matches();
        let k = choose|k: int|
            0 <= k < first.len() && assignment::decides(
                self.stage1_cost,
                #[trigger] first[k],
                (i as usize, j as usize),
            );
        crate::conservation::lemma_stage(
            self.pool.len(),
            self.high.len(),
            self.stage1_cost,
            self.match_thresh,
        );
        assert(assignment::admissible(self.stage1_cost, self.match_thresh, first[k]));
        let x = self.lemma_first_place(k);
        self.lemma_place(x);
        let o = self.active_origins()[x];
        assert(0 <= o < self.pool.len());
    }

    /// The second stage goes likewise: a track in the tracked state that took no high detection
    /// and a low detection that it admits, within the cutoff, are matched with each
    /// other, or one of them is matched at a lower cost, or at the same cost with the
    /// earlier track, or detection.
    pub proof fn second_stage_takes_the_nearest(self, i: int, j: int)
        requires
            self.valid(),
            0 <= i < self.pool.len(),
            0 <= j < self.low.len(),
            self.pool[i].in_tracked_state(),
            forall|x: int|
                0 <= x < self.activated().len() + self.refind().len()
                    && #[trigger] self.active_origins()[x] == i ==> !self.takes()[x].0,
            (if self.pool[i].admits(self.low[j]) {
                self.low_cost[i][j]
            } else {
                Single { bits: 0x7f7f_ffff }
            }).at_most(self.second_match_thresh),
        ensures
            exists|x: int|
                0 <= x < self.activated().len() + self.refind().len() && {
                    let o = #[trigger] self.active_origins()[x];
                    let (high, k) = self.takes()[x];
                    let c = if self.pool[o].admits(self.low[k]) {
                        self.low_cost[o][k]
                    } else {
                        Single { bits: 0x7f7f_ffff }
                    };
                    let d = if self.pool[i].admits(self.low[j]) {
                        self.low_cost[i][j]
                    } else {
                        Single { bits: 0x7f7f_ffff }
                    };
                    &&& !high && 0 <= o < self.pool.len() && 0 <= k < self.low.len()
                    &&& o == i || k == j
                    &&& c.less_than(d) || (c.equals(d) && (o < i || (o == i && k <= j)))
                },
    {
        self.lemma_parts();
        self.lemma_selections();
        let first = self.first_matches();
        let left = self.leftover();
        if assignment::row_taken(first, i as usize) {
            let k = choose|k: int| 0 <= k < first.len() && (#[trigger] first[k]).0 == i as usize;
            let x = self.lemma_first_place(k);
            self.lemma_place(x);
            assert(self.active_origins()[x] == i);
        }
        self.lemma_leftover();
        assert(left.contains(i as usize));
        let l = choose|l: int| 0 <= l < left.len() && left[l] == i as usize;
        let cost = self.second_cost();
        let p = (l as usize, j as usize);
        assert(assignment::entry(cost, p) == self.second_entry(i, j));
        lemma_stage_decides(left.len(), self.low.len(), cost, self.second_match_thresh, p);
        let second = self.second_matches();
        let k = choose|k: int|
            0 <= k < second.len() && assignment::decides(cost, #[trigger] second[k], p);
        crate::conservation::lemma_stage(
            left.len(),
            self.low.len(),
            cost,
            self.second_match_thresh,
        );
        let m = second[k];
        assert(assignment::admissible(cost, self.second_match_thresh, m));
        self.lemma_second_place(k);
        let x = self.continuing().len() + k;
        self.lemma_place(x as int);
        let o = self.active_origins()[x as int];
        assert(o == left[m.0 as int]);
        assert(assignment::entry(cost, m) == self.second_entry(o, m.1 as int));
        if m.0 < l {
            assert(left[m.0 as int] < left[l]);
        }
        if l < m.0 {
            assert(left[l] < left[m.0 as int]);
        }
    }
}

/// The matches of a stage decide every pair within the cutoff.
proof fn lemma_stage_decides(
    rows: nat,
    columns: nat,
    cost: Seq<Seq<Single>>,
    thresh: Single,
    p: (usize, usize),
)
    requires
        cost.len() == rows,
        assignment::has_columns(cost, columns),
        p.0 < rows,
        p.1 < columns,
        assignment::entry(cost, p).at_most(thresh),
    ensures
        assignment::decided(cost, cascade::stage_matches(rows, columns, cost, thresh), p),
{
    assignment::greedy_exists(cost, thresh);
    assert(cost[0].len() == columns);
    assert(assignment::admissible(cost, thresh, p));
}

/// The matches of a stage come in order.
proof fn lemma_stage_order(rows: nat, columns: nat, cost: Seq<Seq<Single>>, thresh: Single)
    ensures
        assignment::in_order(cost, cascade::stage_matches(rows, columns, cost, thresh)),
{
    if rows > 0 && columns > 0 {
        assignment::greedy_exists(cost, thresh);
    }
}

/// What filtering keeps stands in the order that it stood in.
proof fn lemma_filter_order<A>(s: Seq<A>, p: spec_fn(A) -> bool, r: spec_fn(A, A) -> bool)
    requires
        forall|a: int, b: int| 0 <= a < b < s.len() ==> r(#[trigger] s[a], #[trigger] s[b]),
    ensures
        forall|a: int, b: int|
            0 <= a < b < s.filter(p).len() ==> r(
                #[trigger] s.filter(p)[a],
                #[trigger] s.filter(p)[b],
            ),
    decreases s.len(),
{
    reveal(Seq::filter);
    if s.len() > 0 {
        let short = s.drop_last();
        assert forall|a: int, b: int| 0 <= a < b < short.len() implies r(
            #[trigger] short[a],
            #[trigger] short[b],
        ) by {
            assert(short[a] == s[a] && short[b] == s[b]);
        }
        lemma_filter_order(short, p, r);
        let f = short.filter(p);
        let g = s.filter(p);
        assert forall|a: int, b: int| 0 <= a < b < g.len() implies r(
            #[trigger] g[a],
            #[trigger] g[b],
        ) by {
            assert(g[a] == f[a]);
            if b < f.len() {
                assert(g[b] == f[b]);
            } else {
                cascade::lemma_filter_member(short, p, a);
                let i = choose|i: int| 0 <= i < short.len() && short[i] == f[a];
                assert(s[i] == g[a]);
                assert(s[s.len() - 1] == g[b]);
            }
        }
    }
}

impl<T: CascadeTrack> Pass<T> {
    /// The order of the active tracks: those that the first stage continued, those that the
    /// second stage continued, the new ones, and those that came back. Within a stage
    /// they come by cost and then by track; the new ones by detection, with successive
    /// ids.
    pub proof fn active_tracks_come_in_order(self, x: int, y: int)
        requires
            self.valid(),
            0 <= x < y < self.activated().len() + self.refind().len(),
        ensures
            ({
                let (o, p) = (self.active_origins()[x], self.active_origins()[y]);
                let ((high, j), (also, k)) = (self.takes()[x], self.takes()[y]);
                let run = |origin: int, strong: bool|
                    if origin >= self.pool.len() {
                        3int
                    } else if !self.pool[origin].in_tracked_state() {
                        4
                    } else if strong {
                        1
                    } else {
                        2
                    };
                let dear = Single { bits: 0x7f7f_ffff };
                &&& run(o, high) <= run(p, also)
                &&& run(o, high) == run(p, also) ==> if o >= self.pool.len() {
                    j < k && p - o == y - x
                } else {
                    let c = if high {
                        self.stage1_cost[o][j]
                    } else if self.pool[o].admits(self.low[j]) {
                        self.low_cost[o][j]
                    } else {
                        dear
                    };
                    let d = if high {
                        self.stage1_cost[p][k]
                    } else if self.pool[p].admits(self.low[k]) {
                        self.low_cost[p][k]
                    } else {
                        dear
                    };
                    c.less_than(d) || (c.equals(d) && o < p)
                }
            }),
    {
        self.lemma_parts();
        self.lemma_selections();
        self.lemma_place(x);
        self.lemma_place(y);
        let (na, nb) = (self.continuing().len(), self.second_matches().len());
        let nc = self.starters().len();
        let (o, p) = (self.active_origins()[x], self.active_origins()[y]);
        let (u, v) = (self.takes()[x], self.takes()[y]);
        let cost = self.stage1_cost;
        let low = self.second_cost();
        let before = |m: (usize, usize), n: (usize, usize)|
            assignment::precedes(cost, m, n) && m.0 != n.0;
        lemma_stage_order(self.pool.len(), self.high.len(), cost, self.match_thresh);
        assert forall|a: int, b: int| 0 <= a < b < self.first_matches().len() implies before(
            #[trigger] self.first_matches()[a],
            #[trigger] self.first_matches()[b],
        ) by {
            assert(!assignment::clash(self.first_matches()[a], self.first_matches()[b]));
        }
        self.detections_are_taken_within_the_cutoffs(x);
        self.detections_are_taken_within_the_cutoffs(y);
        if y < na {
            let q = |m: (usize, usize)| self.pool[m.0 as int].in_tracked_state();
            lemma_filter_order(self.first_matches(), q, before);
            assert(before(self.continuing()[x], self.continuing()[y]));
        } else if x >= na + nb + nc {
            let q = |m: (usize, usize)| !self.pool[m.0 as int].in_tracked_state();
            lemma_filter_order(self.first_matches(), q, before);
            let z = na + nb + nc;
            assert(before(self.returning()[x - z], self.returning()[y - z]));
        } else if na <= x && y < na + nb {
            lemma_stage_order(self.leftover().len(), self.low.len(), low, self.second_match_thresh);
            let (m, n) = (self.second_matches()[x - na], self.second_matches()[y - na]);
            assert(assignment::precedes(low, m, n) && !assignment::clash(m, n));
            assert(assignment::entry(low, m) == self.second_entry(o, u.1));
            assert(assignment::entry(low, n) == self.second_entry(p, v.1));
            if m.0 < n.0 {
                assert(self.leftover()[m.0 as int] < self.leftover()[n.0 as int]);
            }
        } else if na + nb <= x && y < na + nb + nc {
            assert(self.starters()[x - na - nb] < self.starters()[y - na - nb]);
        }
    }

    /// The new tracks of a pass are numbered without a gap, and the pass uses up as many ids
    /// as it starts tracks.
    pub proof fn new_tracks_are_numbered_without_a_gap(self, origin: int)
        requires
            self.valid(),
            self.pool.len() <= origin,
        ensures
            self.active_origins().len() == self.activated().len() + self.refind().len(),
            self.active_origins().contains(origin) <==> origin < self.pool.len()
                + self.starters().len(),
    {
        self.lemma_parts();
        self.lemma_selections();
        let (na, nb) = (self.continuing().len(), self.second_matches().len());
        if origin < self.pool.len() + self.starters().len() {
            let x = na + nb + (origin - self.pool.len());
            assert(self.active_origins()[x] == origin);
        }
        if self.active_origins().contains(origin) {
            let x = choose|x: int|
                0 <= x < self.active_origins().len() && self.active_origins()[x] == origin;
            self.lemma_place(x);
        }
    }

    /// The track of a second-stage match is what the match makes of it.
    proof fn lemma_matched_at(self, matches: Seq<(usize, usize)>, k: int)
        requires
            self.fits(),
            0 <= k < matches.len(),
            forall|x: int|
                0 <= x < matches.len() ==> (#[trigger] matches[x]).0 < self.leftover().len(),
            crate::conservation::independent(matches),
        ensures
            self.pool_after_matches(matches).len() == self.pool.len(),
            self.pool_after_matches(matches)[self.leftover()[matches[k].0 as int] as int]
                == self.recovery(matches[k]).0,
        decreases matches.len(),
    {
        self.lemma_leftover();
        let left = self.leftover();
        let shorter = matches.drop_last();
        let last = matches.len() - 1;
        assert(matches.last() == matches[last]);
        let i = left[matches[k].0 as int] as int;
        if k < last {
            assert forall|x: int| 0 <= x < shorter.len() implies (#[trigger] shorter[x]).0
                < left.len() by {
                assert(shorter[x] == matches[x]);
            }
            assert forall|a: int, b: int| 0 <= a < b < shorter.len() implies (
            #[trigger] shorter[a]).0 != (#[trigger] shorter[b]).0 && shorter[a].1
                != shorter[b].1 by {
                assert(shorter[a] == matches[a] && shorter[b] == matches[b]);
            }
            self.lemma_matched_at(shorter, k);
            assert(shorter[k] == matches[k]);
            assert(matches[k].0 != matches[last].0);
            lemma_rising_differ(left, matches[k].0 as int, matches[last].0 as int);
        } else {
            assert forall|x: int| 0 <= x < shorter.len() implies (#[trigger] shorter[x]).0
                < left.len() && left[shorter[x].0 as int] != i by {
                assert(shorter[x] == matches[x]);
                assert(matches[x].0 != matches[last].0);
                lemma_rising_differ(left, matches[x].0 as int, matches[last].0 as int);
            }
            self.lemma_pool_after_matches(shorter, i);
        }
    }

    /// Losing leftovers leaves the others as the second stage left them.
    proof fn lemma_not_dropped(self, dropouts: Seq<usize>, i: int)
        requires
            self.fits(),
            0 <= i < self.pool.len(),
            self.pool_after_matches(self.second_matches()).len() == self.pool.len(),
            forall|k: int|
                0 <= k < dropouts.len() ==> #[trigger] dropouts[k] < self.leftover().len(),
            forall|k: int|
                0 <= k < dropouts.len() ==> self.leftover()[#[trigger] dropouts[k] as int] != i,
        ensures
            self.pool_after_dropouts(dropouts).len() == self.pool.len(),
            self.pool_after_dropouts(dropouts)[i] == self.pool_after_matches(
                self.second_matches(),
            )[i],
        decreases dropouts.len(),
    {
        self.lemma_leftover();
        if dropouts.len() > 0 {
            let shorter = dropouts.drop_last();
            assert forall|k: int| 0 <= k < shorter.len() implies #[trigger] shorter[k]
                < self.leftover().len() && self.leftover()[shorter[k] as int] != i by {
                assert(shorter[k] == dropouts[k]);
            }
            assert(dropouts[dropouts.len() - 1] == dropouts.last());
            self.lemma_not_dropped(shorter, i);
        }
    }

    /// A leftover that is lost is lost.
    proof fn lemma_dropped_at(self, dropouts: Seq<usize>, k: int)
        requires
            self.fits(),
            self.pool_after_matches(self.second_matches()).len() == self.pool.len(),
            0 <= k < dropouts.len(),
            forall|x: int|
                0 <= x < dropouts.len() ==> #[trigger] dropouts[x] < self.leftover().len(),
            forall|a: int, b: int| 0 <= a < b < dropouts.len() ==> dropouts[a] < dropouts[b],
        ensures
            self.pool_after_dropouts(dropouts).len() == self.pool.len(),
            self.pool_after_dropouts(dropouts)[self.leftover()[dropouts[k] as int] as int]
                == self.dropout(dropouts[k]),
        decreases dropouts.len(),
    {
        self.lemma_leftover();
        let left = self.leftover();
        let shorter = dropouts.drop_last();
        let last = dropouts.len() - 1;
        assert(dropouts.last() == dropouts[last]);
        let i = left[dropouts[k] as int] as int;
        if k < last {
            assert forall|x: int| 0 <= x < shorter.len() implies #[trigger] shorter[x]
                < left.len() by {
                assert(shorter[x] == dropouts[x]);
            }
            self.lemma_dropped_at(shorter, k);
            assert(shorter[k] == dropouts[k]);
            assert(dropouts[k] < dropouts[last]);
            lemma_rising_differ(left, dropouts[k] as int, dropouts[last] as int);
        } else {
            assert forall|x: int| 0 <= x < shorter.len() implies #[trigger] shorter[x]
                < left.len() && left[shorter[x] as int] != i by {
                assert(shorter[x] == dropouts[x]);
                assert(dropouts[x] < dropouts[last]);
                lemma_rising_differ(left, dropouts[x] as int, dropouts[last] as int);
            }
            self.lemma_not_dropped(shorter, i);
        }
    }

    /// Applying second-stage matches keeps the size of the pool.
    proof fn lemma_pool_len(self, matches: Seq<(usize, usize)>)
        requires
            self.fits(),
            forall|k: int|
                0 <= k < matches.len() ==> (#[trigger] matches[k]).0 < self.leftover().len(),
        ensures
            self.pool_after_matches(matches).len() == self.pool.len(),
        decreases matches.len(),
    {
        if matches.len() > 0 {
            let shorter = matches.drop_last();
            assert forall|k: int| 0 <= k < shorter.len() implies (#[trigger] shorter[k]).0
                < self.leftover().len() by {
                assert(shorter[k] == matches[k]);
            }
            self.lemma_leftover();
            assert(matches.last() == matches[matches.len() - 1]);
            self.lemma_pool_len(shorter);
        }
    }

    /// What becomes of a pool track that took no high detection: if it took a low one, it goes on
    /// with it; if it took none and is in the tracked state, it becomes lost; else it stays
    /// as it is.
    pub proof fn the_rest_of_the_pool_settles(self, i: int)
        requires
            self.valid(),
            0 <= i < self.pool.len(),
            forall|x: int|
                0 <= x < self.activated().len() + self.refind().len()
                    && #[trigger] self.active_origins()[x] == i ==> !self.takes()[x].0,
        ensures
            self.settled().len() == self.pool.len(),
            forall|x: int|
                0 <= x < self.activated().len() + self.refind().len()
                    && #[trigger] self.active_origins()[x] == i ==> self.settled()[i] == (
                self.activated() + self.refind())[x].0,
            !self.active_origins().contains(i) ==> self.settled()[i] == if self.pool[i]
                .in_tracked_state() && !self.pool[i].in_lost_state() {
                self.pool[i].as_lost()
            } else {
                self.pool[i]
            },
    {
        self.lemma_parts();
        self.lemma_selections();
        self.lemma_leftover();
        let second = self.second_matches();
        let left = self.leftover();
        let drops = self.dropouts();
        let na = self.continuing().len();
        self.lemma_pool_len(second);
        let mid = self.pool_after_matches(second);
        if exists|k: int| 0 <= k < second.len() && left[(#[trigger] second[k]).0 as int] == i {
            let k = choose|k: int|
                0 <= k < second.len() && left[(#[trigger] second[k]).0 as int] == i;
            self.lemma_matched_at(second, k);
            self.lemma_second_place(k);
            assert(self.active_origins()[na + k] == i);
            assert(self.active_origins().contains(i));
            assert forall|x: int| 0 <= x < drops.len() implies left[
            #[trigger] drops[x] as int] != i by {
                assert(!assignment::row_taken(second, drops[x]));
                lemma_rising_differ(left, drops[x] as int, second[k].0 as int);
            }
            self.lemma_not_dropped(drops, i);
            assert forall|x: int|
                0 <= x < self.activated().len() + self.refind().len()
                    && #[trigger] self.active_origins()[x] == i implies self.settled()[i] == (
            self.activated() + self.refind())[x].0 by {
                self.lemma_place(x);
                if x != na + k {
                    let m = second[x - na];
                    if x - na < k {
                        assert(m.0 != second[k].0);
                    } else {
                        assert(second[k].0 != m.0);
                    }
                    lemma_rising_differ(left, m.0 as int, second[k].0 as int);
                }
            }
        } else {
            assert forall|x: int|
                0 <= x < self.activated().len() + self.refind().len()
                    && #[trigger] self.active_origins()[x] == i implies self.settled()[i] == (
            self.activated() + self.refind())[x].0 by {
                self.lemma_place(x);
                let m = second[x - na];
                assert(left[second[x - na].0 as int] == i);
            }
            self.lemma_pool_after_matches(second, i);
            if exists|k: int| 0 <= k < drops.len() && left[#[trigger] drops[k] as int] == i {
                let k = choose|k: int|
                    0 <= k < drops.len() && left[#[trigger] drops[k] as int] == i;
                let q = |l: usize|
                    !assignment::row_taken(second, l)
                        && !self.pool[left[l as int] as int].in_lost_state();
                indices::lemma_select(left.len(), q);
                assert(q(drops[k]));
                self.lemma_dropped_at(drops, k);
            } else {
                self.lemma_not_dropped(drops, i);
                if !self.active_origins().contains(i) && self.pool[i].in_tracked_state()
                    && !self.pool[i].in_lost_state() {
                    self.lemma_drops_out(i);
                    let l = choose|l: int| 0 <= l < drops.len() && left[drops[l] as int] == i;
                    assert(left[drops[l] as int] == i);
                }
            }
        }
    }

    /// A track in the tracked state, and not lost, that takes no detection drops out.
    proof fn lemma_drops_out(self, i: int)
        requires
            self.fits(),
            0 <= i < self.pool.len(),
            self.pool[i].in_tracked_state(),
            !self.pool[i].in_lost_state(),
            !self.active_origins().contains(i),
        ensures
            exists|k: int|
                0 <= k < self.dropouts().len() && self.leftover()[#[trigger] self.dropouts()[k] as int]
                    == i,
    {
        self.lemma_parts();
        self.lemma_selections();
        self.lemma_leftover();
        let first = self.first_matches();
        let second = self.second_matches();
        let left = self.leftover();
        if assignment::row_taken(first, i as usize) {
            let k = choose|k: int| 0 <= k < first.len() && (#[trigger] first[k]).0 == i as usize;
            let x = self.lemma_first_place(k);
            assert(self.active_origins()[x] == i);
        }
        assert(left.contains(i as usize));
        let l = choose|l: int| 0 <= l < left.len() && left[l] == i as usize;
        if assignment::row_taken(second, l as usize) {
            let k = choose|k: int| 0 <= k < second.len() && (#[trigger] second[k]).0 == l as usize;
            self.lemma_second_place(k);
            assert(self.active_origins()[self.continuing().len() + k] == i);
        }
        let q = |l: usize|
            !assignment::row_taken(second, l)
                && !self.pool[left[l as int] as int].in_lost_state();
        indices::lemma_select(left.len(), q);
        assert(q(l as usize));
        assert(self.dropouts().contains(l as usize));
        let k = choose|k: int|
            0 <= k < self.dropouts().len() && self.dropouts()[k] == l as usize;
        assert(left[self.dropouts()[k] as int] == i);
    }
}

impl<T: CascadeTrack> Pass<T> {
    /// The lost tracks of a pass. First come, in their order, the tracks in the tracked state
    /// that took no detection, turned lost. Then come, in their order, the tracks from
    /// `n_tracked` on that took no high detection and whose last match lies within the
    /// buffer.
    #[verifier::rlimit(40)]
    pub proof fn lost_tracks_are_accounted_for(self)
        requires
            self.valid(),
        ensures
            self.active_origins().len() == self.activated().len() + self.refind().len(),
            self.takes().len() == self.activated().len() + self.refind().len(),
            self.lost_origins().len() == self.lost().len(),
            self.dropouts().len() <= self.lost().len(),
            forall|x: int, y: int|
                (0 <= x < y < self.dropouts().len() || self.dropouts().len() <= x < y
                    < self.lost().len()) ==> #[trigger] self.lost_origins()[x]
                    < #[trigger] self.lost_origins()[y],
            forall|x: int|
                0 <= x < self.dropouts().len() ==> {
                    let o = #[trigger] self.lost_origins()[x];
                    &&& 0 <= o < self.pool.len()
                    &&& self.pool[o].in_tracked_state()
                    &&& !self.pool[o].in_lost_state()
                    &&& !self.active_origins().contains(o)
                    &&& self.lost()[x] == self.pool[o].as_lost()
                },
            forall|i: int|
                0 <= i < self.pool.len() && (#[trigger] self.pool[i]).in_tracked_state()
                    && !self.pool[i].in_lost_state() && !self.active_origins().contains(i)
                    ==> exists|x: int|
                    0 <= x < self.dropouts().len() && #[trigger] self.lost_origins()[x] == i,
            forall|x: int|
                self.dropouts().len() <= x < self.lost().len() ==> {
                    let o = #[trigger] self.lost_origins()[x];
                    &&& self.n_tracked <= o < self.pool.len()
                    &&& self.lost()[x] == self.settled()[o]
                    &&& self.frame_id - self.lost()[x].last_frame() <= self.buffer_size
                    &&& forall|z: int|
                        0 <= z < self.active_origins().len() && #[trigger] self.active_origins()[z]
                            == o ==> !self.takes()[z].0
                },
            forall|i: int|
                self.n_tracked <= i < self.pool.len() && (forall|z: int|
                    0 <= z < self.active_origins().len() && #[trigger] self.active_origins()[z] == i
                        ==> !self.takes()[z].0) && self.frame_id - (#[trigger] self.settled()[i])
                    .last_frame() <= self.buffer_size ==> exists|x: int|
                    self.dropouts().len() <= x < self.lost().len()
                        && #[trigger] self.lost_origins()[x] == i,
    {
        self.lemma_parts();
        self.lemma_selections();
        self.lemma_leftover();
        let first = self.first_matches();
        let second = self.second_matches();
        let left = self.leftover();
        let drops = self.dropouts();
        let kept = self.kept();
        let lo = self.lost_origins();
        let nd = drops.len();
        assert(forall|x: int| 0 <= x < nd ==> lo[x] == left[#[trigger] drops[x] as int]);
        assert(forall|x: int| nd <= x < lo.len() ==> #[trigger] lo[x] == kept[x - nd]);
        assert forall|x: int, y: int|
            (0 <= x < y < nd || nd <= x < y < self.lost().len()) implies #[trigger] lo[x]
            < #[trigger] lo[y] by {
            if y < nd {
                assert(drops[x] < drops[y]);
                assert(left[drops[x] as int] < left[drops[y] as int]);
            } else {
                assert(kept[x - nd] < kept[y - nd]);
            }
        }
        let q = |l: usize|
            !assignment::row_taken(second, l)
                && !self.pool[left[l as int] as int].in_lost_state();
        indices::lemma_select(left.len(), q);
        assert forall|x: int| 0 <= x < nd implies {
            let o = #[trigger] lo[x];
            &&& 0 <= o < self.pool.len()
            &&& self.pool[o].in_tracked_state()
            &&& !self.pool[o].in_lost_state()
            &&& !self.active_origins().contains(o)
            &&& self.lost()[x] == self.pool[o].as_lost()
        } by {
            let l = drops[x];
            assert(q(l));
            let o = left[l as int] as int;
            assert(lo[x] == o);
            if self.active_origins().contains(o) {
                let z = choose|z: int|
                    0 <= z < self.active_origins().len() && self.active_origins()[z] == o;
                self.lemma_place(z);
                if self.takes()[z].0 {
                    let k = self.lemma_first_match(z);
                    assert(assignment::row_taken(first, o as usize));
                } else {
                    let m = second[z - self.continuing().len()];
                    assert(assignment::row_taken(second, m.0));
                    if m.0 != l {
                        lemma_rising_differ(left, m.0 as int, l as int);
                    }
                }
            }
        }
        assert forall|i: int|
            0 <= i < self.pool.len() && (#[trigger] self.pool[i]).in_tracked_state()
                && !self.pool[i].in_lost_state() && !self.active_origins().contains(
                i,
            ) implies exists|x: int| 0 <= x < nd && #[trigger] lo[x] == i by {
            self.lemma_drops_out(i);
            let k = choose|k: int| 0 <= k < nd && left[#[trigger] drops[k] as int] == i;
            assert(lo[k] == i);
        }
        assert forall|x: int| nd <= x < self.lost().len() implies {
            let o = #[trigger] lo[x];
            &&& self.n_tracked <= o < self.pool.len()
            &&& self.lost()[x] == self.settled()[o]
            &&& self.frame_id - self.lost()[x].last_frame() <= self.buffer_size
            &&& forall|z: int|
                0 <= z < self.active_origins().len() && #[trigger] self.active_origins()[z] == o
                    ==> !self.takes()[z].0
        } by {
            let o = kept[x - nd];
            assert(lo[x] == o);
            assert forall|z: int|
                0 <= z < self.active_origins().len() && #[trigger] self.active_origins()[z]
                    == o implies !self.takes()[z].0 by {
                if self.takes()[z].0 {
                    let k = self.lemma_first_match(z);
                    assert(assignment::row_taken(first, o));
                }
            }
        }
        let live = |i: usize|
            !assignment::row_taken(first, i) && self.n_tracked <= i && self.frame_id
                - self.settled()[i as int].last_frame() <= self.buffer_size;
        indices::lemma_select(self.pool.len(), live);
        assert forall|i: int|
            self.n_tracked <= i < self.pool.len() && (forall|z: int|
                0 <= z < self.active_origins().len() && #[trigger] self.active_origins()[z] == i
                    ==> !self.takes()[z].0) && self.frame_id - (
            #[trigger] self.settled()[i]).last_frame() <= self.buffer_size implies exists|x: int|
            nd <= x < self.lost().len() && #[trigger] lo[x] == i by {
            if assignment::row_taken(first, i as usize) {
                let k = choose|k: int|
                    0 <= k < first.len() && (#[trigger] first[k]).0 == i as usize;
                let z = self.lemma_first_place(k);
                assert(self.active_origins()[z] == i);
            }
            assert(live(i as usize));
            assert(kept.contains(i as usize));
            let k = choose|k: int| 0 <= k < kept.len() && kept[k] == i as usize;
            assert(lo[nd + k] == i);
        }
    }
}

/// A pass is valid whenever its matrices have a row for each track and a column for each
/// detection, the pool is layered, no track is ahead of the frame or at the end of its
/// count, and the ids suffice.
pub proof fn well_shaped_passes_are_valid<T: CascadeTrack>(pass: Pass<T>)
    requires
        pass.n_tracked <= pass.pool.len() <= usize::MAX,
        pass.high.len() <= usize::MAX,
        pass.low.len() <= usize::MAX,
        pass.stage1_cost.len() == pass.pool.len(),
        pass.low_cost.len() == pass.pool.len(),
        forall|i: int|
            0 <= i < pass.pool.len() ==> (#[trigger] pass.stage1_cost[i]).len() == pass.high.len(),
        forall|i: int|
            0 <= i < pass.pool.len() ==> (#[trigger] pass.low_cost[i]).len() == pass.low.len(),
        forall|i: int|
            0 <= i < pass.pool.len() ==> ((#[trigger] pass.pool[i]).in_tracked_state() <==> i
                < pass.n_tracked),
        forall|i: int|
            0 <= i < pass.pool.len() ==> (#[trigger] pass.pool[i]).can_continue()
                && pass.pool[i].last_frame() <= pass.frame_id,
        pass.next_id + pass.high.len() <= u64::MAX,
    ensures
        pass.valid(),
        pass.layered(),
{
    assert(pass.fits() && pass.layered());
    assert forall|i: int|
        pass.n_tracked <= i < pass.pool.len() && !assignment::row_taken(
            pass.first_matches(),
            i as usize,
        ) implies (#[trigger] pass.settled()[i]).last_frame() <= pass.frame_id by {
        pass.lemma_settled(i);
    }
}

/// A pass is given what [`cascade::run`] is given, unchanged.
pub proof fn a_pass_holds_its_inputs<T: CascadeTrack>(
    pool: Seq<T>,
    n_tracked: usize,
    high: Seq<T::Det>,
    low: Seq<T::Det>,
    stage1_cost: Seq<Vec<Single>>,
    low_cost: Seq<Vec<Single>>,
    match_thresh: Single,
    second_match_thresh: Single,
    det_thresh: Single,
    buffer_size: usize,
    frame_id: usize,
    next_id: u64,
)
    ensures
        ({
            let pass = cascade::pass_of(
                pool, n_tracked, high, low, stage1_cost, low_cost, match_thresh,
                second_match_thresh, det_thresh, buffer_size, frame_id, next_id,
            );
            &&& pass.pool == pool
            &&& pass.n_tracked == n_tracked
            &&& pass.high == high
            &&& pass.low == low
            &&& pass.stage1_cost.len() == stage1_cost.len()
            &&& pass.low_cost.len() == low_cost.len()
            &&& forall|i: int|
                0 <= i < stage1_cost.len() ==> #[trigger] pass.stage1_cost[i] == stage1_cost[i]@
            &&& forall|i: int|
                0 <= i < low_cost.len() ==> #[trigger] pass.low_cost[i] == low_cost[i]@
            &&& pass.match_thresh == match_thresh
            &&& pass.second_match_thresh == second_match_thresh
            &&& pass.det_thresh == det_thresh
            &&& pass.buffer_size == buffer_size
            &&& pass.frame_id == frame_id
            &&& pass.next_id == next_id
        }),
{
}

proof fn lemma_rising_differ(s: Seq<usize>, a: int, b: int)
    requires
        0 <= a < s.len(),
        0 <= b < s.len(),
        a != b,
        forall|x: int, y: int| 0 <= x < y < s.len() ==> s[x] < s[y],
    ensures
        s[a] != s[b],
{
    if a < b {
        assert(s[a] < s[b]);
    } else {
        assert(s[b] < s[a]);
    }
}

} // verus!
