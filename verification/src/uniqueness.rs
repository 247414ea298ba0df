//! A frame has one outcome: what is asked of it leaves no choice.

use crate::byte_track::{Frame, STrack, TrackState, TrackerView};
use crate::motion::{KalmanStep, MotionRequest};
use crate::number;
use crate::number::Single;
use vstd::prelude::*;

verus! {

/// A row and a column, whichever they are: what a statement about all pairs is about.
pub open spec fn pair(i: int, k: int) -> bool {
    true
}

/// Whether the pair `(a, b)` comes at the latest where `(i, k)` does: it costs less, or as much
/// and has the smaller row, or the same row and no larger column.
spec fn no_later(cost: spec_fn(int, int) -> Single, a: int, b: int, i: int, k: int) -> bool {
    ||| cost(a, b).less_than(cost(i, k))
    ||| cost(a, b).equals(cost(i, k)) && (a < i || (a == i && b <= k))
}

/// Whether one of the pairs that `taken` holds shares a row or a column with `(i, k)` and comes no
/// later.
spec fn decided_by(
    taken: spec_fn(int, int) -> bool,
    cost: spec_fn(int, int) -> Single,
    i: int,
    k: int,
) -> bool {
    exists|a: int, b: int| #[trigger]
        taken(a, b) && (a == i || b == k) && no_later(cost, a, b, i, k)
}

/// Whether `taken` holds eligible pairs that share no row and no column, and decides all eligible
/// pairs.
spec fn stable(
    eligible: spec_fn(int, int) -> bool,
    cost: spec_fn(int, int) -> Single,
    taken: spec_fn(int, int) -> bool,
) -> bool {
    &&& forall|i: int, k: int| #[trigger] taken(i, k) ==> eligible(i, k)
    &&& forall|i: int, k: int, a: int, b: int| #[trigger]
        taken(i, k) && #[trigger] taken(a, b) && (i == a || k == b) ==> i == a && k == b
    &&& forall|i: int, k: int| eligible(i, k) ==> #[trigger] decided_by(taken, cost, i, k)
}

/// Of two stable sets of pairs each is part of the other.
proof fn lemma_stable_agree(
    eligible: spec_fn(int, int) -> bool,
    cost: spec_fn(int, int) -> Single,
    s: spec_fn(int, int) -> bool,
    t: spec_fn(int, int) -> bool,
    i: int,
    k: int,
)
    requires
        stable(eligible, cost, s),
        stable(eligible, cost, t),
        forall|i: int, k: int| #[trigger] eligible(i, k) ==> 0 <= i && 0 <= k,
        s(i, k),
    ensures
        t(i, k),
    decreases cost(i, k).value() + number::units(0x8000_0000), i, k,
{
    assert(eligible(i, k));
    assert(decided_by(t, cost, i, k));
    let (a, b) = choose|a: int, b: int| #[trigger]
        t(a, b) && (a == i || b == k) && no_later(cost, a, b, i, k);
    number::lemma_value_range(cost(i, k));
    number::lemma_value_range(cost(a, b));
    assert(eligible(a, b));
    if a != i || b != k {
        lemma_stable_agree(eligible, cost, t, s, a, b);
        assert(s(a, b) && s(i, k));
    }
}

/// Two sequences that hold the same elements and are sorted by one asymmetric relation are the
/// same.
proof fn lemma_sorted_agree<A>(s: Seq<A>, t: Seq<A>, before: spec_fn(A, A) -> bool, n: nat)
    requires
        n <= s.len(),
        forall|a: A, b: A| #[trigger] before(a, b) ==> !before(b, a),
        forall|x: int, y: int|
            0 <= x < y < s.len() ==> before(#[trigger] s[x], #[trigger] s[y]),
        forall|x: int, y: int|
            0 <= x < y < t.len() ==> before(#[trigger] t[x], #[trigger] t[y]),
        forall|x: int| 0 <= x < s.len() ==> t.contains(#[trigger] s[x]),
        forall|x: int| 0 <= x < t.len() ==> s.contains(#[trigger] t[x]),
    ensures
        n <= t.len(),
        s.take(n as int) == t.take(n as int),
    decreases n,
{
    if n > 0 {
        let x = n - 1;
        lemma_sorted_agree(s, t, before, (n - 1) as nat);
        assert forall|z: int| 0 <= z < x implies s[z] == t[z] by {
            assert(s.take(x)[z] == t.take(x)[z]);
        }
        assert(t.contains(s[x]));
        let y = choose|y: int| 0 <= y < t.len() && t[y] == s[x];
        if y < x {
            assert(before(s[y], s[x]));
        }
        assert(s.contains(t[x]));
        let z = choose|z: int| 0 <= z < s.len() && s[z] == t[x];
        if z < x {
            assert(before(t[z], t[x]));
        }
        if y > x {
            assert(before(t[x], t[y]));
            if z > x {
                assert(before(s[x], s[z]));
            }
        }
        assert(s.take(n as int) =~= t.take(n as int));
    }
}

proof fn lemma_sorted_same<A>(s: Seq<A>, t: Seq<A>, before: spec_fn(A, A) -> bool)
    requires
        forall|a: A, b: A| #[trigger] before(a, b) ==> !before(b, a),
        forall|x: int, y: int|
            0 <= x < y < s.len() ==> before(#[trigger] s[x], #[trigger] s[y]),
        forall|x: int, y: int|
            0 <= x < y < t.len() ==> before(#[trigger] t[x], #[trigger] t[y]),
        forall|x: int| 0 <= x < s.len() ==> t.contains(#[trigger] s[x]),
        forall|x: int| 0 <= x < t.len() ==> s.contains(#[trigger] t[x]),
    ensures
        s == t,
{
    lemma_sorted_agree(s, t, before, s.len());
    lemma_sorted_agree(t, s, before, t.len());
    assert(s.take(s.len() as int) =~= s);
    assert(t.take(s.len() as int) =~= t);
}

impl TrackerView {
    /// The distance of a stored track and a detection, the largest finite number for different
    /// classes.
    spec fn distance(self, frame: Frame, i: int, k: int) -> Single {
        if (self.tracked_stracks + self.lost_stracks)[i].class_id == frame.detections[k].2 {
            frame.iou_cost[i][k]
        } else {
            Single { bits: 0x7f7f_ffff }
        }
    }

    spec fn strong(self, frame: Frame, k: int) -> bool {
        self.track_thresh.at_most(frame.detections[k].1)
    }

    /// Whether stored tracks and new ones `o` take the detections `u` as the stages ask.
    spec fn takes_rightly(self, frame: Frame, o: Seq<int>, u: Seq<int>) -> bool {
        let n = self.tracked_stracks.len() + self.lost_stracks.len();
        let t = self.tracked_stracks.len();
        &&& o.len() == u.len()
        &&& forall|x: int|
            0 <= x < o.len() ==> {
                &&& 0 <= #[trigger] o[x]
                &&& 0 <= u[x] < frame.detections.len()
                &&& o[x] >= t ==> self.strong(frame, u[x])
                &&& if o[x] >= n {
                    !frame.detections[u[x]].1.less_than(self.det_thresh)
                } else if self.strong(frame, u[x]) {
                    self.distance(frame, o[x], u[x]).at_most(self.match_thresh)
                } else {
                    self.distance(frame, o[x], u[x]).at_most(self.second_match_thresh)
                }
            }
        &&& forall|x: int, y: int|
            0 <= x < y < o.len() ==> #[trigger] o[x] != #[trigger] o[y] && u[x] != u[y]
        &&& forall|k: int|
            0 <= k < frame.detections.len() && self.strong(frame, k)
                && !frame.detections[k].1.less_than(self.det_thresh) ==> #[trigger] u.contains(k)
        &&& forall|i: int, k: int|
            0 <= i < n && 0 <= k < frame.detections.len() && self.strong(frame, k)
                && self.distance(frame, i, k).at_most(self.match_thresh)
                ==> #[trigger] self.decided_high(frame, o, u, i, k)
        &&& forall|i: int, k: int|
            0 <= i < t && 0 <= k < frame.detections.len() && !self.strong(frame, k)
                && self.distance(frame, i, k).at_most(self.second_match_thresh) && (forall|x: int|
                0 <= x < o.len() && #[trigger] o[x] == i ==> !self.strong(frame, u[x]))
                ==> #[trigger] self.decided_low(frame, o, u, i, k)
    }

    spec fn decided_high(self, frame: Frame, o: Seq<int>, u: Seq<int>, i: int, k: int) -> bool {
        exists|x: int|
            0 <= x < o.len() && (#[trigger] o[x] == i || u[x] == k) && o[x]
                < self.tracked_stracks.len() + self.lost_stracks.len() && self.strong(frame, u[x])
                && no_later(|i: int, k: int| self.distance(frame, i, k), o[x], u[x], i, k)
    }

    spec fn decided_low(self, frame: Frame, o: Seq<int>, u: Seq<int>, i: int, k: int) -> bool {
        exists|x: int|
            0 <= x < o.len() && (#[trigger] o[x] == i || u[x] == k) && o[x]
                < self.tracked_stracks.len() && !self.strong(frame, u[x]) && no_later(
                |i: int, k: int| self.distance(frame, i, k),
                o[x],
                u[x],
                i,
                k,
            )
    }

    /// The pairs of the first stage.
    spec fn high_pairs(self, frame: Frame, o: Seq<int>, u: Seq<int>) -> spec_fn(int, int) -> bool {
        |i: int, k: int|
            exists|x: int|
                0 <= x < o.len() && #[trigger] o[x] == i && u[x] == k && i
                    < self.tracked_stracks.len() + self.lost_stracks.len() && self.strong(frame, k)
    }

    /// The pairs of the second stage.
    spec fn low_pairs(self, frame: Frame, o: Seq<int>, u: Seq<int>) -> spec_fn(int, int) -> bool {
        |i: int, k: int|
            exists|x: int|
                0 <= x < o.len() && #[trigger] o[x] == i && u[x] == k && !self.strong(frame, k)
    }

    proof fn lemma_high_stable(self, frame: Frame, o: Seq<int>, u: Seq<int>)
        requires
            self.takes_rightly(frame, o, u),
        ensures
            stable(
                |i: int, k: int|
                    0 <= i < self.tracked_stracks.len() + self.lost_stracks.len() && 0 <= k
                        < frame.detections.len() && self.strong(frame, k) && self.distance(
                        frame,
                        i,
                        k,
                    ).at_most(self.match_thresh),
                |i: int, k: int| self.distance(frame, i, k),
                self.high_pairs(frame, o, u),
            ),
    {
        let n = self.tracked_stracks.len() + self.lost_stracks.len();
        let eligible = |i: int, k: int|
            0 <= i < n && 0 <= k < frame.detections.len() && self.strong(frame, k)
                && self.distance(frame, i, k).at_most(self.match_thresh);
        let cost = |i: int, k: int| self.distance(frame, i, k);
        let taken = self.high_pairs(frame, o, u);
        assert forall|i: int, k: int| #[trigger] taken(i, k) implies eligible(i, k) by {
            let x = choose|x: int| 0 <= x < o.len() && #[trigger] o[x] == i && u[x] == k;
        }
        assert forall|i: int, k: int, a: int, b: int| #[trigger]
            taken(i, k) && #[trigger] taken(a, b) && (i == a || k == b) implies i == a && k == b by {
            let x = choose|x: int| 0 <= x < o.len() && #[trigger] o[x] == i && u[x] == k;
            let y = choose|y: int| 0 <= y < o.len() && #[trigger] o[y] == a && u[y] == b;
            if x < y {
                assert(o[x] != o[y]);
            } else if y < x {
                assert(o[y] != o[x]);
            }
        }
        assert forall|i: int, k: int| eligible(i, k) implies #[trigger] decided_by(
            taken,
            cost,
            i,
            k,
        ) by {
            assert(self.distance(frame, i, k).at_most(self.match_thresh));
            assert(self.decided_high(frame, o, u, i, k));
            let x = choose|x: int|
                0 <= x < o.len() && (#[trigger] o[x] == i || u[x] == k) && o[x] < n && self.strong(
                    frame,
                    u[x],
                ) && no_later(cost, o[x], u[x], i, k);
            assert(taken(o[x], u[x]));
        }
    }

    /// The first stage of two outcomes is the same.
    proof fn lemma_high_same(
        self,
        frame: Frame,
        o: Seq<int>,
        u: Seq<int>,
        p: Seq<int>,
        v: Seq<int>,
        x: int,
    ) -> (y: int)
        requires
            self.takes_rightly(frame, o, u),
            self.takes_rightly(frame, p, v),
            0 <= x < o.len(),
            o[x] < self.tracked_stracks.len() + self.lost_stracks.len(),
            self.strong(frame, u[x]),
        ensures
            0 <= y < p.len(),
            p[y] == o[x],
            v[y] == u[x],
    {
        let n = self.tracked_stracks.len() + self.lost_stracks.len();
        let eligible = |i: int, k: int|
            0 <= i < n && 0 <= k < frame.detections.len() && self.strong(frame, k)
                && self.distance(frame, i, k).at_most(self.match_thresh);
        let cost = |i: int, k: int| self.distance(frame, i, k);
        self.lemma_high_stable(frame, o, u);
        self.lemma_high_stable(frame, p, v);
        let s = self.high_pairs(frame, o, u);
        let t = self.high_pairs(frame, p, v);
        assert(s(o[x], u[x]));
        lemma_stable_agree(eligible, cost, s, t, o[x], u[x]);
        choose|y: int| 0 <= y < p.len() && #[trigger] p[y] == o[x] && v[y] == u[x]
    }

    /// The pairs of the second stage, with the leftovers of the outcome `(p, v)`.
    proof fn lemma_low_stable(
        self,
        frame: Frame,
        o: Seq<int>,
        u: Seq<int>,
        p: Seq<int>,
        v: Seq<int>,
    )
        requires
            self.takes_rightly(frame, o, u),
            self.takes_rightly(frame, p, v),
        ensures
            stable(
                |i: int, k: int|
                    0 <= i < self.tracked_stracks.len() && 0 <= k < frame.detections.len()
                        && !self.strong(frame, k) && self.distance(frame, i, k).at_most(
                        self.second_match_thresh,
                    ) && (forall|x: int|
                        0 <= x < p.len() && #[trigger] p[x] == i ==> !self.strong(frame, v[x])),
                |i: int, k: int| self.distance(frame, i, k),
                self.low_pairs(frame, o, u),
            ),
    {
        let t = self.tracked_stracks.len();
        let eligible = |i: int, k: int|
            0 <= i < t && 0 <= k < frame.detections.len() && !self.strong(frame, k)
                && self.distance(frame, i, k).at_most(self.second_match_thresh) && (forall|x: int|
                0 <= x < p.len() && #[trigger] p[x] == i ==> !self.strong(frame, v[x]));
        let cost = |i: int, k: int| self.distance(frame, i, k);
        let taken = self.low_pairs(frame, o, u);
        assert forall|i: int, k: int| #[trigger] taken(i, k) implies eligible(i, k) by {
            let x = choose|x: int| 0 <= x < o.len() && #[trigger] o[x] == i && u[x] == k;
            assert forall|y: int| 0 <= y < p.len() && #[trigger] p[y] == i implies !self.strong(
                frame,
                v[y],
            ) by {
                if self.strong(frame, v[y]) {
                    let z = self.lemma_high_same(frame, p, v, o, u, y);
                    if z < x {
                        assert(o[z] != o[x]);
                    } else if x < z {
                        assert(o[x] != o[z]);
                    }
                }
            }
        }
        assert forall|i: int, k: int, a: int, b: int| #[trigger]
            taken(i, k) && #[trigger] taken(a, b) && (i == a || k == b) implies i == a && k == b by {
            let x = choose|x: int| 0 <= x < o.len() && #[trigger] o[x] == i && u[x] == k;
            let y = choose|y: int| 0 <= y < o.len() && #[trigger] o[y] == a && u[y] == b;
            if x < y {
                assert(o[x] != o[y]);
            } else if y < x {
                assert(o[y] != o[x]);
            }
        }
        assert forall|i: int, k: int| eligible(i, k) implies #[trigger] decided_by(
            taken,
            cost,
            i,
            k,
        ) by {
            assert forall|x: int| 0 <= x < o.len() && #[trigger] o[x] == i implies !self.strong(
                frame,
                u[x],
            ) by {
                if self.strong(frame, u[x]) {
                    let y = self.lemma_high_same(frame, o, u, p, v, x);
                    assert(p[y] == i);
                }
            }
            assert(self.distance(frame, i, k).at_most(self.second_match_thresh));
            assert(self.decided_low(frame, o, u, i, k));
            let x = choose|x: int|
                0 <= x < o.len() && (#[trigger] o[x] == i || u[x] == k) && o[x] < t
                    && !self.strong(frame, u[x]) && no_later(cost, o[x], u[x], i, k);
            assert(taken(o[x], u[x]));
        }
    }

    /// What two outcomes have in common: the detection that a stored track takes, and those that
    /// start tracks.
    proof fn lemma_takes_same(
        self,
        frame: Frame,
        o: Seq<int>,
        u: Seq<int>,
        p: Seq<int>,
        v: Seq<int>,
        x: int,
    ) -> (y: int)
        requires
            self.takes_rightly(frame, o, u),
            self.takes_rightly(frame, p, v),
            0 <= x < o.len(),
        ensures
            0 <= y < p.len(),
            v[y] == u[x],
            o[x] < self.tracked_stracks.len() + self.lost_stracks.len() ==> p[y] == o[x],
            o[x] >= self.tracked_stracks.len() + self.lost_stracks.len() ==> p[y]
                >= self.tracked_stracks.len() + self.lost_stracks.len(),
    {
        let n = self.tracked_stracks.len() + self.lost_stracks.len();
        let t = self.tracked_stracks.len();
        assert(0 <= o[x]);
        if o[x] < n && self.strong(frame, u[x]) {
            self.lemma_high_same(frame, o, u, p, v, x)
        } else if o[x] < n {
            let eligible = |i: int, k: int|
                0 <= i < t && 0 <= k < frame.detections.len() && !self.strong(frame, k)
                    && self.distance(frame, i, k).at_most(self.second_match_thresh) && (forall|
                    x: int,
                |
                    0 <= x < p.len() && #[trigger] p[x] == i ==> !self.strong(frame, v[x]));
            let cost = |i: int, k: int| self.distance(frame, i, k);
            self.lemma_low_stable(frame, o, u, p, v);
            self.lemma_low_stable(frame, p, v, p, v);
            let a = self.low_pairs(frame, o, u);
            let b = self.low_pairs(frame, p, v);
            assert(a(o[x], u[x]));
            lemma_stable_agree(eligible, cost, a, b, o[x], u[x]);
            choose|y: int| 0 <= y < p.len() && #[trigger] p[y] == o[x] && v[y] == u[x]
        } else {
            assert(self.strong(frame, u[x]));
            assert(v.contains(u[x]));
            let y = choose|y: int| 0 <= y < v.len() && v[y] == u[x];
            assert(0 <= p[y]);
            if p[y] < n {
                let z = self.lemma_high_same(frame, p, v, o, u, y);
                if z < x {
                    assert(o[z] != o[x] && u[z] != u[x]);
                } else if x < z {
                    assert(o[x] != o[z] && u[x] != u[z]);
                }
            }
            y
        }
    }

    /// In which of the four runs of reported tracks one belongs that took detection `k` with the
    /// stored track `i`, or as a new track if `i` is none.
    spec fn run_of(self, frame: Frame, i: int, k: int) -> int {
        if i < 0 || i >= self.tracked_stracks.len() + self.lost_stracks.len() {
            3
        } else if i >= self.tracked_stracks.len() {
            4
        } else if self.strong(frame, k) {
            1
        } else {
            2
        }
    }

    spec fn reported_before(self, frame: Frame, a: (int, int), b: (int, int)) -> bool {
        &&& self.run_of(frame, a.0, a.1) <= self.run_of(frame, b.0, b.1)
        &&& self.run_of(frame, a.0, a.1) == self.run_of(frame, b.0, b.1) ==> if self.run_of(
            frame,
            a.0,
            a.1,
        ) == 3 {
            a.1 < b.1
        } else {
            let (c, d) = (self.distance(frame, a.0, a.1), self.distance(frame, b.0, b.1));
            c.less_than(d) || (c.equals(d) && a.0 < b.0)
        }
    }

    /// Whether the reported tracks come in order.
    spec fn ordered_rightly(self, frame: Frame, o: Seq<int>, u: Seq<int>) -> bool {
        &&& forall|x: int, y: int|
            0 <= x < y < o.len() ==> self.reported_before(
                frame,
                (#[trigger] o[x], u[x]),
                (#[trigger] o[y], u[y]),
            )
        &&& forall|x: int, y: int|
            0 <= x < y < o.len() && o[x] >= self.tracked_stracks.len() + self.lost_stracks.len()
                && o[y] >= self.tracked_stracks.len() + self.lost_stracks.len() ==> (
            #[trigger] o[y]) - (#[trigger] o[x]) == y - x
    }

    /// Whether the new tracks have the origins `n..n + count`.
    spec fn numbered_rightly(self, o: Seq<int>, count: int) -> bool {
        forall|w: int|
            self.tracked_stracks.len() + self.lost_stracks.len() <= w ==> (#[trigger] o.contains(w)
                <==> w < self.tracked_stracks.len() + self.lost_stracks.len() + count)
    }

    /// Two outcomes have the same origins and uses.
    #[verifier::rlimit(40)]
    proof fn lemma_same_takes(
        self,
        frame: Frame,
        o: Seq<int>,
        u: Seq<int>,
        p: Seq<int>,
        v: Seq<int>,
        count: int,
        other: int,
    )
        requires
            self.takes_rightly(frame, o, u),
            self.takes_rightly(frame, p, v),
            self.ordered_rightly(frame, o, u),
            self.ordered_rightly(frame, p, v),
            self.numbered_rightly(o, count),
            self.numbered_rightly(p, other),
            0 <= count,
            0 <= other,
        ensures
            o == p,
            u == v,
            count == other,
    {
        let n = self.tracked_stracks.len() + self.lost_stracks.len();
        let clip = |i: int|
            if i < n {
                i
            } else {
                -1
            };
        let s = Seq::new(o.len(), |x: int| (clip(o[x]), u[x]));
        let t = Seq::new(p.len(), |x: int| (clip(p[x]), v[x]));
        let before = |a: (int, int), b: (int, int)| self.reported_before(frame, a, b);
        assert forall|a: (int, int), b: (int, int)| #[trigger] before(a, b) implies !before(b, a) by {}
        assert forall|x: int, y: int| 0 <= x < y < s.len() implies before(
            #[trigger] s[x],
            #[trigger] s[y],
        ) by {
            assert(self.reported_before(frame, (o[x], u[x]), (o[y], u[y])));
        }
        assert forall|x: int, y: int| 0 <= x < y < t.len() implies before(
            #[trigger] t[x],
            #[trigger] t[y],
        ) by {
            assert(self.reported_before(frame, (p[x], v[x]), (p[y], v[y])));
        }
        assert forall|x: int| 0 <= x < s.len() implies t.contains(#[trigger] s[x]) by {
            let y = self.lemma_takes_same(frame, o, u, p, v, x);
            assert(t[y] == s[x]);
        }
        assert forall|x: int| 0 <= x < t.len() implies s.contains(#[trigger] t[x]) by {
            let y = self.lemma_takes_same(frame, p, v, o, u, x);
            assert(s[y] == t[x]);
        }
        lemma_sorted_same(s, t, before);
        assert(s.len() == t.len());
        assert forall|x: int| 0 <= x < o.len() implies #[trigger] u[x] == v[x] && (o[x] < n
            <==> p[x] < n) && (o[x] < n ==> o[x] == p[x]) by {
            assert(s[x] == t[x]);
            assert(0 <= o[x] && 0 <= p[x]);
        }
        assert forall|x: int| 0 <= x < o.len() implies #[trigger] o[x] == p[x] by {
            assert(u[x] == v[x]);
            if o[x] >= n {
                assert(o.contains(o[x]));
                assert(p.contains(p[x]));
                assert(o.contains(n as int));
                assert(p.contains(n as int));
                let y = choose|y: int| 0 <= y < o.len() && o[y] == n;
                let z = choose|z: int| 0 <= z < p.len() && p[z] == n;
                assert(u[y] == v[y]);
                assert(u[z] == v[z]);
                assert(o[z] >= n && p[y] >= n);
                if y < z {
                    assert(p[z] - p[y] == z - y);
                } else if z < y {
                    assert(o[y] - o[z] == y - z);
                }
                if x < y {
                    assert(o[y] - o[x] == y - x);
                } else if y < x {
                    assert(o[x] - o[y] == x - y);
                    assert(p[x] - p[y] == x - y);
                }
            }
        }
        assert(o =~= p);
        assert(u =~= v);
        assert(o.contains(n + count) <==> n + count < n + count);
        assert(o.contains(n + count) <==> n + count < n + other);
        assert(o.contains(n + other) <==> n + other < n + count);
        assert(o.contains(n + other) <==> n + other < n + other);
    }

    /// What a frame does meets what is asked of the stages.
    #[verifier::rlimit(40)]
    proof fn lemma_step_takes_rightly(self, frame: Frame)
        requires
            self.wf(),
            self.can_take(frame),
        ensures
            self.takes_rightly(frame, self.pass(frame).active_origins(), self.uses(frame)),
    {
        let o = self.pass(frame).active_origins();
        let u = self.uses(frame);
        let s = self.tracked_stracks + self.lost_stracks;
        let t = self.tracked_stracks.len();
        self.every_tracked_track_is_reported_once(frame);
        assert forall|x: int| 0 <= x < o.len() implies {
            &&& 0 <= #[trigger] o[x]
            &&& 0 <= u[x] < frame.detections.len()
            &&& o[x] >= t ==> self.strong(frame, u[x])
            &&& if o[x] >= s.len() {
                !frame.detections[u[x]].1.less_than(self.det_thresh)
            } else if self.strong(frame, u[x]) {
                self.distance(frame, o[x], u[x]).at_most(self.match_thresh)
            } else {
                self.distance(frame, o[x], u[x]).at_most(self.second_match_thresh)
            }
        } by {
            self.reported_tracks_follow_from_what_they_took(frame, x);
            self.detections_are_taken_within_the_cutoffs(frame, x);
        }
        assert forall|x: int, y: int| 0 <= x < y < o.len() implies #[trigger] o[x]
            != #[trigger] o[y] && u[x] != u[y] by {
            self.reported_tracks_share_nothing(frame, x, y);
        }
        assert forall|k: int|
            0 <= k < frame.detections.len() && self.strong(frame, k)
                && !frame.detections[k].1.less_than(self.det_thresh) implies #[trigger] u.contains(
            k,
        ) by {
            self.every_strong_detection_is_reported(frame, k);
            let x = choose|x: int|
                0 <= x < self.report(frame).len() && #[trigger] self.uses(frame)[x] == k;
            assert(u[x] == k);
        }
        let cost = |i: int, k: int| self.distance(frame, i, k);
        assert forall|i: int, k: int|
            0 <= i < s.len() && 0 <= k < frame.detections.len() && self.strong(frame, k)
                && self.distance(frame, i, k).at_most(
                self.match_thresh,
            ) implies #[trigger] self.decided_high(frame, o, u, i, k) by {
            self.first_stage_takes_the_nearest(frame, i, k);
            let distance = |i: int, k: int|
                if s[i].class_id == frame.detections[k].2 {
                    frame.iou_cost[i][k]
                } else {
                    Single { bits: 0x7f7f_ffff }
                };
            let x = choose|x: int|
                0 <= x < self.report(frame).len() && {
                    let a = #[trigger] self.pass(frame).active_origins()[x];
                    let b = self.uses(frame)[x];
                    &&& 0 <= a < s.len()
                    &&& 0 <= b < frame.detections.len()
                    &&& self.track_thresh.at_most(frame.detections[b].1)
                    &&& a == i || b == k
                    &&& distance(a, b).less_than(distance(i, k)) || (distance(a, b).equals(
                        distance(i, k),
                    ) && (a < i || (a == i && b <= k)))
                };
            assert(no_later(cost, o[x], u[x], i, k));
        }
        assert forall|i: int, k: int|
            0 <= i < t && 0 <= k < frame.detections.len() && !self.strong(frame, k)
                && self.distance(frame, i, k).at_most(self.second_match_thresh) && (forall|x: int|
                0 <= x < o.len() && #[trigger] o[x] == i ==> !self.strong(
                    frame,
                    u[x],
                )) implies #[trigger] self.decided_low(frame, o, u, i, k) by {
            assert(s[i] == self.tracked_stracks[i]);
            self.second_stage_takes_the_nearest(frame, i, k);
            let distance = |i: int, k: int|
                if self.tracked_stracks[i].class_id == frame.detections[k].2 {
                    frame.iou_cost[i][k]
                } else {
                    Single { bits: 0x7f7f_ffff }
                };
            let x = choose|x: int|
                0 <= x < self.report(frame).len() && {
                    let a = #[trigger] self.pass(frame).active_origins()[x];
                    let b = self.uses(frame)[x];
                    &&& 0 <= a < t
                    &&& 0 <= b < frame.detections.len()
                    &&& !self.track_thresh.at_most(frame.detections[b].1)
                    &&& a == i || b == k
                    &&& distance(a, b).less_than(distance(i, k)) || (distance(a, b).equals(
                        distance(i, k),
                    ) && (a < i || (a == i && b <= k)))
                };
            assert(s[o[x]] == self.tracked_stracks[o[x]]);
            assert(no_later(cost, o[x], u[x], i, k));
        }
    }

    /// What a frame reports comes in order and is numbered.
    #[verifier::rlimit(40)]
    proof fn lemma_step_ordered_rightly(self, frame: Frame)
        requires
            self.wf(),
            self.can_take(frame),
        ensures
            self.next_id <= self.step(frame).next_id,
            self.ordered_rightly(frame, self.pass(frame).active_origins(), self.uses(frame)),
            self.numbered_rightly(
                self.pass(frame).active_origins(),
                self.step(frame).next_id - self.next_id,
            ),
    {
        let o = self.pass(frame).active_origins();
        let u = self.uses(frame);
        let n = self.tracked_stracks.len() + self.lost_stracks.len();
        self.every_tracked_track_is_reported_once(frame);
        self.ids_are_used_up_without_a_gap(frame, self.next_id as int);
        assert forall|x: int, y: int| 0 <= x < y < o.len() implies self.reported_before(
            frame,
            (#[trigger] o[x], u[x]),
            (#[trigger] o[y], u[y]),
        ) && (o[x] >= n && o[y] >= n ==> o[y] - o[x] == y - x) by {
            self.reported_tracks_follow_from_what_they_took(frame, x);
            self.reported_tracks_follow_from_what_they_took(frame, y);
            self.reported_tracks_come_in_order(frame, x, y);
        }
        assert forall|w: int| n <= w implies (#[trigger] o.contains(w) <==> w < n
            + self.step(frame).next_id - self.next_id) by {
            let id = self.next_id + (w - n);
            self.ids_are_used_up_without_a_gap(frame, id);
            if o.contains(w) {
                let x = choose|x: int| 0 <= x < o.len() && o[x] == w;
                self.reported_tracks_follow_from_what_they_took(frame, x);
                assert(self.report(frame)[x].track_id == id);
            }
            if id < self.step(frame).next_id {
                let x = choose|x: int|
                    0 <= x < self.report(frame).len() && (
                    #[trigger] self.report(frame)[x]).track_id == id;
                self.reported_tracks_follow_from_what_they_took(frame, x);
                if o[x] < n {
                    assert(self.sound(self.stored()[o[x]]));
                }
                assert(o[x] == w);
            }
        }
    }

    /// A frame has one outcome. Whatever tracks, filter steps and settings are put forward as what
    /// a frame leads to, with the stored tracks `o` that they continue (`n + j` for the
    /// `j`-th new one), the detections `u` that they take and the stored tracks `from` that
    /// are lost: if they meet what is asked of the two stages, of new tracks, of the order
    /// and of lost tracks, they are what the frame leads to.
    #[verifier::rlimit(60)]
    pub proof fn a_frame_has_one_outcome(
        self,
        frame: Frame,
        next: TrackerView,
        motion: Seq<MotionRequest>,
        o: Seq<int>,
        u: Seq<int>,
        from: Seq<int>,
    )
        requires
            self.wf(),
            self.can_take(frame),
            // The settings stay, and the frame is counted.
            next.frame_id == self.frame_id + 1,
            next.buffer_size == self.buffer_size,
            next.track_thresh == self.track_thresh,
            next.match_thresh == self.match_thresh,
            next.det_thresh == self.det_thresh,
            next.second_match_thresh == self.second_match_thresh,
            // Each track takes a detection, and no two the same; no two continue one track.
            o.len() == next.tracked_stracks.len(),
            u.len() == next.tracked_stracks.len(),
            motion.len() == next.tracked_stracks.len(),
            forall|x: int|
                0 <= x < o.len() ==> 0 <= #[trigger] o[x] && 0 <= u[x] < frame.detections.len(),
            forall|x: int, y: int|
                0 <= x < y < o.len() ==> #[trigger] o[x] != #[trigger] o[y] && u[x] != u[y],
            // A track goes on, comes back or starts with its detection.
            forall|x: int|
                0 <= x < o.len() ==> {
                    let s = self.tracked_stracks + self.lost_stracks;
                    let i = #[trigger] o[x];
                    let d = frame.detections[u[x]];
                    let request = motion[x];
                    &&& request.track_id == next.tracked_stracks[x].track_id
                    &&& if i < self.tracked_stracks.len() {
                        &&& request.step == KalmanStep::Update(d.0)
                        &&& next.tracked_stracks[x] == (STrack {
                            tlwh: d.0,
                            score: d.1,
                            frame_id: (self.frame_id + 1) as usize,
                            tracklet_len: (s[i].tracklet_len + 1) as usize,
                            ..s[i]
                        })
                    } else if i < s.len() {
                        &&& request.step == KalmanStep::Update(d.0)
                        &&& next.tracked_stracks[x] == (STrack {
                            tlwh: d.0,
                            score: d.1,
                            frame_id: (self.frame_id + 1) as usize,
                            tracklet_len: 0,
                            state: TrackState::Tracking,
                            ..s[i]
                        })
                    } else {
                        &&& request.step == KalmanStep::Initiate(d.0)
                        &&& next.tracked_stracks[x] == (STrack {
                            tlwh: d.0,
                            score: d.1,
                            class_id: d.2,
                            track_id: (self.next_id + (i - s.len())) as u64,
                            state: TrackState::Tracking,
                            is_activated: true,
                            frame_id: (self.frame_id + 1) as usize,
                            start_frame: (self.frame_id + 1) as usize,
                            tracklet_len: 0,
                        })
                    }
                },
            // Detections are taken within the cutoffs, and below the high threshold by tracked
            // tracks only.
            forall|x: int|
                0 <= x < o.len() ==> {
                    let s = self.tracked_stracks + self.lost_stracks;
                    let i = #[trigger] o[x];
                    let d = frame.detections[u[x]];
                    let distance = if s[i].class_id == d.2 {
                        frame.iou_cost[i][u[x]]
                    } else {
                        Single { bits: 0x7f7f_ffff }
                    };
                    if i >= s.len() {
                        self.track_thresh.at_most(d.1) && !d.1.less_than(self.det_thresh)
                    } else if self.track_thresh.at_most(d.1) {
                        distance.at_most(self.match_thresh)
                    } else {
                        i < self.tracked_stracks.len() && distance.at_most(
                            self.second_match_thresh,
                        )
                    }
                },
            // Strong detections are all taken.
            forall|k: int|
                0 <= k < frame.detections.len() && self.track_thresh.at_most(
                    frame.detections[k].1,
                ) && !frame.detections[k].1.less_than(self.det_thresh) ==> #[trigger] u.contains(k),
            // The first stage takes the nearest.
            forall|i: int, k: int| #[trigger]
                pair(i, k) && 0 <= i < (self.tracked_stracks + self.lost_stracks).len() && 0 <= k
                    < frame.detections.len() && self.track_thresh.at_most(frame.detections[k].1) && (
                if (self.tracked_stracks + self.lost_stracks)[i].class_id
                    == frame.detections[k].2 {
                    frame.iou_cost[i][k]
                } else {
                    Single { bits: 0x7f7f_ffff }
                }).at_most(self.match_thresh) ==> {
                    let s = self.tracked_stracks + self.lost_stracks;
                    let distance = |i: int, k: int|
                        if s[i].class_id == frame.detections[k].2 {
                            frame.iou_cost[i][k]
                        } else {
                            Single { bits: 0x7f7f_ffff }
                        };
                    exists|x: int|
                        0 <= x < o.len() && (#[trigger] o[x] == i || u[x] == k) && o[x] < s.len()
                            && self.track_thresh.at_most(frame.detections[u[x]].1) && (distance(
                            o[x],
                            u[x],
                        ).less_than(distance(i, k)) || (distance(o[x], u[x]).equals(
                            distance(i, k),
                        ) && (o[x] < i || (o[x] == i && u[x] <= k))))
                },
            // So does the second, of what the first left.
            forall|i: int, k: int| #[trigger]
                pair(i, k) && 0 <= i < self.tracked_stracks.len() && 0 <= k < frame.detections.len()
                    && !self.track_thresh.at_most(frame.detections[k].1) && (if (
                self.tracked_stracks + self.lost_stracks)[i].class_id == frame.detections[k].2 {
                    frame.iou_cost[i][k]
                } else {
                    Single { bits: 0x7f7f_ffff }
                }).at_most(self.second_match_thresh) && (forall|x: int|
                    0 <= x < o.len() && #[trigger] o[x] == i ==> !self.track_thresh.at_most(
                        frame.detections[u[x]].1,
                    )) ==> {
                    let s = self.tracked_stracks + self.lost_stracks;
                    let distance = |i: int, k: int|
                        if s[i].class_id == frame.detections[k].2 {
                            frame.iou_cost[i][k]
                        } else {
                            Single { bits: 0x7f7f_ffff }
                        };
                    exists|x: int|
                        0 <= x < o.len() && (#[trigger] o[x] == i || u[x] == k) && o[x]
                            < self.tracked_stracks.len() && !self.track_thresh.at_most(
                            frame.detections[u[x]].1,
                        ) && (distance(o[x], u[x]).less_than(distance(i, k)) || (
                        distance(o[x], u[x]).equals(distance(i, k)) && (o[x] < i || (o[x] == i
                            && u[x] <= k))))
                },
            // The tracks come in order.
            forall|x: int, y: int|
                0 <= x < y < o.len() ==> {
                    let s = self.tracked_stracks + self.lost_stracks;
                    let distance = |i: int, k: int|
                        if s[i].class_id == frame.detections[k].2 {
                            frame.iou_cost[i][k]
                        } else {
                            Single { bits: 0x7f7f_ffff }
                        };
                    let run = |i: int, k: int|
                        if i >= s.len() {
                            3int
                        } else if i >= self.tracked_stracks.len() {
                            4
                        } else if self.track_thresh.at_most(frame.detections[k].1) {
                            1
                        } else {
                            2
                        };
                    let (a, b) = (#[trigger] o[x], #[trigger] o[y]);
                    &&& run(a, u[x]) <= run(b, u[y])
                    &&& run(a, u[x]) == run(b, u[y]) ==> if a >= s.len() {
                        u[x] < u[y] && b - a == y - x
                    } else {
                        distance(a, u[x]).less_than(distance(b, u[y])) || (distance(
                            a,
                            u[x],
                        ).equals(distance(b, u[y])) && a < b)
                    }
                },
            // New tracks are numbered without a gap.
            self.next_id <= next.next_id,
            forall|w: int|
                self.tracked_stracks.len() + self.lost_stracks.len() <= w ==> (
                #[trigger] o.contains(w) <==> w < self.tracked_stracks.len()
                    + self.lost_stracks.len() + (next.next_id - self.next_id)),
            // The rest is lost, if not expired.
            from.len() == next.lost_stracks.len(),
            forall|x: int, y: int|
                0 <= x < y < from.len() ==> #[trigger] from[x] < #[trigger] from[y],
            forall|x: int|
                0 <= x < from.len() ==> 0 <= #[trigger] from[x]
                    < self.tracked_stracks.len() + self.lost_stracks.len()
                    && next.lost_stracks[x] == (STrack {
                    state: TrackState::Lost,
                    tlwh: frame.predictions[from[x]],
                    ..(self.tracked_stracks + self.lost_stracks)[from[x]]
                }),
            forall|i: int|
                0 <= i < self.tracked_stracks.len() + self.lost_stracks.len() ==> (
                #[trigger] from.contains(i) <==> !o.contains(i) && (i < self.tracked_stracks.len()
                    || self.frame_id + 1 - (self.tracked_stracks + self.lost_stracks)[i].frame_id
                    <= self.buffer_size)),
        ensures
            next == self.step(frame),
            next.tracked_stracks == self.report(frame),
            motion == self.motion(frame),
    {
        let s = self.tracked_stracks + self.lost_stracks;
        let step = self.step(frame);
        let p = self.pass(frame).active_origins();
        let v = self.uses(frame);
        assert(self.takes_rightly(frame, o, u)) by {
            let cost = |i: int, k: int| self.distance(frame, i, k);
            let distance = |i: int, k: int|
                if s[i].class_id == frame.detections[k].2 {
                    frame.iou_cost[i][k]
                } else {
                    Single { bits: 0x7f7f_ffff }
                };
            assert forall|i: int, k: int|
                0 <= i < s.len() && 0 <= k < frame.detections.len() && self.strong(frame, k)
                    && self.distance(frame, i, k).at_most(
                    self.match_thresh,
                ) implies #[trigger] self.decided_high(frame, o, u, i, k) by {
                assert(pair(i, k) && distance(i, k) == self.distance(frame, i, k));
                let x = choose|x: int|
                    0 <= x < o.len() && (#[trigger] o[x] == i || u[x] == k) && o[x] < s.len()
                        && self.track_thresh.at_most(frame.detections[u[x]].1) && (distance(
                        o[x],
                        u[x],
                    ).less_than(distance(i, k)) || (distance(o[x], u[x]).equals(distance(i, k)) && (
                    o[x] < i || (o[x] == i && u[x] <= k))));
                assert(no_later(cost, o[x], u[x], i, k));
            }
            assert forall|i: int, k: int|
                0 <= i < self.tracked_stracks.len() && 0 <= k < frame.detections.len()
                    && !self.strong(frame, k) && self.distance(frame, i, k).at_most(
                    self.second_match_thresh,
                ) && (forall|x: int|
                    0 <= x < o.len() && #[trigger] o[x] == i ==> !self.strong(
                        frame,
                        u[x],
                    )) implies #[trigger] self.decided_low(frame, o, u, i, k) by {
                assert(pair(i, k) && distance(i, k) == self.distance(frame, i, k));
                assert forall|x: int| 0 <= x < o.len() && #[trigger] o[x] == i implies !self
                    .track_thresh.at_most(frame.detections[u[x]].1) by {
                    assert(!self.strong(frame, u[x]));
                }
                let x = choose|x: int|
                    0 <= x < o.len() && (#[trigger] o[x] == i || u[x] == k) && o[x]
                        < self.tracked_stracks.len() && !self.track_thresh.at_most(
                        frame.detections[u[x]].1,
                    ) && (distance(o[x], u[x]).less_than(distance(i, k)) || (distance(
                        o[x],
                        u[x],
                    ).equals(distance(i, k)) && (o[x] < i || (o[x] == i && u[x] <= k))));
                assert(no_later(cost, o[x], u[x], i, k));
            }
        }
        assert(self.ordered_rightly(frame, o, u));
        assert(self.numbered_rightly(o, next.next_id - self.next_id));
        self.lemma_step_takes_rightly(frame);
        self.lemma_step_ordered_rightly(frame);
        self.lemma_same_takes(
            frame,
            o,
            u,
            p,
            v,
            next.next_id - self.next_id,
            step.next_id - self.next_id,
        );
        self.every_tracked_track_is_reported_once(frame);
        assert forall|x: int| 0 <= x < o.len() implies #[trigger] next.tracked_stracks[x]
            == step.tracked_stracks[x] && motion[x] == self.motion(frame)[x] by {
            self.reported_tracks_follow_from_what_they_took(frame, x);
            let i = o[x];
            if i < s.len() {
                assert(self.sound(self.stored()[i]));
            }
            if i < self.tracked_stracks.len() {
                assert(s[i] == self.tracked_stracks[i]);
            }
        }
        assert(next.tracked_stracks =~= step.tracked_stracks);
        assert forall|x: int| 0 <= x < motion.len() implies #[trigger] motion[x] == self.motion(
            frame,
        )[x] by {
            assert(next.tracked_stracks[x] == step.tracked_stracks[x]);
        }
        assert(motion =~= self.motion(frame));
        self.lost_tracks_are_accounted_for(frame);
        let own = self.pass(frame).lost_origins();
        assert forall|x: int| 0 <= x < from.len() implies own.contains(#[trigger] from[x]) by {
            assert(from.contains(from[x]));
        }
        assert forall|x: int| 0 <= x < own.len() implies from.contains(#[trigger] own[x]) by {
            assert(own.contains(own[x]));
        }
        lemma_sorted_same(from, own, |a: int, b: int| a < b);
        assert forall|x: int| 0 <= x < from.len() implies #[trigger] next.lost_stracks[x]
            == step.lost_stracks[x] by {
            assert(from[x] == own[x]);
        }
        assert(next.lost_stracks =~= step.lost_stracks);
        self.a_frame_keeps_the_settings(frame);
        assert(next =~= step);
    }
}

} // verus!
