//! Where the tracks of a cascade pass come from, and which detections they use.

use crate::assignment;
use crate::cascade;
use crate::cascade::{CascadeDet, CascadeTrack, Pass};
use crate::indices;
use crate::number::Single;
use vstd::prelude::*;

verus! {

impl<T: CascadeTrack> Pass<T> {
    /// For each activated or recovered track, in order: the pool track it comes from, or
    /// `pool.len() + k` for the `k`-th new track.
    pub open spec fn active_origins(self) -> Seq<int> {
        self.continuing().map_values(|m: (usize, usize)| m.0 as int)
            + self.second_matches().map_values(
            |m: (usize, usize)| self.leftover()[m.0 as int] as int,
        ) + Seq::new(self.starters().len(), |k: int| self.pool.len() + k)
            + self.returning().map_values(|m: (usize, usize)| m.0 as int)
    }

    /// For each lost track, in order: the pool track it comes from.
    pub open spec fn lost_origins(self) -> Seq<int> {
        self.dropouts().map_values(|l: usize| self.leftover()[l as int] as int)
            + self.kept().map_values(|i: usize| i as int)
    }

    /// The origins of all tracks that a pass leaves.
    pub open spec fn origins(self) -> Seq<int> {
        self.active_origins() + self.lost_origins()
    }

    /// For each activated or recovered track that took a high detection: which one.
    /// The order is that of the continued, the started and the recovered tracks.
    pub open spec fn high_uses(self) -> Seq<int> {
        self.continuing().map_values(|m: (usize, usize)| m.1 as int)
            + self.starters().map_values(|j: usize| j as int)
            + self.returning().map_values(|m: (usize, usize)| m.1 as int)
    }

    /// For each track that took a low detection: which one.
    pub open spec fn low_uses(self) -> Seq<int> {
        self.second_matches().map_values(|m: (usize, usize)| m.1 as int)
    }
}

/// Whether no two pairs share their first or their second part.
pub open spec fn independent(s: Seq<(usize, usize)>) -> bool {
    forall|a: int, b: int|
        0 <= a < b < s.len() ==> (#[trigger] s[a]).0 != (#[trigger] s[b]).0 && s[a].1 != s[b].1
}

/// The matches of a stage are in range and independent.
pub(crate) proof fn lemma_stage(rows: nat, columns: nat, cost: Seq<Seq<Single>>, thresh: Single)
    requires
        cost.len() == rows,
        assignment::has_columns(cost, columns),
    ensures
        independent(cascade::stage_matches(rows, columns, cost, thresh)),
        forall|k: int|
            0 <= k < cascade::stage_matches(rows, columns, cost, thresh).len() ==> (
            #[trigger] cascade::stage_matches(rows, columns, cost, thresh)[k]).0 < rows,
        forall|k: int|
            0 <= k < cascade::stage_matches(rows, columns, cost, thresh).len() ==> (
            #[trigger] cascade::stage_matches(rows, columns, cost, thresh)[k]).1 < columns,
        forall|k: int|
            0 <= k < cascade::stage_matches(rows, columns, cost, thresh).len() ==> assignment::admissible(
                cost,
                thresh,
                #[trigger] cascade::stage_matches(rows, columns, cost, thresh)[k],
            ),
{
    if rows > 0 && columns > 0 {
        assignment::greedy_exists(cost, thresh);
        let m = assignment::greedy(cost, thresh);
        assert(cost[0].len() == columns);
        assert forall|a: int, b: int| 0 <= a < b < m.len() implies (#[trigger] m[a]).0 != (
        #[trigger] m[b]).0 && m[a].1 != m[b].1 by {
            assert(!assignment::clash(m[a], m[b]));
        }
        assert forall|k: int| 0 <= k < m.len() implies assignment::admissible(
            cost,
            thresh,
            #[trigger] m[k],
        ) && m[k].0 < rows && m[k].1 < columns by {}
    }
}

/// What filtering independent pairs keeps.
proof fn lemma_filter_pairs(s: Seq<(usize, usize)>, p: spec_fn((usize, usize)) -> bool)
    requires
        independent(s),
    ensures
        independent(s.filter(p)),
        forall|k: int| 0 <= k < s.filter(p).len() ==> p(#[trigger] s.filter(p)[k]),
        forall|k: int| 0 <= k < s.filter(p).len() ==> s.contains(#[trigger] s.filter(p)[k]),
    decreases s.len(),
{
    reveal(Seq::filter);
    if s.len() > 0 {
        let short = s.drop_last();
        assert forall|a: int, b: int| 0 <= a < b < short.len() implies (#[trigger] short[a]).0 != (
        #[trigger] short[b]).0 && short[a].1 != short[b].1 by {
            assert(short[a] == s[a] && short[b] == s[b]);
        }
        lemma_filter_pairs(short, p);
        let f = short.filter(p);
        let g = s.filter(p);
        assert forall|k: int| 0 <= k < g.len() implies p(#[trigger] g[k]) && s.contains(g[k]) by {
            if k < f.len() {
                assert(g[k] == f[k]);
                assert(short.contains(f[k]));
                let i = choose|i: int| 0 <= i < short.len() && short[i] == f[k];
                assert(s[i] == g[k]);
            } else {
                assert(s[s.len() - 1] == g[k]);
            }
        }
        assert forall|a: int, b: int| 0 <= a < b < g.len() implies (#[trigger] g[a]).0 != (
        #[trigger] g[b]).0 && g[a].1 != g[b].1 by {
            assert(g[a] == f[a]);
            if b < f.len() {
                assert(g[b] == f[b]);
            } else {
                assert(short.contains(f[a]));
                let i = choose|i: int| 0 <= i < short.len() && short[i] == f[a];
                assert(s[i] == g[a]);
                assert(s[s.len() - 1] == g[b]);
            }
        }
    }
}

/// A predicate and its negation split a sequence.
proof fn lemma_filter_split<A>(s: Seq<A>, p: spec_fn(A) -> bool, q: spec_fn(A) -> bool)
    requires
        forall|a: A| #[trigger] q(a) == !p(a),
    ensures
        s.filter(p).len() + s.filter(q).len() == s.len(),
        forall|k: int|
            0 <= k < s.len() ==> s.filter(p).contains(#[trigger] s[k]) || s.filter(q).contains(
                s[k],
            ),
    decreases s.len(),
{
    reveal(Seq::filter);
    if s.len() > 0 {
        let short = s.drop_last();
        lemma_filter_split(short, p, q);
        assert(q(s.last()) == !p(s.last()));
        assert forall|k: int| 0 <= k < s.len() implies s.filter(p).contains(#[trigger] s[k])
            || s.filter(q).contains(s[k]) by {
            if k < short.len() {
                assert(short[k] == s[k]);
                if short.filter(p).contains(s[k]) {
                    let i = choose|i: int|
                        0 <= i < short.filter(p).len() && short.filter(p)[i] == s[k];
                    assert(s.filter(p)[i] == s[k]);
                } else {
                    assert(short.filter(q).contains(s[k]));
                    let i = choose|i: int|
                        0 <= i < short.filter(q).len() && short.filter(q)[i] == s[k];
                    assert(s.filter(q)[i] == s[k]);
                }
            } else if p(s[k]) {
                assert(s.filter(p)[s.filter(p).len() - 1] == s[k]);
            } else {
                assert(s.filter(q)[s.filter(q).len() - 1] == s[k]);
            }
        }
    }
}

/// Joining distinct elements with other distinct elements.
proof fn lemma_join(s: Seq<int>, t: Seq<int>)
    requires
        s.no_duplicates(),
        t.no_duplicates(),
        forall|a: int, b: int|
            0 <= a < s.len() && 0 <= b < t.len() ==> #[trigger] s[a] != #[trigger] t[b],
    ensures
        (s + t).no_duplicates(),
{
    vstd::seq_lib::lemma_no_dup_in_concat(s, t);
}

impl<T: CascadeTrack> Pass<T> {
    /// The facts about the parts of a pass that the laws rest on.
    pub(crate) proof fn lemma_parts(self)
        requires
            self.fits(),
        ensures
            independent(self.first_matches()),
            independent(self.second_matches()),
            independent(self.continuing()),
            independent(self.returning()),
            forall|k: int|
                0 <= k < self.first_matches().len() ==> (#[trigger] self.first_matches()[k]).0
                    < self.pool.len(),
            forall|k: int|
                0 <= k < self.first_matches().len() ==> (#[trigger] self.first_matches()[k]).1
                    < self.high.len(),
            forall|k: int|
                0 <= k < self.second_matches().len() ==> (#[trigger] self.second_matches()[k]).0
                    < self.leftover().len(),
            forall|k: int|
                0 <= k < self.second_matches().len() ==> (#[trigger] self.second_matches()[k]).1
                    < self.low.len(),
            forall|k: int|
                0 <= k < self.continuing().len() ==> self.first_matches().contains(
                    #[trigger] self.continuing()[k],
                ),
            forall|k: int|
                0 <= k < self.continuing().len() ==> self.pool[(
                #[trigger] self.continuing()[k]).0 as int].in_tracked_state(),
            forall|k: int|
                0 <= k < self.returning().len() ==> self.first_matches().contains(
                    #[trigger] self.returning()[k],
                ),
            forall|k: int|
                0 <= k < self.returning().len() ==> !self.pool[(
                #[trigger] self.returning()[k]).0 as int].in_tracked_state(),
            self.continuing().len() + self.returning().len() == self.first_matches().len(),
            forall|k: int|
                0 <= k < self.first_matches().len() ==> self.continuing().contains(
                    #[trigger] self.first_matches()[k],
                ) || self.returning().contains(self.first_matches()[k]),
    {
        self.lemma_leftover();
        lemma_stage(self.pool.len(), self.high.len(), self.stage1_cost, self.match_thresh);
        lemma_stage(
            self.leftover().len(),
            self.low.len(),
            self.second_cost(),
            self.second_match_thresh,
        );
        let p = |m: (usize, usize)| self.pool[m.0 as int].in_tracked_state();
        let q = |m: (usize, usize)| !self.pool[m.0 as int].in_tracked_state();
        lemma_filter_pairs(self.first_matches(), p);
        lemma_filter_pairs(self.first_matches(), q);
        lemma_filter_split(self.first_matches(), p, q);
    }

    /// The facts about the selections of a pass that the laws rest on.
    pub(crate) proof fn lemma_selections(self)
        requires
            self.fits(),
        ensures
            forall|a: int, b: int|
                0 <= a < b < self.leftover().len() ==> self.leftover()[a] < self.leftover()[b],
            forall|l: int|
                0 <= l < self.leftover().len() ==> #[trigger] self.leftover()[l]
                    < self.pool.len(),
            forall|l: int|
                0 <= l < self.leftover().len() ==> !assignment::row_taken(
                    self.first_matches(),
                    #[trigger] self.leftover()[l],
                ),
            forall|l: int|
                0 <= l < self.leftover().len()
                    ==> self.pool[#[trigger] self.leftover()[l] as int].in_tracked_state(),
            forall|i: usize|
                i < self.pool.len() && self.pool[i as int].in_tracked_state()
                    && !#[trigger] assignment::row_taken(self.first_matches(), i)
                    ==> self.leftover().contains(i),
            forall|a: int, b: int|
                0 <= a < b < self.dropouts().len() ==> self.dropouts()[a] < self.dropouts()[b],
            forall|k: int|
                0 <= k < self.dropouts().len() ==> #[trigger] self.dropouts()[k]
                    < self.leftover().len(),
            forall|k: int|
                0 <= k < self.dropouts().len() ==> !assignment::row_taken(
                    self.second_matches(),
                    #[trigger] self.dropouts()[k],
                ),
            forall|a: int, b: int|
                0 <= a < b < self.starters().len() ==> self.starters()[a] < self.starters()[b],
            forall|k: int|
                0 <= k < self.starters().len() ==> #[trigger] self.starters()[k]
                    < self.high.len(),
            self.starters().len() <= self.high.len(),
            forall|k: int|
                0 <= k < self.starters().len() ==> !assignment::column_taken(
                    self.first_matches(),
                    #[trigger] self.starters()[k],
                ),
            forall|a: int, b: int|
                0 <= a < b < self.kept().len() ==> self.kept()[a] < self.kept()[b],
            forall|k: int|
                0 <= k < self.kept().len() ==> self.n_tracked <= #[trigger] self.kept()[k]
                    < self.pool.len(),
            forall|k: int|
                0 <= k < self.kept().len() ==> self.frame_id - self.settled()[
                #[trigger] self.kept()[k] as int].last_frame() <= self.buffer_size,
            forall|k: int|
                0 <= k < self.kept().len() ==> !assignment::row_taken(
                    self.first_matches(),
                    #[trigger] self.kept()[k],
                ),
    {
        self.lemma_leftover();
        let left = |i: usize|
            !assignment::row_taken(self.first_matches(), i)
                && self.pool[i as int].in_tracked_state();
        indices::lemma_select(self.pool.len(), left);
        assert forall|i: usize|
            i < self.pool.len() && self.pool[i as int].in_tracked_state()
                && !#[trigger] assignment::row_taken(
                self.first_matches(),
                i,
            ) implies self.leftover().contains(i) by {
            assert(left(i));
        }
        indices::lemma_select(
            self.leftover().len(),
            |l: usize|
                !assignment::row_taken(self.second_matches(), l)
                    && !self.pool[self.leftover()[l as int] as int].in_lost_state(),
        );
        indices::lemma_select(
            self.high.len(),
            |j: usize|
                !assignment::column_taken(self.first_matches(), j)
                    && !self.high[j as int].score_of().less_than(self.det_thresh),
        );
        indices::lemma_select(
            self.pool.len(),
            |i: usize|
                !assignment::row_taken(self.first_matches(), i) && self.n_tracked <= i
                    && self.frame_id - self.settled()[i as int].last_frame() <= self.buffer_size,
        );
    }

    /// The stages do not touch the originally-lost tracks that stay unmatched.
    pub(crate) proof fn lemma_settled(self, i: int)
        requires
            self.fits(),
            self.layered(),
            self.n_tracked <= i < self.pool.len(),
        ensures
            self.settled()[i] == self.pool[i],
    {
        self.lemma_parts();
        self.lemma_selections();
        assert forall|k: int| 0 <= k < self.second_matches().len() implies self.leftover()[(
        #[trigger] self.second_matches()[k]).0 as int] != i by {
            let m = self.second_matches()[k];
            assert(self.pool[self.leftover()[m.0 as int] as int].in_tracked_state());
        }
        assert forall|k: int| 0 <= k < self.dropouts().len() implies self.leftover()[
        #[trigger] self.dropouts()[k] as int] != i by {
            let l = self.dropouts()[k];
            assert(self.pool[self.leftover()[l as int] as int].in_tracked_state());
        }
        self.lemma_pool_after_dropouts(self.dropouts(), i);
    }

    /// Each track that a pass leaves has an origin of its own: no pool track is
    /// continued, recovered or kept twice, and none turns up both among the active and
    /// among the lost tracks.
    #[verifier::rlimit(40)]
    pub proof fn tracks_have_one_origin(self)
        requires
            self.valid(),
            self.layered(),
        ensures
            self.origins().no_duplicates(),
            forall|x: int|
                0 <= x < self.origins().len() ==> 0 <= #[trigger] self.origins()[x]
                    < self.pool.len() + self.starters().len(),
            forall|x: int|
                0 <= x < self.lost_origins().len() ==> 0 <= #[trigger] self.lost_origins()[x]
                    < self.pool.len(),
            self.active_origins().len() == self.activated().len() + self.refind().len(),
            self.lost_origins().len() == self.lost().len(),
    {
        self.lemma_parts();
        self.lemma_selections();
        let first = self.first_matches();
        let second = self.second_matches();
        let left = self.leftover();
        let a = self.continuing().map_values(|m: (usize, usize)| m.0 as int);
        let b = second.map_values(|m: (usize, usize)| left[m.0 as int] as int);
        let c = Seq::new(self.starters().len(), |k: int| self.pool.len() + k);
        let d = self.returning().map_values(|m: (usize, usize)| m.0 as int);
        let e = self.dropouts().map_values(|l: usize| left[l as int] as int);
        let f = self.kept().map_values(|i: usize| i as int);
        assert forall|x: int| 0 <= x < a.len() implies {
            &&& 0 <= #[trigger] a[x] < self.pool.len()
            &&& assignment::row_taken(first, a[x] as usize)
            &&& self.pool[a[x]].in_tracked_state()
        } by {
            let m = self.continuing()[x];
            assert(first.contains(m));
        }
        assert forall|x: int| 0 <= x < d.len() implies {
            &&& 0 <= #[trigger] d[x] < self.pool.len()
            &&& assignment::row_taken(first, d[x] as usize)
            &&& !self.pool[d[x]].in_tracked_state()
        } by {
            let m = self.returning()[x];
            assert(first.contains(m));
        }
        assert forall|x: int| 0 <= x < b.len() implies {
            &&& 0 <= #[trigger] b[x] < self.pool.len()
            &&& !assignment::row_taken(first, b[x] as usize)
            &&& self.pool[b[x]].in_tracked_state()
        } by {
            let m = second[x];
            assert(m.0 < left.len());
            assert(b[x] == left[m.0 as int]);
        }
        assert forall|x: int| 0 <= x < e.len() implies {
            &&& 0 <= #[trigger] e[x] < self.pool.len()
            &&& !assignment::row_taken(first, e[x] as usize)
            &&& self.pool[e[x]].in_tracked_state()
        } by {
            let l = self.dropouts()[x];
            assert(e[x] == left[l as int]);
        }
        assert forall|x: int| 0 <= x < f.len() implies {
            &&& 0 <= #[trigger] f[x] < self.pool.len()
            &&& !assignment::row_taken(first, f[x] as usize)
            &&& !self.pool[f[x]].in_tracked_state()
        } by {
            assert(f[x] == self.kept()[x]);
        }
        assert(a.no_duplicates()) by {
            assert forall|x: int, y: int| 0 <= x < y < a.len() implies a[x] != a[y] by {
                assert(self.continuing()[x].0 != self.continuing()[y].0);
            }
        }
        assert(d.no_duplicates()) by {
            assert forall|x: int, y: int| 0 <= x < y < d.len() implies d[x] != d[y] by {
                assert(self.returning()[x].0 != self.returning()[y].0);
            }
        }
        assert(b.no_duplicates()) by {
            assert forall|x: int, y: int| 0 <= x < y < b.len() implies b[x] != b[y] by {
                let (k, l) = (second[x].0 as int, second[y].0 as int);
                assert(second[x].0 != second[y].0);
                assert(b[x] == left[k] && b[y] == left[l]);
            }
        }
        assert(e.no_duplicates()) by {
            assert forall|x: int, y: int| 0 <= x < y < e.len() implies e[x] != e[y] by {
                let (k, l) = (self.dropouts()[x] as int, self.dropouts()[y] as int);
                assert(e[x] == left[k] && e[y] == left[l]);
            }
        }
        assert(f.no_duplicates()) by {
            assert forall|x: int, y: int| 0 <= x < y < f.len() implies f[x] != f[y] by {
                assert(self.kept()[x] < self.kept()[y]);
            }
        }
        assert forall|x: int, y: int| 0 <= x < b.len() && 0 <= y < e.len() implies #[trigger] b[x]
            != #[trigger] e[y] by {
            let (k, l) = (second[x].0, self.dropouts()[y]);
            assert(b[x] == left[k as int] && e[y] == left[l as int]);
            assert(assignment::row_taken(second, k));
            assert(!assignment::row_taken(second, l));
        }
        lemma_join(a, b);
        lemma_join(a + b, c);
        lemma_join(a + b + c, d);
        lemma_join(e, f);
        let g = a + b + c + d;
        assert forall|x: int, y: int|
            0 <= x < g.len() && 0 <= y < (e + f).len() implies #[trigger] g[x]
            != #[trigger] (e + f)[y] by {
            if y < e.len() {
                assert((e + f)[y] == e[y]);
            } else {
                assert((e + f)[y] == f[y - e.len()]);
            }
            if x < a.len() {
                assert(g[x] == a[x]);
            } else if x < a.len() + b.len() {
                assert(g[x] == b[x - a.len()]);
            } else if x < a.len() + b.len() + c.len() {
                assert(g[x] == c[x - a.len() - b.len()]);
            } else {
                assert(g[x] == d[x - a.len() - b.len() - c.len()]);
            }
        }
        lemma_join(g, e + f);
        assert(self.active_origins() =~= g);
        assert(self.lost_origins() =~= e + f);
    }

    /// No detection is used for two tracks.
    #[verifier::rlimit(40)]
    pub proof fn detections_are_used_once(self)
        requires
            self.valid(),
        ensures
            self.high_uses().no_duplicates(),
            forall|x: int|
                0 <= x < self.high_uses().len() ==> 0 <= #[trigger] self.high_uses()[x]
                    < self.high.len(),
            self.low_uses().no_duplicates(),
            forall|x: int|
                0 <= x < self.low_uses().len() ==> 0 <= #[trigger] self.low_uses()[x]
                    < self.low.len(),
            self.high_uses().len() + self.low_uses().len() == self.activated().len()
                + self.refind().len(),
            self.activated().len() + self.refind().len() <= self.high.len() + self.low.len(),
    {
        self.lemma_parts();
        self.lemma_selections();
        let first = self.first_matches();
        let a = self.continuing().map_values(|m: (usize, usize)| m.1 as int);
        let b = self.starters().map_values(|j: usize| j as int);
        let c = self.returning().map_values(|m: (usize, usize)| m.1 as int);
        let d = self.low_uses();
        assert forall|x: int| 0 <= x < a.len() implies {
            &&& 0 <= #[trigger] a[x] < self.high.len()
            &&& assignment::column_taken(first, a[x] as usize)
        } by {
            assert(first.contains(self.continuing()[x]));
        }
        assert forall|x: int| 0 <= x < c.len() implies {
            &&& 0 <= #[trigger] c[x] < self.high.len()
            &&& assignment::column_taken(first, c[x] as usize)
        } by {
            assert(first.contains(self.returning()[x]));
        }
        assert forall|x: int| 0 <= x < b.len() implies {
            &&& 0 <= #[trigger] b[x] < self.high.len()
            &&& !assignment::column_taken(first, b[x] as usize)
        } by {
            assert(b[x] == self.starters()[x]);
        }
        assert(a.no_duplicates()) by {
            assert forall|x: int, y: int| 0 <= x < y < a.len() implies a[x] != a[y] by {
                assert(self.continuing()[x].1 != self.continuing()[y].1);
            }
        }
        assert(b.no_duplicates()) by {
            assert forall|x: int, y: int| 0 <= x < y < b.len() implies b[x] != b[y] by {
                assert(self.starters()[x] < self.starters()[y]);
            }
        }
        assert(c.no_duplicates()) by {
            assert forall|x: int, y: int| 0 <= x < y < c.len() implies c[x] != c[y] by {
                assert(self.returning()[x].1 != self.returning()[y].1);
            }
        }
        assert(d.no_duplicates()) by {
            assert forall|x: int, y: int| 0 <= x < y < d.len() implies d[x] != d[y] by {
                assert(self.second_matches()[x].1 != self.second_matches()[y].1);
            }
        }
        assert forall|x: int, y: int| 0 <= x < a.len() && 0 <= y < c.len() implies #[trigger] a[x]
            != #[trigger] c[y] by {
            let (m, n) = (self.continuing()[x], self.returning()[y]);
            assert(first.contains(m) && first.contains(n));
            let i = choose|i: int| 0 <= i < first.len() && first[i] == m;
            let j = choose|j: int| 0 <= j < first.len() && first[j] == n;
            assert(i != j);
        }
        lemma_join(a, b);
        lemma_join(a + b, c);
        assert(self.high_uses() =~= a + b + c);
        assert forall|x: int| 0 <= x < d.len() implies 0 <= #[trigger] d[x] < self.low.len() by {
            assert(self.second_matches()[x].1 < self.low.len());
        }
        assignment::lemma_distinct_below(self.high_uses(), self.high.len());
        assignment::lemma_distinct_below(d, self.low.len());
    }

    /// A pool track vanishes exactly if it was lost before, stayed unmatched and
    /// is older than the buffer.
    #[verifier::rlimit(40)]
    pub proof fn only_expired_tracks_vanish(self, i: usize)
        requires
            self.valid(),
            self.layered(),
            i < self.pool.len(),
            self.pool[i as int].in_tracked_state() ==> !self.pool[i as int].in_lost_state(),
        ensures
            !self.origins().contains(i as int) <==> {
                &&& self.n_tracked <= i
                &&& !assignment::row_taken(self.first_matches(), i)
                &&& self.frame_id - self.pool[i as int].last_frame() > self.buffer_size
            },
    {
        self.lemma_parts();
        self.lemma_selections();
        self.lemma_leftover();
        let first = self.first_matches();
        let left = self.leftover();
        let all = self.origins();
        let (na, nb) = (self.continuing().len(), self.second_matches().len());
        let (nc, nd) = (self.starters().len(), self.returning().len());
        let ne = self.dropouts().len();
        let vanishes = {
            &&& self.n_tracked <= i
            &&& !assignment::row_taken(first, i)
            &&& self.frame_id - self.pool[i as int].last_frame() > self.buffer_size
        };
        if assignment::row_taken(first, i) {
            let k = choose|k: int| 0 <= k < first.len() && (#[trigger] first[k]).0 == i;
            if self.continuing().contains(first[k]) {
                let x = choose|x: int|
                    0 <= x < self.continuing().len() && self.continuing()[x] == first[k];
                assert(all[x] == i);
            } else {
                assert(self.returning().contains(first[k]));
                let x = choose|x: int|
                    0 <= x < self.returning().len() && self.returning()[x] == first[k];
                assert(all[na + nb + nc + x] == i);
            }
            assert(all.contains(i as int));
        } else if self.pool[i as int].in_tracked_state() {
            assert(left.contains(i));
            let l = choose|l: int| 0 <= l < left.len() && left[l] == i;
            if assignment::row_taken(self.second_matches(), l as usize) {
                let x = choose|x: int|
                    0 <= x < self.second_matches().len() && (
                    #[trigger] self.second_matches()[x]).0 == l as usize;
                assert(all[na + x] == i);
            } else {
                let p = |l: usize|
                    !assignment::row_taken(self.second_matches(), l)
                        && !self.pool[left[l as int] as int].in_lost_state();
                indices::lemma_select(left.len(), p);
                assert(p(l as usize));
                assert(self.dropouts().contains(l as usize));
                let x = choose|x: int|
                    0 <= x < self.dropouts().len() && self.dropouts()[x] == l as usize;
                assert(all[na + nb + nc + nd + x] == i);
            }
            assert(all.contains(i as int));
        } else if !vanishes {
            self.lemma_settled(i as int);
            let p = |i: usize|
                !assignment::row_taken(first, i) && self.n_tracked <= i && self.frame_id
                    - self.settled()[i as int].last_frame() <= self.buffer_size;
            indices::lemma_select(self.pool.len(), p);
            assert(p(i));
            assert(self.kept().contains(i));
            let x = choose|x: int| 0 <= x < self.kept().len() && self.kept()[x] == i;
            assert(all[na + nb + nc + nd + ne + x] == i);
            assert(all.contains(i as int));
        } else if all.contains(i as int) {
            let x = choose|x: int| 0 <= x < all.len() && all[x] == i;
            if x < na {
                let m = self.continuing()[x];
                assert(first.contains(m));
                assert(all[x] == m.0);
            } else if x < na + nb {
                let m = self.second_matches()[x - na];
                assert(m.0 < left.len());
                assert(all[x] == left[m.0 as int]);
            } else if x < na + nb + nc {
                assert(all[x] == self.pool.len() + (x - na - nb));
            } else if x < na + nb + nc + nd {
                let m = self.returning()[x - na - nb - nc];
                assert(first.contains(m));
                assert(all[x] == m.0);
            } else if x < na + nb + nc + nd + ne {
                let l = self.dropouts()[x - na - nb - nc - nd];
                assert(all[x] == left[l as int]);
            } else {
                assert(all[x] == self.kept()[x - na - nb - nc - nd - ne]);
                self.lemma_settled(i as int);
            }
            assert(false);
        }
    }
}

} // verus!
