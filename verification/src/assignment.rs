//! Greedy assignment of rows to columns by a cost matrix.

use crate::number::Single;
use vstd::prelude::*;

verus! {

/// The contents of a matrix held as a vector of rows.
pub open spec fn matrix(rows: Seq<Vec<Single>>) -> Seq<Seq<Single>> {
    Seq::new(rows.len(), |i: int| rows[i]@)
}

/// The number of columns; none when there is no row to tell.
pub open spec fn width(cost: Seq<Seq<Single>>) -> nat {
    if cost.len() == 0 {
        0
    } else {
        cost[0].len()
    }
}

/// Whether every row has `columns` entries.
pub open spec fn has_columns(cost: Seq<Seq<Single>>, columns: nat) -> bool {
    forall|i: int| 0 <= i < cost.len() ==> (#[trigger] cost[i]).len() == columns
}

/// The cost of a pair of a row and a column.
pub open spec fn entry(cost: Seq<Seq<Single>>, p: (usize, usize)) -> Single {
    cost[p.0 as int][p.1 as int]
}

/// A pair may be matched when its cost is at or below the threshold.
pub open spec fn admissible(cost: Seq<Seq<Single>>, thresh: Single, p: (usize, usize)) -> bool {
    &&& p.0 < cost.len()
    &&& p.1 < width(cost)
    &&& entry(cost, p).at_most(thresh)
}

/// Cheaper pairs come first; pairs of equal cost by row, then by column.
pub open spec fn precedes(cost: Seq<Seq<Single>>, p: (usize, usize), q: (usize, usize)) -> bool {
    let (a, b) = (entry(cost, p).value(), entry(cost, q).value());
    a < b || (a == b && (p.0 < q.0 || (p.0 == q.0 && p.1 < q.1)))
}

/// Two pairs that cannot both be matched: they share a row or a column.
pub open spec fn clash(p: (usize, usize), q: (usize, usize)) -> bool {
    p.0 == q.0 || p.1 == q.1
}

/// Whether the match `m` decides the pair `p`: it is `p`, or it takes the row or
/// the column of `p` and precedes it.
pub open spec fn decides(cost: Seq<Seq<Single>>, m: (usize, usize), p: (usize, usize)) -> bool {
    clash(m, p) && !precedes(cost, p, m)
}

/// Whether `matches` is what taking the first free admissible pair, again and
/// again, arrives at: the matches are admissible, come in order, and share
/// no row or column, and each admissible pair is decided by one of them.
pub open spec fn is_greedy(
    cost: Seq<Seq<Single>>,
    thresh: Single,
    matches: Seq<(usize, usize)>,
) -> bool {
    &&& forall|k: int| 0 <= k < matches.len() ==> admissible(cost, thresh, #[trigger] matches[k])
    &&& in_order(cost, matches)
    &&& forall|p: (usize, usize)|
        admissible(cost, thresh, p) ==> #[trigger] decided(cost, matches, p)
}

/// Whether one of the matches decides the pair `p`.
pub open spec fn decided(
    cost: Seq<Seq<Single>>,
    matches: Seq<(usize, usize)>,
    p: (usize, usize),
) -> bool {
    exists|k: int| 0 <= k < matches.len() && decides(cost, #[trigger] matches[k], p)
}

/// Whether each match precedes the later ones and clashes with none of them.
pub open spec fn in_order(cost: Seq<Seq<Single>>, matches: Seq<(usize, usize)>) -> bool {
    forall|a: int, b: int|
        0 <= a < b < matches.len() ==> precedes(cost, #[trigger] matches[a], #[trigger] matches[b])
            && !clash(matches[a], matches[b])
}

/// The greedy matching of a cost matrix. There is exactly one: see
/// [`greedy_exists`] and [`greedy_is_unique`].
pub open spec fn greedy(cost: Seq<Seq<Single>>, thresh: Single) -> Seq<(usize, usize)> {
    choose|matches: Seq<(usize, usize)>| is_greedy(cost, thresh, matches)
}

/// Whether row `i` is matched.
pub open spec fn row_taken(matches: Seq<(usize, usize)>, i: usize) -> bool {
    exists|k: int| 0 <= k < matches.len() && (#[trigger] matches[k]).0 == i
}

/// Whether column `j` is matched.
pub open spec fn column_taken(matches: Seq<(usize, usize)>, j: usize) -> bool {
    exists|k: int| 0 <= k < matches.len() && (#[trigger] matches[k]).1 == j
}

/// The rows below `n` that are not matched, in increasing order.
pub open spec fn unmatched_rows(matches: Seq<(usize, usize)>, n: nat) -> Seq<usize> {
    crate::indices::select(n, |i: usize| !row_taken(matches, i))
}

/// The columns below `n` that are not matched, in increasing order.
pub open spec fn unmatched_columns(matches: Seq<(usize, usize)>, n: nat) -> Seq<usize> {
    crate::indices::select(n, |j: usize| !column_taken(matches, j))
}

/// No admissible pair is left over: one of its row and its column is matched.
pub proof fn no_admissible_pair_is_left(
    cost: Seq<Seq<Single>>,
    thresh: Single,
    p: (usize, usize),
)
    requires
        admissible(cost, thresh, p),
    ensures
        row_taken(greedy(cost, thresh), p.0) || column_taken(greedy(cost, thresh), p.1),
{
    greedy_exists(cost, thresh);
    let matches = greedy(cost, thresh);
    assert(decided(cost, matches, p));
    let k = choose|k: int| 0 <= k < matches.len() && decides(cost, #[trigger] matches[k], p);
    assert(clash(matches[k], p));
}

/// A cost matrix and a threshold have at most one greedy matching.
pub proof fn greedy_is_unique(
    cost: Seq<Seq<Single>>,
    thresh: Single,
    m: Seq<(usize, usize)>,
    n: Seq<(usize, usize)>,
)
    requires
        is_greedy(cost, thresh, m),
        is_greedy(cost, thresh, n),
    ensures
        m == n,
{
    lemma_same_prefix(cost, thresh, m, n, m.len());
    lemma_same_prefix(cost, thresh, n, m, n.len());
    assert(m =~= n);
}

proof fn lemma_same_prefix(
    cost: Seq<Seq<Single>>,
    thresh: Single,
    m: Seq<(usize, usize)>,
    n: Seq<(usize, usize)>,
    len: nat,
)
    requires
        is_greedy(cost, thresh, m),
        is_greedy(cost, thresh, n),
        len <= m.len(),
    ensures
        len <= n.len(),
        forall|k: int| 0 <= k < len ==> m[k] == n[k],
    decreases len,
{
    if len > 0 {
        let last = len - 1;
        lemma_same_prefix(cost, thresh, m, n, last as nat);
        let p = m[last];
        assert(admissible(cost, thresh, p));
        assert(decided(cost, n, p));
        let t = choose|t: int| 0 <= t < n.len() && decides(cost, #[trigger] n[t], p);
        if t < last {
            assert(m[t] == n[t]);
            assert(!clash(m[t], m[last]));
        }
        assert(last < n.len());
        let q = n[last];
        assert(admissible(cost, thresh, q));
        assert(decided(cost, m, q));
        let s = choose|s: int| 0 <= s < m.len() && decides(cost, #[trigger] m[s], q);
        if s < last {
            assert(m[s] == n[s]);
            assert(!clash(n[s], n[last]));
        }
        if t > last {
            assert(precedes(cost, n[last], n[t]));
        }
        if s > last {
            assert(precedes(cost, m[last], m[s]));
        }
        assert(p == q);
    }
}

/// Whether no match clashes with `p`.
spec fn free(matches: Seq<(usize, usize)>, p: (usize, usize)) -> bool {
    forall|k: int| 0 <= k < matches.len() ==> !clash(#[trigger] matches[k], p)
}

/// Whether `p` is the pair that the greedy choice takes next.
spec fn next_choice(
    cost: Seq<Seq<Single>>,
    thresh: Single,
    matches: Seq<(usize, usize)>,
    p: (usize, usize),
) -> bool {
    &&& admissible(cost, thresh, p)
    &&& free(matches, p)
    &&& forall|q: (usize, usize)|
        admissible(cost, thresh, q) && #[trigger] free(matches, q) ==> !precedes(cost, q, p)
}

/// Whether `matches` is what the greedy choice has taken at some point.
spec fn greedy_so_far(
    cost: Seq<Seq<Single>>,
    thresh: Single,
    matches: Seq<(usize, usize)>,
) -> bool {
    &&& forall|k: int| 0 <= k < matches.len() ==> admissible(cost, thresh, #[trigger] matches[k])
    &&& in_order(cost, matches)
    &&& forall|p: (usize, usize)|
        admissible(cost, thresh, p) && !#[trigger] free(matches, p) ==> decided(cost, matches, p)
    &&& forall|p: (usize, usize), k: int|
        admissible(cost, thresh, p) && #[trigger] free(matches, p) && 0 <= k < matches.len()
            ==> precedes(cost, #[trigger] matches[k], p)
}

proof fn lemma_take_next(
    cost: Seq<Seq<Single>>,
    thresh: Single,
    matches: Seq<(usize, usize)>,
    p: (usize, usize),
)
    requires
        greedy_so_far(cost, thresh, matches),
        next_choice(cost, thresh, matches, p),
    ensures
        greedy_so_far(cost, thresh, matches.push(p)),
{
    let longer = matches.push(p);
    assert forall|k: int| 0 <= k < longer.len() implies admissible(
        cost,
        thresh,
        #[trigger] longer[k],
    ) by {
        if k < matches.len() {
            assert(longer[k] == matches[k]);
        }
    }
    assert forall|a: int, b: int| 0 <= a < b < longer.len() implies precedes(
        cost,
        #[trigger] longer[a],
        #[trigger] longer[b],
    ) && !clash(longer[a], longer[b]) by {
        assert(longer[a] == matches[a]);
        if b < matches.len() {
            assert(longer[b] == matches[b]);
        } else {
            assert(precedes(cost, matches[a], p));
        }
    }
    assert forall|q: (usize, usize)|
        admissible(cost, thresh, q) && !#[trigger] free(longer, q) implies decided(
        cost,
        longer,
        q,
    ) by {
        if free(matches, q) {
            if !clash(p, q) {
                assert(free(longer, q)) by {
                    assert forall|k: int| 0 <= k < longer.len() implies !clash(
                        #[trigger] longer[k],
                        q,
                    ) by {
                        if k < matches.len() {
                            assert(longer[k] == matches[k]);
                        }
                    }
                }
            }
            assert(decides(cost, longer[matches.len() as int], q));
        } else {
            assert(decided(cost, matches, q));
            let k = choose|k: int|
                0 <= k < matches.len() && decides(cost, #[trigger] matches[k], q);
            assert(decides(cost, longer[k], q));
        }
    }
    assert forall|q: (usize, usize), k: int|
        admissible(cost, thresh, q) && #[trigger] free(longer, q) && 0 <= k
            < longer.len() implies precedes(cost, #[trigger] longer[k], q) by {
        assert(free(matches, q)) by {
            assert forall|j: int| 0 <= j < matches.len() implies !clash(
                #[trigger] matches[j],
                q,
            ) by {
                assert(longer[j] == matches[j]);
            }
        }
        if k < matches.len() {
            assert(longer[k] == matches[k]);
        } else {
            assert(!clash(longer[k], q));
        }
    }
}

proof fn lemma_none_left(cost: Seq<Seq<Single>>, thresh: Single, matches: Seq<(usize, usize)>)
    requires
        greedy_so_far(cost, thresh, matches),
        forall|q: (usize, usize)| admissible(cost, thresh, q) ==> !#[trigger] free(matches, q),
    ensures
        is_greedy(cost, thresh, matches),
{
    assert forall|p: (usize, usize)| admissible(cost, thresh, p) implies #[trigger] decided(
        cost,
        matches,
        p,
    ) by {
        assert(!free(matches, p));
    }
}

/// Some next choice exists when some admissible pair is free.
proof fn lemma_next_choice(
    cost: Seq<Seq<Single>>,
    thresh: Single,
    matches: Seq<(usize, usize)>,
    p: (usize, usize),
) -> (q: (usize, usize))
    requires
        admissible(cost, thresh, p),
        free(matches, p),
    ensures
        next_choice(cost, thresh, matches, q),
    decreases
            entry(cost, p).value() + crate::number::units(0x8000_0000),
            p.0,
            p.1,
{
    if next_choice(cost, thresh, matches, p) {
        p
    } else {
        let q = choose|q: (usize, usize)|
            admissible(cost, thresh, q) && #[trigger] free(matches, q) && precedes(cost, q, p);
        crate::number::lemma_value_range(entry(cost, q));
        lemma_next_choice(cost, thresh, matches, q)
    }
}

/// There are no more matches than rows, and no more than columns.
pub(crate) proof fn lemma_matching_len(
    cost: Seq<Seq<Single>>,
    matches: Seq<(usize, usize)>,
    rows: nat,
    columns: nat,
)
    requires
        in_order(cost, matches),
        forall|k: int| 0 <= k < matches.len() ==> (#[trigger] matches[k]).0 < rows,
        forall|k: int| 0 <= k < matches.len() ==> (#[trigger] matches[k]).1 < columns,
    ensures
        matches.len() <= rows,
        matches.len() <= columns,
{
    let r = matches.map_values(|m: (usize, usize)| m.0 as int);
    let c = matches.map_values(|m: (usize, usize)| m.1 as int);
    assert forall|a: int, b: int| 0 <= a < r.len() && 0 <= b < r.len() && a != b implies r[a]
        != r[b] && c[a] != c[b] by {
        if a < b {
            assert(!clash(matches[a], matches[b]));
        } else {
            assert(!clash(matches[b], matches[a]));
        }
    }
    lemma_distinct_below(r, rows);
    lemma_distinct_below(c, columns);
}

/// Distinct natural numbers below `n` are at most `n` many.
pub(crate) proof fn lemma_distinct_below(s: Seq<int>, n: nat)
    requires
        s.no_duplicates(),
        forall|k: int| 0 <= k < s.len() ==> 0 <= #[trigger] s[k] < n,
    ensures
        s.len() <= n,
{
    s.unique_seq_to_set();
    let range = vstd::set_lib::set_int_range(0, n as int);
    vstd::set_lib::lemma_int_range(0, n as int);
    assert(s.to_set().subset_of(range));
    vstd::set_lib::lemma_len_subset(s.to_set(), range);
}

proof fn lemma_greedy_from(cost: Seq<Seq<Single>>, thresh: Single, matches: Seq<(usize, usize)>)
    requires
        greedy_so_far(cost, thresh, matches),
    ensures
        exists|m: Seq<(usize, usize)>| is_greedy(cost, thresh, m),
    decreases cost.len() - matches.len(),
{
    if exists|p: (usize, usize)| admissible(cost, thresh, p) && #[trigger] free(matches, p) {
        let p = choose|p: (usize, usize)|
            admissible(cost, thresh, p) && #[trigger] free(matches, p);
        let q = lemma_next_choice(cost, thresh, matches, p);
        lemma_take_next(cost, thresh, matches, q);
        lemma_matching_len(cost, matches.push(q), cost.len(), width(cost));
        lemma_greedy_from(cost, thresh, matches.push(q));
    } else {
        lemma_none_left(cost, thresh, matches);
    }
}

/// Every cost matrix and threshold have a greedy matching.
pub proof fn greedy_exists(cost: Seq<Seq<Single>>, thresh: Single)
    ensures
        is_greedy(cost, thresh, greedy(cost, thresh)),
{
    let none = Seq::<(usize, usize)>::empty();
    assert(greedy_so_far(cost, thresh, none));
    lemma_greedy_from(cost, thresh, none);
}

/// Whether `used` marks exactly the matched rows.
spec fn marks_rows(used: Seq<bool>, matches: Seq<(usize, usize)>) -> bool {
    forall|i: usize| i < used.len() ==> #[trigger] used[i as int] == row_taken(matches, i)
}

/// Whether `used` marks exactly the matched columns.
spec fn marks_columns(used: Seq<bool>, matches: Seq<(usize, usize)>) -> bool {
    forall|j: usize| j < used.len() ==> #[trigger] used[j as int] == column_taken(matches, j)
}

/// Whether a scan row by row meets the pair `p` before it reaches `(i, j)`.
spec fn scanned(p: (usize, usize), i: usize, j: usize) -> bool {
    p.0 < i || (p.0 == i && p.1 < j)
}

/// Whether `best` is the first of the free admissible pairs scanned before
/// `(i, j)`, if there is any.
spec fn best_so_far(
    cost: Seq<Seq<Single>>,
    thresh: Single,
    matches: Seq<(usize, usize)>,
    best: Option<(usize, usize)>,
    i: usize,
    j: usize,
) -> bool {
    &&& best matches Some(b) ==> admissible(cost, thresh, b) && free(matches, b) && scanned(b, i, j)
    &&& forall|q: (usize, usize)|
        admissible(cost, thresh, q) && #[trigger] free(matches, q) && scanned(q, i, j) ==> (
        best matches Some(b) && !precedes(cost, q, b))
}

proof fn lemma_free_by_marks(
    matches: Seq<(usize, usize)>,
    row_used: Seq<bool>,
    column_used: Seq<bool>,
    p: (usize, usize),
)
    requires
        marks_rows(row_used, matches),
        marks_columns(column_used, matches),
        p.0 < row_used.len(),
        p.1 < column_used.len(),
    ensures
        free(matches, p) <==> !row_used[p.0 as int] && !column_used[p.1 as int],
{
    assert(row_used[p.0 as int] == row_taken(matches, p.0));
    assert(column_used[p.1 as int] == column_taken(matches, p.1));
    if free(matches, p) {
        assert forall|k: int| 0 <= k < matches.len() implies (#[trigger] matches[k]).0 != p.0
            && matches[k].1 != p.1 by {
            assert(!clash(matches[k], p));
        }
    }
}

/// The cheapest pair of an unused row and an unused column whose cost is at or
/// below the threshold, if there is any.
fn next_pair(
    cost: &Vec<Vec<Single>>,
    thresh: Single,
    columns: usize,
    matches: &Vec<(usize, usize)>,
    row_used: &Vec<bool>,
    column_used: &Vec<bool>,
) -> (r: Option<(usize, usize)>)
    requires
        columns == width(matrix(cost@)),
        has_columns(matrix(cost@), columns as nat),
        row_used.len() == cost.len(),
        column_used.len() == columns,
        marks_rows(row_used@, matches@),
        marks_columns(column_used@, matches@),
    ensures
        match r {
            Some(p) => next_choice(matrix(cost@), thresh, matches@, p),
            None => forall|q: (usize, usize)|
                admissible(matrix(cost@), thresh, q) ==> !#[trigger] free(matches@, q),
        },
{
    let ghost m = matrix(cost@);
    let mut best: Option<(usize, usize)> = None;
    let mut i: usize = 0;
    while i < cost.len()
        invariant
            m == matrix(cost@),
            columns == width(m),
            has_columns(m, columns as nat),
            row_used.len() == cost.len(),
            column_used.len() == columns,
            marks_rows(row_used@, matches@),
            marks_columns(column_used@, matches@),
            i <= cost.len(),
            best_so_far(m, thresh, matches@, best, i, 0),
        decreases cost.len() - i,
    {
        let row = &cost[i];
        assert(m[i as int] == row@);
        let mut j: usize = 0;
        while j < columns
            invariant
                m == matrix(cost@),
                columns == width(m),
                has_columns(m, columns as nat),
                row_used.len() == cost.len(),
                column_used.len() == columns,
                marks_rows(row_used@, matches@),
                marks_columns(column_used@, matches@),
                i < cost.len(),
                row@ == m[i as int],
                row.len() == columns,
                j <= columns,
                best_so_far(m, thresh, matches@, best, i, j),
            decreases columns - j,
        {
            proof {
                lemma_free_by_marks(matches@, row_used@, column_used@, (i, j));
            }
            assert(entry(m, (i, j)) == row[j as int]);
            if !row_used[i] && !column_used[j] && row[j] <= thresh {
                assert(admissible(m, thresh, (i, j)));
                best = match best {
                    None => Some((i, j)),
                    Some(b) => {
                        assert(m[b.0 as int] == cost[b.0 as int]@);
                        if row[j] < cost[b.0][b.1] {
                            Some((i, j))
                        } else {
                            Some(b)
                        }
                    },
                };
            }
            j += 1;
        }
        i += 1;
    }
    best
}

/// Matches rows to columns greedily: the cheapest pair at or below `thresh`
/// first, then the cheapest of the pairs that share no row and no column with it,
/// and so on.
///
/// Returns the matches in the order in which they were taken, the unmatched rows
/// and the unmatched columns. A matrix without rows does not tell its columns, so
/// none are reported for it.
pub fn greedy_match(cost: &Vec<Vec<Single>>, thresh: Single) -> (r: (
    Vec<(usize, usize)>,
    Vec<usize>,
    Vec<usize>,
))
    requires
        has_columns(matrix(cost@), width(matrix(cost@))),
    ensures
        is_greedy(matrix(cost@), thresh, r.0@),
        r.0@ == greedy(matrix(cost@), thresh),
        r.1@ == unmatched_rows(r.0@, cost@.len()),
        r.2@ == unmatched_columns(r.0@, width(matrix(cost@))),
        // Each match is a pair of the matrix at or below the threshold.
        forall|k: int|
            0 <= k < r.0@.len() ==> {
                let m = #[trigger] r.0@[k];
                &&& m.0 < cost@.len()
                &&& m.1 < cost@[m.0 as int]@.len()
                &&& cost@[m.0 as int]@[m.1 as int].at_most(thresh)
            },
        // Matches share no row and no column, and come cheapest first, ties by row.
        forall|a: int, b: int|
            0 <= a < b < r.0@.len() ==> {
                let m = #[trigger] r.0@[a];
                let n = #[trigger] r.0@[b];
                let c = cost@[m.0 as int]@[m.1 as int];
                let d = cost@[n.0 as int]@[n.1 as int];
                &&& m.0 != n.0
                &&& m.1 != n.1
                &&& c.less_than(d) || (c.equals(d) && m.0 < n.0)
            },
        // A pair at or below the threshold is matched, or its row or its column is taken by a
        // match that is cheaper, or no dearer and earlier.
        forall|i: usize, j: usize|
            i < cost@.len() && j < cost@[i as int]@.len()
                && (#[trigger] cost@[i as int]@[j as int]).at_most(thresh) ==> exists|k: int|
                0 <= k < r.0@.len() && {
                    let m = #[trigger] r.0@[k];
                    let c = cost@[m.0 as int]@[m.1 as int];
                    &&& m.0 == i || m.1 == j
                    &&& c.less_than(cost@[i as int]@[j as int]) || (c.equals(
                        cost@[i as int]@[j as int],
                    ) && (m.0 < i || (m.0 == i && m.1 <= j)))
                },
        // The unmatched rows and columns, in increasing order.
        forall|a: int, b: int| 0 <= a < b < r.1@.len() ==> r.1@[a] < r.1@[b],
        forall|i: usize| #[trigger]
            r.1@.contains(i) <==> i < cost@.len() && (forall|k: int|
                0 <= k < r.0@.len() ==> (#[trigger] r.0@[k]).0 != i),
        forall|a: int, b: int| 0 <= a < b < r.2@.len() ==> r.2@[a] < r.2@[b],
        forall|j: usize| #[trigger]
            r.2@.contains(j) <==> cost@.len() > 0 && j < cost@[0]@.len() && (forall|k: int|
                0 <= k < r.0@.len() ==> (#[trigger] r.0@[k]).1 != j),
{
    let r = take_cheapest_first(cost, thresh);
    proof {
        lemma_greedy_in_full(cost@, thresh, r.0@);
        lemma_unmatched(r.0@, cost@.len(), width(matrix(cost@)));
        assert(cost@.len() > 0 ==> matrix(cost@)[0] == cost@[0]@);
    }
    r
}

/// Takes the cheapest free pair until none is left at or below `thresh`.
fn take_cheapest_first(cost: &Vec<Vec<Single>>, thresh: Single) -> (r: (
    Vec<(usize, usize)>,
    Vec<usize>,
    Vec<usize>,
))
    requires
        has_columns(matrix(cost@), width(matrix(cost@))),
    ensures
        is_greedy(matrix(cost@), thresh, r.0@),
        r.0@ == greedy(matrix(cost@), thresh),
        r.1@ == unmatched_rows(r.0@, cost@.len()),
        r.2@ == unmatched_columns(r.0@, width(matrix(cost@))),
        cost@.len() <= usize::MAX,
        width(matrix(cost@)) <= usize::MAX,
{
    let ghost m = matrix(cost@);
    let rows = cost.len();
    let columns: usize = if rows == 0 {
        0
    } else {
        assert(m[0] == cost[0]@);
        cost[0].len()
    };
    let mut matches: Vec<(usize, usize)> = Vec::new();
    let mut row_used: Vec<bool> = Vec::new();
    while row_used.len() < rows
        invariant
            row_used.len() <= rows,
            forall|k: int| 0 <= k < row_used.len() ==> !row_used[k],
        decreases rows - row_used.len(),
    {
        row_used.push(false);
    }
    let mut column_used: Vec<bool> = Vec::new();
    while column_used.len() < columns
        invariant
            column_used.len() <= columns,
            forall|k: int| 0 <= k < column_used.len() ==> !column_used[k],
        decreases columns - column_used.len(),
    {
        column_used.push(false);
    }
    loop
        invariant
            m == matrix(cost@),
            rows == m.len(),
            rows == cost.len(),
            columns == width(m),
            has_columns(m, columns as nat),
            row_used.len() == rows,
            column_used.len() == columns,
            marks_rows(row_used@, matches@),
            marks_columns(column_used@, matches@),
            greedy_so_far(m, thresh, matches@),
        ensures
            forall|q: (usize, usize)|
                admissible(m, thresh, q) ==> !#[trigger] free(matches@, q),
        decreases rows - matches.len(),
    {
        match next_pair(cost, thresh, columns, &matches, &row_used, &column_used) {
            None => {
                break;
            },
            Some(p) => {
                let ghost before = matches@;
                proof {
                    lemma_take_next(m, thresh, matches@, p);
                    lemma_matching_len(m, matches@.push(p), rows as nat, columns as nat);
                    lemma_taken_push(before, p);
                }
                matches.push(p);
                row_used[p.0] = true;
                column_used[p.1] = true;
            },
        }
    }
    proof {
        lemma_none_left(m, thresh, matches@);
        greedy_exists(m, thresh);
        greedy_is_unique(m, thresh, matches@, greedy(m, thresh));
    }
    let free_rows = unmarked(&row_used);
    let free_columns = unmarked(&column_used);
    proof {
        crate::indices::lemma_select_agree(
            rows as nat,
            |i: usize| !row_used@[i as int],
            |i: usize| !row_taken(matches@, i),
        );
        crate::indices::lemma_select_agree(
            columns as nat,
            |j: usize| !column_used@[j as int],
            |j: usize| !column_taken(matches@, j),
        );
    }
    (matches, free_rows, free_columns)
}

/// What a greedy matching is, in terms of the matrix itself.
proof fn lemma_greedy_in_full(cost: Seq<Vec<Single>>, thresh: Single, matches: Seq<(usize, usize)>)
    requires
        has_columns(matrix(cost), width(matrix(cost))),
        is_greedy(matrix(cost), thresh, matches),
    ensures
        forall|k: int|
            0 <= k < matches.len() ==> {
                let m = #[trigger] matches[k];
                &&& m.0 < cost.len()
                &&& m.1 < cost[m.0 as int]@.len()
                &&& cost[m.0 as int]@[m.1 as int].at_most(thresh)
            },
        forall|a: int, b: int|
            0 <= a < b < matches.len() ==> {
                let m = #[trigger] matches[a];
                let n = #[trigger] matches[b];
                let c = cost[m.0 as int]@[m.1 as int];
                let d = cost[n.0 as int]@[n.1 as int];
                &&& m.0 != n.0
                &&& m.1 != n.1
                &&& c.less_than(d) || (c.equals(d) && m.0 < n.0)
            },
        forall|i: usize, j: usize|
            i < cost.len() && j < cost[i as int]@.len()
                && (#[trigger] cost[i as int]@[j as int]).at_most(thresh) ==> exists|k: int|
                0 <= k < matches.len() && {
                    let m = #[trigger] matches[k];
                    let c = cost[m.0 as int]@[m.1 as int];
                    &&& m.0 == i || m.1 == j
                    &&& c.less_than(cost[i as int]@[j as int]) || (c.equals(
                        cost[i as int]@[j as int],
                    ) && (m.0 < i || (m.0 == i && m.1 <= j)))
                },
{
    let g = matrix(cost);
    assert forall|i: int| 0 <= i < cost.len() implies #[trigger] cost[i]@ == g[i] && cost[i]@.len()
        == width(g) by {
        assert(g[i] == cost[i]@);
        assert(g[i].len() == width(g));
    }
    assert forall|k: int| 0 <= k < matches.len() implies {
        let m = #[trigger] matches[k];
        &&& m.0 < cost.len()
        &&& m.1 < cost[m.0 as int]@.len()
        &&& cost[m.0 as int]@[m.1 as int] == entry(g, m)
        &&& entry(g, m).at_most(thresh)
    } by {
        assert(admissible(g, thresh, matches[k]));
    }
    assert forall|a: int, b: int| 0 <= a < b < matches.len() implies {
        let m = #[trigger] matches[a];
        let n = #[trigger] matches[b];
        let c = cost[m.0 as int]@[m.1 as int];
        let d = cost[n.0 as int]@[n.1 as int];
        &&& m.0 != n.0
        &&& m.1 != n.1
        &&& c.less_than(d) || (c.equals(d) && m.0 < n.0)
    } by {
        assert(precedes(g, matches[a], matches[b]) && !clash(matches[a], matches[b]));
    }
    assert forall|i: usize, j: usize|
        i < cost.len() && j < cost[i as int]@.len()
            && (#[trigger] cost[i as int]@[j as int]).at_most(thresh) implies exists|k: int|
        0 <= k < matches.len() && {
            let m = #[trigger] matches[k];
            let c = cost[m.0 as int]@[m.1 as int];
            &&& m.0 == i || m.1 == j
            &&& c.less_than(cost[i as int]@[j as int]) || (c.equals(cost[i as int]@[j as int]) && (
            m.0 < i || (m.0 == i && m.1 <= j)))
        } by {
        assert(entry(g, (i, j)) == cost[i as int]@[j as int]);
        assert(admissible(g, thresh, (i, j)));
        assert(decided(g, matches, (i, j)));
        let k = choose|k: int| 0 <= k < matches.len() && decides(g, #[trigger] matches[k], (i, j));
        assert(!precedes(g, (i, j), matches[k]));
    }
}

/// Which rows and columns are unmatched, in terms of the matches themselves.
proof fn lemma_unmatched(matches: Seq<(usize, usize)>, rows: nat, columns: nat)
    requires
        rows <= usize::MAX,
        columns <= usize::MAX,
    ensures
        forall|a: int, b: int|
            0 <= a < b < unmatched_rows(matches, rows).len() ==> unmatched_rows(matches, rows)[a]
                < unmatched_rows(matches, rows)[b],
        forall|i: usize| #[trigger]
            unmatched_rows(matches, rows).contains(i) <==> i < rows && (forall|k: int|
                0 <= k < matches.len() ==> (#[trigger] matches[k]).0 != i),
        forall|a: int, b: int|
            0 <= a < b < unmatched_columns(matches, columns).len() ==> unmatched_columns(
                matches,
                columns,
            )[a] < unmatched_columns(matches, columns)[b],
        forall|j: usize| #[trigger]
            unmatched_columns(matches, columns).contains(j) <==> j < columns && (forall|k: int|
                0 <= k < matches.len() ==> (#[trigger] matches[k]).1 != j),
{
    let p = |i: usize| !row_taken(matches, i);
    let q = |j: usize| !column_taken(matches, j);
    crate::indices::lemma_select(rows, p);
    crate::indices::lemma_select(columns, q);
    assert forall|i: usize| #[trigger]
        unmatched_rows(matches, rows).contains(i) <==> i < rows && (forall|k: int|
            0 <= k < matches.len() ==> (#[trigger] matches[k]).0 != i) by {
        assert(p(i) == !row_taken(matches, i));
    }
    assert forall|j: usize| #[trigger]
        unmatched_columns(matches, columns).contains(j) <==> j < columns && (forall|k: int|
            0 <= k < matches.len() ==> (#[trigger] matches[k]).1 != j) by {
        assert(q(j) == !column_taken(matches, j));
    }
}

proof fn lemma_taken_push(matches: Seq<(usize, usize)>, p: (usize, usize))
    ensures
        forall|i: usize| #[trigger]
            row_taken(matches.push(p), i) <==> row_taken(matches, i) || i == p.0,
        forall|j: usize| #[trigger]
            column_taken(matches.push(p), j) <==> column_taken(matches, j) || j == p.1,
{
    let longer = matches.push(p);
    assert(longer[matches.len() as int] == p);
    assert(forall|k: int| 0 <= k < matches.len() ==> #[trigger] longer[k] == matches[k]);
    assert forall|i: usize| row_taken(matches, i) implies row_taken(longer, i) by {
        let k = choose|k: int| 0 <= k < matches.len() && (#[trigger] matches[k]).0 == i;
        assert(longer[k].0 == i);
    }
    assert forall|j: usize| column_taken(matches, j) implies column_taken(longer, j) by {
        let k = choose|k: int| 0 <= k < matches.len() && (#[trigger] matches[k]).1 == j;
        assert(longer[k].1 == j);
    }
}

/// The positions that hold `false`, in increasing order.
fn unmarked(used: &Vec<bool>) -> (r: Vec<usize>)
    ensures
        r@ == crate::indices::select(used@.len(), |i: usize| !used@[i as int]),
{
    let mut r: Vec<usize> = Vec::new();
    let mut i: usize = 0;
    while i < used.len()
        invariant
            i <= used.len(),
            r@ == crate::indices::select(i as nat, |i: usize| !used@[i as int]),
        decreases used.len() - i,
    {
        if !used[i] {
            r.push(i);
        }
        i += 1;
    }
    r
}

} // verus!
