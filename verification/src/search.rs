use vstd::prelude::*;
use crate::geometry::{Point, dist, dist2, points_valid, lemma_dist2_bounds};
use crate::neighbors::{
    NbrList, Node, init_row, row_step, row_insert, ins_pos, sorted_row, wf_row, SENTINEL_DIST,
    lemma_ins_pos_bounds, lemma_row_insert_facts,
};

verus! {

/// Particle `j` is retained in the row: some filled slot carries its
/// identifier.
pub open spec fn in_row(s: Seq<Node>, j: int) -> bool {
    exists|q: int| 1 <= q < s.len() && (#[trigger] s[q]).dist != SENTINEL_DIST && s[q].id == j
}

/// Every filled slot of the row is a genuine candidate of particle `i`: its
/// identifier names another, existing particle and its distance is exactly
/// the squared minimum-image distance between the two.
pub open spec fn entries_genuine(s: Seq<Node>, ps: Seq<Point>, i: int) -> bool {
    forall|q: int|
        1 <= q < s.len() ==> ((#[trigger] s[q]).dist == SENTINEL_DIST || (s[q].id != i
            && s[q].id < ps.len() && s[q].dist == dist2(ps[i], ps[s[q].id as int])))
}

/// No candidate among `0..jn` was missed: each is either retained or at
/// least as far as the rejection threshold.
pub open spec fn row_complete(s: Seq<Node>, ps: Seq<Point>, i: int, jn: int) -> bool {
    forall|j: int|
        0 <= j < jn && j != i && !(#[trigger] in_row(s, j)) ==> dist2(ps[i], ps[j]) >= s[0].dist
}

/// Every filled slot names a candidate already offered.
pub open spec fn ids_below(s: Seq<Node>, jn: int) -> bool {
    forall|q: int|
        1 <= q < s.len() && (#[trigger] s[q]).dist != SENTINEL_DIST ==> s[q].id < jn
}

/// No two filled slots name the same candidate.
pub open spec fn distinct_ids(s: Seq<Node>) -> bool {
    forall|a: int, b: int|
        1 <= a < b < s.len() && (#[trigger] s[a]).dist != SENTINEL_DIST && (#[trigger] s[b]).dist
            != SENTINEL_DIST ==> s[a].id != s[b].id
}

/// Number of candidates among `0..jn` other than `i` itself.
pub open spec fn real_count(i: int, jn: int) -> int {
    if i < jn {
        jn - 1
    } else {
        jn
    }
}

/// How many leading slots are filled once `jn` candidates were offered: one
/// per candidate, capped at the row's capacity.
pub open spec fn fill_level(s: Seq<Node>, i: int, jn: int) -> int {
    let rc = real_count(i, jn);
    if rc < s.len() - 1 {
        rc
    } else {
        s.len() - 1
    }
}

/// Exactly the slots up to `m` are filled; the rest still hold the sentinel.
pub open spec fn fill_shape(s: Seq<Node>, m: int) -> bool {
    forall|q: int|
        1 <= q < s.len() ==> ((#[trigger] s[q]).dist != SENTINEL_DIST <==> q <= m)
}

/// Everything that holds of particle `i`'s row after candidates `0..jn`
/// were offered to a fresh row.
pub open spec fn row_inv(ps: Seq<Point>, i: int, jn: int, s: Seq<Node>) -> bool {
    &&& wf_row(s)
    &&& entries_genuine(s, ps, i)
    &&& row_complete(s, ps, i, jn)
    &&& ids_below(s, jn)
    &&& distinct_ids(s)
    &&& fill_shape(s, fill_level(s, i, jn))
}

/// The row of particle `i` after candidates `0..jn` have been offered to the
/// starting row `s0`, the self-pair skipped.
pub open spec fn row_after(ps: Seq<Point>, i: int, jn: int, s0: Seq<Node>) -> Seq<Node>
    decreases jn,
{
    if jn <= 0 {
        s0
    } else {
        let prev = row_after(ps, i, jn - 1, s0);
        if jn - 1 == i {
            prev
        } else {
            row_step(prev, (jn - 1) as usize, dist2(ps[i], ps[jn - 1]) as u64)
        }
    }
}

/// The finished row of particle `i`: every other particle offered, starting
/// from a fresh row of `k` sentinel slots.
pub open spec fn search_row(ps: Seq<Point>, k: nat, i: int) -> Seq<Node> {
    row_after(ps, i, ps.len() as int, init_row(k))
}

/// Offers every candidate `j != i` to the row of particle `i`, in increasing
/// order of `j`.
fn calc_row(points: &Vec<Point>, i: usize, row: &mut NbrList)
    requires
        points_valid(points@),
        (i as int) < points@.len(),
        old(row)@.len() >= 2,
    ensures
        final(row)@ == row_after(points@, i as int, points@.len() as int, old(row)@),
{
    let ghost s0 = row@;
    let n = points.len();
    let mut j: usize = 0;
    while j < n
        invariant
            j <= n,
            n == points@.len(),
            (i as int) < points@.len(),
            points_valid(points@),
            s0.len() >= 2,
            row@.len() == s0.len(),
            row@ == row_after(points@, i as int, j as int, s0),
        decreases n - j,
    {
        if j != i {
            let d = dist(&points[i], &points[j]);
            row.try_insert(j, d);
        }
        j += 1;
    }
}

/// A caller-allocated table: one fresh row of `k` sentinel slots per
/// particle.
pub fn new_table(n: usize, k: usize) -> (r: Vec<NbrList>)
    requires
        1 <= k < usize::MAX,
    ensures
        r@.len() == n,
        forall|m: int| 0 <= m < n ==> (#[trigger] r@[m])@ == init_row(k as nat),
{
    let mut table: Vec<NbrList> = Vec::new();
    let mut m: usize = 0;
    while m < n
        invariant
            k < usize::MAX,
            1 <= k,
            m <= n,
            table@.len() == m,
            forall|q: int| 0 <= q < m ==> (#[trigger] table@[q])@ == init_row(k as nat),
        decreases n - m,
    {
        table.push(NbrList::new(k));
        m += 1;
    }
    table
}

/// Brute-force all-pairs neighbor search: for every particle `i`, offers
/// every other particle to `i`'s row, in increasing order of the candidate
/// index.  Each finished row is exactly the fold of the insertion step over
/// the candidates, starting from the row the caller handed in.
pub fn brute_cal_nearest(points: &Vec<Point>, nearlist: &mut Vec<NbrList>)
    requires
        points_valid(points@),
        old(nearlist)@.len() == points@.len(),
        forall|m: int| 0 <= m < old(nearlist)@.len() ==> (#[trigger] old(nearlist)@[m])@.len() >= 2,
    ensures
        final(nearlist)@.len() == points@.len(),
        forall|m: int| 0 <= m < points@.len() ==> (#[trigger] final(nearlist)@[m])@ == row_after(
            points@,
            m,
            points@.len() as int,
            old(nearlist)@[m]@,
        ),
{
    let ghost t0 = nearlist@;
    let n = points.len();
    let mut i: usize = 0;
    while i < n
        invariant
            i <= n,
            n == points@.len(),
            points_valid(points@),
            t0.len() == n,
            nearlist@.len() == n,
            forall|m: int| 0 <= m < t0.len() ==> (#[trigger] t0[m])@.len() >= 2,
            forall|m: int| 0 <= m < i ==> (#[trigger] nearlist@[m])@ == row_after(
                points@,
                m,
                n as int,
                t0[m]@,
            ),
            forall|m: int| i <= m < n ==> nearlist@[m] == t0[m],
        decreases n - i,
    {
        let ghost prev_t = nearlist@;
        let mut row = nearlist.remove(i);
        proof {
            assert(prev_t[i as int] == t0[i as int]);
            assert(t0[i as int]@.len() >= 2);
        }
        calc_row(points, i, &mut row);
        let ghost rg = row;
        nearlist.insert(i, row);
        proof {
            prev_t.remove_ensures(i as int);
            prev_t.remove(i as int).insert_ensures(i as int, rg);
            assert forall|m: int| 0 <= m < n implies nearlist@[m] == (if m == i as int {
                rg
            } else {
                prev_t[m]
            }) by {
                if m < i as int {
                    assert(nearlist@[m] == prev_t.remove(i as int)[m]);
                } else if m > i as int {
                    assert(nearlist@[m] == prev_t.remove(i as int)[m - 1]);
                    assert(prev_t.remove(i as int)[m - 1] == prev_t[m]);
                }
            }
        }
        i += 1;
    }
}

/// Runs the whole search: allocates a sentinel-initialized table of `k`
/// candidate slots per particle and fills it.
pub fn nearest_neighbors(points: &Vec<Point>, k: usize) -> (r: Vec<NbrList>)
    requires
        points_valid(points@),
        1 <= k < usize::MAX,
    ensures
        r@.len() == points@.len(),
        forall|m: int| 0 <= m < points@.len() ==> (#[trigger] r@[m])@ == search_row(
            points@,
            k as nat,
            m,
        ),
{
    let mut table = new_table(points.len(), k);
    brute_cal_nearest(points, &mut table);
    table
}

/// A fresh row satisfies every row property with no candidate offered yet.
proof fn lemma_init_row_inv(ps: Seq<Point>, i: int, k: nat)
    requires
        k >= 1,
    ensures
        row_inv(ps, i, 0, init_row(k)),
        init_row(k).len() == k + 1,
{
    let s = init_row(k);
    assert forall|q: int| 0 <= q < s.len() implies s[q] == (Node {
        id: 0,
        dist: SENTINEL_DIST,
    }) by {}
}

/// One offered candidate keeps every row property, and can only lower the
/// rejection threshold.
proof fn lemma_step_preserves(ps: Seq<Point>, i: int, j: int, s: Seq<Node>)
    requires
        points_valid(ps),
        ps.len() <= usize::MAX,
        0 <= i < ps.len(),
        0 <= j < ps.len(),
        j != i,
        row_inv(ps, i, j, s),
    ensures
        ({
            let r = row_step(s, j as usize, dist2(ps[i], ps[j]) as u64);
            &&& row_inv(ps, i, j + 1, r)
            &&& r.len() == s.len()
            &&& r[0].dist <= s[0].dist
        }),
{
    let d = dist2(ps[i], ps[j]) as u64;
    lemma_dist2_bounds(ps[i], ps[j]);
    assert(d == dist2(ps[i], ps[j]));
    assert(d < SENTINEL_DIST);
    assert((j as usize) as int == j);
    let kk = s.len() - 1;
    let rc = real_count(i, j);
    let lev = fill_level(s, i, j);
    assert(real_count(i, j + 1) == rc + 1);
    if d >= s[0].dist {
        // Rejected.  The row must already be full: while a sentinel slot
        // remains the threshold is the sentinel, which every candidate beats.
        if lev < kk {
            assert(s[kk].dist == SENTINEL_DIST);
            assert(false);
        }
        assert(fill_level(s, i, j + 1) == lev);
        assert forall|jj: int|
            0 <= jj < j + 1 && jj != i && !(#[trigger] in_row(s, jj)) implies dist2(ps[i], ps[jj])
            >= s[0].dist by {
            if jj < j {
                assert(row_complete(s, ps, i, j));
            }
        }
    } else {
        lemma_ins_pos_bounds(s, d, 1);
        lemma_row_insert_facts(s, j as usize, d);
        let p = ins_pos(s, d, 1);
        let r = row_insert(s, j as usize, d);
        assert(1 <= p <= kk);
        // Sorted: every pair of slots, by where each reads from.
        assert forall|a: int, b: int| 1 <= a <= b < r.len() implies r[a].dist <= r[b].dist by {
            if b < p {
                assert(r[a] == s[a] && r[b] == s[b]);
            } else if b == p {
                if a < p {
                    assert(r[a] == s[a]);
                    assert(s[a].dist < d);
                }
            } else {
                assert(r[b] == s[b - 1]);
                if a < p {
                    assert(r[a] == s[a]);
                    assert(s[a].dist <= s[b - 1].dist);
                } else if a == p {
                    assert(p < kk);
                    assert(s[p].dist >= d);
                    assert(s[p].dist <= s[b - 1].dist);
                } else {
                    assert(r[a] == s[a - 1]);
                    assert(s[a - 1].dist <= s[b - 1].dist);
                }
            }
        }
        // The threshold never rises: the evicted slot was the worst.
        if p == kk {
            assert(r[kk] == (Node { id: j as usize, dist: d }));
        } else {
            assert(r[kk] == s[kk - 1]);
            assert(s[kk - 1].dist <= s[kk].dist);
        }
        assert(r[0].dist <= s[0].dist);
        // Genuine entries: old entries keep their slot or move one to the
        // right; the new slot holds the offered candidate itself.
        assert forall|q: int|
            1 <= q < r.len() implies ((#[trigger] r[q]).dist == SENTINEL_DIST || (r[q].id != i
                && r[q].id < ps.len() && r[q].dist == dist2(ps[i], ps[r[q].id as int]))) by {
            if q < p {
                assert(r[q] == s[q]);
                assert(entries_genuine(s, ps, i));
            } else if q == p {
                assert(r[q] == (Node { id: j as usize, dist: d }));
            } else {
                assert(r[q] == s[q - 1]);
                assert(entries_genuine(s, ps, i));
            }
        }
        // Every filled slot names an already offered candidate.
        assert forall|q: int|
            1 <= q < r.len() && (#[trigger] r[q]).dist != SENTINEL_DIST implies r[q].id < j
            + 1 by {
            if q < p {
                assert(r[q] == s[q]);
            } else if q > p {
                assert(r[q] == s[q - 1]);
            }
        }
        // Distinct identifiers: the offered candidate was not offered before.
        assert forall|a: int, b: int|
            1 <= a < b < r.len() && (#[trigger] r[a]).dist != SENTINEL_DIST && (
            #[trigger] r[b]).dist != SENTINEL_DIST implies r[a].id != r[b].id by {
            if a == p {
                assert(r[b] == s[b - 1]);
                assert(s[b - 1].id < j);
            } else if b == p {
                assert(r[a] == s[a]);
                assert(s[a].id < j);
            } else {
                let sa: int = if a < p {
                    a
                } else {
                    a - 1
                };
                let sb: int = if b < p {
                    b
                } else {
                    b - 1
                };
                assert(r[a] == s[sa] && r[b] == s[sb]);
                assert(1 <= sa < sb < s.len());
            }
        }
        // Fill shape: one more leading slot is filled, up to the capacity.
        if lev < kk {
            assert(lev == rc);
            assert(fill_level(r, i, j + 1) == lev + 1);
            if p > lev + 1 {
                assert(s[lev + 1].dist < d);
                assert(s[lev + 1].dist == SENTINEL_DIST);
                assert(false);
            }
            assert forall|q: int|
                1 <= q < r.len() implies ((#[trigger] r[q]).dist != SENTINEL_DIST <==> q <= lev
                + 1) by {
                if q < p {
                    assert(r[q] == s[q]);
                    assert(s[q].dist != SENTINEL_DIST <==> q <= lev);
                } else if q > p {
                    assert(r[q] == s[q - 1]);
                    assert(s[q - 1].dist != SENTINEL_DIST <==> q - 1 <= lev);
                }
            }
        } else {
            assert(fill_level(r, i, j + 1) == kk);
            assert forall|q: int|
                1 <= q < r.len() implies ((#[trigger] r[q]).dist != SENTINEL_DIST <==> q
                <= kk) by {
                if q < p {
                    assert(r[q] == s[q]);
                    assert(s[q].dist != SENTINEL_DIST);
                } else if q > p {
                    assert(r[q] == s[q - 1]);
                    assert(s[q - 1].dist != SENTINEL_DIST);
                }
            }
        }
        // Completeness: the offered candidate is now retained; of the older
        // ones only the evicted worst slot left the row, and its distance
        // was the old threshold, at or above the new one.
        assert forall|jj: int|
            0 <= jj < j + 1 && jj != i && !(#[trigger] in_row(r, jj)) implies dist2(ps[i], ps[jj])
            >= r[0].dist by {
            if jj == j {
                assert(r[p].dist == d && d != SENTINEL_DIST && r[p].id == jj);
                assert(in_row(r, jj));
            } else {
                if in_row(s, jj) {
                    let q = choose|q: int|
                        1 <= q < s.len() && (#[trigger] s[q]).dist != SENTINEL_DIST && s[q].id
                            == jj;
                    if q < p {
                        assert(r[q] == s[q]);
                        assert(in_row(r, jj));
                    } else if q < kk {
                        assert(r[q + 1] == s[q]);
                        assert(in_row(r, jj));
                    } else {
                        assert(entries_genuine(s, ps, i));
                        assert(s[kk].dist == dist2(ps[i], ps[jj]));
                        assert(s[kk].dist == s[0].dist);
                    }
                } else {
                    assert(row_complete(s, ps, i, j));
                    assert(dist2(ps[i], ps[jj]) >= s[0].dist);
                }
            }
        }
    }
}

/// All row properties hold of the model row after any number of offered
/// candidates, starting from a fresh row.
proof fn lemma_row_after_inv(ps: Seq<Point>, i: int, jn: int, k: nat)
    requires
        points_valid(ps),
        ps.len() <= usize::MAX,
        0 <= i < ps.len(),
        0 <= jn <= ps.len(),
        k >= 1,
    ensures
        row_inv(ps, i, jn, row_after(ps, i, jn, init_row(k))),
        row_after(ps, i, jn, init_row(k)).len() == k + 1,
    decreases jn,
{
    if jn <= 0 {
        lemma_init_row_inv(ps, i, k);
    } else {
        lemma_row_after_inv(ps, i, jn - 1, k);
        let prev = row_after(ps, i, jn - 1, init_row(k));
        if jn - 1 == i {
            assert(real_count(i, jn) == real_count(i, jn - 1));
            assert forall|jj: int|
                0 <= jj < jn && jj != i && !(#[trigger] in_row(prev, jj)) implies dist2(
                ps[i],
                ps[jj],
            ) >= prev[0].dist by {
                assert(row_complete(prev, ps, i, jn - 1));
            }
        } else {
            lemma_step_preserves(ps, i, jn - 1, prev);
        }
    }
}

/// Law: in every finished row, the retained slots are sorted in
/// non-decreasing order of distance.
pub proof fn lemma_search_row_sorted(ps: Seq<Point>, k: nat, i: int)
    requires
        points_valid(ps),
        ps.len() <= usize::MAX,
        0 <= i < ps.len(),
        k >= 1,
    ensures
        sorted_row(search_row(ps, k, i)),
        search_row(ps, k, i).len() == k + 1,
{
    lemma_row_after_inv(ps, i, ps.len() as int, k);
}

/// Law: no filled slot of particle `i`'s finished row names `i` itself;
/// every filled slot names another, existing particle at exactly its squared
/// minimum-image distance, and no particle is named twice.
pub proof fn lemma_search_row_entries(ps: Seq<Point>, k: nat, i: int)
    requires
        points_valid(ps),
        ps.len() <= usize::MAX,
        0 <= i < ps.len(),
        k >= 1,
    ensures
        entries_genuine(search_row(ps, k, i), ps, i),
        distinct_ids(search_row(ps, k, i)),
{
    lemma_row_after_inv(ps, i, ps.len() as int, k);
}

/// Law: with more than `k` particles present, every slot of a finished row
/// is filled, so no slot at all names the owning particle.
pub proof fn lemma_search_row_filled(ps: Seq<Point>, k: nat, i: int)
    requires
        points_valid(ps),
        ps.len() <= usize::MAX,
        0 <= i < ps.len(),
        k >= 1,
        ps.len() >= k + 1,
    ensures
        forall|q: int|
            1 <= q < search_row(ps, k, i).len() ==> (#[trigger] search_row(ps, k, i)[q]).dist
                != SENTINEL_DIST,
        forall|q: int|
            1 <= q < search_row(ps, k, i).len() ==> (#[trigger] search_row(ps, k, i)[q]).id != i,
{
    lemma_row_after_inv(ps, i, ps.len() as int, k);
    let s = search_row(ps, k, i);
    let n = ps.len() as int;
    assert(real_count(i, n) == n - 1);
    assert(fill_level(s, i, n) == k as int);
    assert forall|q: int| 1 <= q < s.len() implies (#[trigger] s[q]).dist != SENTINEL_DIST by {
        assert(fill_shape(s, k as int));
    }
}

/// Law: no closer neighbor was missed.  Every particle other than `i` that a
/// finished row does not retain is at least as far from `i` as the worst
/// retained distance, which the threshold slot mirrors.
pub proof fn lemma_search_row_complete(ps: Seq<Point>, k: nat, i: int)
    requires
        points_valid(ps),
        ps.len() <= usize::MAX,
        0 <= i < ps.len(),
        k >= 1,
    ensures
        search_row(ps, k, i)[0].dist == search_row(ps, k, i)[k as int].dist,
        forall|j: int|
            0 <= j < ps.len() && j != i && !(#[trigger] in_row(search_row(ps, k, i), j)) ==> dist2(
                ps[i],
                ps[j],
            ) >= search_row(ps, k, i)[k as int].dist,
{
    lemma_row_after_inv(ps, i, ps.len() as int, k);
}

/// Law: the search is a function of the points and of `k` alone.  Any two
/// tables produced from freshly sentinel-initialized rows over the same
/// points coincide, so re-running the search reproduces its output exactly.
pub proof fn lemma_search_deterministic(
    ps: Seq<Point>,
    k: nat,
    t1: Seq<Seq<Node>>,
    t2: Seq<Seq<Node>>,
)
    requires
        t1.len() == ps.len(),
        t2.len() == ps.len(),
        forall|m: int| 0 <= m < ps.len() ==> #[trigger] t1[m] == search_row(ps, k, m),
        forall|m: int| 0 <= m < ps.len() ==> #[trigger] t2[m] == search_row(ps, k, m),
    ensures
        t1 == t2,
{
    assert(t1 =~= t2);
}

} // verus!
