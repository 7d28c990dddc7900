use vstd::prelude::*;
use crate::grid::Grid;
use crate::grid::lemma_row_major_index;
use crate::grid::lemma_row_major_distinct;
use crate::grid::lemma_flat_index_inverse;
use crate::land::LandCode;
use crate::rng::WorldRng;
use crate::climate::SEA_LEVEL;

verus! {

/// Height above which a cell is a candidate river source.
pub const SOURCE_HEIGHT: i64 = 150;

/// Rainfall above which a cell is a candidate river source.
pub const SOURCE_RAIN: i64 = 200;

/// A cell qualifies as a river source when it is both high and wet.
pub open spec fn is_source_cell(height_map: Grid<i64>, rain_map: Grid<i64>, i: int, j: int) -> bool {
    height_map.at(i, j) > SOURCE_HEIGHT && rain_map.at(i, j) > SOURCE_RAIN
}

/// A row-major scan visits `a` strictly before `b`.
pub open spec fn scan_before(a: (usize, usize), b: (usize, usize)) -> bool {
    a.0 < b.0 || (a.0 == b.0 && a.1 < b.1)
}

/// The qualifying source cells among the first `k` cells of the row-major
/// scan, in scan order.
pub open spec fn scan_sources_upto(height: Grid<i64>, rain: Grid<i64>, k: int)
    -> Seq<(usize, usize)>
    decreases k,
{
    if k <= 0 {
        Seq::empty()
    } else {
        let c = k - 1;
        let i = c / (height.size as int);
        let j = c % (height.size as int);
        scan_sources_upto(height, rain, c) + if is_source_cell(height, rain, i, j) {
            seq![(i as usize, j as usize)]
        } else {
            Seq::empty()
        }
    }
}

/// All qualifying source cells of the grid, in row-major scan order.
pub open spec fn scan_sources(height: Grid<i64>, rain: Grid<i64>) -> Seq<(usize, usize)> {
    scan_sources_upto(height, rain, height.size * height.size)
}

/// Collect, in scan order, every cell whose height exceeds 150 and whose
/// rainfall exceeds 200: exactly the qualifying cells, each in bounds, each
/// exactly once, in strictly increasing row-major order.
pub fn find_river_starting_points(height_map: &Grid<i64>, rain_map: &Grid<i64>)
    -> (pts: Vec<(usize, usize)>)
    requires
        height_map.wf(),
        rain_map.wf(),
        rain_map.size == height_map.size,
        1 <= height_map.size,
    ensures
        forall|k: int| 0 <= k < pts@.len() ==> {
            let p = #[trigger] pts@[k];
            p.0 < height_map.size && p.1 < height_map.size
                && is_source_cell(*height_map, *rain_map, p.0 as int, p.1 as int)
        },
        forall|i: int, j: int|
            0 <= i < height_map.size && 0 <= j < height_map.size
                && is_source_cell(*height_map, *rain_map, i, j)
                ==> exists|k: int|
                    0 <= k < pts@.len() && #[trigger] pts@[k] == (i as usize, j as usize),
        forall|k1: int, k2: int|
            0 <= k1 < k2 < pts@.len() ==> scan_before(#[trigger] pts@[k1], #[trigger] pts@[k2]),
        pts@ == scan_sources(*height_map, *rain_map),
{
    let size = height_map.side();
    let mut pts: Vec<(usize, usize)> = Vec::new();
    let mut i: usize = 0;
    while i < size
        invariant
            height_map.wf(),
            rain_map.wf(),
            size == height_map.size,
            rain_map.size == size,
            1 <= size,
            i <= size,
            forall|k: int| 0 <= k < pts@.len() ==> {
                let p = #[trigger] pts@[k];
                p.0 < size && p.1 < size
                    && is_source_cell(*height_map, *rain_map, p.0 as int, p.1 as int)
            },
            forall|i2: int, j2: int|
                0 <= i2 < i && 0 <= j2 < size
                    && is_source_cell(*height_map, *rain_map, i2, j2)
                    ==> exists|k: int|
                        0 <= k < pts@.len() && #[trigger] pts@[k] == (i2 as usize, j2 as usize),
            forall|k: int| 0 <= k < pts@.len() ==> (#[trigger] pts@[k]).0 < i,
            forall|k1: int, k2: int|
                0 <= k1 < k2 < pts@.len()
                    ==> scan_before(#[trigger] pts@[k1], #[trigger] pts@[k2]),
            pts@ == scan_sources_upto(*height_map, *rain_map, i as int * size as int),
        decreases size - i,
    {
        let mut j: usize = 0;
        while j < size
            invariant
                height_map.wf(),
                rain_map.wf(),
                size == height_map.size,
                rain_map.size == size,
                1 <= size,
                i < size,
                j <= size,
                forall|k: int| 0 <= k < pts@.len() ==> {
                    let p = #[trigger] pts@[k];
                    p.0 < size && p.1 < size
                        && is_source_cell(*height_map, *rain_map, p.0 as int, p.1 as int)
                },
                forall|i2: int, j2: int|
                    0 <= i2 < i && 0 <= j2 < size
                        && is_source_cell(*height_map, *rain_map, i2, j2)
                        ==> exists|k: int|
                            0 <= k < pts@.len() && #[trigger] pts@[k] == (i2 as usize, j2 as usize),
                forall|j2: int|
                    0 <= j2 < j && is_source_cell(*height_map, *rain_map, i as int, j2)
                        ==> exists|k: int|
                            0 <= k < pts@.len() && #[trigger] pts@[k] == (i as usize, j2 as usize),
                forall|k: int| 0 <= k < pts@.len()
                    ==> scan_before(#[trigger] pts@[k], (i, j)),
                forall|k1: int, k2: int|
                    0 <= k1 < k2 < pts@.len()
                        ==> scan_before(#[trigger] pts@[k1], #[trigger] pts@[k2]),
                pts@ == scan_sources_upto(*height_map, *rain_map,
                    i as int * size as int + j as int),
            decreases size - j,
        {
            let h = height_map.get(i, j);
            let rn = rain_map.get(i, j);
            let ghost p0 = pts@;
            if h > SOURCE_HEIGHT && rn > SOURCE_RAIN {
                pts.push((i, j));
                assert(pts@[p0.len() as int] == (i, j));
            }
            proof {
                let flat = i as int * size as int + j as int;
                lemma_row_major_index(size as int, i as int, j as int);
                assert(flat / (size as int) == i as int && flat % (size as int) == j as int);
                if h > SOURCE_HEIGHT && rn > SOURCE_RAIN {
                    assert(p0 + seq![(i, j)] =~= p0.push((i, j)));
                    assert(pts@ == scan_sources_upto(*height_map, *rain_map, flat + 1));
                } else {
                    assert(p0 + Seq::<(usize, usize)>::empty() =~= p0);
                    assert(pts@ == scan_sources_upto(*height_map, *rain_map, flat + 1));
                }
                assert forall|i2: int, j2: int|
                    (0 <= i2 < i + 1 && 0 <= j2 < size
                        && (i2 < i || j2 < j + 1)
                        && is_source_cell(*height_map, *rain_map, i2, j2))
                        implies exists|k: int|
                            0 <= k < pts@.len()
                                && #[trigger] pts@[k] == (i2 as usize, j2 as usize) by {
                    if i2 == i as int && j2 == j as int {
                        assert(h > SOURCE_HEIGHT && rn > SOURCE_RAIN);
                        assert(pts@[p0.len() as int] == (i2 as usize, j2 as usize));
                    } else {
                        assert(exists|k: int|
                            0 <= k < p0.len() && #[trigger] p0[k] == (i2 as usize, j2 as usize));
                        let k = choose|k: int|
                            0 <= k < p0.len() && #[trigger] p0[k] == (i2 as usize, j2 as usize);
                        assert(pts@[k] == (i2 as usize, j2 as usize));
                    }
                }
            }
            j = j + 1;
        }
        proof {
            assert(i as int * size as int + size as int == (i as int + 1) * size as int)
                by (nonlinear_arith)
            {}
        }
        i = i + 1;
    }
    pts
}

/// Two cells lie within Chebyshev distance `d` of each other.
pub open spec fn chebyshev_close(a: (usize, usize), b: (usize, usize), d: int) -> bool {
    -d <= a.0 - b.0 <= d && -d <= a.1 - b.1 <= d
}

/// The point occurs in the list.
pub open spec fn point_in_list(p: (usize, usize), r: Seq<(usize, usize)>) -> bool {
    exists|k: int| 0 <= k < r.len() && #[trigger] r[k] == p
}

/// Some point of the list lies within Chebyshev distance `d` of `p`.
pub open spec fn point_covered(p: (usize, usize), r: Seq<(usize, usize)>, d: int) -> bool {
    exists|k: int| 0 <= k < r.len() && chebyshev_close(p, #[trigger] r[k], d)
}

/// The greedy selection continued over the remaining points with `acc`
/// already accepted: the next point is dropped exactly when an accepted
/// point lies within distance `d` of it.
pub open spec fn greedy_filter_rec(
    points: Seq<(usize, usize)>,
    d: int,
    acc: Seq<(usize, usize)>,
) -> Seq<(usize, usize)>
    decreases points.len(),
{
    if points.len() == 0 {
        acc
    } else {
        let p = points[0];
        if point_covered(p, acc, d) {
            greedy_filter_rec(points.skip(1), d, acc)
        } else {
            greedy_filter_rec(points.skip(1), d, acc.push(p))
        }
    }
}

/// The greedy non-maximum suppression of `points` in their given order.
pub open spec fn greedy_filter(points: Seq<(usize, usize)>, d: int) -> Seq<(usize, usize)> {
    greedy_filter_rec(points, d, Seq::empty())
}

/// Appending to a list keeps every earlier member a member, and makes the
/// appended point one.
proof fn lemma_in_list_push(p: (usize, usize), r: Seq<(usize, usize)>, v: (usize, usize))
    ensures
        point_in_list(p, r) ==> point_in_list(p, r.push(v)),
        point_in_list(v, r.push(v)),
        point_in_list(p, r.push(v)) ==> point_in_list(p, r) || p == v,
{
    if point_in_list(p, r) {
        let k = choose|k: int| 0 <= k < r.len() && #[trigger] r[k] == p;
        assert(r.push(v)[k] == p);
    }
    assert(r.push(v)[r.len() as int] == v);
    if point_in_list(p, r.push(v)) {
        let k = choose|k: int| 0 <= k < r.push(v).len() && #[trigger] r.push(v)[k] == p;
        if k < r.len() {
            assert(r[k] == p);
        }
    }
}

/// Appending to a list keeps every covered point covered.
proof fn lemma_covered_push(p: (usize, usize), r: Seq<(usize, usize)>, v: (usize, usize), d: int)
    requires
        point_covered(p, r, d),
    ensures
        point_covered(p, r.push(v), d),
{
    let k = choose|k: int| 0 <= k < r.len() && chebyshev_close(p, #[trigger] r[k], d);
    assert(r.push(v)[k] == r[k]);
    assert(chebyshev_close(p, r.push(v)[k], d));
}

/// Greedy non-maximum suppression of candidate points, in their given
/// order: a point is kept exactly when no already-kept point lies within
/// Chebyshev distance `min_distance`.  The result is exactly the greedy
/// selection; every kept point is an input point, any two kept points are
/// more than `min_distance` apart, and every input point is within
/// `min_distance` of some kept point.
pub fn filter_points(
    points: &Vec<(usize, usize)>,
    min_distance: usize,
    size: usize,
) -> (r: Vec<(usize, usize)>)
    requires
        1 <= size,
        size * size <= usize::MAX,
        min_distance < size,
        forall|k: int| 0 <= k < points@.len()
            ==> (#[trigger] points@[k]).0 < size && points@[k].1 < size,
    ensures
        r@ == greedy_filter(points@, min_distance as int),
        forall|k: int| 0 <= k < r@.len() ==> point_in_list(#[trigger] r@[k], points@),
        forall|k1: int, k2: int|
            0 <= k1 < k2 < r@.len()
                ==> !chebyshev_close(#[trigger] r@[k1], #[trigger] r@[k2], min_distance as int),
        forall|m: int| 0 <= m < points@.len()
            ==> point_covered(#[trigger] points@[m], r@, min_distance as int),
{
    let d = min_distance;
    let mut visited: Grid<bool> = Grid::new(size, false);
    let mut r: Vec<(usize, usize)> = Vec::new();
    let mut m: usize = 0;
    proof {
        assert(points@.skip(0) =~= points@);
    }
    while m < points.len()
        invariant
            visited.wf(),
            visited.size == size,
            1 <= size,
            size * size <= usize::MAX,
            min_distance < size,
            d == min_distance,
            m <= points@.len(),
            forall|k: int| 0 <= k < points@.len()
                ==> (#[trigger] points@[k]).0 < size && points@[k].1 < size,
            forall|k: int| 0 <= k < r@.len() ==> point_in_list(#[trigger] r@[k], points@),
            forall|k: int| 0 <= k < r@.len()
                ==> (#[trigger] r@[k]).0 < size && r@[k].1 < size,
            forall|x: int, y: int|
                0 <= x < size && 0 <= y < size
                    ==> (#[trigger] visited.at(x, y)
                        <==> point_in_list((x as usize, y as usize), r@)),
            forall|k1: int, k2: int|
                0 <= k1 < k2 < r@.len()
                    ==> !chebyshev_close(#[trigger] r@[k1], #[trigger] r@[k2], d as int),
            forall|m2: int| 0 <= m2 < m ==> point_covered(#[trigger] points@[m2], r@, d as int),
            greedy_filter_rec(points@.skip(m as int), d as int, r@)
                == greedy_filter(points@, d as int),
        decreases points@.len() - m,
    {
        let ghost r0 = r@;
        let p = points[m];
        let x = p.0;
        let y = p.1;
        proof {
            assert(x + d <= usize::MAX && y + d <= usize::MAX) by (nonlinear_arith)
                requires
                    x < size,
                    y < size,
                    d < size,
                    1 <= size,
                    size * size <= usize::MAX,
            {}
        }
        let x_lo = if x > d { x - d } else { 0 };
        let x_hi = if x + d < size - 1 { x + d } else { size - 1 };
        let y_lo = if y > d { y - d } else { 0 };
        let y_hi = if y + d < size - 1 { y + d } else { size - 1 };
        let mut too_close = false;
        let mut a = x_lo;
        while a <= x_hi
            invariant
                visited.wf(),
                visited.size == size,
                1 <= size,
                d < size,
                x < size,
                y < size,
                x_lo <= a,
                x_lo == if x > d { x - d } else { 0 },
                x_hi == if x + d < size - 1 { x + d } else { size - 1 },
                y_lo == if y > d { y - d } else { 0 },
                y_hi == if y + d < size - 1 { y + d } else { size - 1 },
                x_hi < size,
                y_hi < size,
                too_close ==> exists|xx: int, yy: int|
                    0 <= xx < size && 0 <= yy < size && #[trigger] visited.at(xx, yy)
                        && chebyshev_close((x, y), (xx as usize, yy as usize), d as int),
                !too_close ==> forall|xx: int, yy: int|
                    x_lo <= xx < a && y_lo <= yy <= y_hi ==> !(#[trigger] visited.at(xx, yy)),
            decreases x_hi + 1 - a,
        {
            let mut b = y_lo;
            while b <= y_hi
                invariant
                    visited.wf(),
                    visited.size == size,
                    1 <= size,
                    d < size,
                    x < size,
                    y < size,
                    a < size,
                    y_lo <= b,
                    x_lo == if x > d { x - d } else { 0 },
                    x_hi == if x + d < size - 1 { x + d } else { size - 1 },
                    y_lo == if y > d { y - d } else { 0 },
                    y_hi == if y + d < size - 1 { y + d } else { size - 1 },
                    x_hi < size,
                    y_hi < size,
                    x_lo <= a <= x_hi,
                    too_close ==> exists|xx: int, yy: int|
                        0 <= xx < size && 0 <= yy < size && #[trigger] visited.at(xx, yy)
                            && chebyshev_close((x, y), (xx as usize, yy as usize), d as int),
                    !too_close ==> forall|xx: int, yy: int|
                        x_lo <= xx < a && y_lo <= yy <= y_hi ==> !(#[trigger] visited.at(xx, yy)),
                    !too_close ==> forall|yy: int|
                        y_lo <= yy < b ==> !(#[trigger] visited.at(a as int, yy)),
                decreases y_hi + 1 - b,
            {
                if visited.get(a, b) {
                    too_close = true;
                }
                b = b + 1;
            }
            a = a + 1;
        }
        let ghost v0 = visited;
        proof {
            if too_close {
                let (xx, yy) = choose|xx: int, yy: int|
                    0 <= xx < size && 0 <= yy < size && #[trigger] visited.at(xx, yy)
                        && chebyshev_close((x, y), (xx as usize, yy as usize), d as int);
                assert(point_in_list((xx as usize, yy as usize), r@));
                let k = choose|k: int|
                    0 <= k < r@.len() && #[trigger] r@[k] == (xx as usize, yy as usize);
                assert(chebyshev_close(p, r@[k], d as int));
                assert(point_covered(p, r@, d as int));
            } else {
                if point_covered(p, r@, d as int) {
                    let k = choose|k: int|
                        0 <= k < r@.len() && chebyshev_close(p, #[trigger] r@[k], d as int);
                    let q = r@[k];
                    assert(point_in_list(q, r@));
                    assert(visited.at(q.0 as int, q.1 as int));
                    assert(x_lo <= q.0 <= x_hi && y_lo <= q.1 <= y_hi);
                    assert(false);
                }
            }
            assert(too_close == point_covered(p, r@, d as int));
            assert(points@.skip(m as int).len() == points@.len() - m);
            assert(points@.skip(m as int)[0] == p);
            assert(points@.skip(m as int).skip(1) =~= points@.skip(m as int + 1));
        }
        if !too_close {
            r.push((x, y));
            visited.set(x, y, true);
            proof {
                assert(r@ == r0.push((x, y)));
                assert forall|k: int| 0 <= k < r@.len()
                    implies point_in_list(#[trigger] r@[k], points@) by {
                    if k < r0.len() {
                        assert(r@[k] == r0[k]);
                    } else {
                        assert(r@[k] == (x, y));
                        assert(points@[m as int] == (x, y));
                    }
                }
                assert forall|x2: int, y2: int|
                    0 <= x2 < size && 0 <= y2 < size
                        implies (#[trigger] visited.at(x2, y2)
                            <==> point_in_list((x2 as usize, y2 as usize), r@)) by {
                    lemma_in_list_push((x2 as usize, y2 as usize), r0, (x, y));
                    if x2 == x as int && y2 == y as int {
                        assert(visited.at(x2, y2));
                        assert(point_in_list((x2 as usize, y2 as usize), r@));
                    } else {
                        assert(visited.at(x2, y2) == v0.at(x2, y2));
                    }
                }
                assert forall|k1: int, k2: int|
                    0 <= k1 < k2 < r@.len()
                        implies !chebyshev_close(#[trigger] r@[k1], #[trigger] r@[k2], d as int) by {
                    if k2 == r0.len() as int {
                        let q = r@[k1];
                        assert(r0[k1] == q);
                        if chebyshev_close(q, (x, y), d as int) {
                            assert(point_in_list((q.0, q.1), r0));
                            assert(v0.at(q.0 as int, q.1 as int));
                            assert(x_lo <= q.0 <= x_hi && y_lo <= q.1 <= y_hi);
                            assert(false);
                        }
                        assert(!chebyshev_close(r@[k1], r@[k2], d as int));
                    }
                }
                assert forall|m2: int| 0 <= m2 < m + 1
                    implies point_covered(#[trigger] points@[m2], r@, d as int) by {
                    if m2 < m {
                        lemma_covered_push(points@[m2], r0, (x, y), d as int);
                    } else {
                        assert(points@[m2] == (x, y));
                        assert(r@[r0.len() as int] == (x, y));
                        assert(chebyshev_close(points@[m2], r@[r0.len() as int], d as int));
                    }
                }
            }
        } else {
            proof {
                assert forall|m2: int| 0 <= m2 < m + 1
                    implies point_covered(#[trigger] points@[m2], r@, d as int) by {
                    if m2 == m as int {
                        let (xx, yy) = choose|xx: int, yy: int|
                            0 <= xx < size && 0 <= yy < size && #[trigger] visited.at(xx, yy)
                                && chebyshev_close((x, y), (xx as usize, yy as usize), d as int);
                        assert(point_in_list((xx as usize, yy as usize), r@));
                        let k = choose|k: int|
                            0 <= k < r@.len() && #[trigger] r@[k] == (xx as usize, yy as usize);
                        assert(points@[m2] == (x, y));
                        assert(chebyshev_close(points@[m2], r@[k], d as int));
                    }
                }
            }
        }
        proof {
            if too_close {
                assert(greedy_filter_rec(points@.skip(m as int), d as int, r0)
                    == greedy_filter_rec(points@.skip(m as int + 1), d as int, r@));
            } else {
                assert(r@ == r0.push(p));
                assert(greedy_filter_rec(points@.skip(m as int), d as int, r0)
                    == greedy_filter_rec(points@.skip(m as int + 1), d as int, r@));
            }
        }
        m = m + 1;
    }
    proof {
        assert(points@.skip(points@.len() as int).len() == 0);
        assert(greedy_filter_rec(points@.skip(points@.len() as int), d as int, r@) == r@);
    }
    r
}

} // verus!

verus! {

/// A cell where a river may end: open ocean, or ground below sea level.
pub open spec fn is_sink(land: Grid<LandCode>, height: Grid<i64>, i: int, j: int) -> bool {
    land.at(i, j) == LandCode::Ocean || height.at(i, j) < SEA_LEVEL
}

/// How many entries of the sequence are true.
pub open spec fn count_trues(s: Seq<bool>) -> int
    decreases s.len(),
{
    if s.len() == 0 {
        0
    } else {
        count_trues(s.drop_last()) + if s.last() { 1int } else { 0 }
    }
}

/// The count of true entries lies between zero and the length.
proof fn lemma_count_trues_le_len(s: Seq<bool>)
    ensures
        0 <= count_trues(s) <= s.len(),
    decreases s.len(),
{
    if s.len() > 0 {
        lemma_count_trues_le_len(s.drop_last());
    }
}

/// Setting a false entry to true raises the count by exactly one.
proof fn lemma_count_trues_update(s: Seq<bool>, k: int)
    requires
        0 <= k < s.len(),
        !s[k],
    ensures
        count_trues(s.update(k, true)) == count_trues(s) + 1,
    decreases s.len(),
{
    let u = s.update(k, true);
    if k == s.len() - 1 {
        assert(u.drop_last() =~= s.drop_last());
    } else {
        assert(u.drop_last() =~= s.drop_last().update(k, true));
        lemma_count_trues_update(s.drop_last(), k);
    }
}

/// The in-bounds four-neighbours of `c` are all marked.
pub open spec fn nbrs_visited(visited: Seq<bool>, c: (usize, usize), size: int) -> bool {
    &&& (c.0 > 0 ==> visited[(c.0 - 1) * size + c.1])
    &&& (c.0 + 1 < size ==> visited[(c.0 + 1) * size + c.1])
    &&& (c.1 > 0 ==> visited[c.0 * size + (c.1 - 1)])
    &&& (c.1 + 1 < size ==> visited[c.0 * size + (c.1 + 1)])
}

/// If the cell `(x, y)` is marked, so are all its in-bounds neighbours.
pub open spec fn closed_at(visited: Seq<bool>, size: int, x: int, y: int) -> bool {
    visited[x * size + y] ==> nbrs_visited(visited, (x as usize, y as usize), size)
}

/// The absolute difference of two integers.
pub open spec fn dist1(a: int, b: int) -> int {
    if a >= b {
        a - b
    } else {
        b - a
    }
}

/// A marked set that contains `start` and is closed under the
/// four-neighbourhood covers the whole grid: walking one step along either
/// axis towards any cell stays inside the set.
proof fn lemma_flood_reaches(
    visited: Seq<bool>,
    size: int,
    start: (usize, usize),
    i: int,
    j: int,
)
    requires
        1 <= size <= usize::MAX,
        visited.len() == size * size,
        start.0 < size,
        start.1 < size,
        visited[start.0 * size + start.1],
        forall|x: int, y: int|
            0 <= x < size && 0 <= y < size ==> #[trigger] closed_at(visited, size, x, y),
        0 <= i < size,
        0 <= j < size,
    ensures
        visited[i * size + j],
    decreases dist1(i, start.0 as int) + dist1(j, start.1 as int),
{
    if i == start.0 as int && j == start.1 as int {
    } else if i < start.0 as int {
        lemma_flood_reaches(visited, size, start, i + 1, j);
        assert(closed_at(visited, size, i + 1, j));
    } else if i > start.0 as int {
        lemma_flood_reaches(visited, size, start, i - 1, j);
        assert(closed_at(visited, size, i - 1, j));
    } else if j < start.1 as int {
        lemma_flood_reaches(visited, size, start, i, j + 1);
        assert(closed_at(visited, size, i, j + 1));
    } else {
        lemma_flood_reaches(visited, size, start, i, j - 1);
        assert(closed_at(visited, size, i, j - 1));
    }
}

/// A walk over the four-neighbourhood: it starts at `start` and every step
/// moves to an in-bounds four-neighbour.
pub open spec fn hop_path_ok(path: Seq<(usize, usize)>, size: int, start: (usize, usize)) -> bool {
    &&& path.len() >= 1
    &&& path[0] == start
    &&& forall|k: int| 0 <= k < path.len() ==> (#[trigger] path[k]).0 < size && path[k].1 < size
    &&& forall|k: int| 0 <= k < path.len() - 1 ==> adjacent4(#[trigger] path[k], path[k + 1])
}

/// Some walk from `start` ends at `c`, and no walk from `start` reaches any
/// sink in fewer steps: `c` is a nearest sink in hop terms.
pub open spec fn reaches_nearest_sink(
    land: Grid<LandCode>,
    height: Grid<i64>,
    start: (usize, usize),
    c: (usize, usize),
) -> bool {
    exists|pc: Seq<(usize, usize)>|
        #[trigger] hop_path_ok(pc, height.size as int, start) && pc.last() == c
            && forall|q: Seq<(usize, usize)>|
                #[trigger] hop_path_ok(q, height.size as int, start)
                    && is_sink(land, height, q.last().0 as int, q.last().1 as int)
                    ==> q.len() >= pc.len()
}

/// The search invariant of the sink search: every marked cell other than
/// the start, which sits at hop distance zero, has a marked predecessor
/// that is adjacent and one step closer to the start.
pub open spec fn hop_inv(
    visited: Seq<bool>,
    pred: Grid<(usize, usize)>,
    dist: Grid<usize>,
    start: (usize, usize),
    size: int,
    vc: int,
) -> bool {
    forall|x: int, y: int| #![trigger pred.at(x, y)]
        0 <= x < size && 0 <= y < size && visited[x * size + y]
            ==> dist.at(x, y) < vc
                && if x == start.0 && y == start.1 {
                    dist.at(x, y) == 0
                } else {
                    let p = pred.at(x, y);
                    &&& p.0 < size
                    &&& p.1 < size
                    &&& visited[p.0 * size + p.1]
                    &&& adjacent4((x as usize, y as usize), p)
                    &&& dist.at(x, y) == dist.at(p.0 as int, p.1 as int) + 1
                }
}

/// If the cell `(x, y)` is marked strictly below the frontier distance
/// `dd`, its whole neighbourhood is marked within one extra hop.
pub open spec fn frontier_closed_at(
    visited: Seq<bool>,
    dist: Grid<usize>,
    size: int,
    dd: int,
    x: int,
    y: int,
) -> bool {
    visited[x * size + y] && dist.at(x, y) < dd
        ==> nbrs_expanded(visited, dist, (x as usize, y as usize), size)
}

/// The in-bounds four-neighbours of `c` are all marked, each at most one
/// hop further from the start than `c` itself.
pub open spec fn nbrs_expanded(
    visited: Seq<bool>,
    dist: Grid<usize>,
    c: (usize, usize),
    size: int,
) -> bool {
    &&& nbrs_visited(visited, c, size)
    &&& (c.0 > 0 ==> dist.at(c.0 - 1, c.1 as int) <= dist.at(c.0 as int, c.1 as int) + 1)
    &&& (c.0 + 1 < size ==> dist.at(c.0 + 1, c.1 as int) <= dist.at(c.0 as int, c.1 as int) + 1)
    &&& (c.1 > 0 ==> dist.at(c.0 as int, c.1 - 1) <= dist.at(c.0 as int, c.1 as int) + 1)
    &&& (c.1 + 1 < size ==> dist.at(c.0 as int, c.1 + 1) <= dist.at(c.0 as int, c.1 as int) + 1)
}

/// Mark, record and enqueue the neighbour `(ni, nj)` of `from`, unless it
/// is already marked; the hop invariant is kept.
#[verifier::rlimit(100)]
fn hop_step(
    visited: &mut Vec<bool>,
    visited_count: &mut usize,
    queue: &mut Vec<(usize, usize)>,
    pred: &mut Grid<(usize, usize)>,
    dist: &mut Grid<usize>,
    from: (usize, usize),
    ni: usize,
    nj: usize,
    size: usize,
    start: (usize, usize),
)
    requires
        1 <= size,
        size * size <= usize::MAX,
        ni < size,
        nj < size,
        from.0 < size,
        from.1 < size,
        start.0 < size,
        start.1 < size,
        old(visited)@.len() == size * size,
        old(visited)@[from.0 * size + from.1],
        old(visited)@[start.0 * size + start.1],
        *old(visited_count) == count_trues(old(visited)@),
        old(pred).wf(),
        old(pred).size == size,
        old(dist).wf(),
        old(dist).size == size,
        adjacent4((ni, nj), from),
        forall|qi: int| 0 <= qi < old(queue)@.len()
            ==> (#[trigger] old(queue)@[qi]).0 < size && old(queue)@[qi].1 < size,
        forall|qi: int| 0 <= qi < old(queue)@.len()
            ==> old(visited)@[(#[trigger] old(queue)@[qi]).0 * size + old(queue)@[qi].1],
        queue_distinct(old(queue)@),
        queue_covers(old(visited)@, old(queue)@, size as int),
        hop_inv(old(visited)@, *old(pred), *old(dist), start, size as int,
            *old(visited_count) as int),
    ensures
        final(visited)@.len() == size * size,
        *final(visited_count) == count_trues(final(visited)@),
        final(pred).wf(),
        final(pred).size == size,
        final(dist).wf(),
        final(dist).size == size,
        forall|qi: int| 0 <= qi < final(queue)@.len()
            ==> (#[trigger] final(queue)@[qi]).0 < size && final(queue)@[qi].1 < size,
        forall|qi: int| 0 <= qi < final(queue)@.len()
            ==> final(visited)@[(#[trigger] final(queue)@[qi]).0 * size + final(queue)@[qi].1],
        forall|c: int| 0 <= c < size * size && old(visited)@[c] ==> final(visited)@[c],
        forall|qi: int| 0 <= qi < old(queue)@.len()
            ==> #[trigger] final(queue)@[qi] == old(queue)@[qi],
        final(queue)@.len() >= old(queue)@.len(),
        forall|x: int, y: int|
            0 <= x < size && 0 <= y < size && old(visited)@[x * size + y]
                ==> #[trigger] final(dist).at(x, y) == old(dist).at(x, y),
        final(visited)@[ni * size + nj],
        (final(visited)@ == old(visited)@ && final(queue)@ == old(queue)@
            && *final(visited_count) == *old(visited_count)
            && *final(pred) == *old(pred) && *final(dist) == *old(dist))
            || (*final(visited_count) == *old(visited_count) + 1
                && final(queue)@.len() == old(queue)@.len() + 1
                && !old(visited)@[ni * size + nj]
                && final(queue)@.last() == (ni, nj)
                && final(dist).at(ni as int, nj as int)
                    == old(dist).at(from.0 as int, from.1 as int) + 1),
        queue_distinct(final(queue)@),
        queue_covers(final(visited)@, final(queue)@, size as int),
        hop_inv(final(visited)@, *final(pred), *final(dist), start, size as int,
            *final(visited_count) as int),
{
    proof {
        lemma_row_major_index(size as int, ni as int, nj as int);
        lemma_row_major_index(size as int, from.0 as int, from.1 as int);
        lemma_row_major_index(size as int, start.0 as int, start.1 as int);
    }
    let idx = ni * size + nj;
    if !visited[idx] {
        proof {
            lemma_count_trues_update(visited@, idx as int);
            lemma_count_trues_le_len(visited@.update(idx as int, true));
        }
        let ghost v0 = visited@;
        let ghost p0 = *pred;
        let ghost d0 = *dist;
        let ghost vc0 = *visited_count as int;
        let df = dist.get(from.0, from.1);
        proof {
            // Naming the predecessor record of `from` lets the search
            // invariant instantiate at that cell.
            let ghost pf = p0.at(from.0 as int, from.1 as int);
            assert(d0.at(from.0 as int, from.1 as int) < vc0);
        }
        visited.set(idx, true);
        *visited_count = *visited_count + 1;
        pred.set(ni, nj, from);
        dist.set(ni, nj, df + 1);
        let ghost q0 = queue@;
        queue.push((ni, nj));
        proof {
            assert(queue@.last() == (ni, nj));
            assert forall|qi: int| 0 <= qi < queue@.len()
                implies visited@[(#[trigger] queue@[qi]).0 * size + queue@[qi].1] by {
                if qi < queue@.len() - 1 {
                    lemma_row_major_index(size as int, queue@[qi].0 as int, queue@[qi].1 as int);
                }
            }
            assert forall|q1: int, q2: int|
                0 <= q1 < q2 < queue@.len()
                    implies #[trigger] queue@[q1] != #[trigger] queue@[q2] by {
                if q2 == queue@.len() - 1 {
                    lemma_row_major_index(size as int, q0[q1].0 as int, q0[q1].1 as int);
                    assert(v0[q0[q1].0 * size + q0[q1].1]);
                    assert(!v0[ni * size + nj]);
                    assert(queue@[q1] == q0[q1]);
                }
            }
            assert forall|x2: int, y2: int|
                0 <= x2 < size && 0 <= y2 < size && #[trigger] visited@[x2 * size + y2]
                    implies point_in_list((x2 as usize, y2 as usize), queue@) by {
                lemma_row_major_index(size as int, x2, y2);
                lemma_in_list_push((x2 as usize, y2 as usize), q0, (ni, nj));
                if x2 == ni as int && y2 == nj as int {
                    assert(point_in_list((ni, nj), queue@));
                } else {
                    lemma_row_major_distinct(size as int, x2, y2, ni as int, nj as int);
                    assert(v0[x2 * size + y2]);
                }
            }
            assert(!(ni == start.0 && nj == start.1));
            assert forall|x: int, y: int| #![trigger visited@[x * size + y]]
                0 <= x < size && 0 <= y < size && visited@[x * size + y]
                    implies dist.at(x, y) < vc0 + 1
                        && if x == start.0 && y == start.1 {
                            dist.at(x, y) == 0
                        } else {
                            let p = pred.at(x, y);
                            &&& p.0 < size
                            &&& p.1 < size
                            &&& visited@[p.0 * size + p.1]
                            &&& adjacent4((x as usize, y as usize), p)
                            &&& dist.at(x, y) == dist.at(p.0 as int, p.1 as int) + 1
                        } by {
                lemma_row_major_index(size as int, x, y);
                if x == ni as int && y == nj as int {
                    assert(pred.at(x, y) == from);
                    assert(visited@[from.0 * size + from.1]);
                    assert(dist.at(from.0 as int, from.1 as int) == df);
                    assert(dist.at(x, y) == df + 1);
                } else {
                    lemma_row_major_distinct(size as int, x, y, ni as int, nj as int);
                    assert(v0[x * size + y]);
                    assert(dist.at(x, y) == d0.at(x, y));
                    assert(pred.at(x, y) == p0.at(x, y));
                    if !(x == start.0 && y == start.1) {
                        let p = p0.at(x, y);
                        lemma_row_major_index(size as int, p.0 as int, p.1 as int);
                        assert(v0[p.0 * size + p.1]);
                        assert(visited@[p.0 * size + p.1]);
                        if !(p.0 == ni && p.1 == nj) {
                            lemma_row_major_distinct(size as int, p.0 as int, p.1 as int,
                                ni as int, nj as int);
                            assert(dist.at(p.0 as int, p.1 as int)
                                == d0.at(p.0 as int, p.1 as int));
                        } else {
                            assert(!v0[ni * size + nj]);
                            assert(false);
                        }
                    }
                }
            }
            assert(hop_inv(visited@, *pred, *dist, start, size as int, vc0 + 1));
        }
    }
}

/// After one expansion step, every previously processed queue entry is
/// still a non-sink whose whole neighbourhood is marked within one extra
/// hop.
#[verifier::rlimit(100)]
#[verifier::spinoff_prover]
proof fn lemma_processed_preserved(
    land: Grid<LandCode>,
    height: Grid<i64>,
    v_old: Seq<bool>,
    v_new: Seq<bool>,
    q_old: Seq<(usize, usize)>,
    q_new: Seq<(usize, usize)>,
    d_old: Grid<usize>,
    d_new: Grid<usize>,
    size: int,
    h: int,
)
    requires
        1 <= size <= usize::MAX,
        height.size == size,
        v_old.len() == size * size,
        v_new.len() == size * size,
        d_old.size == size,
        d_new.size == size,
        0 <= h <= q_old.len(),
        q_new.len() >= q_old.len(),
        forall|qi: int| 0 <= qi < q_old.len() ==> #[trigger] q_new[qi] == q_old[qi],
        forall|qi: int| 0 <= qi < q_old.len()
            ==> (#[trigger] q_old[qi]).0 < size && q_old[qi].1 < size,
        forall|qi: int| 0 <= qi < q_old.len()
            ==> v_old[(#[trigger] q_old[qi]).0 * size + q_old[qi].1],
        forall|c: int| 0 <= c < size * size && v_old[c] ==> v_new[c],
        forall|x: int, y: int|
            0 <= x < size && 0 <= y < size && v_old[x * size + y]
                ==> #[trigger] d_new.at(x, y) == d_old.at(x, y),
        forall|qi: int| 0 <= qi < h
            ==> !is_sink(land, height, (#[trigger] q_old[qi]).0 as int, q_old[qi].1 as int)
                && nbrs_expanded(v_old, d_old, q_old[qi], size),
    ensures
        forall|qi: int| 0 <= qi < h
            ==> !is_sink(land, height, (#[trigger] q_new[qi]).0 as int, q_new[qi].1 as int)
                && nbrs_expanded(v_new, d_new, q_new[qi], size),
{
    assert forall|qi: int| 0 <= qi < h
        implies !is_sink(land, height, (#[trigger] q_new[qi]).0 as int, q_new[qi].1 as int)
            && nbrs_expanded(v_new, d_new, q_new[qi], size) by {
        let c = q_old[qi];
        assert(q_new[qi] == c);
        assert(nbrs_expanded(v_old, d_old, c, size));
        lemma_row_major_index(size, c.0 as int, c.1 as int);
        if c.0 > 0 {
            lemma_row_major_index(size, c.0 as int - 1, c.1 as int);
            assert(v_new[(c.0 - 1) * size + c.1]);
            assert(d_new.at(c.0 - 1, c.1 as int) == d_old.at(c.0 - 1, c.1 as int));
        }
        if c.0 + 1 < size {
            lemma_row_major_index(size, c.0 as int + 1, c.1 as int);
            assert(v_new[(c.0 + 1) * size + c.1]);
            assert(d_new.at(c.0 + 1, c.1 as int) == d_old.at(c.0 + 1, c.1 as int));
        }
        if c.1 > 0 {
            lemma_row_major_index(size, c.0 as int, c.1 as int - 1);
            assert(v_new[c.0 * size + (c.1 - 1)]);
            assert(d_new.at(c.0 as int, c.1 - 1) == d_old.at(c.0 as int, c.1 - 1));
        }
        if c.1 + 1 < size {
            lemma_row_major_index(size, c.0 as int, c.1 as int + 1);
            assert(v_new[c.0 * size + (c.1 + 1)]);
            assert(d_new.at(c.0 as int, c.1 + 1) == d_old.at(c.0 as int, c.1 + 1));
        }
        assert(v_old[c.0 * size + c.1]);
        assert(d_new.at(c.0 as int, c.1 as int) == d_old.at(c.0 as int, c.1 as int));
    }
}

/// Walk the hop predecessors back from `c` to the start, yielding a walk
/// witness whose length is one more than `c`'s recorded hop distance.
proof fn build_hop_path(
    visited: Seq<bool>,
    pred: Grid<(usize, usize)>,
    dist: Grid<usize>,
    start: (usize, usize),
    size: int,
    vc: int,
    c: (usize, usize),
) -> (pc: Seq<(usize, usize)>)
    requires
        1 <= size <= usize::MAX,
        pred.size == size,
        dist.size == size,
        visited.len() == size * size,
        start.0 < size,
        start.1 < size,
        hop_inv(visited, pred, dist, start, size, vc),
        c.0 < size,
        c.1 < size,
        visited[c.0 * size + c.1],
    ensures
        hop_path_ok(pc, size, start),
        pc.last() == c,
        pc.len() == dist.at(c.0 as int, c.1 as int) + 1,
    decreases dist.at(c.0 as int, c.1 as int),
{
    let _t = pred.at(c.0 as int, c.1 as int);
    if c.0 == start.0 && c.1 == start.1 {
        assert(c == start);
        let pc = seq![start];
        assert(pc[0] == start);
        assert(pc.last() == c);
        pc
    } else {
        let p = pred.at(c.0 as int, c.1 as int);
        lemma_row_major_index(size, p.0 as int, p.1 as int);
        let rest = build_hop_path(visited, pred, dist, start, size, vc, p);
        let pc = rest.push(c);
        assert(pc[0] == rest[0]);
        assert(pc.last() == c);
        assert forall|k: int| 0 <= k < pc.len()
            implies (#[trigger] pc[k]).0 < size && pc[k].1 < size by {
            if k < rest.len() {
                assert(pc[k] == rest[k]);
            } else {
                assert(pc[k] == c);
            }
        }
        assert forall|k: int| 0 <= k < pc.len() - 1
            implies adjacent4(#[trigger] pc[k], pc[k + 1]) by {
            if k < rest.len() - 1 {
                assert(pc[k] == rest[k]);
                assert(pc[k + 1] == rest[k + 1]);
            } else {
                assert(pc[k] == rest.last());
                assert(rest.last() == p);
                assert(pc[k + 1] == c);
                assert(adjacent4(c, p));
            }
        }
        pc
    }
}

/// Along any walk from the start that stays strictly shorter than the
/// frontier distance `dd`, every cell the walk passes is marked at a hop
/// distance no more than its position in the walk: marked cells below the
/// frontier have their whole neighbourhood marked within one extra hop.
#[verifier::rlimit(100)]
#[verifier::spinoff_prover]
proof fn lemma_hop_prefix(
    visited: Seq<bool>,
    dist: Grid<usize>,
    size: int,
    start: (usize, usize),
    dd: int,
    q: Seq<(usize, usize)>,
    k: int,
)
    requires
        1 <= size <= usize::MAX,
        dist.size == size,
        visited.len() == size * size,
        start.0 < size,
        start.1 < size,
        visited[start.0 * size + start.1],
        dist.at(start.0 as int, start.1 as int) == 0,
        forall|x: int, y: int|
            0 <= x < size && 0 <= y < size
                ==> #[trigger] frontier_closed_at(visited, dist, size, dd, x, y),
        hop_path_ok(q, size, start),
        0 <= k < q.len(),
        k <= dd - 1,
    ensures
        visited[q[k].0 * size + q[k].1],
        dist.at(q[k].0 as int, q[k].1 as int) <= k,
    decreases k,
{
    lemma_row_major_index(size, q[k].0 as int, q[k].1 as int);
    if k == 0 {
        assert(q[0] == start);
        lemma_row_major_index(size, start.0 as int, start.1 as int);
    } else {
        lemma_hop_prefix(visited, dist, size, start, dd, q, k - 1);
        let c = q[k - 1];
        let nx = q[k];
        lemma_row_major_index(size, c.0 as int, c.1 as int);
        assert(dist.at(c.0 as int, c.1 as int) < dd);
        assert(frontier_closed_at(visited, dist, size, dd, c.0 as int, c.1 as int));
        assert(nbrs_expanded(visited, dist, (c.0, c.1), size));
        assert(adjacent4(c, nx));
        if nx.0 + 1 == c.0 && nx.1 == c.1 {
            assert(visited[(c.0 - 1) * size + c.1]);
            assert(dist.at(c.0 - 1, c.1 as int) <= dist.at(c.0 as int, c.1 as int) + 1);
        } else if nx.0 == c.0 + 1 && nx.1 == c.1 {
            assert(visited[(c.0 + 1) * size + c.1]);
            assert(dist.at(c.0 + 1, c.1 as int) <= dist.at(c.0 as int, c.1 as int) + 1);
        } else if nx.0 == c.0 && nx.1 + 1 == c.1 {
            assert(visited[c.0 * size + (c.1 - 1)]);
            assert(dist.at(c.0 as int, c.1 - 1) <= dist.at(c.0 as int, c.1 as int) + 1);
        } else {
            assert(nx.0 == c.0 && nx.1 == c.1 + 1);
            assert(visited[c.0 * size + (c.1 + 1)]);
            assert(dist.at(c.0 as int, c.1 + 1) <= dist.at(c.0 as int, c.1 as int) + 1);
        }
    }
}

/// Mark, record and enqueue every unvisited in-bounds four-neighbour of
/// `from`: afterwards the cell's whole neighbourhood is marked within one
/// extra hop.
#[verifier::rlimit(100)]
#[verifier::spinoff_prover]
fn expand_neighbors(
    visited: &mut Vec<bool>,
    visited_count: &mut usize,
    queue: &mut Vec<(usize, usize)>,
    pred: &mut Grid<(usize, usize)>,
    dist: &mut Grid<usize>,
    from: (usize, usize),
    size: usize,
    start: (usize, usize),
)
    requires
        1 <= size,
        size * size <= usize::MAX,
        from.0 < size,
        from.1 < size,
        start.0 < size,
        start.1 < size,
        old(visited)@.len() == size * size,
        old(visited)@[from.0 * size + from.1],
        old(visited)@[start.0 * size + start.1],
        *old(visited_count) == count_trues(old(visited)@),
        old(pred).wf(),
        old(pred).size == size,
        old(dist).wf(),
        old(dist).size == size,
        forall|qi: int| 0 <= qi < old(queue)@.len()
            ==> (#[trigger] old(queue)@[qi]).0 < size && old(queue)@[qi].1 < size,
        forall|qi: int| 0 <= qi < old(queue)@.len()
            ==> old(visited)@[(#[trigger] old(queue)@[qi]).0 * size + old(queue)@[qi].1],
        queue_distinct(old(queue)@),
        queue_covers(old(visited)@, old(queue)@, size as int),
        hop_inv(old(visited)@, *old(pred), *old(dist), start, size as int,
            *old(visited_count) as int),
        forall|x: int, y: int|
            0 <= x < size && 0 <= y < size && old(visited)@[x * size + y]
                ==> #[trigger] old(dist).at(x, y)
                    <= old(dist).at(from.0 as int, from.1 as int) + 1,
    ensures
        final(visited)@.len() == size * size,
        *final(visited_count) == count_trues(final(visited)@),
        final(pred).wf(),
        final(pred).size == size,
        final(dist).wf(),
        final(dist).size == size,
        forall|qi: int| 0 <= qi < final(queue)@.len()
            ==> (#[trigger] final(queue)@[qi]).0 < size && final(queue)@[qi].1 < size,
        forall|qi: int| 0 <= qi < final(queue)@.len()
            ==> final(visited)@[(#[trigger] final(queue)@[qi]).0 * size + final(queue)@[qi].1],
        queue_distinct(final(queue)@),
        queue_covers(final(visited)@, final(queue)@, size as int),
        forall|c: int| 0 <= c < size * size && old(visited)@[c] ==> final(visited)@[c],
        forall|qi: int| 0 <= qi < old(queue)@.len()
            ==> #[trigger] final(queue)@[qi] == old(queue)@[qi],
        final(queue)@.len() >= old(queue)@.len(),
        forall|x: int, y: int|
            0 <= x < size && 0 <= y < size && old(visited)@[x * size + y]
                ==> #[trigger] final(dist).at(x, y) == old(dist).at(x, y),
        forall|qi: int| old(queue)@.len() <= qi < final(queue)@.len()
            ==> final(dist).at((#[trigger] final(queue)@[qi]).0 as int,
                    final(queue)@[qi].1 as int)
                == old(dist).at(from.0 as int, from.1 as int) + 1,
        nbrs_expanded(final(visited)@, *final(dist), from, size as int),
        hop_inv(final(visited)@, *final(pred), *final(dist), start, size as int,
            *final(visited_count) as int),
        5 * (size * size - *final(visited_count)) + final(queue)@.len()
            <= 5 * (size * size - *old(visited_count)) + old(queue)@.len(),
{
    proof {
        lemma_row_major_index(size as int, from.0 as int, from.1 as int);
        lemma_row_major_index(size as int, start.0 as int, start.1 as int);
        lemma_count_trues_le_len(visited@);
    }
    let ghost d_from = dist.at(from.0 as int, from.1 as int);
    let ghost l0 = queue@.len() as int;
    let ci = from.0;
    let cj = from.1;
    if ci > 0 {
        proof {
            lemma_row_major_index(size as int, ci as int - 1, cj as int);
        }
        hop_step(visited, visited_count, queue, pred, dist, from, ci - 1, cj, size, start);
    }
    if ci + 1 < size {
        proof {
            lemma_row_major_index(size as int, ci as int + 1, cj as int);
        }
        hop_step(visited, visited_count, queue, pred, dist, from, ci + 1, cj, size, start);
    }
    if cj > 0 {
        proof {
            lemma_row_major_index(size as int, ci as int, cj as int - 1);
        }
        hop_step(visited, visited_count, queue, pred, dist, from, ci, cj - 1, size, start);
    }
    if cj + 1 < size {
        proof {
            lemma_row_major_index(size as int, ci as int, cj as int + 1);
        }
        hop_step(visited, visited_count, queue, pred, dist, from, ci, cj + 1, size, start);
    }
    proof {
        lemma_count_trues_le_len(visited@);
        lemma_row_major_index(size as int, from.0 as int, from.1 as int);
        if from.0 > 0 {
            lemma_row_major_index(size as int, from.0 as int - 1, from.1 as int);
        }
        if from.0 + 1 < size {
            lemma_row_major_index(size as int, from.0 as int + 1, from.1 as int);
        }
        if from.1 > 0 {
            lemma_row_major_index(size as int, from.0 as int, from.1 as int - 1);
        }
        if from.1 + 1 < size {
            lemma_row_major_index(size as int, from.0 as int, from.1 as int + 1);
        }
        assert forall|x: int, y: int|
            0 <= x < size && 0 <= y < size && old(visited)@[x * size + y]
                implies #[trigger] dist.at(x, y) == old(dist).at(x, y) by {
            lemma_row_major_index(size as int, x, y);
        }
        assert(dist.at(from.0 as int, from.1 as int) == d_from);
        assert(nbrs_expanded(visited@, *dist, from, size as int));
        assert forall|qi: int| l0 <= qi < queue@.len()
            implies dist.at((#[trigger] queue@[qi]).0 as int, queue@[qi].1 as int)
                == d_from + 1 by {
            lemma_row_major_index(size as int, queue@[qi].0 as int, queue@[qi].1 as int);
        }
    }
}

/// Breadth-first search over the four-neighbourhood from `start` for the
/// nearest river sink, over borrowed scratch boards; the mark board is
/// clear on entry and is left clear again.  A returned cell is in bounds,
/// is a sink, and no sink is reachable from `start` in fewer hops; a
/// failed search means the grid holds no sink at all.
#[verifier::rlimit(100)]
#[verifier::spinoff_prover]
fn bfs_sink(
    start: (usize, usize),
    height_map: &Grid<i64>,
    land_map: &Grid<LandCode>,
    visited: &mut Vec<bool>,
    pred: &mut Grid<(usize, usize)>,
    dist: &mut Grid<usize>,
) -> (r: Option<(usize, usize)>)
    requires
        height_map.wf(),
        land_map.wf(),
        land_map.size == height_map.size,
        1 <= height_map.size,
        start.0 < height_map.size,
        start.1 < height_map.size,
        old(visited)@.len() == height_map.size * height_map.size,
        marks_clear(old(visited)@),
        old(pred).wf(),
        old(pred).size == height_map.size,
        old(dist).wf(),
        old(dist).size == height_map.size,
    ensures
        final(visited)@.len() == old(visited)@.len(),
        marks_clear(final(visited)@),
        final(pred).wf(),
        final(pred).size == height_map.size,
        final(dist).wf(),
        final(dist).size == height_map.size,
        r is Some ==> (r->0).0 < height_map.size && (r->0).1 < height_map.size
            && is_sink(*land_map, *height_map, (r->0).0 as int, (r->0).1 as int)
            && reaches_nearest_sink(*land_map, *height_map, start, r->0),
        r is None ==> forall|i: int, j: int|
            0 <= i < height_map.size && 0 <= j < height_map.size
                ==> !is_sink(*land_map, *height_map, i, j),
{
    let size = height_map.side();
    let n = size * size;
    proof {
        lemma_count_all_false(visited@);
        lemma_row_major_index(size as int, start.0 as int, start.1 as int);
    }
    let mut visited_count: usize = 0;
    let mut queue: Vec<(usize, usize)> = Vec::new();
    let mut head: usize = 0;
    let sidx = start.0 * size + start.1;
    proof {
        lemma_count_trues_update(visited@, sidx as int);
    }
    let ghost v_init = visited@;
    visited.set(sidx, true);
    visited_count = 1;
    dist.set(start.0, start.1, 0);
    queue.push(start);
    proof {
        assert(queue@[0] == start);
        assert forall|x: int, y: int|
            0 <= x < size && 0 <= y < size && #[trigger] visited@[x * size + y]
                implies dist.at(x, y) < 1 && x == start.0 && y == start.1 by {
            lemma_row_major_index(size as int, x, y);
            if !(x == start.0 as int && y == start.1 as int) {
                lemma_row_major_distinct(size as int, x, y, start.0 as int, start.1 as int);
                assert(!v_init[x * size + y]);
            }
        }
        assert(hop_inv(visited@, *pred, *dist, start, size as int, 1int));
        assert forall|x: int, y: int|
            0 <= x < size && 0 <= y < size && #[trigger] visited@[x * size + y]
                implies point_in_list((x as usize, y as usize), queue@) by {
            assert(x == start.0 && y == start.1);
            assert(queue@[0] == (x as usize, y as usize));
        }
    }
    while head < queue.len()
        invariant
            height_map.wf(),
            land_map.wf(),
            land_map.size == size,
            size == height_map.size,
            1 <= size,
            n == size * size,
            size * size <= usize::MAX,
            old(visited)@.len() == n,
            start.0 < size,
            start.1 < size,
            visited@.len() == n,
            visited_count == count_trues(visited@),
            visited_count <= n,
            head <= queue@.len(),
            pred.wf(),
            pred.size == size,
            dist.wf(),
            dist.size == size,
            forall|qi: int| 0 <= qi < queue@.len()
                ==> (#[trigger] queue@[qi]).0 < size && queue@[qi].1 < size,
            forall|qi: int| 0 <= qi < queue@.len()
                ==> visited@[(#[trigger] queue@[qi]).0 * size + queue@[qi].1],
            queue_distinct(queue@),
            queue_covers(visited@, queue@, size as int),
            visited@[start.0 * size + start.1],
            hop_inv(visited@, *pred, *dist, start, size as int, visited_count as int),
            forall|q1: int, q2: int|
                0 <= q1 <= q2 < queue@.len()
                    ==> dist.at((#[trigger] queue@[q1]).0 as int, queue@[q1].1 as int)
                        <= dist.at((#[trigger] queue@[q2]).0 as int, queue@[q2].1 as int),
            head >= 1 ==> forall|qi: int|
                head <= qi < queue@.len()
                    ==> dist.at((#[trigger] queue@[qi]).0 as int, queue@[qi].1 as int)
                        <= dist.at(queue@[head - 1].0 as int, queue@[head - 1].1 as int) + 1,
            head == 0 ==> queue@.len() == 1,
            forall|qi: int| 0 <= qi < head
                ==> !is_sink(*land_map, *height_map, (#[trigger] queue@[qi]).0 as int,
                        queue@[qi].1 as int)
                    && nbrs_expanded(visited@, *dist, queue@[qi], size as int),
        decreases 5 * (n - visited_count) + queue@.len() - head,
    {
        let current = queue[head];
        head = head + 1;
        let ci = current.0;
        let cj = current.1;
        let is_end = matches!(land_map.get(ci, cj), LandCode::Ocean)
            || height_map.get(ci, cj) < SEA_LEVEL;
        if is_end {
            proof {
                lemma_row_major_index(size as int, ci as int, cj as int);
                lemma_row_major_index(size as int, start.0 as int, start.1 as int);
                let _ps = pred.at(start.0 as int, start.1 as int);
                let dd = dist.at(ci as int, cj as int) as int;
                assert forall|x: int, y: int|
                    0 <= x < size && 0 <= y < size
                        implies #[trigger] frontier_closed_at(visited@, *dist, size as int,
                            dd, x, y) by {
                    lemma_row_major_index(size as int, x, y);
                    if visited@[x * size + y] && dist.at(x, y) < dd {
                        assert(point_in_list((x as usize, y as usize), queue@));
                        let qm = choose|qi: int|
                            0 <= qi < queue@.len()
                                && #[trigger] queue@[qi] == (x as usize, y as usize);
                        if qm >= head - 1 {
                            assert(dist.at(queue@[head - 1].0 as int,
                                queue@[head - 1].1 as int)
                                <= dist.at(queue@[qm].0 as int, queue@[qm].1 as int));
                            assert(false);
                        }
                        assert(nbrs_expanded(visited@, *dist, queue@[qm], size as int));
                    }
                }
                assert forall|x: int, y: int|
                    0 <= x < size && 0 <= y < size && visited@[x * size + y]
                        && #[trigger] dist.at(x, y) < dd
                        implies !is_sink(*land_map, *height_map, x, y) by {
                    lemma_row_major_index(size as int, x, y);
                    assert(point_in_list((x as usize, y as usize), queue@));
                    let qm = choose|qi: int|
                        0 <= qi < queue@.len()
                            && #[trigger] queue@[qi] == (x as usize, y as usize);
                    if qm >= head - 1 {
                        assert(dist.at(queue@[head - 1].0 as int, queue@[head - 1].1 as int)
                            <= dist.at(queue@[qm].0 as int, queue@[qm].1 as int));
                        assert(false);
                    }
                    assert(!is_sink(*land_map, *height_map, queue@[qm].0 as int,
                        queue@[qm].1 as int));
                }
                assert(dist.at(start.0 as int, start.1 as int) == 0);
                let pc = build_hop_path(visited@, *pred, *dist, start, size as int,
                    visited_count as int, current);
                assert forall|q: Seq<(usize, usize)>|
                    #[trigger] hop_path_ok(q, size as int, start)
                        && is_sink(*land_map, *height_map, q.last().0 as int,
                            q.last().1 as int)
                        implies q.len() >= pc.len() by {
                    if q.len() < pc.len() {
                        lemma_hop_prefix(visited@, *dist, size as int, start, dd, q,
                            q.len() - 1);
                        let t = q[q.len() - 1];
                        assert(t == q.last());
                        lemma_row_major_index(size as int, t.0 as int, t.1 as int);
                        assert(dist.at(t.0 as int, t.1 as int) < dd);
                        assert(!is_sink(*land_map, *height_map, t.0 as int, t.1 as int));
                        assert(false);
                    }
                }
                assert(hop_path_ok(pc, height_map.size as int, start) && pc.last() == current
                    && forall|q: Seq<(usize, usize)>|
                        #[trigger] hop_path_ok(q, height_map.size as int, start)
                            && is_sink(*land_map, *height_map, q.last().0 as int,
                                q.last().1 as int)
                            ==> q.len() >= pc.len());
                assert(reaches_nearest_sink(*land_map, *height_map, start, current));
            }
            reset_marks(visited, &queue, size);
            return Some(current);
        }
        proof {
            assert(!is_sink(*land_map, *height_map, ci as int, cj as int));
        }
        let ghost vc0 = visited_count as int;
        let ghost ql0 = queue@.len() as int;
        let ghost v_before = visited@;
        let ghost q_before = queue@;
        let ghost d_before = *dist;
        proof {
            lemma_row_major_index(size as int, ci as int, cj as int);
            assert forall|x: int, y: int|
                0 <= x < size && 0 <= y < size && visited@[x * size + y]
                    implies #[trigger] dist.at(x, y)
                        <= dist.at(ci as int, cj as int) + 1 by {
                lemma_row_major_index(size as int, x, y);
                assert(point_in_list((x as usize, y as usize), queue@));
                let qm = choose|qi: int|
                    0 <= qi < queue@.len()
                        && #[trigger] queue@[qi] == (x as usize, y as usize);
                if qm < head {
                    assert(dist.at(queue@[qm].0 as int, queue@[qm].1 as int)
                        <= dist.at(queue@[head - 1].0 as int, queue@[head - 1].1 as int));
                } else {
                    if head >= 2 {
                        assert(dist.at(queue@[qm].0 as int, queue@[qm].1 as int)
                            <= dist.at(queue@[head - 2].0 as int, queue@[head - 2].1 as int)
                                + 1);
                        assert(dist.at(queue@[head - 2].0 as int, queue@[head - 2].1 as int)
                            <= dist.at(queue@[head - 1].0 as int, queue@[head - 1].1 as int));
                    } else {
                        assert(queue@.len() == 1);
                        assert(false);
                    }
                }
            }
        }
        expand_neighbors(visited, &mut visited_count, &mut queue, pred, dist, current, size,
            start);
        proof {
            lemma_count_trues_le_len(visited@);
            assert(5 * (n - visited_count) + queue@.len() - head
                < 5 * (n - vc0) + ql0 - (head - 1));
            lemma_processed_preserved(*land_map, *height_map, v_before, visited@, q_before,
                queue@, d_before, *dist, size as int, head - 1);
            assert(queue@[head - 1] == current);
            lemma_row_major_index(size as int, start.0 as int, start.1 as int);
            assert(visited@[start.0 * size + start.1]);
            lemma_row_major_index(size as int, ci as int, cj as int);
            assert forall|q1: int, q2: int|
                0 <= q1 <= q2 < queue@.len()
                    implies dist.at((#[trigger] queue@[q1]).0 as int, queue@[q1].1 as int)
                        <= dist.at((#[trigger] queue@[q2]).0 as int, queue@[q2].1 as int) by {
                lemma_row_major_index(size as int, queue@[q1].0 as int, queue@[q1].1 as int);
                lemma_row_major_index(size as int, queue@[q2].0 as int, queue@[q2].1 as int);
                if q2 >= ql0 {
                    if q1 < ql0 {
                        assert(queue@[q1] == q_before[q1]);
                        if q1 <= head - 1 {
                            assert(d_before.at(q_before[q1].0 as int, q_before[q1].1 as int)
                                <= d_before.at(q_before[head - 1].0 as int,
                                    q_before[head - 1].1 as int));
                        } else {
                            assert(d_before.at(q_before[q1].0 as int, q_before[q1].1 as int)
                                <= d_before.at(q_before[head - 1].0 as int,
                                    q_before[head - 1].1 as int) + 1);
                        }
                    }
                } else {
                    assert(queue@[q1] == q_before[q1]);
                    assert(queue@[q2] == q_before[q2]);
                }
            }
            assert forall|qi: int|
                head <= qi < queue@.len()
                    implies dist.at((#[trigger] queue@[qi]).0 as int, queue@[qi].1 as int)
                        <= dist.at(queue@[head - 1].0 as int, queue@[head - 1].1 as int)
                            + 1 by {
                lemma_row_major_index(size as int, queue@[qi].0 as int, queue@[qi].1 as int);
                if qi < ql0 {
                    assert(queue@[qi] == q_before[qi]);
                    if head >= 2 {
                        assert(d_before.at(q_before[qi].0 as int, q_before[qi].1 as int)
                            <= d_before.at(q_before[head - 2].0 as int,
                                q_before[head - 2].1 as int) + 1);
                        assert(d_before.at(q_before[head - 2].0 as int,
                            q_before[head - 2].1 as int)
                            <= d_before.at(q_before[head - 1].0 as int,
                                q_before[head - 1].1 as int));
                    } else {
                        assert(ql0 == 1);
                        assert(false);
                    }
                }
            }
        }
    }
    proof {
        let ghost vfull = visited@;
        assert forall|x: int, y: int|
            0 <= x < size && 0 <= y < size
                implies #[trigger] closed_at(vfull, size as int, x, y) by {
            if vfull[x * size + y] {
                assert(point_in_list((x as usize, y as usize), queue@));
                let qi = choose|qi: int|
                    0 <= qi < queue@.len() && #[trigger] queue@[qi] == (x as usize, y as usize);
                assert(qi < head);
                assert(nbrs_expanded(vfull, *dist, queue@[qi], size as int));
            }
        }
        assert forall|i: int, j: int|
            0 <= i < size && 0 <= j < size
                implies !is_sink(*land_map, *height_map, i, j) by {
            lemma_flood_reaches(vfull, size as int, start, i, j);
            assert(vfull[i * size + j]);
            assert(point_in_list((i as usize, j as usize), queue@));
            let qi = choose|qi: int|
                0 <= qi < queue@.len() && #[trigger] queue@[qi] == (i as usize, j as usize);
            assert(qi < head);
            assert(!is_sink(*land_map, *height_map, queue@[qi].0 as int, queue@[qi].1 as int));
        }
    }
    reset_marks(visited, &queue, size);
    None
}

/// Find the nearest river sink from `start` by breadth-first search over
/// the four-neighbourhood: the first reached cell that is open ocean or
/// lies below sea level.  A returned cell is in bounds, is a sink, and no
/// sink can be reached from `start` in fewer hops; a failed search means
/// the grid holds no sink at all.
pub fn find_river_end(
    start: (usize, usize),
    height_map: &Grid<i64>,
    land_map: &Grid<LandCode>,
) -> (r: Option<(usize, usize)>)
    requires
        height_map.wf(),
        land_map.wf(),
        land_map.size == height_map.size,
        1 <= height_map.size,
        start.0 < height_map.size,
        start.1 < height_map.size,
    ensures
        r is Some ==> (r->0).0 < height_map.size && (r->0).1 < height_map.size
            && is_sink(*land_map, *height_map, (r->0).0 as int, (r->0).1 as int)
            && reaches_nearest_sink(*land_map, *height_map, start, r->0),
        r is None ==> forall|i: int, j: int|
            0 <= i < height_map.size && 0 <= j < height_map.size
                ==> !is_sink(*land_map, *height_map, i, j),
{
    let size = height_map.side();
    let n = size * size;
    let mut visited: Vec<bool> = Vec::new();
    let mut k: usize = 0;
    while k < n
        invariant
            k <= n,
            visited@.len() == k,
            forall|c: int| 0 <= c < k ==> !(#[trigger] visited@[c]),
        decreases n - k,
    {
        visited.push(false);
        k = k + 1;
    }
    let mut pred: Grid<(usize, usize)> = Grid::new(size, (0, 0));
    let mut dist: Grid<usize> = Grid::new(size, 0);
    bfs_sink(start, height_map, land_map, &mut visited, &mut pred, &mut dist)
}

/// A sequence of false entries has no true entry to count.
proof fn lemma_count_all_false(s: Seq<bool>)
    requires
        forall|c: int| 0 <= c < s.len() ==> !(#[trigger] s[c]),
    ensures
        count_trues(s) == 0,
    decreases s.len(),
{
    if s.len() > 0 {
        lemma_count_all_false(s.drop_last());
    }
}

} // verus!

verus! {

/// No cell is marked.
pub open spec fn marks_clear(visited: Seq<bool>) -> bool {
    forall|c: int| 0 <= c < visited.len() ==> !(#[trigger] visited[c])
}

/// No two queue entries name the same cell.
pub open spec fn queue_distinct(queue: Seq<(usize, usize)>) -> bool {
    forall|q1: int, q2: int|
        0 <= q1 < q2 < queue.len() ==> #[trigger] queue[q1] != #[trigger] queue[q2]
}

/// Every marked cell appears in the queue.
pub open spec fn queue_covers(visited: Seq<bool>, queue: Seq<(usize, usize)>, size: int) -> bool {
    forall|x: int, y: int|
        0 <= x < size && 0 <= y < size && #[trigger] visited[x * size + y]
            ==> point_in_list((x as usize, y as usize), queue)
}

/// Unmark exactly the queued cells, leaving the board clear for the next
/// search: the queue lists every marked cell, each once.
fn reset_marks(visited: &mut Vec<bool>, queue: &Vec<(usize, usize)>, size: usize)
    requires
        1 <= size,
        size * size <= usize::MAX,
        old(visited)@.len() == size * size,
        forall|qi: int| 0 <= qi < queue@.len()
            ==> (#[trigger] queue@[qi]).0 < size && queue@[qi].1 < size,
        queue_distinct(queue@),
        queue_covers(old(visited)@, queue@, size as int),
    ensures
        final(visited)@.len() == size * size,
        marks_clear(final(visited)@),
{
    let mut k: usize = 0;
    while k < queue.len()
        invariant
            1 <= size,
            size * size <= usize::MAX,
            visited@.len() == size * size,
            k <= queue@.len(),
            forall|qi: int| 0 <= qi < queue@.len()
                ==> (#[trigger] queue@[qi]).0 < size && queue@[qi].1 < size,
            queue_distinct(queue@),
            forall|x: int, y: int|
                0 <= x < size && 0 <= y < size && #[trigger] visited@[x * size + y]
                    ==> exists|qi: int|
                        k <= qi < queue@.len() && #[trigger] queue@[qi] == (x as usize, y as usize),
        decreases queue@.len() - k,
    {
        let cell = queue[k];
        proof {
            lemma_row_major_index(size as int, cell.0 as int, cell.1 as int);
        }
        let ghost v0 = visited@;
        visited.set(cell.0 * size + cell.1, false);
        k = k + 1;
        proof {
            assert forall|x: int, y: int|
                0 <= x < size && 0 <= y < size && #[trigger] visited@[x * size + y]
                    implies exists|qi: int|
                        k <= qi < queue@.len() && #[trigger] queue@[qi] == (x as usize, y as usize) by {
                lemma_row_major_index(size as int, x, y);
                assert(v0[x * size + y]);
                let q0 = choose|qi: int|
                    k - 1 <= qi < queue@.len()
                        && #[trigger] queue@[qi] == (x as usize, y as usize);
                if q0 == k - 1 {
                    assert((x as usize, y as usize) == cell);
                    lemma_row_major_index(size as int, cell.0 as int, cell.1 as int);
                    assert(!visited@[x * size + y]);
                } else {
                    assert(k <= q0 < queue@.len() && queue@[q0] == (x as usize, y as usize));
                }
            }
        }
    }
    proof {
        assert forall|c: int| 0 <= c < visited@.len() implies !(#[trigger] visited@[c]) by {
            lemma_flat_index_inverse(size as int, c);
            let x = c / (size as int);
            let y = c % (size as int);
            if visited@[x * size + y] {
                let qi = choose|qi: int|
                    k <= qi < queue@.len() && #[trigger] queue@[qi] == (x as usize, y as usize);
                assert(false);
            }
        }
    }
}

/// The two cells share an edge of the four-neighbourhood.
pub open spec fn adjacent4(a: (usize, usize), b: (usize, usize)) -> bool {
    ||| (a.0 == b.0 && (a.1 - b.1 == 1 || b.1 - a.1 == 1))
    ||| (a.1 == b.1 && (a.0 - b.0 == 1 || b.0 - a.0 == 1))
}

/// A lawful river course: it runs from `start` to `end` through in-bounds
/// cells, each step moves to a four-neighbour, and the height never rises
/// along the way.
pub open spec fn river_path_ok(
    path: Seq<(usize, usize)>,
    height: Grid<i64>,
    start: (usize, usize),
    end: (usize, usize),
) -> bool {
    &&& path.len() >= 1
    &&& path[0] == start
    &&& path.last() == end
    &&& forall|k: int| 0 <= k < path.len()
        ==> (#[trigger] path[k]).0 < height.size && path[k].1 < height.size
    &&& forall|k: int| 0 <= k < path.len() - 1
        ==> adjacent4(#[trigger] path[k], path[k + 1])
    &&& forall|k: int| 0 <= k < path.len() - 1
        ==> height.at(path[k + 1].0 as int, path[k + 1].1 as int)
            <= height.at((#[trigger] path[k]).0 as int, path[k].1 as int)
}

/// The search invariant of the descent-constrained search: every visited
/// cell other than the start has a visited predecessor that is adjacent, at
/// least as high, one step closer to the start, and its recorded distance
/// stays below the number of visited cells.
pub open spec fn descent_inv(
    visited: Seq<bool>,
    pred: Grid<(usize, usize)>,
    dist: Grid<usize>,
    height: Grid<i64>,
    start: (usize, usize),
    size: int,
    vc: int,
) -> bool {
    forall|x: int, y: int| #![trigger pred.at(x, y)]
        0 <= x < size && 0 <= y < size && visited[x * size + y]
            ==> dist.at(x, y) < vc
                && ((x == start.0 && y == start.1) || {
                    let p = pred.at(x, y);
                    &&& p.0 < size
                    &&& p.1 < size
                    &&& visited[p.0 * size + p.1]
                    &&& adjacent4((x as usize, y as usize), p)
                    &&& height.at(x, y) <= height.at(p.0 as int, p.1 as int)
                    &&& dist.at(x, y) == dist.at(p.0 as int, p.1 as int) + 1
                })
}

/// Mark, record and enqueue the neighbour `(ni, nj)` of `from`, unless it is
/// already visited; the descent invariant is kept.
#[verifier::rlimit(100)]
fn descent_step(
    visited: &mut Vec<bool>,
    visited_count: &mut usize,
    queue: &mut Vec<(usize, usize)>,
    pred: &mut Grid<(usize, usize)>,
    dist: &mut Grid<usize>,
    from: (usize, usize),
    ni: usize,
    nj: usize,
    size: usize,
    height_map: &Grid<i64>,
    start: (usize, usize),
)
    requires
        1 <= size,
        size * size <= usize::MAX,
        height_map.wf(),
        height_map.size == size,
        ni < size,
        nj < size,
        from.0 < size,
        from.1 < size,
        old(visited)@.len() == size * size,
        old(visited)@[from.0 * size + from.1],
        *old(visited_count) == count_trues(old(visited)@),
        old(pred).wf(),
        old(pred).size == size,
        old(dist).wf(),
        old(dist).size == size,
        height_map.at(ni as int, nj as int) <= height_map.at(from.0 as int, from.1 as int),
        adjacent4((ni, nj), from),
        forall|qi: int| 0 <= qi < old(queue)@.len()
            ==> (#[trigger] old(queue)@[qi]).0 < size && old(queue)@[qi].1 < size,
        forall|qi: int| 0 <= qi < old(queue)@.len()
            ==> old(visited)@[(#[trigger] old(queue)@[qi]).0 * size + old(queue)@[qi].1],
        queue_distinct(old(queue)@),
        queue_covers(old(visited)@, old(queue)@, size as int),
        descent_inv(old(visited)@, *old(pred), *old(dist), *height_map, start, size as int,
            *old(visited_count) as int),
    ensures
        final(visited)@.len() == size * size,
        *final(visited_count) == count_trues(final(visited)@),
        final(pred).wf(),
        final(pred).size == size,
        final(dist).wf(),
        final(dist).size == size,
        forall|qi: int| 0 <= qi < final(queue)@.len()
            ==> (#[trigger] final(queue)@[qi]).0 < size && final(queue)@[qi].1 < size,
        forall|qi: int| 0 <= qi < final(queue)@.len()
            ==> final(visited)@[(#[trigger] final(queue)@[qi]).0 * size + final(queue)@[qi].1],
        forall|c: int| 0 <= c < size * size && old(visited)@[c] ==> final(visited)@[c],
        forall|qi: int| 0 <= qi < old(queue)@.len()
            ==> #[trigger] final(queue)@[qi] == old(queue)@[qi],
        final(queue)@.len() >= old(queue)@.len(),
        (final(visited)@ == old(visited)@ && final(queue)@ == old(queue)@
            && *final(visited_count) == *old(visited_count)
            && *final(pred) == *old(pred) && *final(dist) == *old(dist))
            || (*final(visited_count) == *old(visited_count) + 1
                && final(queue)@.len() == old(queue)@.len() + 1),
        queue_distinct(final(queue)@),
        queue_covers(final(visited)@, final(queue)@, size as int),
        final(visited)@[ni * size + nj],
        descent_inv(final(visited)@, *final(pred), *final(dist), *height_map, start,
            size as int, *final(visited_count) as int),
{
    proof {
        lemma_row_major_index(size as int, ni as int, nj as int);
        lemma_row_major_index(size as int, from.0 as int, from.1 as int);
    }
    let idx = ni * size + nj;
    if !visited[idx] {
        proof {
            lemma_count_trues_update(visited@, idx as int);
            lemma_count_trues_le_len(visited@.update(idx as int, true));
        }
        let ghost v0 = visited@;
        let ghost p0 = *pred;
        let ghost d0 = *dist;
        let ghost vc0 = *visited_count as int;
        let df = dist.get(from.0, from.1);
        proof {
            // Naming the predecessor record of `from` lets the search
            // invariant instantiate at that cell.
            let ghost pf = p0.at(from.0 as int, from.1 as int);
            assert(d0.at(from.0 as int, from.1 as int) < vc0);
        }
        visited.set(idx, true);
        *visited_count = *visited_count + 1;
        pred.set(ni, nj, from);
        dist.set(ni, nj, df + 1);
        let ghost q0 = queue@;
        queue.push((ni, nj));
        proof {
            assert(queue@.last() == (ni, nj));
            assert forall|qi: int| 0 <= qi < queue@.len()
                implies visited@[(#[trigger] queue@[qi]).0 * size + queue@[qi].1] by {
                if qi < queue@.len() - 1 {
                    lemma_row_major_index(size as int, queue@[qi].0 as int, queue@[qi].1 as int);
                }
            }
            assert forall|q1: int, q2: int|
                0 <= q1 < q2 < queue@.len()
                    implies #[trigger] queue@[q1] != #[trigger] queue@[q2] by {
                if q2 == queue@.len() - 1 {
                    lemma_row_major_index(size as int, q0[q1].0 as int, q0[q1].1 as int);
                    assert(v0[q0[q1].0 * size + q0[q1].1]);
                    assert(!v0[ni * size + nj]);
                    assert(queue@[q1] == q0[q1]);
                }
            }
            assert forall|x2: int, y2: int|
                0 <= x2 < size && 0 <= y2 < size && #[trigger] visited@[x2 * size + y2]
                    implies point_in_list((x2 as usize, y2 as usize), queue@) by {
                lemma_row_major_index(size as int, x2, y2);
                lemma_in_list_push((x2 as usize, y2 as usize), q0, (ni, nj));
                if x2 == ni as int && y2 == nj as int {
                    assert(point_in_list((ni, nj), queue@));
                } else {
                    lemma_row_major_distinct(size as int, x2, y2, ni as int, nj as int);
                    assert(v0[x2 * size + y2]);
                }
            }
            assert forall|x: int, y: int|
                0 <= x < size && 0 <= y < size && #[trigger] visited@[x * size + y]
                    implies dist.at(x, y) < vc0 + 1
                        && ((x == start.0 && y == start.1) || {
                            let p = pred.at(x, y);
                            &&& p.0 < size
                            &&& p.1 < size
                            &&& visited@[p.0 * size + p.1]
                            &&& adjacent4((x as usize, y as usize), p)
                            &&& height_map.at(x, y) <= height_map.at(p.0 as int, p.1 as int)
                            &&& dist.at(x, y) == dist.at(p.0 as int, p.1 as int) + 1
                        }) by {
                lemma_row_major_index(size as int, x, y);
                if x == ni as int && y == nj as int {
                    assert(pred.at(x, y) == from);
                    assert(visited@[from.0 * size + from.1]);
                    assert(dist.at(from.0 as int, from.1 as int) == df);
                    assert(dist.at(x, y) == df + 1);
                } else {
                    lemma_row_major_distinct(size as int, x, y, ni as int, nj as int);
                    assert(v0[x * size + y]);
                    assert(dist.at(x, y) == d0.at(x, y));
                    assert(pred.at(x, y) == p0.at(x, y));
                    if !(x == start.0 && y == start.1) {
                        let p = p0.at(x, y);
                        lemma_row_major_index(size as int, p.0 as int, p.1 as int);
                        assert(v0[p.0 * size + p.1]);
                        assert(visited@[p.0 * size + p.1]);
                        if !(p.0 == ni && p.1 == nj) {
                            lemma_row_major_distinct(size as int, p.0 as int, p.1 as int,
                                ni as int, nj as int);
                            assert(dist.at(p.0 as int, p.1 as int)
                                == d0.at(p.0 as int, p.1 as int));
                        } else {
                            assert(!v0[ni * size + nj]);
                            assert(false);
                        }
                    }
                }
            }
        }
    }
}

} // verus!

verus! {

/// The in-bounds four-neighbours of `c` that do not rise in height are all
/// marked, direction by direction.
pub open spec fn desc_step_ok(
    visited: Seq<bool>,
    height: Grid<i64>,
    c: (usize, usize),
    size: int,
    d: int,
) -> bool {
    if d == 0 {
        c.0 > 0 && height.at(c.0 - 1, c.1 as int) <= height.at(c.0 as int, c.1 as int)
            ==> visited[(c.0 - 1) * size + c.1]
    } else if d == 1 {
        c.0 + 1 < size && height.at(c.0 + 1, c.1 as int) <= height.at(c.0 as int, c.1 as int)
            ==> visited[(c.0 + 1) * size + c.1]
    } else if d == 2 {
        c.1 > 0 && height.at(c.0 as int, c.1 - 1) <= height.at(c.0 as int, c.1 as int)
            ==> visited[c.0 * size + (c.1 - 1)]
    } else {
        c.1 + 1 < size && height.at(c.0 as int, c.1 + 1) <= height.at(c.0 as int, c.1 as int)
            ==> visited[c.0 * size + (c.1 + 1)]
    }
}

/// Every in-bounds four-neighbour of `c` at equal or lower height is marked.
pub open spec fn desc_nbrs_visited(
    visited: Seq<bool>,
    height: Grid<i64>,
    c: (usize, usize),
    size: int,
) -> bool {
    &&& desc_step_ok(visited, height, c, size, 0)
    &&& desc_step_ok(visited, height, c, size, 1)
    &&& desc_step_ok(visited, height, c, size, 2)
    &&& desc_step_ok(visited, height, c, size, 3)
}

/// If the cell `(x, y)` is marked, so are all its in-bounds non-rising
/// neighbours.
pub open spec fn desc_closed_at(
    visited: Seq<bool>,
    height: Grid<i64>,
    size: int,
    x: int,
    y: int,
) -> bool {
    visited[x * size + y]
        ==> desc_nbrs_visited(visited, height, (x as usize, y as usize), size)
}

/// A marked set that contains the start of a lawful river course and is
/// closed under non-rising steps contains every cell of the course.
proof fn lemma_desc_path_visited(
    visited: Seq<bool>,
    height: Grid<i64>,
    size: int,
    start: (usize, usize),
    path: Seq<(usize, usize)>,
    k: int,
)
    requires
        1 <= size <= usize::MAX,
        height.size == size,
        visited.len() == size * size,
        start.0 < size,
        start.1 < size,
        visited[start.0 * size + start.1],
        forall|x: int, y: int|
            0 <= x < size && 0 <= y < size
                ==> #[trigger] desc_closed_at(visited, height, size, x, y),
        path.len() >= 1,
        path[0] == start,
        forall|m: int| 0 <= m < path.len()
            ==> (#[trigger] path[m]).0 < size && path[m].1 < size,
        forall|m: int| 0 <= m < path.len() - 1
            ==> adjacent4(#[trigger] path[m], path[m + 1]),
        forall|m: int| 0 <= m < path.len() - 1
            ==> height.at(path[m + 1].0 as int, path[m + 1].1 as int)
                <= height.at((#[trigger] path[m]).0 as int, path[m].1 as int),
        0 <= k < path.len(),
    ensures
        visited[path[k].0 * size + path[k].1],
    decreases k,
{
    if k == 0 {
        assert(path[0] == start);
    } else {
        lemma_desc_path_visited(visited, height, size, start, path, k - 1);
        let c = path[k - 1];
        let nx = path[k];
        assert(desc_closed_at(visited, height, size, c.0 as int, c.1 as int));
        assert(adjacent4(c, nx));
        assert(height.at(nx.0 as int, nx.1 as int) <= height.at(c.0 as int, c.1 as int));
        if nx.0 + 1 == c.0 && nx.1 == c.1 {
            assert(desc_step_ok(visited, height, c, size, 0));
        } else if nx.0 == c.0 + 1 && nx.1 == c.1 {
            assert(desc_step_ok(visited, height, c, size, 1));
        } else if nx.0 == c.0 && nx.1 + 1 == c.1 {
            assert(desc_step_ok(visited, height, c, size, 2));
        } else {
            assert(nx.0 == c.0 && nx.1 == c.1 + 1);
            assert(desc_step_ok(visited, height, c, size, 3));
        }
    }
}

/// After one expansion step of the descent-constrained search, every
/// previously processed queue entry still differs from the target and has
/// all its non-rising neighbours marked.
#[verifier::rlimit(100)]
#[verifier::spinoff_prover]
proof fn lemma_desc_processed_preserved(
    height: Grid<i64>,
    end: (usize, usize),
    v_old: Seq<bool>,
    v_new: Seq<bool>,
    q_old: Seq<(usize, usize)>,
    q_new: Seq<(usize, usize)>,
    size: int,
    h: int,
)
    requires
        1 <= size <= usize::MAX,
        height.size == size,
        v_old.len() == size * size,
        v_new.len() == size * size,
        0 <= h <= q_old.len(),
        q_new.len() >= q_old.len(),
        forall|qi: int| 0 <= qi < q_old.len() ==> #[trigger] q_new[qi] == q_old[qi],
        forall|qi: int| 0 <= qi < q_old.len()
            ==> (#[trigger] q_old[qi]).0 < size && q_old[qi].1 < size,
        forall|c: int| 0 <= c < size * size && v_old[c] ==> v_new[c],
        forall|qi: int| 0 <= qi < h
            ==> #[trigger] q_old[qi] != end
                && desc_nbrs_visited(v_old, height, q_old[qi], size),
    ensures
        forall|qi: int| 0 <= qi < h
            ==> #[trigger] q_new[qi] != end
                && desc_nbrs_visited(v_new, height, q_new[qi], size),
{
    assert forall|qi: int| 0 <= qi < h
        implies #[trigger] q_new[qi] != end
            && desc_nbrs_visited(v_new, height, q_new[qi], size) by {
        let c = q_old[qi];
        assert(q_new[qi] == c);
        assert(desc_nbrs_visited(v_old, height, c, size));
        if c.0 > 0 {
            lemma_row_major_index(size, c.0 as int - 1, c.1 as int);
        }
        if c.0 + 1 < size {
            lemma_row_major_index(size, c.0 as int + 1, c.1 as int);
        }
        if c.1 > 0 {
            lemma_row_major_index(size, c.0 as int, c.1 as int - 1);
        }
        if c.1 + 1 < size {
            lemma_row_major_index(size, c.0 as int, c.1 as int + 1);
        }
    }
}

/// Walk the predecessor records back from `end` until the start cell,
/// collecting the visited chain in reverse order.
#[verifier::rlimit(100)]
fn walk_back(
    pred: &Grid<(usize, usize)>,
    dist: &Grid<usize>,
    visited: &Vec<bool>,
    start: (usize, usize),
    end: (usize, usize),
    size: usize,
    height_map: &Grid<i64>,
    vc: usize,
) -> (rev: Vec<(usize, usize)>)
    requires
        1 <= size,
        size * size <= usize::MAX,
        height_map.wf(),
        height_map.size == size,
        pred.wf(),
        pred.size == size,
        dist.wf(),
        dist.size == size,
        visited@.len() == size * size,
        start.0 < size,
        start.1 < size,
        end.0 < size,
        end.1 < size,
        visited@[end.0 * size + end.1],
        descent_inv(visited@, *pred, *dist, *height_map, start, size as int, vc as int),
    ensures
        rev@.len() >= 1,
        rev@[0] == end,
        rev@.last() == start,
        forall|k: int| 0 <= k < rev@.len()
            ==> (#[trigger] rev@[k]).0 < size && rev@[k].1 < size
                && visited@[rev@[k].0 * size + rev@[k].1],
        forall|k: int| 0 <= k < rev@.len() - 1
            ==> #[trigger] rev@[k + 1] == pred.at(rev@[k].0 as int, rev@[k].1 as int)
                && rev@[k] != start,
{
    let mut rev: Vec<(usize, usize)> = Vec::new();
    rev.push(end);
    let mut cur = end;
    proof {
        lemma_row_major_index(size as int, end.0 as int, end.1 as int);
    }
    while !(cur.0 == start.0 && cur.1 == start.1)
        invariant
            1 <= size,
            size * size <= usize::MAX,
            pred.wf(),
            pred.size == size,
            dist.wf(),
            dist.size == size,
            visited@.len() == size * size,
            start.0 < size,
            start.1 < size,
            cur.0 < size,
            cur.1 < size,
            visited@[cur.0 * size + cur.1],
            height_map.wf(),
            height_map.size == size,
            descent_inv(visited@, *pred, *dist, *height_map, start, size as int, vc as int),
            rev@.len() >= 1,
            rev@[0] == end,
            rev@.last() == cur,
            forall|k: int| 0 <= k < rev@.len()
                ==> (#[trigger] rev@[k]).0 < size && rev@[k].1 < size
                    && visited@[rev@[k].0 * size + rev@[k].1],
            forall|k: int| 0 <= k < rev@.len() - 1
                ==> #[trigger] rev@[k + 1] == pred.at(rev@[k].0 as int, rev@[k].1 as int)
                    && rev@[k] != start,
        decreases dist.at(cur.0 as int, cur.1 as int),
    {
        proof {
            lemma_row_major_index(size as int, cur.0 as int, cur.1 as int);
            assert(visited@[cur.0 * size + cur.1]);
        }
        let p = pred.get(cur.0, cur.1);
        let ghost rev0 = rev@;
        rev.push(p);
        proof {
            assert(rev@[rev0.len() as int] == p);
            assert(rev@.last() == p);
            lemma_row_major_index(size as int, p.0 as int, p.1 as int);
            assert forall|k: int| 0 <= k < rev@.len()
                implies (#[trigger] rev@[k]).0 < size && rev@[k].1 < size
                    && visited@[rev@[k].0 * size + rev@[k].1] by {
                if k < rev0.len() {
                    assert(rev@[k] == rev0[k]);
                } else {
                    assert(rev@[k] == p);
                }
            }
            assert forall|k: int| 0 <= k < rev@.len() - 1
                implies #[trigger] rev@[k + 1] == pred.at(rev@[k].0 as int, rev@[k].1 as int)
                    && rev@[k] != start by {
                if k < rev0.len() - 1 {
                    assert(rev@[k] == rev0[k]);
                    assert(rev@[k + 1] == rev0[k + 1]);
                } else {
                    assert(rev@[k] == cur);
                    assert(rev@[k + 1] == p);
                }
            }
        }
        cur = p;
    }
    rev
}

/// Walk the predecessor records back from `end` to `start` and return the
/// forward course, which is a lawful river path.
#[verifier::rlimit(100)]
fn reconstruct_path(
    pred: &Grid<(usize, usize)>,
    dist: &Grid<usize>,
    visited: &Vec<bool>,
    start: (usize, usize),
    end: (usize, usize),
    size: usize,
    height_map: &Grid<i64>,
    vc: usize,
) -> (path: Vec<(usize, usize)>)
    requires
        1 <= size,
        size * size <= usize::MAX,
        height_map.wf(),
        height_map.size == size,
        pred.wf(),
        pred.size == size,
        dist.wf(),
        dist.size == size,
        visited@.len() == size * size,
        start.0 < size,
        start.1 < size,
        end.0 < size,
        end.1 < size,
        visited@[end.0 * size + end.1],
        descent_inv(visited@, *pred, *dist, *height_map, start, size as int, vc as int),
    ensures
        river_path_ok(path@, *height_map, start, end),
{
    let rev = walk_back(pred, dist, visited, start, end, size, height_map, vc);
    proof {
        assert forall|k: int| 0 <= k < rev@.len() - 1
            implies adjacent4(#[trigger] rev@[k], rev@[k + 1])
                && height_map.at(rev@[k].0 as int, rev@[k].1 as int)
                    <= height_map.at(rev@[k + 1].0 as int, rev@[k + 1].1 as int) by {
            let c = rev@[k];
            lemma_row_major_index(size as int, c.0 as int, c.1 as int);
            assert(visited@[c.0 * size + c.1]);
            assert(rev@[k + 1] == pred.at(c.0 as int, c.1 as int));
        }
    }
    let total = rev.len();
    let mut path: Vec<(usize, usize)> = Vec::new();
    let mut k: usize = 0;
    while k < total
        invariant
            total == rev@.len(),
            1 <= total,
            k <= total,
            path@.len() == k,
            forall|m: int| 0 <= m < k ==> #[trigger] path@[m] == rev@[total - 1 - m],
        decreases total - k,
    {
        path.push(rev[total - 1 - k]);
        k = k + 1;
    }
    proof {
        assert(path@[0] == rev@[total - 1]);
        assert(path@.last() == rev@[0]);
        assert forall|m: int| 0 <= m < path@.len() - 1
            implies adjacent4(#[trigger] path@[m], path@[m + 1])
                && height_map.at(path@[m + 1].0 as int, path@[m + 1].1 as int)
                    <= height_map.at(path@[m].0 as int, path@[m].1 as int) by {
            let q = total - 2 - m;
            assert(path@[m] == rev@[q + 1]);
            assert(path@[m + 1] == rev@[q]);
            assert(adjacent4(rev@[q], rev@[q + 1]));
            assert(height_map.at(rev@[q].0 as int, rev@[q].1 as int)
                <= height_map.at(rev@[q + 1].0 as int, rev@[q + 1].1 as int));
        }
    }
    path
}

/// The four direction numbers all occur in the order list.
pub open spec fn dirs_complete(dirs: Seq<usize>) -> bool {
    &&& exists|m: int| 0 <= m < 4 && (#[trigger] dirs[m]) == 0
    &&& exists|m: int| 0 <= m < 4 && (#[trigger] dirs[m]) == 1
    &&& exists|m: int| 0 <= m < 4 && (#[trigger] dirs[m]) == 2
    &&& exists|m: int| 0 <= m < 4 && (#[trigger] dirs[m]) == 3
}

/// Swapping two entries of the order list keeps every direction present.
proof fn lemma_swap_keeps_complete(s0: Seq<usize>, s1: Seq<usize>, i: int, j: int)
    requires
        s0.len() == 4,
        s1.len() == 4,
        0 <= i < 4,
        0 <= j < 4,
        forall|m: int| 0 <= m < 4
            ==> #[trigger] s1[m] == (if m == i { s0[j] } else if m == j { s0[i] } else { s0[m] }),
        dirs_complete(s0),
    ensures
        dirs_complete(s1),
{
    let m0 = choose|m: int| 0 <= m < 4 && (#[trigger] s0[m]) == 0;
    if m0 == i { assert(s1[j] == 0); } else if m0 == j { assert(s1[i] == 0); } else { assert(s1[m0] == 0); }
    let m1 = choose|m: int| 0 <= m < 4 && (#[trigger] s0[m]) == 1;
    if m1 == i { assert(s1[j] == 1); } else if m1 == j { assert(s1[i] == 1); } else { assert(s1[m1] == 1); }
    let m2 = choose|m: int| 0 <= m < 4 && (#[trigger] s0[m]) == 2;
    if m2 == i { assert(s1[j] == 2); } else if m2 == j { assert(s1[i] == 2); } else { assert(s1[m2] == 2); }
    let m3 = choose|m: int| 0 <= m < 4 && (#[trigger] s0[m]) == 3;
    if m3 == i { assert(s1[j] == 3); } else if m3 == j { assert(s1[i] == 3); } else { assert(s1[m3] == 3); }
}

/// Breadth-first search from `start` to `end` that only ever steps to a
/// four-neighbour of equal or lower height, exploring the neighbours of
/// each cell in a randomly shuffled order, over borrowed scratch boards.
/// The mark board is clear on entry and is left clear again.  A returned
/// course is a lawful river path.
fn descent_search(
    start: (usize, usize),
    end: (usize, usize),
    height_map: &Grid<i64>,
    rng: &mut WorldRng,
    visited: &mut Vec<bool>,
    pred: &mut Grid<(usize, usize)>,
    dist: &mut Grid<usize>,
) -> (r: Option<Vec<(usize, usize)>>)
    requires
        height_map.wf(),
        1 <= height_map.size,
        start.0 < height_map.size,
        start.1 < height_map.size,
        end.0 < height_map.size,
        end.1 < height_map.size,
        old(visited)@.len() == height_map.size * height_map.size,
        marks_clear(old(visited)@),
        old(pred).wf(),
        old(pred).size == height_map.size,
        old(dist).wf(),
        old(dist).size == height_map.size,
    ensures
        final(visited)@.len() == old(visited)@.len(),
        marks_clear(final(visited)@),
        final(pred).wf(),
        final(pred).size == height_map.size,
        final(dist).wf(),
        final(dist).size == height_map.size,
        r is Some ==> river_path_ok((r->0)@, *height_map, start, end),
        r is None ==> forall|course: Seq<(usize, usize)>|
            !river_path_ok(course, *height_map, start, end),
{
    let size = height_map.side();
    let n = size * size;
    proof {
        lemma_count_all_false(visited@);
        lemma_row_major_index(size as int, start.0 as int, start.1 as int);
    }
    let mut visited_count: usize = 0;
    let mut queue: Vec<(usize, usize)> = Vec::new();
    let mut head: usize = 0;
    let sidx = start.0 * size + start.1;
    proof {
        lemma_count_trues_update(visited@, sidx as int);
    }
    let ghost v_init = visited@;
    visited.set(sidx, true);
    visited_count = 1;
    dist.set(start.0, start.1, 0);
    queue.push(start);
    proof {
        assert(queue@[0] == start);
        assert forall|x: int, y: int|
            0 <= x < size && 0 <= y < size && #[trigger] visited@[x * size + y]
                implies dist.at(x, y) < 1 && x == start.0 && y == start.1 by {
            lemma_row_major_index(size as int, x, y);
            if !(x == start.0 as int && y == start.1 as int) {
                lemma_row_major_distinct(size as int, x, y, start.0 as int, start.1 as int);
                assert(!v_init[x * size + y]);
            }
        }
        assert(descent_inv(visited@, *pred, *dist, *height_map, start, size as int, 1int));
        assert forall|x: int, y: int|
            0 <= x < size && 0 <= y < size && #[trigger] visited@[x * size + y]
                implies point_in_list((x as usize, y as usize), queue@) by {
            assert(x == start.0 && y == start.1);
            assert(queue@[0] == (x as usize, y as usize));
        }
    }
    while head < queue.len()
        invariant
            height_map.wf(),
            size == height_map.size,
            1 <= size,
            n == size * size,
            size * size <= usize::MAX,
            old(visited)@.len() == n,
            start.0 < size,
            start.1 < size,
            end.0 < size,
            end.1 < size,
            visited@.len() == n,
            visited_count == count_trues(visited@),
            visited_count <= n,
            head <= queue@.len(),
            pred.wf(),
            pred.size == size,
            dist.wf(),
            dist.size == size,
            forall|qi: int| 0 <= qi < queue@.len()
                ==> (#[trigger] queue@[qi]).0 < size && queue@[qi].1 < size,
            forall|qi: int| 0 <= qi < queue@.len()
                ==> visited@[(#[trigger] queue@[qi]).0 * size + queue@[qi].1],
            queue_distinct(queue@),
            queue_covers(visited@, queue@, size as int),
            visited@[start.0 * size + start.1],
            forall|qi: int| 0 <= qi < head
                ==> #[trigger] queue@[qi] != end
                    && desc_nbrs_visited(visited@, *height_map, queue@[qi], size as int),
            descent_inv(visited@, *pred, *dist, *height_map, start, size as int,
                visited_count as int),
        decreases 5 * (n - visited_count) + queue@.len() - head,
    {
        let current = queue[head];
        head = head + 1;
        let ci = current.0;
        let cj = current.1;
        if ci == end.0 && cj == end.1 {
            proof {
                lemma_row_major_index(size as int, ci as int, cj as int);
            }
            let path = reconstruct_path(&*pred, &*dist, &*visited, start, end, size, height_map,
                visited_count);
            reset_marks(visited, &queue, size);
            return Some(path);
        }
        let ghost vc0 = visited_count as int;
        let ghost ql0 = queue@.len() as int;
        let mut dirs: Vec<usize> = Vec::new();
        dirs.push(0);
        dirs.push(1);
        dirs.push(2);
        dirs.push(3);
        proof {
            assert(dirs@[0] == 0 && dirs@[1] == 1 && dirs@[2] == 2 && dirs@[3] == 3);
        }
        let mut sh: usize = 3;
        while sh >= 1
            invariant
                sh <= 3,
                dirs@.len() == 4,
                forall|m: int| 0 <= m < 4 ==> #[trigger] dirs@[m] < 4,
                dirs_complete(dirs@),
            decreases sh,
        {
            let ghost dirs0 = dirs@;
            let pick = rng.pick_index(sh + 1);
            let a = dirs[sh];
            let b = dirs[pick];
            dirs.set(sh, b);
            dirs.set(pick, a);
            proof {
                lemma_swap_keeps_complete(dirs0, dirs@, sh as int, pick as int);
            }
            sh = sh - 1;
        }
        let hc = height_map.get(ci, cj);
        let mut di: usize = 0;
        while di < 4
            invariant
                height_map.wf(),
                size == height_map.size,
                1 <= size,
                n == size * size,
                size * size <= usize::MAX,
                start.0 < size,
                start.1 < size,
                ci < size,
                cj < size,
                hc == height_map.at(ci as int, cj as int),
                current == (ci, cj),
                visited@[ci * size + cj],
                dirs@.len() == 4,
                forall|m: int| 0 <= m < 4 ==> #[trigger] dirs@[m] < 4,
                dirs_complete(dirs@),
                di <= 4,
                visited@.len() == n,
                visited_count == count_trues(visited@),
                visited_count <= n,
                1 <= head <= queue@.len(),
                queue@[head - 1] == current,
                current != end,
                pred.wf(),
                pred.size == size,
                dist.wf(),
                dist.size == size,
                forall|qi: int| 0 <= qi < queue@.len()
                    ==> (#[trigger] queue@[qi]).0 < size && queue@[qi].1 < size,
                forall|qi: int| 0 <= qi < queue@.len()
                    ==> visited@[(#[trigger] queue@[qi]).0 * size + queue@[qi].1],
                queue_distinct(queue@),
                queue_covers(visited@, queue@, size as int),
                visited@[start.0 * size + start.1],
                forall|qi: int| 0 <= qi < head - 1
                    ==> #[trigger] queue@[qi] != end
                        && desc_nbrs_visited(visited@, *height_map, queue@[qi], size as int),
                forall|m: int| 0 <= m < di
                    ==> desc_step_ok(visited@, *height_map, current, size as int,
                        #[trigger] dirs@[m] as int),
                descent_inv(visited@, *pred, *dist, *height_map, start, size as int,
                    visited_count as int),
                5 * (n - visited_count) + queue@.len() <= 5 * (n - vc0) + ql0,
            decreases 4 - di,
        {
            let ghost v_it = visited@;
            let ghost q_it = queue@;
            let dir = dirs[di];
            if dir == 0 {
                if ci > 0 {
                    let hn = height_map.get(ci - 1, cj);
                    if hn <= hc {
                        descent_step(visited, &mut visited_count, &mut queue, pred, dist,
                            current, ci - 1, cj, size, height_map, start);
                    }
                }
            } else if dir == 1 {
                if ci + 1 < size {
                    let hn = height_map.get(ci + 1, cj);
                    if hn <= hc {
                        descent_step(visited, &mut visited_count, &mut queue, pred, dist,
                            current, ci + 1, cj, size, height_map, start);
                    }
                }
            } else if dir == 2 {
                if cj > 0 {
                    let hn = height_map.get(ci, cj - 1);
                    if hn <= hc {
                        descent_step(visited, &mut visited_count, &mut queue, pred, dist,
                            current, ci, cj - 1, size, height_map, start);
                    }
                }
            } else {
                if cj + 1 < size {
                    let hn = height_map.get(ci, cj + 1);
                    if hn <= hc {
                        descent_step(visited, &mut visited_count, &mut queue, pred, dist,
                            current, ci, cj + 1, size, height_map, start);
                    }
                }
            }
            proof {
                lemma_row_major_index(size as int, ci as int, cj as int);
                assert(visited@[ci * size + cj]);
                lemma_count_trues_le_len(visited@);
                lemma_row_major_index(size as int, start.0 as int, start.1 as int);
                assert(visited@[start.0 * size + start.1]);
                lemma_desc_processed_preserved(*height_map, end, v_it, visited@, q_it,
                    queue@, size as int, head - 1);
                if ci > 0 {
                    lemma_row_major_index(size as int, ci as int - 1, cj as int);
                }
                if ci + 1 < size {
                    lemma_row_major_index(size as int, ci as int + 1, cj as int);
                }
                if cj > 0 {
                    lemma_row_major_index(size as int, ci as int, cj as int - 1);
                }
                if cj + 1 < size {
                    lemma_row_major_index(size as int, ci as int, cj as int + 1);
                }
                assert forall|m: int| 0 <= m < di + 1
                    implies desc_step_ok(visited@, *height_map, current, size as int,
                        #[trigger] dirs@[m] as int) by {
                    if m < di {
                        assert(desc_step_ok(v_it, *height_map, current, size as int,
                            dirs@[m] as int));
                    }
                }
            }
            di = di + 1;
        }
        proof {
            lemma_count_trues_le_len(visited@);
            assert(5 * (n - visited_count) + queue@.len() - head
                < 5 * (n - vc0) + ql0 - (head - 1));
            let w0 = choose|m: int| 0 <= m < 4 && (#[trigger] dirs@[m]) == 0;
            assert(desc_step_ok(visited@, *height_map, current, size as int, dirs@[w0] as int));
            let w1 = choose|m: int| 0 <= m < 4 && (#[trigger] dirs@[m]) == 1;
            assert(desc_step_ok(visited@, *height_map, current, size as int, dirs@[w1] as int));
            let w2 = choose|m: int| 0 <= m < 4 && (#[trigger] dirs@[m]) == 2;
            assert(desc_step_ok(visited@, *height_map, current, size as int, dirs@[w2] as int));
            let w3 = choose|m: int| 0 <= m < 4 && (#[trigger] dirs@[m]) == 3;
            assert(desc_step_ok(visited@, *height_map, current, size as int, dirs@[w3] as int));
            assert(desc_nbrs_visited(visited@, *height_map, current, size as int));
            assert(queue@[head - 1] == current);
        }
    }
    proof {
        let ghost vfull = visited@;
        assert forall|x: int, y: int|
            0 <= x < size && 0 <= y < size
                implies #[trigger] desc_closed_at(vfull, *height_map, size as int, x, y) by {
            if vfull[x * size + y] {
                assert(point_in_list((x as usize, y as usize), queue@));
                let qi = choose|qi: int|
                    0 <= qi < queue@.len() && #[trigger] queue@[qi] == (x as usize, y as usize);
                assert(qi < head);
                assert(desc_nbrs_visited(vfull, *height_map, queue@[qi], size as int));
            }
        }
        assert forall|course: Seq<(usize, usize)>|
            !river_path_ok(course, *height_map, start, end) by {
            if river_path_ok(course, *height_map, start, end) {
                lemma_desc_path_visited(vfull, *height_map, size as int, start, course,
                    course.len() - 1);
                let last = course[course.len() - 1];
                assert(last == end);
                assert(vfull[end.0 * size + end.1]);
                assert(point_in_list((end.0, end.1), queue@));
                let qi = choose|qi: int|
                    0 <= qi < queue@.len() && #[trigger] queue@[qi] == (end.0, end.1);
                assert(qi < head);
                assert(queue@[qi] != end);
                assert(false);
            }
        }
    }
    reset_marks(visited, &queue, size);
    None
}

/// Find a descending course from `start` to `end`: breadth-first search
/// that only ever steps to a four-neighbour of equal or lower height, with
/// the neighbour order randomly shuffled at every cell.  A returned course
/// is a lawful river path: it runs from `start` to `end` and its height
/// never rises.
pub fn find_path(
    start: (usize, usize),
    end: (usize, usize),
    height_map: &Grid<i64>,
    rng: &mut WorldRng,
) -> (r: Option<Vec<(usize, usize)>>)
    requires
        height_map.wf(),
        1 <= height_map.size,
        start.0 < height_map.size,
        start.1 < height_map.size,
        end.0 < height_map.size,
        end.1 < height_map.size,
    ensures
        r is Some ==> river_path_ok((r->0)@, *height_map, start, end),
        r is None ==> forall|course: Seq<(usize, usize)>|
            !river_path_ok(course, *height_map, start, end),
{
    let size = height_map.side();
    let n = size * size;
    let mut visited: Vec<bool> = Vec::new();
    let mut k: usize = 0;
    while k < n
        invariant
            k <= n,
            visited@.len() == k,
            forall|c: int| 0 <= c < k ==> !(#[trigger] visited@[c]),
        decreases n - k,
    {
        visited.push(false);
        k = k + 1;
    }
    let mut pred: Grid<(usize, usize)> = Grid::new(size, (0, 0));
    let mut dist: Grid<usize> = Grid::new(size, 0);
    descent_search(start, end, height_map, rng, &mut visited, &mut pred, &mut dist)
}

/// One synthesised river: the kept source it started from, the sink the
/// search found for it, and the carved course, where each search succeeded.
pub struct River {
    pub start_point: (usize, usize),
    pub end_point: Option<(usize, usize)>,
    pub course: Option<Vec<(usize, usize)>>,
}

/// The cell `(i, j)` lies on the carved course, when there is one.
pub open spec fn cell_on_course(course: Option<Vec<(usize, usize)>>, i: int, j: int) -> bool {
    course is Some && exists|k: int|
        0 <= k < (course->0)@.len() && (#[trigger] (course->0)@[k]) == (i as usize, j as usize)
}

/// The cell `(i, j)` lies on some carved course of the river list.
pub open spec fn cell_on_rivers(rivers: Seq<River>, i: int, j: int) -> bool {
    exists|p: int|
        0 <= p < rivers.len() && cell_on_course((#[trigger] rivers[p]).course, i, j)
}

/// What each per-source record promises: a missing sink means the land held
/// no sink at all when river synthesis began; a found sink is a sink of the
/// finished land; a found course is a lawful river path from the record's
/// source to its sink; and a missing course beside a found sink means no
/// lawful course to that sink exists.
pub open spec fn river_ok(
    rv: River,
    height: Grid<i64>,
    old_land: Grid<LandCode>,
    new_land: Grid<LandCode>,
) -> bool {
    &&& (rv.end_point is None ==> forall|i: int, j: int|
            0 <= i < height.size && 0 <= j < height.size
                ==> !is_sink(old_land, height, i, j))
    &&& (rv.end_point is Some ==> {
        let e = rv.end_point->0;
        e.0 < height.size && e.1 < height.size
            && is_sink(new_land, height, e.0 as int, e.1 as int)
    })
    &&& (rv.course is Some ==> rv.end_point is Some
            && river_path_ok((rv.course->0)@, height, rv.start_point, rv.end_point->0))
    &&& (rv.end_point is Some && rv.course is None ==> forall|cs: Seq<(usize, usize)>|
            !river_path_ok(cs, height, rv.start_point, rv.end_point->0))
}

/// A cell that is a sink stays a sink when the land only ever turns cells
/// into plain ocean.
proof fn lemma_sink_stays(g1: Grid<LandCode>, g2: Grid<LandCode>, h: Grid<i64>, i: int, j: int)
    requires
        g2.at(i, j) == g1.at(i, j) || g2.at(i, j) == LandCode::Ocean,
        is_sink(g1, h, i, j),
    ensures
        is_sink(g2, h, i, j),
{
}

/// Appending a river record: a cell lies on the new list's courses exactly
/// when it lies on the old list's courses or on the new record's course.
proof fn lemma_on_rivers_push(rivers: Seq<River>, rv: River, i: int, j: int)
    ensures
        cell_on_rivers(rivers.push(rv), i, j)
            <==> (cell_on_rivers(rivers, i, j) || cell_on_course(rv.course, i, j)),
{
    if cell_on_rivers(rivers.push(rv), i, j) {
        let p = choose|p: int|
            0 <= p < rivers.push(rv).len()
                && cell_on_course((#[trigger] rivers.push(rv)[p]).course, i, j);
        if p < rivers.len() {
            assert(rivers.push(rv)[p] == rivers[p]);
            assert(cell_on_course(rivers[p].course, i, j));
        } else {
            assert(rivers.push(rv)[p] == rv);
        }
    }
    if cell_on_rivers(rivers, i, j) {
        let p = choose|p: int|
            0 <= p < rivers.len() && cell_on_course((#[trigger] rivers[p]).course, i, j);
        assert(rivers.push(rv)[p] == rivers[p]);
        assert(cell_on_course((rivers.push(rv)[p]).course, i, j));
    }
    if cell_on_course(rv.course, i, j) {
        assert(rivers.push(rv)[rivers.len() as int] == rv);
        assert(cell_on_course((rivers.push(rv)[rivers.len() as int]).course, i, j));
    }
}

/// The cell `(i, j)` occurs among the first `upto` cells of the course.
pub open spec fn course_prefix_has(cs: Seq<(usize, usize)>, upto: int, i: int, j: int) -> bool {
    exists|k: int| 0 <= k < upto && (#[trigger] cs[k]) == (i as usize, j as usize)
}

/// Synthesise rivers: keep the well-watered highland sources that survive
/// the greedy spatial filter, search a sink and a descending course for
/// each in turn, and carve every found course into the land mask.  The
/// returned records hold one entry per kept source, in order; each record
/// meets `river_ok`, and a cell of the land mask becomes plain ocean
/// exactly when it lies on a returned course, all other cells keeping
/// their value.
#[verifier::rlimit(100)]
pub fn create_rivers(
    height_map: &Grid<i64>,
    rain_map: &Grid<i64>,
    land_map: &mut Grid<LandCode>,
    min_distance: usize,
    rng: &mut WorldRng,
) -> (rivers: Vec<River>)
    requires
        height_map.wf(),
        rain_map.wf(),
        old(land_map).wf(),
        rain_map.size == height_map.size,
        old(land_map).size == height_map.size,
        1 <= height_map.size,
        min_distance < height_map.size,
    ensures
        final(land_map).wf(),
        final(land_map).size == old(land_map).size,
        forall|i: int, j: int|
            0 <= i < old(land_map).size && 0 <= j < old(land_map).size
                ==> #[trigger] final(land_map).at(i, j) == old(land_map).at(i, j)
                    || final(land_map).at(i, j) == LandCode::Ocean,
        rivers@.len() == greedy_filter(scan_sources(*height_map, *rain_map),
            min_distance as int).len(),
        forall|p: int| 0 <= p < rivers@.len()
            ==> (#[trigger] rivers@[p]).start_point
                == greedy_filter(scan_sources(*height_map, *rain_map), min_distance as int)[p],
        forall|p: int| 0 <= p < rivers@.len()
            ==> river_ok(#[trigger] rivers@[p], *height_map, *old(land_map), *final(land_map)),
        forall|i: int, j: int|
            0 <= i < old(land_map).size && 0 <= j < old(land_map).size
                ==> #[trigger] final(land_map).at(i, j) == (if cell_on_rivers(rivers@, i, j) {
                    LandCode::Ocean
                } else {
                    old(land_map).at(i, j)
                }),
{
    let size = height_map.side();
    let n = size * size;
    let starting_points = find_river_starting_points(height_map, rain_map);
    let filtered_points = filter_points(&starting_points, min_distance, size);
    let mut visited: Vec<bool> = Vec::new();
    let mut k: usize = 0;
    while k < n
        invariant
            k <= n,
            visited@.len() == k,
            forall|c: int| 0 <= c < k ==> !(#[trigger] visited@[c]),
        decreases n - k,
    {
        visited.push(false);
        k = k + 1;
    }
    let mut pred: Grid<(usize, usize)> = Grid::new(size, (0, 0));
    let mut dist: Grid<usize> = Grid::new(size, 0);
    let mut rivers: Vec<River> = Vec::new();
    let mut pi: usize = 0;
    while pi < filtered_points.len()
        invariant
            height_map.wf(),
            rain_map.wf(),
            land_map.wf(),
            size == height_map.size,
            rain_map.size == size,
            land_map.size == size,
            old(land_map).wf(),
            old(land_map).size == size,
            1 <= size,
            n == size * size,
            visited@.len() == n,
            marks_clear(visited@),
            pred.wf(),
            pred.size == size,
            dist.wf(),
            dist.size == size,
            pi <= filtered_points@.len(),
            forall|k: int| 0 <= k < filtered_points@.len()
                ==> (#[trigger] filtered_points@[k]).0 < size
                    && filtered_points@[k].1 < size,
            rivers@.len() == pi,
            forall|p: int| 0 <= p < pi
                ==> (#[trigger] rivers@[p]).start_point == filtered_points@[p],
            forall|p: int| 0 <= p < pi
                ==> river_ok(#[trigger] rivers@[p], *height_map, *old(land_map), *land_map),
            forall|i: int, j: int|
                0 <= i < size && 0 <= j < size
                    ==> #[trigger] land_map.at(i, j) == (if cell_on_rivers(rivers@, i, j) {
                        LandCode::Ocean
                    } else {
                        old(land_map).at(i, j)
                    }),
        decreases filtered_points@.len() - pi,
    {
        let point = filtered_points[pi];
        let ghost rivers0 = rivers@;
        let ghost land0 = *land_map;
        let end = bfs_sink(point, height_map, &*land_map, &mut visited, &mut pred,
            &mut dist);
        let rv: River;
        if let Some(end_point) = end {
            let course = descent_search(point, end_point, height_map, rng, &mut visited,
                &mut pred, &mut dist);
            if let Some(cs) = course {
                let mut ci: usize = 0;
                while ci < cs.len()
                    invariant
                        land_map.wf(),
                        land_map.size == size,
                        old(land_map).size == size,
                        1 <= size,
                        ci <= cs@.len(),
                        forall|k: int| 0 <= k < cs@.len()
                            ==> (#[trigger] cs@[k]).0 < size && cs@[k].1 < size,
                        forall|i: int, j: int|
                            0 <= i < size && 0 <= j < size
                                ==> #[trigger] land_map.at(i, j)
                                    == (if cell_on_rivers(rivers0, i, j)
                                        || course_prefix_has(cs@, ci as int, i, j) {
                                        LandCode::Ocean
                                    } else {
                                        old(land_map).at(i, j)
                                    }),
                    decreases cs@.len() - ci,
                {
                    let cell = cs[ci];
                    let ghost landc = *land_map;
                    land_map.set(cell.0, cell.1, LandCode::Ocean);
                    proof {
                        assert forall|i: int, j: int|
                            0 <= i < size && 0 <= j < size
                                implies #[trigger] land_map.at(i, j)
                                    == (if cell_on_rivers(rivers0, i, j)
                                        || course_prefix_has(cs@, ci as int + 1, i, j) {
                                        LandCode::Ocean
                                    } else {
                                        old(land_map).at(i, j)
                                    }) by {
                            if i == cell.0 as int && j == cell.1 as int {
                                assert(cs@[ci as int] == (i as usize, j as usize));
                                assert(course_prefix_has(cs@, ci as int + 1, i, j));
                            } else {
                                assert(land_map.at(i, j) == landc.at(i, j));
                                if course_prefix_has(cs@, ci as int + 1, i, j) {
                                    let k = choose|k: int|
                                        0 <= k < ci as int + 1
                                            && (#[trigger] cs@[k]) == (i as usize, j as usize);
                                    assert(k != ci as int);
                                    assert(course_prefix_has(cs@, ci as int, i, j));
                                }
                                if course_prefix_has(cs@, ci as int, i, j) {
                                    let k = choose|k: int|
                                        0 <= k < ci as int
                                            && (#[trigger] cs@[k]) == (i as usize, j as usize);
                                    assert(course_prefix_has(cs@, ci as int + 1, i, j));
                                }
                            }
                        }
                    }
                    ci = ci + 1;
                }
                rv = River { start_point: point, end_point: Some(end_point), course: Some(cs) };
            } else {
                rv = River { start_point: point, end_point: Some(end_point), course: None };
            }
        } else {
            proof {
                assert forall|i: int, j: int|
                    0 <= i < size && 0 <= j < size
                        implies !is_sink(*old(land_map), *height_map, i, j) by {
                    if is_sink(*old(land_map), *height_map, i, j) {
                        lemma_sink_stays(*old(land_map), land0, *height_map, i, j);
                    }
                }
            }
            rv = River { start_point: point, end_point: None, course: None };
        }
        rivers.push(rv);
        proof {
            assert(rivers@ == rivers0.push(rv));
            assert forall|p: int| 0 <= p < pi + 1
                implies (#[trigger] rivers@[p]).start_point == filtered_points@[p] by {
                if p < pi {
                    assert(rivers@[p] == rivers0[p]);
                } else {
                    assert(rivers@[p] == rv);
                }
            }
            assert forall|p: int| 0 <= p < pi + 1
                implies river_ok(#[trigger] rivers@[p], *height_map, *old(land_map),
                    *land_map) by {
                if p < pi {
                    assert(rivers@[p] == rivers0[p]);
                    assert(river_ok(rivers0[p], *height_map, *old(land_map), land0));
                    if rivers0[p].end_point is Some {
                        let e = rivers0[p].end_point->0;
                        lemma_sink_stays(land0, *land_map, *height_map, e.0 as int, e.1 as int);
                    }
                } else {
                    assert(rivers@[p] == rv);
                    if rv.end_point is Some {
                        let e = rv.end_point->0;
                        lemma_sink_stays(land0, *land_map, *height_map, e.0 as int, e.1 as int);
                    }
                }
            }
            assert forall|i: int, j: int|
                0 <= i < size && 0 <= j < size
                    implies #[trigger] land_map.at(i, j) == (if cell_on_rivers(rivers@, i, j) {
                        LandCode::Ocean
                    } else {
                        old(land_map).at(i, j)
                    }) by {
                lemma_on_rivers_push(rivers0, rv, i, j);
                if rv.course is Some {
                    assert(cell_on_course(rv.course, i, j)
                        == course_prefix_has((rv.course->0)@, (rv.course->0)@.len() as int, i, j));
                } else {
                    assert(!cell_on_course(rv.course, i, j));
                    assert(land_map.at(i, j) == land0.at(i, j));
                }
            }
        }
        pi = pi + 1;
    }
    rivers
}

} // verus!
