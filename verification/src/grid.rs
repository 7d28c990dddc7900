use vstd::prelude::*;
use crate::div_trunc;
use crate::rng::WorldRng;
use crate::tdiv;

verus! {

/// Magnitude bound on field-grid cells under which the smoothing filter is
/// free of overflow; every domain range used by the pipeline fits well inside.
pub const FIELD_BOUND: i64 = 1_000_000_000;

/// A square two-dimensional array stored in row-major order.
///
/// Every pipeline stage works on grids of one size; the well-formedness
/// predicate ties the flat storage to the declared side length.
pub struct Grid<T> {
    pub size: usize,
    pub cells: Vec<T>,
}

impl<T> Grid<T> {
    /// The storage holds exactly `size * size` cells.
    pub open spec fn wf(&self) -> bool {
        self.cells.len() == self.size * self.size
    }

    /// The cell in row `i`, column `j`.
    pub open spec fn at(&self, i: int, j: int) -> T {
        self.cells[i * self.size + j]
    }

    pub fn side(&self) -> (n: usize)
        ensures
            n == self.size,
    {
        self.size
    }
}

impl<T: Copy> Grid<T> {
    /// A `size` by `size` grid with every cell set to `fill`.
    pub fn new(size: usize, fill: T) -> (g: Grid<T>)
        requires
            1 <= size,
            size * size <= usize::MAX,
        ensures
            g.wf(),
            g.size == size,
            forall|i: int, j: int|
                0 <= i < size && 0 <= j < size ==> g.at(i, j) == fill,
    {
        let n = size * size;
        let mut cells: Vec<T> = Vec::new();
        let mut k: usize = 0;
        while k < n
            invariant
                k <= n,
                cells.len() == k,
                forall|m: int| 0 <= m < k ==> cells[m] == fill,
            decreases n - k,
        {
            cells.push(fill);
            k = k + 1;
        }
        let g = Grid { size, cells };
        assert forall|i: int, j: int|
            0 <= i < size && 0 <= j < size implies g.at(i, j) == fill by {
            lemma_row_major_index(size as int, i, j);
        }
        g
    }

    pub fn get(&self, i: usize, j: usize) -> (v: T)
        requires
            self.wf(),
            i < self.size,
            j < self.size,
        ensures
            v == self.at(i as int, j as int),
    {
        proof {
            lemma_row_major_index(self.size as int, i as int, j as int);
        }
        self.cells[i * self.size + j]
    }

    pub fn set(&mut self, i: usize, j: usize, v: T)
        requires
            old(self).wf(),
            i < old(self).size,
            j < old(self).size,
        ensures
            final(self).wf(),
            final(self).size == old(self).size,
            final(self).at(i as int, j as int) == v,
            forall|i2: int, j2: int|
                0 <= i2 < old(self).size && 0 <= j2 < old(self).size
                    && !(i2 == i && j2 == j)
                    ==> final(self).at(i2, j2) == old(self).at(i2, j2),
    {
        proof {
            lemma_row_major_index(self.size as int, i as int, j as int);
        }
        let idx = i * self.size + j;
        self.cells.set(idx, v);
        assert forall|i2: int, j2: int|
            0 <= i2 < self.size && 0 <= j2 < self.size && !(i2 == i && j2 == j)
                implies self.at(i2, j2) == old(self).at(i2, j2) by {
            lemma_row_major_index(self.size as int, i2, j2);
            lemma_row_major_distinct(self.size as int, i as int, j as int, i2, j2);
        }
    }
}

/// Row-major flattening keeps indices inside the storage.
pub proof fn lemma_row_major_index(size: int, i: int, j: int)
    requires
        0 <= i < size,
        0 <= j < size,
    ensures
        0 <= i * size + j < size * size,
        (i * size + j) / size == i,
        (i * size + j) % size == j,
{
    assert(i * size + j < size * size && 0 <= i * size + j
        && (i * size + j) / size == i && (i * size + j) % size == j) by (nonlinear_arith)
        requires
            0 <= i < size,
            0 <= j < size,
    {}
}

/// Distinct coordinates flatten to distinct storage indices.
pub proof fn lemma_row_major_distinct(size: int, i1: int, j1: int, i2: int, j2: int)
    requires
        0 <= i1 < size,
        0 <= j1 < size,
        0 <= i2 < size,
        0 <= j2 < size,
        !(i1 == i2 && j1 == j2),
    ensures
        i1 * size + j1 != i2 * size + j2,
{
    lemma_row_major_index(size, i1, j1);
    lemma_row_major_index(size, i2, j2);
}

/// Double the linear resolution by block replication: every source cell
/// becomes a 2-by-2 destination block holding the source value.
pub fn zoom<T: Copy>(g: &Grid<T>) -> (r: Grid<T>)
    requires
        g.wf(),
        1 <= g.size,
        4 * g.size * g.size <= usize::MAX,
    ensures
        r.wf(),
        r.size == 2 * g.size,
        forall|i: int, j: int|
            0 <= i < 2 * g.size && 0 <= j < 2 * g.size ==> r.at(i, j) == g.at(i / 2, j / 2),
{
    let size = g.size;
    assert(2 * size <= usize::MAX && (2 * size) * (2 * size) == 4 * size * size)
        by (nonlinear_arith)
        requires
            1 <= size,
            4 * size * size <= usize::MAX,
    {}
    let new_size = 2 * size;
    let fill = g.get(0, 0);
    let mut r: Grid<T> = Grid::new(new_size, fill);
    let mut i: usize = 0;
    while i < size
        invariant
            g.wf(),
            1 <= size,
            size == g.size,
            new_size == 2 * size,
            r.wf(),
            r.size == new_size,
            i <= size,
            forall|di: int, dj: int|
                0 <= di < 2 * i && 0 <= dj < new_size ==> r.at(di, dj) == g.at(di / 2, dj / 2),
        decreases size - i,
    {
        let mut j: usize = 0;
        while j < size
            invariant
                g.wf(),
                1 <= size,
                size == g.size,
                new_size == 2 * size,
                r.wf(),
                r.size == new_size,
                i < size,
                j <= size,
                forall|di: int, dj: int|
                    0 <= di < 2 * i && 0 <= dj < new_size ==> r.at(di, dj) == g.at(di / 2, dj / 2),
                forall|di: int, dj: int|
                    2 * i <= di < 2 * i + 2 && 0 <= dj < 2 * j
                        ==> r.at(di, dj) == g.at(di / 2, dj / 2),
            decreases size - j,
        {
            let v = g.get(i, j);
            r.set(2 * i, 2 * j, v);
            r.set(2 * i, 2 * j + 1, v);
            r.set(2 * i + 1, 2 * j, v);
            r.set(2 * i + 1, 2 * j + 1, v);
            j = j + 1;
        }
        i = i + 1;
    }
    r
}

/// True when `(i, j)` addresses a cell of `g`.
pub open spec fn in_grid(g: Grid<i64>, i: int, j: int) -> bool {
    0 <= i < g.size && 0 <= j < g.size
}

/// The value of cell `(i, j)`, or zero when it lies outside the grid.
pub open spec fn nbr_term(g: Grid<i64>, i: int, j: int) -> int {
    if in_grid(g, i, j) {
        g.at(i, j) as int
    } else {
        0
    }
}

/// One when `(i, j)` lies inside the grid, else zero.
pub open spec fn nbr_ind(g: Grid<i64>, i: int, j: int) -> int {
    if in_grid(g, i, j) {
        1
    } else {
        0
    }
}

/// Sum of the in-bounds cells of the 3-by-3 box centred on `(i, j)`.
pub open spec fn nbr_sum(g: Grid<i64>, i: int, j: int) -> int {
    nbr_term(g, i - 1, j - 1) + nbr_term(g, i - 1, j) + nbr_term(g, i - 1, j + 1)
        + nbr_term(g, i, j - 1) + nbr_term(g, i, j) + nbr_term(g, i, j + 1)
        + nbr_term(g, i + 1, j - 1) + nbr_term(g, i + 1, j) + nbr_term(g, i + 1, j + 1)
}

/// Number of in-bounds cells of the 3-by-3 box centred on `(i, j)`.
pub open spec fn nbr_count(g: Grid<i64>, i: int, j: int) -> int {
    nbr_ind(g, i - 1, j - 1) + nbr_ind(g, i - 1, j) + nbr_ind(g, i - 1, j + 1)
        + nbr_ind(g, i, j - 1) + nbr_ind(g, i, j) + nbr_ind(g, i, j + 1)
        + nbr_ind(g, i + 1, j - 1) + nbr_ind(g, i + 1, j) + nbr_ind(g, i + 1, j + 1)
}

/// Every cell of `g` lies in the closed interval `[lo, hi]`.
pub open spec fn grid_in_range(g: Grid<i64>, lo: int, hi: int) -> bool {
    forall|i: int, j: int|
        0 <= i < g.size && 0 <= j < g.size ==> lo <= #[trigger] g.at(i, j) <= hi
}

/// 3-by-3 mean box filter: each output cell is the mean of the in-bounds
/// cells of the input box around it, with truncating integer division.
/// Edge cells average only over their in-bounds neighbours.
pub fn smooth_map(map: &Grid<i64>) -> (r: Grid<i64>)
    requires
        map.wf(),
        1 <= map.size,
        grid_in_range(*map, -FIELD_BOUND as int, FIELD_BOUND as int),
    ensures
        r.wf(),
        r.size == map.size,
        forall|i: int, j: int|
            0 <= i < map.size && 0 <= j < map.size
                ==> #[trigger] r.at(i, j) == tdiv(nbr_sum(*map, i, j), nbr_count(*map, i, j)),
{
    let size = map.size;
    let mut r: Grid<i64> = Grid::new(size, 0i64);
    let mut i: usize = 0;
    while i < size
        invariant
            map.wf(),
            1 <= size,
            size == map.size,
            grid_in_range(*map, -FIELD_BOUND as int, FIELD_BOUND as int),
            r.wf(),
            r.size == size,
            i <= size,
            forall|i2: int, j2: int|
                0 <= i2 < i && 0 <= j2 < size
                    ==> #[trigger] r.at(i2, j2) == tdiv(nbr_sum(*map, i2, j2), nbr_count(*map, i2, j2)),
        decreases size - i,
    {
        let mut j: usize = 0;
        while j < size
            invariant
                map.wf(),
                1 <= size,
                size == map.size,
                grid_in_range(*map, -FIELD_BOUND as int, FIELD_BOUND as int),
                r.wf(),
                r.size == size,
                i < size,
                j <= size,
                forall|i2: int, j2: int|
                    0 <= i2 < i && 0 <= j2 < size
                        ==> #[trigger] r.at(i2, j2) == tdiv(nbr_sum(*map, i2, j2), nbr_count(*map, i2, j2)),
                forall|j2: int|
                    0 <= j2 < j
                        ==> #[trigger] r.at(i as int, j2) == tdiv(nbr_sum(*map, i as int, j2), nbr_count(*map, i as int, j2)),
            decreases size - j,
        {
            let mut s: i64 = 0;
            let mut c: i64 = 0;
            if i > 0 && j > 0 {
                s = s + map.get(i - 1, j - 1);
                c = c + 1;
            }
            if i > 0 {
                s = s + map.get(i - 1, j);
                c = c + 1;
            }
            if i > 0 && j + 1 < size {
                s = s + map.get(i - 1, j + 1);
                c = c + 1;
            }
            if j > 0 {
                s = s + map.get(i, j - 1);
                c = c + 1;
            }
            s = s + map.get(i, j);
            c = c + 1;
            if j + 1 < size {
                s = s + map.get(i, j + 1);
                c = c + 1;
            }
            if i + 1 < size && j > 0 {
                s = s + map.get(i + 1, j - 1);
                c = c + 1;
            }
            if i + 1 < size {
                s = s + map.get(i + 1, j);
                c = c + 1;
            }
            if i + 1 < size && j + 1 < size {
                s = s + map.get(i + 1, j + 1);
                c = c + 1;
            }
            assert(s == nbr_sum(*map, i as int, j as int));
            assert(c == nbr_count(*map, i as int, j as int));
            let v = div_trunc(s, c);
            r.set(i, j, v);
            j = j + 1;
        }
        i = i + 1;
    }
    r
}

/// Truncating division of a sum by its term count stays inside the common
/// range of the terms.
pub proof fn lemma_tdiv_in_range(s: int, c: int, lo: int, hi: int)
    requires
        1 <= c,
        lo <= hi,
        c * lo <= s <= c * hi,
    ensures
        lo <= tdiv(s, c) <= hi,
{
    if s >= 0 {
        assert(lo <= s / c <= hi) by (nonlinear_arith)
            requires
                1 <= c,
                lo <= hi,
                c * lo <= s <= c * hi,
                s >= 0,
        {}
    } else {
        assert(lo <= -((-s) / c) <= hi) by (nonlinear_arith)
            requires
                1 <= c,
                lo <= hi,
                c * lo <= s <= c * hi,
                s < 0,
        {}
    }
}

/// The box filter keeps every cell inside any interval that contains all of
/// the input's cells.
pub proof fn lemma_smooth_preserves_range(g: Grid<i64>, r: Grid<i64>, lo: int, hi: int)
    requires
        g.wf(),
        r.wf(),
        r.size == g.size,
        lo <= hi,
        grid_in_range(g, lo, hi),
        forall|i: int, j: int|
            0 <= i < g.size && 0 <= j < g.size
                ==> #[trigger] r.at(i, j) == tdiv(nbr_sum(g, i, j), nbr_count(g, i, j)),
    ensures
        grid_in_range(r, lo, hi),
{
    assert forall|i: int, j: int|
        0 <= i < r.size && 0 <= j < r.size implies lo <= #[trigger] r.at(i, j) <= hi by {
        let s = nbr_sum(g, i, j);
        let c = nbr_count(g, i, j);
        assert(c * lo <= s <= c * hi) by (nonlinear_arith)
            requires
                c == nbr_ind(g, i - 1, j - 1) + nbr_ind(g, i - 1, j) + nbr_ind(g, i - 1, j + 1)
                    + nbr_ind(g, i, j - 1) + nbr_ind(g, i, j) + nbr_ind(g, i, j + 1)
                    + nbr_ind(g, i + 1, j - 1) + nbr_ind(g, i + 1, j) + nbr_ind(g, i + 1, j + 1),
                s == nbr_term(g, i - 1, j - 1) + nbr_term(g, i - 1, j) + nbr_term(g, i - 1, j + 1)
                    + nbr_term(g, i, j - 1) + nbr_term(g, i, j) + nbr_term(g, i, j + 1)
                    + nbr_term(g, i + 1, j - 1) + nbr_term(g, i + 1, j) + nbr_term(g, i + 1, j + 1),
                nbr_ind(g, i - 1, j - 1) * lo <= nbr_term(g, i - 1, j - 1) <= nbr_ind(g, i - 1, j - 1) * hi,
                nbr_ind(g, i - 1, j) * lo <= nbr_term(g, i - 1, j) <= nbr_ind(g, i - 1, j) * hi,
                nbr_ind(g, i - 1, j + 1) * lo <= nbr_term(g, i - 1, j + 1) <= nbr_ind(g, i - 1, j + 1) * hi,
                nbr_ind(g, i, j - 1) * lo <= nbr_term(g, i, j - 1) <= nbr_ind(g, i, j - 1) * hi,
                nbr_ind(g, i, j) * lo <= nbr_term(g, i, j) <= nbr_ind(g, i, j) * hi,
                nbr_ind(g, i, j + 1) * lo <= nbr_term(g, i, j + 1) <= nbr_ind(g, i, j + 1) * hi,
                nbr_ind(g, i + 1, j - 1) * lo <= nbr_term(g, i + 1, j - 1) <= nbr_ind(g, i + 1, j - 1) * hi,
                nbr_ind(g, i + 1, j) * lo <= nbr_term(g, i + 1, j) <= nbr_ind(g, i + 1, j) * hi,
                nbr_ind(g, i + 1, j + 1) * lo <= nbr_term(g, i + 1, j + 1) <= nbr_ind(g, i + 1, j + 1) * hi,
        {}
        assert(1 <= c);
        lemma_tdiv_in_range(s, c, lo, hi);
    }
}

} // verus!

verus! {

/// The values a freshly zoomed destination cell `(ni, nj)` may lawfully hold
/// after jitter: its own source value, the already-written left or upper
/// neighbour in the destination grid, or the next source cell to the right
/// or below.
pub open spec fn jitter_candidate<T>(g: Grid<T>, r: Grid<T>, ni: int, nj: int, v: T) -> bool {
    ||| v == g.at(ni / 2, nj / 2)
    ||| (ni > 0 && v == r.at(ni - 1, nj))
    ||| (nj > 0 && v == r.at(ni, nj - 1))
    ||| (ni / 2 + 1 < g.size && v == g.at(ni / 2 + 1, nj / 2))
    ||| (nj / 2 + 1 < g.size && v == g.at(ni / 2, nj / 2 + 1))
}

/// With probability `percent` in 100, reassign destination cell `(ni, nj)`
/// to a value drawn uniformly from its jitter candidates; otherwise leave
/// its replicated source value in place.
fn jitter_cell<T: Copy>(
    g: &Grid<T>,
    r: &mut Grid<T>,
    ni: usize,
    nj: usize,
    percent: u64,
    rng: &mut WorldRng,
)
    requires
        g.wf(),
        1 <= g.size,
        old(r).wf(),
        old(r).size == 2 * g.size,
        ni < 2 * g.size,
        nj < 2 * g.size,
        percent <= 100,
        old(r).at(ni as int, nj as int) == g.at(ni as int / 2, nj as int / 2),
    ensures
        final(r).wf(),
        final(r).size == old(r).size,
        forall|a: int, b: int|
            0 <= a < old(r).size && 0 <= b < old(r).size && !(a == ni && b == nj)
                ==> final(r).at(a, b) == old(r).at(a, b),
        jitter_candidate(*g, *final(r), ni as int, nj as int, final(r).at(ni as int, nj as int)),
        percent == 0 ==> final(r).at(ni as int, nj as int) == old(r).at(ni as int, nj as int),
{
    if rng.chance(percent) {
        let src_i = ni / 2;
        let src_j = nj / 2;
        let mut cands: Vec<T> = Vec::new();
        cands.push(g.get(src_i, src_j));
        if ni > 0 {
            cands.push(r.get(ni - 1, nj));
        }
        if nj > 0 {
            cands.push(r.get(ni, nj - 1));
        }
        if src_i + 1 < g.size {
            cands.push(g.get(src_i + 1, src_j));
        }
        if src_j + 1 < g.size {
            cands.push(g.get(src_i, src_j + 1));
        }
        assert(forall|m: int|
            0 <= m < cands@.len()
                ==> jitter_candidate(*g, *r, ni as int, nj as int, #[trigger] cands@[m]));
        let k = rng.pick_index(cands.len());
        let v = cands[k];
        r.set(ni, nj, v);
    }
}

/// Resolution doubling with organic perturbation: first the exact 2-by-2
/// block replication of `zoom`, then every destination cell is independently,
/// with probability `percent` in 100, reassigned to one of its jitter
/// candidates.  A zero probability reproduces `zoom` exactly.
pub fn zoom_with_jitter<T: Copy>(g: &Grid<T>, percent: u64, rng: &mut WorldRng) -> (r: Grid<T>)
    requires
        g.wf(),
        1 <= g.size,
        4 * g.size * g.size <= usize::MAX,
        percent <= 100,
    ensures
        r.wf(),
        r.size == 2 * g.size,
        forall|ni: int, nj: int|
            0 <= ni < 2 * g.size && 0 <= nj < 2 * g.size
                ==> jitter_candidate(*g, r, ni, nj, #[trigger] r.at(ni, nj)),
        percent == 0 ==> forall|ni: int, nj: int|
            0 <= ni < 2 * g.size && 0 <= nj < 2 * g.size
                ==> #[trigger] r.at(ni, nj) == g.at(ni / 2, nj / 2),
{
    let size = g.size;
    assert(2 * size <= usize::MAX) by (nonlinear_arith)
        requires
            1 <= size,
            4 * size * size <= usize::MAX,
    {}
    let new_size = 2 * size;
    let mut r = zoom(g);
    let mut i: usize = 0;
    while i < size
        invariant
            g.wf(),
            1 <= size,
            size == g.size,
            new_size == 2 * size,
            percent <= 100,
            r.wf(),
            r.size == new_size,
            i <= size,
            forall|a: int, b: int|
                0 <= a < 2 * i && 0 <= b < new_size
                    ==> jitter_candidate(*g, r, a, b, #[trigger] r.at(a, b)),
            forall|a: int, b: int|
                2 * i <= a < new_size && 0 <= b < new_size
                    ==> #[trigger] r.at(a, b) == g.at(a / 2, b / 2),
            percent == 0 ==> forall|a: int, b: int|
                0 <= a < new_size && 0 <= b < new_size
                    ==> #[trigger] r.at(a, b) == g.at(a / 2, b / 2),
        decreases size - i,
    {
        let mut j: usize = 0;
        while j < size
            invariant
                g.wf(),
                1 <= size,
                size == g.size,
                new_size == 2 * size,
                percent <= 100,
                r.wf(),
                r.size == new_size,
                i < size,
                j <= size,
                forall|a: int, b: int|
                    0 <= a < 2 * i && 0 <= b < new_size
                        ==> jitter_candidate(*g, r, a, b, #[trigger] r.at(a, b)),
                forall|a: int, b: int|
                    2 * i <= a < 2 * i + 2 && 0 <= b < 2 * j
                        ==> jitter_candidate(*g, r, a, b, #[trigger] r.at(a, b)),
                forall|a: int, b: int|
                    2 * i <= a < 2 * i + 2 && 2 * j <= b < new_size
                        ==> #[trigger] r.at(a, b) == g.at(a / 2, b / 2),
                forall|a: int, b: int|
                    2 * i + 2 <= a < new_size && 0 <= b < new_size
                        ==> #[trigger] r.at(a, b) == g.at(a / 2, b / 2),
                percent == 0 ==> forall|a: int, b: int|
                    0 <= a < new_size && 0 <= b < new_size
                        ==> #[trigger] r.at(a, b) == g.at(a / 2, b / 2),
            decreases size - j,
        {
            let ghost r0 = r;
            jitter_cell(g, &mut r, 2 * i, 2 * j, percent, rng);
            jitter_cell(g, &mut r, 2 * i, 2 * j + 1, percent, rng);
            jitter_cell(g, &mut r, 2 * i + 1, 2 * j, percent, rng);
            jitter_cell(g, &mut r, 2 * i + 1, 2 * j + 1, percent, rng);
            j = j + 1;
        }
        i = i + 1;
    }
    r
}

} // verus!

verus! {

/// A flat row-major index splits into in-range row and column parts.
pub proof fn lemma_flat_index_inverse(size: int, k: int)
    requires
        1 <= size,
        0 <= k < size * size,
    ensures
        0 <= k / size < size,
        0 <= k % size < size,
        (k / size) * size + k % size == k,
{
    assert(0 <= k / size < size && 0 <= k % size < size
        && (k / size) * size + k % size == k) by (nonlinear_arith)
        requires
            1 <= size,
            0 <= k < size * size,
    {}
}

/// With a zero jitter probability, `zoom_with_jitter` produces exactly the
/// grid that `zoom` produces: any two grids whose cells all equal the
/// replicated source value are the same grid.
pub proof fn lemma_jitter_zero_matches_zoom<T>(g: Grid<T>, r1: Grid<T>, r2: Grid<T>)
    requires
        g.wf(),
        1 <= g.size,
        r1.wf(),
        r2.wf(),
        r1.size == 2 * g.size,
        r2.size == 2 * g.size,
        forall|a: int, b: int|
            0 <= a < 2 * g.size && 0 <= b < 2 * g.size
                ==> #[trigger] r1.at(a, b) == g.at(a / 2, b / 2),
        forall|a: int, b: int|
            0 <= a < 2 * g.size && 0 <= b < 2 * g.size
                ==> #[trigger] r2.at(a, b) == g.at(a / 2, b / 2),
    ensures
        r1.size == r2.size,
        r1.cells@ == r2.cells@,
{
    let ns = r1.size as int;
    assert forall|k: int| 0 <= k < r1.cells@.len() implies r1.cells@[k] == r2.cells@[k] by {
        lemma_flat_index_inverse(ns, k);
        let a = k / ns;
        let b = k % ns;
        assert(r1.at(a, b) == g.at(a / 2, b / 2));
        assert(r2.at(a, b) == g.at(a / 2, b / 2));
    }
    assert(r1.cells@ =~= r2.cells@);
}

} // verus!

verus! {

/// Strong induction along the row-major order: once the cells with smaller
/// flat index satisfy `p`, the jitter-candidate property forces the next
/// cell to satisfy `p` as well.
proof fn jitter_pred_upto<T>(g: Grid<T>, r: Grid<T>, p: spec_fn(T) -> bool, k: int)
    requires
        g.wf(),
        1 <= g.size,
        r.wf(),
        r.size == 2 * g.size,
        forall|i: int, j: int|
            0 <= i < g.size && 0 <= j < g.size ==> p(#[trigger] g.at(i, j)),
        forall|ni: int, nj: int|
            0 <= ni < 2 * g.size && 0 <= nj < 2 * g.size
                ==> jitter_candidate(g, r, ni, nj, #[trigger] r.at(ni, nj)),
        0 <= k <= r.size * r.size,
    ensures
        forall|a: int, b: int|
            0 <= a < r.size && 0 <= b < r.size && a * r.size + b < k
                ==> p(#[trigger] r.at(a, b)),
    decreases k,
{
    let ns = r.size as int;
    if k > 0 {
        jitter_pred_upto(g, r, p, k - 1);
        lemma_flat_index_inverse(ns, k - 1);
        let a = (k - 1) / ns;
        let b = (k - 1) % ns;
        assert(jitter_candidate(g, r, a, b, r.at(a, b)));
        assert(0 <= a / 2 < g.size && 0 <= b / 2 < g.size);
        if a > 0 {
            lemma_row_major_index(ns, a - 1, b);
            assert((a - 1) * ns + b == a * ns + b - ns) by (nonlinear_arith) {}
            assert(p(r.at(a - 1, b)));
        }
        if b > 0 {
            assert(a * ns + (b - 1) == k - 2);
            assert(p(r.at(a, b - 1)));
        }
        assert(p(r.at(a, b)));
        assert forall|a2: int, b2: int|
            0 <= a2 < ns && 0 <= b2 < ns && a2 * ns + b2 < k
                implies p(r.at(a2, b2)) by {
            lemma_row_major_index(ns, a2, b2);
            if a2 * ns + b2 == k - 1 {
                assert(a2 == a && b2 == b);
            }
        }
    }
}

/// Any per-cell property that holds of every source cell also holds of every
/// cell of a jittered zoom of it: each destination cell holds either a source
/// value or the value of an earlier destination cell.
pub proof fn lemma_jitter_preserves<T>(g: Grid<T>, r: Grid<T>, p: spec_fn(T) -> bool)
    requires
        g.wf(),
        1 <= g.size,
        r.wf(),
        r.size == 2 * g.size,
        forall|i: int, j: int|
            0 <= i < g.size && 0 <= j < g.size ==> p(#[trigger] g.at(i, j)),
        forall|ni: int, nj: int|
            0 <= ni < 2 * g.size && 0 <= nj < 2 * g.size
                ==> jitter_candidate(g, r, ni, nj, #[trigger] r.at(ni, nj)),
    ensures
        forall|ni: int, nj: int|
            0 <= ni < 2 * g.size && 0 <= nj < 2 * g.size ==> p(#[trigger] r.at(ni, nj)),
    {
    let ns = r.size as int;
    assert(ns * ns >= 0) by (nonlinear_arith) {}
    jitter_pred_upto(g, r, p, ns * ns);
    assert forall|ni: int, nj: int|
        0 <= ni < 2 * g.size && 0 <= nj < 2 * g.size implies p(r.at(ni, nj)) by {
        lemma_row_major_index(ns, ni, nj);
    }
}

} // verus!

verus! {

/// A grid inside a range is inside every wider range.
pub proof fn lemma_range_widen(g: Grid<i64>, lo: int, hi: int, lo2: int, hi2: int)
    requires
        grid_in_range(g, lo, hi),
        lo2 <= lo,
        hi <= hi2,
    ensures
        grid_in_range(g, lo2, hi2),
{
    assert forall|i: int, j: int|
        0 <= i < g.size && 0 <= j < g.size implies lo2 <= #[trigger] g.at(i, j) <= hi2 by {
        assert(lo <= g.at(i, j) <= hi);
    }
}

} // verus!
