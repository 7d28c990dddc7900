use vstd::prelude::*;
use crate::grid::Grid;
use crate::grid::jitter_candidate;
use crate::grid::lemma_jitter_preserves;
use crate::grid::zoom_with_jitter;
use crate::rng::WorldRng;

verus! {

/// The closed terrain classification of a land-map cell.
///
/// Consumers branch on the numeric codes 1, 0, 2 and -1; `code` and
/// `from_code` fix that encoding at the boundary.
#[derive(Clone, Copy, PartialEq, Eq, Structural, Debug)]
pub enum LandCode {
    Land,
    Ocean,
    ShallowOcean,
    DeepOcean,
}

/// The numeric encoding of a land code.
pub open spec fn spec_code(c: LandCode) -> int {
    match c {
        LandCode::Land => 1,
        LandCode::Ocean => 0,
        LandCode::ShallowOcean => 2,
        LandCode::DeepOcean => -1,
    }
}

impl LandCode {
    /// The integer code that the rest of the system stores and renders:
    /// land 1, ocean 0, shallow ocean 2, deep ocean -1.
    pub fn code(&self) -> (v: i32)
        ensures
            v == spec_code(*self),
    {
        match self {
            LandCode::Land => 1,
            LandCode::Ocean => 0,
            LandCode::ShallowOcean => 2,
            LandCode::DeepOcean => -1,
        }
    }

    /// The land code written as the given integer, when there is one.
    pub fn from_code(v: i32) -> (r: Option<LandCode>)
        ensures
            r is Some <==> (v == 1 || v == 0 || v == 2 || v == -1),
            r is Some ==> spec_code(r->0) == v,
    {
        match v {
            1 => Some(LandCode::Land),
            0 => Some(LandCode::Ocean),
            2 => Some(LandCode::ShallowOcean),
            -1 => Some(LandCode::DeepOcean),
            _ => None,
        }
    }
}

/// A cell of the freshly drawn base mask: plain land or plain ocean.
pub open spec fn is_base_cell(c: LandCode) -> bool {
    c == LandCode::Land || c == LandCode::Ocean
}

/// Every cell of the land grid is plain land or plain ocean.
pub open spec fn all_base_cells(g: Grid<LandCode>) -> bool {
    forall|i: int, j: int|
        0 <= i < g.size && 0 <= j < g.size ==> is_base_cell(#[trigger] g.at(i, j))
}

/// The independent base draw: each cell becomes land with a fixed chance of
/// three in ten, and ocean otherwise.
pub fn generate_islands(size: usize, rng: &mut WorldRng) -> (g: Grid<LandCode>)
    requires
        1 <= size,
        size * size <= usize::MAX,
    ensures
        g.wf(),
        g.size == size,
        all_base_cells(g),
{
    let mut g: Grid<LandCode> = Grid::new(size, LandCode::Ocean);
    let mut i: usize = 0;
    while i < size
        invariant
            g.wf(),
            g.size == size,
            i <= size,
            all_base_cells(g),
        decreases size - i,
    {
        let mut j: usize = 0;
        while j < size
            invariant
                g.wf(),
                g.size == size,
                i < size,
                j <= size,
                all_base_cells(g),
            decreases size - j,
        {
            let number = rng.gen_range(1, 11);
            if number <= 3 {
                g.set(i, j, LandCode::Land);
            } else {
                g.set(i, j, LandCode::Ocean);
            }
            j = j + 1;
        }
        i = i + 1;
    }
    g
}

/// Promote ocean cells to land independently with a chance of two in ten;
/// every other cell keeps its value.
pub fn add_islands(board: &mut Grid<LandCode>, rng: &mut WorldRng)
    requires
        old(board).wf(),
        1 <= old(board).size,
    ensures
        final(board).wf(),
        final(board).size == old(board).size,
        forall|i: int, j: int|
            0 <= i < old(board).size && 0 <= j < old(board).size
                ==> #[trigger] final(board).at(i, j) == old(board).at(i, j)
                    || (old(board).at(i, j) == LandCode::Ocean
                        && final(board).at(i, j) == LandCode::Land),
{
    let size = board.side();
    let mut i: usize = 0;
    while i < size
        invariant
            board.wf(),
            board.size == size,
            1 <= size,
            i <= size,
            forall|i2: int, j2: int|
                0 <= i2 < size && 0 <= j2 < size
                    ==> #[trigger] board.at(i2, j2) == old(board).at(i2, j2)
                        || (old(board).at(i2, j2) == LandCode::Ocean
                            && board.at(i2, j2) == LandCode::Land),
        decreases size - i,
    {
        let mut j: usize = 0;
        while j < size
            invariant
                board.wf(),
                board.size == size,
                1 <= size,
                i < size,
                j <= size,
                forall|i2: int, j2: int|
                    0 <= i2 < size && 0 <= j2 < size
                        ==> #[trigger] board.at(i2, j2) == old(board).at(i2, j2)
                            || (old(board).at(i2, j2) == LandCode::Ocean
                                && board.at(i2, j2) == LandCode::Land),
            decreases size - j,
        {
            if matches!(board.get(i, j), LandCode::Ocean) {
                let number = rng.gen_range(1, 11);
                if number <= 2 {
                    board.set(i, j, LandCode::Land);
                }
            }
            j = j + 1;
        }
        i = i + 1;
    }
}

/// The jittered resolution doubling for the discrete land mask, with the
/// land mask's jitter probability of one half.
pub fn zoom_int(board: &Grid<LandCode>, rng: &mut WorldRng) -> (r: Grid<LandCode>)
    requires
        board.wf(),
        1 <= board.size,
        4 * board.size * board.size <= usize::MAX,
    ensures
        r.wf(),
        r.size == 2 * board.size,
        forall|ni: int, nj: int|
            0 <= ni < 2 * board.size && 0 <= nj < 2 * board.size
                ==> jitter_candidate(*board, r, ni, nj, #[trigger] r.at(ni, nj)),
        all_base_cells(*board) ==> all_base_cells(r),
{
    let r = zoom_with_jitter(board, 50, rng);
    proof {
        if all_base_cells(*board) {
            lemma_jitter_preserves(*board, r, |c: LandCode| is_base_cell(c));
        }
    }
    r
}

/// The baseline land and ocean outline: an independent base draw, one
/// jittered doubling, and two rounds of island promotion.
pub fn generate_land_map(size: usize, rng: &mut WorldRng) -> (g: Grid<LandCode>)
    requires
        1 <= size,
        4 * size * size <= usize::MAX,
    ensures
        g.wf(),
        g.size == 2 * size,
        all_base_cells(g),
{
    proof {
        assert(size * size <= 4 * size * size) by (nonlinear_arith)
            requires
                1 <= size,
        {}
    }
    let islands = generate_islands(size, rng);
    let mut zoomed_islands = zoom_int(&islands, rng);
    add_islands(&mut zoomed_islands, rng);
    add_islands(&mut zoomed_islands, rng);
    zoomed_islands
}

} // verus!
