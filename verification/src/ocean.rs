use vstd::prelude::*;
use crate::grid::Grid;
use crate::land::LandCode;
use crate::rng::WorldRng;

verus! {

/// True when `(i, j)` lies inside the grid and holds plain land.
pub open spec fn land_at(g: Grid<LandCode>, i: int, j: int) -> bool {
    0 <= i < g.size && 0 <= j < g.size && g.at(i, j) == LandCode::Land
}

/// True when at least one of the eight neighbours of `(i, j)` is land:
/// the cell is a shore candidate, and not a deep-ocean candidate.
pub open spec fn has_land_neighbor(g: Grid<LandCode>, i: int, j: int) -> bool {
    ||| land_at(g, i - 1, j - 1)
    ||| land_at(g, i - 1, j)
    ||| land_at(g, i - 1, j + 1)
    ||| land_at(g, i, j - 1)
    ||| land_at(g, i, j + 1)
    ||| land_at(g, i + 1, j - 1)
    ||| land_at(g, i + 1, j)
    ||| land_at(g, i + 1, j + 1)
}

/// How `add_oceans` may rewrite one cell: only plain ocean changes, a shore
/// candidate may shallow, a deep-ocean candidate may deepen, and the two
/// promotions exclude each other through the land-neighbour test.
pub open spec fn ocean_step(old_g: Grid<LandCode>, new_g: Grid<LandCode>, i: int, j: int) -> bool {
    &&& (old_g.at(i, j) != LandCode::Ocean ==> new_g.at(i, j) == old_g.at(i, j))
    &&& (old_g.at(i, j) == LandCode::Ocean ==> {
        &&& (new_g.at(i, j) == LandCode::Ocean || new_g.at(i, j) == LandCode::ShallowOcean
            || new_g.at(i, j) == LandCode::DeepOcean)
        &&& (new_g.at(i, j) == LandCode::ShallowOcean ==> has_land_neighbor(old_g, i, j))
        &&& (new_g.at(i, j) == LandCode::DeepOcean ==> !has_land_neighbor(old_g, i, j))
    })
}

/// Two equally sized grids with the same land cells agree on the
/// land-neighbour test everywhere.
pub proof fn lemma_land_neighbor_same(g1: Grid<LandCode>, g2: Grid<LandCode>, i: int, j: int)
    requires
        g1.size == g2.size,
        forall|a: int, b: int|
            0 <= a < g1.size && 0 <= b < g1.size
                ==> ((#[trigger] g1.at(a, b) == LandCode::Land)
                    <==> (#[trigger] g2.at(a, b) == LandCode::Land)),
    ensures
        has_land_neighbor(g1, i, j) == has_land_neighbor(g2, i, j),
{
    let s = g1.size as int;
    if 0 <= i - 1 < s && 0 <= j - 1 < s {
        assert((g1.at(i - 1, j - 1) == LandCode::Land) <==> (g2.at(i - 1, j - 1) == LandCode::Land));
    }
    if 0 <= i - 1 < s && 0 <= j < s {
        assert((g1.at(i - 1, j) == LandCode::Land) <==> (g2.at(i - 1, j) == LandCode::Land));
    }
    if 0 <= i - 1 < s && 0 <= j + 1 < s {
        assert((g1.at(i - 1, j + 1) == LandCode::Land) <==> (g2.at(i - 1, j + 1) == LandCode::Land));
    }
    if 0 <= i < s && 0 <= j - 1 < s {
        assert((g1.at(i, j - 1) == LandCode::Land) <==> (g2.at(i, j - 1) == LandCode::Land));
    }
    if 0 <= i < s && 0 <= j + 1 < s {
        assert((g1.at(i, j + 1) == LandCode::Land) <==> (g2.at(i, j + 1) == LandCode::Land));
    }
    if 0 <= i + 1 < s && 0 <= j - 1 < s {
        assert((g1.at(i + 1, j - 1) == LandCode::Land) <==> (g2.at(i + 1, j - 1) == LandCode::Land));
    }
    if 0 <= i + 1 < s && 0 <= j < s {
        assert((g1.at(i + 1, j) == LandCode::Land) <==> (g2.at(i + 1, j) == LandCode::Land));
    }
    if 0 <= i + 1 < s && 0 <= j + 1 < s {
        assert((g1.at(i + 1, j + 1) == LandCode::Land) <==> (g2.at(i + 1, j + 1) == LandCode::Land));
    }
}

/// Reclassify the water cells of the land mask: a plain-ocean cell with a
/// land neighbour becomes shallow ocean with probability one half, and a
/// plain-ocean cell with no land neighbour becomes deep ocean with
/// probability nine in ten.  Land and already classified cells never change,
/// and a cell with a land neighbour is never promoted to deep ocean.
pub fn add_oceans(land_map: &mut Grid<LandCode>, rng: &mut WorldRng)
    requires
        old(land_map).wf(),
        1 <= old(land_map).size,
    ensures
        final(land_map).wf(),
        final(land_map).size == old(land_map).size,
        forall|i: int, j: int|
            0 <= i < old(land_map).size && 0 <= j < old(land_map).size
                ==> #[trigger] ocean_step(*old(land_map), *final(land_map), i, j),
{
    let size = land_map.side();
    let mut i: usize = 0;
    while i < size
        invariant
            land_map.wf(),
            land_map.size == size,
            old(land_map).wf(),
            old(land_map).size == size,
            1 <= size,
            i <= size,
            forall|i2: int, j2: int|
                0 <= i2 < size && 0 <= j2 < size
                    ==> #[trigger] ocean_step(*old(land_map), *land_map, i2, j2),
            forall|i2: int, j2: int| #![trigger land_map.at(i2, j2)]
                0 <= i2 < size && 0 <= j2 < size
                    ==> ((land_map.at(i2, j2) == LandCode::Land)
                        <==> (old(land_map).at(i2, j2) == LandCode::Land)),
            forall|i2: int, j2: int| #![trigger land_map.at(i2, j2)]
                0 <= i2 < size && 0 <= j2 < size && i2 >= i
                    ==> land_map.at(i2, j2) == old(land_map).at(i2, j2),
        decreases size - i,
    {
        let mut j: usize = 0;
        while j < size
            invariant
                land_map.wf(),
                land_map.size == size,
                old(land_map).wf(),
                old(land_map).size == size,
                1 <= size,
                i < size,
                j <= size,
                forall|i2: int, j2: int|
                    0 <= i2 < size && 0 <= j2 < size
                        ==> #[trigger] ocean_step(*old(land_map), *land_map, i2, j2),
                forall|i2: int, j2: int| #![trigger land_map.at(i2, j2)]
                    0 <= i2 < size && 0 <= j2 < size
                        ==> ((land_map.at(i2, j2) == LandCode::Land)
                            <==> (old(land_map).at(i2, j2) == LandCode::Land)),
                forall|i2: int, j2: int| #![trigger land_map.at(i2, j2)]
                    0 <= i2 < size && 0 <= j2 < size
                        && (i2 > i || (i2 == i && j2 >= j))
                        ==> land_map.at(i2, j2) == old(land_map).at(i2, j2),
            decreases size - j,
        {
            let ghost prev = *land_map;
            if matches!(land_map.get(i, j), LandCode::Ocean) {
                let mut shore = false;
                if i > 0 && j > 0 && matches!(land_map.get(i - 1, j - 1), LandCode::Land) {
                    shore = true;
                }
                if i > 0 && matches!(land_map.get(i - 1, j), LandCode::Land) {
                    shore = true;
                }
                if i > 0 && j + 1 < size && matches!(land_map.get(i - 1, j + 1), LandCode::Land) {
                    shore = true;
                }
                if j > 0 && matches!(land_map.get(i, j - 1), LandCode::Land) {
                    shore = true;
                }
                if j + 1 < size && matches!(land_map.get(i, j + 1), LandCode::Land) {
                    shore = true;
                }
                if i + 1 < size && j > 0 && matches!(land_map.get(i + 1, j - 1), LandCode::Land) {
                    shore = true;
                }
                if i + 1 < size && matches!(land_map.get(i + 1, j), LandCode::Land) {
                    shore = true;
                }
                if i + 1 < size && j + 1 < size
                    && matches!(land_map.get(i + 1, j + 1), LandCode::Land) {
                    shore = true;
                }
                assert(shore == has_land_neighbor(*land_map, i as int, j as int));
                proof {
                    lemma_land_neighbor_same(*land_map, *old(land_map), i as int, j as int);
                }
                assert(shore == has_land_neighbor(*old(land_map), i as int, j as int));
                if shore {
                    if rng.chance(50) {
                        land_map.set(i, j, LandCode::ShallowOcean);
                    }
                } else {
                    if rng.chance(90) {
                        land_map.set(i, j, LandCode::DeepOcean);
                    }
                }
            }
            proof {
                assert forall|i2: int, j2: int|
                    0 <= i2 < size && 0 <= j2 < size
                        implies #[trigger] ocean_step(*old(land_map), *land_map, i2, j2) by {
                    if i2 == i as int && j2 == j as int {
                        assert(prev.at(i2, j2) == old(land_map).at(i2, j2));
                        lemma_land_neighbor_same(prev, *old(land_map), i2, j2);
                    } else {
                        assert(land_map.at(i2, j2) == prev.at(i2, j2));
                        assert(ocean_step(*old(land_map), prev, i2, j2));
                    }
                }
            }
            j = j + 1;
        }
        i = i + 1;
    }
}

} // verus!
