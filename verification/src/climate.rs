use vstd::prelude::*;
use crate::UNIT;
use crate::spec_map_to_range;
use crate::map_to_range;
use crate::grid::Grid;
use crate::grid::grid_in_range;
use crate::grid::jitter_candidate;
use crate::grid::lemma_jitter_preserves;
use crate::grid::zoom_with_jitter;
use crate::rng::WorldRng;
use crate::simplex::SimplexNoise;
use crate::simplex::spec_noise;

verus! {

/// Lower bound of the temperature range, in degrees.
pub const TEMP_LOW: i64 = -10;

/// Upper bound of the temperature range, in degrees.
pub const TEMP_HIGH: i64 = 30;

/// Lower bound of the rainfall range, in millimetres.
pub const RAIN_LOW: i64 = 0;

/// Upper bound of the rainfall range, in millimetres.
pub const RAIN_HIGH: i64 = 450;

/// Lower bound of the height range, in height units.
pub const HEIGHT_LOW: i64 = 0;

/// Upper bound of the height range, in height units.
pub const HEIGHT_HIGH: i64 = 255;

/// The height at and below which a cell counts as water.
pub const SEA_LEVEL: i64 = 65;

/// Largest grid side the climate samplers accept, so that every sampled
/// coordinate stays inside the noise field's domain.
pub const CLIMATE_SIZE_LIMIT: usize = 0x1000_0000;

/// The field value written into cell `(i, j)` when sampling the noise field
/// at the cell's coordinates and remapping into `[lower, upper]`.
pub open spec fn field_sample(n: SimplexNoise, i: int, j: int, lower: int, upper: int) -> int {
    spec_map_to_range(spec_noise(n, i * UNIT, j * UNIT), lower, upper)
}

/// Fill every cell of `field` with the remapped noise sample at the cell's
/// own coordinates.
fn fill_field(field: &mut Grid<i64>, noise: &SimplexNoise, lower: i64, upper: i64)
    requires
        old(field).wf(),
        1 <= old(field).size <= CLIMATE_SIZE_LIMIT,
        noise.wf(),
        -1_000_000 <= lower <= upper <= 1_000_000,
    ensures
        final(field).wf(),
        final(field).size == old(field).size,
        forall|i: int, j: int|
            0 <= i < old(field).size && 0 <= j < old(field).size
                ==> #[trigger] final(field).at(i, j)
                    == field_sample(*noise, i, j, lower as int, upper as int),
        grid_in_range(*final(field), lower as int, upper as int),
{
    let size = field.side();
    let mut i: usize = 0;
    while i < size
        invariant
            field.wf(),
            field.size == size,
            1 <= size <= CLIMATE_SIZE_LIMIT,
            noise.wf(),
            -1_000_000 <= lower <= upper <= 1_000_000,
            i <= size,
            forall|i2: int, j2: int|
                0 <= i2 < i && 0 <= j2 < size
                    ==> #[trigger] field.at(i2, j2)
                        == field_sample(*noise, i2, j2, lower as int, upper as int),
            forall|i2: int, j2: int|
                0 <= i2 < i && 0 <= j2 < size
                    ==> lower <= #[trigger] field.at(i2, j2) <= upper,
        decreases size - i,
    {
        let mut j: usize = 0;
        while j < size
            invariant
                field.wf(),
                field.size == size,
                1 <= size <= CLIMATE_SIZE_LIMIT,
                noise.wf(),
                -1_000_000 <= lower <= upper <= 1_000_000,
                i < size,
                j <= size,
                forall|i2: int, j2: int|
                    0 <= i2 < i && 0 <= j2 < size
                        ==> #[trigger] field.at(i2, j2)
                            == field_sample(*noise, i2, j2, lower as int, upper as int),
                forall|i2: int, j2: int|
                    0 <= i2 < i && 0 <= j2 < size
                        ==> lower <= #[trigger] field.at(i2, j2) <= upper,
                forall|j2: int|
                    0 <= j2 < j
                        ==> #[trigger] field.at(i as int, j2)
                            == field_sample(*noise, i as int, j2, lower as int, upper as int),
                forall|j2: int|
                    0 <= j2 < j ==> lower <= #[trigger] field.at(i as int, j2) <= upper,
            decreases size - j,
        {
            let v = noise.noise((i as i64) * UNIT, (j as i64) * UNIT);
            let m = map_to_range(v, lower, upper);
            field.set(i, j, m);
            j = j + 1;
        }
        i = i + 1;
    }
}

/// Derive the temperature field: every cell is the noise sample at its own
/// coordinates remapped into degrees, `[-10, 30]`.
pub fn add_temperature(empty_temp: &mut Grid<i64>, noise: &SimplexNoise)
    requires
        old(empty_temp).wf(),
        1 <= old(empty_temp).size <= CLIMATE_SIZE_LIMIT,
        noise.wf(),
    ensures
        final(empty_temp).wf(),
        final(empty_temp).size == old(empty_temp).size,
        forall|i: int, j: int|
            0 <= i < old(empty_temp).size && 0 <= j < old(empty_temp).size
                ==> #[trigger] final(empty_temp).at(i, j)
                    == field_sample(*noise, i, j, TEMP_LOW as int, TEMP_HIGH as int),
        grid_in_range(*final(empty_temp), TEMP_LOW as int, TEMP_HIGH as int),
{
    fill_field(empty_temp, noise, TEMP_LOW, TEMP_HIGH);
}

/// Derive the rainfall field: every cell is the noise sample at its own
/// coordinates remapped into millimetres, `[0, 450]`.
pub fn add_rainfall(empty_rain: &mut Grid<i64>, noise: &SimplexNoise)
    requires
        old(empty_rain).wf(),
        1 <= old(empty_rain).size <= CLIMATE_SIZE_LIMIT,
        noise.wf(),
    ensures
        final(empty_rain).wf(),
        final(empty_rain).size == old(empty_rain).size,
        forall|i: int, j: int|
            0 <= i < old(empty_rain).size && 0 <= j < old(empty_rain).size
                ==> #[trigger] final(empty_rain).at(i, j)
                    == field_sample(*noise, i, j, RAIN_LOW as int, RAIN_HIGH as int),
        grid_in_range(*final(empty_rain), RAIN_LOW as int, RAIN_HIGH as int),
{
    fill_field(empty_rain, noise, RAIN_LOW, RAIN_HIGH);
}

/// Derive the elevation field: every cell is the noise sample at its own
/// coordinates remapped into height units, `[0, 255]`, with sea level at 65.
pub fn add_height(empty_height: &mut Grid<i64>, noise: &SimplexNoise)
    requires
        old(empty_height).wf(),
        1 <= old(empty_height).size <= CLIMATE_SIZE_LIMIT,
        noise.wf(),
    ensures
        final(empty_height).wf(),
        final(empty_height).size == old(empty_height).size,
        forall|i: int, j: int|
            0 <= i < old(empty_height).size && 0 <= j < old(empty_height).size
                ==> #[trigger] final(empty_height).at(i, j)
                    == field_sample(*noise, i, j, HEIGHT_LOW as int, HEIGHT_HIGH as int),
        grid_in_range(*final(empty_height), HEIGHT_LOW as int, HEIGHT_HIGH as int),
{
    fill_field(empty_height, noise, HEIGHT_LOW, HEIGHT_HIGH);
}

/// The jittered resolution doubling for continuous fields, with the lower
/// jitter probability of three in ten, which keeps every cell inside any
/// range that holds all source cells.
pub fn zoom_float(board: &Grid<i64>, rng: &mut WorldRng) -> (r: Grid<i64>)
    requires
        board.wf(),
        1 <= board.size,
        4 * board.size * board.size <= usize::MAX,
    ensures
        r.wf(),
        r.size == 2 * board.size,
        forall|ni: int, nj: int|
            0 <= ni < 2 * board.size && 0 <= nj < 2 * board.size
                ==> jitter_candidate(*board, r, ni, nj, #[trigger] r.at(ni, nj)),
        forall|lo: int, hi: int|
            #[trigger] grid_in_range(*board, lo, hi) ==> grid_in_range(r, lo, hi),
{
    let r = zoom_with_jitter(board, 30, rng);
    proof {
        assert forall|lo: int, hi: int|
            #[trigger] grid_in_range(*board, lo, hi) implies grid_in_range(r, lo, hi) by {
            lemma_jitter_preserves(*board, r, |v: i64| lo <= v <= hi);
        }
    }
    r
}

} // verus!
