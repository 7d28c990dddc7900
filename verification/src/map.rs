use vstd::prelude::*;
use crate::grid::Grid;
use crate::grid::grid_in_range;
use crate::grid::lemma_range_widen;
use crate::grid::lemma_smooth_preserves_range;
use crate::grid::smooth_map;
use crate::grid::FIELD_BOUND;
use crate::land::LandCode;
use crate::land::add_islands;
use crate::land::generate_land_map;
use crate::land::zoom_int;
use crate::climate::add_height;
use crate::climate::add_rainfall;
use crate::climate::add_temperature;
use crate::climate::zoom_float;
use crate::climate::HEIGHT_HIGH;
use crate::climate::HEIGHT_LOW;
use crate::climate::RAIN_HIGH;
use crate::climate::RAIN_LOW;
use crate::climate::TEMP_HIGH;
use crate::climate::TEMP_LOW;
use crate::ocean::add_oceans;
use crate::river::create_rivers;
use crate::rng::WorldRng;
use crate::simplex::SimplexNoise;

verus! {

/// Largest accepted base size: the finished map is 256 times as wide, and
/// this bound keeps every index computation inside the machine word even on
/// 32-bit targets.
pub const MAX_GEN_SIZE: usize = 128;

/// Why a map could not be generated.
#[derive(Clone, Copy, PartialEq, Eq, Structural, Debug)]
pub enum MapError {
    SizeZero,
    SizeTooLarge,
}

/// The finished world: the land mask and the three climate fields, all of
/// one size.
pub struct WorldMap {
    pub land_map: Grid<LandCode>,
    pub height_map: Grid<i64>,
    pub temperature_map: Grid<i64>,
    pub rainfall_map: Grid<i64>,
}

impl WorldMap {
    /// The four grids are square, share one side length, and the fields lie
    /// inside their domain ranges.
    pub open spec fn wf(&self) -> bool {
        &&& self.land_map.wf()
        &&& self.height_map.wf()
        &&& self.temperature_map.wf()
        &&& self.rainfall_map.wf()
        &&& self.height_map.size == self.land_map.size
        &&& self.temperature_map.size == self.land_map.size
        &&& self.rainfall_map.size == self.land_map.size
        &&& grid_in_range(self.height_map, HEIGHT_LOW as int, HEIGHT_HIGH as int)
        &&& grid_in_range(self.temperature_map, TEMP_LOW as int, TEMP_HIGH as int)
        &&& grid_in_range(self.rainfall_map, RAIN_LOW as int, RAIN_HIGH as int)
    }

    /// Generate a complete map; the original entry point of the pipeline.
    pub fn new(size: usize, seed: Option<u32>) -> (r: Result<WorldMap, MapError>)
        ensures
            r is Ok <==> 1 <= size <= MAX_GEN_SIZE,
            r == Err::<WorldMap, MapError>(MapError::SizeZero) <==> size == 0,
            r == Err::<WorldMap, MapError>(MapError::SizeTooLarge) <==> size > MAX_GEN_SIZE,
            r is Ok ==> (r->Ok_0).wf() && (r->Ok_0).land_map.size == 256 * size,
    {
        generate_map(size, seed)
    }

    /// The number of cells in the land mask.
    pub fn board_size(&self) -> (n: usize)
        requires
            self.land_map.wf(),
        ensures
            n == self.land_map.size * self.land_map.size,
    {
        self.land_map.side() * self.land_map.side()
    }
}

/// Squares up to the largest stage side fit the machine word, with room for
/// one more doubling.
proof fn lemma_zoom_fits(s: int)
    requires
        0 <= s <= 16384,
    ensures
        4 * s * s <= usize::MAX,
        s * s <= usize::MAX,
{
    assert(4 * s * s <= 0x4000_0000 && s * s <= 0x4000_0000) by (nonlinear_arith)
        requires
            0 <= s <= 16384,
    {}
    assert(usize::MAX >= 0x4000_0000);
}

/// Generate a complete map of side `256 * size` from the given base size
/// and seed: the land mask grown by repeated jittered zooms and island
/// injection, the climate and height fields sampled from seeded noise and
/// advanced through the same zoom and smoothing stages, the ocean
/// classification pass, and the carved rivers.  Exactly the base sizes from
/// 1 to `MAX_GEN_SIZE` are accepted; each failure names its cause.
pub fn generate_map(size: usize, seed: Option<u32>) -> (r: Result<WorldMap, MapError>)
    ensures
        r is Ok <==> 1 <= size <= MAX_GEN_SIZE,
        r == Err::<WorldMap, MapError>(MapError::SizeZero) <==> size == 0,
        r == Err::<WorldMap, MapError>(MapError::SizeTooLarge) <==> size > MAX_GEN_SIZE,
        r is Ok ==> (r->Ok_0).wf() && (r->Ok_0).land_map.size == 256 * size,
{
    if size == 0 {
        return Err(MapError::SizeZero);
    }
    if size > MAX_GEN_SIZE {
        return Err(MapError::SizeTooLarge);
    }
    let mut rng = match seed {
        Some(s) => WorldRng::from_seed(s as u64),
        None => WorldRng::from_entropy(),
    };
    let noise = SimplexNoise::new(&mut rng);

    proof {
        lemma_zoom_fits(size as int);
        lemma_zoom_fits(2 * size as int);
        lemma_zoom_fits(4 * size as int);
        lemma_zoom_fits(8 * size as int);
        lemma_zoom_fits(16 * size as int);
        lemma_zoom_fits(32 * size as int);
        lemma_zoom_fits(64 * size as int);
        lemma_zoom_fits(128 * size as int);
    }

    // Land outline at twice the base size, then three more island rounds.
    let mut land_map = generate_land_map(size, &mut rng);
    add_islands(&mut land_map, &mut rng);
    add_islands(&mut land_map, &mut rng);
    add_islands(&mut land_map, &mut rng);

    // Temperature and rainfall from noise, at the land mask's resolution.
    let mut temp_map: Grid<i64> = Grid::new(2 * size, 0);
    add_temperature(&mut temp_map, &noise);
    let mut rain_map: Grid<i64> = Grid::new(2 * size, 0);
    add_rainfall(&mut rain_map, &noise);

    // One zoom round for every grid.
    let zoomed_land = zoom_int(&land_map, &mut rng);
    let zoomed_temp = zoom_float(&temp_map, &mut rng);
    let zoomed_rain = zoom_float(&rain_map, &mut rng);

    // Two more rounds, then the height field at this resolution.
    let land_64 = zoom_int(&zoom_int(&zoomed_land, &mut rng), &mut rng);
    let temp_64 = zoom_float(&zoom_float(&zoomed_temp, &mut rng), &mut rng);
    let rain_64 = zoom_float(&zoom_float(&zoomed_rain, &mut rng), &mut rng);
    let mut height_map: Grid<i64> = Grid::new(16 * size, 0);
    add_height(&mut height_map, &noise);

    // One round with a final island injection.
    let mut land_32 = zoom_int(&land_64, &mut rng);
    let temp_32 = zoom_float(&temp_64, &mut rng);
    let rain_32 = zoom_float(&rain_64, &mut rng);
    let height_32 = zoom_float(&height_map, &mut rng);
    add_islands(&mut land_32, &mut rng);

    // Two rounds and a smoothing pass, then oceans and rivers.
    let mut land_8 = zoom_int(&zoom_int(&land_32, &mut rng), &mut rng);
    let temp_before = zoom_float(&zoom_float(&temp_32, &mut rng), &mut rng);
    proof {
        lemma_range_widen(temp_before, TEMP_LOW as int, TEMP_HIGH as int,
            -FIELD_BOUND as int, FIELD_BOUND as int);
    }
    let temp_8 = smooth_map(&temp_before);
    proof {
        lemma_smooth_preserves_range(temp_before, temp_8, TEMP_LOW as int, TEMP_HIGH as int);
    }
    let rain_before = zoom_float(&zoom_float(&rain_32, &mut rng), &mut rng);
    proof {
        lemma_range_widen(rain_before, RAIN_LOW as int, RAIN_HIGH as int,
            -FIELD_BOUND as int, FIELD_BOUND as int);
    }
    let rain_8 = smooth_map(&rain_before);
    proof {
        lemma_smooth_preserves_range(rain_before, rain_8, RAIN_LOW as int, RAIN_HIGH as int);
    }
    let height_before = zoom_float(&zoom_float(&height_32, &mut rng), &mut rng);
    proof {
        lemma_range_widen(height_before, HEIGHT_LOW as int, HEIGHT_HIGH as int,
            -FIELD_BOUND as int, FIELD_BOUND as int);
    }
    let height_8 = smooth_map(&height_before);
    proof {
        lemma_smooth_preserves_range(height_before, height_8, HEIGHT_LOW as int,
            HEIGHT_HIGH as int);
    }
    add_oceans(&mut land_8, &mut rng);
    create_rivers(&height_8, &rain_8, &mut land_8, 5, &mut rng);

    // The final doubling, with a smoothing pass on each side of it for the
    // continuous fields.
    let final_land = zoom_int(&land_8, &mut rng);
    let final_temp = smooth_and_zoom(&temp_8, TEMP_LOW, TEMP_HIGH, &mut rng);
    let final_rain = smooth_and_zoom(&rain_8, RAIN_LOW, RAIN_HIGH, &mut rng);
    let final_height = smooth_and_zoom(&height_8, HEIGHT_LOW, HEIGHT_HIGH, &mut rng);

    Ok(WorldMap {
        land_map: final_land,
        height_map: final_height,
        temperature_map: final_temp,
        rainfall_map: final_rain,
    })
}

/// Smooth a field, double its resolution with jitter, and smooth it again,
/// keeping every cell inside `[lower, upper]`.
fn smooth_and_zoom(field: &Grid<i64>, lower: i64, upper: i64, rng: &mut WorldRng)
    -> (r: Grid<i64>)
    requires
        field.wf(),
        1 <= field.size,
        4 * field.size * field.size <= usize::MAX,
        -1_000_000 <= lower <= upper <= 1_000_000,
        grid_in_range(*field, lower as int, upper as int),
    ensures
        r.wf(),
        r.size == 2 * field.size,
        grid_in_range(r, lower as int, upper as int),
{
    proof {
        lemma_range_widen(*field, lower as int, upper as int, -FIELD_BOUND as int,
            FIELD_BOUND as int);
    }
    let smoothed = smooth_map(field);
    proof {
        lemma_smooth_preserves_range(*field, smoothed, lower as int, upper as int);
        assert(grid_in_range(smoothed, lower as int, upper as int));
    }
    let zoomed = zoom_float(&smoothed, rng);
    proof {
        assert(grid_in_range(zoomed, lower as int, upper as int));
        lemma_range_widen(zoomed, lower as int, upper as int, -FIELD_BOUND as int,
            FIELD_BOUND as int);
    }
    let out = smooth_map(&zoomed);
    proof {
        lemma_smooth_preserves_range(zoomed, out, lower as int, upper as int);
    }
    out
}

} // verus!
