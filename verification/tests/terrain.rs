use worldgen::UNIT;
use worldgen::biome::Biome;
use worldgen::biome::assign_biome;
use worldgen::biome::assign_color;
use worldgen::grid::Grid;
use worldgen::land::LandCode;
use worldgen::land::add_islands;
use worldgen::land::generate_islands;
use worldgen::land::generate_land_map;
use worldgen::land::zoom_int;
use worldgen::ocean::add_oceans;
use worldgen::rng::WorldRng;
use worldgen::simplex::SimplexNoise;
use worldgen::sines::NoiseGen;

#[test]
fn land_codes_use_the_fixed_numbering() {
    assert_eq!(LandCode::Land.code(), 1);
    assert_eq!(LandCode::Ocean.code(), 0);
    assert_eq!(LandCode::ShallowOcean.code(), 2);
    assert_eq!(LandCode::DeepOcean.code(), -1);
}

#[test]
fn land_codes_round_trip_through_the_numbering() {
    for c in [LandCode::Land, LandCode::Ocean, LandCode::ShallowOcean, LandCode::DeepOcean] {
        assert_eq!(LandCode::from_code(c.code()), Some(c));
    }
    assert_eq!(LandCode::from_code(5), None);
    assert_eq!(LandCode::from_code(-2), None);
}

#[test]
fn generate_islands_draws_only_land_and_ocean() {
    let mut rng = WorldRng::from_seed(1);
    let g = generate_islands(8, &mut rng);
    assert_eq!(g.side(), 8);
    for i in 0..8 {
        for j in 0..8 {
            let c = g.get(i, j);
            assert!(c == LandCode::Land || c == LandCode::Ocean);
        }
    }
}

#[test]
fn add_islands_never_touches_land() {
    let mut rng = WorldRng::from_seed(2);
    let mut g: Grid<LandCode> = Grid::new(6, LandCode::Land);
    add_islands(&mut g, &mut rng);
    for i in 0..6 {
        for j in 0..6 {
            assert_eq!(g.get(i, j), LandCode::Land);
        }
    }
}

#[test]
fn add_islands_only_promotes_ocean_to_land() {
    let mut rng = WorldRng::from_seed(3);
    let mut g: Grid<LandCode> = Grid::new(10, LandCode::Ocean);
    add_islands(&mut g, &mut rng);
    for i in 0..10 {
        for j in 0..10 {
            let c = g.get(i, j);
            assert!(c == LandCode::Land || c == LandCode::Ocean);
        }
    }
}

#[test]
fn generate_land_map_doubles_the_base_size() {
    let mut rng = WorldRng::from_seed(4);
    let g = generate_land_map(3, &mut rng);
    assert_eq!(g.side(), 6);
    for i in 0..6 {
        for j in 0..6 {
            let c = g.get(i, j);
            assert!(c == LandCode::Land || c == LandCode::Ocean);
        }
    }
}

#[test]
fn zoom_int_keeps_base_cells_base() {
    let mut rng = WorldRng::from_seed(5);
    let mut g: Grid<LandCode> = Grid::new(4, LandCode::Ocean);
    g.set(1, 1, LandCode::Land);
    g.set(2, 3, LandCode::Land);
    let z = zoom_int(&g, &mut rng);
    assert_eq!(z.side(), 8);
    for i in 0..8 {
        for j in 0..8 {
            let c = z.get(i, j);
            assert!(c == LandCode::Land || c == LandCode::Ocean);
        }
    }
}

fn has_land_neighbor(g: &Grid<LandCode>, i: usize, j: usize) -> bool {
    let size = g.side();
    for di in -1i64..=1 {
        for dj in -1i64..=1 {
            if di == 0 && dj == 0 {
                continue;
            }
            let ni = i as i64 + di;
            let nj = j as i64 + dj;
            if ni >= 0 && nj >= 0 && (ni as usize) < size && (nj as usize) < size {
                if g.get(ni as usize, nj as usize) == LandCode::Land {
                    return true;
                }
            }
        }
    }
    false
}

#[test]
fn add_oceans_never_deepens_a_shore_cell() {
    for seed in 0..10u64 {
        let mut rng = WorldRng::from_seed(seed);
        let mut g: Grid<LandCode> = Grid::new(7, LandCode::Ocean);
        g.set(3, 3, LandCode::Land);
        g.set(1, 5, LandCode::Land);
        let before = Grid { size: g.size, cells: g.cells.clone() };
        add_oceans(&mut g, &mut rng);
        for i in 0..7 {
            for j in 0..7 {
                let was = before.get(i, j);
                let now = g.get(i, j);
                if was != LandCode::Ocean {
                    assert_eq!(now, was);
                } else {
                    assert!(now == LandCode::Ocean || now == LandCode::ShallowOcean
                        || now == LandCode::DeepOcean);
                    if now == LandCode::DeepOcean {
                        assert!(!has_land_neighbor(&before, i, j));
                    }
                    if now == LandCode::ShallowOcean {
                        assert!(has_land_neighbor(&before, i, j));
                    }
                }
            }
        }
    }
}

#[test]
fn add_oceans_leaves_classified_water_alone() {
    let mut rng = WorldRng::from_seed(11);
    let mut g: Grid<LandCode> = Grid::new(3, LandCode::ShallowOcean);
    g.set(1, 1, LandCode::DeepOcean);
    g.set(0, 2, LandCode::Land);
    add_oceans(&mut g, &mut rng);
    assert_eq!(g.get(1, 1), LandCode::DeepOcean);
    assert_eq!(g.get(0, 2), LandCode::Land);
    assert_eq!(g.get(0, 0), LandCode::ShallowOcean);
}

#[test]
fn simplex_noise_stays_inside_the_unit_range() {
    let mut rng = WorldRng::from_seed(21);
    let noise = SimplexNoise::new(&mut rng);
    for x in 0..40i64 {
        for y in 0..40i64 {
            let v = noise.noise(x * UNIT, y * UNIT);
            assert!(-UNIT <= v && v <= UNIT, "sample out of range: {}", v);
        }
    }
    let v = noise.noise(7 * UNIT + 123, 9 * UNIT + 4000);
    assert!(-UNIT <= v && v <= UNIT);
}

#[test]
fn simplex_noise_is_a_function_of_table_and_coordinates() {
    let mut rng = WorldRng::from_seed(22);
    let noise = SimplexNoise::new(&mut rng);
    for x in 0..10i64 {
        for y in 0..10i64 {
            assert_eq!(noise.noise(x * UNIT, y * UNIT), noise.noise(x * UNIT, y * UNIT));
        }
    }
}

#[test]
fn perm_doubles_the_base_table() {
    let base: Vec<usize> = (0..256).collect();
    let table = SimplexNoise::perm(&base);
    assert_eq!(table.len(), 512);
    for k in 0..512 {
        assert_eq!(table[k], base[k % 256]);
    }
}

#[test]
fn fractal_noise_is_bounded_and_matches_one_octave() {
    let mut rng = WorldRng::from_seed(23);
    let noise = SimplexNoise::new(&mut rng);
    for x in 0..8i64 {
        for y in 0..8i64 {
            let v = noise.fractal_noise(x * UNIT, y * UNIT, 5, 2048, 2);
            assert!(-UNIT <= v && v <= UNIT);
        }
    }
    let one = noise.fractal_noise(3 * UNIT, 4 * UNIT, 1, 2048, 3);
    assert_eq!(one, noise.noise(9 * UNIT, 12 * UNIT));
}

#[test]
fn sine_wave_noise_stays_inside_the_unit_range() {
    let mut rng = WorldRng::from_seed(24);
    for _ in 0..200 {
        let v = NoiseGen::noise(0, 0, &mut rng);
        assert!(-UNIT <= v && v <= UNIT);
    }
}

#[test]
fn fixed_point_sine_is_bounded_and_zero_at_zero() {
    assert_eq!(NoiseGen::sine(0), 0);
    for k in -2000..2000i64 {
        let v = NoiseGen::sine(k * 37);
        assert!(-UNIT <= v && v <= UNIT);
    }
}

#[test]
fn assign_biome_covers_every_variant() {
    assert_eq!(assign_biome(10, 0, 0), Biome::DeepOcean);
    assert_eq!(assign_biome(40, 3000, 4000), Biome::CoralReef);
    assert_eq!(assign_biome(40, 0, 3000), Biome::ShallowSea);
    assert_eq!(assign_biome(40, 0, 1000), Biome::ShallowOcean);
    assert_eq!(assign_biome(100, 0, 0), Biome::Grassland);
    assert_eq!(assign_biome(59, 2458, 3277), Biome::CoralReef);
    assert_eq!(assign_biome(59, 2457, 3277), Biome::ShallowSea);
}

#[test]
fn biome_colors_match_the_table() {
    assert_eq!(Biome::Grassland.color(), (91, 235, 52, 255));
    assert_eq!(Biome::DeepOcean.color(), (12, 63, 173, 255));
    assert_eq!(Biome::CoralReef.color(), (12, 173, 146, 255));
    assert_eq!(Biome::ShallowSea.color(), (30, 231, 235, 255));
    assert_eq!(Biome::ShallowOcean.color(), (48, 109, 240, 255));
}

#[test]
fn assign_color_picks_the_documented_bands() {
    assert_eq!(assign_color(0, 200, 20, 300), (0, 0, 255, 255));
    assert_eq!(assign_color(1, 50, 20, 300), (0, 0, 255, 255));
    assert_eq!(assign_color(2, 100, 20, 300), (135, 206, 235, 255));
    assert_eq!(assign_color(-1, 100, 20, 300), (0, 0, 139, 255));
    assert_eq!(assign_color(1, 150, 20, 300), (34, 139, 34, 255));
    assert_eq!(assign_color(1, 100, 20, 50), (237, 201, 175, 255));
    assert_eq!(assign_color(1, 100, 20, 200), (238, 220, 130, 255));
    assert_eq!(assign_color(1, 100, 10, 40), (124, 252, 0, 255));
    assert_eq!(assign_color(1, 100, 10, 100), (139, 69, 19, 255));
    assert_eq!(assign_color(1, 100, 10, 200), (34, 139, 34, 255));
    assert_eq!(assign_color(1, 100, 10, 300), (0, 128, 0, 255));
    assert_eq!(assign_color(1, 100, 3, 40), (176, 224, 230, 255));
    assert_eq!(assign_color(1, 100, 3, 100), (0, 100, 0, 255));
    assert_eq!(assign_color(1, 100, -5, 100), (176, 224, 230, 255));
    assert_eq!(assign_color(1, 181, 20, 300), (176, 224, 230, 255));
}
