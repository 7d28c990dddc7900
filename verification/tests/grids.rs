use worldgen::UNIT;
use worldgen::div_trunc;
use worldgen::grid::Grid;
use worldgen::grid::smooth_map;
use worldgen::grid::zoom;
use worldgen::grid::zoom_with_jitter;
use worldgen::map_to_range;
use worldgen::rng::WorldRng;

fn grid_from_rows(rows: &[&[i64]]) -> Grid<i64> {
    let size = rows.len();
    let mut g: Grid<i64> = Grid::new(size, 0);
    for (i, row) in rows.iter().enumerate() {
        assert_eq!(row.len(), size);
        for (j, v) in row.iter().enumerate() {
            g.set(i, j, *v);
        }
    }
    g
}

#[test]
fn zoom_doubles_size_and_replicates_blocks() {
    let g = grid_from_rows(&[&[1, 2], &[3, 4]]);
    let z = zoom(&g);
    assert_eq!(z.side(), 4);
    for i in 0..2 {
        for j in 0..2 {
            let v = g.get(i, j);
            assert_eq!(z.get(2 * i, 2 * j), v);
            assert_eq!(z.get(2 * i, 2 * j + 1), v);
            assert_eq!(z.get(2 * i + 1, 2 * j), v);
            assert_eq!(z.get(2 * i + 1, 2 * j + 1), v);
        }
    }
}

#[test]
fn zoom_with_jitter_zero_probability_is_exactly_zoom() {
    let g = grid_from_rows(&[&[5, -3, 9], &[0, 7, 2], &[8, 1, -6]]);
    let plain = zoom(&g);
    let mut rng = WorldRng::from_seed(123);
    let jittered = zoom_with_jitter(&g, 0, &mut rng);
    assert_eq!(jittered.side(), plain.side());
    assert_eq!(jittered.cells, plain.cells);
}

#[test]
fn zoom_with_jitter_on_uniform_grid_stays_uniform() {
    let g = grid_from_rows(&[&[4, 4], &[4, 4]]);
    let mut rng = WorldRng::from_seed(9);
    let z = zoom_with_jitter(&g, 100, &mut rng);
    assert_eq!(z.side(), 4);
    for i in 0..4 {
        for j in 0..4 {
            assert_eq!(z.get(i, j), 4);
        }
    }
}

#[test]
fn smooth_map_takes_exact_neighbourhood_means() {
    let g = grid_from_rows(&[&[0, 4], &[8, 12]]);
    let s = smooth_map(&g);
    assert_eq!(s.side(), 2);
    for i in 0..2 {
        for j in 0..2 {
            assert_eq!(s.get(i, j), 6);
        }
    }

    let g3 = grid_from_rows(&[&[1, 2, 3], &[4, 5, 6], &[7, 8, 9]]);
    let s3 = smooth_map(&g3);
    assert_eq!(s3.get(0, 0), (1 + 2 + 4 + 5) / 4);
    assert_eq!(s3.get(1, 1), (1 + 2 + 3 + 4 + 5 + 6 + 7 + 8 + 9) / 9);
    assert_eq!(s3.get(0, 1), (1 + 2 + 3 + 4 + 5 + 6) / 6);
}

#[test]
fn smooth_map_truncates_negative_means_toward_zero() {
    let g = grid_from_rows(&[&[-1, -1], &[-1, -2]]);
    let s = smooth_map(&g);
    for i in 0..2 {
        for j in 0..2 {
            assert_eq!(s.get(i, j), -1);
        }
    }
}

#[test]
fn smooth_map_on_single_cell_is_identity() {
    let g = grid_from_rows(&[&[7]]);
    let s = smooth_map(&g);
    assert_eq!(s.get(0, 0), 7);
}

#[test]
fn map_to_range_hits_the_bounds_exactly() {
    assert_eq!(map_to_range(-UNIT, -10, 30), -10);
    assert_eq!(map_to_range(UNIT, -10, 30), 30);
    assert_eq!(map_to_range(-UNIT, 0, 450), 0);
    assert_eq!(map_to_range(UNIT, 0, 450), 450);
    assert_eq!(map_to_range(0, 0, 100), 50);
}

#[test]
fn map_to_range_stays_inside_the_target_range() {
    for v in [-4096i64, -2048, -1, 0, 1, 777, 4095, 4096] {
        let r = map_to_range(v, 0, 255);
        assert!((0..=255).contains(&r));
    }
}

#[test]
fn div_trunc_rounds_toward_zero() {
    assert_eq!(div_trunc(7, 2), 3);
    assert_eq!(div_trunc(-7, 2), -3);
    assert_eq!(div_trunc(0, 5), 0);
    assert_eq!(div_trunc(-1, 9), 0);
}

#[test]
fn grid_get_returns_what_set_wrote() {
    let mut g: Grid<i64> = Grid::new(3, 0);
    g.set(2, 1, 42);
    assert_eq!(g.get(2, 1), 42);
    assert_eq!(g.get(0, 0), 0);
    assert_eq!(g.side(), 3);
}

#[test]
fn random_draws_respect_their_ranges() {
    let mut rng = WorldRng::from_seed(99);
    assert_eq!(rng.gen_range(5, 6), 5);
    for _ in 0..100 {
        let v = rng.gen_range(3, 10);
        assert!((3..10).contains(&v));
    }
    assert_eq!(rng.pick_index(1), 0);
    for _ in 0..100 {
        assert!(rng.pick_index(4) < 4);
    }
    assert!(!rng.chance(0));
    assert!(rng.chance(100));
}
