use worldgen::grid::Grid;
use worldgen::land::LandCode;
use worldgen::map::MapError;
use worldgen::map::WorldMap;
use worldgen::map::generate_map;

#[test]
fn generation_rejects_a_zero_size() {
    assert_eq!(generate_map(0, Some(1)).err(), Some(MapError::SizeZero));
    assert_eq!(WorldMap::new(0, None).err(), Some(MapError::SizeZero));
}

#[test]
fn generation_rejects_an_oversized_request() {
    assert_eq!(generate_map(129, Some(1)).err(), Some(MapError::SizeTooLarge));
    assert_eq!(WorldMap::new(100_000, Some(1)).err(), Some(MapError::SizeTooLarge));
}

#[test]
fn a_small_map_comes_out_at_the_final_resolution() {
    let map = WorldMap::new(1, Some(7)).expect("size 1 is accepted");
    assert_eq!(map.land_map.side(), 256);
    assert_eq!(map.height_map.side(), 256);
    assert_eq!(map.temperature_map.side(), 256);
    assert_eq!(map.rainfall_map.side(), 256);
    assert_eq!(map.board_size(), 256 * 256);
}

#[test]
fn generated_fields_stay_inside_their_domains() {
    let map = generate_map(4, Some(42)).expect("size 4 is accepted");
    let side = map.land_map.side();
    assert!(side >= 4);
    assert_eq!(side, 1024);
    for i in 0..side {
        for j in 0..side {
            let code = map.land_map.get(i, j).code();
            assert!(code == 1 || code == 0 || code == 2 || code == -1);
            let h = map.height_map.get(i, j);
            assert!((0..=255).contains(&h), "height out of range: {}", h);
            let t = map.temperature_map.get(i, j);
            assert!((-10..=30).contains(&t), "temperature out of range: {}", t);
            let r = map.rainfall_map.get(i, j);
            assert!((0..=450).contains(&r), "rainfall out of range: {}", r);
        }
    }
}

fn land_cells(g: &Grid<LandCode>) -> Vec<i32> {
    let side = g.side();
    let mut out = Vec::with_capacity(side * side);
    for i in 0..side {
        for j in 0..side {
            out.push(g.get(i, j).code());
        }
    }
    out
}

fn field_cells(g: &Grid<i64>) -> Vec<i64> {
    let side = g.side();
    let mut out = Vec::with_capacity(side * side);
    for i in 0..side {
        for j in 0..side {
            out.push(g.get(i, j));
        }
    }
    out
}

#[test]
fn the_same_seed_reproduces_the_same_map() {
    let a = generate_map(4, Some(42)).expect("size 4 is accepted");
    let b = generate_map(4, Some(42)).expect("size 4 is accepted");
    assert_eq!(land_cells(&a.land_map), land_cells(&b.land_map));
    assert_eq!(field_cells(&a.height_map), field_cells(&b.height_map));
    assert_eq!(field_cells(&a.temperature_map), field_cells(&b.temperature_map));
    assert_eq!(field_cells(&a.rainfall_map), field_cells(&b.rainfall_map));
}
