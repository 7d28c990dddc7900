use worldgen::grid::Grid;
use worldgen::land::LandCode;
use worldgen::river::create_rivers;
use worldgen::river::filter_points;
use worldgen::river::find_path;
use worldgen::river::find_river_end;
use worldgen::river::find_river_starting_points;
use worldgen::rng::WorldRng;

fn field_from_rows(rows: &[&[i64]]) -> Grid<i64> {
    let size = rows.len();
    let mut g: Grid<i64> = Grid::new(size, 0);
    for (i, row) in rows.iter().enumerate() {
        assert_eq!(row.len(), size);
        for (j, v) in row.iter().enumerate() {
            g.set(i, j, *v);
        }
    }
    g
}

#[test]
fn starting_points_are_exactly_the_high_wet_cells() {
    let height = field_from_rows(&[&[200, 100, 160], &[151, 150, 200], &[90, 180, 155]]);
    let rain = field_from_rows(&[&[250, 250, 150], &[201, 300, 300], &[300, 200, 201]]);
    let pts = find_river_starting_points(&height, &rain);
    assert_eq!(pts, vec![(0, 0), (1, 0), (1, 2), (2, 2)]);
}

#[test]
fn filter_points_keeps_points_far_apart() {
    let points = vec![(0usize, 0usize), (1, 1), (10, 10), (0, 9)];
    let kept = filter_points(&points, 2, 16);
    assert_eq!(kept, vec![(0, 0), (10, 10), (0, 9)]);
    for a in 0..kept.len() {
        for b in (a + 1)..kept.len() {
            let dx = (kept[a].0 as i64 - kept[b].0 as i64).abs();
            let dy = (kept[a].1 as i64 - kept[b].1 as i64).abs();
            assert!(dx > 2 || dy > 2);
        }
    }
}

#[test]
fn filter_points_covers_every_input_point() {
    let points = vec![(3usize, 3usize), (4, 4), (5, 5), (3, 4), (12, 3)];
    let d = 3usize;
    let kept = filter_points(&points, d, 16);
    for p in &points {
        let covered = kept.iter().any(|q| {
            let dx = (p.0 as i64 - q.0 as i64).abs();
            let dy = (p.1 as i64 - q.1 as i64).abs();
            dx <= d as i64 && dy <= d as i64
        });
        assert!(covered, "point {:?} lost without a nearby kept point", p);
    }
}

#[test]
fn find_river_end_reaches_the_only_ocean_cell() {
    let height = field_from_rows(&[
        &[100, 100, 100, 100],
        &[100, 100, 100, 100],
        &[100, 100, 100, 100],
        &[100, 100, 100, 100],
    ]);
    let mut land: Grid<LandCode> = Grid::new(4, LandCode::Land);
    land.set(3, 3, LandCode::Ocean);
    let end = find_river_end((0, 0), &height, &land);
    assert_eq!(end, Some((3, 3)));
}

#[test]
fn find_river_end_accepts_a_low_cell_as_sink() {
    let mut height = field_from_rows(&[&[100, 100, 100], &[100, 100, 100], &[100, 100, 100]]);
    height.set(2, 2, 10);
    let land: Grid<LandCode> = Grid::new(3, LandCode::Land);
    let end = find_river_end((0, 0), &height, &land);
    assert_eq!(end, Some((2, 2)));
}

#[test]
fn find_river_end_prefers_the_nearest_sink() {
    let height = field_from_rows(&[
        &[100, 100, 100, 100, 100],
        &[100, 100, 100, 100, 100],
        &[100, 100, 100, 100, 100],
        &[100, 100, 100, 100, 100],
        &[100, 100, 100, 100, 100],
    ]);
    let mut land: Grid<LandCode> = Grid::new(5, LandCode::Land);
    land.set(0, 2, LandCode::Ocean);
    land.set(4, 4, LandCode::Ocean);
    // (0, 2) lies two hops from the start, (4, 4) eight: the nearer one wins.
    assert_eq!(find_river_end((0, 0), &height, &land), Some((0, 2)));
}

#[test]
fn find_river_end_returns_none_without_a_sink() {
    let height = field_from_rows(&[&[100, 100], &[100, 100]]);
    let land: Grid<LandCode> = Grid::new(2, LandCode::Land);
    assert_eq!(find_river_end((0, 0), &height, &land), None);
}

#[test]
fn find_path_courses_never_rise() {
    let height = field_from_rows(&[
        &[100, 100, 100, 100],
        &[97, 97, 97, 97],
        &[94, 94, 94, 94],
        &[91, 91, 91, 91],
    ]);
    for seed in 0..10u64 {
        let mut rng = WorldRng::from_seed(seed);
        let path = find_path((0, 0), (3, 3), &height, &mut rng);
        let path = path.expect("a descending course exists");
        assert_eq!(path[0], (0, 0));
        assert_eq!(*path.last().unwrap(), (3, 3));
        for w in path.windows(2) {
            let (a, b) = (w[0], w[1]);
            let manhattan = (a.0 as i64 - b.0 as i64).abs() + (a.1 as i64 - b.1 as i64).abs();
            assert_eq!(manhattan, 1);
            assert!(height.get(b.0, b.1) <= height.get(a.0, a.1));
        }
    }
}

#[test]
fn find_path_fails_when_every_route_climbs() {
    let height = field_from_rows(&[&[0, 0, 0], &[1, 1, 1], &[2, 2, 2]]);
    let mut rng = WorldRng::from_seed(7);
    assert_eq!(find_path((0, 0), (2, 0), &height, &mut rng), None);
}

#[test]
fn find_path_to_the_start_itself_is_the_single_cell() {
    let height = field_from_rows(&[&[5, 5], &[5, 5]]);
    let mut rng = WorldRng::from_seed(8);
    let path = find_path((1, 0), (1, 0), &height, &mut rng).expect("trivial course");
    assert_eq!(path, vec![(1, 0)]);
}

#[test]
fn create_rivers_only_ever_carves_water() {
    let height = field_from_rows(&[
        &[200, 160, 160, 160, 160],
        &[190, 160, 160, 160, 160],
        &[180, 160, 160, 160, 160],
        &[170, 160, 160, 160, 160],
        &[160, 160, 160, 160, 160],
    ]);
    let rain = field_from_rows(&[
        &[250, 100, 100, 100, 100],
        &[100, 100, 100, 100, 100],
        &[100, 100, 100, 100, 100],
        &[100, 100, 100, 100, 100],
        &[100, 100, 100, 100, 100],
    ]);
    let mut land: Grid<LandCode> = Grid::new(5, LandCode::Land);
    land.set(4, 0, LandCode::Ocean);
    let before = Grid { size: land.size, cells: land.cells.clone() };
    let mut rng = WorldRng::from_seed(12);
    let rivers = create_rivers(&height, &rain, &mut land, 2, &mut rng);
    for i in 0..5 {
        for j in 0..5 {
            let was = before.get(i, j);
            let now = land.get(i, j);
            assert!(now == was || now == LandCode::Ocean);
        }
    }
    // The single kept source at (0, 0) has a strictly descending column down
    // to the only sink, the ocean cell at (4, 0): its record holds that sink
    // and a carved course between the two.
    assert_eq!(rivers.len(), 1);
    assert_eq!(rivers[0].start_point, (0, 0));
    assert_eq!(rivers[0].end_point, Some((4, 0)));
    let course = rivers[0].course.as_ref().expect("a descending course exists");
    assert_eq!(course[0], (0, 0));
    assert_eq!(*course.last().unwrap(), (4, 0));
    for cell in course {
        assert_eq!(land.get(cell.0, cell.1), LandCode::Ocean);
    }
    assert_eq!(land.get(0, 0), LandCode::Ocean);
}
