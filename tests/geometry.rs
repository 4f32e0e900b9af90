use geojson2svg::config_params::MapExtent;
use geojson2svg::geometry::{layer_coordinates, Coord, Geometry};
use geojson2svg::graticule::{prepare_geojson_graticule, step_by};
use geojson2svg::layer::{get_extent, reproj, reproj_graticule};
use geojson2svg::CoreError;

fn c(x: i32, y: i32) -> Coord {
    Coord { x, y }
}

fn sample_layer() -> Vec<Option<Geometry>> {
    vec![
        Some(Geometry::Point(c(0, 0))),
        None,
        Some(Geometry::LineString(vec![c(10, 5), c(100, 50)])),
        Some(Geometry::MultiPolygon(vec![vec![vec![c(20, 20), c(30, 20), c(30, 30)]], vec![vec![c(40, 40)]]])),
    ]
}

#[test]
fn coordinates_come_in_written_order() {
    assert_eq!(
        layer_coordinates(&sample_layer()),
        vec![c(0, 0), c(10, 5), c(100, 50), c(20, 20), c(30, 20), c(30, 30), c(40, 40)]
    );
}

#[test]
fn extent_is_padded_by_a_tenth() {
    let e = get_extent(&sample_layer()).unwrap();
    assert_eq!(e, MapExtent { left: -10, right: 110, bottom: -5, top: 55 });
}

#[test]
fn extent_of_a_single_point_stays_degenerate() {
    let layer = vec![Some(Geometry::Point(c(5, 5)))];
    let e = get_extent(&layer).unwrap();
    assert_eq!(e, MapExtent { left: 5, right: 5, bottom: 5, top: 5 });
    assert_eq!(e.right - e.left, 0);
    assert_eq!(e.top - e.bottom, 0);
}

#[test]
fn extent_of_nothing_is_refused() {
    assert_eq!(get_extent(&vec![]), Err(CoreError::EmptyInput));
    assert_eq!(get_extent(&vec![None, Some(Geometry::MultiPoint(vec![]))]), Err(CoreError::EmptyInput));
    assert_eq!(
        get_extent(&vec![Some(Geometry::Point(c(1, 1))), Some(Geometry::GeometryCollection)]),
        Err(CoreError::UnsupportedGeometry)
    );
}

#[test]
fn strict_reprojection_keeps_the_shapes() {
    let layer = sample_layer();
    let projected: Vec<Option<Coord>> =
        layer_coordinates(&layer).iter().map(|p| Some(c(p.x * 2, p.y + 1))).collect();
    let out = reproj(&layer, &projected).unwrap();
    assert_eq!(
        out,
        vec![
            Some(Geometry::Point(c(0, 1))),
            None,
            Some(Geometry::LineString(vec![c(20, 6), c(200, 51)])),
            Some(Geometry::MultiPolygon(vec![vec![vec![c(40, 21), c(60, 21), c(60, 31)]], vec![vec![c(80, 41)]]])),
        ]
    );
}

#[test]
fn strict_reprojection_fails_on_one_failure() {
    let layer = sample_layer();
    let mut projected: Vec<Option<Coord>> = layer_coordinates(&layer).into_iter().map(Some).collect();
    projected[4] = None;
    assert_eq!(reproj(&layer, &projected), Err(CoreError::ProjectionFailure));
    assert_eq!(reproj(&layer, &projected[..3].to_vec()), Err(CoreError::InvalidInput));
    assert_eq!(reproj(&vec![Some(Geometry::GeometryCollection)], &vec![]), Err(CoreError::UnsupportedGeometry));
}

#[test]
fn lenient_reprojection_drops_points_and_short_lines() {
    let layer = vec![Some(Geometry::MultiLineString(vec![
        vec![c(0, 0), c(1, 1), c(2, 2)],
        vec![c(3, 3), c(4, 4)],
        vec![c(5, 5), c(6, 6)],
    ]))];
    let projected = vec![Some(c(10, 10)), None, Some(c(12, 12)), Some(c(13, 13)), None, Some(c(15, 15)), Some(c(16, 16))];
    let out = reproj_graticule(&layer, &projected).unwrap();
    assert_eq!(
        out,
        vec![Some(Geometry::MultiLineString(vec![vec![c(10, 10), c(12, 12)], vec![c(15, 15), c(16, 16)]]))]
    );
    assert_eq!(
        reproj_graticule(&vec![Some(Geometry::Point(c(0, 0)))], &vec![Some(c(0, 0))]),
        Err(CoreError::UnsupportedGeometry)
    );
    assert_eq!(reproj_graticule(&layer, &vec![]), Err(CoreError::InvalidInput));
}

#[test]
fn step_by_includes_the_end() {
    assert_eq!(step_by(0, 10, 3), vec![0, 3, 6, 9]);
    assert_eq!(step_by(0, 9, 3), vec![0, 3, 6, 9]);
    assert_eq!(step_by(5, 4, 1), Vec::<i64>::new());
    assert_eq!(step_by(i64::MAX - 1, i64::MAX, 5), vec![i64::MAX - 1]);
}

#[test]
fn graticule_has_meridians_then_parallels() {
    let layer = prepare_geojson_graticule();
    assert_eq!(layer.len(), 1);
    match &layer[0] {
        Some(Geometry::MultiLineString(lines)) => {
            assert_eq!(lines.len(), 37 + 19);
            assert_eq!(lines[0].len(), 19);
            assert_eq!(lines[0][0], c(-1_799_900_000, -899_900_000));
            assert_eq!(lines[0][18], c(-1_799_900_000, 882_100_000));
            assert_eq!(lines[36][0], c(1_764_100_000, -899_900_000));
            assert_eq!(lines[37].len(), 37);
            assert_eq!(lines[37][1], c(-1_700_900_000, -899_900_000));
        }
        _ => panic!("expected a multi-line"),
    }
}

#[test]
fn small_extents_get_a_margin() {
    let layer = vec![Some(Geometry::LineString(vec![c(0, 0), c(1, 1)]))];
    assert_eq!(get_extent(&layer).unwrap(), MapExtent { left: -1, right: 2, bottom: -1, top: 2 });
    let layer = vec![Some(Geometry::LineString(vec![c(0, 0), c(11, 0)]))];
    assert_eq!(get_extent(&layer).unwrap(), MapExtent { left: -2, right: 13, bottom: 0, top: 0 });
}
