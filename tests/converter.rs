use geojson2svg::config_params::MapExtent;
use geojson2svg::converter::{Converter, PathCommand, PathData, Shape, ViewPoint};
use geojson2svg::geometry::{Coord, Geometry};
use geojson2svg::CoreError;

fn c(x: i32, y: i32) -> Coord {
    Coord { x, y }
}

fn extent() -> MapExtent {
    MapExtent { left: 0, right: 100, bottom: 0, top: 50 }
}

fn pixel(conv: &Converter, p: ViewPoint) -> (f64, f64) {
    (p.x as f64 / conv.resolution_num as f64, p.y as f64 / conv.resolution_num as f64)
}

#[test]
fn resolution_takes_the_larger_scale() {
    let conv = Converter::new(200, 50, extent()).unwrap();
    // 100 / 200 per pixel across, 50 / 50 down: the height decides.
    assert_eq!((conv.resolution_num, conv.resolution_den), (50, 50));
    let conv = Converter::new(100, 100, extent()).unwrap();
    assert_eq!((conv.resolution_num, conv.resolution_den), (100, 100));
}

#[test]
fn corners_map_to_the_viewport_corners() {
    let conv = Converter::new(200, 100, extent()).unwrap();
    assert_eq!(pixel(&conv, conv.draw_point(&c(0, 50))), (0.0, 0.0));
    assert_eq!(pixel(&conv, conv.draw_point(&c(100, 0))), (200.0, 100.0));
    assert_eq!(pixel(&conv, conv.draw_point(&c(25, 40))), (50.0, 20.0));
}

#[test]
fn degenerate_viewports_are_refused() {
    assert!(Converter::new(0, 100, extent()).is_none());
    assert!(Converter::new(100, 0, extent()).is_none());
    assert!(Converter::new(100, 100, MapExtent { left: 5, right: 5, bottom: 5, top: 5 }).is_none());
    assert!(Converter::new(100, 100, MapExtent { left: 0, right: 10, bottom: 5, top: 5 }).is_some());
}

fn ring() -> Vec<Coord> {
    vec![c(0, 50), c(100, 50), c(100, 0)]
}

#[test]
fn polygon_path_is_closed_and_line_path_open() {
    let conv = Converter::new(100, 50, extent()).unwrap();
    let polygon = conv.draw_geometry(&Geometry::Polygon(vec![ring()])).unwrap();
    let line = conv.draw_geometry(&Geometry::LineString(ring())).unwrap();
    let moves = vec![
        PathCommand::MoveTo(ViewPoint { x: 0, y: 0 }),
        PathCommand::LineTo(ViewPoint { x: 10000, y: 0 }),
        PathCommand::LineTo(ViewPoint { x: 10000, y: 5000 }),
    ];
    let mut closed = moves.clone();
    closed.push(PathCommand::Close);
    assert_eq!(polygon, vec![Shape::Area(PathData { commands: closed })]);
    assert_eq!(line, vec![Shape::Line(PathData { commands: moves })]);
}

#[test]
fn continued_paths_are_left_open() {
    let conv = Converter::new(100, 50, extent()).unwrap();
    let first = conv.draw_path_ring(&vec![vec![c(0, 50)]], Some(PathData { commands: vec![] }));
    let both = conv.draw_path_ring(&vec![vec![c(100, 0), c(0, 0)]], Some(first));
    assert_eq!(
        both.commands,
        vec![
            PathCommand::MoveTo(ViewPoint { x: 0, y: 0 }),
            PathCommand::MoveTo(ViewPoint { x: 10000, y: 5000 }),
            PathCommand::LineTo(ViewPoint { x: 0, y: 5000 }),
        ]
    );
    let closed = conv.draw_path_ring(&vec![vec![c(0, 50)], vec![]], None);
    assert_eq!(closed.commands, vec![PathCommand::MoveTo(ViewPoint { x: 0, y: 0 }), PathCommand::Close]);
}

#[test]
fn geometries_are_drawn_by_kind() {
    let conv = Converter::new(100, 50, extent()).unwrap();
    assert_eq!(
        conv.draw_geometry(&Geometry::MultiPoint(vec![c(0, 50), c(50, 25)])).unwrap(),
        vec![Shape::Circle(ViewPoint { x: 0, y: 0 }), Shape::Circle(ViewPoint { x: 5000, y: 2500 })]
    );
    let multi = conv
        .draw_geometry(&Geometry::MultiPolygon(vec![vec![vec![c(0, 50), c(10, 50)]], vec![vec![c(0, 0)]]]))
        .unwrap();
    assert_eq!(
        multi,
        vec![Shape::Area(PathData {
            commands: vec![
                PathCommand::MoveTo(ViewPoint { x: 0, y: 0 }),
                PathCommand::LineTo(ViewPoint { x: 1000, y: 0 }),
                PathCommand::MoveTo(ViewPoint { x: 0, y: 5000 }),
                PathCommand::Close,
            ]
        })]
    );
    let lines = conv.draw_geometry(&Geometry::MultiLineString(vec![vec![c(0, 50)], vec![c(0, 0)]])).unwrap();
    assert_eq!(
        lines,
        vec![Shape::Line(PathData {
            commands: vec![
                PathCommand::MoveTo(ViewPoint { x: 0, y: 0 }),
                PathCommand::MoveTo(ViewPoint { x: 0, y: 5000 }),
            ]
        })]
    );
    assert_eq!(conv.draw_geometry(&Geometry::GeometryCollection), Err(CoreError::UnsupportedGeometry));
}
