use vstd::prelude::*;

use crate::config_params::MapExtent;
use crate::geometry::{Coord, Geometry};
use crate::CoreError;

verus! {

/// A position in the viewport, whose origin is its top-left corner. Each coordinate is
/// held as a multiple of `1 / resolution_num` pixel of the converter that made it.
#[derive(PartialEq, Eq, Structural, Debug, Clone, Copy)]
pub struct ViewPoint {
    pub x: i128,
    pub y: i128,
}

/// One command of a drawing path.
#[derive(PartialEq, Eq, Structural, Debug, Clone, Copy)]
pub enum PathCommand {
    MoveTo(ViewPoint),
    LineTo(ViewPoint),
    Close,
}

/// The commands of a drawing path, in order.
#[derive(Debug, Clone, PartialEq)]
pub struct PathData {
    pub commands: Vec<PathCommand>,
}

/// What a geometry is drawn as.
#[derive(Debug, Clone, PartialEq)]
pub enum Shape {
    /// A point, drawn as a circle centred on it.
    Circle(ViewPoint),
    /// Lines, drawn as an open path.
    Line(PathData),
    /// Polygons, drawn as a closed path.
    Area(PathData),
}

/// The resolution, in output units per pixel, of a viewport of `w` by `h` pixels showing
/// `e`, as a fraction `(numerator, denominator)`: the larger of the two axis scales, so
/// that the whole extent fits without distortion.
pub open spec fn resolution_of(w: int, h: int, e: MapExtent) -> (int, int) {
    let dx = e.right - e.left;
    let dy = e.top - e.bottom;
    if dx * h >= dy * w {
        (dx, w)
    } else {
        (dy, h)
    }
}

/// A viewport can show `e`: it has pixels, and the extent is not a single point.
pub open spec fn convertible(w: int, h: int, e: MapExtent) -> bool {
    w > 0 && h > 0 && resolution_of(w, h, e).0 > 0
}

/// Maps projected positions to viewport positions, at one resolution for a whole render.
pub struct Converter {
    pub viewport_width: u32,
    pub viewport_height: u32,
    pub map_extent: MapExtent,
    /// Numerator of the resolution, in output units.
    pub resolution_num: i128,
    /// Denominator of the resolution, in pixels.
    pub resolution_den: i128,
}

/// The commands that draw one ring: a move to its first position, then a line to each
/// following one. An empty ring draws nothing.
pub open spec fn ring_commands(c: Converter, ring: Seq<Coord>) -> Seq<PathCommand> {
    Seq::new(
        ring.len(),
        |i: int|
            if i == 0 {
                PathCommand::MoveTo(c.project(ring[i]))
            } else {
                PathCommand::LineTo(c.project(ring[i]))
            },
    )
}

/// The commands that draw a sequence of rings, one after the other.
pub open spec fn rings_commands(c: Converter, rs: Seq<Vec<Coord>>) -> Seq<PathCommand>
    decreases rs.len(),
{
    if rs.len() == 0 {
        Seq::empty()
    } else {
        rings_commands(c, rs.drop_last()) + ring_commands(c, rs.last()@)
    }
}

/// The commands that draw a sequence of polygons, one after the other.
pub open spec fn polygons_commands(c: Converter, ps: Seq<Vec<Vec<Coord>>>) -> Seq<PathCommand>
    decreases ps.len(),
{
    if ps.len() == 0 {
        Seq::empty()
    } else {
        polygons_commands(c, ps.drop_last()) + rings_commands(c, ps.last()@)
    }
}

/// `v` is the drawing of the geometry `g`: a circle per point, one open path for the
/// lines of a line geometry, one closed path for the rings of a polygon geometry.
pub open spec fn shapes_of(c: Converter, g: Geometry, v: Seq<Shape>) -> bool {
    match g {
        Geometry::Point(p) => v == seq![Shape::Circle(c.project(p))],
        Geometry::MultiPoint(ps) => {
            &&& v.len() == ps@.len()
            &&& forall|i: int| 0 <= i < v.len() ==> #[trigger] v[i] == Shape::Circle(c.project(ps@[i]))
        },
        Geometry::LineString(ps) => v.len() == 1 && (v[0] matches Shape::Line(d) && d.commands@
            == ring_commands(c, ps@)),
        Geometry::MultiLineString(rs) => v.len() == 1 && (v[0] matches Shape::Line(d)
            && d.commands@ == rings_commands(c, rs@)),
        Geometry::Polygon(rs) => v.len() == 1 && (v[0] matches Shape::Area(d) && d.commands@
            == rings_commands(c, rs@).push(PathCommand::Close)),
        Geometry::MultiPolygon(ps) => v.len() == 1 && (v[0] matches Shape::Area(d)
            && d.commands@ == polygons_commands(c, ps@).push(PathCommand::Close)),
        Geometry::GeometryCollection => false,
    }
}

impl Converter {
    /// The viewport abscissa of the output abscissa `x`.
    pub open spec fn view_x(self, x: int) -> int {
        (x - self.map_extent.left) * self.resolution_den
    }

    /// The viewport ordinate of the output ordinate `y`; it grows downwards.
    pub open spec fn view_y(self, y: int) -> int {
        (self.map_extent.top - y) * self.resolution_den
    }

    pub open spec fn project(self, p: Coord) -> ViewPoint {
        ViewPoint { x: self.view_x(p.x as int) as i128, y: self.view_y(p.y as int) as i128 }
    }

    /// The resolution is that of the viewport showing the extent.
    pub open spec fn wf(self) -> bool {
        &&& convertible(self.viewport_width as int, self.viewport_height as int, self.map_extent)
        &&& (self.resolution_num as int, self.resolution_den as int) == resolution_of(
            self.viewport_width as int,
            self.viewport_height as int,
            self.map_extent,
        )
    }

    /// A converter for a viewport of `viewport_width` by `viewport_height` pixels
    /// showing `map_extent`; `None` when the viewport has no pixels or the extent is a
    /// single point.
    pub fn new(viewport_width: u32, viewport_height: u32, map_extent: MapExtent) -> (r: Option<Converter>)
        ensures
            match r {
                Some(c) => {
                    &&& c.wf()
                    &&& c.viewport_width == viewport_width
                    &&& c.viewport_height == viewport_height
                    &&& c.map_extent == map_extent
                },
                None => !convertible(viewport_width as int, viewport_height as int, map_extent),
            },
    {
        if viewport_width == 0 || viewport_height == 0 {
            return None;
        }
        let dx: i128 = map_extent.right as i128 - map_extent.left as i128;
        let dy: i128 = map_extent.top as i128 - map_extent.bottom as i128;
        proof {
            assert(-0x1_0000_0000_0000_0000 * 0x1_0000_0000 <= dx * viewport_height <= 0x1_0000_0000_0000_0000 * 0x1_0000_0000) by (nonlinear_arith)
                requires
                    -0x1_0000_0000_0000_0000 <= dx <= 0x1_0000_0000_0000_0000,
                    0 <= viewport_height <= 0x1_0000_0000,
            ;
            assert(-0x1_0000_0000_0000_0000 * 0x1_0000_0000 <= dy * viewport_width <= 0x1_0000_0000_0000_0000 * 0x1_0000_0000) by (nonlinear_arith)
                requires
                    -0x1_0000_0000_0000_0000 <= dy <= 0x1_0000_0000_0000_0000,
                    0 <= viewport_width <= 0x1_0000_0000,
            ;
        }
        let (num, den): (i128, i128) = if dx * (viewport_height as i128) >= dy * (viewport_width as i128) {
            (dx, viewport_width as i128)
        } else {
            (dy, viewport_height as i128)
        };
        if num <= 0 {
            return None;
        }
        Some(
            Converter {
                viewport_width,
                viewport_height,
                map_extent,
                resolution_num: num,
                resolution_den: den,
            },
        )
    }

    /// The viewport position of `point`.
    pub fn draw_point(&self, point: &Coord) -> (r: ViewPoint)
        requires
            self.wf(),
        ensures
            r == self.project(*point),
            r.x == self.view_x(point.x as int),
            r.y == self.view_y(point.y as int),
    {
        let den = self.resolution_den;
        let dx: i128 = point.x as i128 - self.map_extent.left as i128;
        let dy: i128 = self.map_extent.top as i128 - point.y as i128;
        proof {
            assert(0 < den <= 0x1_0000_0000);
            assert(-0x1_0000_0000_0000_0000 * 0x1_0000_0000 <= dx * den <= 0x1_0000_0000_0000_0000 * 0x1_0000_0000) by (nonlinear_arith)
                requires
                    -0x1_0000_0000_0000_0000 <= dx <= 0x1_0000_0000_0000_0000,
                    0 < den <= 0x1_0000_0000,
            ;
            assert(-0x1_0000_0000_0000_0000 * 0x1_0000_0000 <= dy * den <= 0x1_0000_0000_0000_0000 * 0x1_0000_0000) by (nonlinear_arith)
                requires
                    -0x1_0000_0000_0000_0000 <= dy <= 0x1_0000_0000_0000_0000,
                    0 < den <= 0x1_0000_0000,
            ;
        }
        ViewPoint { x: dx * den, y: dy * den }
    }

    /// Appends the commands that draw `ring` to `data`.
    fn append_ring(&self, data: &mut Vec<PathCommand>, ring: &Vec<Coord>)
        requires
            self.wf(),
        ensures
            final(data)@ == old(data)@ + ring_commands(*self, ring@),
    {
        let ghost start = data@;
        let mut i: usize = 0;
        while i < ring.len()
            invariant
                self.wf(),
                0 <= i <= ring.len(),
                data@ == start + ring_commands(*self, ring@.take(i as int)),
            decreases ring.len() - i,
        {
            let p = self.draw_point(&ring[i]);
            if i == 0 {
                data.push(PathCommand::MoveTo(p));
            } else {
                data.push(PathCommand::LineTo(p));
            }
            i += 1;
            assert(data@ =~= start + ring_commands(*self, ring@.take(i as int)));
        }
        assert(ring@.take(ring.len() as int) =~= ring@);
    }

    /// Appends the commands that draw each of `rings` to `data`.
    fn append_rings(&self, data: &mut Vec<PathCommand>, rings: &Vec<Vec<Coord>>)
        requires
            self.wf(),
        ensures
            final(data)@ == old(data)@ + rings_commands(*self, rings@),
    {
        let ghost start = data@;
        let mut i: usize = 0;
        while i < rings.len()
            invariant
                self.wf(),
                0 <= i <= rings.len(),
                data@ == start + rings_commands(*self, rings@.take(i as int)),
            decreases rings.len() - i,
        {
            self.append_ring(data, &rings[i]);
            proof {
                assert(rings@.take(i + 1).drop_last() =~= rings@.take(i as int));
            }
            i += 1;
            assert(data@ =~= start + rings_commands(*self, rings@.take(i as int)));
        }
        assert(rings@.take(rings.len() as int) =~= rings@);
    }

    /// Draws `positions`, ring after ring. Without a path to continue, the path is
    /// closed at the end; a path handed in is continued and left open, for its caller
    /// to close or not.
    pub fn draw_path_ring(&self, positions: &Vec<Vec<Coord>>, d: Option<PathData>) -> (r: PathData)
        requires
            self.wf(),
        ensures
            r.commands@ == match d {
                Some(p) => p.commands@ + rings_commands(*self, positions@),
                None => rings_commands(*self, positions@).push(PathCommand::Close),
            },
    {
        match d {
            Some(p) => {
                let mut data = p.commands;
                self.append_rings(&mut data, positions);
                PathData { commands: data }
            },
            None => {
                let mut data: Vec<PathCommand> = Vec::new();
                self.append_rings(&mut data, positions);
                assert(Seq::<PathCommand>::empty() + rings_commands(*self, positions@) =~= rings_commands(*self, positions@));
                data.push(PathCommand::Close);
                PathData { commands: data }
            },
        }
    }

    /// The shapes that draw `geometry`; a geometry collection is refused.
    pub fn draw_geometry(&self, geometry: &Geometry) -> (r: Result<Vec<Shape>, CoreError>)
        requires
            self.wf(),
        ensures
            match r {
                Ok(v) => shapes_of(*self, *geometry, v@),
                Err(e) => geometry is GeometryCollection && e == CoreError::UnsupportedGeometry,
            },
    {
        match geometry {
            Geometry::Point(p) => {
                let mut v: Vec<Shape> = Vec::new();
                v.push(Shape::Circle(self.draw_point(p)));
                assert(v@ =~= seq![Shape::Circle(self.project(*p))]);
                Ok(v)
            },
            Geometry::MultiPoint(ps) => {
                let mut v: Vec<Shape> = Vec::new();
                let mut i: usize = 0;
                while i < ps.len()
                    invariant
                        self.wf(),
                        0 <= i <= ps.len(),
                        v@.len() == i,
                        forall|k: int| 0 <= k < i ==> #[trigger] v@[k] == Shape::Circle(self.project(ps@[k])),
                    decreases ps.len() - i,
                {
                    v.push(Shape::Circle(self.draw_point(&ps[i])));
                    i += 1;
                }
                Ok(v)
            },
            Geometry::LineString(ps) => {
                let mut data: Vec<PathCommand> = Vec::new();
                self.append_ring(&mut data, ps);
                assert(Seq::<PathCommand>::empty() + ring_commands(*self, ps@) =~= ring_commands(*self, ps@));
                let mut v: Vec<Shape> = Vec::new();
                v.push(Shape::Line(PathData { commands: data }));
                Ok(v)
            },
            Geometry::MultiLineString(rs) => {
                let data = self.draw_path_ring(rs, Some(PathData { commands: Vec::new() }));
                assert(Seq::<PathCommand>::empty() + rings_commands(*self, rs@) =~= rings_commands(*self, rs@));
                let mut v: Vec<Shape> = Vec::new();
                v.push(Shape::Line(data));
                Ok(v)
            },
            Geometry::Polygon(rs) => {
                let data = self.draw_path_ring(rs, None);
                let mut v: Vec<Shape> = Vec::new();
                v.push(Shape::Area(data));
                Ok(v)
            },
            Geometry::MultiPolygon(ps) => {
                let mut data = PathData { commands: Vec::new() };
                let mut i: usize = 0;
                while i < ps.len()
                    invariant
                        self.wf(),
                        0 <= i <= ps.len(),
                        data.commands@ == polygons_commands(*self, ps@.take(i as int)),
                    decreases ps.len() - i,
                {
                    proof {
                        assert(ps@.take(i + 1).drop_last() =~= ps@.take(i as int));
                    }
                    data = self.draw_path_ring(&ps[i], Some(data));
                    i += 1;
                }
                assert(ps@.take(ps.len() as int) =~= ps@);
                let mut commands = data.commands;
                commands.push(PathCommand::Close);
                let mut v: Vec<Shape> = Vec::new();
                v.push(Shape::Area(PathData { commands }));
                Ok(v)
            },
            Geometry::GeometryCollection => Err(CoreError::UnsupportedGeometry),
        }
    }
}

/// The top-left corner of the extent is the viewport origin. The bottom-right corner
/// falls inside the viewport (a coordinate of `k * resolution_num` is `k` pixels): on its
/// right edge when the width sets the resolution, on its bottom edge otherwise.
pub proof fn lemma_viewport_corners(c: Converter)
    requires
        c.wf(),
        c.map_extent.left <= c.map_extent.right,
        c.map_extent.bottom <= c.map_extent.top,
    ensures
        c.view_x(c.map_extent.left as int) == 0,
        c.view_y(c.map_extent.top as int) == 0,
        0 <= c.view_x(c.map_extent.right as int) <= c.viewport_width * c.resolution_num,
        0 <= c.view_y(c.map_extent.bottom as int) <= c.viewport_height * c.resolution_num,
        c.view_x(c.map_extent.right as int) == c.viewport_width * c.resolution_num
            || c.view_y(c.map_extent.bottom as int) == c.viewport_height * c.resolution_num,
{
    let w = c.viewport_width as int;
    let h = c.viewport_height as int;
    let dx = c.map_extent.right - c.map_extent.left;
    let dy = c.map_extent.top - c.map_extent.bottom;
    assert(c.view_x(c.map_extent.right as int) == dx * c.resolution_den);
    assert(c.view_y(c.map_extent.bottom as int) == dy * c.resolution_den);
    if dx * h >= dy * w {
        assert(dx * w <= w * dx) by (nonlinear_arith);
        assert(0 <= dy * w <= h * dx) by (nonlinear_arith)
            requires
                dx * h >= dy * w,
                dy >= 0,
                w > 0,
        ;
    } else {
        assert(dy * h == h * dy) by (nonlinear_arith);
        assert(0 <= dx * h <= w * dy) by (nonlinear_arith)
            requires
                dx * h < dy * w,
                dx >= 0,
                h > 0,
        ;
    }
}

proof fn lemma_ring_commands_open(c: Converter, ring: Seq<Coord>)
    ensures
        forall|i: int| 0 <= i < ring_commands(c, ring).len() ==> !(#[trigger] ring_commands(c, ring)[i] is Close),
{
}

/// A polygon of a single ring is drawn as a closed path, and a line string through the
/// same positions as the same moves and lines left open.
pub proof fn lemma_polygon_closed_line_open(
    c: Converter,
    ring: Vec<Coord>,
    rings: Vec<Vec<Coord>>,
    polygon: Seq<Shape>,
    line: Seq<Shape>,
)
    requires
        rings@.len() == 1,
        rings@[0]@ == ring@,
        shapes_of(c, Geometry::Polygon(rings), polygon),
        shapes_of(c, Geometry::LineString(ring), line),
    ensures
        polygon[0] matches Shape::Area(d) && d.commands@.last() is Close,
        line[0] matches Shape::Line(d) && forall|i: int| 0 <= i < d.commands@.len() ==> !(#[trigger] d.commands@[i] is Close),
        polygon[0] matches Shape::Area(dp) && line[0] matches Shape::Line(dl) && dp.commands@ == dl.commands@.push(PathCommand::Close),
{
    assert(rings@.drop_last().len() == 0);
    assert(rings_commands(c, rings@.drop_last()) == Seq::<PathCommand>::empty());
    assert(rings_commands(c, rings@) =~= ring_commands(c, ring@));
    lemma_ring_commands_open(c, ring@);
}

} // verus!
