use vstd::prelude::*;

verus! {

/// Geographic coordinates are held in units of this fraction of a degree.
pub const UNITS_PER_DEGREE: i32 = 10000000;

/// A position: geographic (longitude, latitude) or projected (x, y), in fixed-point units.
#[derive(PartialEq, Eq, Structural, Debug, Clone, Copy)]
pub struct Coord {
    pub x: i32,
    pub y: i32,
}

/// The geometry of a feature. Rings are not required to be closed.
#[derive(Debug, Clone, PartialEq)]
pub enum Geometry {
    Point(Coord),
    MultiPoint(Vec<Coord>),
    LineString(Vec<Coord>),
    MultiLineString(Vec<Vec<Coord>>),
    Polygon(Vec<Vec<Coord>>),
    MultiPolygon(Vec<Vec<Vec<Coord>>>),
    /// A collection of geometries, which the core does not handle.
    GeometryCollection,
}

/// The positions of a sequence of lines or rings, one after the other.
pub open spec fn flatten(rs: Seq<Vec<Coord>>) -> Seq<Coord>
    decreases rs.len(),
{
    if rs.len() == 0 {
        Seq::empty()
    } else {
        flatten(rs.drop_last()) + rs.last()@
    }
}

/// The positions of a sequence of polygons, one after the other.
pub open spec fn flatten_polygons(ps: Seq<Vec<Vec<Coord>>>) -> Seq<Coord>
    decreases ps.len(),
{
    if ps.len() == 0 {
        Seq::empty()
    } else {
        flatten_polygons(ps.drop_last()) + flatten(ps.last()@)
    }
}

/// The positions of a geometry in the order in which they are written.
pub open spec fn geometry_coords(g: Geometry) -> Seq<Coord> {
    match g {
        Geometry::Point(c) => seq![c],
        Geometry::MultiPoint(v) => v@,
        Geometry::LineString(v) => v@,
        Geometry::MultiLineString(r) => flatten(r@),
        Geometry::Polygon(r) => flatten(r@),
        Geometry::MultiPolygon(p) => flatten_polygons(p@),
        Geometry::GeometryCollection => Seq::empty(),
    }
}

/// The positions of a layer of features, feature after feature; a feature without
/// geometry has none.
pub open spec fn layer_coords(layer: Seq<Option<Geometry>>) -> Seq<Coord>
    decreases layer.len(),
{
    if layer.len() == 0 {
        Seq::empty()
    } else {
        layer_coords(layer.drop_last()) + match layer.last() {
            Some(g) => geometry_coords(g),
            None => Seq::empty(),
        }
    }
}

pub open spec fn is_collection(g: Option<Geometry>) -> bool {
    g matches Some(Geometry::GeometryCollection)
}

/// Some feature of the layer holds a geometry collection.
pub open spec fn has_collection(layer: Seq<Option<Geometry>>) -> bool {
    exists|i: int| 0 <= i < layer.len() && is_collection(#[trigger] layer[i])
}

fn push_all(dst: &mut Vec<Coord>, src: &Vec<Coord>)
    ensures
        final(dst)@ == old(dst)@ + src@,
{
    let ghost start = dst@;
    let mut i: usize = 0;
    while i < src.len()
        invariant
            0 <= i <= src.len(),
            dst@ == start + src@.take(i as int),
        decreases src.len() - i,
    {
        dst.push(src[i]);
        i += 1;
        assert(dst@ =~= start + src@.take(i as int));
    }
    assert(src@.take(src.len() as int) =~= src@);
}

fn push_rings(dst: &mut Vec<Coord>, rs: &Vec<Vec<Coord>>)
    ensures
        final(dst)@ == old(dst)@ + flatten(rs@),
{
    let ghost start = dst@;
    let mut i: usize = 0;
    while i < rs.len()
        invariant
            0 <= i <= rs.len(),
            dst@ == start + flatten(rs@.take(i as int)),
        decreases rs.len() - i,
    {
        push_all(dst, &rs[i]);
        proof {
            assert(rs@.take(i + 1).drop_last() =~= rs@.take(i as int));
        }
        i += 1;
        assert(dst@ =~= start + flatten(rs@.take(i as int)));
    }
    assert(rs@.take(rs.len() as int) =~= rs@);
}

fn push_polygons(dst: &mut Vec<Coord>, ps: &Vec<Vec<Vec<Coord>>>)
    ensures
        final(dst)@ == old(dst)@ + flatten_polygons(ps@),
{
    let ghost start = dst@;
    let mut i: usize = 0;
    while i < ps.len()
        invariant
            0 <= i <= ps.len(),
            dst@ == start + flatten_polygons(ps@.take(i as int)),
        decreases ps.len() - i,
    {
        push_rings(dst, &ps[i]);
        proof {
            assert(ps@.take(i + 1).drop_last() =~= ps@.take(i as int));
        }
        i += 1;
        assert(dst@ =~= start + flatten_polygons(ps@.take(i as int)));
    }
    assert(ps@.take(ps.len() as int) =~= ps@);
}

/// Appends the positions of `g` to `dst`.
fn push_geometry(dst: &mut Vec<Coord>, g: &Geometry)
    ensures
        final(dst)@ == old(dst)@ + geometry_coords(*g),
{
    match g {
        Geometry::Point(c) => {
            dst.push(*c);
        },
        Geometry::MultiPoint(v) => push_all(dst, v),
        Geometry::LineString(v) => push_all(dst, v),
        Geometry::MultiLineString(r) => push_rings(dst, r),
        Geometry::Polygon(r) => push_rings(dst, r),
        Geometry::MultiPolygon(p) => push_polygons(dst, p),
        Geometry::GeometryCollection => {
            assert(old(dst)@ + Seq::<Coord>::empty() =~= old(dst)@);
        },
    }
}

/// The positions of a layer, feature after feature, in the order in which they are written.
pub fn layer_coordinates(layer: &Vec<Option<Geometry>>) -> (r: Vec<Coord>)
    ensures
        r@ == layer_coords(layer@),
{
    let mut r: Vec<Coord> = Vec::new();
    let mut i: usize = 0;
    while i < layer.len()
        invariant
            0 <= i <= layer.len(),
            r@ == layer_coords(layer@.take(i as int)),
        decreases layer.len() - i,
    {
        proof {
            assert(layer@.take(i + 1).drop_last() =~= layer@.take(i as int));
        }
        match &layer[i] {
            Some(g) => push_geometry(&mut r, g),
            None => {
                assert(r@ + Seq::<Coord>::empty() =~= r@);
            },
        }
        i += 1;
    }
    assert(layer@.take(layer.len() as int) =~= layer@);
    r
}

/// Whether some feature of the layer holds a geometry collection.
pub fn contains_collection(layer: &Vec<Option<Geometry>>) -> (r: bool)
    ensures
        r == has_collection(layer@),
{
    let mut i: usize = 0;
    while i < layer.len()
        invariant
            0 <= i <= layer.len(),
            forall|j: int| 0 <= j < i ==> !is_collection(#[trigger] layer@[j]),
        decreases layer.len() - i,
    {
        if let Some(Geometry::GeometryCollection) = &layer[i] {
            assert(is_collection(layer@[i as int]));
            return true;
        }
        i += 1;
    }
    false
}

} // verus!
