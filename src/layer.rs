use vstd::arithmetic::power::pow;
use vstd::prelude::*;

use crate::config_params::MapExtent;
use crate::geometry::{
    contains_collection,
    flatten,
    flatten_polygons,
    geometry_coords,
    is_collection,
    has_collection,
    layer_coordinates,
    layer_coords,
    Coord,
    Geometry,
};
use crate::CoreError;

verus! {

// ---------------------------------------------------------------------------
// Extent of a layer.
// ---------------------------------------------------------------------------

/// The abscissa of `c`, or its ordinate when `vertical`.
pub open spec fn along(c: Coord, vertical: bool) -> int {
    if vertical {
        c.y as int
    } else {
        c.x as int
    }
}

/// The least abscissa (ordinate) of a non-empty sequence of positions.
pub open spec fn min_along(s: Seq<Coord>, vertical: bool) -> int
    decreases s.len(),
{
    if s.len() <= 1 {
        along(s[0], vertical)
    } else {
        let m = min_along(s.drop_last(), vertical);
        if along(s.last(), vertical) < m {
            along(s.last(), vertical)
        } else {
            m
        }
    }
}

/// The greatest abscissa (ordinate) of a non-empty sequence of positions.
pub open spec fn max_along(s: Seq<Coord>, vertical: bool) -> int
    decreases s.len(),
{
    if s.len() <= 1 {
        along(s[0], vertical)
    } else {
        let m = max_along(s.drop_last(), vertical);
        if along(s.last(), vertical) > m {
            along(s.last(), vertical)
        } else {
            m
        }
    }
}

/// The bounding rectangle of `s`, widened on each side by a tenth of its width and
/// heightened on each side by a tenth of its height (both rounded up, so that a
/// rectangle of some width or height gets some margin).
pub open spec fn padded_extent(s: Seq<Coord>) -> MapExtent {
    let l = min_along(s, false);
    let r = max_along(s, false);
    let b = min_along(s, true);
    let t = max_along(s, true);
    MapExtent {
        left: (l - (r - l + 9) / 10) as i64,
        right: (r + (r - l + 9) / 10) as i64,
        bottom: (b - (t - b + 9) / 10) as i64,
        top: (t + (t - b + 9) / 10) as i64,
    }
}

proof fn lemma_min_max_along(s: Seq<Coord>, vertical: bool)
    requires
        s.len() > 0,
    ensures
        forall|k: int| 0 <= k < s.len() ==> min_along(s, vertical) <= #[trigger] along(s[k], vertical) <= max_along(s, vertical),
        i32::MIN <= min_along(s, vertical) <= max_along(s, vertical) <= i32::MAX,
    decreases s.len(),
{
    if s.len() > 1 {
        let d = s.drop_last();
        lemma_min_max_along(d, vertical);
        assert forall|k: int| 0 <= k < s.len() implies min_along(s, vertical) <= #[trigger] along(s[k], vertical) <= max_along(s, vertical) by {
            if k < d.len() {
                assert(s[k] == d[k]);
            }
        }
    }
}

/// The padded extent encloses every position it was computed from, and has no negative
/// width or height. Along an axis on which the positions are not all equal, every
/// position lies strictly inside it.
pub proof fn lemma_extent_encloses(s: Seq<Coord>)
    requires
        s.len() > 0,
    ensures
        padded_extent(s).left <= padded_extent(s).right,
        padded_extent(s).bottom <= padded_extent(s).top,
        forall|k: int| 0 <= k < s.len() ==> {
            &&& padded_extent(s).left <= #[trigger] s[k].x <= padded_extent(s).right
            &&& padded_extent(s).bottom <= s[k].y <= padded_extent(s).top
        },
        (exists|i: int, j: int| 0 <= i < s.len() && 0 <= j < s.len() && s[i].x != s[j].x)
            ==> forall|k: int| 0 <= k < s.len() ==> padded_extent(s).left < #[trigger] s[k].x < padded_extent(s).right,
        (exists|i: int, j: int| 0 <= i < s.len() && 0 <= j < s.len() && s[i].y != s[j].y)
            ==> forall|k: int| 0 <= k < s.len() ==> padded_extent(s).bottom < #[trigger] s[k].y < padded_extent(s).top,
{
    lemma_min_max_along(s, false);
    lemma_min_max_along(s, true);
    let l = min_along(s, false);
    let r = max_along(s, false);
    let b = min_along(s, true);
    let t = max_along(s, true);
    assert(0 <= (r - l + 9) / 10 <= r - l || r - l == 0);
    assert(0 <= (t - b + 9) / 10 <= t - b || t - b == 0);
    assert(r - l >= 1 ==> (r - l + 9) / 10 >= 1);
    assert(t - b >= 1 ==> (t - b + 9) / 10 >= 1);
    assert forall|k: int| 0 <= k < s.len() implies {
        &&& padded_extent(s).left <= #[trigger] s[k].x <= padded_extent(s).right
        &&& padded_extent(s).bottom <= s[k].y <= padded_extent(s).top
    } by {
        assert(along(s[k], false) == s[k].x);
        assert(along(s[k], true) == s[k].y);
    }
    if exists|i: int, j: int| 0 <= i < s.len() && 0 <= j < s.len() && s[i].x != s[j].x {
        let (i, j) = choose|i: int, j: int| 0 <= i < s.len() && 0 <= j < s.len() && s[i].x != s[j].x;
        assert(along(s[i], false) == s[i].x);
        assert(along(s[j], false) == s[j].x);
        assert forall|k: int| 0 <= k < s.len() implies padded_extent(s).left < #[trigger] s[k].x < padded_extent(s).right by {
            assert(along(s[k], false) == s[k].x);
        }
    }
    if exists|i: int, j: int| 0 <= i < s.len() && 0 <= j < s.len() && s[i].y != s[j].y {
        let (i, j) = choose|i: int, j: int| 0 <= i < s.len() && 0 <= j < s.len() && s[i].y != s[j].y;
        assert(along(s[i], true) == s[i].y);
        assert(along(s[j], true) == s[j].y);
        assert forall|k: int| 0 <= k < s.len() implies padded_extent(s).bottom < #[trigger] s[k].y < padded_extent(s).top by {
            assert(along(s[k], true) == s[k].y);
        }
    }
}

/// The padded bounding rectangle of every position of the layer.
pub fn get_extent(layer: &Vec<Option<Geometry>>) -> (r: Result<MapExtent, CoreError>)
    ensures
        match r {
            Ok(e) => {
                &&& !has_collection(layer@)
                &&& layer_coords(layer@).len() > 0
                &&& e == padded_extent(layer_coords(layer@))
            },
            Err(e) => {
                ||| (has_collection(layer@) && e == CoreError::UnsupportedGeometry)
                ||| (!has_collection(layer@) && layer_coords(layer@).len() == 0 && e
                    == CoreError::EmptyInput)
            },
        },
{
    if contains_collection(layer) {
        return Err(CoreError::UnsupportedGeometry);
    }
    let pts = layer_coordinates(layer);
    if pts.len() == 0 {
        return Err(CoreError::EmptyInput);
    }
    let mut l: i32 = pts[0].x;
    let mut r: i32 = pts[0].x;
    let mut b: i32 = pts[0].y;
    let mut t: i32 = pts[0].y;
    let mut i: usize = 1;
    while i < pts.len()
        invariant
            1 <= i <= pts.len(),
            l == min_along(pts@.take(i as int), false),
            r == max_along(pts@.take(i as int), false),
            b == min_along(pts@.take(i as int), true),
            t == max_along(pts@.take(i as int), true),
        decreases pts.len() - i,
    {
        let p = pts[i];
        proof {
            assert(pts@.take(i + 1).drop_last() =~= pts@.take(i as int));
        }
        if p.x < l {
            l = p.x;
        }
        if p.x > r {
            r = p.x;
        }
        if p.y < b {
            b = p.y;
        }
        if p.y > t {
            t = p.y;
        }
        i += 1;
    }
    assert(pts@.take(pts.len() as int) =~= pts@);
    proof {
        lemma_min_max_along(pts@, false);
        lemma_min_max_along(pts@, true);
    }
    let pad_x: i64 = (((r as i64 - l as i64) as u64 + 9) / 10) as i64;
    let pad_y: i64 = (((t as i64 - b as i64) as u64 + 9) / 10) as i64;
    Ok(
        MapExtent {
            left: l as i64 - pad_x,
            right: r as i64 + pad_x,
            bottom: b as i64 - pad_y,
            top: t as i64 + pad_y,
        },
    )
}

// ---------------------------------------------------------------------------
// Reprojection.
//
// The projection of each position is computed by the caller, in the order of
// `layer_coordinates`; a failed projection is `None`. The functions here rebuild
// the layer from those results.
// ---------------------------------------------------------------------------

/// Every projection succeeded.
pub open spec fn all_projected(p: Seq<Option<Coord>>) -> bool {
    forall|k: int| 0 <= k < p.len() ==> #[trigger] p[k] is Some
}

/// The projected positions, when all succeeded.
pub open spec fn projected_coords(p: Seq<Option<Coord>>) -> Seq<Coord> {
    Seq::new(p.len(), |k: int| p[k]->0)
}

/// Two sequences of rings with rings of the same lengths.
pub open spec fn same_rings(a: Seq<Vec<Coord>>, b: Seq<Vec<Coord>>) -> bool {
    a.len() == b.len() && forall|i: int| 0 <= i < a.len() ==> (#[trigger] a[i])@.len() == b[i]@.len()
}

/// Two sequences of polygons with polygons of the same rings.
pub open spec fn same_polygons(a: Seq<Vec<Vec<Coord>>>, b: Seq<Vec<Vec<Coord>>>) -> bool {
    a.len() == b.len() && forall|i: int| 0 <= i < a.len() ==> same_rings((#[trigger] a[i])@, b[i]@)
}

/// Two geometries of the same kind and nesting, which may differ in their positions only.
pub open spec fn same_shape(a: Geometry, b: Geometry) -> bool {
    match (a, b) {
        (Geometry::Point(_), Geometry::Point(_)) => true,
        (Geometry::MultiPoint(x), Geometry::MultiPoint(y)) => x@.len() == y@.len(),
        (Geometry::LineString(x), Geometry::LineString(y)) => x@.len() == y@.len(),
        (Geometry::MultiLineString(x), Geometry::MultiLineString(y)) => same_rings(x@, y@),
        (Geometry::Polygon(x), Geometry::Polygon(y)) => same_rings(x@, y@),
        (Geometry::MultiPolygon(x), Geometry::MultiPolygon(y)) => same_polygons(x@, y@),
        _ => false,
    }
}

/// Two layers with features of the same shapes, in the same order.
pub open spec fn same_layer_shape(a: Seq<Option<Geometry>>, b: Seq<Option<Geometry>>) -> bool {
    &&& a.len() == b.len()
    &&& forall|i: int|
        0 <= i < a.len() ==> match (#[trigger] a[i], b[i]) {
            (None, None) => true,
            (Some(x), Some(y)) => same_shape(x, y),
            _ => false,
        }
}

fn take_line(pts: &Vec<Coord>, k: usize, n: usize) -> (r: Vec<Coord>)
    requires
        k + n <= pts@.len(),
    ensures
        r@ == pts@.subrange(k as int, k + n),
{
    let total = pts.len();
    let mut r: Vec<Coord> = Vec::new();
    let mut i: usize = 0;
    while i < n
        invariant
            0 <= i <= n,
            total == pts@.len(),
            k + n <= pts@.len(),
            r@ == pts@.subrange(k as int, k + i),
        decreases n - i,
    {
        assert(k + i < pts@.len());
        r.push(pts[k + i]);
        i += 1;
        assert(r@ =~= pts@.subrange(k as int, k + i));
    }
    r
}

fn take_rings(rs: &Vec<Vec<Coord>>, pts: &Vec<Coord>, k: usize) -> (r: Vec<Vec<Coord>>)
    requires
        k + flatten(rs@).len() <= pts@.len(),
    ensures
        same_rings(rs@, r@),
        flatten(r@) == pts@.subrange(k as int, k + flatten(rs@).len()),
{
    let total = pts.len();
    let mut out: Vec<Vec<Coord>> = Vec::new();
    let mut c: usize = k;
    let mut i: usize = 0;
    while i < rs.len()
        invariant
            0 <= i <= rs.len(),
            total == pts@.len(),
            k + flatten(rs@).len() <= pts@.len(),
            c == k + flatten(rs@.take(i as int)).len(),
            out@.len() == i,
            forall|t: int| 0 <= t < i ==> (#[trigger] out@[t])@.len() == rs@[t]@.len(),
            flatten(out@) == pts@.subrange(k as int, c as int),
        decreases rs.len() - i,
    {
        proof {
            assert(rs@.take(i + 1).drop_last() =~= rs@.take(i as int));
            assert(rs@.take(i + 1).last() == rs@[i as int]);
            lemma_flatten_prefix(rs@, i + 1);
            assert(flatten(rs@.take(i + 1)).len() == flatten(rs@.take(i as int)).len() + rs@[i as int]@.len());
        }
        let line = take_line(pts, c, rs[i].len());
        let ghost old_out = out@;
        out.push(line);
        proof {
            assert(out@.drop_last() =~= old_out);
        }
        c = c + rs[i].len();
        i += 1;
        assert(flatten(out@) =~= pts@.subrange(k as int, c as int));
    }
    assert(rs@.take(rs.len() as int) =~= rs@);
    out
}

proof fn lemma_flatten_prefix(rs: Seq<Vec<Coord>>, i: int)
    requires
        0 <= i <= rs.len(),
    ensures
        flatten(rs.take(i)).len() <= flatten(rs).len(),
    decreases rs.len(),
{
    if i < rs.len() {
        assert(rs.drop_last().take(i) =~= rs.take(i));
        lemma_flatten_prefix(rs.drop_last(), i);
    } else {
        assert(rs.take(i) =~= rs);
    }
}

proof fn lemma_flatten_polygons_prefix(ps: Seq<Vec<Vec<Coord>>>, i: int)
    requires
        0 <= i <= ps.len(),
    ensures
        flatten_polygons(ps.take(i)).len() <= flatten_polygons(ps).len(),
    decreases ps.len(),
{
    if i < ps.len() {
        assert(ps.drop_last().take(i) =~= ps.take(i));
        lemma_flatten_polygons_prefix(ps.drop_last(), i);
    } else {
        assert(ps.take(i) =~= ps);
    }
}

proof fn lemma_layer_coords_prefix(layer: Seq<Option<Geometry>>, i: int)
    requires
        0 <= i <= layer.len(),
    ensures
        layer_coords(layer.take(i)).len() <= layer_coords(layer).len(),
    decreases layer.len(),
{
    if i < layer.len() {
        assert(layer.drop_last().take(i) =~= layer.take(i));
        lemma_layer_coords_prefix(layer.drop_last(), i);
    } else {
        assert(layer.take(i) =~= layer);
    }
}

fn take_polygons(ps: &Vec<Vec<Vec<Coord>>>, pts: &Vec<Coord>, k: usize) -> (r: Vec<Vec<Vec<Coord>>>)
    requires
        k + flatten_polygons(ps@).len() <= pts@.len(),
    ensures
        same_polygons(ps@, r@),
        flatten_polygons(r@) == pts@.subrange(k as int, k + flatten_polygons(ps@).len()),
{
    let total = pts.len();
    let mut out: Vec<Vec<Vec<Coord>>> = Vec::new();
    let mut c: usize = k;
    let mut i: usize = 0;
    while i < ps.len()
        invariant
            0 <= i <= ps.len(),
            total == pts@.len(),
            k + flatten_polygons(ps@).len() <= pts@.len(),
            c == k + flatten_polygons(ps@.take(i as int)).len(),
            out@.len() == i,
            forall|t: int| 0 <= t < i ==> same_rings(ps@[t]@, (#[trigger] out@[t])@),
            flatten_polygons(out@) == pts@.subrange(k as int, c as int),
        decreases ps.len() - i,
    {
        proof {
            assert(ps@.take(i + 1).drop_last() =~= ps@.take(i as int));
            assert(ps@.take(i + 1).last() == ps@[i as int]);
            lemma_flatten_polygons_prefix(ps@, i + 1);
            assert(flatten_polygons(ps@.take(i + 1)).len() == flatten_polygons(ps@.take(i as int)).len() + flatten(ps@[i as int]@).len());
        }
        let rings = take_rings(&ps[i], pts, c);
        let ghost old_out = out@;
        out.push(rings);
        proof {
            assert(out@.drop_last() =~= old_out);
        }
        c = c + flatten_len(&ps[i]);
        i += 1;
        assert(flatten_polygons(out@) =~= pts@.subrange(k as int, c as int));
    }
    assert(ps@.take(ps.len() as int) =~= ps@);
    out
}

/// The number of positions of a sequence of rings.
fn flatten_len(rs: &Vec<Vec<Coord>>) -> (n: usize)
    requires
        flatten(rs@).len() <= usize::MAX,
    ensures
        n == flatten(rs@).len(),
{
    let mut n: usize = 0;
    let mut i: usize = 0;
    while i < rs.len()
        invariant
            0 <= i <= rs.len(),
            flatten(rs@).len() <= usize::MAX,
            n == flatten(rs@.take(i as int)).len(),
        decreases rs.len() - i,
    {
        proof {
            assert(rs@.take(i + 1).drop_last() =~= rs@.take(i as int));
            lemma_flatten_prefix(rs@, i + 1);
        }
        n = n + rs[i].len();
        i += 1;
    }
    assert(rs@.take(rs.len() as int) =~= rs@);
    n
}

/// `g` with its positions replaced, in order, by those of `pts` from `k` on.
fn rebuild_geometry(g: &Geometry, pts: &Vec<Coord>, k: usize) -> (r: Geometry)
    requires
        !(g is GeometryCollection),
        k + geometry_coords(*g).len() <= pts@.len(),
    ensures
        same_shape(*g, r),
        geometry_coords(r) == pts@.subrange(k as int, k + geometry_coords(*g).len()),
{
    match g {
        Geometry::Point(_) => {
            let r = Geometry::Point(pts[k]);
            assert(geometry_coords(r) =~= pts@.subrange(k as int, k + 1));
            r
        },
        Geometry::MultiPoint(v) => Geometry::MultiPoint(take_line(pts, k, v.len())),
        Geometry::LineString(v) => Geometry::LineString(take_line(pts, k, v.len())),
        Geometry::MultiLineString(rs) => Geometry::MultiLineString(take_rings(rs, pts, k)),
        Geometry::Polygon(rs) => Geometry::Polygon(take_rings(rs, pts, k)),
        Geometry::MultiPolygon(ps) => Geometry::MultiPolygon(take_polygons(ps, pts, k)),
        Geometry::GeometryCollection => Geometry::GeometryCollection,
    }
}

/// The number of positions of a geometry.
fn geometry_len(g: &Geometry) -> (n: usize)
    requires
        geometry_coords(*g).len() <= usize::MAX,
    ensures
        n == geometry_coords(*g).len(),
{
    match g {
        Geometry::Point(_) => 1,
        Geometry::MultiPoint(v) => v.len(),
        Geometry::LineString(v) => v.len(),
        Geometry::MultiLineString(rs) => flatten_len(rs),
        Geometry::Polygon(rs) => flatten_len(rs),
        Geometry::MultiPolygon(ps) => {
            let mut n: usize = 0;
            let mut i: usize = 0;
            while i < ps.len()
                invariant
                    0 <= i <= ps.len(),
                    flatten_polygons(ps@).len() <= usize::MAX,
                    n == flatten_polygons(ps@.take(i as int)).len(),
                decreases ps.len() - i,
            {
                proof {
                    assert(ps@.take(i + 1).drop_last() =~= ps@.take(i as int));
                    lemma_flatten_polygons_prefix(ps@, i + 1);
                }
                n = n + flatten_len(&ps[i]);
                i += 1;
            }
            assert(ps@.take(ps.len() as int) =~= ps@);
            n
        },
        Geometry::GeometryCollection => 0,
    }
}

/// Reprojects a layer strictly: `projected` holds the projection of each position of
/// the layer, in the order of `layer_coordinates`. The layer keeps its features, their
/// order and their shapes, with the projected positions; a single failed projection
/// fails the whole layer.
pub fn reproj(layer: &Vec<Option<Geometry>>, projected: &Vec<Option<Coord>>) -> (r: Result<
    Vec<Option<Geometry>>,
    CoreError,
>)
    ensures
        match r {
            Ok(out) => {
                &&& !has_collection(layer@)
                &&& projected@.len() == layer_coords(layer@).len()
                &&& all_projected(projected@)
                &&& same_layer_shape(layer@, out@)
                &&& layer_coords(out@) == projected_coords(projected@)
            },
            Err(e) => {
                ||| (has_collection(layer@) && e == CoreError::UnsupportedGeometry)
                ||| (!has_collection(layer@) && projected@.len() != layer_coords(layer@).len() && e
                    == CoreError::InvalidInput)
                ||| (!has_collection(layer@) && projected@.len() == layer_coords(layer@).len()
                    && !all_projected(projected@) && e == CoreError::ProjectionFailure)
            },
        },
{
    if contains_collection(layer) {
        return Err(CoreError::UnsupportedGeometry);
    }
    let expected = layer_coordinates(layer);
    if expected.len() != projected.len() {
        return Err(CoreError::InvalidInput);
    }
    let mut pts: Vec<Coord> = Vec::new();
    let mut k: usize = 0;
    while k < projected.len()
        invariant
            0 <= k <= projected@.len(),
            !has_collection(layer@),
            projected@.len() == layer_coords(layer@).len(),
            pts@.len() == k,
            forall|t: int| 0 <= t < k ==> #[trigger] projected@[t] is Some && pts@[t] == projected@[t]->0,
        decreases projected.len() - k,
    {
        match projected[k] {
            Some(c) => pts.push(c),
            None => {
                assert(projected@[k as int] is None);
                return Err(CoreError::ProjectionFailure);
            },
        }
        k += 1;
    }
    assert(pts@ =~= projected_coords(projected@));
    let total = pts.len();
    let mut out: Vec<Option<Geometry>> = Vec::new();
    let mut c: usize = 0;
    let mut i: usize = 0;
    while i < layer.len()
        invariant
            0 <= i <= layer.len(),
            total == pts@.len(),
            pts@ == projected_coords(projected@),
            all_projected(projected@),
            projected@.len() == layer_coords(layer@).len(),
            !has_collection(layer@),
            pts@.len() == layer_coords(layer@).len(),
            c == layer_coords(layer@.take(i as int)).len(),
            same_layer_shape(layer@.take(i as int), out@),
            layer_coords(out@) == pts@.subrange(0, c as int),
        decreases layer.len() - i,
    {
        proof {
            assert(layer@.take(i + 1).drop_last() =~= layer@.take(i as int));
            lemma_layer_coords_prefix(layer@, i + 1);
            assert(!is_collection(layer@[i as int]));
            assert(layer@.take(i + 1).last() == layer@[i as int]);
        }
        let ghost old_out = out@;
        match &layer[i] {
            Some(g) => {
                let n = geometry_len(g);
                let ng = rebuild_geometry(g, &pts, c);
                out.push(Some(ng));
                c = c + n;
            },
            None => {
                out.push(None);
            },
        }
        proof {
            assert(out@.drop_last() =~= old_out);
            assert(layer@.take(i + 1)[i as int] == layer@[i as int]);
        }
        i += 1;
        assert(layer_coords(out@) =~= pts@.subrange(0, c as int));
        assert forall|t: int| 0 <= t < i implies match (#[trigger] layer@.take(i as int)[t], out@[t]) {
            (None, None) => true,
            (Some(x), Some(y)) => same_shape(x, y),
            _ => false,
        } by {
            if t < i - 1 {
                assert(layer@.take(i as int)[t] == layer@.take(i - 1)[t]);
                assert(out@[t] == old_out[t]);
            }
        }
    }
    assert(layer@.take(layer.len() as int) =~= layer@);
    assert(pts@.subrange(0, c as int) =~= pts@);
    Ok(out)
}

/// The positions whose projection succeeded, in order.
pub open spec fn somes(p: Seq<Option<Coord>>) -> Seq<Coord>
    decreases p.len(),
{
    if p.len() == 0 {
        Seq::empty()
    } else {
        somes(p.drop_last()) + match p.last() {
            Some(c) => seq![c],
            None => Seq::empty(),
        }
    }
}

/// Lenient reprojection of the lines `rs`, whose positions project, line after line, to
/// `p`: each line keeps the positions that projected, and is dropped when fewer than two
/// of them remain.
pub open spec fn lenient_lines(rs: Seq<Vec<Coord>>, p: Seq<Option<Coord>>) -> Seq<Seq<Coord>>
    decreases rs.len(),
{
    if rs.len() == 0 {
        Seq::empty()
    } else {
        let n = p.len() - rs.last()@.len();
        let prev = lenient_lines(rs.drop_last(), p.take(n));
        let kept = somes(p.skip(n));
        if kept.len() >= 2 {
            prev.push(kept)
        } else {
            prev
        }
    }
}

/// Every feature of the layer is a multi-line or has no geometry.
pub open spec fn lines_only(layer: Seq<Option<Geometry>>) -> bool {
    forall|i: int| 0 <= i < layer.len() ==> (#[trigger] layer[i] matches Some(g) ==> g is MultiLineString)
}

/// Lenient reprojection of a layer of multi-lines whose positions project to `p`: the
/// lines that remain of each feature, or `None` for a feature without geometry.
pub open spec fn lenient_layer(layer: Seq<Option<Geometry>>, p: Seq<Option<Coord>>) -> Seq<Option<Seq<Seq<Coord>>>>
    decreases layer.len(),
{
    if layer.len() == 0 {
        Seq::empty()
    } else {
        let n = p.len() - match layer.last() {
            Some(g) => geometry_coords(g).len(),
            None => 0,
        };
        lenient_layer(layer.drop_last(), p.take(n)).push(
            match layer.last() {
                Some(Geometry::MultiLineString(rs)) => Some(lenient_lines(rs@, p.skip(n))),
                _ => None,
            },
        )
    }
}

/// The lines of each multi-line feature of a layer; `None` for any other feature.
pub open spec fn lines_view(layer: Seq<Option<Geometry>>) -> Seq<Option<Seq<Seq<Coord>>>> {
    layer.map_values(
        |f: Option<Geometry>|
            match f {
                Some(Geometry::MultiLineString(rs)) => Some(rs@.map_values(|l: Vec<Coord>| l@)),
                _ => None,
            },
    )
}

fn kept_positions(p: &Vec<Option<Coord>>, k: usize, n: usize) -> (r: Vec<Coord>)
    requires
        k + n <= p@.len(),
    ensures
        r@ == somes(p@.subrange(k as int, k + n)),
{
    let total = p.len();
    let mut r: Vec<Coord> = Vec::new();
    let mut i: usize = 0;
    while i < n
        invariant
            0 <= i <= n,
            total == p@.len(),
            k + n <= p@.len(),
            r@ == somes(p@.subrange(k as int, k + i)),
        decreases n - i,
    {
        assert(p@.subrange(k as int, k + i + 1).drop_last() =~= p@.subrange(k as int, k + i));
        match p[k + i] {
            Some(c) => {
                r.push(c);
            },
            None => {},
        }
        i += 1;
        assert(r@ =~= somes(p@.subrange(k as int, k + i)));
    }
    r
}

fn lenient_rings(rs: &Vec<Vec<Coord>>, p: &Vec<Option<Coord>>, k: usize) -> (r: Vec<Vec<Coord>>)
    requires
        k + flatten(rs@).len() <= p@.len(),
    ensures
        r@.map_values(|l: Vec<Coord>| l@) == lenient_lines(rs@, p@.subrange(k as int, k + flatten(rs@).len())),
{
    let total = p.len();
    let mut out: Vec<Vec<Coord>> = Vec::new();
    let mut c: usize = k;
    let mut i: usize = 0;
    while i < rs.len()
        invariant
            0 <= i <= rs.len(),
            total == p@.len(),
            k + flatten(rs@).len() <= p@.len(),
            c == k + flatten(rs@.take(i as int)).len(),
            out@.map_values(|l: Vec<Coord>| l@) == lenient_lines(rs@.take(i as int), p@.subrange(k as int, c as int)),
        decreases rs.len() - i,
    {
        proof {
            assert(rs@.take(i + 1).drop_last() =~= rs@.take(i as int));
            assert(rs@.take(i + 1).last() == rs@[i as int]);
            lemma_flatten_prefix(rs@, i + 1);
            assert(flatten(rs@.take(i + 1)).len() == flatten(rs@.take(i as int)).len() + rs@[i as int]@.len());
        }
        let len = rs[i].len();
        let kept = kept_positions(p, c, len);
        let ghost seg = p@.subrange(k as int, c + len);
        let ghost old_out = out@;
        proof {
            assert(seg.take(c - k) =~= p@.subrange(k as int, c as int));
            assert(seg.skip(c - k) =~= p@.subrange(c as int, c + len));
        }
        if kept.len() >= 2 {
            out.push(kept);
            assert(out@.map_values(|l: Vec<Coord>| l@) =~= old_out.map_values(|l: Vec<Coord>| l@).push(kept@));
        }
        c = c + len;
        i += 1;
    }
    assert(rs@.take(rs.len() as int) =~= rs@);
    out
}

/// Reprojects a layer of multi-lines leniently, for a graticule: `projected` holds the
/// projection of each position of the layer, in the order of `layer_coordinates`. A
/// position whose projection failed is dropped from its line, and a line left with
/// fewer than two positions is dropped from its feature.
pub fn reproj_graticule(layer: &Vec<Option<Geometry>>, projected: &Vec<Option<Coord>>) -> (r: Result<
    Vec<Option<Geometry>>,
    CoreError,
>)
    ensures
        match r {
            Ok(out) => {
                &&& lines_only(layer@)
                &&& projected@.len() == layer_coords(layer@).len()
                &&& out@.len() == layer@.len()
                &&& lines_only(out@)
                &&& forall|i: int| 0 <= i < layer@.len() ==> (#[trigger] out@[i] is None <==> layer@[i] is None)
                &&& lines_view(out@) == lenient_layer(layer@, projected@)
            },
            Err(e) => {
                ||| (!lines_only(layer@) && e == CoreError::UnsupportedGeometry)
                ||| (lines_only(layer@) && projected@.len() != layer_coords(layer@).len() && e
                    == CoreError::InvalidInput)
            },
        },
{
    let mut j: usize = 0;
    while j < layer.len()
        invariant
            0 <= j <= layer.len(),
            forall|t: int| 0 <= t < j ==> (#[trigger] layer@[t] matches Some(g) ==> g is MultiLineString),
        decreases layer.len() - j,
    {
        match &layer[j] {
            Some(Geometry::MultiLineString(_)) => {},
            None => {},
            Some(_) => {
                assert(!(layer@[j as int] matches Some(g) ==> g is MultiLineString));
                return Err(CoreError::UnsupportedGeometry);
            },
        }
        j += 1;
    }
    let expected = layer_coordinates(layer);
    if expected.len() != projected.len() {
        return Err(CoreError::InvalidInput);
    }
    let total = projected.len();
    let mut out: Vec<Option<Geometry>> = Vec::new();
    let mut c: usize = 0;
    let mut i: usize = 0;
    while i < layer.len()
        invariant
            0 <= i <= layer.len(),
            total == projected@.len(),
            lines_only(layer@),
            projected@.len() == layer_coords(layer@).len(),
            c == layer_coords(layer@.take(i as int)).len(),
            out@.len() == i,
            lines_only(out@),
            forall|t: int| 0 <= t < i ==> (#[trigger] out@[t] is None <==> layer@[t] is None),
            lines_view(out@) == lenient_layer(layer@.take(i as int), projected@.subrange(0, c as int)),
        decreases layer.len() - i,
    {
        proof {
            assert(layer@.take(i + 1).drop_last() =~= layer@.take(i as int));
            assert(layer@.take(i + 1).last() == layer@[i as int]);
            lemma_layer_coords_prefix(layer@, i + 1);
        }
        let ghost old_out = out@;
        let ghost old_c = c;
        match &layer[i] {
            Some(Geometry::MultiLineString(rs)) => {
                let n = flatten_len(rs);
                let lines = lenient_rings(rs, projected, c);
                out.push(Some(Geometry::MultiLineString(lines)));
                c = c + n;
            },
            _ => {
                out.push(None);
            },
        }
        proof {
            let seg = projected@.subrange(0, c as int);
            assert(seg.take(old_c as int) =~= projected@.subrange(0, old_c as int));
            assert(seg.skip(old_c as int) =~= projected@.subrange(old_c as int, c as int));
            assert(out@.drop_last() =~= old_out);
            assert(lines_view(out@) =~= lines_view(old_out).push(lines_view(out@).last()));
            assert forall|t: int| 0 <= t < i + 1 implies (#[trigger] out@[t] matches Some(g) ==> g is MultiLineString) by {
                if t < i {
                    assert(out@[t] == old_out[t]);
                }
            }
            assert(forall|t: int| 0 <= t < out@.len() ==> (#[trigger] out@[t] matches Some(g) ==> g is MultiLineString));
        }
        i += 1;
    }
    assert(layer@.take(layer.len() as int) =~= layer@);
    assert(projected@.subrange(0, c as int) =~= projected@);
    Ok(out)
}

// ---------------------------------------------------------------------------
// Number of classes for a sample size (Sturges' rule).
// ---------------------------------------------------------------------------

/// The value of decimal digits, least significant first.
pub open spec fn digits_value(s: Seq<u8>) -> int
    decreases s.len(),
{
    if s.len() == 0 {
        0
    } else {
        digits_value(s.drop_last()) + s.last() * pow(10, (s.len() - 1) as nat)
    }
}

pub open spec fn decimal(s: Seq<u8>) -> bool {
    forall|i: int| 0 <= i < s.len() ==> #[trigger] s[i] < 10
}

proof fn lemma_digits_bounds(s: Seq<u8>)
    requires
        decimal(s),
    ensures
        0 <= digits_value(s) < pow(10, s.len()),
        s.len() > 0 ==> digits_value(s) >= s.last() * pow(10, (s.len() - 1) as nat),
    decreases s.len(),
{
    reveal(pow);
    if s.len() > 0 {
        let d = s.drop_last();
        let e = (s.len() - 1) as nat;
        lemma_digits_bounds(d);
        vstd::arithmetic::power::lemma_pow_positive(10, e);
        assert(pow(10, s.len()) == 10 * pow(10, e));
        assert(s.last() * pow(10, e) <= 9 * pow(10, e)) by (nonlinear_arith)
            requires
                s.last() <= 9,
                pow(10, e) > 0,
        ;
        assert(0 <= s.last() * pow(10, e)) by (nonlinear_arith)
            requires
                pow(10, e) > 0,
        ;
    }
}

proof fn lemma_digits_trailing_zeros(s: Seq<u8>, k: int)
    requires
        0 <= k <= s.len(),
        forall|j: int| k <= j < s.len() ==> #[trigger] s[j] == 0,
    ensures
        digits_value(s) == digits_value(s.take(k)),
    decreases s.len(),
{
    if s.len() > k {
        let d = s.drop_last();
        assert(d.take(k) =~= s.take(k));
        lemma_digits_trailing_zeros(d, k);
    } else {
        assert(s.take(k) =~= s);
    }
}

/// The digits of `value(d) * m`.
fn times_small(d: &Vec<u8>, m: u64) -> (r: Vec<u8>)
    requires
        decimal(d@),
    ensures
        decimal(r@),
        digits_value(r@) == digits_value(d@) * m,
        r@.len() <= d@.len() + 20,
{
    let mut out: Vec<u8> = Vec::new();
    let mut carry: u128 = 0;
    let mut i: usize = 0;
    while i < d.len()
        invariant
            0 <= i <= d.len(),
            decimal(d@),
            decimal(out@),
            out@.len() == i,
            carry <= m,
            digits_value(out@) + carry * pow(10, i as nat) == digits_value(d@.take(i as int)) * m,
        decreases d.len() - i,
    {
        proof {
            assert((d@[i as int] as u128) * (m as u128) <= 9 * m) by (nonlinear_arith)
                requires
                    d@[i as int] < 10,
            ;
        }
        let t: u128 = (d[i] as u128) * (m as u128) + carry;
        let ghost p = pow(10, i as nat);
        proof {
            reveal(pow);
            assert(d@.take(i + 1).drop_last() =~= d@.take(i as int));
            assert(pow(10, (i + 1) as nat) == 10 * p);
            assert(t == (t / 10) * 10 + t % 10);
            assert(digits_value(out@) + (t % 10) * p + (t / 10) * (10 * p) == digits_value(out@) + t * p) by (nonlinear_arith)
                requires
                    t == (t / 10) * 10 + t % 10,
            ;
            assert(t * p == d@[i as int] * m * p + carry * p) by (nonlinear_arith)
                requires
                    t == d@[i as int] * m + carry,
            ;
            assert((digits_value(d@.take(i as int)) + d@[i as int] * p) * m == digits_value(d@.take(i as int)) * m + d@[i as int] * m * p) by (nonlinear_arith);
            assert(t / 10 <= m) by {
                assert(t <= 9 * m + m) by (nonlinear_arith)
                    requires
                        t == d@[i as int] * m + carry,
                        d@[i as int] <= 9,
                        carry <= m,
                ;
            }
        }
        let ghost old_out = out@;
        out.push((t % 10) as u8);
        proof {
            assert(out@.drop_last() =~= old_out);
            assert(digits_value(out@) == digits_value(old_out) + (t % 10) * p);
            assert(d@.take(i + 1).last() == d@[i as int]);
            assert(digits_value(d@.take(i + 1)) == digits_value(d@.take(i as int)) + d@[i as int] * p);
        }
        carry = t / 10;
        i += 1;
    }
    assert(d@.take(d.len() as int) =~= d@);
    proof {
        reveal_with_fuel(pow, 21);
        assert(pow(10, 20) == 100000000000000000000);
    }
    while carry > 0
        invariant
            decimal(out@),
            digits_value(out@) + carry * pow(10, out@.len()) == digits_value(d@) * m,
            out@.len() <= d@.len() + 20,
            carry < pow(10, (d@.len() + 20 - out@.len()) as nat),
        decreases carry,
    {
        let ghost rem = (d@.len() + 20 - out@.len()) as nat;
        proof {
            reveal(pow);
            if rem == 0 {
                assert(pow(10, 0) == 1);
            }
            assert(rem >= 1);
            assert(pow(10, rem) == 10 * pow(10, (rem - 1) as nat));
            assert(carry / 10 < pow(10, (rem - 1) as nat)) by (nonlinear_arith)
                requires
                    carry < 10 * pow(10, (rem - 1) as nat),
            ;
        }
        let ghost p = pow(10, out@.len());
        proof {
            reveal(pow);
            assert(pow(10, (out@.len() + 1) as nat) == 10 * p);
            assert(carry == (carry / 10) * 10 + carry % 10);
            assert(digits_value(out@) + (carry % 10) * p + (carry / 10) * (10 * p) == digits_value(out@) + carry * p) by (nonlinear_arith)
                requires
                    carry == (carry / 10) * 10 + carry % 10,
            ;
        }
        let ghost old_out = out@;
        out.push((carry % 10) as u8);
        assert(out@.drop_last() =~= old_out);
        assert(digits_value(out@) == digits_value(old_out) + (carry % 10) * p);
        carry = carry / 10;
    }
    out
}

/// Sturges' rule: `floor(1 + 3.3 * log10(nb_features))`, so that `10^(10 * (r - 1))`
/// does not exceed `nb_features^33`, which is below `10^(10 * r)`; no class without
/// features.
pub fn get_nb_class(nb_features: usize) -> (r: u32)
    ensures
        nb_features == 0 ==> r == 0,
        nb_features > 0 ==> r >= 1 && pow(10, (10 * (r - 1)) as nat) <= pow(nb_features as int, 33) < pow(10, (10 * r) as nat),
{
    if nb_features == 0 {
        return 0;
    }
    let mut d: Vec<u8> = Vec::new();
    d.push(1);
    proof {
        reveal(pow);
        assert(d@.drop_last().len() == 0);
        assert(digits_value(d@.drop_last()) == 0);
        assert(pow(10, 0) == 1);
        assert(d@.last() == 1);
        assert(digits_value(d@) == 1);
        assert(pow(nb_features as int, 0) == 1);
    }
    let mut e: u32 = 0;
    while e < 33
        invariant
            0 <= e <= 33,
            decimal(d@),
            d@.len() <= 1 + 20 * e,
            digits_value(d@) == pow(nb_features as int, e as nat),
        decreases 33 - e,
    {
        let ghost before = digits_value(d@);
        d = times_small(&d, nb_features as u64);
        proof {
            reveal(pow);
            assert(pow(nb_features as int, (e + 1) as nat) == nb_features * pow(nb_features as int, e as nat));
            assert(digits_value(d@) == before * nb_features);
            assert(before * nb_features == nb_features * before) by (nonlinear_arith);
        }
        e += 1;
    }
    let ghost v = pow(nb_features as int, 33);
    proof {
        vstd::arithmetic::power::lemma_pow_positive(nb_features as int, 33);
    }
    // The position of the most significant non-zero digit.
    let mut top: usize = d.len();
    while top > 0 && d[top - 1] == 0
        invariant
            0 <= top <= d@.len(),
            decimal(d@),
            forall|j: int| top <= j < d@.len() ==> #[trigger] d@[j] == 0,
        decreases top,
    {
        top -= 1;
    }
    proof {
        lemma_digits_trailing_zeros(d@, top as int);
        if top == 0 {
            assert(d@.take(0).len() == 0);
            assert(digits_value(d@.take(0)) == 0);
        }
    }
    let k: usize = top - 1;
    proof {
        let t = d@.take(top as int);
        assert(decimal(t));
        lemma_digits_bounds(t);
        assert(t.last() >= 1);
        vstd::arithmetic::power::lemma_pow_positive(10, k as nat);
        assert(t.last() * pow(10, k as nat) >= pow(10, k as nat)) by (nonlinear_arith)
            requires
                t.last() >= 1,
                pow(10, k as nat) > 0,
        ;
        assert(digits_value(t) == v);
        assert(pow(10, k as nat) <= v < pow(10, (k + 1) as nat));
        let q = k / 10;
        vstd::arithmetic::power::lemma_pow_increases(10, (10 * q) as nat, k as nat);
        vstd::arithmetic::power::lemma_pow_increases(10, (k + 1) as nat, (10 * (q + 1)) as nat);
    }
    (k / 10 + 1) as u32
}

} // verus!
