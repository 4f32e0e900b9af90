use vstd::prelude::*;

use crate::geometry::{Coord, Geometry};

verus! {

/// First meridian and parallel of the graticule, in geographic units.
pub const GRATICULE_LON_START: i64 = -1799900000;
pub const GRATICULE_LAT_START: i64 = -899900000;
/// Spacing of the graticule's lines, in geographic units.
pub const GRATICULE_STEP: i64 = 99000000;

/// How many values `start`, `start + step`, ... do not exceed `end_inclusive`.
pub open spec fn step_count(start: int, end_inclusive: int, step: int) -> int {
    if start > end_inclusive {
        0
    } else {
        (end_inclusive - start) / step + 1
    }
}

/// The values `start`, `start + step`, ... that do not exceed `end_inclusive`.
pub open spec fn steps(start: int, end_inclusive: int, step: int) -> Seq<int> {
    Seq::new(step_count(start, end_inclusive, step) as nat, |i: int| start + i * step)
}

/// The values from `start` up to `end_inclusive`, `step` apart.
pub fn step_by(start: i64, end_inclusive: i64, step: i64) -> (r: Vec<i64>)
    requires
        step > 0,
    ensures
        r@.len() == step_count(start as int, end_inclusive as int, step as int),
        forall|i: int| 0 <= i < r@.len() ==> #[trigger] r@[i] == steps(start as int, end_inclusive as int, step as int)[i],
{
    let mut r: Vec<i64> = Vec::new();
    let mut v: i128 = start as i128;
    assert(r@.len() == 0);
    assert(v == start + r@.len() * step);
    let ghost count = step_count(start as int, end_inclusive as int, step as int);
    proof {
        if start <= end_inclusive {
            vstd::arithmetic::div_mod::lemma_fundamental_div_mod(end_inclusive - start, step as int);
            assert(0 <= (end_inclusive - start) % (step as int) < step);
            assert(0 <= (end_inclusive - start) / (step as int));
        }
    }
    while v <= end_inclusive as i128
        invariant
            step > 0,
            v == start + r@.len() * step,
            r@.len() <= count,
            start <= end_inclusive ==> count == (end_inclusive - start) / (step as int) + 1,
            start > end_inclusive ==> count == 0,
            forall|i: int| 0 <= i < r@.len() ==> #[trigger] r@[i] == start + i * step,
            r@.len() == 0 || v <= end_inclusive + step,
        decreases end_inclusive + step - v,
    {
        proof {
            let n = r@.len() as int;
            let d = (end_inclusive - start) as int;
            vstd::arithmetic::div_mod::lemma_fundamental_div_mod(d, step as int);
            assert(n * step <= d);
            assert(n <= d / (step as int)) by {
                if n > d / (step as int) {
                    assert(n * step >= (d / (step as int) + 1) * step) by (nonlinear_arith)
                        requires n >= d / (step as int) + 1, step > 0;
                    assert((d / (step as int) + 1) * step == step * (d / (step as int)) + step) by (nonlinear_arith);
                }
            }
            assert((n + 1) * step == n * step + step) by (nonlinear_arith);
        }
        r.push(v as i64);
        v = v + step as i128;
    }
    proof {
        let n = r@.len() as int;
        if start <= end_inclusive {
            let d = (end_inclusive - start) as int;
            vstd::arithmetic::div_mod::lemma_fundamental_div_mod(d, step as int);
            assert(n * step > d);
            assert(n >= d / (step as int) + 1) by {
                if n <= d / (step as int) {
                    assert(n * step <= (d / (step as int)) * step) by (nonlinear_arith)
                        requires n <= d / (step as int), step > 0;
                    assert((d / (step as int)) * step == step * (d / (step as int))) by (nonlinear_arith);
                }
            }
        }
    }
    r
}

/// The positions `(x, y)` for each `y` of `ys`.
pub open spec fn meridian(x: int, ys: Seq<int>) -> Seq<Coord> {
    Seq::new(ys.len(), |j: int| Coord { x: x as i32, y: ys[j] as i32 })
}

/// The positions `(x, y)` for each `x` of `xs`.
pub open spec fn parallel(y: int, xs: Seq<int>) -> Seq<Coord> {
    Seq::new(xs.len(), |j: int| Coord { x: xs[j] as i32, y: y as i32 })
}

/// The meridians, west to east, then the parallels, south to north, of a graticule
/// spanning `xs` by `ys`.
pub open spec fn graticule_lines(xs: Seq<int>, ys: Seq<int>) -> Seq<Seq<Coord>> {
    Seq::new(xs.len(), |i: int| meridian(xs[i], ys)) + Seq::new(ys.len(), |i: int| parallel(ys[i], xs))
}

/// Longitudes of the graticule's meridians.
pub open spec fn graticule_lons() -> Seq<int> {
    steps(GRATICULE_LON_START as int, -GRATICULE_LON_START as int, GRATICULE_STEP as int)
}

/// Latitudes of the graticule's parallels.
pub open spec fn graticule_lats() -> Seq<int> {
    steps(GRATICULE_LAT_START as int, -GRATICULE_LAT_START as int, GRATICULE_STEP as int)
}

fn line_through(fixed: i64, along: &Vec<i64>, vertical: bool) -> (r: Vec<Coord>)
    requires
        i32::MIN <= fixed <= i32::MAX,
        forall|j: int| 0 <= j < along@.len() ==> i32::MIN <= #[trigger] along@[j] <= i32::MAX,
    ensures
        r@ == if vertical {
            meridian(fixed as int, along@.map_values(|v: i64| v as int))
        } else {
            parallel(fixed as int, along@.map_values(|v: i64| v as int))
        },
{
    let mut r: Vec<Coord> = Vec::new();
    let mut j: usize = 0;
    while j < along.len()
        invariant
            0 <= j <= along.len(),
            r@.len() == j,
            forall|t: int| 0 <= t < j ==> #[trigger] r@[t] == if vertical {
                Coord { x: fixed as i32, y: along@[t] as i32 }
            } else {
                Coord { x: along@[t] as i32, y: fixed as i32 }
            },
        decreases along.len() - j,
    {
        if vertical {
            r.push(Coord { x: fixed as i32, y: along[j] as i32 });
        } else {
            r.push(Coord { x: along[j] as i32, y: fixed as i32 });
        }
        j += 1;
    }
    if vertical {
        assert(r@ =~= meridian(fixed as int, along@.map_values(|v: i64| v as int)));
    } else {
        assert(r@ =~= parallel(fixed as int, along@.map_values(|v: i64| v as int)));
    }
    r
}

/// A layer of one feature: the graticule's meridians and parallels as a multi-line, in
/// geographic units.
pub fn prepare_geojson_graticule() -> (r: Vec<Option<Geometry>>)
    ensures
        r@.len() == 1,
        r@[0] matches Some(Geometry::MultiLineString(lines)) && lines@.map_values(|l: Vec<Coord>| l@)
            == graticule_lines(graticule_lons(), graticule_lats()),
{
    let xs = step_by(GRATICULE_LON_START, -GRATICULE_LON_START, GRATICULE_STEP);
    let ys = step_by(GRATICULE_LAT_START, -GRATICULE_LAT_START, GRATICULE_STEP);
    let ghost gx = xs@.map_values(|v: i64| v as int);
    let ghost gy = ys@.map_values(|v: i64| v as int);
    proof {
        assert(gx =~= graticule_lons());
        assert(gy =~= graticule_lats());
        assert(step_count(GRATICULE_LON_START as int, -GRATICULE_LON_START as int, GRATICULE_STEP as int) == 37);
        assert(step_count(GRATICULE_LAT_START as int, -GRATICULE_LAT_START as int, GRATICULE_STEP as int) == 19);
        assert forall|j: int| 0 <= j < xs@.len() implies i32::MIN <= #[trigger] xs@[j] <= i32::MAX by {
            assert(0 <= j * GRATICULE_STEP <= 36 * GRATICULE_STEP) by (nonlinear_arith)
                requires 0 <= j <= 36;
        }
        assert forall|j: int| 0 <= j < ys@.len() implies i32::MIN <= #[trigger] ys@[j] <= i32::MAX by {
            assert(0 <= j * GRATICULE_STEP <= 18 * GRATICULE_STEP) by (nonlinear_arith)
                requires 0 <= j <= 18;
        }
    }
    let mut lines: Vec<Vec<Coord>> = Vec::new();
    let mut i: usize = 0;
    while i < xs.len()
        invariant
            0 <= i <= xs.len(),
            gx == xs@.map_values(|v: i64| v as int),
            gy == ys@.map_values(|v: i64| v as int),
            forall|j: int| 0 <= j < xs@.len() ==> i32::MIN <= #[trigger] xs@[j] <= i32::MAX,
            forall|j: int| 0 <= j < ys@.len() ==> i32::MIN <= #[trigger] ys@[j] <= i32::MAX,
            lines@.map_values(|l: Vec<Coord>| l@) == Seq::new(i as nat, |t: int| meridian(gx[t], gy)),
        decreases xs.len() - i,
    {
        let line = line_through(xs[i], &ys, true);
        assert(line@ == meridian(gx[i as int], gy));
        let ghost old_lines = lines@;
        lines.push(line);
        assert(lines@.map_values(|l: Vec<Coord>| l@) =~= old_lines.map_values(|l: Vec<Coord>| l@).push(line@));
        i += 1;
        assert(lines@.map_values(|l: Vec<Coord>| l@) =~= Seq::new(i as nat, |t: int| meridian(gx[t], gy)));
    }
    let mut i: usize = 0;
    while i < ys.len()
        invariant
            0 <= i <= ys.len(),
            gx == xs@.map_values(|v: i64| v as int),
            gy == ys@.map_values(|v: i64| v as int),
            forall|j: int| 0 <= j < xs@.len() ==> i32::MIN <= #[trigger] xs@[j] <= i32::MAX,
            forall|j: int| 0 <= j < ys@.len() ==> i32::MIN <= #[trigger] ys@[j] <= i32::MAX,
            lines@.map_values(|l: Vec<Coord>| l@) == Seq::new(xs@.len(), |t: int| meridian(gx[t], gy))
                + Seq::new(i as nat, |t: int| parallel(gy[t], gx)),
        decreases ys.len() - i,
    {
        let line = line_through(ys[i], &xs, false);
        assert(line@ == parallel(gy[i as int], gx));
        let ghost old_lines = lines@;
        lines.push(line);
        assert(lines@.map_values(|l: Vec<Coord>| l@) =~= old_lines.map_values(|l: Vec<Coord>| l@).push(line@));
        i += 1;
        assert(lines@.map_values(|l: Vec<Coord>| l@) =~= Seq::new(xs@.len(), |t: int| meridian(gx[t], gy))
            + Seq::new(i as nat, |t: int| parallel(gy[t], gx)));
    }
    let mut r: Vec<Option<Geometry>> = Vec::new();
    r.push(Some(Geometry::MultiLineString(lines)));
    r
}

} // verus!
