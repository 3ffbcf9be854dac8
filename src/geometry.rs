//! Integer plane geometry: points, boxes, crop-local remapping, polygon
//! containment and segment intersection.
use vstd::prelude::*;
use geo::Contains;

verus! {

/// Largest coordinate magnitude accepted by the geometric predicates; it keeps
/// every orientation determinant well inside `i64`.
pub const COORD_LIMIT: i64 = 536_870_912;

/// A point in the plane, in whatever integer unit the caller works in
/// (normalized fixed-point for global coordinates, pixels for crop-local ones).
#[derive(Clone, Copy, Debug, PartialEq, Eq, Structural)]
pub struct Point {
    pub x: i64,
    pub y: i64,
}

/// An axis-aligned box given by its top-left corner and its size.
#[derive(Clone, Copy, Debug, PartialEq, Eq, Structural)]
pub struct BBox {
    pub x: i64,
    pub y: i64,
    pub w: i64,
    pub h: i64,
}

pub open spec fn coord_ok(v: int) -> bool {
    -COORD_LIMIT <= v <= COORD_LIMIT
}

pub open spec fn point_ok(p: Point) -> bool {
    coord_ok(p.x as int) && coord_ok(p.y as int)
}

pub open spec fn polygon_ok(poly: Seq<Point>) -> bool {
    forall|i: int| 0 <= i < poly.len() ==> point_ok(#[trigger] poly[i])
}

/// The vertices of a polygon as pairs of mathematical integers.
pub open spec fn ring_of(poly: Seq<Point>) -> Seq<(int, int)> {
    poly.map_values(|p: Point| (p.x as int, p.y as int))
}

/// Whether `(x, y)` lies strictly inside the polygon whose ring is `ring`
/// (the ring is closed implicitly; points on the boundary are not inside).
pub uninterp spec fn inside_polygon(ring: Seq<(int, int)>, x: int, y: int) -> bool;

/// Relies on geo's `Contains<Point<i64>>` for `Polygon<i64>`: a winding-number
/// test with exact integer orientation, boundary excluded, on the ring that
/// `Polygon::new` closes; a polygon without vertices contains no point.
#[verifier::external_body]
pub fn is_point_in_polygon_robust(x: i64, y: i64, polygon: &[Point]) -> (r: bool)
    requires
        coord_ok(x as int),
        coord_ok(y as int),
        polygon_ok(polygon@),
    ensures
        r == inside_polygon(ring_of(polygon@), x as int, y as int),
        polygon@.len() == 0 ==> !r,
{
    let coords: Vec<(i64, i64)> = polygon.iter().map(|p| (p.x, p.y)).collect();
    let ring = geo_types::LineString::from(coords);
    geo_types::Polygon::new(ring, vec![]).contains(&geo_types::Point::new(x, y))
}


/// Whether `a`, `b`, `c` turn counter-clockwise (strictly), in image axes.
pub open spec fn ccw(a: Point, b: Point, c: Point) -> bool {
    (c.y - a.y) * (b.x - a.x) > (b.y - a.y) * (c.x - a.x)
}

/// Whether segments `p1 p2` and `p3 p4` properly cross: each segment's end
/// points lie strictly on opposite sides of the other's line.
pub open spec fn segments_cross(p1: Point, p2: Point, p3: Point, p4: Point) -> bool {
    ccw(p1, p3, p4) != ccw(p2, p3, p4) && ccw(p1, p2, p3) != ccw(p1, p2, p4)
}

fn ccw_exec(a: Point, b: Point, c: Point) -> (r: bool)
    requires
        point_ok(a),
        point_ok(b),
        point_ok(c),
    ensures
        r == ccw(a, b, c),
{
    let dy1 = c.y - a.y;
    let dx1 = b.x - a.x;
    let dy2 = b.y - a.y;
    let dx2 = c.x - a.x;
    assert(-0x1000_0000_0000_0000 <= dy1 * dx1 <= 0x1000_0000_0000_0000) by (nonlinear_arith)
        requires
            -0x4000_0000 <= dy1 <= 0x4000_0000,
            -0x4000_0000 <= dx1 <= 0x4000_0000,
    ;
    assert(-0x1000_0000_0000_0000 <= dy2 * dx2 <= 0x1000_0000_0000_0000) by (nonlinear_arith)
        requires
            -0x4000_0000 <= dy2 <= 0x4000_0000,
            -0x4000_0000 <= dx2 <= 0x4000_0000,
    ;
    dy1 * dx1 > dy2 * dx2
}

/// Whether segment `p1 p2` properly crosses segment `p3 p4`.
pub fn segments_intersect(p1: Point, p2: Point, p3: Point, p4: Point) -> (r: bool)
    requires
        point_ok(p1),
        point_ok(p2),
        point_ok(p3),
        point_ok(p4),
    ensures
        r == segments_cross(p1, p2, p3, p4),
{
    ccw_exec(p1, p3, p4) != ccw_exec(p2, p3, p4) && ccw_exec(p1, p2, p3) != ccw_exec(p1, p2, p4)
}

/// The crop-local image of one coordinate: `(v - origin) / size * crop`,
/// rounded down.
pub open spec fn to_local(v: int, origin: int, size: int, crop: int) -> int {
    ((v - origin) * crop) / size
}

/// The bounds under which remapping stays exact in 128-bit arithmetic and
/// the result fits a coordinate.
pub open spec fn remap_ok(p: Point, bbox: BBox, crop_w: u32, crop_h: u32) -> bool {
    &&& point_ok(p)
    &&& point_ok(Point { x: bbox.x, y: bbox.y })
    &&& bbox.w > 0
    &&& bbox.h > 0
    &&& coord_ok(to_local(p.x as int, bbox.x as int, bbox.w as int, crop_w as int))
    &&& coord_ok(to_local(p.y as int, bbox.y as int, bbox.h as int, crop_h as int))
}

/// `n / d` rounded down, for a positive `d`.
pub(crate) fn floor_div(n: i128, d: i128) -> (r: i128)
    requires
        d > 0,
        -0x1_0000_0000_0000_0000_0000_0000_0000 <= n <= 0x1_0000_0000_0000_0000_0000_0000_0000,
    ensures
        r == n / d,
{
    if n >= 0 {
        ((n as u128) / (d as u128)) as i128
    } else {
        let m = (-n - 1) as u128;
        let du = d as u128;
        let q = m / du;
        proof {
            let mi = m as int;
            let di = d as int;
            let qi = q as int;
            vstd::arithmetic::div_mod::lemma_fundamental_div_mod(mi, di);
            let rr = mi % di;
            assert(mi == di * qi + rr);
            assert(qi <= mi) by (nonlinear_arith)
                requires
                    mi == di * qi + rr,
                    di >= 1,
                    qi >= 0,
                    rr >= 0,
            ;
            assert((-qi - 1) * di == -(di * qi) - di) by (nonlinear_arith);
            vstd::arithmetic::div_mod::lemma_fundamental_div_mod_converse(n as int, di, -qi - 1, di - 1 - rr);
        }
        -(q as i128) - 1
    }
}

/// Maps a point from global coordinates to the pixel coordinates of a crop
/// of size `crop_w` x `crop_h` taken over `bbox`.
pub fn transform_point(p: Point, bbox: &BBox, crop_w: u32, crop_h: u32) -> (r: Point)
    requires
        remap_ok(p, *bbox, crop_w, crop_h),
    ensures
        r.x == to_local(p.x as int, bbox.x as int, bbox.w as int, crop_w as int),
        r.y == to_local(p.y as int, bbox.y as int, bbox.h as int, crop_h as int),
{
    let dx = p.x as i128 - bbox.x as i128;
    let dy = p.y as i128 - bbox.y as i128;
    let cw = crop_w as i128;
    let ch = crop_h as i128;
    assert(-0x1_0000_0000_0000_0000 <= dx * cw <= 0x1_0000_0000_0000_0000) by (nonlinear_arith)
        requires
            -0x4000_0000 <= dx <= 0x4000_0000,
            0 <= cw <= 0xffff_ffff,
    ;
    assert(-0x1_0000_0000_0000_0000 <= dy * ch <= 0x1_0000_0000_0000_0000) by (nonlinear_arith)
        requires
            -0x4000_0000 <= dy <= 0x4000_0000,
            0 <= ch <= 0xffff_ffff,
    ;
    let nx = dx * cw;
    let ny = dy * ch;
    let x = floor_div(nx, bbox.w as i128);
    let y = floor_div(ny, bbox.h as i128);
    Point { x: x as i64, y: y as i64 }
}

/// Remaps every vertex of `poly` into the pixel coordinates of the crop taken
/// over `bbox`.
pub fn transform_polygon(poly: &[Point], bbox: &BBox, crop_w: u32, crop_h: u32) -> (r: Vec<Point>)
    requires
        forall|i: int| 0 <= i < poly@.len() ==> remap_ok(#[trigger] poly@[i], *bbox, crop_w, crop_h),
    ensures
        r@.len() == poly@.len(),
        forall|i: int|
            0 <= i < poly@.len() ==> (#[trigger] r@[i]).x == to_local(poly@[i].x as int, bbox.x as int, bbox.w as int, crop_w as int)
                && r@[i].y == to_local(poly@[i].y as int, bbox.y as int, bbox.h as int, crop_h as int),
{
    let mut out: Vec<Point> = Vec::new();
    let mut i: usize = 0;
    while i < poly.len()
        invariant
            i <= poly@.len(),
            forall|k: int| 0 <= k < poly@.len() ==> remap_ok(#[trigger] poly@[k], *bbox, crop_w, crop_h),
            out@.len() == i,
            forall|k: int|
                0 <= k < i ==> (#[trigger] out@[k]).x == to_local(poly@[k].x as int, bbox.x as int, bbox.w as int, crop_w as int)
                    && out@[k].y == to_local(poly@[k].y as int, bbox.y as int, bbox.h as int, crop_h as int),
        decreases poly@.len() - i,
    {
        out.push(transform_point(poly[i], bbox, crop_w, crop_h));
        i = i + 1;
    }
    out
}

} // verus!
