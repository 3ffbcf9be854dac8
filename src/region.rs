//! Region configuration arithmetic in normalized fixed point (see
//! `NORM_ONE`): points drawn in a region of interest mapped to the whole
//! frame, and the padded bounding box a crop is cut from.
use vstd::prelude::*;
use crate::crop::NORM_ONE;
use crate::score::{max_int, min_int};
use crate::geometry::{BBox, Point, coord_ok, point_ok, polygon_ok, floor_div};

verus! {

/// A region of interest of the frame, normalized.
#[derive(Clone, Copy, Debug, PartialEq, Eq, Structural)]
pub struct RoiDefinition {
    pub x_normalized: i64,
    pub y_normalized: i64,
    pub width_normalized: i64,
    pub height_normalized: i64,
}

impl RoiDefinition {
    pub open spec fn wf(&self) -> bool {
        &&& coord_ok(self.x_normalized as int)
        &&& coord_ok(self.y_normalized as int)
        &&& coord_ok(self.width_normalized as int)
        &&& coord_ok(self.height_normalized as int)
    }
}

/// A point given relative to `roi`, in frame coordinates.
pub open spec fn roi_to_global(p: Point, roi: RoiDefinition) -> (int, int) {
    (
        roi.x_normalized + (p.x * roi.width_normalized) / NORM_ONE as int,
        roi.y_normalized + (p.y * roi.height_normalized) / NORM_ONE as int,
    )
}

/// Maps points drawn relative to `roi` to frame coordinates (products
/// rounded down); without a region of interest the points are already global.
pub fn get_global_points(points: &Vec<Point>, roi: Option<RoiDefinition>) -> (r: Vec<Point>)
    requires
        polygon_ok(points@),
        roi matches Some(q) ==> q.wf(),
    ensures
        r@.len() == points@.len(),
        roi is None ==> r@ == points@,
        roi matches Some(q) ==> forall|i: int|
            0 <= i < points@.len() ==> (#[trigger] r@[i]).x == roi_to_global(points@[i], q).0 && r@[i].y == roi_to_global(points@[i], q).1,
{
    let q = match roi {
        None => return points.clone(),
        Some(q) => q,
    };
    let mut out: Vec<Point> = Vec::new();
    let mut i: usize = 0;
    while i < points.len()
        invariant
            i <= points@.len(),
            polygon_ok(points@),
            q.wf(),
            out@.len() == i,
            forall|k: int|
                0 <= k < i ==> (#[trigger] out@[k]).x == roi_to_global(points@[k], q).0 && out@[k].y == roi_to_global(points@[k], q).1,
        decreases points@.len() - i,
    {
        let p = points[i];
        assert(point_ok(points@[i as int]));
        let px = p.x as i128;
        let py = p.y as i128;
        let w = q.width_normalized as i128;
        let h = q.height_normalized as i128;
        assert(-0x1000_0000_0000_0000 <= px * w <= 0x1000_0000_0000_0000) by (nonlinear_arith)
            requires
                -0x2000_0000 <= px <= 0x2000_0000,
                -0x2000_0000 <= w <= 0x2000_0000,
        ;
        assert(-0x1000_0000_0000_0000 <= py * h <= 0x1000_0000_0000_0000) by (nonlinear_arith)
            requires
                -0x2000_0000 <= py <= 0x2000_0000,
                -0x2000_0000 <= h <= 0x2000_0000,
        ;
        let dx = floor_div(px * w, NORM_ONE as i128);
        let dy = floor_div(py * h, NORM_ONE as i128);
        assert(-0x1000_0000_0000 <= dx <= 0x1000_0000_0000) by (nonlinear_arith)
            requires
                dx == (px * w) / 1_000_000,
                -0x1000_0000_0000_0000 <= px * w <= 0x1000_0000_0000_0000,
        ;
        assert(-0x1000_0000_0000 <= dy <= 0x1000_0000_0000) by (nonlinear_arith)
            requires
                dy == (py * h) / 1_000_000,
                -0x1000_0000_0000_0000 <= py * h <= 0x1000_0000_0000_0000,
        ;
        out.push(Point { x: q.x_normalized + dx as i64, y: q.y_normalized + dy as i64 });
        i = i + 1;
    }
    out
}

/// The smallest and largest coordinates of the points: `(min_x, max_x,
/// min_y, max_y)`.
pub open spec fn extent(s: Seq<Point>) -> (int, int, int, int)
    decreases s.len(),
{
    if s.len() == 1 {
        (s[0].x as int, s[0].x as int, s[0].y as int, s[0].y as int)
    } else if s.len() == 0 {
        (0, 0, 0, 0)
    } else {
        let e = extent(s.drop_last());
        let p = s.last();
        (
            if p.x < e.0 { p.x as int } else { e.0 },
            if p.x > e.1 { p.x as int } else { e.1 },
            if p.y < e.2 { p.y as int } else { e.2 },
            if p.y > e.3 { p.y as int } else { e.3 },
        )
    }
}

/// The box around the points grown by `padding` on every side and clipped
/// to the frame `[0, 1]`, as `(x, y, w, h)`.
pub open spec fn padded_box(s: Seq<Point>, padding: int) -> (int, int, int, int) {
    let e = extent(s);
    let x1 = max_int(e.0 - padding, 0);
    let y1 = max_int(e.2 - padding, 0);
    let x2 = min_int(e.1 + padding, NORM_ONE as int);
    let y2 = min_int(e.3 + padding, NORM_ONE as int);
    (x1, y1, max_int(x2 - x1, 0), max_int(y2 - y1, 0))
}

proof fn lemma_extent_bounds(s: Seq<Point>)
    requires
        polygon_ok(s),
        s.len() > 0,
    ensures
        coord_ok(extent(s).0) && coord_ok(extent(s).1) && coord_ok(extent(s).2) && coord_ok(extent(s).3),
    decreases s.len(),
{
    if s.len() > 1 {
        lemma_extent_bounds(s.drop_last());
        assert(point_ok(s[s.len() - 1]));
    } else {
        assert(point_ok(s[0]));
    }
}

/// The crop box of a region: its points' bounding box padded by `padding`
/// and clipped to the frame; `None` without points or when nothing remains.
pub fn compute_bbox_with_crop_padding(points: &Vec<Point>, padding: i64) -> (r: Option<BBox>)
    requires
        polygon_ok(points@),
        coord_ok(padding as int),
    ensures
        points@.len() == 0 ==> r is None,
        points@.len() > 0 ==> ({
            let (x, y, w, h) = padded_box(points@, padding as int);
            &&& (w > 0 && h > 0) ==> r == Some(BBox { x: x as i64, y: y as i64, w: w as i64, h: h as i64 })
            &&& !(w > 0 && h > 0) ==> r is None
        }),
{
    if points.len() == 0 {
        return None;
    }
    let mut min_x = points[0].x;
    let mut max_x = points[0].x;
    let mut min_y = points[0].y;
    let mut max_y = points[0].y;
    let mut i: usize = 1;
    proof {
        assert(points@.take(1).drop_last() =~= Seq::<Point>::empty());
        assert(points@.take(1)[0] == points@[0]);
    }
    while i < points.len()
        invariant
            1 <= i <= points@.len(),
            polygon_ok(points@),
            (min_x as int, max_x as int, min_y as int, max_y as int) == extent(points@.take(i as int)),
        decreases points@.len() - i,
    {
        let p = points[i];
        proof {
            assert(points@.take(i + 1).drop_last() =~= points@.take(i as int));
            assert(points@.take(i + 1).last() == p);
        }
        if p.x < min_x {
            min_x = p.x;
        }
        if p.x > max_x {
            max_x = p.x;
        }
        if p.y < min_y {
            min_y = p.y;
        }
        if p.y > max_y {
            max_y = p.y;
        }
        i = i + 1;
    }
    proof {
        assert(points@.take(i as int) =~= points@);
        lemma_extent_bounds(points@);
    }
    let x1 = if min_x - padding > 0 { min_x - padding } else { 0 };
    let y1 = if min_y - padding > 0 { min_y - padding } else { 0 };
    let x2 = if max_x + padding < NORM_ONE { max_x + padding } else { NORM_ONE };
    let y2 = if max_y + padding < NORM_ONE { max_y + padding } else { NORM_ONE };
    let w = if x2 - x1 > 0 { x2 - x1 } else { 0 };
    let h = if y2 - y1 > 0 { y2 - y1 } else { 0 };
    if w <= 0 || h <= 0 {
        return None;
    }
    Some(BBox { x: x1, y: y1, w, h })
}

} // verus!
