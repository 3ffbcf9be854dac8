//! The crop stage's arithmetic: the pixel rectangle of a normalized box in a
//! frame, and the remapping of a region's polygons into crop-local pixels.
use vstd::prelude::*;
use crate::geometry::{BBox, Point, remap_ok, to_local, transform_point, point_ok, COORD_LIMIT, floor_div};
use crate::frames::RegionalPolygon;

verus! {

/// Fixed-point one for normalized frame coordinates: a normalized value `v`
/// stands for `v / NORM_ONE` of the frame's width or height.
pub const NORM_ONE: i64 = 1_000_000;

/// A rectangle of pixels of a frame.
#[derive(Clone, Copy, Debug, PartialEq, Eq, Structural)]
pub struct PixelRect {
    pub x: u32,
    pub y: u32,
    pub w: u32,
    pub h: u32,
}

/// Why a region could not be cropped.
#[derive(Clone, Copy, Debug, PartialEq, Eq, Structural)]
pub enum CropError {
    /// The clamped rectangle has no area.
    InvalidDimensions { w: i64, h: i64 },
    /// A polygon vertex maps outside the coordinate range.
    PolygonOutOfRange,
}

/// `n / d` rounded to the nearest integer, halves up.
pub open spec fn round_div(n: int, d: int) -> int {
    (2 * n + d) / (2 * d)
}

pub open spec fn clamp_to(v: int, lo: int, hi: int) -> int {
    if v < lo {
        lo
    } else if v > hi {
        hi
    } else {
        v
    }
}

/// The pixel offset of normalized value `v` along an axis of `size` pixels.
pub open spec fn to_pixels(v: int, size: int) -> int {
    round_div(v * size, NORM_ONE as int)
}

/// The clamped pixel rectangle of normalized `bbox` in a `width` x `height`
/// frame: `(x, y, w, h)`.
pub open spec fn crop_bounds(width: int, height: int, bbox: BBox) -> (int, int, int, int) {
    let x = clamp_to(to_pixels(bbox.x as int, width), 0, width);
    let y = clamp_to(to_pixels(bbox.y as int, height), 0, height);
    let w = clamp_to(to_pixels(bbox.w as int, width), 0, width - x);
    let h = clamp_to(to_pixels(bbox.h as int, height), 0, height - y);
    (x, y, w, h)
}

fn pixels(v: i64, size: u32) -> (r: i128)
    ensures
        r == to_pixels(v as int, size as int),
{
    let vv = v as i128;
    let ss = size as i128;
    assert(-0x8000_0000_0000_0000 * 0x1_0000_0000 <= vv * ss <= 0x8000_0000_0000_0000 * 0x1_0000_0000) by (nonlinear_arith)
        requires
            -0x8000_0000_0000_0000 <= vv <= 0x7fff_ffff_ffff_ffff,
            0 <= ss <= 0xffff_ffff,
    ;
    let n = vv * ss;
    floor_div(2 * n + NORM_ONE as i128, 2 * NORM_ONE as i128)
}

/// The pixel rectangle of the normalized `bbox` in a `width` x `height`
/// frame, rounded and clamped to the frame; an error when it has no area.
pub fn crop_rect(width: u32, height: u32, bbox: &BBox) -> (r: Result<PixelRect, CropError>)
    ensures
        ({
            let (x, y, w, h) = crop_bounds(width as int, height as int, *bbox);
            &&& (w > 0 && h > 0) ==> r == Ok::<PixelRect, CropError>(PixelRect { x: x as u32, y: y as u32, w: w as u32, h: h as u32 })
            &&& !(w > 0 && h > 0) ==> r == Err::<PixelRect, CropError>(CropError::InvalidDimensions { w: w as i64, h: h as i64 })
        }),
{
    let wd = width as i128;
    let ht = height as i128;
    let px = pixels(bbox.x, width);
    let py = pixels(bbox.y, height);
    let x = if px < 0 {
        0
    } else if px > wd {
        wd
    } else {
        px
    };
    let y = if py < 0 {
        0
    } else if py > ht {
        ht
    } else {
        py
    };
    let pw = pixels(bbox.w, width);
    let ph = pixels(bbox.h, height);
    let w = if pw < 0 {
        0
    } else if pw > wd - x {
        wd - x
    } else {
        pw
    };
    let h = if ph < 0 {
        0
    } else if ph > ht - y {
        ht - y
    } else {
        ph
    };
    if w <= 0 || h <= 0 {
        return Err(CropError::InvalidDimensions { w: w as i64, h: h as i64 });
    }
    Ok(PixelRect { x: x as u32, y: y as u32, w: w as u32, h: h as u32 })
}

/// Whether a point can be remapped over `bbox` into a crop of the given size,
/// computed without overflow.
fn remappable(p: Point, bbox: &BBox, crop_w: u32, crop_h: u32) -> (r: bool)
    ensures
        r == remap_ok(p, *bbox, crop_w, crop_h),
{
    if !(p.x >= -COORD_LIMIT && p.x <= COORD_LIMIT && p.y >= -COORD_LIMIT && p.y <= COORD_LIMIT) {
        return false;
    }
    if !(bbox.x >= -COORD_LIMIT && bbox.x <= COORD_LIMIT && bbox.y >= -COORD_LIMIT && bbox.y <= COORD_LIMIT) {
        return false;
    }
    if bbox.w <= 0 || bbox.h <= 0 {
        return false;
    }
    let q = local_unchecked(p, bbox, crop_w, crop_h);
    q.0 >= -(COORD_LIMIT as i128) && q.0 <= COORD_LIMIT as i128 && q.1 >= -(COORD_LIMIT as i128) && q.1 <= COORD_LIMIT as i128
}

fn local_unchecked(p: Point, bbox: &BBox, crop_w: u32, crop_h: u32) -> (r: (i128, i128))
    requires
        point_ok(p),
        point_ok(Point { x: bbox.x, y: bbox.y }),
        bbox.w > 0,
        bbox.h > 0,
    ensures
        r.0 == to_local(p.x as int, bbox.x as int, bbox.w as int, crop_w as int),
        r.1 == to_local(p.y as int, bbox.y as int, bbox.h as int, crop_h as int),
{
    let dx = p.x as i128 - bbox.x as i128;
    let dy = p.y as i128 - bbox.y as i128;
    let cw = crop_w as i128;
    let ch = crop_h as i128;
    assert(-0x1_0000_0000_0000_0000 <= dx * cw <= 0x1_0000_0000_0000_0000) by (nonlinear_arith)
        requires
            -0x4000_0000 <= dx <= 0x4000_0000,
            0 <= cw <= 0xffff_ffff,
    ;
    assert(-0x1_0000_0000_0000_0000 <= dy * ch <= 0x1_0000_0000_0000_0000) by (nonlinear_arith)
        requires
            -0x4000_0000 <= dy <= 0x4000_0000,
            0 <= ch <= 0xffff_ffff,
    ;
    (floor_div(dx * cw, bbox.w as i128), floor_div(dy * ch, bbox.h as i128))
}

/// Whether `dst` is `src` remapped over `bbox` into a `crop_w` x `crop_h`
/// crop, vertex by vertex.
pub open spec fn remapped(src: Seq<Point>, dst: Seq<Point>, bbox: BBox, crop_w: int, crop_h: int) -> bool {
    &&& dst.len() == src.len()
    &&& forall|i: int|
        0 <= i < src.len() ==> (#[trigger] dst[i]).x == to_local(src[i].x as int, bbox.x as int, bbox.w as int, crop_w)
            && dst[i].y == to_local(src[i].y as int, bbox.y as int, bbox.h as int, crop_h)
}

pub open spec fn all_remappable(src: Seq<Point>, bbox: BBox, crop_w: u32, crop_h: u32) -> bool {
    forall|i: int| 0 <= i < src.len() ==> remap_ok(#[trigger] src[i], bbox, crop_w, crop_h)
}

/// Remaps a polygon from global to crop-local coordinates: `None` when a
/// vertex falls outside the coordinate range.
pub fn remap_polygon(poly: &Vec<Point>, bbox: &BBox, crop_w: u32, crop_h: u32) -> (r: Option<Vec<Point>>)
    ensures
        r is Some <==> all_remappable(poly@, *bbox, crop_w, crop_h),
        r matches Some(v) ==> remapped(poly@, v@, *bbox, crop_w as int, crop_h as int),
{
    let mut out: Vec<Point> = Vec::new();
    let mut i: usize = 0;
    while i < poly.len()
        invariant
            i <= poly@.len(),
            all_remappable(poly@.take(i as int), *bbox, crop_w, crop_h),
            remapped(poly@.take(i as int), out@, *bbox, crop_w as int, crop_h as int),
        decreases poly@.len() - i,
    {
        let p = poly[i];
        if !remappable(p, bbox, crop_w, crop_h) {
            assert(poly@[i as int] == p);
            return None;
        }
        let q = transform_point(p, bbox, crop_w, crop_h);
        let ghost before = out@;
        out.push(q);
        proof {
            let t = poly@.take(i + 1);
            assert(t[i as int] == p);
            assert forall|k: int| 0 <= k < t.len() implies remap_ok(#[trigger] t[k], *bbox, crop_w, crop_h) by {
                if k < i {
                    assert(t[k] == poly@.take(i as int)[k]);
                }
            }
            assert forall|k: int| 0 <= k < t.len() implies (#[trigger] out@[k]).x == to_local(t[k].x as int, bbox.x as int, bbox.w as int, crop_w as int)
                && out@[k].y == to_local(t[k].y as int, bbox.y as int, bbox.h as int, crop_h as int) by {
                if k < i {
                    assert(t[k] == poly@.take(i as int)[k]);
                    assert(out@[k] == before[k]);
                }
            }
        }
        i = i + 1;
    }
    proof {
        assert(poly@.take(i as int) =~= poly@);
    }
    Some(out)
}

/// Where and how to cut one region out of a frame.
#[derive(Clone, Debug)]
pub struct CropConfig {
    /// Normalized box of the crop (see `NORM_ONE`).
    pub bbox: BBox,
    /// Polygons in normalized global coordinates.
    pub original_polygon: Vec<Point>,
    pub effective_polygon: Vec<Point>,
    pub suffix: String,
    pub regions: Vec<RegionalPolygon>,
}

/// One region of a frame, cut out: its pixel rectangle and its polygons in
/// crop-local pixels.
#[derive(Clone, Debug)]
pub struct CropData {
    pub rect: PixelRect,
    pub original_polygon: Vec<Point>,
    pub effective_polygon: Vec<Point>,
    pub suffix: String,
    pub regions: Vec<RegionalPolygon>,
}

/// Whether every named sub-region of `src` is remappable.
pub open spec fn regions_remappable(src: Seq<RegionalPolygon>, bbox: BBox, crop_w: u32, crop_h: u32) -> bool {
    forall|i: int| 0 <= i < src.len() ==> all_remappable((#[trigger] src[i]).polygon@, bbox, crop_w, crop_h)
}

/// Whether `dst` is `src` with every polygon remapped and names kept.
pub open spec fn regions_remapped(src: Seq<RegionalPolygon>, dst: Seq<RegionalPolygon>, bbox: BBox, crop_w: int, crop_h: int) -> bool {
    &&& dst.len() == src.len()
    &&& forall|i: int|
        0 <= i < src.len() ==> (#[trigger] dst[i]).name@ == src[i].name@ && remapped(src[i].polygon@, dst[i].polygon@, bbox, crop_w, crop_h)
}

fn remap_regions(regions: &Vec<RegionalPolygon>, bbox: &BBox, crop_w: u32, crop_h: u32) -> (r: Option<Vec<RegionalPolygon>>)
    ensures
        r is Some <==> regions_remappable(regions@, *bbox, crop_w, crop_h),
        r matches Some(v) ==> regions_remapped(regions@, v@, *bbox, crop_w as int, crop_h as int),
{
    let mut out: Vec<RegionalPolygon> = Vec::new();
    let mut i: usize = 0;
    while i < regions.len()
        invariant
            i <= regions@.len(),
            regions_remappable(regions@.take(i as int), *bbox, crop_w, crop_h),
            regions_remapped(regions@.take(i as int), out@, *bbox, crop_w as int, crop_h as int),
        decreases regions@.len() - i,
    {
        let region = &regions[i];
        match remap_polygon(&region.polygon, bbox, crop_w, crop_h) {
            Some(poly) => {
                let ghost before = out@;
                let name = region.name.clone();
                out.push(RegionalPolygon { name, polygon: poly });
                proof {
                    let t = regions@.take(i + 1);
                    assert(t[i as int] == regions@[i as int]);
                    assert forall|k: int| 0 <= k < t.len() implies all_remappable((#[trigger] t[k]).polygon@, *bbox, crop_w, crop_h) by {
                        if k < i {
                            assert(t[k] == regions@.take(i as int)[k]);
                        }
                    }
                    assert forall|k: int| 0 <= k < t.len() implies (#[trigger] out@[k]).name@ == t[k].name@ && remapped(t[k].polygon@, out@[k].polygon@, *bbox, crop_w as int, crop_h as int) by {
                        if k < i {
                            assert(t[k] == regions@.take(i as int)[k]);
                            assert(out@[k] == before[k]);
                        }
                    }
                }
            },
            None => {
                proof {
                    assert(regions@[i as int] == *region);
                }
                return None;
            },
        }
        i = i + 1;
    }
    proof {
        assert(regions@.take(i as int) =~= regions@);
    }
    Some(out)
}

/// Plans the crop of one configured region in a `width` x `height` frame:
/// its pixel rectangle and its polygons remapped into the crop. Fails when
/// the rectangle has no area or a polygon leaves the coordinate range; the
/// caller skips that region only.
pub fn prepare_crop(width: u32, height: u32, config: &CropConfig) -> (r: Result<CropData, CropError>)
    ensures
        ({
            let (x, y, w, h) = crop_bounds(width as int, height as int, config.bbox);
            let ok_rect = w > 0 && h > 0;
            let fits = all_remappable(config.original_polygon@, config.bbox, w as u32, h as u32)
                && all_remappable(config.effective_polygon@, config.bbox, w as u32, h as u32)
                && regions_remappable(config.regions@, config.bbox, w as u32, h as u32);
            &&& !ok_rect ==> r == Err::<CropData, CropError>(CropError::InvalidDimensions { w: w as i64, h: h as i64 })
            &&& ok_rect && !fits ==> r == Err::<CropData, CropError>(CropError::PolygonOutOfRange)
            &&& ok_rect && fits ==> r is Ok
            &&& r matches Ok(d) ==> {
                &&& d.rect == (PixelRect { x: x as u32, y: y as u32, w: w as u32, h: h as u32 })
                &&& d.suffix@ == config.suffix@
                &&& remapped(config.original_polygon@, d.original_polygon@, config.bbox, w, h)
                &&& remapped(config.effective_polygon@, d.effective_polygon@, config.bbox, w, h)
                &&& regions_remapped(config.regions@, d.regions@, config.bbox, w, h)
            }
        }),
{
    let rect = match crop_rect(width, height, &config.bbox) {
        Ok(rect) => rect,
        Err(e) => return Err(e),
    };
    let original = remap_polygon(&config.original_polygon, &config.bbox, rect.w, rect.h);
    let effective = remap_polygon(&config.effective_polygon, &config.bbox, rect.w, rect.h);
    let regions = remap_regions(&config.regions, &config.bbox, rect.w, rect.h);
    match (original, effective, regions) {
        (Some(original_polygon), Some(effective_polygon), Some(regions)) => Ok(CropData {
            rect,
            original_polygon,
            effective_polygon,
            suffix: config.suffix.clone(),
            regions,
        }),
        _ => Err(CropError::PolygonOutOfRange),
    }
}

} // verus!
