//! Tiled ("sliced") detection: tile offsets along an axis, the tile plan of a
//! crop, and the region filter that keeps only tiles touching a polygon.
use vstd::prelude::*;
use crate::score::{UNIT, min_int};
use crate::geometry::{COORD_LIMIT, Point, point_ok, inside_polygon, ring_of, polygon_ok, segments_cross, segments_intersect, is_point_in_polygon_robust};

verus! {

/// Largest overlap between neighbouring tiles, `0.5` in fixed point.
pub const MAX_OVERLAP: u64 = 5_000;

/// Default IoU above which non-maximum suppression merges two boxes.
pub const DEFAULT_NMS_IOU: u64 = 5_000;

/// Configuration for sliding-window inference.
#[derive(Clone, Copy, Debug, PartialEq, Eq, Structural)]
pub struct SliceConfig {
    /// Side of each square tile in pixels; 0 disables slicing.
    pub tile_size: u32,
    /// Overlap between neighbouring tiles, fixed point, within `[0, 0.5]`.
    pub overlap: u64,
    /// IoU threshold of the merge, fixed point.
    pub nms_iou_threshold: u64,
}

pub open spec fn stride_of(tile_size: int, overlap: int) -> int {
    (tile_size * (UNIT - overlap)) / UNIT as int
}

impl SliceConfig {
    pub open spec fn wf(&self) -> bool {
        self.overlap <= MAX_OVERLAP
    }

    /// A configuration with the given tile size and overlap (clamped to
    /// `[0, 0.5]`), merging at IoU `0.5`.
    pub fn new(tile_size: u32, overlap: u64) -> (r: Self)
        ensures
            r.wf(),
            r.tile_size == tile_size,
            r.overlap == if overlap > MAX_OVERLAP { MAX_OVERLAP } else { overlap },
            r.nms_iou_threshold == DEFAULT_NMS_IOU,
    {
        SliceConfig {
            tile_size,
            overlap: if overlap > MAX_OVERLAP {
                MAX_OVERLAP
            } else {
                overlap
            },
            nms_iou_threshold: DEFAULT_NMS_IOU,
        }
    }

    /// Slicing runs only with a positive tile size.
    pub fn is_enabled(&self) -> (r: bool)
        ensures
            r == (self.tile_size > 0),
    {
        self.tile_size > 0
    }

    /// Distance between neighbouring tile offsets: `tile_size * (1 - overlap)`,
    /// rounded down.
    pub fn stride(&self) -> (r: u32)
        requires
            self.wf(),
        ensures
            r as int == stride_of(self.tile_size as int, self.overlap as int),
            r <= self.tile_size,
            self.tile_size >= 2 ==> r >= 1,
    {
        let t = self.tile_size as u64;
        let keep = UNIT - self.overlap;
        assert(t * keep <= t * UNIT) by (nonlinear_arith)
            requires
                keep <= UNIT,
        ;
        assert(t * keep >= t * 5000) by (nonlinear_arith)
            requires
                keep >= 5000,
        ;
        let r = (t * keep) / UNIT;
        assert(r <= t) by (nonlinear_arith)
            requires
                r == (t * keep) / 10000,
                t * keep <= t * 10000,
        ;
        r as u32
    }
}

impl Default for SliceConfig {
    fn default() -> (r: Self)
        ensures
            r.tile_size == 0,
            r.overlap == 2_000,
            r.nms_iou_threshold == DEFAULT_NMS_IOU,
    {
        SliceConfig { tile_size: 0, overlap: 2_000, nms_iou_threshold: DEFAULT_NMS_IOU }
    }
}

/// Offsets `pos, pos + stride, ...` below `limit`.
pub open spec fn stride_walk(pos: int, limit: int, stride: int) -> Seq<int>
    decreases limit + stride - pos,
{
    if pos >= limit || stride <= 0 {
        Seq::empty()
    } else {
        seq![pos] + stride_walk(pos + stride, limit, stride)
    }
}

/// Whether an axis is long enough for a stride walk rather than one tile.
pub open spec fn walks(total: int, tile: int) -> bool {
    total > tile && total >= tile + tile / 4
}

/// Whether the walk's last offset gives way to the edge-aligned one.
pub open spec fn merges(w: Seq<int>, limit: int, tile: int, stride: int) -> bool {
    w.len() > 1 && limit - w.last() < stride / 2 && w[w.len() - 2] + tile >= limit
}

/// The tile offsets along an axis of length `total`: one tile at 0 when the
/// axis fits in a tile; one centered tile when the axis exceeds a tile by
/// less than a quarter; otherwise a stride walk below `total - tile` followed
/// by the edge-aligned offset `total - tile`, which replaces the walk's last
/// offset when that one lies within half a stride of the edge and the tile
/// before it already reaches the edge offset (so no pixel is left out).
pub open spec fn tile_offsets(total: int, tile: int, stride: int) -> Seq<int> {
    let limit = total - tile;
    if total <= tile {
        seq![0]
    } else if !walks(total, tile) {
        seq![limit / 2]
    } else {
        let w = stride_walk(0, limit, stride);
        if merges(w, limit, tile, stride) {
            w.drop_last().push(limit)
        } else {
            w.push(limit)
        }
    }
}

pub open spec fn strictly_increasing_int(s: Seq<int>) -> bool {
    forall|i: int, j: int| 0 <= i < j < s.len() ==> s[i] < s[j]
}

proof fn lemma_stride_walk(pos: int, limit: int, stride: int)
    requires
        stride > 0,
        pos >= 0,
    ensures
        ({
            let w = stride_walk(pos, limit, stride);
            &&& (pos < limit ==> w.len() > 0 && w[0] == pos && w.last() < limit && w.last() + stride >= limit)
            &&& (pos >= limit ==> w.len() == 0)
            &&& forall|j: int| 0 <= j < w.len() ==> pos <= #[trigger] w[j] < limit
            &&& forall|j: int| 0 < j < w.len() ==> #[trigger] w[j] == w[j - 1] + stride
        }),
    decreases limit + stride - pos,
{
    if pos < limit {
        lemma_stride_walk(pos + stride, limit, stride);
        let rest = stride_walk(pos + stride, limit, stride);
        let w = stride_walk(pos, limit, stride);
        assert(w == seq![pos] + rest);
        assert forall|j: int| 0 < j < w.len() implies #[trigger] w[j] == w[j - 1] + stride by {
            if j > 1 {
                assert(w[j] == rest[j - 1]);
                assert(w[j - 1] == rest[j - 2]);
            }
        }
        if rest.len() > 0 {
            assert(w.last() == rest.last());
        }
    }
}

proof fn lemma_walk_increasing(w: Seq<int>, stride: int)
    requires
        stride > 0,
        forall|j: int| 0 < j < w.len() ==> #[trigger] w[j] == w[j - 1] + stride,
    ensures
        strictly_increasing_int(w),
    decreases w.len(),
{
    if w.len() > 1 {
        let d = w.drop_last();
        assert forall|j: int| 0 < j < d.len() implies #[trigger] d[j] == d[j - 1] + stride by {
            assert(w[j] == w[j - 1] + stride);
        }
        lemma_walk_increasing(d, stride);
        assert forall|i: int, j: int| 0 <= i < j < w.len() implies w[i] < w[j] by {
            if j < w.len() - 1 {
                assert(d[i] < d[j]);
            } else if i < w.len() - 2 {
                assert(d[i] < d[w.len() - 2]);
                assert(w[w.len() - 1] == w[w.len() - 2] + stride);
            } else {
                assert(w[w.len() - 1] == w[w.len() - 2] + stride);
            }
        }
    }
}

/// The offsets are strictly increasing and each is a valid tile origin.
pub proof fn lemma_tile_offsets_shape(total: int, tile: int, stride: int)
    requires
        walks(total, tile) ==> stride > 0,
        tile >= 0,
        total >= 0,
    ensures
        strictly_increasing_int(tile_offsets(total, tile, stride)),
        tile_offsets(total, tile, stride).len() >= 1,
        forall|k: int|
            0 <= k < tile_offsets(total, tile, stride).len() ==> 0 <= #[trigger] tile_offsets(total, tile, stride)[k]
                && (total <= tile ==> tile_offsets(total, tile, stride)[k] == 0)
                && (total > tile ==> tile_offsets(total, tile, stride)[k] <= total - tile),
{
    if walks(total, tile) {
        let limit = total - tile;
        lemma_stride_walk(0, limit, stride);
        let w = stride_walk(0, limit, stride);
        lemma_walk_increasing(w, stride);
        let offs = tile_offsets(total, tile, stride);
        if merges(w, limit, tile, stride) {
            let d = w.drop_last();
            assert(offs == d.push(limit));
            assert forall|i: int, j: int| 0 <= i < j < offs.len() implies offs[i] < offs[j] by {
                if j < offs.len() - 1 {
                    assert(w[i] < w[j]);
                } else {
                    assert(w[i] < limit);
                }
            }
            assert forall|k: int| 0 <= k < offs.len() implies 0 <= #[trigger] offs[k] <= limit by {
                if k < offs.len() - 1 {
                    assert(offs[k] == w[k]);
                }
            }
        } else {
            assert(offs == w.push(limit));
            assert forall|i: int, j: int| 0 <= i < j < offs.len() implies offs[i] < offs[j] by {
                if j < offs.len() - 1 {
                    assert(w[i] < w[j]);
                } else {
                    assert(w[i] < limit);
                }
            }
            assert forall|k: int| 0 <= k < offs.len() implies 0 <= #[trigger] offs[k] <= limit by {
                if k < offs.len() - 1 {
                    assert(offs[k] == w[k]);
                }
            }
        }
    }
}

/// Offsets of the tiles along one axis of length `total_size` (see
/// `tile_offsets`).
pub fn generate_offsets(total_size: u32, tile_size: u32, stride: u32) -> (r: Vec<u32>)
    requires
        walks(total_size as int, tile_size as int) ==> stride > 0,
    ensures
        r@.map_values(|v: u32| v as int) == tile_offsets(total_size as int, tile_size as int, stride as int),
        r@.len() >= 1,
        strictly_increasing_int(r@.map_values(|v: u32| v as int)),
        tile_size > 0 && total_size <= tile_size ==> offsets_cover(r@.map_values(|v: u32| v as int), tile_size as int, total_size as int),
        walks(total_size as int, tile_size as int) ==> r@[0] == 0 && r@.last() + tile_size == total_size,
        walks(total_size as int, tile_size as int) && stride <= tile_size ==> offsets_cover(
            r@.map_values(|v: u32| v as int),
            tile_size as int,
            total_size as int,
        ),
{
    proof {
        lemma_tile_offsets_shape(total_size as int, tile_size as int, stride as int);
        if tile_size > 0 {
            lemma_tile_offsets_cover(total_size as int, tile_size as int, stride as int);
        }
    }
    if total_size <= tile_size {
        let r = vec![0u32];
        assert(r@.map_values(|v: u32| v as int) =~= seq![0int]);
        return r;
    }
    let limit = total_size - tile_size;
    if (total_size as u64) < tile_size as u64 + (tile_size / 4) as u64 {
        let r = vec![limit / 2];
        assert(r@.map_values(|v: u32| v as int) =~= seq![(limit / 2) as int]);
        return r;
    }
    let ghost walk = stride_walk(0, limit as int, stride as int);
    let mut offsets: Vec<u32> = Vec::new();
    let mut pos: u64 = 0;
    while pos < limit as u64
        invariant
            stride > 0,
            offsets@.map_values(|v: u32| v as int) + stride_walk(pos as int, limit as int, stride as int) == walk,
            pos <= limit as u64 + stride as u64,
        decreases limit as u64 + stride as u64 - pos,
    {
        let ghost before = offsets@.map_values(|v: u32| v as int);
        offsets.push(pos as u32);
        proof {
            assert(stride_walk(pos as int, limit as int, stride as int) == seq![pos as int]
                + stride_walk(pos as int + stride as int, limit as int, stride as int));
            assert(offsets@.map_values(|v: u32| v as int) =~= before.push(pos as int));
            assert(before.push(pos as int) + stride_walk(pos as int + stride as int, limit as int, stride as int)
                =~= before + (seq![pos as int] + stride_walk(pos as int + stride as int, limit as int, stride as int)));
        }
        pos = pos + stride as u64;
    }
    proof {
        assert(stride_walk(pos as int, limit as int, stride as int) =~= Seq::<int>::empty());
        assert(offsets@.map_values(|v: u32| v as int) =~= walk);
        lemma_stride_walk(0, limit as int, stride as int);
    }
    let n = offsets.len();
    let ghost w = offsets@.map_values(|v: u32| v as int);
    if n > 1 && limit - offsets[n - 1] < stride / 2 && offsets[n - 2] as u64 + tile_size as u64 >= limit as u64 {
        offsets.pop();
        proof {
            assert(offsets@.map_values(|v: u32| v as int) =~= w.drop_last());
        }
    }
    let ghost before = offsets@.map_values(|v: u32| v as int);
    offsets.push(limit);
    proof {
        assert(offsets@.map_values(|v: u32| v as int) =~= before.push(limit as int));
    }
    offsets
}

pub open spec fn tile_holds(o: int, tile: int, x: int) -> bool {
    o <= x < o + tile
}

/// Whether pixel `x` lies in some tile `[o, o + tile)` with `o` in `offs`.
pub open spec fn covered(offs: Seq<int>, tile: int, x: int) -> bool {
    exists|k: int| 0 <= k < offs.len() && #[trigger] tile_holds(offs[k], tile, x)
}

/// Whether every pixel `0 .. total` lies in some tile.
pub open spec fn offsets_cover(offs: Seq<int>, tile: int, total: int) -> bool {
    forall|x: int| 0 <= x < total ==> #[trigger] covered(offs, tile, x)
}

proof fn lemma_walk_reaches(w: Seq<int>, stride: int, x: int)
    requires
        w.len() > 0,
        w[0] <= x < w.last() + stride,
        forall|j: int| 0 < j < w.len() ==> #[trigger] w[j] == w[j - 1] + stride,
    ensures
        exists|k: int| 0 <= k < w.len() && #[trigger] tile_holds(w[k], stride, x),
    decreases w.len(),
{
    if x < w.last() {
        let d = w.drop_last();
        assert(w[w.len() - 1] == w[w.len() - 2] + stride);
        assert forall|j: int| 0 < j < d.len() implies #[trigger] d[j] == d[j - 1] + stride by {
            assert(w[j] == w[j - 1] + stride);
        }
        lemma_walk_reaches(d, stride, x);
        let k = choose|k: int| 0 <= k < d.len() && #[trigger] tile_holds(d[k], stride, x);
        assert(w[k] == d[k]);
        assert(tile_holds(w[k], stride, x));
    } else {
        assert(tile_holds(w[w.len() - 1], stride, x));
    }
}

/// Tile offsets for an axis of length `total` and tiles of side `tile` hold 0;
/// when the axis is longer than a tile by a quarter or more, they end with the
/// offset whose tile ends exactly at `total`; and (for a stride no longer than
/// a tile) their tiles cover `[0, total)`.
/// An axis longer than one tile by less than a quarter gets one centered tile,
/// which holds neither property.
pub proof fn lemma_tile_offsets_cover(total: int, tile: int, stride: int)
    requires
        tile > 0,
        walks(total, tile) ==> stride > 0,
        total >= 0,
    ensures
        ({
            let offs = tile_offsets(total, tile, stride);
            &&& (total <= tile ==> offs == seq![0int] && offsets_cover(offs, tile, total))
            &&& (walks(total, tile) ==> offs[0] == 0 && offs.last() + tile == total)
            &&& (walks(total, tile) && stride <= tile ==> offsets_cover(offs, tile, total))
        }),
{
    let offs = tile_offsets(total, tile, stride);
    if total <= tile {
        assert forall|x: int| 0 <= x < total implies #[trigger] covered(offs, tile, x) by {
            assert(tile_holds(offs[0], tile, x));
        }
    }
    if walks(total, tile) {
        let limit = total - tile;
        lemma_stride_walk(0, limit, stride);
        let w = stride_walk(0, limit, stride);
        let merged = merges(w, limit, tile, stride);
        if merged {
            assert(offs == w.drop_last().push(limit));
            assert(offs[0] == w[0]);
        } else {
            assert(offs == w.push(limit));
            assert(offs[0] == w[0]);
        }
        if stride <= tile {
            assert forall|x: int| 0 <= x < total implies #[trigger] covered(offs, tile, x) by {
                if x >= limit {
                    assert(tile_holds(offs[offs.len() - 1], tile, x));
                } else if merged {
                    let d = w.drop_last();
                    assert(w[w.len() - 1] == w[w.len() - 2] + stride);
                    if x < d.last() + stride {
                        assert forall|j: int| 0 < j < d.len() implies #[trigger] d[j] == d[j - 1] + stride by {
                            assert(w[j] == w[j - 1] + stride);
                        }
                        lemma_walk_reaches(d, stride, x);
                        let k = choose|k: int| 0 <= k < d.len() && #[trigger] tile_holds(d[k], stride, x);
                        assert(offs[k] == d[k]);
                        assert(tile_holds(offs[k], tile, x));
                    } else {
                        let k = d.len() - 1;
                        assert(offs[k] == d[k]);
                        assert(tile_holds(offs[k], tile, x));
                    }
                } else {
                    lemma_walk_reaches(w, stride, x);
                    let k = choose|k: int| 0 <= k < w.len() && #[trigger] tile_holds(w[k], stride, x);
                    assert(offs[k] == w[k]);
                    assert(tile_holds(offs[k], tile, x));
                }
            }
        }
    }
}


/// One tile of a crop: its origin and the part of it that lies inside the
/// crop (edge tiles are smaller than the tile size before padding).
#[derive(Clone, Copy, Debug, PartialEq, Eq, Structural)]
pub struct Tile {
    pub x_offset: u32,
    pub y_offset: u32,
    pub original_width: u32,
    pub original_height: u32,
}

impl Tile {
    /// The tile's far corner stays within the coordinate range.
    pub open spec fn wf(&self) -> bool {
        &&& self.x_offset + self.original_width <= COORD_LIMIT
        &&& self.y_offset + self.original_height <= COORD_LIMIT
    }

    pub open spec fn left(&self) -> int {
        self.x_offset as int
    }

    pub open spec fn top(&self) -> int {
        self.y_offset as int
    }

    pub open spec fn right(&self) -> int {
        self.x_offset + self.original_width
    }

    pub open spec fn bottom(&self) -> int {
        self.y_offset + self.original_height
    }

    /// Corner `k` (0..4) clockwise from the top-left.
    pub open spec fn corner(&self, k: int) -> Point {
        if k == 0 {
            Point { x: self.left() as i64, y: self.top() as i64 }
        } else if k == 1 {
            Point { x: self.right() as i64, y: self.top() as i64 }
        } else if k == 2 {
            Point { x: self.right() as i64, y: self.bottom() as i64 }
        } else {
            Point { x: self.left() as i64, y: self.bottom() as i64 }
        }
    }

    pub open spec fn holds(&self, p: Point) -> bool {
        self.left() <= p.x <= self.right() && self.top() <= p.y <= self.bottom()
    }
}

/// Whether the polygon's bounding box misses the tile entirely.
pub open spec fn bbox_misses(t: Tile, poly: Seq<Point>) -> bool {
    ||| (forall|i: int| 0 <= i < poly.len() ==> (#[trigger] poly[i]).x < t.left())
    ||| (forall|i: int| 0 <= i < poly.len() ==> (#[trigger] poly[i]).x > t.right())
    ||| (forall|i: int| 0 <= i < poly.len() ==> (#[trigger] poly[i]).y < t.top())
    ||| (forall|i: int| 0 <= i < poly.len() ==> (#[trigger] poly[i]).y > t.bottom())
}

pub open spec fn edge_crosses_tile(t: Tile, poly: Seq<Point>, i: int, k: int) -> bool {
    segments_cross(poly[i], poly[(i + 1) % (poly.len() as int)], t.corner(k), t.corner((k + 1) % 4))
}

/// Whether a tile overlaps a polygon: the polygon is not empty, its bounding
/// box meets the tile, and a polygon vertex lies in the tile (borders
/// included), or a tile corner lies inside the polygon, or a polygon edge
/// crosses a tile edge.
pub open spec fn tile_overlaps(t: Tile, poly: Seq<Point>) -> bool {
    &&& poly.len() > 0
    &&& !bbox_misses(t, poly)
    &&& {
        ||| (exists|i: int| 0 <= i < poly.len() && t.holds(#[trigger] poly[i]))
        ||| (exists|k: int|
            0 <= k < 4 && inside_polygon(ring_of(poly), #[trigger] t.corner(k).x as int, t.corner(k).y as int))
        ||| (exists|i: int, k: int| 0 <= i < poly.len() && 0 <= k < 4 && #[trigger] edge_crosses_tile(t, poly, i, k))
    }
}

/// Whether `tile` overlaps `poly`, tested cheapest first: bounding boxes,
/// polygon vertices in the tile, tile corners in the polygon, edge crossings.
pub fn is_tile_overlapping_polygon(tile: &Tile, poly: &[Point]) -> (r: bool)
    requires
        tile.wf(),
        polygon_ok(poly@),
    ensures
        r == tile_overlaps(*tile, poly@),
{
    let n = poly.len();
    if n == 0 {
        return false;
    }
    let tx = tile.x_offset as i64;
    let ty = tile.y_offset as i64;
    let tr = tile.x_offset as i64 + tile.original_width as i64;
    let tb = tile.y_offset as i64 + tile.original_height as i64;
    let mut all_left = true;
    let mut all_right = true;
    let mut all_above = true;
    let mut all_below = true;
    let mut i: usize = 0;
    while i < n
        invariant
            n == poly@.len(),
            i <= n,
            tx == tile.left(),
            tr == tile.right(),
            ty == tile.top(),
            tb == tile.bottom(),
            all_left == forall|k: int| 0 <= k < i ==> (#[trigger] poly@[k]).x < tile.left(),
            all_right == forall|k: int| 0 <= k < i ==> (#[trigger] poly@[k]).x > tile.right(),
            all_above == forall|k: int| 0 <= k < i ==> (#[trigger] poly@[k]).y < tile.top(),
            all_below == forall|k: int| 0 <= k < i ==> (#[trigger] poly@[k]).y > tile.bottom(),
        decreases n - i,
    {
        let p = poly[i];
        all_left = all_left && p.x < tx;
        all_right = all_right && p.x > tr;
        all_above = all_above && p.y < ty;
        all_below = all_below && p.y > tb;
        i = i + 1;
    }
    if all_left || all_right || all_above || all_below {
        return false;
    }
    assert(!bbox_misses(*tile, poly@));
    assert(forall|k: int| 0 <= k < 4 ==> point_ok(#[trigger] tile.corner(k)));
    let mut v: usize = 0;
    while v < n
        invariant
            n == poly@.len(),
            v <= n,
            tx == tile.left(),
            tr == tile.right(),
            ty == tile.top(),
            tb == tile.bottom(),
            forall|k: int| 0 <= k < v ==> !tile.holds(#[trigger] poly@[k]),
            !bbox_misses(*tile, poly@),
        decreases n - v,
    {
        let p = poly[v];
        if p.x >= tx && p.x <= tr && p.y >= ty && p.y <= tb {
            assert(tile.holds(poly@[v as int]));
            return true;
        }
        v = v + 1;
    }
    let corners = [
        Point { x: tx, y: ty },
        Point { x: tr, y: ty },
        Point { x: tr, y: tb },
        Point { x: tx, y: tb },
    ];
    assert(forall|k: int| 0 <= k < 4 ==> corners@[k] == tile.corner(k));
    let mut c: usize = 0;
    while c < 4
        invariant
            c <= 4,
            tile.wf(),
            polygon_ok(poly@),
            forall|k: int| 0 <= k < 4 ==> corners@[k] == tile.corner(k),
            forall|k: int| 0 <= k < 4 ==> point_ok(#[trigger] tile.corner(k)),
            !bbox_misses(*tile, poly@),
            poly@.len() > 0,
            forall|k: int| 0 <= k < poly@.len() ==> !tile.holds(#[trigger] poly@[k]),
            forall|k: int| 0 <= k < c ==> !inside_polygon(ring_of(poly@), #[trigger] tile.corner(k).x as int, tile.corner(k).y as int),
        decreases 4 - c,
    {
        let q = corners[c];
        assert(q == tile.corner(c as int));
        assert(point_ok(tile.corner(c as int)));
        if is_point_in_polygon_robust(q.x, q.y, poly) {
            return true;
        }
        c = c + 1;
    }
    let mut e: usize = 0;
    while e < n
        invariant
            n == poly@.len(),
            n > 0,
            e <= n,
            tile.wf(),
            polygon_ok(poly@),
            forall|k: int| 0 <= k < 4 ==> corners@[k] == tile.corner(k),
            forall|k: int| 0 <= k < 4 ==> point_ok(#[trigger] tile.corner(k)),
            !bbox_misses(*tile, poly@),
            forall|k: int| 0 <= k < poly@.len() ==> !tile.holds(#[trigger] poly@[k]),
            forall|k: int| 0 <= k < 4 ==> !inside_polygon(ring_of(poly@), #[trigger] tile.corner(k).x as int, tile.corner(k).y as int),
            forall|a: int, k: int| 0 <= a < e && 0 <= k < 4 ==> !#[trigger] edge_crosses_tile(*tile, poly@, a, k),
        decreases n - e,
    {
        let p1 = poly[e];
        let p2 = poly[(e + 1) % n];
        let mut k: usize = 0;
        while k < 4
            invariant
                n == poly@.len(),
                e < n,
                k <= 4,
                tile.wf(),
                polygon_ok(poly@),
                p1 == poly@[e as int],
                p2 == poly@[(e as int + 1) % (n as int)],
                forall|j: int| 0 <= j < 4 ==> corners@[j] == tile.corner(j),
                forall|j: int| 0 <= j < 4 ==> point_ok(#[trigger] tile.corner(j)),
                !bbox_misses(*tile, poly@),
                forall|j: int| 0 <= j < k ==> !#[trigger] edge_crosses_tile(*tile, poly@, e as int, j),
            decreases 4 - k,
        {
            let v1 = corners[k];
            let v2 = corners[(k + 1) % 4];
            assert(v1 == tile.corner(k as int));
            assert(v2 == tile.corner((k as int + 1) % 4));
            assert(point_ok(tile.corner(k as int)));
            assert(point_ok(tile.corner((k as int + 1) % 4)));
            if segments_intersect(p1, p2, v1, v2) {
                assert(edge_crosses_tile(*tile, poly@, e as int, k as int));
                return true;
            }
            k = k + 1;
        }
        e = e + 1;
    }
    false
}


/// The tile at offset `(xo, yo)` of a `w` x `h` crop.
pub open spec fn tile_at(xo: int, yo: int, tile: int, w: int, h: int) -> Tile {
    Tile {
        x_offset: xo as u32,
        y_offset: yo as u32,
        original_width: min_int(tile, w - xo) as u32,
        original_height: min_int(tile, h - yo) as u32,
    }
}

/// Whether a tile is kept: always without target regions, else when it
/// overlaps one of them.
pub open spec fn keeps(t: Tile, regions: Option<Seq<Vec<Point>>>) -> bool {
    match regions {
        None => true,
        Some(rs) => overlaps_any(t, rs),
    }
}

/// Whether the tile overlaps at least one of the polygons.
pub open spec fn overlaps_any(t: Tile, polys: Seq<Vec<Point>>) -> bool {
    exists|i: int| 0 <= i < polys.len() && tile_overlaps(t, #[trigger] polys[i]@)
}

/// The kept tiles of the row at `yo`, over the first `c` column offsets.
pub open spec fn row_tiles(
    xs: Seq<int>,
    yo: int,
    tile: int,
    w: int,
    h: int,
    regions: Option<Seq<Vec<Point>>>,
    c: int,
) -> Seq<Tile>
    decreases c,
{
    if c <= 0 {
        Seq::empty()
    } else {
        let prev = row_tiles(xs, yo, tile, w, h, regions, c - 1);
        let t = tile_at(xs[c - 1], yo, tile, w, h);
        if keeps(t, regions) {
            prev.push(t)
        } else {
            prev
        }
    }
}

/// The kept tiles of the first `r` rows, row by row.
pub open spec fn plan_rows(
    xs: Seq<int>,
    ys: Seq<int>,
    tile: int,
    w: int,
    h: int,
    regions: Option<Seq<Vec<Point>>>,
    r: int,
) -> Seq<Tile>
    decreases r,
{
    if r <= 0 {
        Seq::empty()
    } else {
        plan_rows(xs, ys, tile, w, h, regions, r - 1) + row_tiles(xs, ys[r - 1], tile, w, h, regions, xs.len() as int)
    }
}

/// The tiles of a `w` x `h` crop, row by row, that the region filter keeps;
/// none when slicing is disabled.
pub open spec fn tile_plan(w: int, h: int, config: SliceConfig, regions: Option<Seq<Vec<Point>>>) -> Seq<Tile> {
    let t = config.tile_size as int;
    let s = stride_of(t, config.overlap as int);
    if t == 0 {
        Seq::empty()
    } else {
        let xs = tile_offsets(w, t, s);
        let ys = tile_offsets(h, t, s);
        plan_rows(xs, ys, t, w, h, regions, ys.len() as int)
    }
}

pub open spec fn regions_view(regions: Option<&Vec<Vec<Point>>>) -> Option<Seq<Vec<Point>>> {
    match regions {
        Some(r) => Some(r@),
        None => None,
    }
}

pub open spec fn regions_ok(regions: Option<&Vec<Vec<Point>>>) -> bool {
    match regions {
        Some(r) => forall|i: int| 0 <= i < r@.len() ==> polygon_ok(#[trigger] r@[i]@),
        None => true,
    }
}

fn keeps_tile(t: &Tile, regions: Option<&Vec<Vec<Point>>>) -> (r: bool)
    requires
        t.wf(),
        regions_ok(regions),
    ensures
        r == keeps(*t, regions_view(regions)),
{
    match regions {
        None => true,
        Some(polys) => {
            assert(regions_view(regions) == Some(polys@));
            let mut i: usize = 0;
            while i < polys.len()
                invariant
                    i <= polys@.len(),
                    t.wf(),
                    regions_view(regions) == Some(polys@),
                    forall|k: int| 0 <= k < polys@.len() ==> polygon_ok(#[trigger] polys@[k]@),
                    forall|k: int| 0 <= k < i ==> !tile_overlaps(*t, #[trigger] polys@[k]@),
                decreases polys@.len() - i,
            {
                if is_tile_overlapping_polygon(t, polys[i].as_slice()) {
                    assert(tile_overlaps(*t, polys@[i as int]@));
                    assert(overlaps_any(*t, polys@));
                    return true;
                }
                i = i + 1;
            }
            false
        },
    }
}

/// Plans the overlapping tiles of a `img_w` x `img_h` crop, optionally keeping
/// only those that overlap one of the target `regions`.
pub fn generate_tiles(img_w: u32, img_h: u32, config: &SliceConfig, regions: Option<&Vec<Vec<Point>>>) -> (r: Vec<Tile>)
    requires
        config.wf(),
        config.tile_size > 0 ==> stride_of(config.tile_size as int, config.overlap as int) > 0,
        img_w <= COORD_LIMIT,
        img_h <= COORD_LIMIT,
        regions_ok(regions),
    ensures
        r@ == tile_plan(img_w as int, img_h as int, *config, regions_view(regions)),
{
    let mut tiles: Vec<Tile> = Vec::new();
    if !config.is_enabled() {
        return tiles;
    }
    let t = config.tile_size;
    let stride = config.stride();
    let xs = generate_offsets(img_w, t, stride);
    let ys = generate_offsets(img_h, t, stride);
    let ghost gx = tile_offsets(img_w as int, t as int, stride as int);
    let ghost gy = tile_offsets(img_h as int, t as int, stride as int);
    proof {
        lemma_tile_offsets_shape(img_w as int, t as int, stride as int);
        lemma_tile_offsets_shape(img_h as int, t as int, stride as int);
        assert(xs@.len() == gx.len());
        assert(ys@.len() == gy.len());
        assert(forall|k: int| 0 <= k < xs@.len() ==> xs@[k] as int == #[trigger] gx[k]);
        assert(forall|k: int| 0 <= k < ys@.len() ==> ys@[k] as int == #[trigger] gy[k]);
    }
    let ghost rv = regions_view(regions);
    let mut r: usize = 0;
    while r < ys.len()
        invariant
            r <= ys@.len() == gy.len(),
            xs@.len() == gx.len(),
            forall|k: int| 0 <= k < xs@.len() ==> xs@[k] as int == #[trigger] gx[k],
            forall|k: int| 0 <= k < ys@.len() ==> ys@[k] as int == #[trigger] gy[k],
            forall|k: int| 0 <= k < gx.len() ==> 0 <= #[trigger] gx[k] && (img_w <= t ==> gx[k] == 0) && (img_w > t ==> gx[k] <= img_w - t),
            forall|k: int| 0 <= k < gy.len() ==> 0 <= #[trigger] gy[k] && (img_h <= t ==> gy[k] == 0) && (img_h > t ==> gy[k] <= img_h - t),
            img_w <= COORD_LIMIT,
            img_h <= COORD_LIMIT,
            regions_ok(regions),
            rv == regions_view(regions),
            tiles@ == plan_rows(gx, gy, t as int, img_w as int, img_h as int, rv, r as int),
        decreases ys@.len() - r,
    {
        let tile_y = ys[r];
        assert(tile_y as int == gy[r as int]);
        let ghost base = tiles@;
        let mut c: usize = 0;
        while c < xs.len()
            invariant
                r < ys@.len() == gy.len(),
                c <= xs@.len() == gx.len(),
                tile_y as int == gy[r as int],
                forall|k: int| 0 <= k < xs@.len() ==> xs@[k] as int == #[trigger] gx[k],
                forall|k: int| 0 <= k < gx.len() ==> 0 <= #[trigger] gx[k] && (img_w <= t ==> gx[k] == 0) && (img_w > t ==> gx[k] <= img_w - t),
                0 <= tile_y && (img_h <= t ==> tile_y == 0) && (img_h > t ==> tile_y <= img_h - t),
                img_w <= COORD_LIMIT,
                img_h <= COORD_LIMIT,
                regions_ok(regions),
                rv == regions_view(regions),
                tiles@ == base + row_tiles(gx, tile_y as int, t as int, img_w as int, img_h as int, rv, c as int),
            decreases xs@.len() - c,
        {
            let tile_x = xs[c];
            assert(tile_x as int == gx[c as int]);
            let tile_w = if t <= img_w - tile_x {
                t
            } else {
                img_w - tile_x
            };
            let tile_h = if t <= img_h - tile_y {
                t
            } else {
                img_h - tile_y
            };
            let tile = Tile { x_offset: tile_x, y_offset: tile_y, original_width: tile_w, original_height: tile_h };
            assert(tile == tile_at(gx[c as int], tile_y as int, t as int, img_w as int, img_h as int));
            let ghost before = tiles@;
            if keeps_tile(&tile, regions) {
                tiles.push(tile);
                proof {
                    assert(before.push(tile) =~= base + row_tiles(gx, tile_y as int, t as int, img_w as int, img_h as int, rv, c as int).push(tile));
                }
            }
            c = c + 1;
        }
        r = r + 1;
    }
    tiles
}

} // verus!
