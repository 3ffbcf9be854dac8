//! The detection stage's decisions: which sub-regions to target, which raw
//! detections to keep, and how tiled detections merge back into one crop.
use vstd::prelude::*;
use crate::frames::{EnrichedDetection, RegionalPolygon};
use crate::geometry::{BBox, Point};
use crate::nms::{Detection, all_wf, nms, nms_result, transform_detection_to_image_coords};
use crate::slicing::Tile;
use crate::score::min_int;
use crate::text::str_equals;

verus! {

pub open spec fn overview_name() -> Seq<char> {
    seq!['o', 'v', 'e', 'r', 'v', 'i', 'e', 'w']
}

pub open spec fn names_contain(targets: Seq<String>, name: Seq<char>) -> bool {
    exists|i: int| 0 <= i < targets.len() && (#[trigger] targets[i])@ == name
}

/// The polygons of the regions whose name is among `targets`, in order.
pub open spec fn targeted(regions: Seq<RegionalPolygon>, targets: Seq<String>) -> Seq<Seq<Point>>
    decreases regions.len(),
{
    if regions.len() == 0 {
        Seq::empty()
    } else {
        let prev = targeted(regions.drop_last(), targets);
        if names_contain(targets, regions.last().name@) {
            prev.push(regions.last().polygon@)
        } else {
            prev
        }
    }
}

fn name_in(targets: &Vec<String>, name: &String) -> (r: bool)
    ensures
        r == names_contain(targets@, name@),
{
    let mut i: usize = 0;
    while i < targets.len()
        invariant
            i <= targets@.len(),
            forall|k: int| 0 <= k < i ==> (#[trigger] targets@[k])@ != name@,
        decreases targets@.len() - i,
    {
        if str_equals(targets[i].as_str(), name.as_str()) {
            return true;
        }
        i = i + 1;
    }
    false
}

/// What to run detection on within one crop.
#[derive(Clone, Debug)]
pub enum RegionTargets {
    /// The whole crop.
    All,
    /// Only tiles that overlap one of these polygons.
    Only(Vec<Vec<Point>>),
    /// None of the crop's sub-regions is targeted: skip detection.
    NoMatch,
}

/// The default sub-regions to detect in: both end zones and the field.
pub fn default_targets() -> (r: Vec<String>)
    ensures
        r@.len() == 3,
        r@[0]@ == crate::frames::left_name(),
        r@[1]@ == crate::frames::right_name(),
        r@[2]@ == crate::frames::field_name(),
{
    proof {
        reveal_strlit("left");
        reveal_strlit("right");
        reveal_strlit("field");
        assert("left"@ =~= crate::frames::left_name());
        assert("right"@ =~= crate::frames::right_name());
        assert("field"@ =~= crate::frames::field_name());
    }
    let mut r: Vec<String> = Vec::new();
    r.push("left".to_owned());
    r.push("right".to_owned());
    r.push("field".to_owned());
    r
}

/// Chooses what to detect in a crop: an overview crop is restricted to its
/// targeted sub-regions (or skipped when none is targeted); any other crop
/// is searched whole.
pub fn regions_for_crop(suffix: &str, regions: &Vec<RegionalPolygon>, targets: &Vec<String>) -> (r: RegionTargets)
    ensures
        suffix@ != overview_name() ==> r is All,
        suffix@ == overview_name() && targeted(regions@, targets@).len() == 0 ==> r is NoMatch,
        suffix@ == overview_name() && targeted(regions@, targets@).len() > 0 ==> (r matches RegionTargets::Only(
            polys,
        ) && polys@.len() == targeted(regions@, targets@).len() && forall|k: int|
            0 <= k < polys@.len() ==> (#[trigger] polys@[k])@ == targeted(regions@, targets@)[k]),
{
    proof {
        reveal_strlit("overview");
        assert("overview"@ =~= overview_name());
    }
    if !str_equals(suffix, "overview") {
        return RegionTargets::All;
    }
    let mut polys: Vec<Vec<Point>> = Vec::new();
    let mut i: usize = 0;
    while i < regions.len()
        invariant
            i <= regions@.len(),
            polys@.len() == targeted(regions@.take(i as int), targets@).len(),
            forall|k: int| 0 <= k < polys@.len() ==> (#[trigger] polys@[k])@ == targeted(regions@.take(i as int), targets@)[k],
        decreases regions@.len() - i,
    {
        let ghost before = polys@;
        proof {
            assert(regions@.take(i + 1).drop_last() =~= regions@.take(i as int));
            assert(regions@.take(i + 1).last() == regions@[i as int]);
        }
        if name_in(targets, &regions[i].name) {
            polys.push(regions[i].polygon.clone());
            proof {
                assert forall|k: int| 0 <= k < polys@.len() implies (#[trigger] polys@[k])@ == targeted(regions@.take(i + 1), targets@)[k] by {
                    if k < before.len() {
                        assert(polys@[k] == before[k]);
                    }
                }
            }
        }
        i = i + 1;
    }
    proof {
        assert(regions@.take(i as int) =~= regions@);
    }
    if polys.len() == 0 {
        RegionTargets::NoMatch
    } else {
        RegionTargets::Only(polys)
    }
}

/// Whether a raw detection is kept: confident enough and of the class
/// counted (people).
pub open spec fn kept(d: Detection, min_conf: u64, class_id: usize) -> bool {
    d.confidence >= min_conf && d.class_id == class_id
}

pub open spec fn enriched(d: Detection) -> EnrichedDetection {
    EnrichedDetection {
        bbox: BBox { x: d.x, y: d.y, w: d.w, h: d.h },
        confidence: d.confidence,
        class_id: d.class_id,
        is_counted: false,
    }
}

/// The kept detections, in order, ready for counting.
pub open spec fn enriched_all(ds: Seq<Detection>, min_conf: u64, class_id: usize) -> Seq<EnrichedDetection>
    decreases ds.len(),
{
    if ds.len() == 0 {
        Seq::empty()
    } else {
        let prev = enriched_all(ds.drop_last(), min_conf, class_id);
        if kept(ds.last(), min_conf, class_id) {
            prev.push(enriched(ds.last()))
        } else {
            prev
        }
    }
}

/// Keeps the detections of class `class_id` with confidence at least
/// `min_conf`.
pub fn enrich_detections(detections: &Vec<Detection>, min_conf: u64, class_id: usize) -> (r: Vec<EnrichedDetection>)
    ensures
        r@ == enriched_all(detections@, min_conf, class_id),
{
    let mut out: Vec<EnrichedDetection> = Vec::new();
    let mut i: usize = 0;
    while i < detections.len()
        invariant
            i <= detections@.len(),
            out@ == enriched_all(detections@.take(i as int), min_conf, class_id),
        decreases detections@.len() - i,
    {
        let d = detections[i];
        proof {
            assert(detections@.take(i + 1).drop_last() =~= detections@.take(i as int));
            assert(detections@.take(i + 1).last() == d);
        }
        if d.confidence >= min_conf && d.class_id == class_id {
            out.push(EnrichedDetection {
                bbox: BBox { x: d.x, y: d.y, w: d.w, h: d.h },
                confidence: d.confidence,
                class_id: d.class_id,
                is_counted: false,
            });
        }
        i = i + 1;
    }
    proof {
        assert(detections@.take(i as int) =~= detections@);
    }
    out
}

pub open spec fn shifted(d: Detection, t: Tile) -> Detection {
    Detection { x: (d.x + t.x_offset) as i64, y: (d.y + t.y_offset) as i64, ..d }
}

/// Detections of one tile that reach `min_conf`, moved to crop coordinates.
pub open spec fn tile_candidates(ds: Seq<Detection>, t: Tile, min_conf: u64) -> Seq<Detection>
    decreases ds.len(),
{
    if ds.len() == 0 {
        Seq::empty()
    } else {
        let prev = tile_candidates(ds.drop_last(), t, min_conf);
        if ds.last().confidence >= min_conf {
            prev.push(shifted(ds.last(), t))
        } else {
            prev
        }
    }
}

/// The candidates of the first `n` tiles, tile by tile.
pub open spec fn all_candidates(tiles: Seq<Tile>, per_tile: Seq<Vec<Detection>>, min_conf: u64, n: int) -> Seq<Detection>
    decreases n,
{
    if n <= 0 {
        Seq::empty()
    } else {
        all_candidates(tiles, per_tile, min_conf, n - 1) + tile_candidates(per_tile[n - 1]@, tiles[n - 1], min_conf)
    }
}

/// Every detection fits the coordinate range once moved by its tile.
pub open spec fn shifts_ok(tiles: Seq<Tile>, per_tile: Seq<Vec<Detection>>) -> bool {
    forall|i: int, k: int|
        0 <= i < tiles.len() && i < per_tile.len() && 0 <= k < per_tile[i]@.len() ==> #[trigger] shifted(
            per_tile[i]@[k],
            tiles[i],
        ).wf() && per_tile[i]@[k].x + tiles[i].x_offset <= i64::MAX && per_tile[i]@[k].y + tiles[i].y_offset <= i64::MAX
}

/// Merges the detections of the tiles of one crop: drops those below
/// `min_conf`, moves the rest into crop coordinates, and suppresses
/// duplicates across overlapping tiles.
pub fn merge_tile_detections(tiles: &Vec<Tile>, per_tile: &Vec<Vec<Detection>>, min_conf: u64, iou_threshold: u64) -> (r: Vec<Detection>)
    requires
        shifts_ok(tiles@, per_tile@),
    ensures
        r@ == nms_result(all_candidates(tiles@, per_tile@, min_conf, min_int(tiles@.len() as int, per_tile@.len() as int)), iou_threshold),
{
    let n = if tiles.len() <= per_tile.len() {
        tiles.len()
    } else {
        per_tile.len()
    };
    let mut all: Vec<Detection> = Vec::new();
    let mut i: usize = 0;
    while i < n
        invariant
            n == min_int(tiles@.len() as int, per_tile@.len() as int),
            i <= n,
            shifts_ok(tiles@, per_tile@),
            all@ == all_candidates(tiles@, per_tile@, min_conf, i as int),
            all_wf(all@),
        decreases n - i,
    {
        let tile = tiles[i];
        let dets = &per_tile[i];
        let ghost base = all@;
        let mut k: usize = 0;
        while k < dets.len()
            invariant
                i < n,
                n == min_int(tiles@.len() as int, per_tile@.len() as int),
                k <= dets@.len(),
                tile == tiles@[i as int],
                *dets == per_tile@[i as int],
                shifts_ok(tiles@, per_tile@),
                all@ == base + tile_candidates(dets@.take(k as int), tile, min_conf),
                all_wf(all@),
            decreases dets@.len() - k,
        {
            let d = dets[k];
            proof {
                assert(dets@.take(k + 1).drop_last() =~= dets@.take(k as int));
                assert(dets@.take(k + 1).last() == d);
                assert(shifted(per_tile@[i as int]@[k as int], tiles@[i as int]).wf());
            }
            if d.confidence >= min_conf {
                let moved = transform_detection_to_image_coords(&d, tile.x_offset, tile.y_offset);
                let ghost before = all@;
                all.push(moved);
                proof {
                    assert(moved == shifted(d, tile));
                    assert(all@ =~= base + tile_candidates(dets@.take(k + 1), tile, min_conf));
                    assert forall|j: int| 0 <= j < all@.len() implies (#[trigger] all@[j]).wf() by {
                        if j < before.len() {
                            assert(all@[j] == before[j]);
                        }
                    }
                }
            }
            k = k + 1;
        }
        proof {
            assert(dets@.take(k as int) =~= dets@);
        }
        i = i + 1;
    }
    nms(all, iou_threshold)
}

} // verus!
