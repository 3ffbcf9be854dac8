//! The per-unit records that flow between stages, and occupancy counting.
use vstd::prelude::*;
use crate::geometry::{BBox, Point, inside_polygon, ring_of, polygon_ok, coord_ok, is_point_in_polygon_robust};
use crate::score::{UNIT, normalized_count, normalize_count};
use crate::text::str_equals;

verus! {

/// A named polygon inside a crop (for example an end zone).
#[derive(Clone, Debug)]
pub struct RegionalPolygon {
    pub name: String,
    pub polygon: Vec<Point>,
}

/// A detection after filtering, with the flag the feature stage sets when
/// its bottom-center lies in the region it is counted for.
#[derive(Clone, Copy, Debug, PartialEq, Eq, Structural)]
pub struct EnrichedDetection {
    /// Pixel box in crop-local coordinates: `(x, y)` is the top-left corner.
    pub bbox: BBox,
    pub confidence: u64,
    pub class_id: usize,
    pub is_counted: bool,
}

/// The detections of one crop with the polygons they are counted against.
#[derive(Clone, Debug)]
pub struct CropResult {
    pub suffix: String,
    pub detections: Vec<EnrichedDetection>,
    pub original_polygon: Vec<Point>,
    pub effective_polygon: Vec<Point>,
    pub bbox: BBox,
    pub regions: Vec<RegionalPolygon>,
}

/// One unit after detection, with the fields the feature stage derives.
#[derive(Clone, Debug)]
pub struct DetectedFrame {
    pub id: usize,
    pub results: Vec<CropResult>,
    pub left_count: u64,
    pub right_count: u64,
    pub field_count: u64,
    pub pre_point_score: u64,
    pub is_cliff: bool,
    pub left_emptied_first: bool,
    pub right_emptied_first: bool,
    pub maybe_false_positive: bool,
}

/// The bottom-center of a box, where a standing person touches the ground.
pub open spec fn bottom_center(b: BBox) -> (int, int) {
    (b.x + b.w / 2, b.y + b.h)
}

/// Whether a detection's box is non-negative in size and its bottom-center
/// is a valid coordinate.
pub open spec fn detection_ok(d: EnrichedDetection) -> bool {
    &&& d.bbox.w >= 0
    &&& d.bbox.h >= 0
    &&& coord_ok(bottom_center(d.bbox).0)
    &&& coord_ok(bottom_center(d.bbox).1)
}

pub open spec fn counted_in(d: EnrichedDetection, poly: Seq<Point>) -> bool {
    inside_polygon(ring_of(poly), bottom_center(d.bbox).0, bottom_center(d.bbox).1)
}

/// How many of the detections have their bottom-center inside `poly`.
pub open spec fn count_inside(ds: Seq<EnrichedDetection>, poly: Seq<Point>) -> int
    decreases ds.len(),
{
    if ds.len() == 0 {
        0
    } else {
        count_inside(ds.drop_last(), poly) + if counted_in(ds.last(), poly) {
            1int
        } else {
            0int
        }
    }
}

pub open spec fn result_ok(r: CropResult) -> bool {
    &&& polygon_ok(r.effective_polygon@)
    &&& forall|k: int| 0 <= k < r.detections@.len() ==> detection_ok(#[trigger] r.detections@[k])
    &&& r.detections@.len() <= u64::MAX / UNIT
}

pub open spec fn frame_ok(f: DetectedFrame) -> bool {
    forall|k: int| 0 <= k < f.results@.len() ==> result_ok(#[trigger] f.results@[k])
}

/// Marks each detection of `result` that its effective polygon contains, and
/// returns how many it marked.
pub fn count_detections(result: &mut CropResult) -> (r: usize)
    requires
        result_ok(*old(result)),
    ensures
        r as int == count_inside(old(result).detections@, old(result).effective_polygon@),
        final(result).suffix == old(result).suffix,
        final(result).effective_polygon == old(result).effective_polygon,
        final(result).original_polygon == old(result).original_polygon,
        final(result).bbox == old(result).bbox,
        final(result).regions == old(result).regions,
        final(result).detections@.len() == old(result).detections@.len(),
        forall|k: int|
            0 <= k < old(result).detections@.len() ==> #[trigger] final(result).detections@[k] == (EnrichedDetection {
                is_counted: counted_in(old(result).detections@[k], old(result).effective_polygon@),
                ..old(result).detections@[k]
            }),
        result_ok(*final(result)),
{
    let ghost ds = result.detections@;
    let ghost poly = result.effective_polygon@;
    let mut count: usize = 0;
    let mut i: usize = 0;
    while i < result.detections.len()
        invariant
            result.detections@.len() == ds.len(),
            result.effective_polygon@ == poly,
            result.suffix == old(result).suffix,
            result.effective_polygon == old(result).effective_polygon,
            result.original_polygon == old(result).original_polygon,
            result.bbox == old(result).bbox,
            result.regions == old(result).regions,
            ds == old(result).detections@,
            poly == old(result).effective_polygon@,
            result_ok(*old(result)),
            i <= ds.len(),
            count as int == count_inside(ds.take(i as int), poly),
            count <= i,
            forall|k: int| 0 <= k < i ==> #[trigger] result.detections@[k] == (EnrichedDetection { is_counted: counted_in(ds[k], poly), ..ds[k] }),
            forall|k: int| i <= k < ds.len() ==> #[trigger] result.detections@[k] == ds[k],
        decreases ds.len() - i,
    {
        let d = result.detections[i];
        assert(detection_ok(ds[i as int]));
        let bx = d.bbox.x + ((d.bbox.w as u64) / 2) as i64;
        let by = d.bbox.y + d.bbox.h;
        let inside = is_point_in_polygon_robust(bx, by, result.effective_polygon.as_slice());
        let mut nd = d;
        nd.is_counted = inside;
        result.detections.set(i, nd);
        if inside {
            count = count + 1;
        }
        proof {
            assert(ds.take(i + 1).drop_last() =~= ds.take(i as int));
            assert(ds.take(i + 1).last() == ds[i as int]);
        }
        i = i + 1;
    }
    proof {
        assert(ds.take(i as int) =~= ds);
    }
    count
}

pub open spec fn left_name() -> Seq<char> {
    seq!['l', 'e', 'f', 't']
}

pub open spec fn right_name() -> Seq<char> {
    seq!['r', 'i', 'g', 'h', 't']
}

pub open spec fn field_name() -> Seq<char> {
    seq!['f', 'i', 'e', 'l', 'd']
}

/// The occupancy of the region called `name`: the normalized count of the
/// last crop result with that suffix, 0 when there is none.
pub open spec fn occupancy(rs: Seq<CropResult>, name: Seq<char>, team_size: int) -> int
    decreases rs.len(),
{
    if rs.len() == 0 {
        0
    } else if rs.last().suffix@ == name {
        normalized_count(count_inside(rs.last().detections@, rs.last().effective_polygon@), team_size)
    } else {
        occupancy(rs.drop_last(), name, team_size)
    }
}

/// Two crop results that agree on everything detection produced: suffix,
/// polygons, box, sub-regions, and each detection's box, confidence and
/// class (only the counted flags may differ).
pub open spec fn same_input_result(a: CropResult, b: CropResult) -> bool {
    &&& a.suffix@ == b.suffix@
    &&& a.original_polygon@ == b.original_polygon@
    &&& a.effective_polygon@ == b.effective_polygon@
    &&& a.bbox == b.bbox
    &&& a.regions@ == b.regions@
    &&& a.detections@.len() == b.detections@.len()
    &&& forall|k: int|
        0 <= k < a.detections@.len() ==> (#[trigger] a.detections@[k]).bbox == b.detections@[k].bbox
            && a.detections@[k].confidence == b.detections@[k].confidence
            && a.detections@[k].class_id == b.detections@[k].class_id
}

proof fn lemma_count_same(a: Seq<EnrichedDetection>, b: Seq<EnrichedDetection>, poly: Seq<Point>)
    requires
        a.len() == b.len(),
        forall|k: int| 0 <= k < a.len() ==> (#[trigger] a[k]).bbox == b[k].bbox,
    ensures
        count_inside(a, poly) == count_inside(b, poly),
    decreases a.len(),
{
    if a.len() > 0 {
        assert forall|k: int| 0 <= k < a.drop_last().len() implies (#[trigger] a.drop_last()[k]).bbox == b.drop_last()[k].bbox by {
            assert(a[k].bbox == b[k].bbox);
        }
        lemma_count_same(a.drop_last(), b.drop_last(), poly);
        assert(a.last().bbox == b.last().bbox);
    }
}

proof fn lemma_occupancy_same(a: Seq<CropResult>, b: Seq<CropResult>, name: Seq<char>, team_size: int)
    requires
        a.len() == b.len(),
        forall|k: int| 0 <= k < a.len() ==> same_input_result(#[trigger] a[k], b[k]),
    ensures
        occupancy(a, name, team_size) == occupancy(b, name, team_size),
    decreases a.len(),
{
    if a.len() > 0 {
        assert forall|k: int| 0 <= k < a.drop_last().len() implies same_input_result(#[trigger] a.drop_last()[k], b.drop_last()[k]) by {
            assert(same_input_result(a[k], b[k]));
        }
        lemma_occupancy_same(a.drop_last(), b.drop_last(), name, team_size);
        assert(same_input_result(a.last(), b.last()));
        lemma_count_same(a.last().detections@, b.last().detections@, a.last().effective_polygon@);
    }
}

proof fn lemma_count_bound(ds: Seq<EnrichedDetection>, poly: Seq<Point>)
    ensures
        0 <= count_inside(ds, poly) <= ds.len(),
    decreases ds.len(),
{
    if ds.len() > 0 {
        lemma_count_bound(ds.drop_last(), poly);
    }
}

/// Counts the detections of every crop result of `frame` and returns the
/// left, right and field occupancies.
pub fn measure_occupancy(frame: &mut DetectedFrame, team_size: usize) -> (r: (u64, u64, u64))
    requires
        frame_ok(*old(frame)),
        team_size > 0,
    ensures
        r.0 as int == occupancy(old(frame).results@, left_name(), team_size as int),
        r.1 as int == occupancy(old(frame).results@, right_name(), team_size as int),
        r.2 as int == occupancy(old(frame).results@, field_name(), team_size as int),
        r.0 as int == occupancy(final(frame).results@, left_name(), team_size as int),
        r.1 as int == occupancy(final(frame).results@, right_name(), team_size as int),
        r.2 as int == occupancy(final(frame).results@, field_name(), team_size as int),
        final(frame).id == old(frame).id,
        final(frame).results@.len() == old(frame).results@.len(),
        forall|k: int| 0 <= k < old(frame).results@.len() ==> same_input_result(#[trigger] final(frame).results@[k], old(frame).results@[k]),
        final(frame).left_count == old(frame).left_count,
        final(frame).right_count == old(frame).right_count,
        final(frame).field_count == old(frame).field_count,
        final(frame).pre_point_score == old(frame).pre_point_score,
        final(frame).is_cliff == old(frame).is_cliff,
        final(frame).left_emptied_first == old(frame).left_emptied_first,
        final(frame).right_emptied_first == old(frame).right_emptied_first,
        final(frame).maybe_false_positive == old(frame).maybe_false_positive,
        frame_ok(*final(frame)),
{
    proof {
        reveal_strlit("left");
        reveal_strlit("right");
        reveal_strlit("field");
        assert("left"@ =~= left_name());
        assert("right"@ =~= right_name());
        assert("field"@ =~= field_name());
    }
    let ghost rs = frame.results@;
    let mut left: u64 = 0;
    let mut right: u64 = 0;
    let mut field: u64 = 0;
    let mut i: usize = 0;
    let mut results: Vec<CropResult> = Vec::new();
    std::mem::swap(&mut results, &mut frame.results);
    while i < results.len()
        invariant
            rs == old(frame).results@,
            frame.id == old(frame).id,
            results@.len() == rs.len(),
            frame_ok(*old(frame)),
            team_size > 0,
            i <= rs.len(),
            "left"@ == left_name(),
            "right"@ == right_name(),
            "field"@ == field_name(),
            left as int == occupancy(rs.take(i as int), left_name(), team_size as int),
            right as int == occupancy(rs.take(i as int), right_name(), team_size as int),
            field as int == occupancy(rs.take(i as int), field_name(), team_size as int),
            forall|k: int| 0 <= k < rs.len() ==> result_ok(#[trigger] results@[k]),
            forall|k: int| i <= k < rs.len() ==> #[trigger] results@[k] == rs[k],
            forall|k: int| 0 <= k < i ==> same_input_result(rs[k], #[trigger] results@[k]),
        decreases rs.len() - i,
    {
        let mut res = results.remove(i);
        assert(res == rs[i as int]);
        let count = count_detections(&mut res);
        proof {
            lemma_count_bound(rs[i as int].detections@, rs[i as int].effective_polygon@);
        }
        let norm = normalize_count(count, team_size);
        if str_equals(res.suffix.as_str(), "left") {
            left = norm;
        } else if str_equals(res.suffix.as_str(), "right") {
            right = norm;
        } else if str_equals(res.suffix.as_str(), "field") {
            field = norm;
        }
        let ghost before = results@;
        results.insert(i, res);
        proof {
            assert(rs.take(i + 1).drop_last() =~= rs.take(i as int));
            assert(rs.take(i + 1).last() == rs[i as int]);
            assert(res.suffix == rs[i as int].suffix);
            assert(left_name()[0] != right_name()[0]);
            assert(left_name()[0] != field_name()[0]);
            assert(right_name()[0] != field_name()[0]);
            assert forall|k: int| 0 <= k < rs.len() implies result_ok(#[trigger] results@[k]) by {
                if k < i {
                    assert(results@[k] == before[k]);
                } else if k > i {
                    assert(results@[k] == before[k - 1]);
                }
            }
            assert forall|k: int| i + 1 <= k < rs.len() implies #[trigger] results@[k] == rs[k] by {
                assert(results@[k] == before[k - 1]);
            }
            assert forall|k: int| 0 <= k < i + 1 implies same_input_result(rs[k], #[trigger] results@[k]) by {
                if k < i {
                    assert(results@[k] == before[k]);
                } else {
                    assert(results@[k] == res);
                    assert forall|m: int| 0 <= m < rs[k].detections@.len() implies (#[trigger] rs[k].detections@[m]).bbox == res.detections@[m].bbox by {
                        assert(res.detections@[m] == (EnrichedDetection { is_counted: counted_in(rs[k].detections@[m], rs[k].effective_polygon@), ..rs[k].detections@[m] }));
                    }
                }
            }
        }
        i = i + 1;
    }
    proof {
        assert(rs.take(i as int) =~= rs);
        lemma_occupancy_same(rs, results@, left_name(), team_size as int);
        lemma_occupancy_same(rs, results@, right_name(), team_size as int);
        lemma_occupancy_same(rs, results@, field_name(), team_size as int);
    }
    frame.results = results;
    (left, right, field)
}

} // verus!
