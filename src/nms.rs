//! Detections, overlap, and confidence-ordered greedy non-maximum suppression.
use vstd::prelude::*;
use crate::geometry::COORD_LIMIT;
use crate::score::{UNIT, max_int, min_int};

verus! {

/// One detected object: a pixel box in crop-local coordinates, its
/// fixed-point confidence and its class.
#[derive(Clone, Copy, Debug, PartialEq, Eq, Structural)]
pub struct Detection {
    pub x: i64,
    pub y: i64,
    pub w: i64,
    pub h: i64,
    pub confidence: u64,
    pub class_id: usize,
}

impl Detection {
    /// Coordinates and sizes small enough for exact overlap arithmetic.
    pub open spec fn wf(&self) -> bool {
        &&& -COORD_LIMIT <= self.x <= COORD_LIMIT
        &&& -COORD_LIMIT <= self.y <= COORD_LIMIT
        &&& -COORD_LIMIT <= self.w <= COORD_LIMIT
        &&& -COORD_LIMIT <= self.h <= COORD_LIMIT
    }
}

pub open spec fn all_wf(s: Seq<Detection>) -> bool {
    forall|i: int| 0 <= i < s.len() ==> (#[trigger] s[i]).wf()
}

/// Whether the intersection-over-union of `a` and `b` exceeds `threshold`
/// (fixed point); boxes that do not intersect, or whose union has no area,
/// have IoU 0.
pub open spec fn iou_exceeds(a: Detection, b: Detection, threshold: u64) -> bool {
    let x1 = max_int(a.x as int, b.x as int);
    let y1 = max_int(a.y as int, b.y as int);
    let x2 = min_int(a.x + a.w, b.x + b.w);
    let y2 = min_int(a.y + a.h, b.y + b.h);
    if x2 <= x1 || y2 <= y1 {
        false
    } else {
        let inter = (x2 - x1) * (y2 - y1);
        let union = a.w * a.h + b.w * b.h - inter;
        union > 0 && inter * UNIT > threshold * union
    }
}

/// Overlap test of two boxes against an IoU threshold.
pub fn compute_iou_exceeds(a: &Detection, b: &Detection, threshold: u64) -> (r: bool)
    requires
        a.wf(),
        b.wf(),
    ensures
        r == iou_exceeds(*a, *b, threshold),
{
    let ax = a.x as i128;
    let ay = a.y as i128;
    let aw = a.w as i128;
    let ah = a.h as i128;
    let bx = b.x as i128;
    let by = b.y as i128;
    let bw = b.w as i128;
    let bh = b.h as i128;
    let x1 = if ax >= bx {
        ax
    } else {
        bx
    };
    let y1 = if ay >= by {
        ay
    } else {
        by
    };
    let x2 = if ax + aw <= bx + bw {
        ax + aw
    } else {
        bx + bw
    };
    let y2 = if ay + ah <= by + bh {
        ay + ah
    } else {
        by + bh
    };
    if x2 <= x1 || y2 <= y1 {
        return false;
    }
    let dx = x2 - x1;
    let dy = y2 - y1;
    assert(0 < dx * dy <= 0x4000_0000_0000_0000) by (nonlinear_arith)
        requires
            0 < dx <= 0x8000_0000,
            0 < dy <= 0x8000_0000,
    ;
    assert(-0x400_0000_0000_0000 <= aw * ah <= 0x400_0000_0000_0000) by (nonlinear_arith)
        requires
            -0x2000_0000 <= aw <= 0x2000_0000,
            -0x2000_0000 <= ah <= 0x2000_0000,
    ;
    assert(-0x400_0000_0000_0000 <= bw * bh <= 0x400_0000_0000_0000) by (nonlinear_arith)
        requires
            -0x2000_0000 <= bw <= 0x2000_0000,
            -0x2000_0000 <= bh <= 0x2000_0000,
    ;
    let inter = dx * dy;
    let union = aw * ah + bw * bh - inter;
    if union <= 0 {
        return false;
    }
    let t = threshold as i128;
    assert(t * union <= 0x1_0000_0000_0000_0000 * 0x800_0000_0000_0000) by (nonlinear_arith)
        requires
            0 <= t <= 0x1_0000_0000_0000_0000,
            0 < union <= 0x800_0000_0000_0000,
    ;
    inter * (UNIT as i128) > t * union
}

/// Inserts `d` into a confidence-ordered sequence after every element whose
/// confidence is at least `d`'s (so equal confidences keep arrival order).
pub open spec fn insert_desc(s: Seq<Detection>, d: Detection) -> Seq<Detection>
    decreases s.len(),
{
    if s.len() == 0 {
        seq![d]
    } else if s.last().confidence >= d.confidence {
        s.push(d)
    } else {
        insert_desc(s.drop_last(), d).push(s.last())
    }
}

/// Where `insert_desc` places `d`.
pub open spec fn insert_pos(s: Seq<Detection>, d: Detection) -> int
    decreases s.len(),
{
    if s.len() == 0 {
        0
    } else if s.last().confidence >= d.confidence {
        s.len() as int
    } else {
        insert_pos(s.drop_last(), d)
    }
}

/// Stable sort by confidence, highest first.
pub open spec fn sort_desc(s: Seq<Detection>) -> Seq<Detection>
    decreases s.len(),
{
    if s.len() == 0 {
        s
    } else {
        insert_desc(sort_desc(s.drop_last()), s.last())
    }
}

pub open spec fn sorted_desc(s: Seq<Detection>) -> bool {
    forall|i: int, j: int| 0 <= i < j < s.len() ==> s[i].confidence >= s[j].confidence
}

/// Greedy suppression over an already ordered sequence: an element is kept
/// unless an earlier kept element overlaps it beyond the threshold.
pub open spec fn nms_keep(s: Seq<Detection>, threshold: u64) -> Seq<Detection>
    decreases s.len(),
{
    if s.len() == 0 {
        s
    } else {
        let k = nms_keep(s.drop_last(), threshold);
        if exists|i: int| 0 <= i < k.len() && iou_exceeds(#[trigger] k[i], s.last(), threshold) {
            k
        } else {
            k.push(s.last())
        }
    }
}

/// The result of non-maximum suppression of `s`.
pub open spec fn nms_result(s: Seq<Detection>, threshold: u64) -> Seq<Detection> {
    nms_keep(sort_desc(s), threshold)
}

proof fn lemma_insert_pos(s: Seq<Detection>, d: Detection)
    ensures
        0 <= insert_pos(s, d) <= s.len(),
        insert_desc(s, d) == s.insert(insert_pos(s, d), d),
    decreases s.len(),
{
    if s.len() > 0 && s.last().confidence < d.confidence {
        lemma_insert_pos(s.drop_last(), d);
        let j = insert_pos(s.drop_last(), d);
        assert(s.drop_last().insert(j, d).push(s.last()) =~= s.insert(j, d));
    } else if s.len() > 0 {
        assert(s.push(d) =~= s.insert(s.len() as int, d));
    } else {
        assert(seq![d] =~= s.insert(0, d));
    }
}

proof fn lemma_insert_members(s: Seq<Detection>, d: Detection)
    ensures
        insert_desc(s, d).len() == s.len() + 1,
        forall|i: int|
            0 <= i < insert_desc(s, d).len() ==> #[trigger] insert_desc(s, d)[i] == d || s.contains(
                insert_desc(s, d)[i],
            ),
    decreases s.len(),
{
    lemma_insert_pos(s, d);
    let j = insert_pos(s, d);
    let r = insert_desc(s, d);
    assert forall|i: int| 0 <= i < r.len() implies #[trigger] r[i] == d || s.contains(r[i]) by {
        if i < j {
            assert(r[i] == s[i]);
        } else if i > j {
            assert(r[i] == s[i - 1]);
        }
    }
}

proof fn lemma_insert_sorted(s: Seq<Detection>, d: Detection)
    requires
        sorted_desc(s),
    ensures
        sorted_desc(insert_desc(s, d)),
    decreases s.len(),
{
    if s.len() > 0 && s.last().confidence < d.confidence {
        let p = s.drop_last();
        lemma_insert_sorted(p, d);
        lemma_insert_members(p, d);
        let r = insert_desc(p, d);
        let full = r.push(s.last());
        assert forall|i: int, j: int| 0 <= i < j < full.len() implies full[i].confidence >= full[j].confidence by {
            if j == full.len() - 1 {
                assert(full[i] == r[i]);
                if r[i] != d {
                    assert(p.contains(r[i]));
                    let k = choose|k: int| 0 <= k < p.len() && p[k] == r[i];
                    assert(s[k] == p[k]);
                }
            } else {
                assert(full[i] == r[i]);
                assert(full[j] == r[j]);
            }
        }
    }
}

proof fn lemma_sort_sorted(s: Seq<Detection>)
    ensures
        sorted_desc(sort_desc(s)),
        sort_desc(s).len() == s.len(),
    decreases s.len(),
{
    if s.len() > 0 {
        lemma_sort_sorted(s.drop_last());
        lemma_insert_sorted(sort_desc(s.drop_last()), s.last());
        lemma_insert_members(sort_desc(s.drop_last()), s.last());
    }
}

proof fn lemma_sort_of_sorted(s: Seq<Detection>)
    requires
        sorted_desc(s),
    ensures
        sort_desc(s) == s,
    decreases s.len(),
{
    if s.len() > 0 {
        let p = s.drop_last();
        assert(sorted_desc(p));
        lemma_sort_of_sorted(p);
        if p.len() > 0 {
            assert(p.last() == s[s.len() - 2]);
        }
        assert(p.push(s.last()) =~= s);
    }
}

proof fn lemma_keep_members(s: Seq<Detection>, threshold: u64)
    ensures
        forall|i: int| 0 <= i < nms_keep(s, threshold).len() ==> s.contains(#[trigger] nms_keep(s, threshold)[i]),
        nms_keep(s, threshold).len() <= s.len(),
    decreases s.len(),
{
    if s.len() > 0 {
        let p = s.drop_last();
        lemma_keep_members(p, threshold);
        let k = nms_keep(p, threshold);
        let r = nms_keep(s, threshold);
        assert forall|i: int| 0 <= i < r.len() implies s.contains(#[trigger] r[i]) by {
            if i < k.len() {
                assert(r[i] == k[i]);
                assert(p.contains(k[i]));
                let m = choose|m: int| 0 <= m < p.len() && p[m] == k[i];
                assert(s[m] == p[m]);
            } else {
                assert(r[i] == s[s.len() - 1]);
            }
        }
    }
}

proof fn lemma_keep_sorted(s: Seq<Detection>, threshold: u64)
    requires
        sorted_desc(s),
    ensures
        sorted_desc(nms_keep(s, threshold)),
    decreases s.len(),
{
    if s.len() > 0 {
        let p = s.drop_last();
        lemma_keep_sorted(p, threshold);
        lemma_keep_members(p, threshold);
        let k = nms_keep(p, threshold);
        let r = nms_keep(s, threshold);
        if r != k {
            assert forall|i: int, j: int| 0 <= i < j < r.len() implies r[i].confidence >= r[j].confidence by {
                assert(r[i] == k[i]);
                if j == r.len() - 1 {
                    assert(p.contains(k[i]));
                    let m = choose|m: int| 0 <= m < p.len() && p[m] == k[i];
                    assert(s[m] == p[m]);
                } else {
                    assert(r[j] == k[j]);
                }
            }
        }
    }
}

/// No kept element is suppressed by an earlier kept element.
pub open spec fn mutually_clear(s: Seq<Detection>, threshold: u64) -> bool {
    forall|i: int, j: int| 0 <= i < j < s.len() ==> !iou_exceeds(#[trigger] s[i], #[trigger] s[j], threshold)
}

proof fn lemma_keep_clear(s: Seq<Detection>, threshold: u64)
    ensures
        mutually_clear(nms_keep(s, threshold), threshold),
    decreases s.len(),
{
    if s.len() > 0 {
        let p = s.drop_last();
        lemma_keep_clear(p, threshold);
        let k = nms_keep(p, threshold);
        let r = nms_keep(s, threshold);
        if r != k {
            assert forall|i: int, j: int| 0 <= i < j < r.len() implies !iou_exceeds(#[trigger] r[i], #[trigger] r[j], threshold) by {
                assert(r[i] == k[i]);
                if j < r.len() - 1 {
                    assert(r[j] == k[j]);
                }
            }
        }
    }
}

proof fn lemma_keep_of_clear(s: Seq<Detection>, threshold: u64)
    requires
        mutually_clear(s, threshold),
    ensures
        nms_keep(s, threshold) == s,
    decreases s.len(),
{
    if s.len() > 0 {
        let p = s.drop_last();
        assert(mutually_clear(p, threshold)) by {
            assert forall|i: int, j: int| 0 <= i < j < p.len() implies !iou_exceeds(#[trigger] p[i], #[trigger] p[j], threshold) by {
                assert(p[i] == s[i] && p[j] == s[j]);
            }
        }
        lemma_keep_of_clear(p, threshold);
        assert forall|i: int| 0 <= i < p.len() implies !iou_exceeds(#[trigger] p[i], s.last(), threshold) by {
            assert(p[i] == s[i]);
            assert(s.last() == s[s.len() - 1]);
        }
        assert(p.push(s.last()) =~= s);
    }
}

/// Non-maximum suppression is idempotent: suppressing its own output again
/// changes nothing.
pub proof fn lemma_nms_idempotent(s: Seq<Detection>, threshold: u64)
    ensures
        nms_result(nms_result(s, threshold), threshold) == nms_result(s, threshold),
{
    let y = nms_result(s, threshold);
    lemma_sort_sorted(s);
    lemma_keep_sorted(sort_desc(s), threshold);
    lemma_sort_of_sorted(y);
    lemma_keep_clear(sort_desc(s), threshold);
    lemma_keep_of_clear(y, threshold);
}

/// The detections ordered by confidence, highest first; ties keep their order.
fn sort_by_confidence(detections: &Vec<Detection>) -> (r: Vec<Detection>)
    ensures
        r@ == sort_desc(detections@),
{
    let mut sorted: Vec<Detection> = Vec::new();
    let mut i: usize = 0;
    while i < detections.len()
        invariant
            i <= detections@.len(),
            sorted@ == sort_desc(detections@.take(i as int)),
        decreases detections@.len() - i,
    {
        let d = detections[i];
        let mut j: usize = sorted.len();
        assert(sorted@.take(j as int) =~= sorted@);
        while j > 0 && sorted[j - 1].confidence < d.confidence
            invariant
                j <= sorted@.len(),
                insert_pos(sorted@, d) == insert_pos(sorted@.take(j as int), d),
            decreases j,
        {
            proof {
                let t = sorted@.take(j as int);
                assert(t.drop_last() =~= sorted@.take(j - 1));
            }
            j = j - 1;
        }
        proof {
            let t = sorted@.take(j as int);
            if j > 0 {
                assert(t.last() == sorted@[j - 1]);
            }
            assert(insert_pos(t, d) == j);
            lemma_insert_pos(sorted@, d);
            assert(detections@.take(i + 1).drop_last() =~= detections@.take(i as int));
        }
        sorted.insert(j, d);
        i = i + 1;
    }
    proof {
        assert(detections@.take(i as int) =~= detections@);
    }
    sorted
}

/// Confidence-ordered greedy non-maximum suppression: the most confident
/// remaining box suppresses every later box whose IoU with it exceeds
/// `iou_threshold`, repeatedly, until none remain.
pub fn nms(detections: Vec<Detection>, iou_threshold: u64) -> (r: Vec<Detection>)
    requires
        all_wf(detections@),
    ensures
        r@ == nms_result(detections@, iou_threshold),
{
    let sorted = sort_by_confidence(&detections);
    proof {
        lemma_sort_sorted(detections@);
    }
    assert(all_wf(sorted@)) by {
        lemma_sort_members(detections@);
    }
    let mut keep: Vec<Detection> = Vec::new();
    let mut i: usize = 0;
    while i < sorted.len()
        invariant
            i <= sorted@.len(),
            all_wf(sorted@),
            keep@ == nms_keep(sorted@.take(i as int), iou_threshold),
            all_wf(keep@),
        decreases sorted@.len() - i,
    {
        let d = sorted[i];
        let mut suppressed = false;
        let mut k: usize = 0;
        while k < keep.len()
            invariant
                k <= keep@.len(),
                all_wf(keep@),
                d.wf(),
                suppressed == exists|m: int| 0 <= m < k && iou_exceeds(#[trigger] keep@[m], d, iou_threshold),
            decreases keep@.len() - k,
        {
            if compute_iou_exceeds(&keep[k], &d, iou_threshold) {
                suppressed = true;
            }
            k = k + 1;
        }
        proof {
            assert(sorted@.take(i + 1).drop_last() =~= sorted@.take(i as int));
            assert(sorted@.take(i + 1).last() == d);
        }
        if !suppressed {
            keep.push(d);
        }
        i = i + 1;
    }
    proof {
        assert(sorted@.take(i as int) =~= sorted@);
    }
    keep
}

proof fn lemma_sort_members(s: Seq<Detection>)
    requires
        all_wf(s),
    ensures
        all_wf(sort_desc(s)),
    decreases s.len(),
{
    if s.len() > 0 {
        let p = s.drop_last();
        assert(all_wf(p)) by {
            assert forall|i: int| 0 <= i < p.len() implies (#[trigger] p[i]).wf() by {
                assert(p[i] == s[i]);
            }
        }
        lemma_sort_members(p);
        lemma_insert_members(sort_desc(p), s.last());
        let r = sort_desc(s);
        assert forall|i: int| 0 <= i < r.len() implies (#[trigger] r[i]).wf() by {
            if r[i] != s.last() {
                let k = choose|k: int| 0 <= k < sort_desc(p).len() && sort_desc(p)[k] == r[i];
            }
        }
    }
}

/// Moves a detection from tile coordinates to the coordinates of the crop
/// the tile was cut from.
pub fn transform_detection_to_image_coords(detection: &Detection, x_offset: u32, y_offset: u32) -> (r: Detection)
    requires
        detection.x + x_offset <= i64::MAX,
        detection.y + y_offset <= i64::MAX,
    ensures
        r.x == detection.x + x_offset,
        r.y == detection.y + y_offset,
        r.w == detection.w,
        r.h == detection.h,
        r.confidence == detection.confidence,
        r.class_id == detection.class_id,
{
    Detection { x: detection.x + x_offset as i64, y: detection.y + y_offset as i64, ..*detection }
}

} // verus!
