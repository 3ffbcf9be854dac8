use sprinting_boxes::attribution::{attribute_sides, SideAttribution};
use sprinting_boxes::cliff::{CliffDetector, CliffDetectorConfig, CliffDetectorState};
use sprinting_boxes::feature::{FeatureConfig, FeatureStage};
use sprinting_boxes::frames::{measure_occupancy, CropResult, DetectedFrame, EnrichedDetection};
use sprinting_boxes::geometry::{BBox, Point};
use sprinting_boxes::reorder::ReorderBuffer;
use sprinting_boxes::score::{calculate_pre_point_score, normalize_count, UNIT};

fn frame(id: usize, results: Vec<CropResult>) -> DetectedFrame {
    DetectedFrame {
        id,
        results,
        left_count: 0,
        right_count: 0,
        field_count: 0,
        pre_point_score: 0,
        is_cliff: false,
        left_emptied_first: false,
        right_emptied_first: false,
        maybe_false_positive: false,
    }
}

fn person(x: i64, y: i64) -> EnrichedDetection {
    EnrichedDetection { bbox: BBox { x, y, w: 10, h: 20 }, confidence: 9_000, class_id: 0, is_counted: false }
}

fn square(lo: i64, hi: i64) -> Vec<Point> {
    vec![Point { x: lo, y: lo }, Point { x: hi, y: lo }, Point { x: hi, y: hi }, Point { x: lo, y: hi }]
}

fn region(suffix: &str, detections: Vec<EnrichedDetection>) -> CropResult {
    CropResult {
        suffix: suffix.to_string(),
        detections,
        original_polygon: square(0, 100),
        effective_polygon: square(0, 100),
        bbox: BBox { x: 0, y: 0, w: 100, h: 100 },
        regions: Vec::new(),
    }
}

fn run_detector(scores: &[u64]) -> Vec<usize> {
    let mut state = CliffDetectorState::new(CliffDetectorConfig::default());
    let mut cliffs = Vec::new();
    for (i, s) in scores.iter().enumerate() {
        for (id, flag) in state.push(i, *s) {
            if flag {
                cliffs.push(id);
            }
        }
    }
    for (id, flag) in state.flush() {
        if flag {
            cliffs.push(id);
        }
    }
    cliffs
}

#[test]
fn balanced_end_zones_score_point_six() {
    assert_eq!(calculate_pre_point_score(3_000, 3_000, 0, 7), 6_000);
}

#[test]
fn single_stray_detection_scores_zero() {
    // one player of seven (0.1428) is below the two-player bar
    let one = normalize_count(1, 7);
    assert_eq!(one, 1_428);
    assert_eq!(calculate_pre_point_score(one, one, 0, 7), 0);
    let two = normalize_count(2, 7);
    assert_eq!(calculate_pre_point_score(two, two, 0, 7), 5_714);
}

#[test]
fn asymmetry_and_crowded_field_lower_the_score() {
    // symmetry 1.2 - 0.6 = 0.6, field 1.5 - 1.0 = 0.5: 2 * 0.4 * 0.6 * 0.5 = 0.24
    assert_eq!(calculate_pre_point_score(4_000, 10_000, 10_000, 7), 2_400);
    assert_eq!(calculate_pre_point_score(9_000, 9_000, 0, 7), UNIT);
    assert_eq!(calculate_pre_point_score(9_000, 9_000, 0, 0), 0);
}

#[test]
fn plateau_then_drop_is_a_cliff() {
    let mut scores = vec![8_000u64; 12];
    scores.extend(vec![1_000u64; 12]);
    assert_eq!(run_detector(&scores), vec![12]);
    let detector = CliffDetector::new(CliffDetectorConfig::default());
    assert!(detector.is_cliff_at(&scores, 12));
    assert!(!detector.is_cliff_at(&scores, 11));
}

#[test]
fn single_sample_dip_is_not_a_cliff() {
    let mut scores = vec![8_000u64; 12];
    scores.push(1_000);
    scores.extend(vec![8_000u64; 11]);
    assert_eq!(run_detector(&scores), Vec::<usize>::new());
}

#[test]
fn confirmed_cliffs_respect_the_gap() {
    let mut scores = vec![8_000u64; 12];
    scores.extend(vec![1_000u64; 12]);
    // position 13 is a candidate too, one sample after the confirmed cliff at 12
    let detector = CliffDetector::new(CliffDetectorConfig::default());
    assert!(detector.is_cliff_at(&scores, 13));
    let mut twice = scores.clone();
    twice.extend(vec![8_000u64; 12]);
    twice.extend(vec![1_000u64; 12]);
    let cliffs = run_detector(&twice);
    assert_eq!(cliffs, vec![12, 36]);
    assert!(cliffs[1] - cliffs[0] >= 20);
}

#[test]
fn detector_waits_for_trailing_context() {
    let mut state = CliffDetectorState::new(CliffDetectorConfig::default());
    assert!(state.push(0, 0).is_empty());
    assert!(state.push(1, 0).is_empty());
    let mut decided = Vec::new();
    for i in 2..10 {
        decided.extend(state.push(i, 0));
    }
    assert!(decided.is_empty());
    decided.extend(state.push(10, 0));
    assert_eq!(decided, vec![(0, false)]);
    assert_eq!(state.push(11, 0), vec![(1, false)]);
}

#[test]
fn left_side_empties_first() {
    let h = vec![(3_000, 3_000), (0, 3_000), (0, 3_000), (0, 0), (0, 0)];
    let a = attribute_sides(&h, 2, 10, 15);
    assert_eq!(a, SideAttribution { left_emptied_first: true, right_emptied_first: false, maybe_false_positive: false });
}

#[test]
fn right_side_empties_first() {
    let h = vec![(3_000, 3_000), (3_000, 0), (3_000, 0), (3_000, 3_000)];
    let a = attribute_sides(&h, 1, 10, 15);
    assert_eq!(a, SideAttribution { left_emptied_first: false, right_emptied_first: true, maybe_false_positive: false });
}

#[test]
fn simultaneous_emptying_looks_back_for_asymmetry() {
    let h = vec![(1_000, 2_000), (3_000, 3_000), (0, 0), (0, 0)];
    let a = attribute_sides(&h, 2, 10, 15);
    assert_eq!(a, SideAttribution { left_emptied_first: true, right_emptied_first: false, maybe_false_positive: false });
    let h = vec![(2_000, 1_000), (3_000, 3_000), (0, 0), (0, 0)];
    assert!(attribute_sides(&h, 2, 10, 15).right_emptied_first);
}

#[test]
fn simultaneous_emptying_without_asymmetry_is_a_tie() {
    let h = vec![(3_000, 3_000), (0, 0), (0, 0)];
    let a = attribute_sides(&h, 1, 10, 15);
    assert_eq!(a, SideAttribution { left_emptied_first: true, right_emptied_first: true, maybe_false_positive: false });
}

#[test]
fn no_side_emptied_is_a_probable_false_positive() {
    let h = vec![(3_000, 3_000), (0, 3_000), (3_000, 0), (3_000, 3_000)];
    let a = attribute_sides(&h, 1, 10, 15);
    assert_eq!(a, SideAttribution { left_emptied_first: false, right_emptied_first: false, maybe_false_positive: true });
}

#[test]
fn window_start_resets_the_zero_run() {
    // zeros at 0 and 1 lie before the window [1, ..]: the run starts counting at 1
    let h = vec![(0, 3_000), (0, 3_000), (3_000, 3_000)];
    assert!(attribute_sides(&h, 11, 10, 15).maybe_false_positive);
    assert!(attribute_sides(&h, 10, 10, 15).left_emptied_first);
}

#[test]
fn occupancy_counts_bottom_centers_inside() {
    let left = region("left", vec![person(10, 10), person(40, 60), person(200, 10)]);
    let right = region("right", vec![person(20, 20)]);
    let mut f = frame(0, vec![left, right]);
    let (l, r, fld) = measure_occupancy(&mut f, 7);
    assert_eq!((l, r, fld), (2 * UNIT / 7, UNIT / 7, 0));
    let counted: Vec<bool> = f.results[0].detections.iter().map(|d| d.is_counted).collect();
    assert_eq!(counted, vec![true, true, false]);
}

#[test]
fn reorder_releases_in_id_order() {
    let mut b: ReorderBuffer<&str> = ReorderBuffer::new();
    assert!(b.insert(1, "b"));
    assert!(b.pop_ready().is_none());
    assert!(b.insert(0, "a"));
    assert_eq!(b.pop_ready(), Some((0, "a")));
    assert_eq!(b.pop_ready(), Some((1, "b")));
    assert!(!b.insert(0, "late"));
    assert!(b.insert(3, "d"));
    assert!(b.pop_ready().is_none());
    assert_eq!(b.pop_lowest(), Some((3, "d")));
    assert!(b.is_empty());
}

#[test]
fn feature_stage_output_is_in_id_order() {
    let mut stage = FeatureStage::new(FeatureConfig::default());
    let order = [3usize, 0, 2, 1, 7, 5, 4, 6, 9, 8, 12, 10, 11, 15, 13, 14, 19, 16, 17, 18];
    let mut ids = Vec::new();
    for id in order {
        for f in stage.push(frame(id, Vec::new())) {
            ids.push(f.id);
        }
    }
    assert_eq!(ids, vec![0, 1, 2, 3, 4]);
    for f in stage.finish() {
        ids.push(f.id);
    }
    assert_eq!(ids, (0..20).collect::<Vec<usize>>());
}

#[test]
fn feature_stage_flags_and_attributes_a_cliff() {
    let mut stage = FeatureStage::new(FeatureConfig::default());
    let mut out = Vec::new();
    let players = |n: usize, x0: i64| (0..n).map(|k| person(x0 + 10 * k as i64, 10)).collect::<Vec<_>>();
    for id in 0..40usize {
        let (l, r) = if id < 12 {
            (3, 3)
        } else if id < 14 {
            (0, 2)
        } else {
            (0, 0)
        };
        let results = vec![region("left", players(l, 5)), region("right", players(r, 5))];
        out.extend(stage.push(frame(id, results)));
    }
    out.extend(stage.finish());
    let cliffs: Vec<&DetectedFrame> = out.iter().filter(|f| f.is_cliff).collect();
    assert_eq!(cliffs.len(), 1);
    assert_eq!(cliffs[0].id, 12);
    assert!(cliffs[0].left_emptied_first);
    assert!(!cliffs[0].right_emptied_first);
    assert!(!cliffs[0].maybe_false_positive);
    assert_eq!(out[0].pre_point_score, calculate_pre_point_score(3 * UNIT / 7, 3 * UNIT / 7, 0, 7));
}

#[test]
fn reorder_replaces_a_waiting_duplicate_and_refuses_the_largest_id() {
    let mut b: ReorderBuffer<&str> = ReorderBuffer::new();
    assert!(b.insert(2, "first"));
    assert!(b.insert(2, "second"));
    assert_eq!(b.pending.len(), 1);
    assert!(!b.insert(usize::MAX, "too far"));
    assert_eq!(b.pop_lowest(), Some((2, "second")));
    assert_eq!(b.next_id, 3);
}

#[test]
fn empty_units_score_zero_and_flush_in_order() {
    // a window of 0 still holds a unit until the detector has decided it
    let mut stage = FeatureStage::new(FeatureConfig { team_size: 7, lookback_frames: 10, lookahead_frames: 0 });
    assert!(stage.push(frame(0, Vec::new())).is_empty());
    assert!(stage.push(frame(2, Vec::new())).is_empty());
    let rest = stage.finish();
    assert_eq!(rest.iter().map(|f| f.id).collect::<Vec<_>>(), vec![0, 2]);
    assert!(rest.iter().all(|f| f.pre_point_score == 0 && !f.is_cliff));
}

#[test]
fn units_wait_for_the_lookahead_window() {
    let mut stage = FeatureStage::new(FeatureConfig::default());
    for id in 0..15usize {
        assert!(stage.push(frame(id, Vec::new())).is_empty());
    }
    let out = stage.push(frame(15, Vec::new()));
    assert_eq!(out.iter().map(|f| f.id).collect::<Vec<_>>(), vec![0]);
    // an id already released is ignored
    assert!(stage.push(frame(0, Vec::new())).is_empty());
    let rest = stage.finish();
    assert_eq!(rest.iter().map(|f| f.id).collect::<Vec<_>>(), (1..16).collect::<Vec<usize>>());
}

#[test]
fn released_units_keep_what_was_detected() {
    let mut stage = FeatureStage::new(FeatureConfig { team_size: 7, lookback_frames: 10, lookahead_frames: 10 });
    let input = vec![region("left", vec![person(10, 10), person(200, 10)]), region("field", Vec::new())];
    stage.push(frame(0, input.clone()));
    let out = stage.finish();
    assert_eq!(out.len(), 1);
    let g = &out[0];
    assert_eq!(g.results.len(), 2);
    for (a, b) in g.results.iter().zip(input.iter()) {
        assert_eq!(a.suffix, b.suffix);
        assert_eq!(a.effective_polygon, b.effective_polygon);
        let boxes: Vec<BBox> = a.detections.iter().map(|d| d.bbox).collect();
        let expected: Vec<BBox> = b.detections.iter().map(|d| d.bbox).collect();
        assert_eq!(boxes, expected);
    }
    assert_eq!(g.left_count, UNIT / 7);
}
