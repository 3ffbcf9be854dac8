use sprinting_boxes::crop::{crop_rect, prepare_crop, CropConfig, CropError, PixelRect, NORM_ONE};
use sprinting_boxes::geometry::{is_point_in_polygon_robust, segments_intersect, transform_point, transform_polygon, BBox, Point};
use sprinting_boxes::region::{compute_bbox_with_crop_padding, get_global_points, RoiDefinition};
use sprinting_boxes::nms::{compute_iou_exceeds, nms, transform_detection_to_image_coords, Detection};
use sprinting_boxes::slicing::{generate_offsets, generate_tiles, is_tile_overlapping_polygon, SliceConfig, Tile};

fn pt(x: i64, y: i64) -> Point {
    Point { x, y }
}

fn det(x1: i64, y1: i64, x2: i64, y2: i64, confidence: u64) -> Detection {
    Detection { x: x1, y: y1, w: x2 - x1, h: y2 - y1, confidence, class_id: 0 }
}

#[test]
fn test_transform_polygon() {
    let bbox = BBox { x: 100, y: 100, w: 200, h: 100 };
    let crop_w = 400;
    let crop_h = 200;
    let p1 = pt(100, 100);
    let p2 = pt(200, 150);
    let p3 = pt(300, 200);
    let poly = vec![p1, p2, p3];
    let transformed = transform_polygon(&poly, &bbox, crop_w, crop_h);
    assert_eq!(transformed.len(), 3);
    assert_eq!(transformed[0].x, 0);
    assert_eq!(transformed[0].y, 0);
    assert_eq!(transformed[1].x, 200);
    assert_eq!(transformed[1].y, 100);
    assert_eq!(transformed[2].x, 400);
    assert_eq!(transformed[2].y, 200);
}

#[test]
fn polygon_point_maps_into_crop_pixels() {
    let bbox = BBox { x: 100, y: 100, w: 200, h: 100 };
    assert_eq!(transform_point(pt(200, 150), &bbox, 400, 200), pt(200, 100));
}

#[test]
fn remap_rounds_down_left_of_the_box() {
    let bbox = BBox { x: 100, y: 100, w: 3, h: 3 };
    // (99 - 100) * 10 / 3 = -3.33..., rounded down to -4
    assert_eq!(transform_point(pt(99, 101), &bbox, 10, 10), pt(-4, 3));
}

#[test]
fn test_is_tile_overlapping_polygon() {
    let tile = Tile { x_offset: 100, y_offset: 100, original_width: 100, original_height: 100 };
    let poly1 = vec![pt(120, 120), pt(180, 120), pt(180, 180)];
    assert!(is_tile_overlapping_polygon(&tile, &poly1));
    let poly2 = vec![pt(0, 0), pt(50, 0), pt(50, 50)];
    assert!(!is_tile_overlapping_polygon(&tile, &poly2));
    let poly3 = vec![pt(50, 50), pt(150, 150), pt(50, 150)];
    assert!(is_tile_overlapping_polygon(&tile, &poly3));
    let poly4 = vec![pt(0, 0), pt(300, 0), pt(300, 300), pt(0, 300)];
    assert!(is_tile_overlapping_polygon(&tile, &poly4));
}

#[test]
fn tile_overlap_by_edge_crossing_only() {
    let tile = Tile { x_offset: 100, y_offset: 100, original_width: 100, original_height: 100 };
    // a thin triangle crossing the tile with no vertex inside it and no tile corner inside it
    let poly = vec![pt(50, 140), pt(250, 150), pt(50, 160)];
    assert!(is_tile_overlapping_polygon(&tile, &poly));
    assert!(!is_tile_overlapping_polygon(&tile, &Vec::new()));
}

#[test]
fn test_generate_tiles_regional() {
    let config = SliceConfig::new(100, 0);
    let tiles_all = generate_tiles(300, 300, &config, None);
    assert_eq!(tiles_all.len(), 9);
    let region = vec![pt(10, 10), pt(50, 10), pt(50, 50)];
    let regions = vec![region];
    let tiles_reg = generate_tiles(300, 300, &config, Some(&regions));
    assert_eq!(tiles_reg.len(), 1);
    assert_eq!(tiles_reg[0].x_offset, 0);
    assert_eq!(tiles_reg[0].y_offset, 0);
}

#[test]
fn tiles_disabled_and_edge_tiles() {
    assert!(generate_tiles(300, 300, &SliceConfig::default(), None).is_empty());
    let tiles = generate_tiles(250, 100, &SliceConfig::new(100, 0), None);
    let xs: Vec<u32> = tiles.iter().map(|t| t.x_offset).collect();
    assert_eq!(xs, vec![0, 100, 150]);
    assert!(tiles.iter().all(|t| t.original_width == 100 && t.original_height == 100));
}

#[test]
fn slice_config_clamps_overlap_and_strides() {
    let c = SliceConfig::new(640, 9_000);
    assert_eq!(c.overlap, 5_000);
    assert_eq!(c.stride(), 320);
    assert_eq!(SliceConfig::new(640, 2_000).stride(), 512);
    assert!(c.is_enabled());
    assert!(!SliceConfig::new(0, 0).is_enabled());
}

#[test]
fn tile_offsets_start_at_zero_and_end_at_the_edge() {
    assert_eq!(generate_offsets(1000, 640, 512), vec![0, 360]);
    assert_eq!(generate_offsets(2000, 640, 512), vec![0, 512, 1024, 1360]);
    assert_eq!(generate_offsets(500, 640, 512), vec![0]);
    // within half a stride of the edge: the last walk offset merges into the edge one
    assert_eq!(generate_offsets(1700, 640, 512), vec![0, 512, 1060]);
}

#[test]
fn edge_merge_never_leaves_a_gap() {
    // dropping 1024 would leave pixels 1152..1279 in no tile, so it stays
    assert_eq!(generate_offsets(1919, 640, 512), vec![0, 512, 1024, 1279]);
    assert_eq!(generate_offsets(230, 100, 100), vec![0, 100, 130]);
}

#[test]
fn tile_offsets_center_a_slightly_larger_axis() {
    assert_eq!(generate_offsets(700, 640, 512), vec![30]);
}

#[test]
fn test_nms_basic() {
    let d1 = det(10, 10, 50, 50, 9_000);
    let d2 = det(15, 15, 55, 55, 8_000);
    let result = nms(vec![d1, d2], 5_000);
    assert_eq!(result.len(), 1);
    assert_eq!(result[0], d1);
}

#[test]
fn nms_orders_by_confidence_and_keeps_disjoint_boxes() {
    let a = det(0, 0, 10, 10, 3_000);
    let b = det(100, 100, 110, 110, 9_000);
    let c = det(1, 1, 11, 11, 5_000);
    let out = nms(vec![a, b, c], 5_000);
    assert_eq!(out, vec![b, c]);
}

#[test]
fn nms_twice_changes_nothing() {
    let boxes = vec![
        det(0, 0, 40, 40, 7_000),
        det(5, 5, 45, 45, 9_000),
        det(30, 30, 70, 70, 8_000),
        det(100, 0, 140, 40, 7_000),
        det(102, 2, 142, 42, 7_000),
    ];
    let once = nms(boxes, 3_000);
    let twice = nms(once.clone(), 3_000);
    assert_eq!(once, twice);
}

#[test]
fn iou_threshold_is_strict() {
    let a = det(0, 0, 10, 10, 1);
    let b = det(0, 0, 10, 20, 1);
    // IoU = 100 / 200 = 0.5
    assert!(!compute_iou_exceeds(&a, &b, 5_000));
    assert!(compute_iou_exceeds(&a, &b, 4_999));
    assert!(!compute_iou_exceeds(&a, &det(20, 20, 30, 30, 1), 0));
}

#[test]
fn detections_move_by_the_tile_offset() {
    let d = det(10, 20, 30, 40, 6_000);
    let moved = transform_detection_to_image_coords(&d, 512, 0);
    assert_eq!(moved, Detection { x: 522, y: 20, w: 20, h: 20, confidence: 6_000, class_id: 0 });
}

#[test]
fn point_in_polygon_excludes_the_boundary() {
    let square = vec![pt(0, 0), pt(10, 0), pt(10, 10), pt(0, 10)];
    assert!(is_point_in_polygon_robust(5, 5, &square));
    assert!(!is_point_in_polygon_robust(15, 5, &square));
    assert!(!is_point_in_polygon_robust(10, 5, &square));
    assert!(!is_point_in_polygon_robust(5, 5, &[]));
}

#[test]
fn crossing_segments() {
    assert!(segments_intersect(pt(0, 0), pt(10, 10), pt(0, 10), pt(10, 0)));
    assert!(!segments_intersect(pt(0, 0), pt(10, 0), pt(0, 5), pt(10, 5)));
}

#[test]
fn crop_rect_rounds_and_clamps() {
    let half = NORM_ONE / 2;
    let bbox = BBox { x: half, y: 0, w: NORM_ONE, h: half };
    assert_eq!(crop_rect(101, 100, &bbox), Ok(PixelRect { x: 51, y: 0, w: 50, h: 50 }));
}

#[test]
fn crop_rect_without_area_is_an_error() {
    let bbox = BBox { x: NORM_ONE, y: 0, w: NORM_ONE / 10, h: NORM_ONE / 10 };
    assert_eq!(crop_rect(100, 100, &bbox), Err(CropError::InvalidDimensions { w: 0, h: 10 }));
}

#[test]
fn prepare_crop_remaps_the_polygons() {
    let half = NORM_ONE / 2;
    let config = CropConfig {
        bbox: BBox { x: 0, y: 0, w: half, h: half },
        original_polygon: vec![pt(0, 0), pt(half, half)],
        effective_polygon: vec![pt(half / 2, half / 2)],
        suffix: "left".to_string(),
        regions: Vec::new(),
    };
    let data = prepare_crop(200, 100, &config).unwrap();
    assert_eq!(data.rect, PixelRect { x: 0, y: 0, w: 100, h: 50 });
    assert_eq!(data.original_polygon, vec![pt(0, 0), pt(100, 50)]);
    assert_eq!(data.effective_polygon, vec![pt(50, 25)]);
    assert_eq!(data.suffix, "left");
}

#[test]
fn prepare_crop_refuses_far_polygons() {
    let config = CropConfig {
        bbox: BBox { x: 0, y: 0, w: NORM_ONE, h: NORM_ONE },
        original_polygon: vec![pt(500_000_000, 0)],
        effective_polygon: Vec::new(),
        suffix: "left".to_string(),
        regions: Vec::new(),
    };
    assert!(matches!(prepare_crop(4_000_000_000, 4_000_000_000, &config), Err(CropError::PolygonOutOfRange)));
}

#[test]
fn roi_points_map_to_the_frame() {
    let roi = RoiDefinition { x_normalized: 100_000, y_normalized: 200_000, width_normalized: 500_000, height_normalized: 500_000 };
    let pts = vec![pt(500_000, 1_000_000), pt(0, 0)];
    assert_eq!(get_global_points(&pts, Some(roi)), vec![pt(350_000, 700_000), pt(100_000, 200_000)]);
    assert_eq!(get_global_points(&pts, None), pts);
}

#[test]
fn crop_box_is_padded_and_clipped() {
    let pts = vec![pt(100_000, 200_000), pt(300_000, 400_000)];
    assert_eq!(
        compute_bbox_with_crop_padding(&pts, 10_000),
        Some(BBox { x: 90_000, y: 190_000, w: 220_000, h: 220_000 })
    );
    let edge = vec![pt(0, 0), pt(5_000, 995_000)];
    assert_eq!(compute_bbox_with_crop_padding(&edge, 10_000), Some(BBox { x: 0, y: 0, w: 15_000, h: NORM_ONE }));
    assert_eq!(compute_bbox_with_crop_padding(&Vec::new(), 10_000), None);
    assert_eq!(compute_bbox_with_crop_padding(&vec![pt(5, 5)], 0), None);
}

#[test]
fn nms_of_nothing_is_nothing() {
    assert!(nms(Vec::new(), 5_000).is_empty());
}
