use sprinting_boxes::detection::{default_targets, enrich_detections, merge_tile_detections, regions_for_crop, RegionTargets};
use sprinting_boxes::frames::RegionalPolygon;
use sprinting_boxes::geometry::Point;
use sprinting_boxes::nms::Detection;
use sprinting_boxes::partition::{unit_to_frame, RangePool, WorkRange};
use sprinting_boxes::pipeline::{
    register_pipeline, scale_workers, stop_processing, unregister_pipeline, ElasticPool, PipelineManager, PipelineRegistry,
    ProcessingState, Stage,
};
use sprinting_boxes::slicing::Tile;
use sprinting_boxes::supervisor::{
    snapshot_due, start_run, supervisor_step, validate_process_run_dependencies, StartError, SupervisorAction, SupervisorPhase,
    SupervisorView, UpdateWorkerRequest,
};

#[test]
fn test_scale_workers_logic() {
    let mut registry = PipelineRegistry::new();
    register_pipeline(&mut registry, PipelineManager::new("test_run".to_string(), 100));
    scale_workers(&mut registry, "test_run", "detect", 2);
    assert_eq!(registry.entries[0].detect_pool.target, 3);
    assert_eq!(registry.entries[0].reader_pool.target, 1);
    scale_workers(&mut registry, "test_run", "reader", 1);
    assert_eq!(registry.entries[0].reader_pool.target, 2);
    scale_workers(&mut registry, "test_run", "crop", 1);
    assert_eq!(registry.entries[0].crop_pool.target, 2);
    scale_workers(&mut registry, "test_run", "detect", -1);
    assert_eq!(registry.entries[0].detect_pool.target, 2);
    let res = scale_workers(&mut registry, "test_run", "invalid", 1);
    assert!(res.is_none());
    unregister_pipeline(&mut registry, "test_run");
    assert!(registry.entries.is_empty());
}

#[test]
fn scaling_never_goes_below_one_and_unknown_runs_are_refused() {
    let mut registry = PipelineRegistry::new();
    register_pipeline(&mut registry, PipelineManager::new("run".to_string(), 10));
    assert_eq!(scale_workers(&mut registry, "run", "crop", -5), Some(1));
    assert_eq!(scale_workers(&mut registry, "other", "crop", 1), None);
    assert_eq!(scale_workers(&mut registry, "run", "feature", 1), None);
    assert_eq!(scale_workers(&mut registry, "run", "reader", i32::MIN), Some(1));
}

#[test]
fn surplus_workers_leave_at_checkpoints_until_the_target() {
    let mut pool = ElasticPool::new();
    assert_eq!(pool.take_pending_spawns(), 1);
    assert_eq!(pool.scale(3), 4);
    assert_eq!(pool.active, 4);
    assert_eq!(pool.take_pending_spawns(), 3);
    assert_eq!(pool.scale(-2), 2);
    assert!(pool.checkpoint_exit());
    assert!(pool.checkpoint_exit());
    assert!(!pool.checkpoint_exit());
    assert_eq!(pool.active, 2);
    pool.worker_finished();
    assert_eq!(pool.active, 1);
    assert!(!pool.checkpoint_exit());
}

#[test]
fn stop_marks_only_the_named_run() {
    let mut registry = PipelineRegistry::new();
    register_pipeline(&mut registry, PipelineManager::new("a".to_string(), 10));
    register_pipeline(&mut registry, PipelineManager::new("b".to_string(), 10));
    assert!(stop_processing(&mut registry, "a"));
    assert!(!stop_processing(&mut registry, "c"));
    assert!(!registry.get_processing_state("a").unwrap().is_active);
    assert!(registry.get_processing_state("b").unwrap().is_active);
}

#[test]
fn register_replaces_a_run_of_the_same_id() {
    let mut registry = PipelineRegistry::new();
    register_pipeline(&mut registry, PipelineManager::new("a".to_string(), 10));
    register_pipeline(&mut registry, PipelineManager::new("a".to_string(), 20));
    assert_eq!(registry.entries.len(), 1);
    assert_eq!(registry.get_processing_state("a").unwrap().total_frames, 20);
}

#[test]
fn start_run_refuses_an_active_run() {
    let mut registry = PipelineRegistry::new();
    let pool = start_run(&mut registry, "r".to_string(), 450).unwrap();
    assert_eq!(pool.queue.len(), 3);
    assert!(matches!(start_run(&mut registry, "r".to_string(), 450), Err(StartError::AlreadyProcessing)));
    stop_processing(&mut registry, "r");
    assert!(start_run(&mut registry, "r".to_string(), 10).is_ok());
}

#[test]
fn worker_request_applies_to_its_stage() {
    let mut registry = PipelineRegistry::new();
    register_pipeline(&mut registry, PipelineManager::new("run".to_string(), 10));
    let req = UpdateWorkerRequest { delta: 2, stage: "crop".to_string() };
    assert_eq!(req.apply(&mut registry, "run"), Some(3));
    assert_eq!(req.apply(&mut registry, "nope"), None);
}

#[test]
fn test_monotonic_progress() {
    let mut state = ProcessingState::new("test_run".to_string(), 100);
    assert_eq!(state.stage("reader").unwrap().current, 0);
    assert_eq!(state.stage("reader").unwrap().total, 100);
    state.update_stage("reader", 10, 50);
    assert_eq!(state.stage("reader").unwrap().current, 10);
    assert_eq!(state.stage("reader").unwrap().ms_per_frame, 50);
    state.update_stage("reader", 5, 60);
    assert_eq!(state.stage("reader").unwrap().current, 15);
    assert_eq!(state.stage("reader").unwrap().ms_per_frame, 51);
}

#[test]
fn totals_are_corrected_for_every_stage() {
    let mut state = ProcessingState::new("r".to_string(), 100);
    state.update_stage("unknown", 3, 7);
    assert!(state.set_total_frames(42));
    assert!(!state.set_total_frames(7));
    assert_eq!(state.total_frames, 42);
    for name in ["reader", "crop", "detect", "feature", "finalize"] {
        assert_eq!(state.stage(name).unwrap().total, 42);
        assert_eq!(state.stage(name).unwrap().current, 0);
    }
    assert!(state.stage("unknown").is_none());
    state.update_processing_rate(40);
    state.update_processing_rate(60);
    assert_eq!(state.processing_rate, 41);
    assert_eq!(Stage::from_name("detect"), Some(Stage::Detect));
}

#[test]
fn test_unit_to_frame_mapping() {
    assert_eq!(unit_to_frame(0, 30_000, 1_000), 0);
    assert_eq!(unit_to_frame(1, 30_000, 1_000), 30);
    assert_eq!(unit_to_frame(10, 30_000, 1_000), 300);
    assert_eq!(unit_to_frame(0, 29_970, 1_000), 0);
    assert_eq!(unit_to_frame(1, 29_970, 1_000), 30);
    assert_eq!(unit_to_frame(10, 29_970, 1_000), 300);
    assert_eq!(unit_to_frame(100, 29_970, 1_000), 2997);
    assert_eq!(unit_to_frame(0, 29_000, 1_000), 0);
    assert_eq!(unit_to_frame(1, 29_000, 1_000), 29);
    assert_eq!(unit_to_frame(10, 29_000, 1_000), 290);
}

#[test]
fn unit_to_frame_rounds_halves_up() {
    assert_eq!(unit_to_frame(1, 1_500, 1_000), 2);
    assert_eq!(unit_to_frame(3, 30_000, 2_000), 45);
}

#[test]
fn ranges_cover_all_units_once() {
    let mut pool = RangePool::new(450);
    let mut drawn = Vec::new();
    while let Some(r) = pool.take() {
        drawn.push(r);
    }
    assert_eq!(
        drawn,
        vec![WorkRange { start: 0, end: 200 }, WorkRange { start: 200, end: 400 }, WorkRange { start: 400, end: 450 }]
    );
    assert!(pool.is_empty());
    assert!(RangePool::new(0).take().is_none());
}

#[test]
fn supervisor_closes_stages_in_order() {
    let mut view = SupervisorView {
        active_readers: 1,
        active_crop: 1,
        active_detect: 1,
        range_pool_empty: true,
        units_read: 90,
        is_complete: false,
        is_active: true,
    };
    let mut phase = SupervisorPhase::Readers;
    let (p, a) = supervisor_step(phase, &view);
    assert_eq!((p, a), (SupervisorPhase::Readers, SupervisorAction::Wait));
    view.active_readers = 0;
    let (p, a) = supervisor_step(phase, &view);
    assert_eq!(a, SupervisorAction::CloseReaderOutput { corrected_total: Some(90) });
    phase = p;
    view.active_crop = 0;
    let (p, a) = supervisor_step(phase, &view);
    assert_eq!(a, SupervisorAction::CloseCropOutput);
    phase = p;
    let (p, a) = supervisor_step(phase, &view);
    assert_eq!((p, a), (SupervisorPhase::Detect, SupervisorAction::Wait));
    view.active_detect = 0;
    let (p, a) = supervisor_step(p, &view);
    assert_eq!((p, a), (SupervisorPhase::Finalize, SupervisorAction::CloseDetectOutput));
    let (p2, a2) = supervisor_step(p, &view);
    assert_eq!((p2, a2), (SupervisorPhase::Finalize, SupervisorAction::Wait));
    view.is_complete = true;
    assert_eq!(supervisor_step(p, &view), (SupervisorPhase::Done, SupervisorAction::Unregister));
}

#[test]
fn snapshots_every_twenty_five_units() {
    assert!(!snapshot_due(0));
    assert!(!snapshot_due(24));
    assert!(snapshot_due(25));
    assert!(snapshot_due(50));
}

#[test]
fn run_dependencies_report_what_is_missing() {
    let deps = validate_process_run_dependencies(true, false);
    assert_eq!(deps.len(), 2);
    assert_eq!(deps[0].artifact_name, "field_boundaries.json");
    assert_eq!(deps[0].message, "Field boundaries defined.");
    assert!(deps[0].valid);
    assert_eq!(deps[1].artifact_name, "crops.json");
    assert_eq!(deps[1].message, "Crop configurations must be generated before processing.");
    assert!(!deps[1].valid);
}

#[test]
fn overview_crops_target_named_regions() {
    let regions = vec![
        RegionalPolygon { name: "left".to_string(), polygon: vec![Point { x: 0, y: 0 }] },
        RegionalPolygon { name: "bench".to_string(), polygon: vec![Point { x: 5, y: 5 }] },
    ];
    match regions_for_crop("overview", &regions, &default_targets()) {
        RegionTargets::Only(polys) => assert_eq!(polys, vec![vec![Point { x: 0, y: 0 }]]),
        _ => panic!("expected targeted regions"),
    }
    assert!(matches!(regions_for_crop("left", &regions, &default_targets()), RegionTargets::All));
    assert!(matches!(regions_for_crop("overview", &regions, &vec!["none".to_string()]), RegionTargets::NoMatch));
}

#[test]
fn detections_are_filtered_by_confidence_and_class() {
    let dets = vec![
        Detection { x: 0, y: 0, w: 5, h: 5, confidence: 6_000, class_id: 0 },
        Detection { x: 0, y: 0, w: 5, h: 5, confidence: 4_000, class_id: 0 },
        Detection { x: 0, y: 0, w: 5, h: 5, confidence: 9_000, class_id: 2 },
    ];
    let kept = enrich_detections(&dets, 5_000, 0);
    assert_eq!(kept.len(), 1);
    assert_eq!(kept[0].confidence, 6_000);
    assert!(!kept[0].is_counted);
}

#[test]
fn tile_detections_merge_across_overlapping_tiles() {
    let tiles = vec![
        Tile { x_offset: 0, y_offset: 0, original_width: 100, original_height: 100 },
        Tile { x_offset: 80, y_offset: 0, original_width: 100, original_height: 100 },
    ];
    let per_tile = vec![
        vec![
            Detection { x: 85, y: 10, w: 10, h: 20, confidence: 9_000, class_id: 0 },
            Detection { x: 10, y: 10, w: 10, h: 20, confidence: 1_000, class_id: 0 },
        ],
        vec![Detection { x: 5, y: 10, w: 10, h: 20, confidence: 8_000, class_id: 0 }],
    ];
    let merged = merge_tile_detections(&tiles, &per_tile, 5_000, 5_000);
    assert_eq!(merged, vec![Detection { x: 85, y: 10, w: 10, h: 20, confidence: 9_000, class_id: 0 }]);
}

#[test]
fn growth_saturates_and_reports_new_workers() {
    let mut pool = ElasticPool::new();
    assert_eq!(pool.scale(i32::MAX), 2_147_483_648);
    assert_eq!(pool.take_pending_spawns(), 1 + 2_147_483_647);
    assert_eq!(pool.scale(0), 2_147_483_648);
    assert_eq!(pool.take_pending_spawns(), 0);
}
