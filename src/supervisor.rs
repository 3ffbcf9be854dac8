//! Ordered shutdown of a run, and the other decisions taken around the
//! worker threads: starting a run, the finalize stage's snapshot cadence,
//! worker-count requests, and the run's prerequisites.
use vstd::prelude::*;
use crate::partition::RangePool;
use crate::pipeline::{PipelineManager, PipelineRegistry, has_run, register_pipeline, scale_workers, stage_named, is_elastic};

verus! {

/// Which stage the supervisor is waiting on.
#[derive(Clone, Copy, Debug, PartialEq, Eq, Structural)]
pub enum SupervisorPhase {
    Readers,
    Crop,
    Detect,
    Finalize,
    Done,
}

/// What the supervisor does after one look at the run.
#[derive(Clone, Copy, Debug, PartialEq, Eq, Structural)]
pub enum SupervisorAction {
    Wait,
    /// Close the reader output; correct every stage's total first when given.
    CloseReaderOutput { corrected_total: Option<usize> },
    CloseCropOutput,
    CloseDetectOutput,
    Unregister,
}

/// What the supervisor sees of the run at one poll.
#[derive(Clone, Copy, Debug, PartialEq, Eq, Structural)]
pub struct SupervisorView {
    pub active_readers: usize,
    pub active_crop: usize,
    pub active_detect: usize,
    pub range_pool_empty: bool,
    pub units_read: usize,
    pub is_complete: bool,
    pub is_active: bool,
}

pub open spec fn phase_rank(p: SupervisorPhase) -> int {
    match p {
        SupervisorPhase::Readers => 0,
        SupervisorPhase::Crop => 1,
        SupervisorPhase::Detect => 2,
        SupervisorPhase::Finalize => 3,
        SupervisorPhase::Done => 4,
    }
}

/// One supervisor poll: a stage's output closes only once its workers are
/// all gone, strictly in pipeline order (readers, crop, detect); the reader
/// output closes only when no range is left, carrying the units actually
/// read as the corrected total; the run is unregistered once finalize
/// completed or the run was stopped.
pub open spec fn supervise(phase: SupervisorPhase, v: SupervisorView) -> (SupervisorPhase, SupervisorAction) {
    match phase {
        SupervisorPhase::Readers => if v.active_readers > 0 {
            (SupervisorPhase::Readers, SupervisorAction::Wait)
        } else if v.range_pool_empty {
            (
                SupervisorPhase::Crop,
                SupervisorAction::CloseReaderOutput {
                    corrected_total: if v.units_read > 0 { Some(v.units_read) } else { None },
                },
            )
        } else {
            (SupervisorPhase::Crop, SupervisorAction::Wait)
        },
        SupervisorPhase::Crop => if v.active_crop > 0 {
            (SupervisorPhase::Crop, SupervisorAction::Wait)
        } else {
            (SupervisorPhase::Detect, SupervisorAction::CloseCropOutput)
        },
        SupervisorPhase::Detect => if v.active_detect > 0 {
            (SupervisorPhase::Detect, SupervisorAction::Wait)
        } else {
            (SupervisorPhase::Finalize, SupervisorAction::CloseDetectOutput)
        },
        SupervisorPhase::Finalize => if !v.is_complete && v.is_active {
            (SupervisorPhase::Finalize, SupervisorAction::Wait)
        } else {
            (SupervisorPhase::Done, SupervisorAction::Unregister)
        },
        SupervisorPhase::Done => (SupervisorPhase::Done, SupervisorAction::Wait),
    }
}

/// Takes one supervisor step.
pub fn supervisor_step(phase: SupervisorPhase, view: &SupervisorView) -> (r: (SupervisorPhase, SupervisorAction))
    ensures
        r == supervise(phase, *view),
        phase_rank(r.0) >= phase_rank(phase),
{
    match phase {
        SupervisorPhase::Readers => {
            if view.active_readers > 0 {
                (SupervisorPhase::Readers, SupervisorAction::Wait)
            } else if view.range_pool_empty {
                let corrected_total = if view.units_read > 0 {
                    Some(view.units_read)
                } else {
                    None
                };
                (SupervisorPhase::Crop, SupervisorAction::CloseReaderOutput { corrected_total })
            } else {
                (SupervisorPhase::Crop, SupervisorAction::Wait)
            }
        },
        SupervisorPhase::Crop => {
            if view.active_crop > 0 {
                (SupervisorPhase::Crop, SupervisorAction::Wait)
            } else {
                (SupervisorPhase::Detect, SupervisorAction::CloseCropOutput)
            }
        },
        SupervisorPhase::Detect => {
            if view.active_detect > 0 {
                (SupervisorPhase::Detect, SupervisorAction::Wait)
            } else {
                (SupervisorPhase::Finalize, SupervisorAction::CloseDetectOutput)
            }
        },
        SupervisorPhase::Finalize => {
            if !view.is_complete && view.is_active {
                (SupervisorPhase::Finalize, SupervisorAction::Wait)
            } else {
                (SupervisorPhase::Done, SupervisorAction::Unregister)
            }
        },
        SupervisorPhase::Done => (SupervisorPhase::Done, SupervisorAction::Wait),
    }
}

/// Why a run could not start.
#[derive(Clone, Copy, Debug, PartialEq, Eq, Structural)]
pub enum StartError {
    AlreadyProcessing,
}

/// Whether the registry holds an active run with this id.
pub open spec fn run_active(es: Seq<PipelineManager>, id: Seq<char>) -> bool {
    exists|i: int| 0 <= i < es.len() && (#[trigger] es[i]).state.run_id@ == id && es[i].state.is_active
}

/// Starts the bookkeeping of a run of `total_units` sampled units: refused
/// while a run of the same id is active; otherwise registers a fresh manager
/// (one worker per elastic stage) and returns the pool of ranges to read.
pub fn start_run(registry: &mut PipelineRegistry, run_id: String, total_units: usize) -> (r: Result<RangePool, StartError>)
    requires
        old(registry).wf(),
    ensures
        final(registry).wf(),
        run_active(old(registry).entries@, run_id@) ==> r == Err::<RangePool, StartError>(StartError::AlreadyProcessing)
            && final(registry).entries@ == old(registry).entries@,
        !run_active(old(registry).entries@, run_id@) ==> (r matches Ok(pool) && pool.wf() && pool.total == total_units
            && pool.drawn@.len() == 0 && has_run(final(registry).entries@, run_id@)),
{
    let ghost id = run_id@;
    match registry.find(run_id.as_str()) {
        Some(i) => {
            if registry.entries[i].state.is_active {
                return Err(StartError::AlreadyProcessing);
            }
            proof {
                assert forall|k: int| 0 <= k < registry.entries@.len() && (#[trigger] registry.entries@[k]).state.run_id@ == id implies !registry.entries@[k].state.is_active by {
                    if k != i {
                        if k < i {
                            assert(registry.entries@[k].state.run_id@ != registry.entries@[i as int].state.run_id@);
                        } else {
                            assert(registry.entries@[i as int].state.run_id@ != registry.entries@[k].state.run_id@);
                        }
                    }
                }
            }
        },
        None => {},
    }
    let manager = PipelineManager::new(run_id, total_units);
    register_pipeline(registry, manager);
    Ok(RangePool::new(total_units))
}

/// Units between two full snapshots of the finalized results.
pub const SNAPSHOT_EVERY: usize = 25;

/// Whether the finalize stage rewrites its snapshot after `finalized` units.
pub fn snapshot_due(finalized: usize) -> (r: bool)
    ensures
        r == (finalized > 0 && finalized % SNAPSHOT_EVERY == 0),
{
    finalized > 0 && finalized % SNAPSHOT_EVERY == 0
}

/// A request to change the worker count of one stage of a run.
#[derive(Clone, Debug)]
pub struct UpdateWorkerRequest {
    pub delta: i32,
    pub stage: String,
}

impl UpdateWorkerRequest {
    /// Applies the request to the run called `run_id`; `None` when the run or
    /// the stage is unknown.
    pub fn apply(&self, registry: &mut PipelineRegistry, run_id: &str) -> (r: Option<usize>)
        requires
            old(registry).wf(),
        ensures
            final(registry).wf(),
            r is Some <==> (has_run(old(registry).entries@, run_id@) && (stage_named(self.stage@) matches Some(s) && is_elastic(s))),
    {
        scale_workers(registry, run_id, self.stage.as_str(), self.delta)
    }
}

/// One prerequisite of processing a run, with what to tell the user.
#[derive(Clone, Debug)]
pub struct RunDependency {
    pub artifact_name: String,
    pub message: String,
    pub valid: bool,
}

/// The prerequisites of processing: field boundaries and crop
/// configurations, each present or not.
pub fn validate_process_run_dependencies(field_boundaries_present: bool, crops_present: bool) -> (r: Vec<RunDependency>)
    ensures
        r@.len() == 2,
        r@[0].valid == field_boundaries_present,
        r@[1].valid == crops_present,
        r@[0].artifact_name@ == "field_boundaries.json"@,
        r@[1].artifact_name@ == "crops.json"@,
        r@[0].message@ == if field_boundaries_present {
            "Field boundaries defined."@
        } else {
            "Field boundaries must be defined before processing."@
        },
        r@[1].message@ == if crops_present {
            "Crop configurations generated."@
        } else {
            "Crop configurations must be generated before processing."@
        },
{
    let mut deps: Vec<RunDependency> = Vec::new();
    let field_message = if field_boundaries_present {
        "Field boundaries defined.".to_owned()
    } else {
        "Field boundaries must be defined before processing.".to_owned()
    };
    deps.push(RunDependency {
        artifact_name: "field_boundaries.json".to_owned(),
        message: field_message,
        valid: field_boundaries_present,
    });
    let crops_message = if crops_present {
        "Crop configurations generated.".to_owned()
    } else {
        "Crop configurations must be generated before processing.".to_owned()
    };
    deps.push(RunDependency { artifact_name: "crops.json".to_owned(), message: crops_message, valid: crops_present });
    deps
}

} // verus!
