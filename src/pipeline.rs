//! Orchestration state: stage names, elastic worker pools, per-stage
//! progress, and the registry of running pipelines with its control entry
//! points (`scale_workers`, `stop_processing`).
use vstd::prelude::*;
use crate::text::str_equals;

verus! {

/// The stages of the pipeline, in data-flow order.
#[derive(Clone, Copy, Debug, PartialEq, Eq, Structural)]
pub enum Stage {
    Reader,
    Crop,
    Detect,
    Feature,
    Finalize,
}

pub open spec fn reader_name() -> Seq<char> {
    seq!['r', 'e', 'a', 'd', 'e', 'r']
}

pub open spec fn crop_name() -> Seq<char> {
    seq!['c', 'r', 'o', 'p']
}

pub open spec fn detect_name() -> Seq<char> {
    seq!['d', 'e', 't', 'e', 'c', 't']
}

pub open spec fn feature_name() -> Seq<char> {
    seq!['f', 'e', 'a', 't', 'u', 'r', 'e']
}

pub open spec fn finalize_name() -> Seq<char> {
    seq!['f', 'i', 'n', 'a', 'l', 'i', 'z', 'e']
}

/// The stage a name denotes, if any.
pub open spec fn stage_named(s: Seq<char>) -> Option<Stage> {
    if s == reader_name() {
        Some(Stage::Reader)
    } else if s == crop_name() {
        Some(Stage::Crop)
    } else if s == detect_name() {
        Some(Stage::Detect)
    } else if s == feature_name() {
        Some(Stage::Feature)
    } else if s == finalize_name() {
        Some(Stage::Finalize)
    } else {
        None
    }
}

/// Whether a stage runs an elastic pool of workers.
pub open spec fn is_elastic(s: Stage) -> bool {
    s is Reader || s is Crop || s is Detect
}

impl Stage {
    /// The stage called `name` ("reader", "crop", "detect", "feature",
    /// "finalize").
    pub fn from_name(name: &str) -> (r: Option<Stage>)
        ensures
            r == stage_named(name@),
    {
        proof {
            reveal_strlit("reader");
            reveal_strlit("crop");
            reveal_strlit("detect");
            reveal_strlit("feature");
            reveal_strlit("finalize");
            assert("reader"@ =~= reader_name());
            assert("crop"@ =~= crop_name());
            assert("detect"@ =~= detect_name());
            assert("feature"@ =~= feature_name());
            assert("finalize"@ =~= finalize_name());
        }
        if str_equals(name, "reader") {
            Some(Stage::Reader)
        } else if str_equals(name, "crop") {
            Some(Stage::Crop)
        } else if str_equals(name, "detect") {
            Some(Stage::Detect)
        } else if str_equals(name, "feature") {
            Some(Stage::Feature)
        } else if str_equals(name, "finalize") {
            Some(Stage::Finalize)
        } else {
            None
        }
    }
}

/// The new target of a pool at `current` after a change by `delta`: never
/// below one when shrinking; growth saturates at the largest `usize`.
pub open spec fn scaled_target(current: int, delta: int) -> int {
    if delta < 0 {
        if current + delta >= 1 {
            current + delta
        } else {
            1
        }
    } else if current + delta <= usize::MAX {
        current + delta
    } else {
        usize::MAX as int
    }
}

/// An elastic pool: the target worker count, the workers alive, and workers
/// decided but not yet started.
#[derive(Clone, Copy, Debug, PartialEq, Eq, Structural)]
pub struct ElasticPool {
    pub target: usize,
    pub active: usize,
    pub pending_spawns: usize,
}

impl ElasticPool {
    pub open spec fn wf(&self) -> bool {
        self.target >= 1 && self.pending_spawns <= self.active
    }

    /// The pool after a change of its target by `delta`: growth starts one
    /// worker per step at once; shrinking only lowers the target.
    pub open spec fn scaled(self, delta: int) -> ElasticPool {
        let t = scaled_target(self.target as int, delta);
        if t > self.target && self.active + (t - self.target) <= usize::MAX && self.pending_spawns + (t
            - self.target) <= usize::MAX {
            ElasticPool {
                target: t as usize,
                active: (self.active + (t - self.target)) as usize,
                pending_spawns: (self.pending_spawns + (t - self.target)) as usize,
            }
        } else {
            ElasticPool { target: t as usize, ..self }
        }
    }

    /// The pool after one worker reaches a checkpoint between units, and
    /// whether that worker leaves: it does exactly when more workers are
    /// alive than the target.
    pub open spec fn checkpoint(self) -> (ElasticPool, bool) {
        if self.active > self.target {
            let a = (self.active - 1) as usize;
            (ElasticPool { active: a, pending_spawns: if self.pending_spawns > a { a } else { self.pending_spawns }, ..self }, true)
        } else {
            (self, false)
        }
    }

    /// The pool after `n` checkpoints.
    pub open spec fn after_checkpoints(self, n: nat) -> ElasticPool
        decreases n,
    {
        if n == 0 {
            self
        } else {
            self.checkpoint().0.after_checkpoints((n - 1) as nat)
        }
    }

    /// A pool of one worker, started at once.
    pub fn new() -> (r: Self)
        ensures
            r.wf(),
            r.target == 1,
            r.active == 1,
            r.pending_spawns == 1,
    {
        ElasticPool { target: 1, active: 1, pending_spawns: 1 }
    }

    /// Changes the target by `delta`; returns the new target.
    pub fn scale(&mut self, delta: i32) -> (r: usize)
        requires
            old(self).wf(),
        ensures
            final(self).wf(),
            *final(self) == old(self).scaled(delta as int),
            r == final(self).target,
    {
        let current = self.target;
        let new_target: usize = if delta < 0 {
            let dec = if delta == i32::MIN {
                2147483648usize
            } else {
                (-delta) as usize
            };
            if current > dec && current - dec >= 1 {
                current - dec
            } else {
                1
            }
        } else {
            current.saturating_add(delta as usize)
        };
        if new_target > current {
            let grow = new_target - current;
            if self.active <= usize::MAX - grow && self.pending_spawns <= usize::MAX - grow {
                self.active = self.active + grow;
                self.pending_spawns = self.pending_spawns + grow;
            }
        }
        self.target = new_target;
        new_target
    }

    /// Called by a worker between units: true when it must leave, in which
    /// case it is no longer counted as alive.
    pub fn checkpoint_exit(&mut self) -> (r: bool)
        requires
            old(self).wf(),
        ensures
            final(self).wf(),
            (*final(self), r) == old(self).checkpoint(),
    {
        if self.active > self.target {
            self.active = self.active - 1;
            if self.pending_spawns > self.active {
                self.pending_spawns = self.active;
            }
            true
        } else {
            false
        }
    }

    /// Called when a worker ends for another reason (no work left, channel
    /// closed, fatal error).
    pub fn worker_finished(&mut self)
        requires
            old(self).wf(),
        ensures
            final(self).wf(),
            final(self).target == old(self).target,
            final(self).active == if old(self).active > 0 { old(self).active - 1 } else { 0 },
    {
        if self.active > 0 {
            self.active = self.active - 1;
        }
        if self.pending_spawns > self.active {
            self.pending_spawns = self.active;
        }
    }

    /// Hands out the workers that were decided but not yet started.
    pub fn take_pending_spawns(&mut self) -> (r: usize)
        requires
            old(self).wf(),
        ensures
            final(self).wf(),
            r == old(self).pending_spawns,
            final(self).pending_spawns == 0,
            final(self).target == old(self).target,
            final(self).active == old(self).active,
    {
        let r = self.pending_spawns;
        self.pending_spawns = 0;
        r
    }
}

proof fn lemma_checkpoints_floor(p: ElasticPool, n: nat)
    ensures
        p.after_checkpoints(n).target == p.target,
        p.after_checkpoints(n).active == if p.active < p.target {
            p.active as int
        } else if n <= p.active - p.target {
            p.active - n
        } else {
            p.target as int
        },
    decreases n,
{
    if n > 0 {
        lemma_checkpoints_floor(p.checkpoint().0, (n - 1) as nat);
    }
}

/// After a pool's target changes by `delta`, the target is at least one and
/// growth starts its workers at once; workers then leave only at their own
/// checkpoints and never bring the number alive below the target: after
/// `active - target` checkpoints that leave, the count equals the target and
/// later checkpoints change nothing. A pool that had lost workers (fewer
/// alive than its target) loses none at checkpoints.
pub proof fn lemma_scaling_converges(p: ElasticPool, delta: int, n: nat)
    requires
        p.wf(),
        i32::MIN <= delta <= i32::MAX,
        p.active + (scaled_target(p.target as int, delta) - p.target) <= usize::MAX,
    ensures
        ({
            let q = p.scaled(delta);
            &&& q.target == scaled_target(p.target as int, delta)
            &&& q.target >= 1
            &&& q.target > p.target ==> q.active == p.active + (q.target - p.target)
            &&& q.target <= p.target ==> q.active == p.active
            &&& p.active >= p.target ==> q.active >= q.target
            &&& q.after_checkpoints(n).active >= if q.active < q.target { q.active as int } else { q.target as int }
            &&& q.active >= q.target && n >= q.active - q.target ==> q.after_checkpoints(n).active == q.target
        }),
{
    let q = p.scaled(delta);
    lemma_checkpoints_floor(q, n);
}

/// Progress of one stage: units done, units expected, and the smoothed time
/// per unit in milliseconds.
#[derive(Clone, Copy, Debug, PartialEq, Eq, Structural)]
pub struct StageProgress {
    pub current: usize,
    pub total: usize,
    pub ms_per_frame: u64,
}

/// Exponential moving average with weight `1/10` on the new sample; the first
/// sample (while the average is 0) seeds it.
pub open spec fn ema_tenth(avg: int, sample: int) -> int {
    if avg == 0 {
        sample
    } else {
        (9 * avg + sample) / 10
    }
}

/// Exponential moving average with weight `1/20` on the new sample, seeded
/// like `ema_tenth`.
pub open spec fn ema_twentieth(avg: int, sample: int) -> int {
    if avg == 0 {
        sample
    } else {
        (19 * avg + sample) / 20
    }
}

pub open spec fn saturating(v: int) -> int {
    if v > usize::MAX {
        usize::MAX as int
    } else {
        v
    }
}

impl StageProgress {
    pub open spec fn updated(self, delta: int, ms: int) -> StageProgress {
        StageProgress {
            current: saturating(self.current + delta) as usize,
            total: self.total,
            ms_per_frame: ema_tenth(self.ms_per_frame as int, ms) as u64,
        }
    }

    fn update(&mut self, delta: usize, ms: u64)
        ensures
            *final(self) == old(self).updated(delta as int, ms as int),
    {
        self.current = self.current.saturating_add(delta);
        if self.ms_per_frame == 0 {
            self.ms_per_frame = ms;
        } else {
            let avg = ((self.ms_per_frame as u128) * 9 + ms as u128) / 10;
            self.ms_per_frame = avg as u64;
        }
    }
}

/// Shared state of one run: flags, per-stage progress and the smoothed
/// detection throughput.
#[derive(Clone, Debug)]
pub struct ProcessingState {
    pub run_id: String,
    pub total_frames: usize,
    pub is_active: bool,
    pub is_complete: bool,
    pub error: Option<String>,
    pub reader: StageProgress,
    pub crop: StageProgress,
    pub detect: StageProgress,
    pub feature: StageProgress,
    pub finalize: StageProgress,
    pub processing_rate: u64,
    /// Whether the stages' total has been corrected (it is, at most once).
    pub total_corrected: bool,
}

impl ProcessingState {
    pub open spec fn progress(&self, s: Stage) -> StageProgress {
        match s {
            Stage::Reader => self.reader,
            Stage::Crop => self.crop,
            Stage::Detect => self.detect,
            Stage::Feature => self.feature,
            Stage::Finalize => self.finalize,
        }
    }

    /// Fresh state of a run of `total_frames` units: active, nothing done.
    pub fn new(run_id: String, total_frames: usize) -> (r: Self)
        ensures
            r.run_id == run_id,
            r.total_frames == total_frames,
            r.is_active,
            !r.is_complete,
            r.error is None,
            r.processing_rate == 0,
            !r.total_corrected,
            forall|s: Stage| #[trigger] r.progress(s) == (StageProgress { current: 0, total: total_frames, ms_per_frame: 0 }),
    {
        let fresh = StageProgress { current: 0, total: total_frames, ms_per_frame: 0 };
        ProcessingState {
            run_id,
            total_frames,
            is_active: true,
            is_complete: false,
            error: None,
            reader: fresh,
            crop: fresh,
            detect: fresh,
            feature: fresh,
            finalize: fresh,
            processing_rate: 0,
            total_corrected: false,
        }
    }

    /// The progress of the stage called `stage`, if there is one.
    pub fn stage(&self, stage: &str) -> (r: Option<StageProgress>)
        ensures
            r == match stage_named(stage@) {
                Some(s) => Some(self.progress(s)),
                None => None,
            },
    {
        match Stage::from_name(stage) {
            Some(Stage::Reader) => Some(self.reader),
            Some(Stage::Crop) => Some(self.crop),
            Some(Stage::Detect) => Some(self.detect),
            Some(Stage::Feature) => Some(self.feature),
            Some(Stage::Finalize) => Some(self.finalize),
            None => None,
        }
    }

    /// Counts `delta_count` more units done by `stage` and folds one time
    /// sample into its average; an unknown stage name changes nothing.
    pub fn update_stage(&mut self, stage: &str, delta_count: usize, ms_per_frame: u64)
        ensures
            final(self).run_id == old(self).run_id,
            final(self).total_frames == old(self).total_frames,
            final(self).is_active == old(self).is_active,
            final(self).is_complete == old(self).is_complete,
            final(self).error == old(self).error,
            final(self).processing_rate == old(self).processing_rate,
            final(self).total_corrected == old(self).total_corrected,
            forall|s: Stage|
                #[trigger] final(self).progress(s) == if stage_named(stage@) == Some(s) {
                    old(self).progress(s).updated(delta_count as int, ms_per_frame as int)
                } else {
                    old(self).progress(s)
                },
    {
        match Stage::from_name(stage) {
            Some(Stage::Reader) => self.reader.update(delta_count, ms_per_frame),
            Some(Stage::Crop) => self.crop.update(delta_count, ms_per_frame),
            Some(Stage::Detect) => self.detect.update(delta_count, ms_per_frame),
            Some(Stage::Feature) => self.feature.update(delta_count, ms_per_frame),
            Some(Stage::Finalize) => self.finalize.update(delta_count, ms_per_frame),
            None => {},
        }
    }

    /// Corrects the run's expected unit count, for the run and every stage
    /// together, once: a second correction is refused and changes nothing.
    pub fn set_total_frames(&mut self, total: usize) -> (r: bool)
        ensures
            r == !old(self).total_corrected,
            final(self).total_corrected,
            final(self).run_id == old(self).run_id,
            final(self).total_frames == if r { total } else { old(self).total_frames },
            final(self).is_active == old(self).is_active,
            final(self).is_complete == old(self).is_complete,
            final(self).error == old(self).error,
            final(self).processing_rate == old(self).processing_rate,
            forall|s: Stage| #[trigger] final(self).progress(s) == if r {
                StageProgress { total, ..old(self).progress(s) }
            } else {
                old(self).progress(s)
            },
    {
        if self.total_corrected {
            return false;
        }
        self.reader.total = total;
        self.crop.total = total;
        self.detect.total = total;
        self.feature.total = total;
        self.finalize.total = total;
        self.total_frames = total;
        self.total_corrected = true;
        true
    }

    /// Folds one throughput sample into the detection rate average.
    pub fn update_processing_rate(&mut self, sample: u64)
        ensures
            final(self).processing_rate == ema_twentieth(old(self).processing_rate as int, sample as int),
            final(self).run_id == old(self).run_id,
            final(self).is_active == old(self).is_active,
            final(self).is_complete == old(self).is_complete,
            final(self).total_corrected == old(self).total_corrected,
            forall|s: Stage| #[trigger] final(self).progress(s) == old(self).progress(s),
    {
        if self.processing_rate == 0 {
            self.processing_rate = sample;
        } else {
            self.processing_rate = (((self.processing_rate as u128) * 19 + sample as u128) / 20) as u64;
        }
    }
}

/// The state and worker pools of one running pipeline.
#[derive(Clone, Debug)]
pub struct PipelineManager {
    pub state: ProcessingState,
    pub reader_pool: ElasticPool,
    pub crop_pool: ElasticPool,
    pub detect_pool: ElasticPool,
}

impl PipelineManager {
    pub open spec fn wf(&self) -> bool {
        self.reader_pool.wf() && self.crop_pool.wf() && self.detect_pool.wf()
    }

    pub open spec fn pool(&self, s: Stage) -> ElasticPool {
        match s {
            Stage::Reader => self.reader_pool,
            Stage::Crop => self.crop_pool,
            _ => self.detect_pool,
        }
    }

    pub open spec fn with_pool(self, s: Stage, p: ElasticPool) -> PipelineManager {
        match s {
            Stage::Reader => PipelineManager { reader_pool: p, ..self },
            Stage::Crop => PipelineManager { crop_pool: p, ..self },
            _ => PipelineManager { detect_pool: p, ..self },
        }
    }

    /// A run of `total_frames` units with one worker started per elastic stage.
    pub fn new(run_id: String, total_frames: usize) -> (r: Self)
        ensures
            r.wf(),
            r.state.run_id == run_id,
            r.state.total_frames == total_frames,
            r.state.is_active,
            !r.state.is_complete,
            forall|s: Stage| #[trigger] r.state.progress(s) == (StageProgress { current: 0, total: total_frames, ms_per_frame: 0 }),
            forall|s: Stage| #[trigger] r.pool(s) == (ElasticPool { target: 1, active: 1, pending_spawns: 1 }),
    {
        PipelineManager {
            state: ProcessingState::new(run_id, total_frames),
            reader_pool: ElasticPool::new(),
            crop_pool: ElasticPool::new(),
            detect_pool: ElasticPool::new(),
        }
    }
}

/// The running pipelines, at most one per run id.
pub struct PipelineRegistry {
    pub entries: Vec<PipelineManager>,
}

pub open spec fn has_run(es: Seq<PipelineManager>, id: Seq<char>) -> bool {
    exists|i: int| 0 <= i < es.len() && (#[trigger] es[i]).state.run_id@ == id
}

impl PipelineRegistry {
    pub open spec fn wf(&self) -> bool {
        &&& forall|i: int| 0 <= i < self.entries@.len() ==> (#[trigger] self.entries@[i]).wf()
        &&& forall|i: int, j: int|
            0 <= i < j < self.entries@.len() ==> (#[trigger] self.entries@[i]).state.run_id@ != (
            #[trigger] self.entries@[j]).state.run_id@
    }

    pub fn new() -> (r: Self)
        ensures
            r.wf(),
            r.entries@.len() == 0,
    {
        PipelineRegistry { entries: Vec::new() }
    }

    /// Position of the run called `run_id`.
    pub fn find(&self, run_id: &str) -> (r: Option<usize>)
        requires
            self.wf(),
        ensures
            r is None <==> !has_run(self.entries@, run_id@),
            r matches Some(i) ==> i < self.entries@.len() && self.entries@[i as int].state.run_id@ == run_id@,
    {
        let mut i: usize = 0;
        while i < self.entries.len()
            invariant
                i <= self.entries@.len(),
                forall|k: int| 0 <= k < i ==> (#[trigger] self.entries@[k]).state.run_id@ != run_id@,
            decreases self.entries@.len() - i,
        {
            if str_equals(self.entries[i].state.run_id.as_str(), run_id) {
                return Some(i);
            }
            i = i + 1;
        }
        None
    }

    /// The state of the run called `run_id`.
    pub fn get_processing_state(&self, run_id: &str) -> (r: Option<&ProcessingState>)
        requires
            self.wf(),
        ensures
            r is None <==> !has_run(self.entries@, run_id@),
            r matches Some(s) ==> s.run_id@ == run_id@ && exists|i: int| 0 <= i < self.entries@.len() && (#[trigger] self.entries@[i]).state == *s,
    {
        match self.find(run_id) {
            Some(i) => Some(&self.entries[i].state),
            None => None,
        }
    }
}

/// Registers a run, replacing a run of the same id.
pub fn register_pipeline(registry: &mut PipelineRegistry, manager: PipelineManager)
    requires
        old(registry).wf(),
        manager.wf(),
    ensures
        final(registry).wf(),
        has_run(final(registry).entries@, manager.state.run_id@),
        forall|i: int| 0 <= i < final(registry).entries@.len() && (#[trigger] final(registry).entries@[i]).state.run_id@ == manager.state.run_id@ ==> final(registry).entries@[i] == manager,
        forall|m: PipelineManager| #[trigger] old(registry).entries@.contains(m) && m.state.run_id@ != manager.state.run_id@ ==> final(registry).entries@.contains(m),
        forall|m: PipelineManager| #[trigger] final(registry).entries@.contains(m) && m.state.run_id@ != manager.state.run_id@ ==> old(registry).entries@.contains(m),
{
    let ghost old_entries = registry.entries@;
    match registry.find(manager.state.run_id.as_str()) {
        Some(i) => {
            registry.entries.set(i, manager);
            proof {
                let es = registry.entries@;
                assert(es[i as int] == manager);
                assert forall|m: PipelineManager| #[trigger] old_entries.contains(m) && m.state.run_id@ != manager.state.run_id@ implies es.contains(m) by {
                    let k = choose|k: int| 0 <= k < old_entries.len() && old_entries[k] == m;
                    assert(k != i);
                    assert(es[k] == m);
                }
                assert forall|m: PipelineManager| #[trigger] es.contains(m) && m.state.run_id@ != manager.state.run_id@ implies old_entries.contains(m) by {
                    let k = choose|k: int| 0 <= k < es.len() && es[k] == m;
                    assert(old_entries[k] == m);
                }
                assert forall|a: int| 0 <= a < es.len() && (#[trigger] es[a]).state.run_id@ == manager.state.run_id@ implies es[a] == manager by {
                    if a != i {
                        assert(old_entries[a].state.run_id@ == old_entries[i as int].state.run_id@);
                    }
                }
                assert(has_run(es, manager.state.run_id@)) by {
                    assert(es[i as int].state.run_id@ == manager.state.run_id@);
                }
            }
        },
        None => {
            let ghost id = manager.state.run_id@;
            registry.entries.push(manager);
            proof {
                let es = registry.entries@;
                let n = es.len() - 1;
                assert(es[n] == manager);
                assert forall|a: int, b: int| 0 <= a < b < es.len() implies (#[trigger] es[a]).state.run_id@ != (#[trigger] es[b]).state.run_id@ by {
                    if b == n {
                        assert(es[a] == old_entries[a]);
                    } else {
                        assert(es[a] == old_entries[a] && es[b] == old_entries[b]);
                    }
                }
                assert forall|a: int| 0 <= a < es.len() implies (#[trigger] es[a]).wf() by {
                    if a < n {
                        assert(es[a] == old_entries[a]);
                    }
                }
                assert forall|m: PipelineManager| #[trigger] old_entries.contains(m) && m.state.run_id@ != id implies es.contains(m) by {
                    let k = choose|k: int| 0 <= k < old_entries.len() && old_entries[k] == m;
                    assert(es[k] == m);
                }
                assert forall|m: PipelineManager| #[trigger] es.contains(m) && m.state.run_id@ != id implies old_entries.contains(m) by {
                    let k = choose|k: int| 0 <= k < es.len() && es[k] == m;
                    assert(old_entries[k] == m);
                }
                assert forall|a: int| 0 <= a < es.len() && (#[trigger] es[a]).state.run_id@ == id implies es[a] == manager by {
                    if a < n {
                        assert(es[a] == old_entries[a]);
                    }
                }
                assert(has_run(es, id)) by {
                    assert(es[n].state.run_id@ == id);
                }
            }
        },
    }
}

/// Removes the run called `run_id`, if registered.
pub fn unregister_pipeline(registry: &mut PipelineRegistry, run_id: &str)
    requires
        old(registry).wf(),
    ensures
        final(registry).wf(),
        !has_run(final(registry).entries@, run_id@),
        forall|m: PipelineManager| #[trigger] old(registry).entries@.contains(m) && m.state.run_id@ != run_id@ ==> final(registry).entries@.contains(m),
        forall|m: PipelineManager| #[trigger] final(registry).entries@.contains(m) ==> old(registry).entries@.contains(m),
{
    let ghost old_entries = registry.entries@;
    match registry.find(run_id) {
        Some(i) => {
            registry.entries.remove(i);
            proof {
                let es = registry.entries@;
                assert forall|a: int, b: int| 0 <= a < b < es.len() implies (#[trigger] es[a]).state.run_id@ != (#[trigger] es[b]).state.run_id@ by {
                    let oa = if a < i { a } else { a + 1 };
                    let ob = if b < i { b } else { b + 1 };
                    assert(es[a] == old_entries[oa] && es[b] == old_entries[ob]);
                }
                assert forall|a: int| 0 <= a < es.len() implies (#[trigger] es[a]).wf() by {
                    let oa = if a < i { a } else { a + 1 };
                    assert(es[a] == old_entries[oa]);
                }
                assert(!has_run(es, run_id@)) by {
                    assert forall|a: int| 0 <= a < es.len() implies (#[trigger] es[a]).state.run_id@ != run_id@ by {
                        let oa = if a < i { a } else { a + 1 };
                        assert(es[a] == old_entries[oa]);
                    }
                }
                assert forall|m: PipelineManager| #[trigger] old_entries.contains(m) && m.state.run_id@ != run_id@ implies es.contains(m) by {
                    let k = choose|k: int| 0 <= k < old_entries.len() && old_entries[k] == m;
                    assert(k != i);
                    let nk = if k < i { k } else { k - 1 };
                    assert(es[nk] == m);
                }
                assert forall|m: PipelineManager| #[trigger] es.contains(m) implies old_entries.contains(m) by {
                    let k = choose|k: int| 0 <= k < es.len() && es[k] == m;
                    let ok = if k < i { k } else { k + 1 };
                    assert(old_entries[ok] == m);
                }
            }
        },
        None => {},
    }
}

/// Changes the worker target of one elastic stage ("reader", "crop",
/// "detect") of a run by `delta`, never below one worker; growth starts the
/// new workers at once, shrinking lets surplus workers leave at their next
/// checkpoint. Returns the new target, or `None` for an unknown run or stage.
pub fn scale_workers(registry: &mut PipelineRegistry, run_id: &str, stage: &str, delta: i32) -> (r: Option<usize>)
    requires
        old(registry).wf(),
    ensures
        final(registry).wf(),
        final(registry).entries@.len() == old(registry).entries@.len(),
        match (stage_named(stage@), has_run(old(registry).entries@, run_id@)) {
            (Some(s), true) => is_elastic(s) ==> {
                let i = choose|i: int| 0 <= i < old(registry).entries@.len() && (#[trigger] old(registry).entries@[i]).state.run_id@ == run_id@;
                &&& r == Some(scaled_target(old(registry).entries@[i].pool(s).target as int, delta as int) as usize)
                &&& final(registry).entries@ == old(registry).entries@.update(i, old(registry).entries@[i].with_pool(s, old(registry).entries@[i].pool(s).scaled(delta as int)))
            },
            _ => true,
        },
        (stage_named(stage@) matches Some(s) && is_elastic(s) && has_run(old(registry).entries@, run_id@)) || (r is None && final(registry).entries@ == old(registry).entries@),
{
    let ghost old_entries = registry.entries@;
    let s = match Stage::from_name(stage) {
        Some(s) => s,
        None => return None,
    };
    if !(s == Stage::Reader || s == Stage::Crop || s == Stage::Detect) {
        return None;
    }
    let i = match registry.find(run_id) {
        Some(i) => i,
        None => return None,
    };
    proof {
        let c = choose|c: int| 0 <= c < old_entries.len() && (#[trigger] old_entries[c]).state.run_id@ == run_id@;
        if c != i {
            if c < i {
                assert(old_entries[c].state.run_id@ != old_entries[i as int].state.run_id@);
            } else {
                assert(old_entries[i as int].state.run_id@ != old_entries[c].state.run_id@);
            }
        }
    }
    let mut m = registry.entries.remove(i);
    let new_target = match s {
        Stage::Reader => m.reader_pool.scale(delta),
        Stage::Crop => m.crop_pool.scale(delta),
        _ => m.detect_pool.scale(delta),
    };
    registry.entries.insert(i, m);
    proof {
        let es = registry.entries@;
        assert(es =~= old_entries.update(i as int, old_entries[i as int].with_pool(s, old_entries[i as int].pool(s).scaled(delta as int))));
        assert forall|a: int, b: int| 0 <= a < b < es.len() implies (#[trigger] es[a]).state.run_id@ != (#[trigger] es[b]).state.run_id@ by {
            assert(es[a].state == old_entries[a].state);
            assert(es[b].state == old_entries[b].state);
        }
        assert forall|a: int| 0 <= a < es.len() implies (#[trigger] es[a]).wf() by {
            assert(old_entries[a].wf());
        }
    }
    Some(new_target)
}

/// Asks the run called `run_id` to stop; true when such a run is registered.
pub fn stop_processing(registry: &mut PipelineRegistry, run_id: &str) -> (r: bool)
    requires
        old(registry).wf(),
    ensures
        final(registry).wf(),
        r == has_run(old(registry).entries@, run_id@),
        final(registry).entries@.len() == old(registry).entries@.len(),
        forall|i: int|
            0 <= i < old(registry).entries@.len() ==> #[trigger] final(registry).entries@[i] == if old(registry).entries@[i].state.run_id@ == run_id@ {
                PipelineManager { state: ProcessingState { is_active: false, ..old(registry).entries@[i].state }, ..old(registry).entries@[i] }
            } else {
                old(registry).entries@[i]
            },
{
    let ghost old_entries = registry.entries@;
    match registry.find(run_id) {
        Some(i) => {
            let mut m = registry.entries.remove(i);
            m.state.is_active = false;
            registry.entries.insert(i, m);
            proof {
                let es = registry.entries@;
                assert forall|a: int, b: int| 0 <= a < b < es.len() implies (#[trigger] es[a]).state.run_id@ != (#[trigger] es[b]).state.run_id@ by {
                    assert(es[a].state.run_id == old_entries[a].state.run_id);
                    assert(es[b].state.run_id == old_entries[b].state.run_id);
                }
                assert forall|a: int| 0 <= a < es.len() implies (#[trigger] es[a]).wf() by {
                    assert(old_entries[a].wf());
                }
                assert forall|a: int| 0 <= a < old_entries.len() implies #[trigger] es[a] == if old_entries[a].state.run_id@ == run_id@ {
                    PipelineManager { state: ProcessingState { is_active: false, ..old_entries[a].state }, ..old_entries[a] }
                } else {
                    old_entries[a]
                } by {
                    if a != i && old_entries[a].state.run_id@ == run_id@ {
                        if a < i {
                            assert(old_entries[a].state.run_id@ != old_entries[i as int].state.run_id@);
                        } else {
                            assert(old_entries[i as int].state.run_id@ != old_entries[a].state.run_id@);
                        }
                    }
                }
            }
            true
        },
        None => {
            proof {
                assert forall|a: int| 0 <= a < old_entries.len() implies old_entries[a].state.run_id@ != run_id@ by {
                    if old_entries[a].state.run_id@ == run_id@ {
                        assert(has_run(old_entries, run_id@));
                    }
                }
            }
            false
        },
    }
}

} // verus!
