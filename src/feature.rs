//! The feature stage: reorders detected units by id, measures occupancy and
//! the readiness score, runs the cliff detector, holds each unit until it has
//! left the lookahead window, and attributes a side to every confirmed cliff.
use vstd::prelude::*;
use crate::attribution::{SideAttribution, attribute_sides, attribution, lemma_attribution_exclusive};
use crate::cliff::{CliffDetectorConfig, CliffDetectorState, flagged_ids, is_default_config, strictly_increasing};
use crate::frames::{DetectedFrame, frame_ok, measure_occupancy, occupancy, left_name, right_name, field_name, same_input_result};
use crate::reorder::{ReorderBuffer, ids_of};
use crate::score::{calculate_pre_point_score, pre_point_score};

verus! {

/// Configuration of feature extraction and side attribution.
#[derive(Clone, Copy, Debug, PartialEq, Eq, Structural)]
pub struct FeatureConfig {
    pub team_size: usize,
    pub lookback_frames: usize,
    pub lookahead_frames: usize,
}

impl Default for FeatureConfig {
    fn default() -> (r: Self)
        ensures
            r.team_size == 7,
            r.lookback_frames == 10,
            r.lookahead_frames == 15,
    {
        FeatureConfig { team_size: 7, lookback_frames: 10, lookahead_frames: 15 }
    }
}

pub open spec fn frame_ids(s: Seq<DetectedFrame>) -> Seq<usize> {
    s.map_values(|f: DetectedFrame| f.id)
}

/// The occupancies of a unit are the normalized counts of its detections in
/// the left, right and field regions, and its score agrees with them.
pub open spec fn scored(f: DetectedFrame, team_size: int) -> bool {
    &&& f.left_count as int == occupancy(f.results@, left_name(), team_size)
    &&& f.right_count as int == occupancy(f.results@, right_name(), team_size)
    &&& f.field_count as int == occupancy(f.results@, field_name(), team_size)
    &&& f.pre_point_score as int == pre_point_score(f.left_count as int, f.right_count as int, f.field_count as int, team_size)
}

/// Exactly one of left-first, right-first and probable false positive, or
/// both emptied flags (a tie).
pub open spec fn attribution_shape(f: DetectedFrame) -> bool {
    ||| (f.left_emptied_first && !f.right_emptied_first && !f.maybe_false_positive)
    ||| (!f.left_emptied_first && f.right_emptied_first && !f.maybe_false_positive)
    ||| (!f.left_emptied_first && !f.right_emptied_first && f.maybe_false_positive)
    ||| (f.left_emptied_first && f.right_emptied_first && !f.maybe_false_positive)
}

/// The side flags a unit carries.
pub open spec fn side_flags(f: DetectedFrame) -> SideAttribution {
    SideAttribution {
        left_emptied_first: f.left_emptied_first,
        right_emptied_first: f.right_emptied_first,
        maybe_false_positive: f.maybe_false_positive,
    }
}

/// `g` is `f` with at most its derived fields changed: same id, and crop
/// results that agree on everything detection produced.
pub open spec fn same_input(g: DetectedFrame, f: DetectedFrame) -> bool {
    &&& g.id == f.id
    &&& g.results@.len() == f.results@.len()
    &&& forall|k: int| 0 <= k < g.results@.len() ==> same_input_result(#[trigger] g.results@[k], f.results@[k])
}

/// A unit waiting in the lookahead window: scored, not yet attributed.
pub open spec fn waiting_ok(f: DetectedFrame, team_size: int) -> bool {
    &&& scored(f, team_size)
    &&& !f.left_emptied_first && !f.right_emptied_first && !f.maybe_false_positive
}

/// A unit released downstream: scored; a cliff exactly when the detector
/// confirmed it; a cliff carries the side attribution over the occupancy
/// history `h` it was released with; any other unit carries no side flag.
pub open spec fn released_ok(
    f: DetectedFrame,
    team_size: int,
    confirmed: Seq<usize>,
    h: Seq<(u64, u64)>,
    lookback: int,
    lookahead: int,
) -> bool {
    &&& scored(f, team_size)
    &&& f.is_cliff == confirmed.contains(f.id)
    &&& (f.is_cliff ==> attribution_shape(f) && side_flags(f) == attribution(h, f.id as int, lookback, lookahead))
    &&& (!f.is_cliff ==> !f.left_emptied_first && !f.right_emptied_first && !f.maybe_false_positive)
}

pub open spec fn min_nat(a: int, b: int) -> int {
    if a <= b {
        a
    } else {
        b
    }
}

/// The feature stage's state.
pub struct FeatureStage {
    pub config: FeatureConfig,
    pub cliffs: CliffDetectorState,
    pub input: ReorderBuffer<DetectedFrame>,
    /// Scored units not yet released, by increasing id.
    pub lookahead: Vec<DetectedFrame>,
    /// Raw (left, right) occupancy of every unit taken in, in order.
    pub history: Vec<(u64, u64)>,
    /// Ids of the units released so far, in order.
    pub output_ids: Ghost<Seq<usize>>,
    /// The frames accepted so far, by id (a waiting frame replaced by a later
    /// one of the same id maps to the later one).
    pub taken: Ghost<Map<usize, DetectedFrame>>,
    /// For each released unit, the length of the history it was attributed
    /// over.
    pub release_lens: Ghost<Seq<int>>,
    /// Whether the stream has ended.
    pub closed: Ghost<bool>,
}

/// Whether released id `o` can no longer change status: the detector has
/// decided it and every position it still has to decide holds a later id.
pub open spec fn settled(c: CliffDetectorState, o: usize) -> bool {
    &&& c.last_id is Some
    &&& o <= c.last_id.unwrap()
    &&& forall|p: int| c.finalized_count <= p < c.ids@.len() ==> o < #[trigger] c.ids@[p]
}

impl FeatureStage {
    /// Everything but the bookkeeping between what was taken in and what
    /// was released.
    pub open spec fn wf_core(&self) -> bool {
        let team = self.config.team_size as int;
        let pending = self.input.pending@;
        &&& self.config.team_size > 0
        &&& self.cliffs.wf()
        &&& is_default_config(self.cliffs.detector.config)
        &&& self.input.wf()
        &&& forall|k: int|
            0 <= k < pending.len() ==> frame_ok((#[trigger] pending[k]).1) && pending[k].1.id == pending[k].0
                && self.taken@.dom().contains(pending[k].0) && self.taken@[pending[k].0] == pending[k].1
        &&& self.taken@.dom() == ids_of(pending).to_set() + self.input.emitted@.to_set()
        &&& forall|k: int|
            0 <= k < self.lookahead@.len() ==> waiting_ok(#[trigger] self.lookahead@[k], team)
                && self.lookahead@[k].is_cliff == self.cliffs.confirmed@.contains(self.lookahead@[k].id)
                && self.taken@.dom().contains(self.lookahead@[k].id)
                && same_input(self.lookahead@[k], self.taken@[self.lookahead@[k].id])
        &&& self.release_lens@.len() == self.output_ids@.len()
        &&& forall|q: int| 0 <= q < self.release_lens@.len() ==> 0 <= #[trigger] self.release_lens@[q] <= self.history@.len()
        &&& !self.closed@ ==> forall|q: int| 0 <= q < self.output_ids@.len() ==> settled(self.cliffs, #[trigger] self.output_ids@[q])
    }

    /// Units taken in are exactly those released followed by those waiting,
    /// and the detector has seen the last of them.
    pub open spec fn wf(&self) -> bool {
        &&& self.wf_core()
        &&& self.output_ids@ + frame_ids(self.lookahead@) == self.input.emitted@
        &&& (self.input.emitted@.len() == 0 ==> self.cliffs.last_id is None)
        &&& (self.input.emitted@.len() > 0 ==> self.cliffs.last_id == Some(self.input.emitted@.last()))
    }

    /// While the stream is open, a unit is held until `lookahead_frames`
    /// later units have been taken in.
    pub open spec fn held(&self) -> bool {
        &&& !self.closed@
        &&& self.lookahead@.len() >= min_nat(self.config.lookahead_frames as int, self.input.emitted@.len() as int)
    }

    /// `held`, and no more than `lookahead_frames` units wait unless the
    /// detector has yet to decide the oldest of them.
    pub open spec fn holding(&self) -> bool {
        &&& self.held()
        &&& self.lookahead@.len() <= self.config.lookahead_frames || !self.front_ready()
    }

    /// The `q`-th released unit `f`: released as stated by `released_ok`
    /// over the history it was attributed with, and carrying what was
    /// detected in the frame taken in under its id.
    pub open spec fn released_at(&self, q: int, f: DetectedFrame) -> bool {
        &&& 0 <= q < self.output_ids@.len()
        &&& self.output_ids@[q] == f.id
        &&& released_ok(
            f,
            self.config.team_size as int,
            self.cliffs.confirmed@,
            self.history@.take(self.release_lens@[q]),
            self.config.lookback_frames as int,
            self.config.lookahead_frames as int,
        )
        &&& self.taken@.dom().contains(f.id)
        &&& same_input(f, self.taken@[f.id])
    }

    /// What a step keeps: configuration and accepted frames, and for every
    /// unit already released its id, its history and its cliff status.
    pub open spec fn keeps(&self, before: FeatureStage) -> bool {
        &&& self.config == before.config
        &&& self.taken@ == before.taken@
        &&& self.output_ids@.len() >= before.output_ids@.len()
        &&& self.output_ids@.subrange(0, before.output_ids@.len() as int) == before.output_ids@
        &&& self.release_lens@.len() >= before.release_lens@.len()
        &&& self.release_lens@.subrange(0, before.release_lens@.len() as int) == before.release_lens@
        &&& self.history@.len() >= before.history@.len()
        &&& self.history@.subrange(0, before.history@.len() as int) == before.history@
        &&& forall|q: int|
            0 <= q < before.output_ids@.len() ==> self.cliffs.confirmed@.contains(#[trigger] before.output_ids@[q])
                == before.cliffs.confirmed@.contains(before.output_ids@[q])
    }

    pub fn new(config: FeatureConfig) -> (r: Self)
        requires
            config.team_size > 0,
        ensures
            r.wf(),
            r.holding(),
            r.config == config,
            r.output_ids@.len() == 0,
            r.taken@.dom().len() == 0,
    {
        let cliff_config = CliffDetectorConfig::default();
        let r = FeatureStage {
            config,
            cliffs: CliffDetectorState::new(cliff_config),
            input: ReorderBuffer::new(),
            lookahead: Vec::new(),
            history: Vec::new(),
            output_ids: Ghost(Seq::empty()),
            taken: Ghost(Map::empty()),
            release_lens: Ghost(Seq::empty()),
            closed: Ghost(false),
        };
        assert(r.output_ids@ + frame_ids(r.lookahead@) =~= r.input.emitted@);
        assert(r.taken@.dom() =~= ids_of(r.input.pending@).to_set() + r.input.emitted@.to_set());
        r
    }

    /// Takes in one detected unit, in any order, and returns the units that
    /// are now final, in increasing id order. A unit whose id was already
    /// released is ignored; one whose id is waiting replaces it.
    pub fn push(&mut self, frame: DetectedFrame) -> (r: Vec<DetectedFrame>)
        requires
            old(self).wf(),
            old(self).holding(),
            frame_ok(frame),
        ensures
            final(self).wf(),
            final(self).holding(),
            final(self).config == old(self).config,
            old(self).input.next_id <= frame.id < usize::MAX ==> final(self).taken@ == old(self).taken@.insert(frame.id, frame),
            !(old(self).input.next_id <= frame.id < usize::MAX) ==> final(self).taken@ == old(self).taken@,
            final(self).output_ids@ == old(self).output_ids@ + frame_ids(r@),
            final(self).input.pending@.len() == 0 || final(self).input.pending@[0].0 != final(self).input.next_id,
            final(self).lookahead@.len() <= final(self).config.lookahead_frames || !final(self).front_ready(),
            forall|k: int| 0 <= k < r@.len() ==> final(self).released_at(old(self).output_ids@.len() + k, #[trigger] r@[k]),
            final(self).history@.subrange(0, old(self).history@.len() as int) == old(self).history@,
            final(self).release_lens@.subrange(0, old(self).release_lens@.len() as int) == old(self).release_lens@,
            forall|q: int|
                0 <= q < old(self).output_ids@.len() ==> final(self).cliffs.confirmed@.contains(#[trigger] old(self).output_ids@[q])
                    == old(self).cliffs.confirmed@.contains(old(self).output_ids@[q]),
    {
        let id = frame.id;
        let ghost old_pending = self.input.pending@;
        let ghost before = *self;
        let accepted = self.input.insert(id, frame);
        if accepted {
            self.taken = Ghost(self.taken@.insert(id, frame));
        }
        proof {
            self.lemma_inserted(before, id, frame, accepted);
        }
        let out = self.release_ready();
        out
    }

    proof fn lemma_inserted(&self, before: FeatureStage, id: usize, frame: DetectedFrame, accepted: bool)
        requires
            before.wf(),
            before.holding(),
            frame_ok(frame),
            frame.id == id,
            self.input.wf(),
            accepted == (before.input.next_id <= id < usize::MAX),
            self.input.next_id == before.input.next_id,
            self.input.emitted@ == before.input.emitted@,
            accepted ==> ids_of(self.input.pending@).to_set() == ids_of(before.input.pending@).to_set().insert(id),
            !accepted ==> self.input.pending@ == before.input.pending@,
            accepted ==> exists|k: int| 0 <= k < self.input.pending@.len() && #[trigger] self.input.pending@[k] == (id, frame),
            forall|k: int|
                0 <= k < self.input.pending@.len() ==> #[trigger] self.input.pending@[k] == (id, frame)
                    || before.input.pending@.contains(self.input.pending@[k]),
            self.taken@ == if accepted { before.taken@.insert(id, frame) } else { before.taken@ },
            self.config == before.config,
            self.cliffs == before.cliffs,
            self.lookahead == before.lookahead,
            self.history == before.history,
            self.output_ids == before.output_ids,
            self.release_lens == before.release_lens,
            self.closed == before.closed,
        ensures
            self.wf(),
            self.holding(),
    {
        let pending = self.input.pending@;
        let team = self.config.team_size as int;
        if accepted {
            assert forall|k: int| 0 <= k < pending.len() implies frame_ok((#[trigger] pending[k]).1) && pending[k].1.id == pending[k].0
                && self.taken@.dom().contains(pending[k].0) && self.taken@[pending[k].0] == pending[k].1 by {
                let p = pending[k];
                if p != (id, frame) {
                    let m = choose|m: int| 0 <= m < before.input.pending@.len() && before.input.pending@[m] == p;
                    assert(frame_ok(before.input.pending@[m].1));
                    if p.0 == id {
                        let j = choose|j: int| 0 <= j < pending.len() && #[trigger] pending[j] == (id, frame);
                        assert(ids_of(pending)[j] == id && ids_of(pending)[k] == id);
                        assert(j == k);
                    }
                }
            }
            assert(self.taken@.dom() =~= ids_of(pending).to_set() + self.input.emitted@.to_set());
            assert forall|k: int| 0 <= k < self.lookahead@.len() implies self.lookahead@[k].id != id by {
                let e = self.input.emitted@;
                assert(e[self.output_ids@.len() + k] == frame_ids(self.lookahead@)[k]);
                assert(e[self.output_ids@.len() + k] < self.input.next_id);
            }
        } else {
            assert(self.taken@ == before.taken@);
        }
    }

    /// Releases, in id order, every unit whose turn has come.
    fn release_ready(&mut self) -> (r: Vec<DetectedFrame>)
        requires
            old(self).wf(),
            old(self).holding(),
        ensures
            final(self).wf(),
            final(self).holding(),
            final(self).keeps(*old(self)),
            final(self).input.pending@.len() == 0 || final(self).input.pending@[0].0 != final(self).input.next_id,
            final(self).lookahead@.len() <= final(self).config.lookahead_frames || !final(self).front_ready(),
            final(self).output_ids@ == old(self).output_ids@ + frame_ids(r@),
            forall|k: int| 0 <= k < r@.len() ==> final(self).released_at(old(self).output_ids@.len() + k, #[trigger] r@[k]),
    {
        let mut out: Vec<DetectedFrame> = Vec::new();
        let mut more = true;
        proof {
            lemma_keeps_refl(*self);
            assert(self.output_ids@ =~= old(self).output_ids@ + frame_ids(out@));
        }
        while more
            invariant
                self.wf(),
                self.holding(),
                self.keeps(*old(self)),
                !more ==> (self.input.pending@.len() == 0 || self.input.pending@[0].0 != self.input.next_id),
                self.output_ids@ == old(self).output_ids@ + frame_ids(out@),
                forall|k: int| 0 <= k < out@.len() ==> self.released_at(old(self).output_ids@.len() + k, #[trigger] out@[k]),
            decreases self.input.pending@.len() + if more { 1int } else { 0int },
        {
            let ghost before = *self;
            match self.input.pop_ready() {
                Some(entry) => {
                    let (_, frame) = entry;
                    proof { self.lemma_popped(before, entry); }
                    self.advance(frame);
                    proof {
                        lemma_keeps_trans(*old(self), before, *self);
                        assert forall|k: int| 0 <= k < out@.len() implies self.released_at(old(self).output_ids@.len() + k, #[trigger] out@[k]) by {
                            lemma_released_stable(before, *self, old(self).output_ids@.len() + k, out@[k]);
                        }
                    }
                    self.release_window(&mut out, Ghost(*old(self)));
                },
                None => {
                    more = false;
                },
            }
        }
        out
    }

    proof fn lemma_popped(&self, before: FeatureStage, entry: (usize, DetectedFrame))
        requires
            before.wf(),
            before.input.pending@.len() > 0,
            entry == before.input.pending@[0],
            self.input.wf(),
            self.input.pending@ == before.input.pending@.subrange(1, before.input.pending@.len() as int),
            self.input.emitted@ == before.input.emitted@.push(entry.0),
            self.config == before.config,
            self.cliffs == before.cliffs,
            self.lookahead == before.lookahead,
            self.output_ids == before.output_ids,
            self.taken == before.taken,
            self.history == before.history,
            self.release_lens == before.release_lens,
            self.closed == before.closed,
        ensures
            self.wf_core(),
            frame_ok(entry.1),
            entry.1.id == entry.0,
            self.taken@.dom().contains(entry.0),
            self.taken@[entry.0] == entry.1,
            self.output_ids@ + frame_ids(self.lookahead@) + seq![entry.1.id] == self.input.emitted@,
            self.input.emitted@.last() == entry.1.id,
            self.cliffs.last_id is None || self.cliffs.last_id.unwrap() < entry.1.id,
            before.holding() ==> self.lookahead@.len() >= min_nat(self.config.lookahead_frames as int, self.input.emitted@.len() - 1),
    {
        let bp = before.input.pending@;
        assert forall|k: int| 0 <= k < self.input.pending@.len() implies frame_ok((#[trigger] self.input.pending@[k]).1)
            && self.input.pending@[k].1.id == self.input.pending@[k].0
            && self.taken@.dom().contains(self.input.pending@[k].0) && self.taken@[self.input.pending@[k].0] == self.input.pending@[k].1 by {
            assert(self.input.pending@[k] == bp[k + 1]);
        }
        assert(frame_ok(bp[0].1));
        assert(self.output_ids@ + frame_ids(self.lookahead@) + seq![entry.1.id] =~= self.input.emitted@);
        assert(ids_of(bp).to_set() =~= ids_of(self.input.pending@).to_set().insert(entry.0)) by {
            assert forall|v: usize| #[trigger] ids_of(bp).to_set().contains(v) <==> ids_of(self.input.pending@).to_set().insert(entry.0).contains(v) by {
                if ids_of(bp).to_set().contains(v) {
                    let k = choose|k: int| 0 <= k < ids_of(bp).len() && ids_of(bp)[k] == v;
                    if k > 0 {
                        assert(ids_of(self.input.pending@)[k - 1] == v);
                    }
                }
                if ids_of(self.input.pending@).to_set().contains(v) {
                    let k = choose|k: int| 0 <= k < ids_of(self.input.pending@).len() && ids_of(self.input.pending@)[k] == v;
                    assert(ids_of(bp)[k + 1] == v);
                }
                if v == entry.0 {
                    assert(ids_of(bp)[0] == v);
                }
            }
        }
        before.input.emitted@.lemma_push_to_set_commute(entry.0);
        assert(self.taken@.dom() =~= ids_of(self.input.pending@).to_set() + self.input.emitted@.to_set());
        assert(self.taken@.dom().contains(entry.0));
        if before.input.emitted@.len() > 0 {
            assert(before.input.emitted@.last() < before.input.next_id);
        }
    }

    /// Scores one unit taken in order, feeds the detector, and adds the unit
    /// to the window.
    fn advance(&mut self, frame: DetectedFrame)
        requires
            old(self).wf_core(),
            !old(self).closed@,
            frame_ok(frame),
            old(self).taken@.dom().contains(frame.id),
            old(self).taken@[frame.id] == frame,
            old(self).output_ids@ + frame_ids(old(self).lookahead@) + seq![frame.id] == old(self).input.emitted@,
            old(self).input.emitted@.last() == frame.id,
            old(self).cliffs.last_id is None || old(self).cliffs.last_id.unwrap() < frame.id,
        ensures
            final(self).wf(),
            final(self).keeps(*old(self)),
            final(self).input == old(self).input,
            final(self).closed == old(self).closed,
            final(self).lookahead@.len() == old(self).lookahead@.len() + 1,
            old(self).lookahead@.len() >= min_nat(old(self).config.lookahead_frames as int, old(self).input.emitted@.len() - 1)
                ==> final(self).held(),
            final(self).output_ids@ == old(self).output_ids@,
    {
        let team = self.config.team_size;
        let ghost taken_frame = frame;
        let mut frame = frame;
        let (left, right, field) = measure_occupancy(&mut frame, team);
        let score = calculate_pre_point_score(left, right, field, team);
        frame.left_count = left;
        frame.right_count = right;
        frame.field_count = field;
        frame.pre_point_score = score;
        frame.is_cliff = false;
        frame.left_emptied_first = false;
        frame.right_emptied_first = false;
        frame.maybe_false_positive = false;
        assert(same_input(frame, taken_frame));
        self.history.push((left, right));
        let id = frame.id;
        let ghost cb = self.cliffs;
        let ghost outs = self.output_ids@;
        let results = self.cliffs.push(id, score);
        proof {
            assert(all_before(outs, cb.ids@.push(id), cb.finalized_count as int)) by {
                assert forall|q: int, p: int| 0 <= q < outs.len() && cb.finalized_count <= p < cb.ids@.push(id).len() implies #[trigger] outs[q] < #[trigger] cb.ids@.push(id)[p] by {
                    assert(settled(cb, outs[q]));
                    if p < cb.ids@.len() {
                        assert(cb.ids@.push(id)[p] == cb.ids@[p]);
                    }
                }
            }
            assert(strictly_increasing(cb.ids@.push(id))) by {
                assert forall|a: int, b: int| 0 <= a < b < cb.ids@.push(id).len() implies cb.ids@.push(id)[a] < cb.ids@.push(id)[b] by {
                    if b == cb.ids@.len() {
                        assert(cb.ids@[a] <= cb.last_id.unwrap());
                    }
                }
            }
            lemma_confirmation_step(cb, self.cliffs, cb.ids@.push(id), cb.scores@.push(score), false, results@, outs);
            assert(!cb.confirmed@.contains(id)) by {
                if cb.confirmed@.contains(id) {
                    let k = choose|k: int| 0 <= k < cb.confirmed@.len() && cb.confirmed@[k] == id;
                    assert(cb.confirmed@[k] <= cb.last_id.unwrap());
                }
            }
        }
        let ghost la_before = self.lookahead@;
        self.lookahead.push(frame);
        let ghost la_pushed = self.lookahead@;
        self.mark_cliffs(&results);
        proof {
            let la = self.lookahead@;
            assert(frame_ids(la_pushed) =~= frame_ids(la_before).push(id));
            assert forall|k: int| 0 <= k < la.len() implies waiting_ok(#[trigger] la[k], team as int)
                && la[k].is_cliff == self.cliffs.confirmed@.contains(la[k].id)
                && self.taken@.dom().contains(la[k].id)
                && same_input(la[k], self.taken@[la[k].id]) by {
                if k < la_before.len() {
                    assert(la_pushed[k] == la_before[k]);
                }
            }
            assert forall|q: int| 0 <= q < self.output_ids@.len() implies settled(self.cliffs, #[trigger] self.output_ids@[q]) by {
                assert(settled(cb, outs[q]));
            }
            assert forall|q: int| 0 <= q < self.release_lens@.len() implies #[trigger] self.release_lens@[q] <= self.history@.len() by {}
            assert(self.output_ids@ + frame_ids(la) =~= self.input.emitted@);
            assert(self.history@.subrange(0, old(self).history@.len() as int) =~= old(self).history@);
            assert(self.output_ids@.subrange(0, old(self).output_ids@.len() as int) =~= old(self).output_ids@);
            assert(self.release_lens@.subrange(0, old(self).release_lens@.len() as int) =~= old(self).release_lens@);
        }
        proof {
            lemma_keeps_refl(*self);
        }
    }

    /// Releases waiting units, oldest first, while the window holds more
    /// than `lookahead_frames` units and the detector has decided the oldest.
    fn release_window(&mut self, out: &mut Vec<DetectedFrame>, start: Ghost<FeatureStage>)
        requires
            old(self).wf(),
            old(self).held(),
            old(self).keeps(start@),
            old(self).output_ids@ == start@.output_ids@ + frame_ids(old(out)@),
            forall|k: int| 0 <= k < old(out)@.len() ==> old(self).released_at(start@.output_ids@.len() + k, #[trigger] old(out)@[k]),
        ensures
            final(self).wf(),
            final(self).holding(),
            final(self).keeps(start@),
            final(self).input == old(self).input,
            final(self).output_ids@ == start@.output_ids@ + frame_ids(final(out)@),
            forall|k: int| 0 <= k < final(out)@.len() ==> final(self).released_at(start@.output_ids@.len() + k, #[trigger] final(out)@[k]),
            final(self).lookahead@.len() <= final(self).config.lookahead_frames || !final(self).front_ready(),
    {
        while self.lookahead.len() > self.config.lookahead_frames && self.front_decided()
            invariant
                self.wf(),
                self.held(),
                self.keeps(start@),
                self.input == old(self).input,
                self.output_ids@ == start@.output_ids@ + frame_ids(out@),
                forall|k: int| 0 <= k < out@.len() ==> self.released_at(start@.output_ids@.len() + k, #[trigger] out@[k]),
            decreases self.lookahead@.len(),
        {
            let ghost pre = *self;
            let ghost la = self.lookahead@;
            let ghost out_before = out@;
            let f = self.emit_front();
            out.push(f);
            proof {
                assert(frame_ids(out@) =~= frame_ids(out_before).push(la[0].id));
                assert(frame_ids(la) =~= seq![la[0].id] + frame_ids(self.lookahead@));
                assert(self.output_ids@ + frame_ids(self.lookahead@) =~= self.input.emitted@);
                lemma_keeps_trans(start@, pre, *self);
                assert forall|k: int| 0 <= k < out@.len() implies self.released_at(start@.output_ids@.len() + k, #[trigger] out@[k]) by {
                    if k < out_before.len() {
                        lemma_released_stable(pre, *self, start@.output_ids@.len() + k, out_before[k]);
                    }
                }
            }
        }
    }

    /// Whether the oldest waiting unit exists and the detector has decided it.
    pub open spec fn front_ready(&self) -> bool {
        &&& self.lookahead@.len() > 0
        &&& forall|p: int| self.cliffs.finalized_count <= p < self.cliffs.ids@.len() ==> self.lookahead@[0].id < #[trigger] self.cliffs.ids@[p]
    }

    /// Whether the detector has decided the oldest waiting unit.
    fn front_decided(&self) -> (r: bool)
        requires
            self.cliffs.wf(),
            self.lookahead@.len() > 0,
        ensures
            r == self.front_ready(),
    {
        let fin = self.cliffs.finalized_count;
        if fin == self.cliffs.ids.len() {
            return true;
        }
        let r = self.cliffs.ids[fin] > self.lookahead[0].id;
        proof {
            if !r {
                assert(!(self.lookahead@[0].id < self.cliffs.ids@[fin as int]));
            }
            if r {
                assert forall|p: int| fin <= p < self.cliffs.ids@.len() implies self.lookahead@[0].id < #[trigger] self.cliffs.ids@[p] by {
                    if p > fin {
                        assert(self.cliffs.ids@[fin as int] < self.cliffs.ids@[p]);
                    }
                }
            }
        }
        r
    }

    /// Flags as cliffs the waiting units that the detector just confirmed.
    fn mark_cliffs(&mut self, results: &Vec<(usize, bool)>)
        ensures
            final(self).config == old(self).config,
            final(self).cliffs == old(self).cliffs,
            final(self).input == old(self).input,
            final(self).history == old(self).history,
            final(self).output_ids == old(self).output_ids,
            final(self).taken == old(self).taken,
            final(self).release_lens == old(self).release_lens,
            final(self).closed == old(self).closed,
            final(self).lookahead@.len() == old(self).lookahead@.len(),
            forall|k: int|
                0 <= k < old(self).lookahead@.len() ==> #[trigger] final(self).lookahead@[k] == (DetectedFrame {
                    is_cliff: old(self).lookahead@[k].is_cliff || flagged_ids(results@).contains(old(self).lookahead@[k].id),
                    ..old(self).lookahead@[k]
                }),
    {
        proof {
            lemma_flagged_iff(results@);
        }
        let ghost la = self.lookahead@;
        let mut j: usize = 0;
        while j < self.lookahead.len()
            invariant
                j <= self.lookahead@.len(),
                self.lookahead@.len() == la.len(),
                la == old(self).lookahead@,
                self.config == old(self).config,
                self.cliffs == old(self).cliffs,
                self.input == old(self).input,
                self.history == old(self).history,
                self.output_ids == old(self).output_ids,
                self.taken == old(self).taken,
                self.release_lens == old(self).release_lens,
                self.closed == old(self).closed,
                forall|x: usize| flagged_ids(results@).contains(x) <==> exists|m: int| 0 <= m < results@.len() && #[trigger] results@[m] == (x, true),
                forall|k: int| 0 <= k < j ==> #[trigger] self.lookahead@[k] == (DetectedFrame {
                    is_cliff: la[k].is_cliff || flagged_ids(results@).contains(la[k].id),
                    ..la[k]
                }),
                forall|k: int| j <= k < la.len() ==> #[trigger] self.lookahead@[k] == la[k],
            decreases la.len() - j,
        {
            let target = self.lookahead[j].id;
            let mut hit = false;
            let mut i: usize = 0;
            while i < results.len()
                invariant
                    i <= results@.len(),
                    hit == exists|m: int| 0 <= m < i && #[trigger] results@[m] == (target, true),
                decreases results@.len() - i,
            {
                let (cid, flagged) = results[i];
                if flagged && cid == target {
                    hit = true;
                }
                proof {
                    if !(flagged && cid == target) && !hit {
                        assert forall|m: int| 0 <= m < i + 1 implies #[trigger] results@[m] != (target, true) by {
                            if m == i {
                                assert(results@[m] == (cid, flagged));
                            }
                        }
                    }
                }
                i = i + 1;
            }
            if hit {
                let ghost cur = self.lookahead@;
                let mut f = self.lookahead.remove(j);
                f.is_cliff = true;
                self.lookahead.insert(j, f);
                proof {
                    assert(self.lookahead@ =~= cur.update(j as int, f));
                }
            }
            j = j + 1;
        }
    }

    /// Releases the oldest waiting unit, attributing a side when it is a
    /// cliff.
    fn emit_front(&mut self) -> (f: DetectedFrame)
        requires
            old(self).wf_core(),
            old(self).lookahead@.len() > 0,
            old(self).output_ids@ + frame_ids(old(self).lookahead@) == old(self).input.emitted@,
            !old(self).closed@ ==> forall|p: int|
                old(self).cliffs.finalized_count <= p < old(self).cliffs.ids@.len() ==> old(self).lookahead@[0].id < #[trigger] old(self).cliffs.ids@[p],
            !old(self).closed@ ==> old(self).cliffs.last_id == Some(old(self).input.emitted@.last()),
        ensures
            final(self).wf_core(),
            final(self).keeps(*old(self)),
            final(self).cliffs == old(self).cliffs,
            final(self).input == old(self).input,
            final(self).closed == old(self).closed,
            final(self).history == old(self).history,
            final(self).lookahead@ == old(self).lookahead@.subrange(1, old(self).lookahead@.len() as int),
            f.id == old(self).lookahead@[0].id,
            final(self).output_ids@ == old(self).output_ids@.push(f.id),
            final(self).released_at(old(self).output_ids@.len() as int, f),
    {
        let ghost la = self.lookahead@;
        let mut f = self.lookahead.remove(0);
        if f.is_cliff {
            let a = attribute_sides(self.history.as_slice(), f.id, self.config.lookback_frames, self.config.lookahead_frames);
            proof {
                lemma_attribution_exclusive(self.history@, f.id as int, self.config.lookback_frames as int, self.config.lookahead_frames as int);
            }
            f.left_emptied_first = a.left_emptied_first;
            f.right_emptied_first = a.right_emptied_first;
            f.maybe_false_positive = a.maybe_false_positive;
        }
        let ghost q = self.output_ids@.len();
        proof {
            assert(la[0].id == self.input.emitted@[q as int]);
            assert forall|k: int| 0 <= k < self.lookahead@.len() implies waiting_ok(#[trigger] self.lookahead@[k], self.config.team_size as int)
                && self.lookahead@[k].is_cliff == self.cliffs.confirmed@.contains(self.lookahead@[k].id)
                && self.taken@.dom().contains(self.lookahead@[k].id)
                && same_input(self.lookahead@[k], self.taken@[self.lookahead@[k].id]) by {
                assert(self.lookahead@[k] == la[k + 1]);
            }
            if !self.closed@ {
                let e = self.input.emitted@;
                assert(e[q as int] <= e.last()) by {
                    if (q as int) < e.len() - 1 {
                        assert(e[q as int] < e[e.len() - 1]);
                    }
                }
            }
        }
        self.output_ids = Ghost(self.output_ids@.push(f.id));
        self.release_lens = Ghost(self.release_lens@.push(self.history@.len() as int));
        proof {
            assert(self.history@.take(self.history@.len() as int) =~= self.history@);
            assert(self.history@.subrange(0, old(self).history@.len() as int) =~= old(self).history@);
            assert(self.output_ids@.subrange(0, old(self).output_ids@.len() as int) =~= old(self).output_ids@);
            assert(self.release_lens@.subrange(0, old(self).release_lens@.len() as int) =~= old(self).release_lens@);
            assert forall|k: int| 0 <= k < self.output_ids@.len() implies (!self.closed@ ==> settled(self.cliffs, #[trigger] self.output_ids@[k])) by {
                if k < q {
                    assert(self.output_ids@[k] == old(self).output_ids@[k]);
                }
            }
        }
        f
    }

    /// Ends the stream: releases the units still waiting for a gap to fill,
    /// decides the detector's remaining positions, and releases every unit
    /// left in the window, in id order. Every unit ever accepted has then
    /// been released exactly once.
    pub fn finish(&mut self) -> (r: Vec<DetectedFrame>)
        requires
            old(self).wf(),
            old(self).holding(),
        ensures
            final(self).wf(),
            final(self).closed@,
            final(self).keeps(*old(self)),
            final(self).input.pending@.len() == 0,
            final(self).lookahead@.len() == 0,
            final(self).output_ids@ == old(self).output_ids@ + frame_ids(r@),
            final(self).output_ids@ == final(self).input.emitted@,
            final(self).taken@.dom() == final(self).output_ids@.to_set(),
            forall|k: int| 0 <= k < r@.len() ==> final(self).released_at(old(self).output_ids@.len() + k, #[trigger] r@[k]),
    {
        let mut out: Vec<DetectedFrame> = Vec::new();
        let mut more = true;
        proof {
            lemma_keeps_refl(*self);
            assert(self.output_ids@ =~= old(self).output_ids@ + frame_ids(out@));
        }
        while more
            invariant
                self.wf(),
                self.holding(),
                self.keeps(*old(self)),
                !more ==> self.input.pending@.len() == 0,
                self.output_ids@ == old(self).output_ids@ + frame_ids(out@),
                forall|k: int| 0 <= k < out@.len() ==> self.released_at(old(self).output_ids@.len() + k, #[trigger] out@[k]),
            decreases self.input.pending@.len() + if more { 1int } else { 0int },
        {
            let ghost before = *self;
            match self.input.pop_lowest() {
                Some(entry) => {
                    let (_, frame) = entry;
                    proof { self.lemma_popped(before, entry); }
                    self.advance(frame);
                    proof {
                        lemma_keeps_trans(*old(self), before, *self);
                        assert forall|k: int| 0 <= k < out@.len() implies self.released_at(old(self).output_ids@.len() + k, #[trigger] out@[k]) by {
                            lemma_released_stable(before, *self, old(self).output_ids@.len() + k, out@[k]);
                        }
                    }
                    self.release_window(&mut out, Ghost(*old(self)));
                },
                None => {
                    more = false;
                },
            }
        }
        let ghost before_flush = *self;
        let ghost cb = self.cliffs;
        let results = self.cliffs.flush();
        proof {
            assert(all_before(self.output_ids@, cb.ids@, cb.finalized_count as int)) by {
                assert forall|q: int, p: int| 0 <= q < self.output_ids@.len() && cb.finalized_count <= p < cb.ids@.len() implies #[trigger] self.output_ids@[q] < #[trigger] cb.ids@[p] by {
                    assert(settled(cb, self.output_ids@[q]));
                }
            }
            lemma_confirmation_step(cb, self.cliffs, cb.ids@, cb.scores@, true, results@, self.output_ids@);
        }
        self.mark_cliffs(&results);
        self.closed = Ghost(true);
        proof {
            let la = self.lookahead@;
            assert forall|k: int| 0 <= k < la.len() implies waiting_ok(#[trigger] la[k], self.config.team_size as int)
                && la[k].is_cliff == self.cliffs.confirmed@.contains(la[k].id)
                && self.taken@.dom().contains(la[k].id)
                && same_input(la[k], self.taken@[la[k].id]) by {
                assert(before_flush.lookahead@[k].is_cliff == cb.confirmed@.contains(la[k].id));
            }
            assert(self.output_ids@.subrange(0, before_flush.output_ids@.len() as int) =~= before_flush.output_ids@);
            assert(self.release_lens@.subrange(0, before_flush.release_lens@.len() as int) =~= before_flush.release_lens@);
            assert(self.history@.subrange(0, before_flush.history@.len() as int) =~= before_flush.history@);
            assert forall|q: int| 0 <= q < before_flush.output_ids@.len() implies self.cliffs.confirmed@.contains(#[trigger] before_flush.output_ids@[q])
                == before_flush.cliffs.confirmed@.contains(before_flush.output_ids@[q]) by {
                assert(!flagged_ids(results@).contains(self.output_ids@[q]));
            }
            assert(self.keeps(before_flush));
            assert(self.wf_core());
            assert(frame_ids(self.lookahead@) =~= frame_ids(before_flush.lookahead@));
            lemma_keeps_trans(*old(self), before_flush, *self);
            assert forall|k: int| 0 <= k < out@.len() implies self.released_at(old(self).output_ids@.len() + k, #[trigger] out@[k]) by {
                lemma_released_stable(before_flush, *self, old(self).output_ids@.len() + k, out@[k]);
            }
        }
        while self.lookahead.len() > 0
            invariant
                self.wf(),
                self.closed@,
                self.keeps(*old(self)),
                self.input.pending@.len() == 0,
                self.output_ids@ == old(self).output_ids@ + frame_ids(out@),
                forall|k: int| 0 <= k < out@.len() ==> self.released_at(old(self).output_ids@.len() + k, #[trigger] out@[k]),
            decreases self.lookahead@.len(),
        {
            let ghost pre = *self;
            let ghost la = self.lookahead@;
            let ghost out_before = out@;
            let f = self.emit_front();
            out.push(f);
            proof {
                assert(frame_ids(out@) =~= frame_ids(out_before).push(la[0].id));
                assert(frame_ids(la) =~= seq![la[0].id] + frame_ids(self.lookahead@));
                assert(self.output_ids@ + frame_ids(self.lookahead@) =~= self.input.emitted@);
                lemma_keeps_trans(*old(self), pre, *self);
                assert forall|k: int| 0 <= k < out@.len() implies self.released_at(old(self).output_ids@.len() + k, #[trigger] out@[k]) by {
                    if k < out_before.len() {
                        lemma_released_stable(pre, *self, old(self).output_ids@.len() + k, out_before[k]);
                    }
                }
            }
        }
        proof {
            assert(frame_ids(self.lookahead@) =~= Seq::<usize>::empty());
            assert(self.output_ids@ =~= self.input.emitted@);
            assert(ids_of(self.input.pending@).to_set() =~= Set::<usize>::empty());
            assert(self.taken@.dom() =~= self.output_ids@.to_set());
        }
        out
    }
}

proof fn lemma_keeps_refl(a: FeatureStage)
    ensures
        a.keeps(a),
{
    assert(a.output_ids@.subrange(0, a.output_ids@.len() as int) =~= a.output_ids@);
    assert(a.release_lens@.subrange(0, a.release_lens@.len() as int) =~= a.release_lens@);
    assert(a.history@.subrange(0, a.history@.len() as int) =~= a.history@);
}

proof fn lemma_keeps_trans(a: FeatureStage, b: FeatureStage, c: FeatureStage)
    requires
        b.keeps(a),
        c.keeps(b),
    ensures
        c.keeps(a),
{
    assert(c.output_ids@.subrange(0, a.output_ids@.len() as int) =~= a.output_ids@) by {
        assert(b.output_ids@.subrange(0, a.output_ids@.len() as int) == a.output_ids@);
        assert forall|i: int| 0 <= i < a.output_ids@.len() implies c.output_ids@[i] == a.output_ids@[i] by {
            assert(c.output_ids@.subrange(0, b.output_ids@.len() as int)[i] == b.output_ids@[i]);
            assert(b.output_ids@.subrange(0, a.output_ids@.len() as int)[i] == a.output_ids@[i]);
        }
    }
    assert(c.release_lens@.subrange(0, a.release_lens@.len() as int) =~= a.release_lens@) by {
        assert forall|i: int| 0 <= i < a.release_lens@.len() implies c.release_lens@[i] == a.release_lens@[i] by {
            assert(c.release_lens@.subrange(0, b.release_lens@.len() as int)[i] == b.release_lens@[i]);
            assert(b.release_lens@.subrange(0, a.release_lens@.len() as int)[i] == a.release_lens@[i]);
        }
    }
    assert(c.history@.subrange(0, a.history@.len() as int) =~= a.history@) by {
        assert forall|i: int| 0 <= i < a.history@.len() implies c.history@[i] == a.history@[i] by {
            assert(c.history@.subrange(0, b.history@.len() as int)[i] == b.history@[i]);
            assert(b.history@.subrange(0, a.history@.len() as int)[i] == a.history@[i]);
        }
    }
    assert forall|q: int| 0 <= q < a.output_ids@.len() implies c.cliffs.confirmed@.contains(#[trigger] a.output_ids@[q])
        == a.cliffs.confirmed@.contains(a.output_ids@[q]) by {
        assert(b.output_ids@.subrange(0, a.output_ids@.len() as int)[q] == a.output_ids@[q]);
        assert(b.output_ids@[q] == a.output_ids@[q]);
        assert(c.cliffs.confirmed@.contains(b.output_ids@[q]) == b.cliffs.confirmed@.contains(b.output_ids@[q]));
    }
}

proof fn lemma_released_stable(b: FeatureStage, a: FeatureStage, q: int, f: DetectedFrame)
    requires
        b.wf_core(),
        b.released_at(q, f),
        a.keeps(b),
    ensures
        a.released_at(q, f),
{
    assert(a.output_ids@.subrange(0, b.output_ids@.len() as int)[q] == b.output_ids@[q]);
    assert(a.release_lens@.subrange(0, b.release_lens@.len() as int)[q] == b.release_lens@[q]);
    let n = b.release_lens@[q];
    assert(0 <= n <= b.history@.len());
    assert(a.history@.take(n) =~= b.history@.take(n)) by {
        assert forall|i: int| 0 <= i < n implies a.history@[i] == b.history@[i] by {
            assert(a.history@.subrange(0, b.history@.len() as int)[i] == b.history@[i]);
        }
    }
    assert(a.cliffs.confirmed@.contains(b.output_ids@[q]) == b.cliffs.confirmed@.contains(b.output_ids@[q]));
}

/// Every id of `outs` is smaller than every id of `ids` from position `from`.
pub open spec fn all_before(outs: Seq<usize>, ids: Seq<usize>, from: int) -> bool {
    forall|q: int, p: int| 0 <= q < outs.len() && from <= p < ids.len() ==> #[trigger] outs[q] < #[trigger] ids[p]
}

/// One detector step (a push or the final flush) over history `ids` with
/// results `r`: the confirmed cliffs grow by exactly the flagged results,
/// none of which is one of `outs`, and every position still to decide
/// holds an id later than all of `outs`.
proof fn lemma_confirmation_step(
    b: CliffDetectorState,
    a: CliffDetectorState,
    ids: Seq<usize>,
    scores: Seq<u64>,
    flush: bool,
    r: Seq<(usize, bool)>,
    outs: Seq<usize>,
)
    requires
        a.processed(ids, scores, b.finalized_count as int, b.last_cliff_index, b.confirmed@, flush, r),
        b.finalized_count <= ids.len(),
        strictly_increasing(ids),
        all_before(outs, ids, b.finalized_count as int),
    ensures
        forall|x: usize| #[trigger] a.confirmed@.contains(x) == (b.confirmed@.contains(x) || flagged_ids(r).contains(x)),
        forall|q: int| 0 <= q < outs.len() ==> !flagged_ids(r).contains(#[trigger] outs[q]),
        all_before(outs, a.ids@, a.finalized_count as int),
{
    lemma_flagged_iff(r);
    let c = a.detector.config;
    let end = crate::cliff::end_index(ids.len() as int, c.min_post_duration as int, flush);
    let fin = b.finalized_count as int;
    assert forall|x: usize| #[trigger] a.confirmed@.contains(x) == (b.confirmed@.contains(x) || flagged_ids(r).contains(x)) by {
        if ids.len() < c.smoothing_window || end <= fin {
            assert(r.len() == 0);
            assert(!flagged_ids(r).contains(x)) by {
                if flagged_ids(r).contains(x) {
                    let m = choose|m: int| 0 <= m < r.len() && #[trigger] r[m] == (x, true);
                }
            }
        } else {
            let cf = b.confirmed@ + flagged_ids(r);
            assert(a.confirmed@ == cf);
            if cf.contains(x) {
                let k = choose|k: int| 0 <= k < cf.len() && cf[k] == x;
                if k >= b.confirmed@.len() {
                    assert(flagged_ids(r)[k - b.confirmed@.len()] == x);
                }
            }
            if b.confirmed@.contains(x) {
                let k = choose|k: int| 0 <= k < b.confirmed@.len() && b.confirmed@[k] == x;
                assert(cf[k] == x);
            }
            if flagged_ids(r).contains(x) {
                let k = choose|k: int| 0 <= k < flagged_ids(r).len() && flagged_ids(r)[k] == x;
                assert(cf[b.confirmed@.len() + k] == x);
            }
        }
    }
    assert forall|q: int| 0 <= q < outs.len() implies !flagged_ids(r).contains(#[trigger] outs[q]) by {
        if flagged_ids(r).contains(outs[q]) {
            let m = choose|m: int| 0 <= m < r.len() && #[trigger] r[m] == (outs[q], true);
            if !(ids.len() < c.smoothing_window || end <= fin) {
                assert(r[m].0 == ids[fin + m]);
                assert(outs[q] < ids[fin + m]);
            }
        }
    }
    if !(ids.len() < c.smoothing_window || end <= fin) {
        let drop = crate::cliff::prune_count(c, end);
        assert forall|q: int, p: int| 0 <= q < outs.len() && a.finalized_count <= p < a.ids@.len() implies #[trigger] outs[q] < #[trigger] a.ids@[p] by {
            assert(a.ids@[p] == ids[p + drop]);
        }
    }
}

proof fn lemma_flagged_iff(rs: Seq<(usize, bool)>)
    ensures
        forall|x: usize| flagged_ids(rs).contains(x) <==> exists|m: int| 0 <= m < rs.len() && #[trigger] rs[m] == (x, true),
    decreases rs.len(),
{
    if rs.len() > 0 {
        let p = rs.drop_last();
        lemma_flagged_iff(p);
        assert forall|x: usize| flagged_ids(rs).contains(x) <==> exists|m: int| 0 <= m < rs.len() && #[trigger] rs[m] == (x, true) by {
            if flagged_ids(rs).contains(x) {
                if rs.last().1 && x == rs.last().0 {
                    assert(rs[rs.len() - 1] == (x, true));
                } else {
                    let k = choose|k: int| 0 <= k < flagged_ids(rs).len() && flagged_ids(rs)[k] == x;
                    if rs.last().1 {
                        if k < flagged_ids(p).len() {
                            assert(flagged_ids(p)[k] == x);
                        }
                    }
                    assert(flagged_ids(p).contains(x));
                    let m = choose|m: int| 0 <= m < p.len() && #[trigger] p[m] == (x, true);
                    assert(rs[m] == p[m]);
                }
            }
            if exists|m: int| 0 <= m < rs.len() && #[trigger] rs[m] == (x, true) {
                let m = choose|m: int| 0 <= m < rs.len() && #[trigger] rs[m] == (x, true);
                if m < rs.len() - 1 {
                    assert(p[m] == rs[m]);
                    assert(flagged_ids(p).contains(x));
                    let k = choose|k: int| 0 <= k < flagged_ids(p).len() && flagged_ids(p)[k] == x;
                    if rs.last().1 {
                        assert(flagged_ids(rs)[k] == x);
                    }
                } else {
                    assert(flagged_ids(rs).last() == x);
                }
            }
        }
    }
}

/// The feature stage releases units in strictly increasing id order, each id
/// at most once, whatever order they arrived in.
pub proof fn lemma_feature_output_in_order(s: &FeatureStage)
    requires
        s.wf(),
    ensures
        forall|i: int, j: int| 0 <= i < j < s.output_ids@.len() ==> s.output_ids@[i] < s.output_ids@[j],
{
    assert forall|i: int, j: int| 0 <= i < j < s.output_ids@.len() implies s.output_ids@[i] < s.output_ids@[j] by {
        assert(s.input.emitted@[i] == s.output_ids@[i]);
        assert(s.input.emitted@[j] == s.output_ids@[j]);
    }
}

/// Every unit the feature stage accepted was released once the stream is
/// finished: the released ids are exactly the accepted ids, each once.
pub proof fn lemma_feature_releases_everything(s: &FeatureStage)
    requires
        s.wf(),
        s.closed@,
        s.input.pending@.len() == 0,
        s.lookahead@.len() == 0,
    ensures
        s.taken@.dom() == s.output_ids@.to_set(),
        forall|i: int, j: int| 0 <= i < j < s.output_ids@.len() ==> s.output_ids@[i] != s.output_ids@[j],
{
    assert(s.output_ids@ =~= s.input.emitted@);
    assert(ids_of(s.input.pending@).to_set() =~= Set::<usize>::empty());
    assert(s.taken@.dom() =~= s.output_ids@.to_set());
    lemma_feature_output_in_order(s);
}

/// Cliffs released by the feature stage are at least `min_gap` (20) ids
/// apart: every released cliff is one the detector confirmed.
pub proof fn lemma_released_cliffs_spaced(s: &FeatureStage)
    requires
        s.wf(),
    ensures
        s.cliffs.detector.config.min_gap == 20,
        forall|i: int, j: int|
            0 <= i < j < s.cliffs.confirmed@.len() ==> s.cliffs.confirmed@[j] - s.cliffs.confirmed@[i] >= 20,
{
    crate::cliff::lemma_confirmed_cliffs_spaced(&s.cliffs);
}

} // verus!
