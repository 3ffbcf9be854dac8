//! The cliff (point-start) detector: a stateful machine over the history of
//! readiness scores that finalizes each sample once enough trailing context
//! exists, with a refractory gap between confirmed cliffs.
use vstd::prelude::*;
use crate::score::{UNIT, max_int};

verus! {

/// `0.5` in fixed point: the median of the pre-transition window must reach it.
pub const PLATEAU_MIN: u64 = 5_000;

/// Tuning of the cliff detector; thresholds are fixed-point (see `UNIT`).
#[derive(Clone, Copy, Debug)]
pub struct CliffDetectorConfig {
    pub min_drop: u64,
    pub min_prepoint_duration: usize,
    pub min_post_duration: usize,
    pub max_post_proba: u64,
    pub absolute_threshold: u64,
    pub min_gap: usize,
    pub smoothing_window: usize,
}

impl CliffDetectorConfig {
    /// Both windows that the detector reads must hold at least one sample.
    pub open spec fn wf(&self) -> bool {
        self.smoothing_window >= 1 && self.min_prepoint_duration >= 1
    }
}

/// The detector's standard tuning: a drop of 0.15, plateau and stability
/// windows of 10 samples, post ceiling 0.55, absolute ceiling 0.5, at least
/// 20 samples between cliffs, smoothing over 3 samples.
pub open spec fn is_default_config(c: CliffDetectorConfig) -> bool {
    &&& c.min_drop == 1_500
    &&& c.min_prepoint_duration == 10
    &&& c.min_post_duration == 10
    &&& c.max_post_proba == 5_500
    &&& c.absolute_threshold == 5_000
    &&& c.min_gap == 20
    &&& c.smoothing_window == 3
}

impl Default for CliffDetectorConfig {
    fn default() -> (r: Self)
        ensures
            is_default_config(r),
    {
        CliffDetectorConfig {
            min_drop: 1_500,
            min_prepoint_duration: 10,
            min_post_duration: 10,
            max_post_proba: 5_500,
            absolute_threshold: 5_000,
            min_gap: 20,
            smoothing_window: 3,
        }
    }
}

pub open spec fn scores_ok(p: Seq<u64>) -> bool {
    forall|i: int| 0 <= i < p.len() ==> #[trigger] p[i] <= UNIT
}

/// `p[lo] + ... + p[hi - 1]`.
pub open spec fn sum_of(p: Seq<u64>, lo: int, hi: int) -> int
    decreases hi - lo,
{
    if hi <= lo {
        0
    } else {
        sum_of(p, lo, hi - 1) + p[hi - 1]
    }
}

/// First index of the trailing smoothing window that ends at `i`.
pub open spec fn window_start(i: int, w: int) -> int {
    if i - (w - 1) > 0 {
        i - (w - 1)
    } else {
        0
    }
}

/// The trailing box average of width `w` at `i` (rounded down); `w <= 1`
/// leaves the sample as it is.
pub open spec fn smoothed_at(p: Seq<u64>, w: int, i: int) -> int {
    if w > 1 {
        sum_of(p, window_start(i, w), i + 1) / (i + 1 - window_start(i, w))
    } else {
        p[i] as int
    }
}

/// How many smoothed samples among positions `lo .. hi` fall below `t`.
pub open spec fn count_smoothed_below(p: Seq<u64>, w: int, lo: int, hi: int, t: int) -> int
    decreases hi - lo,
{
    if hi <= lo {
        0
    } else {
        count_smoothed_below(p, w, lo, hi - 1, t) + if smoothed_at(p, w, hi - 1) < t {
            1int
        } else {
            0int
        }
    }
}

/// How many raw samples among positions `lo .. hi` exceed `t`.
pub open spec fn count_above(p: Seq<u64>, lo: int, hi: int, t: int) -> int
    decreases hi - lo,
{
    if hi <= lo {
        0
    } else {
        count_above(p, lo, hi - 1, t) + if p[hi - 1] > t {
            1int
        } else {
            0int
        }
    }
}

/// Whether position `i` of the score history `p` is a candidate cliff.
///
/// The median of a window of `n` values is its element at rank `n / 2` once
/// sorted; it is at least `t` exactly when at most `n / 2` values lie below
/// `t`, and at most `t` exactly when at most `n - 1 - n / 2` values lie above.
pub open spec fn is_cliff_candidate(c: CliffDetectorConfig, p: Seq<u64>, i: int) -> bool {
    let w = c.smoothing_window as int;
    let pre = c.min_prepoint_duration as int;
    let post = c.min_post_duration as int;
    &&& pre <= i
    &&& i + post < p.len()
    &&& i + 1 < p.len()
    &&& max_int(smoothed_at(p, w, i), smoothed_at(p, w, window_start(i, w))) - smoothed_at(
        p,
        w,
        i + 1,
    ) >= c.min_drop
    &&& smoothed_at(p, w, i + 1) <= c.absolute_threshold
    &&& count_smoothed_below(p, w, i - pre, i, PLATEAU_MIN as int) <= pre / 2
    &&& (post == 0 || count_above(p, i + 1, i + 1 + post, c.max_post_proba as int) <= post - 1
        - post / 2)
}

/// The smoothed score at `i`.
fn smoothed_value(p: &[u64], w: usize, i: usize) -> (r: u64)
    requires
        scores_ok(p@),
        i < p@.len(),
    ensures
        r as int == smoothed_at(p@, w as int, i as int),
        r <= UNIT,
{
    if w <= 1 {
        return p[i];
    }
    let start: usize = if i >= w - 1 {
        i - (w - 1)
    } else {
        0
    };
    assert(start as int == window_start(i as int, w as int));
    let mut sum: u128 = 0;
    let mut k: usize = start;
    while k <= i
        invariant
            scores_ok(p@),
            start <= k <= i + 1,
            i < p@.len(),
            sum as int == sum_of(p@, start as int, k as int),
            sum <= (k - start) * UNIT,
        decreases i + 1 - k,
    {
        sum = sum + p[k] as u128;
        k = k + 1;
    }
    let len = (i + 1 - start) as u128;
    let r = sum / len;
    assert(r <= UNIT) by (nonlinear_arith)
        requires
            sum <= len * UNIT,
            len > 0,
            r == sum / len,
    ;
    r as u64
}

/// How many smoothed samples among `lo .. hi` fall below `t`.
fn smoothed_below(p: &[u64], w: usize, lo: usize, hi: usize, t: u64) -> (r: usize)
    requires
        scores_ok(p@),
        lo <= hi <= p@.len(),
    ensures
        r as int == count_smoothed_below(p@, w as int, lo as int, hi as int, t as int),
        r <= hi - lo,
{
    let mut count: usize = 0;
    let mut k: usize = lo;
    while k < hi
        invariant
            scores_ok(p@),
            lo <= k <= hi <= p@.len(),
            count as int == count_smoothed_below(p@, w as int, lo as int, k as int, t as int),
            count <= k - lo,
        decreases hi - k,
    {
        if smoothed_value(p, w, k) < t {
            count = count + 1;
        }
        k = k + 1;
    }
    count
}

/// How many raw samples among `lo .. hi` exceed `t`.
fn raw_above(p: &[u64], lo: usize, hi: usize, t: u64) -> (r: usize)
    requires
        lo <= hi <= p@.len(),
    ensures
        r as int == count_above(p@, lo as int, hi as int, t as int),
        r <= hi - lo,
{
    let mut count: usize = 0;
    let mut k: usize = lo;
    while k < hi
        invariant
            lo <= k <= hi <= p@.len(),
            count as int == count_above(p@, lo as int, k as int, t as int),
            count <= k - lo,
        decreases hi - k,
    {
        if p[k] > t {
            count = count + 1;
        }
        k = k + 1;
    }
    count
}

/// A stateless test of one position of a score history.
pub struct CliffDetector {
    pub config: CliffDetectorConfig,
}

impl CliffDetector {
    pub fn new(config: CliffDetectorConfig) -> (r: Self)
        ensures
            r.config == config,
    {
        CliffDetector { config }
    }

    /// Whether `center_idx` is a candidate cliff of `probabilities`: a drop of
    /// at least `min_drop` in the smoothed score (to the next sample, or across
    /// the smoothing window), a low enough smoothed value after it, a plateau
    /// before it and a stable low stretch after it.
    pub fn is_cliff_at(&self, probabilities: &[u64], center_idx: usize) -> (r: bool)
        requires
            self.config.wf(),
            scores_ok(probabilities@),
        ensures
            r == is_cliff_candidate(self.config, probabilities@, center_idx as int),
    {
        let c = self.config;
        let n = probabilities.len();
        let i = center_idx;
        if i < c.min_prepoint_duration || c.min_post_duration >= n || i >= n - c.min_post_duration {
            return false;
        }
        if i + 1 >= n {
            return false;
        }
        let w = c.smoothing_window;
        let curr = smoothed_value(probabilities, w, i);
        let next = smoothed_value(probabilities, w, i + 1);
        let start_w: usize = if i >= w - 1 {
            i - (w - 1)
        } else {
            0
        };
        assert(start_w as int == window_start(i as int, w as int));
        let first = smoothed_value(probabilities, w, start_w);
        let high = if curr >= first {
            curr
        } else {
            first
        };
        if high < next || high - next < c.min_drop {
            return false;
        }
        if next > c.absolute_threshold {
            return false;
        }
        let pre = c.min_prepoint_duration;
        let below = smoothed_below(probabilities, w, i - pre, i, PLATEAU_MIN);
        if below > pre / 2 {
            return false;
        }
        let post = c.min_post_duration;
        if post > 0 {
            let above = raw_above(probabilities, i + 1, i + 1 + post, c.max_post_proba);
            if above > post - 1 - post / 2 {
                return false;
            }
        }
        true
    }
}


/// The most recent flagged id of `rs`, or `prev` when none is flagged.
pub open spec fn last_flagged(prev: Option<usize>, rs: Seq<(usize, bool)>) -> Option<usize>
    decreases rs.len(),
{
    if rs.len() == 0 {
        prev
    } else if rs.last().1 {
        Some(rs.last().0)
    } else {
        last_flagged(prev, rs.drop_last())
    }
}

/// The ids of `rs` that are flagged, in order.
pub open spec fn flagged_ids(rs: Seq<(usize, bool)>) -> Seq<usize>
    decreases rs.len(),
{
    if rs.len() == 0 {
        Seq::empty()
    } else if rs.last().1 {
        flagged_ids(rs.drop_last()).push(rs.last().0)
    } else {
        flagged_ids(rs.drop_last())
    }
}

/// Whether a candidate at `id` is far enough from the last confirmed cliff.
pub open spec fn gap_ok(last: Option<usize>, id: usize, min_gap: usize) -> bool {
    match last {
        None => true,
        Some(l) => id - l >= min_gap,
    }
}

/// How many positions of a history of length `len` are decidable.
pub open spec fn end_index(len: int, post: int, flush: bool) -> int {
    if flush {
        len
    } else if len > post {
        len - post
    } else {
        0
    }
}

/// How many of the oldest samples are dropped once `end` positions are
/// final: everything older than the longest look-back a later position needs.
pub open spec fn prune_count(c: CliffDetectorConfig, end: int) -> int {
    let keep = c.min_prepoint_duration + c.smoothing_window + 2;
    if end > keep {
        end - keep
    } else {
        0
    }
}

pub open spec fn strictly_increasing(s: Seq<usize>) -> bool {
    forall|i: int, j: int| 0 <= i < j < s.len() ==> s[i] < s[j]
}

/// Pairwise distance of at least `gap` between the entries of `s`.
pub open spec fn spaced(s: Seq<usize>, gap: usize) -> bool {
    forall|i: int, j: int| 0 <= i < j < s.len() ==> s[j] - s[i] >= gap
}

/// The detector's state: the (id, score) history still needed, how much of it
/// is final, and the last confirmed cliff.
pub struct CliffDetectorState {
    pub detector: CliffDetector,
    /// Unit ids of the retained history, strictly increasing.
    pub ids: Vec<usize>,
    /// Scores of the retained history, aligned with `ids`.
    pub scores: Vec<u64>,
    pub last_cliff_index: Option<usize>,
    /// Number of leading history positions already decided.
    pub finalized_count: usize,
    /// The largest id ever pushed.
    pub last_id: Option<usize>,
    /// Every cliff confirmed so far, in order.
    pub confirmed: Ghost<Seq<usize>>,
}

impl CliffDetectorState {
    /// Well-formedness: `wf_history` plus every pending id lying after the
    /// last confirmed cliff.
    pub open spec fn wf(&self) -> bool {
        &&& self.wf_history()
        &&& (forall|p: int|
            self.finalized_count <= p < self.ids@.len() && self.confirmed@.len() > 0
                ==> self.confirmed@.last() < #[trigger] self.ids@[p])
    }

    /// The history is aligned and ordered, and the confirmed cliffs are
    /// ordered, spaced and recorded in `last_cliff_index`.
    pub open spec fn wf_history(&self) -> bool {
        let ids = self.ids@;
        let conf = self.confirmed@;
        &&& self.detector.config.wf()
        &&& ids.len() == self.scores@.len()
        &&& scores_ok(self.scores@)
        &&& strictly_increasing(ids)
        &&& self.finalized_count <= ids.len()
        &&& (ids.len() > 0 ==> self.last_id == Some(ids.last()))
        &&& (self.last_id is None ==> ids.len() == 0 && conf.len() == 0)
        &&& strictly_increasing(conf)
        &&& spaced(conf, self.detector.config.min_gap)
        &&& (conf.len() == 0 ==> self.last_cliff_index is None)
        &&& (conf.len() > 0 ==> self.last_cliff_index == Some(conf.last()))
        &&& (forall|k: int| 0 <= k < conf.len() ==> conf[k] <= self.last_id.unwrap())
    }

    /// The outcome of deciding positions `fin .. end_index(..)` of the history
    /// `ids` / `scores`, with `last` the last confirmed cliff before, as
    /// results `r` and next state `s`.
    pub open spec fn processed(
        &self,
        ids: Seq<usize>,
        scores: Seq<u64>,
        fin: int,
        last: Option<usize>,
        conf: Seq<usize>,
        flush: bool,
        r: Seq<(usize, bool)>,
    ) -> bool {
        let c = self.detector.config;
        let end = end_index(ids.len() as int, c.min_post_duration as int, flush);
        if ids.len() < c.smoothing_window || end <= fin {
            &&& r.len() == 0
            &&& self.ids@ == ids
            &&& self.scores@ == scores
            &&& self.finalized_count == fin
            &&& self.last_cliff_index == last
            &&& self.confirmed@ == conf
        } else {
            let drop = prune_count(c, end);
            &&& r.len() == end - fin
            &&& (forall|k: int|
                0 <= k < r.len() ==> (#[trigger] r[k]).0 == ids[fin + k] && r[k].1 == (
                is_cliff_candidate(c, scores, fin + k) && gap_ok(
                    last_flagged(last, r.take(k)),
                    ids[fin + k],
                    c.min_gap,
                )))
            &&& self.last_cliff_index == last_flagged(last, r)
            &&& self.confirmed@ == conf + flagged_ids(r)
            &&& self.ids@ == ids.subrange(drop, ids.len() as int)
            &&& self.scores@ == scores.subrange(drop, scores.len() as int)
            &&& self.finalized_count == end - drop
        }
    }

    pub fn new(config: CliffDetectorConfig) -> (r: Self)
        requires
            config.wf(),
        ensures
            r.wf(),
            r.detector.config == config,
            r.ids@.len() == 0,
            r.finalized_count == 0,
            r.last_cliff_index is None,
            r.last_id is None,
            r.confirmed@.len() == 0,
    {
        CliffDetectorState {
            detector: CliffDetector::new(config),
            ids: Vec::new(),
            scores: Vec::new(),
            last_cliff_index: None,
            finalized_count: 0,
            last_id: None,
            confirmed: Ghost(Seq::empty()),
        }
    }

    /// Records the score of the next unit and decides every position that now
    /// has enough trailing context.
    pub fn push(&mut self, frame_index: usize, pre_point_score: u64) -> (r: Vec<(usize, bool)>)
        requires
            old(self).wf(),
            pre_point_score <= UNIT,
            old(self).last_id is None || old(self).last_id.unwrap() < frame_index,
        ensures
            final(self).wf(),
            final(self).detector == old(self).detector,
            final(self).last_id == Some(frame_index),
            final(self).processed(
                old(self).ids@.push(frame_index),
                old(self).scores@.push(pre_point_score),
                old(self).finalized_count as int,
                old(self).last_cliff_index,
                old(self).confirmed@,
                false,
                r@,
            ),
    {
        self.ids.push(frame_index);
        self.scores.push(pre_point_score);
        self.last_id = Some(frame_index);
        proof {
            let ids = self.ids@;
            assert(ids.last() == frame_index);
            assert forall|i: int, j: int| 0 <= i < j < ids.len() implies ids[i] < ids[j] by {
                if j == ids.len() - 1 {
                    if i < old(self).ids@.len() {
                        assert(ids[i] == old(self).ids@[i]);
                    }
                } else {
                    assert(ids[i] == old(self).ids@[i]);
                    assert(ids[j] == old(self).ids@[j]);
                }
            }
            assert forall|p: int|
                self.finalized_count <= p < ids.len() && self.confirmed@.len()
                    > 0 implies self.confirmed@.last() < #[trigger] ids[p] by {
                if p < ids.len() - 1 {
                    assert(ids[p] == old(self).ids@[p]);
                }
            }
            assert(scores_ok(self.scores@)) by {
                assert forall|i: int| 0 <= i < self.scores@.len() implies #[trigger] self.scores@[i]
                    <= UNIT by {
                    if i < old(self).scores@.len() {
                        assert(self.scores@[i] == old(self).scores@[i]);
                    }
                }
            }
        }
        self.process(false)
    }

    /// Decides every position still pending, trailing context or not (used at
    /// end of stream).
    pub fn flush(&mut self) -> (r: Vec<(usize, bool)>)
        requires
            old(self).wf(),
        ensures
            final(self).wf(),
            final(self).detector == old(self).detector,
            final(self).last_id == old(self).last_id,
            final(self).processed(
                old(self).ids@,
                old(self).scores@,
                old(self).finalized_count as int,
                old(self).last_cliff_index,
                old(self).confirmed@,
                true,
                r@,
            ),
    {
        self.process(true)
    }

    fn process(&mut self, flush: bool) -> (r: Vec<(usize, bool)>)
        requires
            old(self).wf(),
        ensures
            final(self).wf(),
            final(self).detector == old(self).detector,
            final(self).last_id == old(self).last_id,
            final(self).processed(
                old(self).ids@,
                old(self).scores@,
                old(self).finalized_count as int,
                old(self).last_cliff_index,
                old(self).confirmed@,
                flush,
                r@,
            ),
    {
        let mut results: Vec<(usize, bool)> = Vec::new();
        let c = self.detector.config;
        let len = self.ids.len();
        if len < c.smoothing_window {
            return results;
        }
        let end_idx: usize = if flush {
            len
        } else if len > c.min_post_duration {
            len - c.min_post_duration
        } else {
            0
        };
        if end_idx <= self.finalized_count {
            return results;
        }
        let ghost old_conf = self.confirmed@;
        let ghost old_last = self.last_cliff_index;
        let start = self.finalized_count;
        let mut i: usize = start;
        while i < end_idx
            invariant
                self.wf_history(),
                self.detector == old(self).detector,
                self.ids@ == old(self).ids@,
                self.scores@ == old(self).scores@,
                self.last_id == old(self).last_id,
                self.finalized_count == start,
                start == old(self).finalized_count,
                old_conf == old(self).confirmed@,
                old_last == old(self).last_cliff_index,
                c == self.detector.config,
                end_idx <= len == self.ids@.len(),
                start <= i <= end_idx,
                results@.len() == i - start,
                forall|k: int|
                    0 <= k < results@.len() ==> (#[trigger] results@[k]).0 == self.ids@[start + k]
                        && results@[k].1 == (is_cliff_candidate(c, self.scores@, start + k)
                        && gap_ok(last_flagged(old_last, results@.take(k)), self.ids@[start + k], c.min_gap)),
                self.last_cliff_index == last_flagged(old_last, results@),
                self.confirmed@ == old_conf + flagged_ids(results@),
                forall|p: int|
                    i <= p < self.ids@.len() && self.confirmed@.len() > 0 ==> self.confirmed@.last()
                        < #[trigger] self.ids@[p],
            decreases end_idx - i,
        {
            let frame_idx = self.ids[i];
            let is_cliff = self.detector.is_cliff_at(self.scores.as_slice(), i);
            let finalized_cliff = if is_cliff {
                match self.last_cliff_index {
                    Some(last) => frame_idx - last >= c.min_gap,
                    None => true,
                }
            } else {
                false
            };
            let ghost prev = results@;
            let ghost prev_conf = self.confirmed@;
            if finalized_cliff {
                self.last_cliff_index = Some(frame_idx);
                self.confirmed = Ghost(self.confirmed@.push(frame_idx));
            }
            results.push((frame_idx, finalized_cliff));
            proof {
                assert(results@.drop_last() =~= prev);
                assert(results@.take(prev.len() as int) =~= prev);
                assert forall|k: int| 0 <= k < prev.len() implies results@.take(k) =~= prev.take(k) by {}
                let conf = self.confirmed@;
                if finalized_cliff {
                    assert forall|a: int, b: int| 0 <= a < b < conf.len() implies conf[a] < conf[b] && conf[b] - conf[a] >= c.min_gap by {
                        if b == conf.len() - 1 && prev_conf.len() > 0 {
                            assert(conf[a] == prev_conf[a]);
                            if a < prev_conf.len() - 1 {
                                assert(prev_conf[a] < prev_conf.last());
                            }
                        } else if b < conf.len() - 1 {
                            assert(conf[a] == prev_conf[a]);
                            assert(conf[b] == prev_conf[b]);
                        }
                    }
                    assert forall|k: int| 0 <= k < conf.len() implies conf[k] <= self.last_id.unwrap() by {
                        if k < prev_conf.len() {
                            assert(conf[k] == prev_conf[k]);
                        }
                        assert(self.ids@.last() >= self.ids@[i as int]);
                    }
                    assert forall|p: int| i + 1 <= p < self.ids@.len() implies conf.last() < #[trigger] self.ids@[p] by {
                        assert(self.ids@[i as int] < self.ids@[p]);
                    }
                }
            }
            i = i + 1;
        }
        let keep = c.min_prepoint_duration.saturating_add(c.smoothing_window).saturating_add(2);
        let drop: usize = if end_idx > keep {
            end_idx - keep
        } else {
            0
        };
        let kept_ids = self.ids.split_off(drop);
        let kept_scores = self.scores.split_off(drop);
        self.ids = kept_ids;
        self.scores = kept_scores;
        self.finalized_count = end_idx - drop;
        proof {
            let ids = self.ids@;
            let old_ids = old(self).ids@;
            assert forall|a: int, b: int| 0 <= a < b < ids.len() implies ids[a] < ids[b] by {
                assert(ids[a] == old_ids[a + drop]);
                assert(ids[b] == old_ids[b + drop]);
            }
            assert forall|q: int| 0 <= q < self.scores@.len() implies #[trigger] self.scores@[q] <= UNIT by {
                assert(self.scores@[q] == old(self).scores@[q + drop]);
            }
            assert forall|p: int|
                self.finalized_count <= p < ids.len() && self.confirmed@.len() > 0 implies self.confirmed@.last() < #[trigger] ids[p] by {
                assert(ids[p] == old_ids[p + drop]);
            }
            if ids.len() > 0 {
                assert(ids.last() == old_ids.last());
            }
        }
        results
    }
}

/// Cliffs confirmed by the detector are at least `min_gap` ids apart.
pub proof fn lemma_confirmed_cliffs_spaced(s: &CliffDetectorState)
    requires
        s.wf(),
    ensures
        forall|i: int, j: int|
            0 <= i < j < s.confirmed@.len() ==> s.confirmed@[i] < s.confirmed@[j] && s.confirmed@[j]
                - s.confirmed@[i] >= s.detector.config.min_gap,
{
}

} // verus!
