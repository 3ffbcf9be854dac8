//! The range partitioner: the unit-id space split into disjoint chunks held
//! in a FIFO pool from which reader workers draw, and the unit-to-frame map.
use vstd::prelude::*;
use std::collections::VecDeque;

verus! {

/// Units per range handed to a reader at a time.
pub const CHUNK_SIZE: usize = 200;

/// The half-open interval `[start, end)` of unit ids.
#[derive(Clone, Copy, Debug, PartialEq, Eq, Structural)]
pub struct WorkRange {
    pub start: usize,
    pub end: usize,
}

/// Consecutive ranges of at most `chunk` units from `start` up to `total`.
pub open spec fn ranges_from(start: int, total: int, chunk: int) -> Seq<WorkRange>
    decreases total + chunk - start,
{
    if start >= total || chunk <= 0 {
        Seq::empty()
    } else {
        let end = if total - start > chunk {
            start + chunk
        } else {
            total
        };
        seq![WorkRange { start: start as usize, end: end as usize }] + ranges_from(end, total, chunk)
    }
}

pub open spec fn in_range(r: WorkRange, u: int) -> bool {
    r.start <= u < r.end
}

/// Whether unit `u` lies in one of the ranges.
pub open spec fn unit_covered(rs: Seq<WorkRange>, u: int) -> bool {
    exists|k: int| 0 <= k < rs.len() && #[trigger] in_range(rs[k], u)
}

/// The ranges partition `[0, total)`: each is non-empty and inside it, they
/// come in increasing order without overlap, and every unit lies in one.
pub open spec fn partitions(rs: Seq<WorkRange>, total: int) -> bool {
    &&& forall|k: int| 0 <= k < rs.len() ==> (#[trigger] rs[k]).start < rs[k].end <= total
    &&& forall|a: int, b: int| 0 <= a < b < rs.len() ==> (#[trigger] rs[a]).end <= (#[trigger] rs[b]).start
    &&& forall|u: int| 0 <= u < total ==> #[trigger] unit_covered(rs, u)
}

proof fn lemma_ranges_from(start: int, total: int, chunk: int)
    requires
        0 <= start,
        chunk > 0,
        total <= usize::MAX,
    ensures
        ({
            let rs = ranges_from(start, total, chunk);
            &&& forall|k: int| 0 <= k < rs.len() ==> start <= (#[trigger] rs[k]).start < rs[k].end <= total
            &&& forall|a: int, b: int| 0 <= a < b < rs.len() ==> (#[trigger] rs[a]).end <= (#[trigger] rs[b]).start
            &&& forall|u: int| start <= u < total ==> #[trigger] unit_covered(rs, u)
        }),
    decreases total + chunk - start,
{
    if start < total {
        let end = if total - start > chunk {
            start + chunk
        } else {
            total
        };
        lemma_ranges_from(end, total, chunk);
        let rest = ranges_from(end, total, chunk);
        let rs = ranges_from(start, total, chunk);
        let head = WorkRange { start: start as usize, end: end as usize };
        assert(rs == seq![head] + rest);
        assert forall|k: int| 0 <= k < rs.len() implies start <= (#[trigger] rs[k]).start < rs[k].end <= total by {
            if k > 0 {
                assert(rs[k] == rest[k - 1]);
            }
        }
        assert forall|a: int, b: int| 0 <= a < b < rs.len() implies (#[trigger] rs[a]).end <= (#[trigger] rs[b]).start by {
            assert(rs[b] == rest[b - 1]);
            if a > 0 {
                assert(rs[a] == rest[a - 1]);
            }
        }
        assert forall|u: int| start <= u < total implies #[trigger] unit_covered(rs, u) by {
            if u < end {
                assert(in_range(rs[0], u));
            } else {
                assert(unit_covered(rest, u));
                let k = choose|k: int| 0 <= k < rest.len() && #[trigger] in_range(rest[k], u);
                assert(rs[k + 1] == rest[k]);
                assert(in_range(rs[k + 1], u));
            }
        }
    }
}

/// Splitting `[0, total)` into chunks partitions it: no unit is skipped and
/// none is handed out twice.
pub proof fn lemma_partition_coverage(total: usize, chunk: usize)
    requires
        chunk > 0,
    ensures
        partitions(ranges_from(0, total as int, chunk as int), total as int),
{
    lemma_ranges_from(0, total as int, chunk as int);
}

/// The pool of ranges still to be read, with the ranges drawn so far.
pub struct RangePool {
    pub queue: VecDeque<WorkRange>,
    /// Every range the pool was created with, in order.
    pub all: Ghost<Seq<WorkRange>>,
    /// The ranges handed out so far, in the order they were drawn.
    pub drawn: Ghost<Seq<WorkRange>>,
    pub total: usize,
}

impl RangePool {
    /// What was drawn followed by what remains is exactly the initial
    /// partition of `[0, total)`.
    pub open spec fn wf(&self) -> bool {
        &&& self.drawn@ + self.queue@ == self.all@
        &&& self.all@ == ranges_from(0, self.total as int, CHUNK_SIZE as int)
    }

    /// A pool covering `[0, total_units)` in chunks of `CHUNK_SIZE`.
    pub fn new(total_units: usize) -> (r: Self)
        ensures
            r.wf(),
            r.total == total_units,
            r.drawn@.len() == 0,
            r.queue@ == ranges_from(0, total_units as int, CHUNK_SIZE as int),
    {
        let mut queue: VecDeque<WorkRange> = VecDeque::new();
        let mut i: usize = 0;
        while i < total_units
            invariant
                i <= total_units,
                queue@ + ranges_from(i as int, total_units as int, CHUNK_SIZE as int) == ranges_from(
                    0,
                    total_units as int,
                    CHUNK_SIZE as int,
                ),
            decreases total_units - i,
        {
            let end = if total_units - i > CHUNK_SIZE {
                i + CHUNK_SIZE
            } else {
                total_units
            };
            let ghost before = queue@;
            let range = WorkRange { start: i, end };
            queue.push_back(range);
            proof {
                assert(ranges_from(i as int, total_units as int, CHUNK_SIZE as int) == seq![range]
                    + ranges_from(end as int, total_units as int, CHUNK_SIZE as int));
                assert(before.push(range) + ranges_from(end as int, total_units as int, CHUNK_SIZE as int)
                    =~= before + (seq![range] + ranges_from(end as int, total_units as int, CHUNK_SIZE as int)));
            }
            i = end;
        }
        proof {
            assert(queue@ =~= ranges_from(0, total_units as int, CHUNK_SIZE as int));
        }
        RangePool {
            queue,
            all: Ghost(ranges_from(0, total_units as int, CHUNK_SIZE as int)),
            drawn: Ghost(Seq::empty()),
            total: total_units,
        }
    }

    /// Draws the next range, first in first out; `None` once all are drawn.
    pub fn take(&mut self) -> (r: Option<WorkRange>)
        requires
            old(self).wf(),
        ensures
            final(self).wf(),
            final(self).total == old(self).total,
            old(self).queue@.len() == 0 ==> r is None && final(self).drawn@ == old(self).drawn@,
            old(self).queue@.len() > 0 ==> r == Some(old(self).queue@[0])
                && final(self).drawn@ == old(self).drawn@.push(old(self).queue@[0])
                && final(self).queue@ == old(self).queue@.subrange(1, old(self).queue@.len() as int),
    {
        let r = self.queue.pop_front();
        match r {
            Some(range) => {
                self.drawn = Ghost(self.drawn@.push(range));
                proof {
                    assert(self.drawn@ + self.queue@ =~= old(self).drawn@ + old(self).queue@);
                }
            },
            None => {},
        }
        r
    }

    pub fn is_empty(&self) -> (r: bool)
        ensures
            r == (self.queue@.len() == 0),
    {
        self.queue.len() == 0
    }
}

/// However the draws interleave, once the pool is empty the ranges drawn
/// partition `[0, total)`.
pub proof fn lemma_drawn_ranges_partition(pool: &RangePool)
    requires
        pool.wf(),
        pool.queue@.len() == 0,
    ensures
        partitions(pool.drawn@, pool.total as int),
{
    assert(pool.drawn@ + pool.queue@ =~= pool.drawn@);
    lemma_partition_coverage(pool.total, CHUNK_SIZE);
}

/// `unit * fps / rate` rounded to the nearest integer, halves up.
pub open spec fn rounded_frame(unit: int, fps_milli: int, rate_milli: int) -> int {
    (2 * unit * fps_milli + rate_milli) / (2 * rate_milli)
}

/// The absolute frame index of sampled unit `unit_id`, for a source at
/// `source_fps_milli / 1000` frames per second sampled at
/// `sample_rate_milli / 1000` units per second (computed from the unit id
/// directly, so no error accumulates).
pub fn unit_to_frame(unit_id: usize, source_fps_milli: u64, sample_rate_milli: u64) -> (r: usize)
    requires
        sample_rate_milli > 0,
        rounded_frame(unit_id as int, source_fps_milli as int, sample_rate_milli as int) <= usize::MAX,
    ensures
        r as int == rounded_frame(unit_id as int, source_fps_milli as int, sample_rate_milli as int),
{
    let u = unit_id as u128;
    let f = source_fps_milli as u128;
    let rate = sample_rate_milli as u128;
    assert(u * f <= 0xffff_ffff_ffff_ffff * 0xffff_ffff_ffff_ffff) by (nonlinear_arith)
        requires
            u <= 0xffff_ffff_ffff_ffff,
            f <= 0xffff_ffff_ffff_ffff,
    ;
    let x = u * f;
    let q = x / rate;
    let rem = x % rate;
    let res = if 2 * rem >= rate {
        q + 1
    } else {
        q
    };
    proof {
        let xi = x as int;
        let ri = rate as int;
        let qi = q as int;
        let mi = rem as int;
        vstd::arithmetic::div_mod::lemma_fundamental_div_mod(xi, ri);
        assert(xi == ri * qi + mi);
        assert(2 * xi + ri == (2 * ri) * qi + 2 * mi + ri) by (nonlinear_arith)
            requires
                xi == ri * qi + mi,
        ;
        if 2 * mi >= ri {
            assert((2 * ri) * (qi + 1) == (2 * ri) * qi + 2 * ri) by (nonlinear_arith);
            vstd::arithmetic::div_mod::lemma_fundamental_div_mod_converse(2 * xi + ri, 2 * ri, qi + 1, 2 * mi - ri);
        } else {
            vstd::arithmetic::div_mod::lemma_fundamental_div_mod_converse(2 * xi + ri, 2 * ri, qi, 2 * mi + ri);
        }
        assert(2 * (unit_id as int) * (source_fps_milli as int) == 2 * xi) by (nonlinear_arith)
            requires
                xi == (unit_id as int) * (source_fps_milli as int),
        ;
    }
    res as usize
}

} // verus!
