//! Side attribution of a confirmed cliff: which end zone emptied first.
use vstd::prelude::*;

verus! {

/// The attribution flags of one cliff.
#[derive(Clone, Copy, Debug, PartialEq, Eq, Structural)]
pub struct SideAttribution {
    pub left_emptied_first: bool,
    pub right_emptied_first: bool,
    pub maybe_false_positive: bool,
}

/// Occupancy of one side at each position of `h` (`left` or `right`).
pub open spec fn side(h: Seq<(u64, u64)>, left: bool, i: int) -> u64 {
    if left {
        h[i].0
    } else {
        h[i].1
    }
}

/// The first position `i` in `from .. stop` at which the side reads zero for
/// the second sample in a row, both samples lying at or after `start`.
pub open spec fn first_emptied(
    h: Seq<(u64, u64)>,
    left: bool,
    start: int,
    from: int,
    stop: int,
) -> Option<int>
    decreases stop - from,
{
    if from >= stop {
        None
    } else if from > start && side(h, left, from) == 0 && side(h, left, from - 1) == 0 {
        Some(from)
    } else {
        first_emptied(h, left, start, from + 1, stop)
    }
}

/// Looking back from position `upto - 1` to `0`, the nearest position where
/// the two sides differ: `Some(true)` when the left side was lower there.
pub open spec fn nearest_asymmetry(h: Seq<(u64, u64)>, upto: int) -> Option<bool>
    decreases upto,
{
    if upto <= 0 {
        None
    } else if h[upto - 1].0 < h[upto - 1].1 {
        Some(true)
    } else if h[upto - 1].1 < h[upto - 1].0 {
        Some(false)
    } else {
        nearest_asymmetry(h, upto - 1)
    }
}

pub open spec fn flags(left: bool, right: bool, fp: bool) -> SideAttribution {
    SideAttribution { left_emptied_first: left, right_emptied_first: right, maybe_false_positive: fp }
}

/// The attribution of a cliff at `cliff` over the window
/// `[cliff - lookback, cliff + lookahead]` (clipped to the history).
pub open spec fn attribution(
    h: Seq<(u64, u64)>,
    cliff: int,
    lookback: int,
    lookahead: int,
) -> SideAttribution {
    let start = if cliff >= lookback {
        cliff - lookback
    } else {
        0
    };
    let stop = if cliff + lookahead + 1 <= h.len() {
        cliff + lookahead + 1
    } else {
        h.len() as int
    };
    let l = first_emptied(h, true, start, start, stop);
    let r = first_emptied(h, false, start, start, stop);
    match (l, r) {
        (Some(a), Some(b)) => if a < b {
            flags(true, false, false)
        } else if b < a {
            flags(false, true, false)
        } else {
            match nearest_asymmetry(h, a) {
                Some(true) => flags(true, false, false),
                Some(false) => flags(false, true, false),
                None => flags(true, true, false),
            }
        },
        (Some(_), None) => flags(true, false, false),
        (None, Some(_)) => flags(false, true, false),
        (None, None) => flags(false, false, true),
    }
}

proof fn lemma_first_emptied_in_range(h: Seq<(u64, u64)>, left: bool, start: int, from: int, stop: int)
    ensures
        first_emptied(h, left, start, from, stop) matches Some(i) ==> from <= i < stop && i > start,
    decreases stop - from,
{
    if from < stop {
        lemma_first_emptied_in_range(h, left, start, from + 1, stop);
    }
}

/// Decides which side pulled at the cliff at `cliff`, from the raw per-unit
/// occupancies `history` (left, right).
pub fn attribute_sides(history: &[(u64, u64)], cliff: usize, lookback: usize, lookahead: usize) -> (r: SideAttribution)
    ensures
        r == attribution(history@, cliff as int, lookback as int, lookahead as int),
{
    let start: usize = cliff.saturating_sub(lookback);
    let end: usize = cliff.saturating_add(lookahead);
    let stop: usize = if end < history.len() {
        end + 1
    } else {
        history.len()
    };
    let ghost h = history@;
    let mut left_zero: usize = 0;
    let mut right_zero: usize = 0;
    let mut left_at: Option<usize> = None;
    let mut right_at: Option<usize> = None;
    let mut i: usize = start;
    while i < stop
        invariant
            h == history@,
            stop <= history@.len(),
            start <= i,
            i <= stop || (i == start && start >= stop),
            left_zero <= i - start,
            right_zero <= i - start,
            i > start ==> (left_zero >= 1 <==> h[i - 1].0 == 0),
            i > start ==> (right_zero >= 1 <==> h[i - 1].1 == 0),
            i == start ==> left_zero == 0 && right_zero == 0,
            match left_at {
                None => first_emptied(h, true, start as int, start as int, stop as int)
                    == first_emptied(h, true, start as int, i as int, stop as int),
                Some(a) => first_emptied(h, true, start as int, start as int, stop as int) == Some(a as int),
            },
            match right_at {
                None => first_emptied(h, false, start as int, start as int, stop as int)
                    == first_emptied(h, false, start as int, i as int, stop as int),
                Some(a) => first_emptied(h, false, start as int, start as int, stop as int) == Some(a as int),
            },
        decreases stop - i,
    {
        let (lv, rv) = history[i];
        if lv == 0 {
            left_zero = left_zero + 1;
            if left_zero >= 2 && left_at.is_none() {
                left_at = Some(i);
            }
        } else {
            left_zero = 0;
        }
        if rv == 0 {
            right_zero = right_zero + 1;
            if right_zero >= 2 && right_at.is_none() {
                right_at = Some(i);
            }
        } else {
            right_zero = 0;
        }
        i = i + 1;
    }
    proof {
        lemma_first_emptied_in_range(h, true, start as int, start as int, stop as int);
        lemma_first_emptied_in_range(h, false, start as int, start as int, stop as int);
        if left_at is None {
            assert(first_emptied(h, true, start as int, i as int, stop as int) is None);
        }
        if right_at is None {
            assert(first_emptied(h, false, start as int, i as int, stop as int) is None);
        }
    }
    match (left_at, right_at) {
        (Some(l), Some(r)) => {
            if l < r {
                SideAttribution { left_emptied_first: true, right_emptied_first: false, maybe_false_positive: false }
            } else if r < l {
                SideAttribution { left_emptied_first: false, right_emptied_first: true, maybe_false_positive: false }
            } else {
                let ghost tie = match nearest_asymmetry(h, l as int) {
                    Some(true) => flags(true, false, false),
                    Some(false) => flags(false, true, false),
                    None => flags(true, true, false),
                };
                assert(attribution(h, cliff as int, lookback as int, lookahead as int) == tie);
                let mut k: usize = l;
                while k > 0
                    invariant
                        h == history@,
                        attribution(h, cliff as int, lookback as int, lookahead as int) == tie,
                        tie == match nearest_asymmetry(h, l as int) {
                            Some(true) => flags(true, false, false),
                            Some(false) => flags(false, true, false),
                            None => flags(true, true, false),
                        },
                        k <= l < history@.len(),
                        nearest_asymmetry(h, l as int) == nearest_asymmetry(h, k as int),
                    decreases k,
                {
                    let (lv, rv) = history[k - 1];
                    if lv < rv {
                        return SideAttribution { left_emptied_first: true, right_emptied_first: false, maybe_false_positive: false };
                    } else if rv < lv {
                        return SideAttribution { left_emptied_first: false, right_emptied_first: true, maybe_false_positive: false };
                    }
                    k = k - 1;
                }
                SideAttribution { left_emptied_first: true, right_emptied_first: true, maybe_false_positive: false }
            }
        },
        (Some(_), None) => SideAttribution { left_emptied_first: true, right_emptied_first: false, maybe_false_positive: false },
        (None, Some(_)) => SideAttribution { left_emptied_first: false, right_emptied_first: true, maybe_false_positive: false },
        (None, None) => SideAttribution { left_emptied_first: false, right_emptied_first: false, maybe_false_positive: true },
    }
}

/// Every attributed cliff carries exactly one of left-first, right-first and
/// probable false positive, or else both emptied flags (a true tie).
pub proof fn lemma_attribution_exclusive(h: Seq<(u64, u64)>, cliff: int, lookback: int, lookahead: int)
    ensures
        ({
            let a = attribution(h, cliff, lookback, lookahead);
            (a.left_emptied_first && !a.right_emptied_first && !a.maybe_false_positive)
                || (!a.left_emptied_first && a.right_emptied_first && !a.maybe_false_positive)
                || (!a.left_emptied_first && !a.right_emptied_first && a.maybe_false_positive)
                || (a.left_emptied_first && a.right_emptied_first && !a.maybe_false_positive)
        }),
{
}

} // verus!
