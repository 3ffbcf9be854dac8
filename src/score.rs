//! Fixed-point occupancy and the readiness ("pre-point") score.
use vstd::prelude::*;

verus! {

/// Fixed-point one: fractional quantities (occupancies, scores, thresholds,
/// overlaps) are stored as multiples of `1 / UNIT`.
pub const UNIT: u64 = 10_000;

/// `1.2` in fixed point: the symmetry bonus is `1.2 - |left - right|`, clamped.
pub const SYMMETRY_CEILING: u64 = 12_000;

/// `1.5` in fixed point: the field term is `1.5 - field`, clamped.
pub const FIELD_CEILING: u64 = 15_000;

/// `v` clamped to the fixed-point interval `[0, 1]`.
pub open spec fn clamp_unit(v: int) -> int {
    if v < 0 {
        0
    } else if v > UNIT {
        UNIT as int
    } else {
        v
    }
}

pub open spec fn abs_diff(a: int, b: int) -> int {
    if a >= b {
        a - b
    } else {
        b - a
    }
}

pub open spec fn max_int(a: int, b: int) -> int {
    if a >= b {
        a
    } else {
        b
    }
}

pub open spec fn min_int(a: int, b: int) -> int {
    if a <= b {
        a
    } else {
        b
    }
}

/// The smallest end-zone occupancy, kept only when it reaches two players'
/// worth (`2 / team_size`); a team size of zero makes that bar unreachable.
pub open spec fn balance_term(left: int, right: int, team_size: int) -> int {
    let m = min_int(left, right);
    if team_size > 0 && m >= (2 * UNIT) / team_size {
        m
    } else {
        0
    }
}

pub open spec fn symmetry_bonus(left: int, right: int) -> int {
    clamp_unit(SYMMETRY_CEILING - abs_diff(left, right))
}

pub open spec fn field_term(field: int) -> int {
    clamp_unit(FIELD_CEILING - field)
}

/// `2 * balance * symmetry * field`, clamped to `[0, 1]`, in fixed point.
pub open spec fn pre_point_score(left: int, right: int, field: int, team_size: int) -> int {
    clamp_unit(
        (2 * balance_term(left, right, team_size) * symmetry_bonus(left, right) * field_term(
            field,
        )) / (UNIT * UNIT) as int,
    )
}

/// `count / team_size` in fixed point, rounded down.
pub open spec fn normalized_count(count: int, team_size: int) -> int {
    (count * UNIT) / team_size
}

/// Occupancy of one region: the number of counted detections divided by the
/// team size.
pub fn normalize_count(count: usize, team_size: usize) -> (r: u64)
    requires
        team_size > 0,
        count <= u64::MAX / UNIT,
    ensures
        r as int == normalized_count(count as int, team_size as int),
{
    (count as u64 * UNIT) / team_size as u64
}

/// Readiness score of one unit from its left, right and field occupancies.
pub fn calculate_pre_point_score(left: u64, right: u64, field: u64, team_size: usize) -> (r: u64)
    ensures
        r as int == pre_point_score(left as int, right as int, field as int, team_size as int),
        r <= UNIT,
{
    let m = if left <= right {
        left
    } else {
        right
    };
    let balance: u64 = if team_size > 0 && m >= (2 * UNIT) / (team_size as u64) {
        m
    } else {
        0
    };
    let diff: u64 = if left >= right {
        left - right
    } else {
        right - left
    };
    let symmetry: u64 = if diff >= SYMMETRY_CEILING {
        0
    } else if SYMMETRY_CEILING - diff > UNIT {
        UNIT
    } else {
        SYMMETRY_CEILING - diff
    };
    let fterm: u64 = if field >= FIELD_CEILING {
        0
    } else if FIELD_CEILING - field > UNIT {
        UNIT
    } else {
        FIELD_CEILING - field
    };
    assert(balance as int == balance_term(left as int, right as int, team_size as int));
    assert(symmetry as int == symmetry_bonus(left as int, right as int));
    assert(fterm as int == field_term(field as int));
    let b = balance as u128;
    let s = symmetry as u128;
    let f = fterm as u128;
    assert(2 * b * s <= 2 * 0x1_0000_0000_0000_0000 * 10_000) by (nonlinear_arith)
        requires
            b < 0x1_0000_0000_0000_0000,
            s <= 10_000,
    ;
    let bs: u128 = 2 * b * s;
    assert(bs * f <= 2 * 0x1_0000_0000_0000_0000 * 10_000 * 10_000) by (nonlinear_arith)
        requires
            bs <= 2 * 0x1_0000_0000_0000_0000 * 10_000,
            f <= 10_000,
    ;
    let q: u128 = (bs * f) / ((UNIT * UNIT) as u128);
    if q > UNIT as u128 {
        UNIT
    } else {
        q as u64
    }
}

} // verus!
