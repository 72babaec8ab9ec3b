use vstd::prelude::*;

verus! {

/// `v` clamped into the range of `i64`.
pub open spec fn clamp_i64(v: int) -> i64 {
    if v > i64::MAX {
        i64::MAX
    } else if v < i64::MIN {
        i64::MIN
    } else {
        v as i64
    }
}

/// `v` clamped into the range of `u64`.
pub open spec fn clamp_u64(v: int) -> u64 {
    if v > u64::MAX {
        u64::MAX
    } else if v < 0 {
        0
    } else {
        v as u64
    }
}

/// `i64::saturating_add`: the exact sum, clamped to the bounds of `i64`
/// (its documentation: "saturating at the numeric bounds instead of overflowing").
pub assume_specification[ <i64>::saturating_add ](x: i64, y: i64) -> (r: i64)
    ensures
        r == clamp_i64(x + y),
;

/// `i64::saturating_sub`: the exact difference, clamped to the bounds of `i64`.
pub assume_specification[ <i64>::saturating_sub ](x: i64, y: i64) -> (r: i64)
    ensures
        r == clamp_i64(x - y),
;

/// `u64::saturating_mul`: the exact product, clamped to `u64::MAX`.
pub assume_specification[ <u64>::saturating_mul ](x: u64, y: u64) -> (r: u64)
    ensures
        r == clamp_u64(x * y),
;

/// `i64::abs`: the absolute value. Its documentation says it overflows (and
/// panics in debug builds) on `i64::MIN`, which is left out here.
pub assume_specification[ <i64>::abs ](x: i64) -> (r: i64)
    requires
        x != i64::MIN,
    ensures
        r == (if x < 0 { -x } else { x as int }),
;

/// `i8::rem_euclid`: the least nonnegative remainder. Its documentation says it
/// panics when `rhs` is zero; only a positive `rhs` is admitted here.
pub assume_specification[ <i8>::rem_euclid ](x: i8, rhs: i8) -> (r: i8)
    requires
        rhs > 0,
    ensures
        r == x % rhs,
;

} // verus!
