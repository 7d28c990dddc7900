pub mod biome;
pub mod climate;
pub mod grid;
pub mod land;
pub mod map;
pub mod ocean;
pub mod river;
pub mod rng;
pub mod simplex;
pub mod sines;

use vstd::prelude::*;

verus! {

/// Fixed-point scale shared by the noise and climate code: the real number 1.0
/// is represented by the integer `UNIT`.
pub const UNIT: i64 = 4096;

/// Integer division rounding toward zero, as the executable `/` computes it.
pub open spec fn tdiv(a: int, b: int) -> int {
    if a >= 0 {
        a / b
    } else {
        -((-a) / b)
    }
}

/// Executable division rounding toward zero, for possibly negative numerators.
pub fn div_trunc(a: i64, b: i64) -> (r: i64)
    requires
        b > 0,
        a > i64::MIN,
    ensures
        r == tdiv(a as int, b as int),
{
    if a >= 0 {
        a / b
    } else {
        let m = (-a) / b;
        assert(0 <= m <= -a) by (nonlinear_arith)
            requires
                b > 0,
                a < 0,
                m == (-a) as int / b as int,
        {}
        -m
    }
}

/// The linear remapping of a fixed-point noise value from [-UNIT, UNIT]
/// to the domain range [lower, upper].
pub open spec fn spec_map_to_range(value: int, lower: int, upper: int) -> int {
    lower + (value + UNIT) * (upper - lower) / (2 * UNIT)
}

/// Linearly remap a fixed-point noise value from [-UNIT, UNIT] to the domain
/// range [lower, upper]; the extremes map exactly onto the bounds.
pub fn map_to_range(value: i64, lower: i64, upper: i64) -> (r: i64)
    requires
        -UNIT <= value <= UNIT,
        -1_000_000 <= lower <= upper <= 1_000_000,
    ensures
        lower <= r <= upper,
        value == -UNIT ==> r == lower,
        value == UNIT ==> r == upper,
        r == spec_map_to_range(value as int, lower as int, upper as int),
{
    let span = upper - lower;
    let shifted = value + UNIT;
    assert(0 <= shifted * span <= 2 * UNIT * span && shifted * span <= 0x4_0000_0000_0000) by (nonlinear_arith)
        requires
            0 <= shifted <= 2 * UNIT,
            0 <= span <= 2_000_000,
    {}
    let scaled = shifted * span;
    let q = scaled / (2 * UNIT);
    assert(0 <= q <= span) by (nonlinear_arith)
        requires
            0 <= scaled <= 2 * UNIT * span,
            0 <= span,
            q == scaled as int / (2 * UNIT) as int,
    {}
    lower + q
}

} // verus!
