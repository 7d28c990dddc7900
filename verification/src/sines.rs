use vstd::prelude::*;
use crate::UNIT;
use crate::div_trunc;
use crate::tdiv;
use crate::rng::WorldRng;

verus! {

/// Pi in `UNIT` fixed point.
pub const PI_FIX: i64 = 12868;

/// Two pi in `UNIT` fixed point.
pub const TWO_PI_FIX: i64 = 25736;

/// A whole number of periods large enough to shift any accepted angle into
/// the non-negative range without moving its phase.
pub const PERIOD_SHIFT: i64 = 683563338 * 25736;

/// Noise from summed sine waves: each sample averages a random number of
/// sine evaluations at random frequencies and phases.
pub struct NoiseGen;

impl NoiseGen {
    /// The sine of a fixed-point angle, by the rational approximation
    /// `16 a (pi - a) / (5 pi^2 - 4 a (pi - a))` on the half period,
    /// mirrored with a sign flip on the other half.  Always in
    /// `[-UNIT, UNIT]`.
    pub fn sine(angle: i64) -> (r: i64)
        requires
            -0x1_0000_0000_0000 <= angle <= 0x1_0000_0000_0000,
        ensures
            -UNIT <= r <= UNIT,
    {
        let shifted = angle + PERIOD_SHIFT;
        let a = ((shifted as u64) % (TWO_PI_FIX as u64)) as i64;
        assert(0 <= a < TWO_PI_FIX);
        let (theta, neg) = if a < PI_FIX {
            (a, false)
        } else {
            (a - PI_FIX, true)
        };
        assert(0 <= theta < PI_FIX);
        assert(0 <= theta * (PI_FIX - theta) && 4 * (theta * (PI_FIX - theta)) <= PI_FIX * PI_FIX)
            by (nonlinear_arith)
            requires
                0 <= theta < PI_FIX,
        {}
        let w = theta * (PI_FIX - theta);
        let num = 16 * w;
        let den = 5 * (PI_FIX * PI_FIX) - 4 * w;
        assert(num <= den && den >= 1);
        let m = (num * UNIT) / den;
        assert(0 <= (num * UNIT) as int / den as int <= UNIT) by (nonlinear_arith)
            requires
                0 <= num <= den,
                1 <= den,
                UNIT == 4096,
        {}
        if neg {
            -m
        } else {
            m
        }
    }

    /// One noise draw: the average of between three and nine sine waves with
    /// random frequency, phase and sample point, so the result always lies in
    /// `[-UNIT, UNIT]`.  The sample point is drawn fresh for every wave, so
    /// the inputs only name the cell the caller is working on.
    pub fn noise(_x: i64, _y: i64, rng: &mut WorldRng) -> (r: i64)
        ensures
            -UNIT <= r <= UNIT,
    {
        let iterations = rng.gen_range(3, 10) as i64;
        let mut total: i64 = 0;
        let mut k: i64 = 0;
        while k < iterations
            invariant
                3 <= iterations <= 9,
                0 <= k <= iterations,
                -k * UNIT <= total <= k * UNIT,
            decreases iterations - k,
        {
            let b = rng.gen_range(1, 10) as i64;
            let c = rng.gen_range(1, 10) as i64;
            let xs = rng.gen_range(0, 200) as i64 - 100;
            assert(-0x1_0000_0000_0000 <= b * ((xs + c) * UNIT) <= 0x1_0000_0000_0000)
                by (nonlinear_arith)
                requires
                    1 <= b <= 9,
                    -100 <= xs <= 99,
                    1 <= c <= 9,
                    UNIT == 4096,
            {}
            let angle = b * ((xs + c) * UNIT);
            let s = Self::sine(angle);
            total = total + s;
            k = k + 1;
        }
        let r = div_trunc(total, iterations);
        proof {
            assert(-UNIT <= tdiv(total as int, iterations as int) <= UNIT) by (nonlinear_arith)
                requires
                    1 <= iterations,
                    -iterations * UNIT <= total <= iterations * UNIT,
                    UNIT == 4096,
            {}
        }
        r
    }
}

} // verus!
