use vstd::prelude::*;
use crate::UNIT;
use crate::div_trunc;
use crate::tdiv;
use crate::rng::WorldRng;

verus! {

/// Skew factor (sqrt(3) - 1) / 2 in `UNIT` fixed point.
pub const SKEW: i64 = 1499;

/// Unskew factor (3 - sqrt(3)) / 6 in `UNIT` fixed point.
pub const UNSKEW: i64 = 866;

/// Largest fixed-point coordinate the sampler accepts.
pub const COORD_LIMIT: i64 = 0x100_0000_0000;

/// Coherent gradient noise on a simplicial grid, in `UNIT` fixed point.
///
/// The generator owns its permutation table, built once from a seeded random
/// source, so that sampling is a pure function of the table and the
/// coordinates.
pub struct SimplexNoise {
    pub perm: Vec<usize>,
}

impl SimplexNoise {
    /// The doubled permutation table: 512 entries, each below 256.
    pub open spec fn wf(&self) -> bool {
        self.perm@.len() == 512
            && forall|k: int| 0 <= k < 512 ==> #[trigger] self.perm@[k] < 256
    }
}

/// The dot product of gradient number `gi` with `(x, y)`: the twelve
/// gradients combine components drawn from -1, 0 and 1.
pub open spec fn spec_grad_dot(gi: int, x: int, y: int) -> int {
    if gi == 0 { x + y }
    else if gi == 1 { -x + y }
    else if gi == 2 { x - y }
    else if gi == 3 { -x - y }
    else if gi == 4 { x }
    else if gi == 5 { -x }
    else if gi == 6 { x }
    else if gi == 7 { -x }
    else if gi == 8 { y }
    else if gi == 9 { -y }
    else if gi == 10 { y }
    else { -y }
}

/// One corner's contribution: the radially weighted gradient term
/// `(1/2 - x^2 - y^2)^4 * (g . (x, y))`, zero outside the falloff radius.
pub open spec fn spec_corner(x: int, y: int, gi: int) -> int {
    if x <= -UNIT || x >= UNIT || y <= -UNIT || y >= UNIT {
        0
    } else {
        let t = UNIT / 2 - (x * x) / (UNIT as int) - (y * y) / (UNIT as int);
        if t < 0 {
            0
        } else {
            let tt = (t * t) / (UNIT as int);
            let t4 = (tt * tt) / (UNIT as int);
            tdiv(t4 * spec_grad_dot(gi, x, y), UNIT as int)
        }
    }
}

/// The full fixed-point simplex sample: skew into the simplicial grid, pick
/// the simplex corners, hash them through the permutation table, sum the
/// corner contributions, scale, and clamp to `[-UNIT, UNIT]`.
pub open spec fn spec_noise(n: SimplexNoise, xin: int, yin: int) -> int {
    let s = tdiv((xin + yin) * (SKEW as int), UNIT as int);
    let i = (xin + s) / (UNIT as int);
    let j = (yin + s) / (UNIT as int);
    let t = (i + j) * (UNSKEW as int);
    let x0 = xin - (i * (UNIT as int) - t);
    let y0 = yin - (j * (UNIT as int) - t);
    let i1: int = if x0 > y0 { 1 } else { 0 };
    let j1: int = if x0 > y0 { 0 } else { 1 };
    let x1 = x0 - i1 * (UNIT as int) + UNSKEW;
    let y1 = y0 - j1 * (UNIT as int) + UNSKEW;
    let x2 = x0 - UNIT + 2 * (UNSKEW as int);
    let y2 = y0 - UNIT + 2 * (UNSKEW as int);
    let ii = i % 256;
    let jj = j % 256;
    let gi0 = (n.perm@[ii + n.perm@[jj] as int] as int) % 12;
    let gi1 = (n.perm@[ii + i1 + n.perm@[jj + j1] as int] as int) % 12;
    let gi2 = (n.perm@[ii + 1 + n.perm@[jj + 1] as int] as int) % 12;
    let total = 70 * (spec_corner(x0, y0, gi0) + spec_corner(x1, y1, gi1)
        + spec_corner(x2, y2, gi2));
    if total > UNIT {
        UNIT as int
    } else if total < -UNIT {
        -UNIT as int
    } else {
        total
    }
}

/// The value `v` occurs among the first 256 entries of the table.
pub open spec fn table_has(s: Seq<usize>, v: usize) -> bool {
    exists|k: int| 0 <= k < 256 && (#[trigger] s[k]) == v
}

/// Swapping two entries of a 256-entry table keeps its entries distinct and
/// keeps every value it held.
proof fn lemma_swap_keeps_table(s0: Seq<usize>, s1: Seq<usize>, i: int, j: int)
    requires
        s0.len() == 256,
        s1.len() == 256,
        0 <= i < 256,
        0 <= j < 256,
        forall|m: int| 0 <= m < 256
            ==> #[trigger] s1[m] == (if m == i { s0[j] } else if m == j { s0[i] } else { s0[m] }),
        forall|k1: int, k2: int| 0 <= k1 < k2 < 256 ==> s0[k1] != s0[k2],
        forall|v: usize| v < 256 ==> #[trigger] table_has(s0, v),
    ensures
        forall|k1: int, k2: int| 0 <= k1 < k2 < 256 ==> s1[k1] != s1[k2],
        forall|v: usize| v < 256 ==> #[trigger] table_has(s1, v),
{
    assert forall|k1: int, k2: int| 0 <= k1 < k2 < 256 implies s1[k1] != s1[k2] by {
        let m1: int = if k1 == i { j } else if k1 == j { i } else { k1 };
        let m2: int = if k2 == i { j } else if k2 == j { i } else { k2 };
        assert(s1[k1] == s0[m1]);
        assert(s1[k2] == s0[m2]);
        assert(m1 != m2);
    }
    assert forall|v: usize| v < 256 implies #[trigger] table_has(s1, v) by {
        assert(table_has(s0, v));
        let m0 = choose|k: int| 0 <= k < 256 && (#[trigger] s0[k]) == v;
        if m0 == i {
            assert(s1[j] == v);
        } else if m0 == j {
            assert(s1[i] == v);
        } else {
            assert(s1[m0] == v);
        }
    }
}

impl SimplexNoise {
    /// Double a 256-entry base table into the 512-entry permutation table,
    /// so that two-step lookups need no wrap-around.
    pub fn perm(base: &Vec<usize>) -> (r: Vec<usize>)
        requires
            base@.len() == 256,
        ensures
            r@.len() == 512,
            forall|k: int| 0 <= k < 512 ==> #[trigger] r@[k] == base@[k % 256],
    {
        let mut r: Vec<usize> = Vec::new();
        let mut k: usize = 0;
        while k < 512
            invariant
                base@.len() == 256,
                k <= 512,
                r@.len() == k,
                forall|m: int| 0 <= m < k ==> #[trigger] r@[m] == base@[m % 256],
            decreases 512 - k,
        {
            r.push(base[k % 256]);
            k = k + 1;
        }
        r
    }

    /// Build a generator whose permutation table is a seeded shuffle of the
    /// identity table: the first 256 entries hold every value below 256
    /// exactly once, and the second half repeats the first.
    pub fn new(rng: &mut WorldRng) -> (n: SimplexNoise)
        ensures
            n.wf(),
            forall|k: int| 256 <= k < 512 ==> #[trigger] n.perm@[k] == n.perm@[k - 256],
            forall|k1: int, k2: int| 0 <= k1 < k2 < 256 ==> n.perm@[k1] != n.perm@[k2],
            forall|v: usize| v < 256 ==> #[trigger] table_has(n.perm@, v),
    {
        let mut base: Vec<usize> = Vec::new();
        let mut k: usize = 0;
        while k < 256
            invariant
                k <= 256,
                base@.len() == k,
                forall|m: int| 0 <= m < k ==> #[trigger] base@[m] == m,
            decreases 256 - k,
        {
            base.push(k);
            k = k + 1;
        }
        proof {
            assert forall|v: usize| v < 256 implies #[trigger] table_has(base@, v) by {
                assert(base@[v as int] == v);
            }
        }
        let mut idx: usize = 255;
        while idx >= 1
            invariant
                idx <= 255,
                base@.len() == 256,
                forall|m: int| 0 <= m < 256 ==> #[trigger] base@[m] < 256,
                forall|k1: int, k2: int| 0 <= k1 < k2 < 256 ==> base@[k1] != base@[k2],
                forall|v: usize| v < 256 ==> #[trigger] table_has(base@, v),
            decreases idx,
        {
            let ghost b0 = base@;
            let pick = rng.pick_index(idx + 1);
            let a = base[idx];
            let b = base[pick];
            base.set(idx, b);
            base.set(pick, a);
            proof {
                lemma_swap_keeps_table(b0, base@, idx as int, pick as int);
            }
            idx = idx - 1;
        }
        let table = Self::perm(&base);
        proof {
            assert forall|k: int| 256 <= k < 512 implies #[trigger] table@[k] == table@[k - 256] by {
                assert(k % 256 == k - 256) by (nonlinear_arith)
                    requires
                        256 <= k < 512,
                {}
                assert((k - 256) % 256 == k - 256) by (nonlinear_arith)
                    requires
                        256 <= k < 512,
                {}
                assert(table@[k] == base@[k % 256]);
                assert(table@[k - 256] == base@[(k - 256) % 256]);
            }
            assert forall|k1: int, k2: int| 0 <= k1 < k2 < 256
                implies table@[k1] != table@[k2] by {
                assert(k1 % 256 == k1 && k2 % 256 == k2) by (nonlinear_arith)
                    requires
                        0 <= k1 < 256,
                        0 <= k2 < 256,
                {}
                assert(table@[k1] == base@[k1 % 256]);
                assert(table@[k2] == base@[k2 % 256]);
            }
            assert forall|v: usize| v < 256 implies #[trigger] table_has(table@, v) by {
                assert(table_has(base@, v));
                let m = choose|k: int| 0 <= k < 256 && (#[trigger] base@[k]) == v;
                assert(m % 256 == m) by (nonlinear_arith)
                    requires
                        0 <= m < 256,
                {}
                assert(table@[m] == base@[m % 256]);
            }
        }
        SimplexNoise { perm: table }
    }

    /// Floor of a fixed-point value, as a whole number of units.
    pub fn fastfloor(x: i64) -> (r: i64)
        requires
            -0x4000_0000_0000_0000 < x < 0x4000_0000_0000_0000,
        ensures
            r == x as int / (UNIT as int),
            UNIT * r <= x < UNIT * (r + 1),
    {
        let r = if x >= 0 {
            x / UNIT
        } else {
            -(((-x) + (UNIT - 1)) / UNIT)
        };
        assert(r == x as int / (UNIT as int) && UNIT * r <= x < UNIT * (r + 1))
            by (nonlinear_arith)
            requires
                -0x4000_0000_0000_0000 < x < 0x4000_0000_0000_0000,
                x >= 0 ==> r == x as int / 4096,
                x < 0 ==> r == -(((-(x as int)) + 4095) / 4096),
                UNIT == 4096,
        {}
        r
    }

    /// The dot product of gradient number `gi` with `(x, y)`.
    fn grad_dot(gi: usize, x: i64, y: i64) -> (r: i64)
        requires
            gi < 12,
            -UNIT < x < UNIT,
            -UNIT < y < UNIT,
        ensures
            r == spec_grad_dot(gi as int, x as int, y as int),
            -2 * UNIT < r < 2 * UNIT,
    {
        match gi {
            0 => x + y,
            1 => -x + y,
            2 => x - y,
            3 => -x - y,
            4 => x,
            5 => -x,
            6 => x,
            7 => -x,
            8 => y,
            9 => -y,
            10 => y,
            _ => -y,
        }
    }

    /// One corner's radially weighted contribution.
    fn corner_contribution(x: i64, y: i64, gi: usize) -> (r: i64)
        requires
            gi < 12,
        ensures
            r == spec_corner(x as int, y as int, gi as int),
            -512 <= r <= 512,
    {
        if x <= -UNIT || x >= UNIT || y <= -UNIT || y >= UNIT {
            0
        } else {
            assert(0 <= x * x < UNIT * UNIT && 0 <= y * y < UNIT * UNIT) by (nonlinear_arith)
                requires
                    -UNIT < x < UNIT,
                    -UNIT < y < UNIT,
                    UNIT == 4096,
            {}
            let t = UNIT / 2 - (x * x) / UNIT - (y * y) / UNIT;
            assert(-2 * UNIT <= t <= UNIT / 2) by (nonlinear_arith)
                requires
                    0 <= x * x < UNIT * UNIT,
                    0 <= y * y < UNIT * UNIT,
                    t == UNIT / 2 - (x * x) as int / 4096 - (y * y) as int / 4096,
                    UNIT == 4096,
            {}
            if t < 0 {
                0
            } else {
                assert(0 <= t * t <= 2048 * 2048) by (nonlinear_arith)
                    requires
                        0 <= t <= 2048,
                {}
                let tt = (t * t) / UNIT;
                assert(0 <= tt <= 1024);
                assert(0 <= tt * tt <= 1024 * 1024) by (nonlinear_arith)
                    requires
                        0 <= tt <= 1024,
                {}
                let t4 = (tt * tt) / UNIT;
                assert(0 <= t4 <= 256);
                let d = Self::grad_dot(gi, x, y);
                assert(-256 * 2 * UNIT <= t4 * d <= 256 * 2 * UNIT) by (nonlinear_arith)
                    requires
                        0 <= t4 <= 256,
                        -2 * UNIT < d < 2 * UNIT,
                        UNIT == 4096,
                {}
                let r = div_trunc(t4 * d, UNIT);
                assert(-512 <= tdiv(t4 * d, UNIT as int) <= 512) by (nonlinear_arith)
                    requires
                        -256 * 2 * 4096 <= t4 * d <= 256 * 2 * 4096,
                        UNIT == 4096,
                {}
                r
            }
        }
    }

    /// Sample the noise field at fixed-point coordinates `(xin, yin)`:
    /// a deterministic function of the table and the coordinates, always
    /// inside `[-UNIT, UNIT]`.
    pub fn noise(&self, xin: i64, yin: i64) -> (r: i64)
        requires
            self.wf(),
            0 <= xin <= COORD_LIMIT,
            0 <= yin <= COORD_LIMIT,
        ensures
            r == spec_noise(*self, xin as int, yin as int),
            -UNIT <= r <= UNIT,
    {
        assert(0 <= (xin + yin) * SKEW <= 0x200_0000_0000 * 1499) by (nonlinear_arith)
            requires
                0 <= xin + yin <= 0x200_0000_0000,
                SKEW == 1499,
        {}
        let s = div_trunc((xin + yin) * SKEW, UNIT);
        assert(0 <= s <= xin + yin) by (nonlinear_arith)
            requires
                0 <= (xin + yin) * SKEW,
                (xin + yin) * SKEW <= (xin + yin) * 4096,
                s == tdiv((xin + yin) * 1499, 4096),
                SKEW == 1499,
                UNIT == 4096,
        {}
        assert((xin + yin) * SKEW <= (xin + yin) * 4096) by (nonlinear_arith)
            requires
                0 <= xin + yin,
                SKEW == 1499,
        {}
        let i = Self::fastfloor(xin + s);
        let j = Self::fastfloor(yin + s);
        assert(0 <= i <= 0x300_0000_0000int / 4096 && 0 <= j <= 0x300_0000_0000int / 4096)
            by (nonlinear_arith)
            requires
                UNIT * i <= xin + s < UNIT * (i + 1),
                UNIT * j <= yin + s < UNIT * (j + 1),
                0 <= xin + s <= 0x300_0000_0000,
                0 <= yin + s <= 0x300_0000_0000,
                UNIT == 4096,
        {}
        let t = (i + j) * UNSKEW;
        assert(0 <= t <= 0x200_0000_0000) by (nonlinear_arith)
            requires
                0 <= i + j <= 2 * (0x300_0000_0000int / 4096),
                t == (i + j) * 866,
                UNSKEW == 866,
        {}
        let x0 = xin - (i * UNIT - t);
        let y0 = yin - (j * UNIT - t);
        let (i1, j1): (usize, usize) = if x0 > y0 { (1, 0) } else { (0, 1) };
        let x1 = x0 - (i1 as i64) * UNIT + UNSKEW;
        let y1 = y0 - (j1 as i64) * UNIT + UNSKEW;
        let x2 = x0 - UNIT + 2 * UNSKEW;
        let y2 = y0 - UNIT + 2 * UNSKEW;
        let ii = ((i as u64) % 256) as usize;
        let jj = ((j as u64) % 256) as usize;
        let gi0 = self.perm[ii + self.perm[jj]] % 12;
        let gi1 = self.perm[ii + i1 + self.perm[jj + j1]] % 12;
        let gi2 = self.perm[ii + 1 + self.perm[jj + 1]] % 12;
        let n0 = Self::corner_contribution(x0, y0, gi0);
        let n1 = Self::corner_contribution(x1, y1, gi1);
        let n2 = Self::corner_contribution(x2, y2, gi2);
        let total = 70 * (n0 + n1 + n2);
        let r = if total > UNIT {
            UNIT
        } else if total < -UNIT {
            -UNIT
        } else {
            total
        };
        assert(r == spec_noise(*self, xin as int, yin as int));
        r
    }
}

} // verus!

verus! {

/// Two to the power `k`.
pub open spec fn two_pow(k: nat) -> int
    decreases k,
{
    if k == 0 {
        1
    } else {
        2 * two_pow((k - 1) as nat)
    }
}

/// Every power of two is positive.
proof fn lemma_two_pow_pos(k: nat)
    ensures
        1 <= two_pow(k),
    decreases k,
{
    if k > 0 {
        lemma_two_pow_pos((k - 1) as nat);
    }
}

/// Powers of two grow with the exponent.
proof fn lemma_two_pow_mono(m: nat, k: nat)
    requires
        m <= k,
    ensures
        two_pow(m) <= two_pow(k),
    decreases k,
{
    if m < k {
        lemma_two_pow_mono(m, (k - 1) as nat);
        lemma_two_pow_pos((k - 1) as nat);
    }
}

/// Powers of two up to the ninth lie between 1 and 512.
proof fn lemma_two_pow_bounds(k: nat)
    requires
        k <= 9,
    ensures
        1 <= two_pow(k) <= 512,
    decreases k,
{
    lemma_two_pow_pos(k);
    lemma_two_pow_mono(k, 9);
    assert(two_pow(9) == 512) by {
        reveal_with_fuel(two_pow, 11);
    }
}

/// The amplitude of octave `k`: a full unit decayed `k` times by
/// `persistence`.
pub open spec fn spec_amplitude(persistence: int, k: nat) -> int
    decreases k,
{
    if k == 0 {
        UNIT as int
    } else {
        (spec_amplitude(persistence, (k - 1) as nat) * persistence) / (UNIT as int)
    }
}

/// The total amplitude of the first `octaves` octaves.
pub open spec fn spec_total_amplitude(persistence: int, octaves: nat) -> int
    decreases octaves,
{
    if octaves == 0 {
        0
    } else {
        spec_total_amplitude(persistence, (octaves - 1) as nat)
            + spec_amplitude(persistence, (octaves - 1) as nat)
    }
}

/// The weighted sum of the first `octaves` samples, each taken at the
/// doubled frequency of the one before and scaled by its amplitude.
pub open spec fn spec_octave_sum(
    n: SimplexNoise,
    x: int,
    y: int,
    octaves: nat,
    persistence: int,
    frequency: int,
) -> int
    decreases octaves,
{
    if octaves == 0 {
        0
    } else {
        spec_octave_sum(n, x, y, (octaves - 1) as nat, persistence, frequency)
            + spec_noise(n, x * frequency * two_pow((octaves - 1) as nat),
                y * frequency * two_pow((octaves - 1) as nat))
                * spec_amplitude(persistence, (octaves - 1) as nat)
    }
}

impl SimplexNoise {
    /// Fractal noise: the weighted sum of `octaves` samples with the
    /// frequency doubling and the amplitude decaying by `persistence` at
    /// each octave, renormalised by the total amplitude so the result stays
    /// inside `[-UNIT, UNIT]`.
    #[verifier::rlimit(100)]
    pub fn fractal_noise(
        &self,
        x: i64,
        y: i64,
        octaves: u32,
        persistence: i64,
        frequency: i64,
    ) -> (r: i64)
        requires
            self.wf(),
            1 <= octaves <= 10,
            0 <= persistence <= UNIT,
            1 <= frequency <= 0x1_0000_0000,
            0 <= x,
            0 <= y,
            x * frequency * 512 <= COORD_LIMIT,
            y * frequency * 512 <= COORD_LIMIT,
        ensures
            -UNIT <= r <= UNIT,
            r == tdiv(
                spec_octave_sum(*self, x as int, y as int, octaves as nat, persistence as int,
                    frequency as int),
                spec_total_amplitude(persistence as int, octaves as nat),
            ),
    {
        let mut total: i64 = 0;
        let mut amplitude: i64 = UNIT;
        let mut max_value: i64 = 0;
        let mut freq: i64 = frequency;
        let mut k: u32 = 0;
        proof {
            lemma_two_pow_bounds((octaves - 1) as nat);
            assert(two_pow(0) == 1);
            assert(x * frequency * two_pow((octaves - 1) as nat) <= COORD_LIMIT)
                by (nonlinear_arith)
                requires
                    0 <= x,
                    1 <= frequency,
                    x * frequency * 512 <= COORD_LIMIT,
                    1 <= two_pow((octaves - 1) as nat) <= 512,
            {}
            assert(y * frequency * two_pow((octaves - 1) as nat) <= COORD_LIMIT)
                by (nonlinear_arith)
                requires
                    0 <= y,
                    1 <= frequency,
                    y * frequency * 512 <= COORD_LIMIT,
                    1 <= two_pow((octaves - 1) as nat) <= 512,
            {}
        }
        while k < octaves
            invariant
                self.wf(),
                1 <= octaves <= 10,
                0 <= persistence <= UNIT,
                1 <= frequency <= 0x1_0000_0000,
                0 <= x,
                0 <= y,
                x * frequency * two_pow((octaves - 1) as nat) <= COORD_LIMIT,
                y * frequency * two_pow((octaves - 1) as nat) <= COORD_LIMIT,
                k <= octaves,
                freq == frequency * two_pow(k as nat),
                0 <= amplitude <= UNIT,
                0 <= max_value <= k * UNIT,
                k >= 1 ==> UNIT <= max_value,
                -max_value * UNIT <= total <= max_value * UNIT,
                amplitude == spec_amplitude(persistence as int, k as nat),
                max_value == spec_total_amplitude(persistence as int, k as nat),
                total == spec_octave_sum(*self, x as int, y as int, k as nat,
                    persistence as int, frequency as int),
            decreases octaves - k,
        {
            proof {
                lemma_two_pow_bounds((octaves - 1) as nat);
                lemma_two_pow_pos(k as nat);
                lemma_two_pow_mono(k as nat, (octaves - 1) as nat);
                assert(1 <= freq <= 0x1_0000_0000int * 512 && x * freq <= COORD_LIMIT
                    && y * freq <= COORD_LIMIT && x * freq >= 0 && y * freq >= 0)
                    by (nonlinear_arith)
                    requires
                        0 <= x,
                        0 <= y,
                        1 <= frequency <= 0x1_0000_0000,
                        freq == frequency * two_pow(k as nat),
                        1 <= two_pow(k as nat) <= two_pow((octaves - 1) as nat),
                        two_pow((octaves - 1) as nat) <= 512,
                        x * frequency * two_pow((octaves - 1) as nat) <= COORD_LIMIT,
                        y * frequency * two_pow((octaves - 1) as nat) <= COORD_LIMIT,
                {}
            }
            let ghost k0 = k as nat;
            let ghost amp0 = amplitude as int;
            let ghost freq0 = freq as int;
            let sx = x * freq;
            let sy = y * freq;
            let nv = self.noise(sx, sy);
            proof {
                assert(-UNIT * UNIT <= nv * amplitude <= UNIT * UNIT
                    && -amplitude * UNIT <= nv * amplitude <= amplitude * UNIT)
                    by (nonlinear_arith)
                    requires
                        -UNIT <= nv <= UNIT,
                        0 <= amplitude <= UNIT,
                        UNIT == 4096,
                {}
            }
            total = total + nv * amplitude;
            max_value = max_value + amplitude;
            proof {
                assert(0 <= amplitude * persistence <= amplitude * UNIT
                    && amplitude * UNIT <= UNIT * UNIT)
                    by (nonlinear_arith)
                    requires
                        0 <= amplitude <= UNIT,
                        0 <= persistence <= UNIT,
                {}
                assert(0 <= (amplitude * persistence) / (UNIT as int) <= amplitude)
                    by (nonlinear_arith)
                    requires
                        0 <= amplitude * persistence <= amplitude * UNIT,
                        0 <= amplitude,
                        UNIT == 4096,
                {}
            }
            amplitude = (amplitude * persistence) / UNIT;
            freq = freq * 2;
            k = k + 1;
            proof {
                assert(freq == frequency * two_pow(k as nat)) by (nonlinear_arith)
                    requires
                        freq == 2 * (frequency * two_pow((k - 1) as nat)),
                        two_pow(k as nat) == 2 * two_pow((k - 1) as nat),
                {}
                assert(sx as int == x as int * frequency as int * two_pow(k0)
                    && sy as int == y as int * frequency as int * two_pow(k0))
                    by (nonlinear_arith)
                    requires
                        sx == x as int * freq0,
                        sy == y as int * freq0,
                        freq0 == frequency as int * two_pow(k0),
                {}
                assert(amplitude == spec_amplitude(persistence as int, (k0 + 1) as nat));
                assert(max_value == spec_total_amplitude(persistence as int, (k0 + 1) as nat));
                assert(total == spec_octave_sum(*self, x as int, y as int, (k0 + 1) as nat,
                    persistence as int, frequency as int));
            }
        }
        let r = div_trunc(total, max_value);
        proof {
            assert(-UNIT <= tdiv(total as int, max_value as int) <= UNIT) by (nonlinear_arith)
                requires
                    1 <= max_value,
                    -max_value * UNIT <= total <= max_value * UNIT,
                    UNIT == 4096,
            {}
        }
        r
    }
}

} // verus!
