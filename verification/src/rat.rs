//! Exact rational sweep points.
//!
//! A proper crossing of two grid segments generally has rational coordinates.
//! A [`SweepPoint`] stores each coordinate as a reduced fraction with a
//! positive denominator, so that structural equality of sweep points decides
//! coordinate equality and the intersection sets can be deduplicated exactly.

use vstd::arithmetic::div_mod::lemma_fundamental_div_mod;
use vstd::prelude::*;

use crate::coord::Coord;

verus! {

/// Greatest common divisor by the Euclidean recursion.
pub open spec fn spec_gcd(a: nat, b: nat) -> nat
    decreases b,
{
    if b == 0 {
        a
    } else {
        spec_gcd(b, a % b)
    }
}

/// `d` divides `n` without remainder.
pub open spec fn divides(d: nat, n: nat) -> bool {
    exists|k: nat| n == #[trigger] (k * d)
}

/// The gcd of two numbers divides both, and is positive unless both are zero.
pub proof fn lemma_gcd_divides(a: nat, b: nat)
    ensures
        divides(spec_gcd(a, b), a),
        divides(spec_gcd(a, b), b),
        a > 0 || b > 0 ==> spec_gcd(a, b) > 0,
    decreases b,
{
    if b == 0 {
        assert(a == 1nat * spec_gcd(a, b));
        assert(b == 0nat * spec_gcd(a, b));
    } else {
        let r = a % b;
        lemma_gcd_divides(b, r);
        let g = spec_gcd(b, r);
        assert(g > 0);
        let kb = choose|k: nat| b == #[trigger] (k * g);
        let kr = choose|k: nat| r == #[trigger] (k * g);
        lemma_fundamental_div_mod(a as int, b as int);
        let q = a as int / b as int;
        assert(q >= 0) by (nonlinear_arith)
            requires
                a as int == b * q + r,
                b > 0,
                0 <= r < b,
        ;
        assert(a as int == (q * kb + kr) * g) by (nonlinear_arith)
            requires
                a as int == b * q + r,
                b == kb * g,
                r == kr * g,
        ;
        assert(q * kb + kr >= 0) by (nonlinear_arith)
            requires
                q >= 0,
        ;
        let ka = (q * kb + kr) as nat;
        assert(a == ka * g);
    }
}

/// If `n == k * g`, then `n / g == k`.
pub proof fn lemma_exact_div(n: nat, g: nat, k: nat)
    requires
        g > 0,
        n == k * g,
    ensures
        n / g == k,
{
    lemma_fundamental_div_mod(n as int, g as int);
    let q = n as int / g as int;
    let r = n as int % g as int;
    assert(q == k && r == 0) by (nonlinear_arith)
        requires
            n == k * g,
            n == g * q + r,
            0 <= r < g,
            g > 0,
    ;
}

/// The exact quotient is no larger than the dividend.
pub proof fn lemma_div_le(n: nat, g: nat)
    requires
        g > 0,
    ensures
        n / g <= n,
{
    lemma_fundamental_div_mod(n as int, g as int);
    let q = n as int / g as int;
    let r = n as int % g as int;
    assert(0 <= q <= n) by (nonlinear_arith)
        requires
            n == g * q + r,
            0 <= r < g,
            g >= 1,
    ;
}

/// Run-time Euclidean gcd.
pub fn gcd(a: u128, b: u128) -> (g: u128)
    ensures
        g == spec_gcd(a as nat, b as nat),
{
    let mut x: u128 = a;
    let mut y: u128 = b;
    while y != 0
        invariant
            spec_gcd(x as nat, y as nat) == spec_gcd(a as nat, b as nat),
        decreases y,
    {
        let r: u128 = x % y;
        x = y;
        y = r;
    }
    x
}

/// Magnitude of an integer, as a natural number.
pub open spec fn nabs(n: int) -> nat {
    if n < 0 {
        (-n) as nat
    } else {
        n as nat
    }
}

/// The reduced numerator of `n / d` for `d > 0`: magnitudes divided by their
/// gcd with the sign of `n` restored.
pub open spec fn canon_num(n: int, d: int) -> int {
    let g = spec_gcd(nabs(n), nabs(d));
    if n < 0 {
        -((nabs(n) / g) as int)
    } else {
        (nabs(n) / g) as int
    }
}

/// The reduced denominator of `n / d` for `d > 0`.
pub open spec fn canon_den(n: int, d: int) -> int {
    let g = spec_gcd(nabs(n), nabs(d));
    (nabs(d) / g) as int
}

/// A coordinate with exact rational components in reduced form,
/// ordered and deduplicated structurally.
#[derive(Clone, Copy, Debug, PartialEq, Eq, Structural, Hash)]
pub struct SweepPoint {
    pub xn: i128,
    pub xd: i128,
    pub yn: i128,
    pub yd: i128,
}

/// The sweep point with coordinates `(nx / d, ny / d)`, in reduced form.
///
/// The fractions are normalised to a positive denominator before reduction.
pub open spec fn spec_rat_point(nx: int, ny: int, d: int) -> SweepPoint {
    let (nx2, ny2, d2) = if d < 0 {
        (-nx, -ny, -d)
    } else {
        (nx, ny, d)
    };
    SweepPoint {
        xn: canon_num(nx2, d2) as i128,
        xd: canon_den(nx2, d2) as i128,
        yn: canon_num(ny2, d2) as i128,
        yd: canon_den(ny2, d2) as i128,
    }
}

/// The sweep point of a grid coordinate.
pub open spec fn spec_sweep_of_coord(c: Coord) -> SweepPoint {
    SweepPoint { xn: c.x as i128, xd: 1, yn: c.y as i128, yd: 1 }
}

impl SweepPoint {
    /// Embed a grid coordinate as a sweep point with unit denominators.
    pub fn from_coord(c: Coord) -> (p: SweepPoint)
        ensures
            p == spec_sweep_of_coord(c),
    {
        SweepPoint { xn: c.x as i128, xd: 1, yn: c.y as i128, yd: 1 }
    }
}

/// Bound on the numerators accepted by [`rat_point`].
pub const MAX_RAT_NUM: i128 = 100_000_000_000_000_000_000_000_000;

/// Bound on the denominators accepted by [`rat_point`].
pub const MAX_RAT_DEN: i128 = 1_000_000_000_000_000_000;

/// Reduce one fraction `n / d` with `d > 0`; returns the signed reduced
/// numerator and the reduced denominator.
fn canon_frac(n: i128, d: i128) -> (r: (i128, i128))
    requires
        0 < d,
        -MAX_RAT_NUM <= n <= MAX_RAT_NUM,
    ensures
        r.0 == canon_num(n as int, d as int),
        r.1 == canon_den(n as int, d as int),
{
    let mag: u128 = if n < 0 {
        (-n) as u128
    } else {
        n as u128
    };
    assert(mag == nabs(n as int));
    assert(d as u128 == nabs(d as int));
    let g: u128 = gcd(mag, d as u128);
    proof {
        lemma_gcd_divides(mag as nat, d as nat);
        assert(g > 0);
        lemma_div_le(mag as nat, g as nat);
        lemma_div_le(d as nat, g as nat);
    }
    let qn: u128 = mag / g;
    let qd: u128 = d as u128 / g;
    proof {
        let km = choose|k: nat| mag as nat == #[trigger] (k * (g as nat));
        lemma_exact_div(mag as nat, g as nat, km);
        let kd = choose|k: nat| d as nat == #[trigger] (k * (g as nat));
        lemma_exact_div(d as nat, g as nat, kd);
    }
    if n < 0 {
        (-(qn as i128), qd as i128)
    } else {
        (qn as i128, qd as i128)
    }
}

/// Build the reduced sweep point `(nx / d, ny / d)`.
pub fn rat_point(nx: i128, ny: i128, d: i128) -> (p: SweepPoint)
    requires
        d != 0,
        -MAX_RAT_NUM <= nx <= MAX_RAT_NUM,
        -MAX_RAT_NUM <= ny <= MAX_RAT_NUM,
        -MAX_RAT_DEN <= d <= MAX_RAT_DEN,
    ensures
        p == spec_rat_point(nx as int, ny as int, d as int),
{
    let (nx2, ny2, d2): (i128, i128, i128) = if d < 0 {
        (-nx, -ny, -d)
    } else {
        (nx, ny, d)
    };
    let (xn, xd) = canon_frac(nx2, d2);
    let (yn, yd) = canon_frac(ny2, d2);
    SweepPoint { xn, xd, yn, yd }
}

} // verus!
