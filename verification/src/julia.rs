//! Escape-time iteration of the quadratic map z -> z^2 + c in binary32
//! arithmetic, for the fixed parameter c = -4/10 + (6/10)i.
//!
//! The model counts in units of 2^-149, as [`crate::binary32`] does. The
//! executable code counts in steps of 2^-26: every number the iteration
//! produces lies on that grid, so a 64-bit integer holds it exactly.

use vstd::prelude::*;
use vstd::arithmetic::mul::lemma_mul_is_associative;
use vstd::arithmetic::div_mod::lemma_fundamental_div_mod;
use vstd::arithmetic::power2::{
    lemma2_to64,
    lemma2_to64_rest,
    lemma_pow2_adds,
    lemma_pow2_pos,
    lemma_pow2_unfold,
    pow2,
};
use crate::binary32::{
    fraction32,
    gap_exponent,
    lemma_bit_length_unique,
    lemma_grid_closed,
    lemma_multiple_on_grid,
    lemma_nearest_even_scale,
    lemma_round_bounds,
    lemma_round_cancel,
    lemma_round_scale,
    lemma_round_sign,
    lemma_sum_on_grid,
    nearest_even,
    on_grid,
    one,
    product32,
    round_nearest,
    round_ratio,
    sum32,
};

verus! {

/// Side of the square fractal raster, in pixels.
pub const FRACTAL_SIDE: u32 = 800;

/// The most steps the iteration takes from one starting point.
pub const MAX_STEPS: u8 = 255;

/// The distance in the plane between neighbouring pixels: the binary32
/// quotient of 3 by 800.
pub open spec fn pixel_pitch() -> int {
    fraction32(3, 800)
}

/// The plane coordinate that belongs to pixel index `p`: `p` times the
/// pitch, less 3/2, each operation rounded to binary32.
pub open spec fn plane_coordinate(p: int) -> int {
    sum32(product32(p * one(), pixel_pitch()), -(3 * pow2(148)))
}

/// Real part of the parameter c: the binary32 number nearest to -4/10.
pub open spec fn julia_re() -> int {
    -fraction32(4, 10)
}

/// Imaginary part of the parameter c: the binary32 number nearest to 6/10.
pub open spec fn julia_im() -> int {
    fraction32(6, 10)
}

/// Real part of z^2 + c for z = re + i*im: the difference of the two
/// rounded squares, rounded, plus the real part of c, rounded.
pub open spec fn next_re(re: int, im: int) -> int {
    sum32(sum32(product32(re, re), -product32(im, im)), julia_re())
}

/// Imaginary part of z^2 + c for z = re + i*im: the sum of the two rounded
/// cross products, rounded, plus the imaginary part of c, rounded.
pub open spec fn next_im(re: int, im: int) -> int {
    sum32(sum32(product32(re, im), product32(im, re)), julia_im())
}

/// Whether the norm of re + i*im, rounded to binary32, is at most 2. The
/// norm is taken as correctly rounded: as the binary32 number nearest to
/// the exact square root of re^2 + im^2.
///
/// The next binary32 number above 2 is 2 + 2^-22. The rounded norm
/// exceeds 2 exactly when the norm itself exceeds the midpoint 2 + 2^-23
/// between the two; a norm at the midpoint rounds to 2, whose significand
/// is even. Comparing squares says the same without a square root.
pub open spec fn within_radius(re: int, im: int) -> bool {
    re * re + im * im <= (2 * one() + pow2(126)) * (2 * one() + pow2(126))
}

/// A length of `n` units rounds to at most 2 exactly when it is at most
/// 2 + 2^-23, the bound that [`within_radius`] compares the norm with.
pub proof fn lemma_rounds_to_at_most_two(n: int)
    requires
        n >= 0,
    ensures
        round_ratio(n, 1) <= 2 * one() <==> n <= 2 * one() + pow2(126),
{
    let two = pow2(150) as int;
    let gap = pow2(127) as int;
    let half = pow2(126) as int;
    lemma2_to64();
    lemma_pow2_adds(1, 149);
    lemma_pow2_adds(23, 127);
    lemma_pow2_unfold(127);
    lemma_pow2_unfold(151);
    lemma_pow2_pos(126);
    lemma_round_bounds(n, 150);
    lemma_round_bounds(n, 151);
    lemma_round_sign(n);
    if two < n < pow2(151) {
        lemma_bit_length_unique(n, 151);
        assert(gap_exponent(n) == 127);
        let q = n / gap;
        let rest = n % gap;
        let ne = nearest_even(n, gap);
        lemma_fundamental_div_mod(n, gap);
        assert(q >= 0x80_0000) by (nonlinear_arith)
            requires
                n == gap * q + rest,
                rest < gap,
                n >= 0x80_0000 * gap,
                gap > 0,
        ;
        if n <= two + half {
            assert(q <= 0x80_0000) by (nonlinear_arith)
                requires
                    n == gap * q + rest,
                    rest >= 0,
                    n < 0x80_0001 * gap,
                    gap > 0,
            ;
            assert(two == 0x80_0000 * gap);
            assert(gap * q == 0x80_0000 * gap) by (nonlinear_arith)
                requires
                    q == 0x80_0000,
            ;
            assert(rest == n - two);
            assert(2 * rest <= gap);
            assert(ne == q);
        } else {
            assert(q == 0x80_0000 ==> rest > half) by (nonlinear_arith)
                requires
                    n == gap * q + rest,
                    n > 0x80_0000 * gap + half,
            ;
            assert(ne >= 0x80_0001);
            assert(ne * gap > 0x80_0000 * gap) by (nonlinear_arith)
                requires
                    ne >= 0x80_0001,
                    gap > 0,
            ;
        }
    }
}

/// The point reached from `(re, im)` after `k` steps of z -> z^2 + c.
pub open spec fn orbit(re: int, im: int, k: nat) -> (int, int)
    decreases k,
{
    if k == 0 {
        (re, im)
    } else {
        let z = orbit(re, im, (k - 1) as nat);
        (next_re(z.0, z.1), next_im(z.0, z.1))
    }
}

/// The step count at which the iteration stops, when it stands at
/// `(re, im)` with `done` steps taken: it goes on while fewer than 255
/// steps are taken and the point is within the radius.
pub open spec fn escape_steps(re: int, im: int, done: nat) -> nat
    decreases 255 - done,
{
    if done < 255 && within_radius(re, im) {
        escape_steps(next_re(re, im), next_im(re, im), done + 1)
    } else {
        done
    }
}

/// The escape time of pixel `(x, y)`. The axes are swapped on the way into
/// the plane: the real part follows `y`, the imaginary part follows `x`.
pub open spec fn escape_time(x: u32, y: u32) -> nat {
    escape_steps(plane_coordinate(y as int), plane_coordinate(x as int), 0)
}

/// The escape time counts the leading points of the orbit that lie within
/// the radius, up to 255 of them: every point before it is within the
/// radius, and when it is below 255 the point it names is outside. So it
/// is 255 only for an orbit that stayed within the radius for 255 points.
pub proof fn lemma_escape_time_counts(re: int, im: int)
    ensures
        escape_steps(re, im, 0) <= 255,
        forall|k: nat|
            k < escape_steps(re, im, 0) ==> within_radius(
                (#[trigger] orbit(re, im, k)).0,
                orbit(re, im, k).1,
            ),
        escape_steps(re, im, 0) < 255 ==> !within_radius(
            orbit(re, im, escape_steps(re, im, 0)).0,
            orbit(re, im, escape_steps(re, im, 0)).1,
        ),
{
    lemma_escape_steps_from(re, im, 0);
}

proof fn lemma_escape_steps_from(re: int, im: int, done: nat)
    requires
        done <= 255,
    ensures
        ({
            let z = orbit(re, im, done);
            let n = escape_steps(z.0, z.1, done);
            &&& done <= n <= 255
            &&& forall|k: nat|
                done <= k < n ==> within_radius(
                    (#[trigger] orbit(re, im, k)).0,
                    orbit(re, im, k).1,
                )
            &&& n < 255 ==> !within_radius(orbit(re, im, n).0, orbit(re, im, n).1)
        }),
    decreases 255 - done,
{
    let z = orbit(re, im, done);
    if done < 255 && within_radius(z.0, z.1) {
        lemma_escape_steps_from(re, im, done + 1);
    }
}

/// A point of the plane whose coordinates lie on the grid of 2^-26, held
/// as counts of grid steps.
#[derive(Clone, Copy, Debug, PartialEq, Eq, Structural)]
pub struct GridPoint {
    pub re: i64,
    pub im: i64,
}

impl GridPoint {
    /// The real part, in units of 2^-149.
    pub open spec fn re_units(self) -> int {
        self.re * pow2(123)
    }

    /// The imaginary part, in units of 2^-149.
    pub open spec fn im_units(self) -> int {
        self.im * pow2(123)
    }

    /// Whether both coordinates are at most 16 in magnitude, which keeps
    /// one step of the map inside 64-bit arithmetic.
    pub open spec fn in_reach(self) -> bool {
        -0x4000_0000 <= self.re <= 0x4000_0000 && -0x4000_0000 <= self.im <= 0x4000_0000
    }
}

/// The pitch between pixels is 16106127 * 2^-32.
const PITCH: i64 = 16106127;

/// The real part of c is -13421773 * 2^-25, here in steps of 2^-52.
const JULIA_RE: i64 = -1801439877791744;

/// The imaginary part of c is 10066330 * 2^-24, here in steps of 2^-52.
const JULIA_IM: i64 = 2702159883796480;

/// The largest coordinate a point within the radius can have, in steps of
/// 2^-26: 2 + 2^-23.
const RADIUS: i64 = 0x800_0008;

/// The value of a fraction whose binary32 significand is `m` at
/// exponent `e`: `m` is the nearest integer to the fraction scaled to lie
/// between 2^23 and 2^24.
proof fn lemma_fraction_value(num: int, den: int, m: int, e: nat)
    requires
        num > 0,
        den > 0,
        e <= 149,
        m == nearest_even(num * pow2((149 - e) as nat), den),
        pow2(23) * den <= num * pow2((149 - e) as nat) < pow2(24) * den,
    ensures
        fraction32(num, den) == m * pow2(e),
{
    let up = pow2((149 - e) as nat) as int;
    let pe = pow2(e) as int;
    let scaled = num * up;
    let total = num * one();
    lemma_pow2_pos(e);
    lemma_pow2_pos((149 - e) as nat);
    lemma_pow2_adds((149 - e) as nat, e);
    lemma_pow2_adds(23, e);
    lemma_pow2_adds(24, e);
    assert(total == scaled * pe) by (nonlinear_arith)
        requires
            total == num * (up * pe),
            scaled == num * up,
    ;
    let lo = pow2(23 + e) as int;
    let hi = pow2(24 + e) as int;
    assert(lo * den <= total < hi * den) by (nonlinear_arith)
        requires
            pow2(23) * den <= scaled < pow2(24) * den,
            total == scaled * pe,
            lo == pow2(23) * pe,
            hi == pow2(24) * pe,
            pe > 0,
    ;
    let whole = total / den;
    lemma_fundamental_div_mod(total, den);
    assert(lo <= whole < hi) by (nonlinear_arith)
        requires
            total == den * whole + total % den,
            0 <= total % den < den,
            lo * den <= total < hi * den,
            den > 0,
    ;
    lemma_bit_length_unique(whole, 24 + e);
    assert(gap_exponent(whole) == e);
    lemma_nearest_even_scale(scaled, den, pe);
    assert(total >= 0);
}

proof fn lemma_constants()
    ensures
        pixel_pitch() == 16106127 * pow2(117),
        julia_re() == -1801439877791744 * pow2(97),
        julia_im() == 2702159883796480 * pow2(97),
{
    lemma2_to64();
    lemma_fraction_value(3, 800, 16106127, 117);
    lemma_fraction_value(4, 10, 13421773, 124);
    lemma_fraction_value(6, 10, 10066330, 125);
    lemma_pow2_adds(27, 97);
    lemma_pow2_adds(28, 97);
    let f = pow2(97) as int;
    assert(13421773 * (0x800_0000 * f) == 1801439877791744 * f);
    assert(10066330 * (0x1000_0000 * f) == 2702159883796480 * f);
}

/// A product of two numbers held in steps of 2^-26 is the rounded integer
/// product, in steps of 2^-52.
proof fn lemma_product_steps(a: int, b: int)
    ensures
        product32(a * pow2(123), b * pow2(123)) == round_ratio(a * b, 1) * pow2(97),
{
    let w = pow2(123) as int;
    let f = pow2(97) as int;
    let o = pow2(149) as int;
    lemma_pow2_adds(123, 123);
    lemma_pow2_adds(97, 149);
    lemma_pow2_pos(149);
    assert((a * w) * (b * w) == (a * b) * (w * w)) by (nonlinear_arith);
    lemma_mul_is_associative(a * b, f, o);
    lemma_round_cancel((a * b) * f, o);
    lemma_round_scale(a * b, 97);
}

/// A sum of two numbers held in steps of 2^-52 is the rounded integer sum.
proof fn lemma_sum_steps(a: int, b: int)
    ensures
        sum32(a * pow2(97), b * pow2(97)) == round_ratio(a + b, 1) * pow2(97),
        sum32(a * pow2(97), -(b * pow2(97))) == round_ratio(a - b, 1) * pow2(97),
{
    let f = pow2(97) as int;
    assert(a * f + b * f == (a + b) * f) by (nonlinear_arith);
    assert(a * f + -(b * f) == (a - b) * f) by (nonlinear_arith);
    lemma_round_scale(a + b, 97);
    lemma_round_scale(a - b, 97);
}

/// Divides a multiple of 2^shift by 2^shift.
fn descale(v: i64, shift: u64, divisor: u64) -> (r: i64)
    requires
        shift < 32,
        divisor == pow2(shift as nat),
        on_grid(v as int, shift as nat),
        i64::MIN < v,
    ensures
        r * pow2(shift as nat) == v,
{
    proof {
        lemma_pow2_pos(shift as nat);
        lemma_grid_closed(v as int, v as int, shift as nat);
        lemma_fundamental_div_mod(v as int, divisor as int);
        lemma_fundamental_div_mod(-(v as int), divisor as int);
    }
    if v >= 0 {
        let q: u64 = (v as u64) / divisor;
        proof {
            assert(q * divisor == divisor * q) by (nonlinear_arith);
        }
        q as i64
    } else {
        let q: u64 = ((-v) as u64) / divisor;
        proof {
            assert(q * divisor == divisor * q) by (nonlinear_arith);
            assert((-(q as int)) * divisor == -(q * divisor)) by (nonlinear_arith);
        }
        -(q as i64)
    }
}

/// Maps pixel `(x, y)` into the plane, with the axes swapped: the real
/// part follows `y`, the imaginary part follows `x`.
pub fn start_point(x: u32, y: u32) -> (z: GridPoint)
    requires
        x < FRACTAL_SIDE,
        y < FRACTAL_SIDE,
    ensures
        z.re_units() == plane_coordinate(y as int),
        z.im_units() == plane_coordinate(x as int),
        z.in_reach(),
{
    GridPoint { re: grid_coordinate(y), im: grid_coordinate(x) }
}

/// The plane coordinate of pixel index `p`, in steps of 2^-26.
fn grid_coordinate(p: u32) -> (c: i64)
    requires
        p < FRACTAL_SIDE,
    ensures
        c * pow2(123) == plane_coordinate(p as int),
        -0x4000_0000 <= c <= 0x4000_0000,
{
    let exact: i64 = (p as i64) * PITCH;
    let scaled: i64 = round_nearest(exact);
    proof {
        lemma2_to64();
        lemma_powers_used();
        lemma_round_bounds(exact as int, 34);
        lemma_round_sign(exact as int);
    }
    let shifted: i64 = round_nearest(scaled - 0x1_8000_0000);
    proof {
        lemma_constants();
        let f = pow2(117) as int;
        let o = pow2(149) as int;
        lemma_pow2_pos(149);
        // The product, in steps of 2^-32.
        assert((p * o) * (PITCH * f) == ((p * PITCH) * f) * o) by (nonlinear_arith);
        lemma_round_cancel((p * PITCH) * f, o);
        lemma_round_scale(p * PITCH, 117);
        assert(product32(p * one(), pixel_pitch()) == scaled * f);
        // The difference, in steps of 2^-32.
        lemma_pow2_adds(31, 117);
        assert(scaled * f + -(3 * pow2(148)) == (scaled - 0x1_8000_0000) * f) by (nonlinear_arith)
            requires
                pow2(148) == 0x8000_0000 * f,
        ;
        lemma_round_scale(scaled - 0x1_8000_0000, 117);
        assert(plane_coordinate(p as int) == shifted * f);
        // The difference lies on the grid of 2^-26.
        lemma_multiple_on_grid(-0x600_0000, 6);
        lemma_sum_on_grid(exact as int, -0x1_8000_0000, 6);
        lemma_round_bounds(scaled - 0x1_8000_0000, 34);
    }
    let c = descale(shifted, 6, 64);
    proof {
        let f = pow2(117) as int;
        lemma_pow2_adds(6, 117);
        assert(c * pow2(123) == (c * 64) * f) by (nonlinear_arith)
            requires
                pow2(123) == 64 * f,
        ;
    }
    c
}

proof fn lemma_powers_used()
    ensures
        pow2(34) == 0x4_0000_0000,
        pow2(50) == 0x4_0000_0000_0000,
        pow2(60) == 0x1000_0000_0000_0000,
        pow2(61) == 0x2000_0000_0000_0000,
        pow2(62) == 0x4000_0000_0000_0000,
{
    lemma2_to64_rest();
}

/// Whether `z` is within the radius: whether its norm, rounded to
/// binary32, is at most 2.
pub fn in_radius(z: GridPoint) -> (inside: bool)
    ensures
        inside == within_radius(z.re_units(), z.im_units()),
        inside ==> z.in_reach(),
{
    proof {
        lemma2_to64();
        let w = pow2(123) as int;
        let t = RADIUS as int;
        let re = z.re as int;
        let im = z.im as int;
        lemma_pow2_pos(123);
        lemma_pow2_adds(27, 123);
        lemma_pow2_adds(3, 123);
        lemma_pow2_adds(1, 149);
        assert(2 * one() + pow2(126) == t * w);
        assert((re * w) * (re * w) + (im * w) * (im * w) == (re * re + im * im) * (w * w))
            by (nonlinear_arith);
        assert((t * w) * (t * w) == (t * t) * (w * w)) by (nonlinear_arith);
        assert(w * w > 0) by (nonlinear_arith)
            requires
                w > 0,
        ;
        let ww = w * w;
        let lhs = re * re + im * im;
        assert(lhs * ww <= (t * t) * ww <==> lhs <= t * t) by (nonlinear_arith)
            requires
                ww > 0,
        ;
        assert((re > t || re < -t) ==> re * re > t * t) by (nonlinear_arith)
            requires
                t > 0,
        ;
        assert((im > t || im < -t) ==> im * im > t * t) by (nonlinear_arith)
            requires
                t > 0,
        ;
        assert(re * re >= 0 && im * im >= 0) by (nonlinear_arith);
        assert((-t <= re <= t) ==> re * re <= t * t) by (nonlinear_arith);
        assert((-t <= im <= t) ==> im * im <= t * t) by (nonlinear_arith);
    }
    if z.re > RADIUS || z.re < -RADIUS || z.im > RADIUS || z.im < -RADIUS {
        false
    } else {
        z.re * z.re + z.im * z.im <= RADIUS * RADIUS
    }
}

/// Takes one step of the map: z^2 + c, as binary32 arithmetic computes it.
pub fn julia_step(z: GridPoint) -> (next: GridPoint)
    requires
        z.in_reach(),
    ensures
        next.re_units() == next_re(z.re_units(), z.im_units()),
        next.im_units() == next_im(z.re_units(), z.im_units()),
{
    proof {
        lemma2_to64();
        lemma_powers_used();
        let re = z.re as int;
        let im = z.im as int;
        assert(-0x1000_0000_0000_0000 <= re * re <= 0x1000_0000_0000_0000) by (nonlinear_arith)
            requires
                -0x4000_0000 <= re <= 0x4000_0000,
        ;
        assert(-0x1000_0000_0000_0000 <= im * im <= 0x1000_0000_0000_0000) by (nonlinear_arith)
            requires
                -0x4000_0000 <= im <= 0x4000_0000,
        ;
        assert(-0x1000_0000_0000_0000 <= re * im <= 0x1000_0000_0000_0000) by (nonlinear_arith)
            requires
                -0x4000_0000 <= re <= 0x4000_0000,
                -0x4000_0000 <= im <= 0x4000_0000,
        ;
        assert(re * re >= 0 && im * im >= 0) by (nonlinear_arith);
        assert(re * im == im * re) by (nonlinear_arith);
        lemma_round_bounds(re * re, 60);
        lemma_round_bounds(im * im, 60);
        lemma_round_bounds(re * im, 60);
        lemma_round_sign(re * re);
        lemma_round_sign(im * im);
    }
    let re_square: i64 = round_nearest(z.re * z.re);
    let im_square: i64 = round_nearest(z.im * z.im);
    let cross: i64 = round_nearest(z.re * z.im);
    proof {
        lemma_round_bounds(re_square - im_square, 60);
        lemma_round_bounds(cross + cross, 61);
    }
    let difference: i64 = round_nearest(re_square - im_square);
    let doubled: i64 = round_nearest(cross + cross);
    proof {
        lemma_round_bounds(difference + JULIA_RE, 62);
        lemma_round_bounds(doubled + JULIA_IM, 62);
    }
    let re_sum: i64 = round_nearest(difference + JULIA_RE);
    let im_sum: i64 = round_nearest(doubled + JULIA_IM);
    proof {
        let re = z.re as int;
        let im = z.im as int;
        let f = pow2(97) as int;
        lemma_constants();
        lemma_product_steps(re, re);
        lemma_product_steps(im, im);
        lemma_product_steps(re, im);
        lemma_product_steps(im, re);
        lemma_sum_steps(re_square as int, im_square as int);
        lemma_sum_steps(cross as int, cross as int);
        lemma_sum_steps(difference as int, JULIA_RE as int);
        lemma_sum_steps(doubled as int, JULIA_IM as int);
        assert(next_re(z.re_units(), z.im_units()) == re_sum * f);
        assert(next_im(z.re_units(), z.im_units()) == im_sum * f);
        // Both sums lie on the grid of 2^-26.
        lemma_multiple_on_grid(-26843546, 26);
        lemma_multiple_on_grid(40265320, 26);
        lemma_sum_on_grid(re_square - im_square, JULIA_RE as int, 26);
        lemma_sum_on_grid(cross + cross, JULIA_IM as int, 26);
    }
    let next = GridPoint { re: descale(re_sum, 26, 0x400_0000), im: descale(im_sum, 26, 0x400_0000) };
    proof {
        let f = pow2(97) as int;
        lemma_pow2_adds(26, 97);
        assert(next.re * pow2(123) == (next.re * 0x400_0000) * f) by (nonlinear_arith)
            requires
                pow2(123) == 0x400_0000 * f,
        ;
        assert(next.im * pow2(123) == (next.im * 0x400_0000) * f) by (nonlinear_arith)
            requires
                pow2(123) == 0x400_0000 * f,
        ;
    }
    next
}

/// Counts the steps of the map from pixel `(x, y)` until the point leaves
/// the radius, stopping at 255.
pub fn escape_count(x: u32, y: u32) -> (count: u8)
    requires
        x < FRACTAL_SIDE,
        y < FRACTAL_SIDE,
    ensures
        count == escape_time(x, y),
{
    let mut z = start_point(x, y);
    let mut count: u8 = 0;
    while count < MAX_STEPS && in_radius(z)
        invariant
            escape_steps(z.re_units(), z.im_units(), count as nat) == escape_time(x, y),
        decreases MAX_STEPS - count,
    {
        z = julia_step(z);
        count = count + 1;
    }
    count
}

} // verus!
