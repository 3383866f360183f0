//! An exact integer model of binary32 arithmetic on finite numbers.
//!
//! Every finite binary32 number is a whole multiple of 2^-149, the smallest
//! positive one. This module counts in that unit: the integer `n` stands
//! for the number n * 2^-149. Sums, products and quotients of such numbers
//! are ratios of integers, and rounding one to the nearest binary32 number
//! (the even neighbour on a tie) is integer arithmetic throughout. The sign
//! of zero is not modelled, and no result here grows past the finite range.

use vstd::prelude::*;
use vstd::bits::{lemma_u64_shl_is_mul, lemma_u64_shr_is_div};
use vstd::std_specs::bits::u64_leading_zeros;
use vstd::arithmetic::div_mod::{
    lemma_div_by_multiple,
    lemma_fundamental_div_mod,
    lemma_fundamental_div_mod_converse,
    lemma_mod_multiples_basic,
};
use vstd::arithmetic::power2::{
    lemma2_to64,
    lemma2_to64_rest,
    lemma_pow2_adds,
    lemma_pow2_pos,
    lemma_pow2_strictly_increases,
    lemma_pow2_unfold,
    pow2,
};

verus! {

/// The number of binary digits of `n`: 0 for 0, and otherwise the `k` with
/// 2^(k-1) <= n < 2^k.
pub open spec fn bit_length(n: int) -> nat
    decreases n,
{
    if n <= 0 {
        0
    } else {
        1 + bit_length(n / 2)
    }
}

/// The integer nearest to `num / den`; of two that are equally near, the
/// even one.
pub open spec fn nearest_even(num: int, den: int) -> int
    recommends
        num >= 0,
        den > 0,
{
    let q = num / den;
    let r = num % den;
    if 2 * r < den || (2 * r == den && q % 2 == 0) {
        q
    } else {
        q + 1
    }
}

/// The exponent `g` for which neighbouring binary32 numbers lie 2^g units
/// apart around a magnitude whose whole part is `whole` units. A
/// significand has 24 binary digits, so the gap is one unit up to 2^24
/// units (the subnormal numbers and the first binade of normal ones) and
/// doubles with every further digit.
pub open spec fn gap_exponent(whole: int) -> nat {
    if bit_length(whole) > 24 {
        (bit_length(whole) - 24) as nat
    } else {
        0
    }
}

/// The binary32 number nearest to `num / den` units, for a ratio that is
/// not negative.
pub open spec fn round_magnitude(num: int, den: int) -> int
    recommends
        num >= 0,
        den > 0,
{
    let gap = pow2(gap_exponent(num / den)) as int;
    nearest_even(num, den * gap) * gap
}

/// The binary32 number nearest to `num / den` units. Rounding is symmetric
/// about zero.
pub open spec fn round_ratio(num: int, den: int) -> int
    recommends
        den > 0,
{
    if num >= 0 {
        round_magnitude(num, den)
    } else {
        -round_magnitude(-num, den)
    }
}

/// The number 1, in units.
pub open spec fn one() -> int {
    pow2(149) as int
}

/// The binary32 number nearest to the fraction `num / den`. This is what a
/// decimal literal denotes, and what dividing two exactly held integers
/// gives.
pub open spec fn fraction32(num: int, den: int) -> int
    recommends
        den > 0,
{
    round_ratio(num * one(), den)
}

/// The binary32 sum of two binary32 numbers.
pub open spec fn sum32(a: int, b: int) -> int {
    round_ratio(a + b, 1)
}

/// The binary32 product of two binary32 numbers.
pub open spec fn product32(a: int, b: int) -> int {
    round_ratio(a * b, one())
}

pub proof fn lemma_pow2_monotone(a: nat, b: nat)
    requires
        a <= b,
    ensures
        pow2(a) <= pow2(b),
{
    if a < b {
        lemma_pow2_strictly_increases(a, b);
    }
}

/// A positive `n` lies between the two powers of two that its bit length
/// names.
pub proof fn lemma_bit_length_bounds(n: int)
    requires
        n > 0,
    ensures
        bit_length(n) > 0,
        pow2((bit_length(n) - 1) as nat) <= n < pow2(bit_length(n)),
    decreases n,
{
    let k = bit_length(n / 2);
    assert(bit_length(n) == k + 1);
    lemma_pow2_unfold(k + 1);
    if n / 2 > 0 {
        lemma_bit_length_bounds(n / 2);
        lemma_pow2_unfold(k);
    } else {
        lemma2_to64();
    }
}

/// The bit length is the only `k` with 2^(k-1) <= n < 2^k.
pub proof fn lemma_bit_length_unique(n: int, k: nat)
    requires
        k > 0,
        pow2((k - 1) as nat) <= n < pow2(k),
    ensures
        bit_length(n) == k,
{
    lemma_pow2_pos((k - 1) as nat);
    lemma_bit_length_bounds(n);
    let b = bit_length(n);
    if b < k {
        lemma_pow2_monotone(b, (k - 1) as nat);
    }
    if b > k {
        lemma_pow2_monotone(k, (b - 1) as nat);
    }
}

/// Doubling a positive number `j` times adds `j` to its bit length.
pub proof fn lemma_bit_length_scale(n: int, j: nat)
    requires
        n > 0,
    ensures
        bit_length(n * pow2(j)) == bit_length(n) + j,
{
    lemma_bit_length_bounds(n);
    let len = bit_length(n);
    let p = pow2(j) as int;
    let lo = pow2((len - 1) as nat) as int;
    let hi = pow2(len) as int;
    lemma_pow2_pos(j);
    lemma_pow2_adds((len - 1) as nat, j);
    lemma_pow2_adds(len, j);
    assert(lo * p <= n * p < hi * p) by (nonlinear_arith)
        requires
            lo <= n < hi,
            p > 0,
    ;
    lemma_bit_length_unique(n * p, len + j);
}

/// Scaling numerator and denominator alike does not move the nearest
/// integer.
pub proof fn lemma_nearest_even_scale(num: int, den: int, k: int)
    requires
        num >= 0,
        den > 0,
        k > 0,
    ensures
        nearest_even(num * k, den * k) == nearest_even(num, den),
{
    let q = num / den;
    let r = num % den;
    lemma_fundamental_div_mod(num, den);
    assert(num * k == q * (den * k) + r * k) by (nonlinear_arith)
        requires
            num == den * q + r,
    ;
    assert(0 <= r * k < den * k) by (nonlinear_arith)
        requires
            0 <= r < den,
            k > 0,
    ;
    lemma_fundamental_div_mod_converse(num * k, den * k, q, r * k);
    assert(2 * (r * k) < den * k <==> 2 * r < den) by (nonlinear_arith)
        requires
            k > 0,
    ;
    assert(2 * (r * k) == den * k <==> 2 * r == den) by (nonlinear_arith)
        requires
            k > 0,
    ;
}

/// The nearest integer lies between the quotient rounded down and the
/// next one up.
pub proof fn lemma_nearest_even_bounds(num: int, den: int)
    requires
        num >= 0,
        den > 0,
    ensures
        num / den <= nearest_even(num, den) <= num / den + 1,
        num % den == 0 ==> nearest_even(num, den) == num / den,
{
}

/// Whether `v` is a whole multiple of 2^k.
pub open spec fn on_grid(v: int, k: nat) -> bool {
    v % (pow2(k) as int) == 0
}

/// Every multiple of 2^k is on the grid of 2^k.
pub proof fn lemma_multiple_on_grid(m: int, k: nat)
    ensures
        on_grid(m * pow2(k), k),
{
    lemma_pow2_pos(k);
    lemma_mod_multiples_basic(m, pow2(k) as int);
}

/// A number on the grid of 2^k is on every coarser-or-equal grid's
/// refinement: on the grid of 2^g for each g <= k.
pub proof fn lemma_grid_refines(v: int, k: nat, g: nat)
    requires
        on_grid(v, k),
        g <= k,
    ensures
        on_grid(v, g),
{
    let pk = pow2(k) as int;
    let pg = pow2(g) as int;
    let pd = pow2((k - g) as nat) as int;
    lemma_pow2_pos(k);
    lemma_pow2_pos(g);
    lemma_pow2_adds((k - g) as nat, g);
    lemma_fundamental_div_mod(v, pk);
    let q = v / pk;
    assert(v == (q * pd) * pg) by (nonlinear_arith)
        requires
            v == pk * q,
            pk == pd * pg,
    ;
    lemma_mod_multiples_basic(q * pd, pg);
}

/// Sums and negations of grid numbers stay on the grid.
pub proof fn lemma_grid_closed(a: int, b: int, k: nat)
    requires
        on_grid(a, k),
        on_grid(b, k),
    ensures
        on_grid(a + b, k),
        on_grid(-a, k),
{
    let p = pow2(k) as int;
    lemma_pow2_pos(k);
    lemma_fundamental_div_mod(a, p);
    lemma_fundamental_div_mod(b, p);
    let qa = a / p;
    let qb = b / p;
    assert(a + b == (qa + qb) * p) by (nonlinear_arith)
        requires
            a == p * qa,
            b == p * qb,
    ;
    assert(-a == (-qa) * p) by (nonlinear_arith)
        requires
            a == p * qa,
    ;
    lemma_mod_multiples_basic(qa + qb, p);
    lemma_mod_multiples_basic(-qa, p);
}

/// Zero rounds to zero.
pub proof fn lemma_round_zero()
    ensures
        round_magnitude(0, 1) == 0,
        round_ratio(0, 1) == 0,
{
    lemma2_to64();
    assert(bit_length(0) == 0);
    assert(gap_exponent(0) == 0);
}

/// A magnitude that already lies on the grid of its own gap is a binary32
/// number, and rounds to itself.
pub proof fn lemma_round_magnitude_exact(v: int)
    requires
        v >= 0,
        on_grid(v, gap_exponent(v)),
    ensures
        round_magnitude(v, 1) == v,
{
    let p = pow2(gap_exponent(v)) as int;
    lemma_pow2_pos(gap_exponent(v));
    lemma_fundamental_div_mod(v, p);
    lemma_nearest_even_bounds(v, p);
    assert(p * (v / p) == (v / p) * p) by (nonlinear_arith);
}

/// Rounding commutes with scaling by a power of two: the model has no
/// upper end, and towards its lower end the grid only gets finer.
pub proof fn lemma_round_magnitude_scale(v: int, j: nat)
    requires
        v >= 0,
    ensures
        round_magnitude(v * pow2(j), 1) == round_magnitude(v, 1) * pow2(j),
{
    let p = pow2(j) as int;
    lemma_pow2_pos(j);
    if v == 0 {
        lemma_round_zero();
        assert(v * p == 0) by (nonlinear_arith)
            requires
                v == 0,
        ;
        assert(round_magnitude(v, 1) * p == 0) by (nonlinear_arith)
            requires
                round_magnitude(v, 1) == 0,
        ;
    } else {
        let len = bit_length(v);
        lemma_bit_length_scale(v, j);
        let g = gap_exponent(v);
        let gg = gap_exponent(v * p);
        let pg = pow2(g) as int;
        let pgg = pow2(gg) as int;
        lemma_pow2_pos(g);
        lemma_pow2_pos(gg);
        if len >= 24 {
            assert(gg == g + j);
            lemma_pow2_adds(g, j);
            lemma_nearest_even_scale(v, pg, p);
            let ne = nearest_even(v, pg);
            assert(ne * (pg * p) == (ne * pg) * p) by (nonlinear_arith);
        } else {
            assert(g == 0);
            lemma2_to64();
            lemma_multiple_on_grid(v, 0);
            lemma_round_magnitude_exact(v);
            assert(gg <= j);
            lemma_pow2_adds((j - gg) as nat, gg);
            let pd = pow2((j - gg) as nat) as int;
            assert(v * p == (v * pd) * pgg) by (nonlinear_arith)
                requires
                    p == pd * pgg,
            ;
            lemma_multiple_on_grid(v * pd, gg);
            assert(v * p >= 0) by (nonlinear_arith)
                requires
                    v >= 0,
                    p > 0,
            ;
            lemma_round_magnitude_exact(v * p);
        }
    }
}

/// A ratio whose denominator divides out rounds like the quotient.
pub proof fn lemma_round_magnitude_cancel(n: int, d: int)
    requires
        n >= 0,
        d > 0,
    ensures
        round_magnitude(n * d, d) == round_magnitude(n, 1),
{
    lemma_div_by_multiple(n, d);
    let gap = pow2(gap_exponent(n)) as int;
    lemma_pow2_pos(gap_exponent(n));
    lemma_nearest_even_scale(n, gap, d);
    assert(gap * d == d * gap) by (nonlinear_arith);
}

/// Rounding never carries a magnitude across a power of two from below.
pub proof fn lemma_round_magnitude_upper(v: int, k: nat)
    requires
        0 <= v <= pow2(k),
    ensures
        round_magnitude(v, 1) <= pow2(k),
{
    let top = pow2(k) as int;
    lemma_pow2_pos(k);
    if v == 0 {
        lemma_round_zero();
    } else if v == top {
        lemma_pow2_unfold(k + 1);
        lemma_bit_length_unique(v, k + 1);
        let g = gap_exponent(v);
        assert(g <= k);
        lemma_pow2_adds((k - g) as nat, g);
        lemma_multiple_on_grid(pow2((k - g) as nat) as int, g);
        lemma_round_magnitude_exact(v);
    } else {
        lemma_bit_length_bounds(v);
        let len = bit_length(v);
        if len > k {
            lemma_pow2_monotone(k, (len - 1) as nat);
        }
        assert(len <= k);
        let g = gap_exponent(v);
        let p = pow2(g) as int;
        let m = pow2((k - g) as nat) as int;
        lemma_pow2_pos(g);
        lemma_pow2_adds((k - g) as nat, g);
        lemma_fundamental_div_mod(v, p);
        let q = v / p;
        assert(q < m) by (nonlinear_arith)
            requires
                v == p * q + v % p,
                0 <= v % p,
                v < m * p,
                p > 0,
        ;
        let ne = nearest_even(v, p);
        assert(ne * p <= m * p) by (nonlinear_arith)
            requires
                ne <= m,
                p > 0,
        ;
    }
}

/// Rounding never carries a magnitude across a power of two from above.
pub proof fn lemma_round_magnitude_lower(v: int, k: nat)
    requires
        v >= pow2(k),
    ensures
        round_magnitude(v, 1) >= pow2(k),
{
    lemma_pow2_pos(k);
    lemma_bit_length_bounds(v);
    let len = bit_length(v);
    if len <= k {
        lemma_pow2_monotone(len, k);
    }
    assert(k < len);
    lemma_pow2_monotone(k, (len - 1) as nat);
    let g = gap_exponent(v);
    let p = pow2(g) as int;
    lemma_pow2_pos(g);
    if len <= 24 {
        lemma2_to64();
        lemma_multiple_on_grid(v, 0);
        lemma_round_magnitude_exact(v);
    } else {
        let m = pow2(23) as int;
        lemma_pow2_adds(23, g);
        lemma_fundamental_div_mod(v, p);
        let q = v / p;
        assert(q >= m) by (nonlinear_arith)
            requires
                v == p * q + v % p,
                v % p < p,
                v >= m * p,
                p > 0,
        ;
        let ne = nearest_even(v, p);
        assert(ne * p >= m * p) by (nonlinear_arith)
            requires
                ne >= m,
                p > 0,
        ;
    }
}

/// A rounded magnitude of at least 2^(k+23) lies on the grid of 2^k: from
/// there on the gap is 2^k or more.
pub proof fn lemma_round_magnitude_grid(v: int, k: nat)
    requires
        v >= 0,
        round_magnitude(v, 1) >= pow2(k + 23),
    ensures
        on_grid(round_magnitude(v, 1), k),
{
    let r = round_magnitude(v, 1);
    let g = gap_exponent(v);
    let p = pow2(g) as int;
    let ne = nearest_even(v, p);
    lemma_pow2_pos(k + 23);
    lemma_pow2_pos(g);
    if v == 0 {
        lemma_round_zero();
    } else if g >= k {
        lemma_multiple_on_grid(ne, g);
        lemma_grid_refines(r, g, k);
    } else {
        lemma_bit_length_bounds(v);
        let len = bit_length(v);
        lemma_round_magnitude_upper(v, len);
        lemma_pow2_monotone(len, k + 23);
        assert(r == pow2(k + 23));
        lemma_pow2_adds(23, k);
        lemma_multiple_on_grid(pow2(23) as int, k);
    }
}

/// The distance of `v` from zero.
pub open spec fn magnitude(v: int) -> int {
    if v >= 0 {
        v
    } else {
        -v
    }
}

/// Rounding keeps the sign, and rounds the magnitude on its own.
pub proof fn lemma_round_sign(v: int)
    ensures
        magnitude(round_ratio(v, 1)) == round_magnitude(magnitude(v), 1),
        v >= 0 ==> round_ratio(v, 1) >= 0,
        v <= 0 ==> round_ratio(v, 1) <= 0,
{
    let a = magnitude(v);
    let p = pow2(gap_exponent(a)) as int;
    lemma_pow2_pos(gap_exponent(a));
    lemma_nearest_even_bounds(a, p);
    let ne = nearest_even(a, p);
    assert(a / p >= 0) by (nonlinear_arith)
        requires
            a >= 0,
            p > 0,
    ;
    assert(ne * p >= 0) by (nonlinear_arith)
        requires
            ne >= 0,
            p > 0,
    ;
    lemma_round_zero();
}

/// Rounding commutes with scaling by a power of two.
pub proof fn lemma_round_scale(v: int, j: nat)
    ensures
        round_ratio(v * pow2(j), 1) == round_ratio(v, 1) * pow2(j),
{
    let p = pow2(j) as int;
    lemma_pow2_pos(j);
    if v >= 0 {
        assert(v * p >= 0) by (nonlinear_arith)
            requires
                v >= 0,
                p > 0,
        ;
        lemma_round_magnitude_scale(v, j);
    } else {
        assert(v * p < 0) by (nonlinear_arith)
            requires
                v < 0,
                p > 0,
        ;
        assert(-(v * p) == (-v) * p) by (nonlinear_arith);
        lemma_round_magnitude_scale(-v, j);
        let m = round_magnitude(-v, 1);
        assert(-(m * p) == (-m) * p) by (nonlinear_arith);
    }
}

/// A ratio whose denominator divides out rounds like the quotient.
pub proof fn lemma_round_cancel(n: int, d: int)
    requires
        d > 0,
    ensures
        round_ratio(n * d, d) == round_ratio(n, 1),
{
    if n >= 0 {
        assert(n * d >= 0) by (nonlinear_arith)
            requires
                n >= 0,
                d > 0,
        ;
        lemma_round_magnitude_cancel(n, d);
    } else {
        assert(n * d < 0) by (nonlinear_arith)
            requires
                n < 0,
                d > 0,
        ;
        assert(-(n * d) == (-n) * d) by (nonlinear_arith);
        lemma_round_magnitude_cancel(-n, d);
    }
}

/// Rounding carries no number across a power of two, in either direction.
pub proof fn lemma_round_bounds(v: int, k: nat)
    ensures
        magnitude(v) <= pow2(k) ==> magnitude(round_ratio(v, 1)) <= pow2(k),
        magnitude(v) >= pow2(k) ==> magnitude(round_ratio(v, 1)) >= pow2(k),
{
    lemma_round_sign(v);
    if magnitude(v) <= pow2(k) {
        lemma_round_magnitude_upper(magnitude(v), k);
    }
    if magnitude(v) >= pow2(k) {
        lemma_round_magnitude_lower(magnitude(v), k);
    }
}

/// A rounded number of magnitude 2^(k+23) or more lies on the grid of 2^k.
pub proof fn lemma_round_grid(v: int, k: nat)
    requires
        magnitude(round_ratio(v, 1)) >= pow2(k + 23),
    ensures
        on_grid(round_ratio(v, 1), k),
{
    lemma_round_sign(v);
    lemma_round_magnitude_grid(magnitude(v), k);
    let m = round_magnitude(magnitude(v), 1);
    lemma_grid_closed(m, m, k);
}

/// A number on the grid of its own gap is a binary32 number, and rounds to
/// itself.
pub proof fn lemma_round_exact(v: int)
    requires
        on_grid(v, gap_exponent(magnitude(v))),
    ensures
        round_ratio(v, 1) == v,
{
    lemma_grid_closed(v, v, gap_exponent(magnitude(v)));
    lemma_round_magnitude_exact(magnitude(v));
}

/// Adding a constant `c` of magnitude 2^(k+24) or more, itself on the grid
/// of 2^k, to any binary32 number gives a binary32 sum on the grid of 2^k.
/// Either the sum is large enough for its own gap to reach 2^k, or it is so
/// small that the other addend was large, hence on the grid, and the sum is
/// exact.
pub proof fn lemma_sum_on_grid(u: int, c: int, k: nat)
    requires
        on_grid(c, k),
        magnitude(c) >= pow2(k + 24),
    ensures
        on_grid(round_ratio(round_ratio(u, 1) + c, 1), k),
{
    let t = round_ratio(u, 1);
    let s = t + c;
    let w = round_ratio(s, 1);
    let bound = pow2(k + 23) as int;
    lemma_pow2_unfold(k + 24);
    lemma_pow2_pos(k + 23);
    if magnitude(w) >= bound {
        lemma_round_grid(s, k);
    } else {
        lemma_round_bounds(s, k + 23);
        assert(magnitude(s) < bound);
        assert(magnitude(t) >= bound);
        lemma_round_grid(u, k);
        lemma_grid_closed(t, c, k);
        if k == 0 {
            lemma2_to64();
        } else {
            let a = magnitude(s);
            let g = gap_exponent(a);
            if a > 0 {
                lemma_bit_length_bounds(a);
                if bit_length(a) > k + 23 {
                    lemma_pow2_monotone(k + 23, (bit_length(a) - 1) as nat);
                }
            }
            assert(g < k);
            lemma_grid_refines(s, k, g);
            lemma_round_exact(s);
        }
    }
}

/// Rounding picks a nearest binary32 number: the result lies on the grid
/// of the gap around `v`, and no further from `v` than half that gap.
pub proof fn lemma_round_is_nearest(v: int)
    ensures
        on_grid(round_ratio(v, 1), gap_exponent(magnitude(v))),
        2 * magnitude(round_ratio(v, 1) - v) <= pow2(gap_exponent(magnitude(v))),
{
    let a = magnitude(v);
    let g = gap_exponent(a);
    let p = pow2(g) as int;
    let q = a / p;
    let rest = a % p;
    let ne = nearest_even(a, p);
    lemma_pow2_pos(g);
    lemma_fundamental_div_mod(a, p);
    lemma_multiple_on_grid(ne, g);
    lemma_grid_closed(ne * p, ne * p, g);
    assert(ne * p - a == (ne - q) * p - rest) by (nonlinear_arith)
        requires
            a == p * q + rest,
    ;
    assert((ne - q) * p == if ne == q { 0 } else { p }) by (nonlinear_arith)
        requires
            ne == q || ne == q + 1,
    ;
}

/// Counting leading zeros and counting binary digits are the same
/// measurement.
pub proof fn lemma_leading_zeros(a: u64)
    ensures
        u64_leading_zeros(a) + bit_length(a as int) == 64,
    decreases a,
{
    reveal(u64_leading_zeros);
    if a != 0 {
        lemma_leading_zeros(a / 2);
    }
}

/// Rounds a magnitude below 2^62 to 24 significant binary digits.
fn round_nearest_magnitude(a: u64) -> (r: u64)
    requires
        a < 0x4000_0000_0000_0000,
    ensures
        r == round_magnitude(a as int, 1),
        r <= 0x4000_0000_0000_0000,
{
    proof {
        lemma2_to64();
        lemma2_to64_rest();
        lemma_round_magnitude_upper(a as int, 62);
    }
    if a < 0x100_0000 {
        proof {
            if a > 0 {
                lemma_bit_length_bounds(a as int);
                if bit_length(a as int) > 24 {
                    lemma_pow2_monotone(24, (bit_length(a as int) - 1) as nat);
                }
            }
            lemma_multiple_on_grid(a as int, 0);
            lemma_round_magnitude_exact(a as int);
        }
        return a;
    }
    let zeros: u32 = a.leading_zeros();
    proof {
        lemma_leading_zeros(a);
        lemma_bit_length_bounds(a as int);
        let len = bit_length(a as int);
        if len <= 24 {
            lemma_pow2_monotone(len, 24);
        }
        if len > 62 {
            lemma_pow2_monotone(62, (len - 1) as nat);
        }
        assert(24 < len <= 62);
    }
    let g: u64 = (40 - zeros) as u64;
    let q: u64 = a >> g;
    proof {
        let p = pow2(g as nat) as int;
        lemma_pow2_pos(g as nat);
        lemma_pow2_monotone(g as nat, 38);
        lemma_pow2_adds(24, g as nat);
        lemma_u64_shr_is_div(a, g);
        lemma_fundamental_div_mod(a as int, p);
        assert(p * (a as int / p) == (a as int / p) * p) by (nonlinear_arith);
        assert(q < 0x100_0000) by (nonlinear_arith)
            requires
                a == p * q + a as int % p,
                0 <= a as int % p,
                a < 0x100_0000 * p,
                p > 0,
        ;
        assert((q + 1) * p <= 0x4000_0000_0000_0000) by (nonlinear_arith)
            requires
                q + 1 <= 0x100_0000,
                0 < p <= 0x40_0000_0000,
        ;
        assert(q * p <= (q + 1) * p) by (nonlinear_arith)
            requires
                p > 0,
        ;
        lemma_u64_shl_is_mul(q, g);
        lemma_u64_shl_is_mul((q + 1) as u64, g);
        lemma_pow2_monotone((g - 1) as nat, 38);
        lemma_u64_shl_is_mul(1, (g - 1) as u64);
        lemma_pow2_unfold(g as nat);
    }
    let kept: u64 = q << g;
    let rest: u64 = a - kept;
    let half: u64 = 1u64 << (g - 1);
    let m: u64 = if rest > half || (rest == half && q % 2 == 1) {
        q + 1
    } else {
        q
    };
    m << g
}

/// Rounds a whole number of units to the nearest binary32 number: to 24
/// significant binary digits, the even neighbour on a tie.
pub fn round_nearest(v: i64) -> (r: i64)
    requires
        -0x4000_0000_0000_0000 < v < 0x4000_0000_0000_0000,
    ensures
        r == round_ratio(v as int, 1),
{
    if v >= 0 {
        round_nearest_magnitude(v as u64) as i64
    } else {
        -(round_nearest_magnitude((-v) as u64) as i64)
    }
}

} // verus!
