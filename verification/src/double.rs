//! Binary64 numbers, held as their bit patterns.
//!
//! A tolerance, an embedding component or a measured distance is a double precision number. The
//! library carries such a number as the `u64` that holds its bits, compares two of them by
//! integer arithmetic, and rounds a fraction of two counts to the number that is nearest to it.
use vstd::arithmetic::power2::lemma_pow2_adds;
use vstd::arithmetic::power2::lemma_pow2_pos;
use vstd::arithmetic::power2::lemma_pow2_strictly_increases;
use vstd::arithmetic::power2::lemma_pow2_unfold;
use vstd::arithmetic::power2::pow2;
use vstd::prelude::*;

verus! {

/// The bit that is set on negative numbers.
pub const SIGN_BIT: u64 = 0x8000_0000_0000_0000;

/// The bit pattern of positive infinity.
pub const INFINITY: u64 = 0x7FF0_0000_0000_0000;

/// The bit pattern of `1.0`.
pub const ONE: u64 = 0x3FF0_0000_0000_0000;

/// The weight of the lowest exponent bit, which is also the implicit bit of a significand.
pub const IMPLICIT_BIT: u64 = 0x0010_0000_0000_0000;

/// The bit pattern without its sign.
pub open spec fn magnitude(bits: u64) -> int {
    if bits >= SIGN_BIT {
        bits - SIGN_BIT
    } else {
        bits as int
    }
}

/// The bit pattern stands for no number.
pub open spec fn is_nan(bits: u64) -> bool {
    magnitude(bits) > INFINITY
}

/// The bit pattern stands for a number that is not infinite.
pub open spec fn is_finite(bits: u64) -> bool {
    magnitude(bits) < INFINITY
}

/// The absolute value behind a magnitude, in units of the smallest positive number (2 to the power
/// of -1074). Infinity counts as the number that would follow the largest finite one.
pub open spec fn scaled_magnitude(m: int) -> int {
    let exponent = m / (IMPLICIT_BIT as int);
    let fraction = m % (IMPLICIT_BIT as int);
    if exponent == 0 {
        fraction
    } else {
        (IMPLICIT_BIT + fraction) * pow2((exponent - 1) as nat)
    }
}

/// The value of a bit pattern, in units of the smallest positive number.
pub open spec fn scaled(bits: u64) -> int {
    if bits >= SIGN_BIT {
        -scaled_magnitude(magnitude(bits))
    } else {
        scaled_magnitude(magnitude(bits))
    }
}

/// `a < b` as numbers: false as soon as one of the two is no number.
pub open spec fn below(a: u64, b: u64) -> bool {
    !is_nan(a) && !is_nan(b) && scaled(a) < scaled(b)
}

/// The distance between the fraction `num / den` and the number `bits`, times `den`, in units of
/// the smallest positive number.
pub open spec fn rounding_gap(num: int, den: int, bits: u64) -> int {
    let difference = num * pow2(1074) - scaled(bits) * den;
    if difference < 0 {
        -difference
    } else {
        difference
    }
}

/// `bits` is the number nearest to the non-negative fraction `num / den`: no finite number is
/// nearer, and where another one is as near, `bits` is the even one of the two.
pub open spec fn is_nearest(num: int, den: int, bits: u64) -> bool {
    &&& bits < INFINITY
    &&& forall|c: u64|
        is_finite(c) ==> rounding_gap(num, den, bits) <= #[trigger] rounding_gap(num, den, c)
    &&& forall|c: u64|
        is_finite(c) && c != bits && #[trigger] rounding_gap(num, den, c) == rounding_gap(
            num,
            den,
            bits,
        ) ==> bits % 2 == 0
}

/// The number nearest to `num / den`.
pub open spec fn nearest(num: int, den: int) -> u64 {
    choose|bits: u64| is_nearest(num, den, bits)
}

/// The number that the count `n` becomes when it is converted.
pub open spec fn count_as_double(n: int) -> u64 {
    nearest(n, 1)
}

/// The quotient of two counts, each converted first.
pub open spec fn count_ratio(num: int, den: int) -> u64 {
    nearest(scaled(count_as_double(num)), scaled(count_as_double(den)))
}

/// A larger magnitude is a larger absolute value.
pub proof fn lemma_scaled_magnitude_increases(m1: int, m2: int)
    requires
        0 <= m1 < m2,
    ensures
        0 <= scaled_magnitude(m1) < scaled_magnitude(m2),
{
    let b = IMPLICIT_BIT as int;
    let e1 = m1 / b;
    let f1 = m1 % b;
    let e2 = m2 / b;
    let f2 = m2 % b;
    assert(m1 == e1 * b + f1 && 0 <= f1 < b && e1 >= 0) by {
        vstd::arithmetic::div_mod::lemma_fundamental_div_mod(m1, b);
    }
    assert(m2 == e2 * b + f2 && 0 <= f2 < b && e2 >= 0) by {
        vstd::arithmetic::div_mod::lemma_fundamental_div_mod(m2, b);
    }
    if e1 > 0 {
        lemma_pow2_pos((e1 - 1) as nat);
        assert((b + f1) * pow2((e1 - 1) as nat) >= 0) by (nonlinear_arith)
            requires
                b + f1 >= 0,
                pow2((e1 - 1) as nat) >= 0,
        ;
    }
    if e1 == e2 {
        assert(f1 < f2);
        if e1 > 0 {
            assert((b + f1) * pow2((e1 - 1) as nat) < (b + f2) * pow2((e1 - 1) as nat))
                by (nonlinear_arith)
                requires
                    f1 < f2,
                    pow2((e1 - 1) as nat) > 0,
            ;
        }
    } else {
        assert(e1 < e2) by {
            if e1 > e2 {
                assert(m1 >= m2);
            }
        }
        lemma_pow2_pos((e2 - 1) as nat);
        let p2 = pow2((e2 - 1) as nat) as int;
        assert((b + f2) * p2 >= b * p2) by (nonlinear_arith)
            requires
                f2 >= 0,
                p2 >= 0,
        ;
        assert(b * p2 >= b) by (nonlinear_arith)
            requires
                b >= 0,
                p2 >= 1,
        ;
        if e1 > 0 {
            let p1 = pow2((e1 - 1) as nat) as int;
            assert(2 * p1 <= p2) by {
                lemma_pow2_unfold(e1 as nat);
                if e1 < e2 - 1 {
                    lemma_pow2_strictly_increases(e1 as nat, (e2 - 1) as nat);
                }
            }
            assert((b + f1) * p1 < b * p2) by (nonlinear_arith)
                requires
                    f1 < b,
                    0 < p1,
                    2 * p1 <= p2,
                    0 <= f1,
            ;
        }
    }
}

/// The numbers order as their bit patterns do, up to the sign.
pub proof fn lemma_scaled_magnitude_order(m1: int, m2: int)
    requires
        0 <= m1,
        0 <= m2,
    ensures
        scaled_magnitude(m1) < scaled_magnitude(m2) <==> m1 < m2,
        scaled_magnitude(m1) >= 0,
        scaled_magnitude(m1) == 0 <==> m1 == 0,
{
    assert(scaled_magnitude(0) == 0);
    if m1 > 0 {
        lemma_scaled_magnitude_increases(0, m1);
    }
    if m1 < m2 {
        lemma_scaled_magnitude_increases(m1, m2);
    } else if m2 < m1 {
        lemma_scaled_magnitude_increases(m2, m1);
    }
}

/// At most one number is nearest to a fraction.
pub proof fn lemma_nearest_unique(num: int, den: int, b1: u64, b2: u64)
    requires
        den > 0,
        is_nearest(num, den, b1),
        is_nearest(num, den, b2),
    ensures
        b1 == b2,
{
    if b1 != b2 {
        let lo: u64 = if b1 < b2 {
            b1
        } else {
            b2
        };
        let hi: u64 = if b1 < b2 {
            b2
        } else {
            b1
        };
        assert(is_finite(lo) && is_finite(hi));
        assert(rounding_gap(num, den, lo) == rounding_gap(num, den, hi));
        assert(lo % 2 == 0 && hi % 2 == 0);
        let mid = (lo + 1) as u64;
        assert(is_finite(mid));
        lemma_scaled_magnitude_increases(lo as int, mid as int);
        lemma_scaled_magnitude_increases(mid as int, hi as int);
        assert(scaled(lo) * den < scaled(mid) * den < scaled(hi) * den) by (nonlinear_arith)
            requires
                scaled(lo) < scaled(mid) < scaled(hi),
                den > 0,
        ;
        assert(rounding_gap(num, den, mid) < rounding_gap(num, den, lo));
    }
}

/// A number that is nearest to a fraction is what [`nearest`] names.
pub proof fn lemma_nearest_is(num: int, den: int, bits: u64)
    requires
        den > 0,
        is_nearest(num, den, bits),
    ensures
        nearest(num, den) == bits,
{
    lemma_nearest_unique(num, den, nearest(num, den), bits);
}

/// The number nearest to a fraction does not depend on how the fraction is written.
proof fn lemma_nearest_expanded(num: int, den: int, k: int, bits: u64)
    requires
        den > 0,
        k > 0,
        is_nearest(num, den, bits),
    ensures
        is_nearest(num * k, den * k, bits),
{
    assert forall|c: u64| #[trigger]
        rounding_gap(num * k, den * k, c) == k * rounding_gap(num, den, c) by {
        let p = pow2(1074) as int;
        let s = scaled(c);
        let d = num * p - s * den;
        assert((num * k) * p - s * (den * k) == k * d) by (nonlinear_arith)
            requires
                d == num * p - s * den,
        ;
        assert(k * d < 0 <==> d < 0) by (nonlinear_arith)
            requires
                k > 0,
        ;
        assert(-(k * d) == k * (-d)) by (nonlinear_arith);
    }
    let g = rounding_gap(num, den, bits);
    assert forall|c: u64| is_finite(c) implies rounding_gap(num * k, den * k, bits)
        <= #[trigger] rounding_gap(num * k, den * k, c) by {
        let h = rounding_gap(num, den, c);
        assert(g <= h);
        assert(k * g <= k * h) by (nonlinear_arith)
            requires
                g <= h,
                k > 0,
        ;
    }
    assert forall|c: u64|
        is_finite(c) && c != bits && #[trigger] rounding_gap(num * k, den * k, c) == rounding_gap(
            num * k,
            den * k,
            bits,
        ) implies bits % 2 == 0 by {
        let h = rounding_gap(num, den, c);
        assert(h == g) by (nonlinear_arith)
            requires
                k * h == k * g,
                k > 0,
        ;
    }
}

/// A fraction between two neighbouring numbers is nearest to one of the two: to the lower one
/// where it is less than half way up, to the upper one where it is more, to the even one where it
/// is half way.
proof fn lemma_nearest_of_neighbours(num: int, den: int, lo: u64, below_gap: int, above_gap: int)
    requires
        den > 0,
        0 < lo < INFINITY - 1,
        below_gap >= 0,
        above_gap > 0,
        num * pow2(1074) - scaled(lo) * den == below_gap,
        scaled((lo + 1) as u64) * den - num * pow2(1074) == above_gap,
    ensures
        below_gap < above_gap ==> is_nearest(num, den, lo),
        below_gap > above_gap ==> is_nearest(num, den, (lo + 1) as u64),
        below_gap == above_gap && lo % 2 == 0 ==> is_nearest(num, den, lo),
        below_gap == above_gap && lo % 2 == 1 ==> is_nearest(num, den, (lo + 1) as u64),
{
    let hi = (lo + 1) as u64;
    assert(rounding_gap(num, den, lo) == below_gap);
    assert(rounding_gap(num, den, hi) == above_gap);
    assert forall|c: u64| is_finite(c) && c != lo && c != hi implies {
        ||| #[trigger] rounding_gap(num, den, c) > below_gap
        ||| rounding_gap(num, den, c) > above_gap
    } by {
        lemma_scaled_magnitude_order(magnitude(c), lo as int);
        lemma_scaled_magnitude_order(lo as int, magnitude(c));
        lemma_scaled_magnitude_order(magnitude(c), hi as int);
        lemma_scaled_magnitude_order(hi as int, magnitude(c));
        if scaled(c) < scaled(lo) {
            assert(scaled(c) * den < scaled(lo) * den) by (nonlinear_arith)
                requires
                    scaled(c) < scaled(lo),
                    den > 0,
            ;
        } else {
            assert(scaled(c) > scaled(hi));
            assert(scaled(c) * den > scaled(hi) * den) by (nonlinear_arith)
                requires
                    scaled(c) > scaled(hi),
                    den > 0,
            ;
        }
    }
}

/// The significand `m` with the exponent field `e` is a number whose value is `m` times 2 to the
/// power of `e - 1`, in units of the smallest positive number.
proof fn lemma_scaled_of_parts(m: int, e: int)
    requires
        IMPLICIT_BIT <= m <= 2 * IMPLICIT_BIT,
        1 <= e < 2046,
    ensures
        0 < e * IMPLICIT_BIT + (m - IMPLICIT_BIT) < INFINITY,
        scaled_magnitude(e * IMPLICIT_BIT + (m - IMPLICIT_BIT)) == m * pow2((e - 1) as nat),
{
    let b = IMPLICIT_BIT as int;
    let bits = e * b + (m - b);
    if m < 2 * b {
        assert(bits / b == e && bits % b == m - b) by {
            vstd::arithmetic::div_mod::lemma_fundamental_div_mod_converse(bits, b, e, m - b);
        }
    } else {
        assert(bits / b == e + 1 && bits % b == 0) by {
            vstd::arithmetic::div_mod::lemma_fundamental_div_mod_converse(bits, b, e + 1, 0);
        }
        lemma_pow2_unfold(e as nat);
        assert(b * (2 * pow2((e - 1) as nat)) == (2 * b) * pow2((e - 1) as nat))
            by (nonlinear_arith);
    }
}

/// The number nearest to `num / den`, ties going to the even one.
fn round_fraction(num: u128, den: u128) -> (bits: u64)
    requires
        0 < num <= 0x1_0000_0000_0000_0000,
        0 < den <= 0x1_0000_0000_0000_0000,
    ensures
        is_nearest(num as int, den as int, bits),
        0 < bits <= 1088 * IMPLICIT_BIT,
        num >= den * 2 * IMPLICIT_BIT ==> bits >= 1075 * IMPLICIT_BIT,
{
    let mut x: u128 = num;
    let mut y: u128 = den;
    let mut up: u64 = 0;
    let mut down: u64 = 0;
    proof {
        assert(pow2(0) == 1) by {
            vstd::arithmetic::power2::lemma2_to64();
        }
    }
    while x >= y * 0x20_0000_0000_0000
        invariant
            0 < num <= 0x1_0000_0000_0000_0000,
            0 < den <= y,
            0 < y <= 0x1_0000_0000_0000_0000,
            x == num,
            y == den * pow2(down as nat),
            y >= pow2(down as nat),
            down > 0 ==> y <= 0x1000,
            num >= den * 0x20_0000_0000_0000 ==> x >= y * 0x10_0000_0000_0000,
            num < den * 0x20_0000_0000_0000 ==> down == 0,
        decreases x - y,
    {
        proof {
            lemma_pow2_unfold((down + 1) as nat);
            assert(2 * (den * pow2(down as nat)) == den * pow2((down + 1) as nat))
                by (nonlinear_arith)
                requires
                    pow2((down + 1) as nat) == 2 * pow2(down as nat),
            ;
            lemma_down_bound(y as int, down as nat);
        }
        y = y * 2;
        down = down + 1;
    }
    proof {
        lemma_down_bound(y as int, down as nat);
    }
    while x < y * 0x10_0000_0000_0000
        invariant
            0 < num <= x,
            0 < y <= 0x1_0000_0000_0000_0000,
            x < y * 0x20_0000_0000_0000,
            x == num * pow2(up as nat),
            num >= den * 0x20_0000_0000_0000 ==> x >= y * 0x10_0000_0000_0000 && up == 0,
            x >= pow2(up as nat),
            up < 118,
        decreases y * 0x20_0000_0000_0000 - x,
    {
        proof {
            lemma_pow2_unfold((up + 1) as nat);
            assert(2 * (num * pow2(up as nat)) == num * pow2((up + 1) as nat)) by (nonlinear_arith)
                requires
                    pow2((up + 1) as nat) == 2 * pow2(up as nat),
            ;
            if up + 1 >= 118 {
                lemma_pow2_adds(64, 53);
                vstd::arithmetic::power2::lemma2_to64();
                vstd::arithmetic::power2::lemma2_to64_rest();
                if up + 1 > 117 {
                    lemma_pow2_strictly_increases(117, (up + 1) as nat);
                }
                assert(2 * x < 0x1_0000_0000_0000_0000 * 0x20_0000_0000_0000);
            }
        }
        x = x * 2;
        up = up + 1;
    }
    let m: u128 = x / y;
    let r: u128 = x % y;
    proof {
        assert(x == y * m + r && r < y) by {
            vstd::arithmetic::div_mod::lemma_fundamental_div_mod(x as int, y as int);
        }
        assert(0x10_0000_0000_0000 <= m < 0x20_0000_0000_0000) by (nonlinear_arith)
            requires
                x == y * m + r,
                0 <= r < y,
                y * 0x10_0000_0000_0000 <= x < y * 0x20_0000_0000_0000,
        ;
    }
    let exponent: u64 = 1075 - up + down;
    let lower: u64 = exponent * IMPLICIT_BIT + (m as u64 - IMPLICIT_BIT);
    proof {
        lemma_rounding_gaps(
            num as int,
            den as int,
            up as nat,
            down as nat,
            m as int,
            r as int,
            lower,
        );
    }
    if r < y - r || (r == y - r && lower % 2 == 0) {
        lower
    } else {
        lower + 1
    }
}

/// How often a divisor was doubled is bounded by what it grew to.
proof fn lemma_down_bound(y: int, down: nat)
    requires
        pow2(down) <= y,
        down > 0 ==> y <= 0x1000,
    ensures
        down <= 12,
{
    if down > 12 {
        vstd::arithmetic::power2::lemma2_to64();
        lemma_pow2_strictly_increases(12, down);
    }
}

/// Dividing the scaled numerator by the scaled denominator leaves the remainder that decides the
/// rounding.
proof fn lemma_rounding_gaps(
    num: int,
    den: int,
    up: nat,
    down: nat,
    m: int,
    r: int,
    lower: u64,
)
    requires
        den > 0,
        up < 118,
        down <= 12,
        IMPLICIT_BIT <= m < 2 * IMPLICIT_BIT,
        num * pow2(up) == den * pow2(down) * m + r,
        0 <= r < den * pow2(down),
        lower == (1075 - up + down) * IMPLICIT_BIT + (m - IMPLICIT_BIT),
    ensures
        0 < lower < 1088 * IMPLICIT_BIT,
        ({
            let y = den * pow2(down);
            &&& r < y - r ==> is_nearest(num, den, lower)
            &&& r > y - r ==> is_nearest(num, den, (lower + 1) as u64)
            &&& r == y - r && lower % 2 == 0 ==> is_nearest(num, den, lower)
            &&& r == y - r && lower % 2 == 1 ==> is_nearest(num, den, (lower + 1) as u64)
        }),
{
    let e = 1075 - up + down;
    let y = den * pow2(down);
    lemma_scaled_of_parts(m, e);
    lemma_scaled_of_parts(m + 1, e);
    let upper = (lower + 1) as u64;
    let unit = pow2((1074 - up) as nat) as int;
    lemma_pow2_pos((1074 - up) as nat);
    assert(pow2((e - 1) as nat) == pow2(down) * unit) by {
        lemma_pow2_adds(down, (1074 - up) as nat);
    }
    assert(pow2(1074) == pow2(up) * unit) by {
        lemma_pow2_adds(up, (1074 - up) as nat);
    }
    let p_up = pow2(up) as int;
    let p_down = pow2(down) as int;
    let q = den * p_down * m;
    assert(num * (p_up * unit) == (num * p_up) * unit) by (nonlinear_arith);
    assert((m * (p_down * unit)) * den == q * unit) by (nonlinear_arith)
        requires
            q == den * p_down * m,
    ;
    assert(((m + 1) * (p_down * unit)) * den == (q + y) * unit) by (nonlinear_arith)
        requires
            q == den * p_down * m,
            y == den * p_down,
    ;
    assert((q + r) * unit == q * unit + r * unit) by (nonlinear_arith);
    assert((q + y) * unit == (q + r) * unit + (y - r) * unit) by (nonlinear_arith);
    let below_gap = r * unit;
    let above_gap = (y - r) * unit;
    assert(below_gap >= 0 && above_gap > 0) by (nonlinear_arith)
        requires
            below_gap == r * unit,
            above_gap == (y - r) * unit,
            unit > 0,
            0 <= r < y,
    ;
    lemma_nearest_of_neighbours(num, den, lower, below_gap, above_gap);
    assert(r < y - r ==> below_gap < above_gap) by (nonlinear_arith)
        requires
            below_gap == r * unit,
            above_gap == (y - r) * unit,
            unit > 0,
    ;
    assert(r > y - r ==> below_gap > above_gap) by (nonlinear_arith)
        requires
            below_gap == r * unit,
            above_gap == (y - r) * unit,
            unit > 0,
    ;
}

/// The number nearest to a fraction is not above a number that the fraction is not above.
pub proof fn lemma_nearest_at_most(num: int, den: int, bits: u64, c: u64)
    requires
        den > 0,
        is_nearest(num, den, bits),
        c < INFINITY,
        num * pow2(1074) <= scaled(c) * den,
    ensures
        bits <= c,
{
    if bits > c {
        lemma_scaled_magnitude_increases(c as int, bits as int);
        assert(scaled(bits) * den > scaled(c) * den) by (nonlinear_arith)
            requires
                scaled(bits) > scaled(c),
                den > 0,
        ;
        assert(is_finite(c));
        assert(rounding_gap(num, den, bits) <= rounding_gap(num, den, c));
    }
}

/// A larger count becomes no smaller number.
proof fn lemma_count_monotone(n1: int, n2: int, b1: u64, b2: u64)
    requires
        n1 <= n2,
        is_nearest(n1, 1, b1),
        is_nearest(n2, 1, b2),
    ensures
        b1 <= b2,
{
    if b1 > b2 {
        lemma_scaled_magnitude_increases(b2 as int, b1 as int);
        let p = pow2(1074) as int;
        assert(n1 * p <= n2 * p) by (nonlinear_arith)
            requires
                n1 <= n2,
                p >= 0,
        ;
        assert(is_finite(b1) && is_finite(b2));
        assert(rounding_gap(n1, 1, b1) <= rounding_gap(n1, 1, b2));
        assert(rounding_gap(n2, 1, b2) <= rounding_gap(n2, 1, b1));
        assert(n1 * p == n2 * p);
        lemma_pow2_pos(1074);
        assert(n1 == n2) by (nonlinear_arith)
            requires
                n1 * p == n2 * p,
                p > 0,
        ;
        lemma_nearest_unique(n1, 1, b1, b2);
    }
}

/// Zero is nearest to a fraction without a numerator.
proof fn lemma_nearest_zero(den: int)
    requires
        den > 0,
    ensures
        is_nearest(0, den, 0),
        scaled(0) == 0,
{
    assert(scaled(0) == 0);
    assert(rounding_gap(0, den, 0) == 0) by (nonlinear_arith)
        requires
            rounding_gap(0, den, 0) == (if 0 * pow2(1074) - scaled(0) * den < 0 {
                -(0 * pow2(1074) - scaled(0) * den)
            } else {
                0 * pow2(1074) - scaled(0) * den
            }),
            scaled(0) == 0,
    ;
}

/// A count below 2 to the power of 53 is itself a number. The count doubled `k` times stays below
/// that bound.
proof fn lemma_count_exact(n: int, k: nat) -> (bits: u64)
    requires
        n > 0,
        k <= 53,
        n * pow2(k) < 2 * IMPLICIT_BIT,
    ensures
        bits < INFINITY,
        scaled(bits) == n * pow2(1074),
    decreases 53 - k,
{
    vstd::arithmetic::power2::lemma2_to64_rest();
    lemma_pow2_pos(k);
    assert(n * pow2(k) >= pow2(k)) by (nonlinear_arith)
        requires
            n >= 1,
            pow2(k) >= 0,
    ;
    if n * pow2(k) >= IMPLICIT_BIT {
        let m = n * pow2(k);
        let e = 1075 - k;
        lemma_scaled_of_parts(m, e);
        lemma_pow2_adds(k, (1074 - k) as nat);
        let p = pow2(k) as int;
        let q = pow2((1074 - k) as nat) as int;
        assert((n * p) * q == n * (p * q)) by (nonlinear_arith);
        (e * IMPLICIT_BIT + (m - IMPLICIT_BIT)) as u64
    } else {
        lemma_pow2_unfold((k + 1) as nat);
        assert(n * pow2((k + 1) as nat) == 2 * (n * pow2(k))) by (nonlinear_arith)
            requires
                pow2((k + 1) as nat) == 2 * pow2(k),
        ;
        lemma_count_exact(n, (k + 1) as nat)
    }
}

/// A number whose value is exactly the fraction is nearest to it.
proof fn lemma_exact_is_nearest(num: int, bits: u64)
    requires
        bits < INFINITY,
        scaled(bits) == num * pow2(1074),
        num > 0,
    ensures
        is_nearest(num, 1, bits),
{
    assert(rounding_gap(num, 1, bits) == 0);
    assert forall|c: u64|
        is_finite(c) && c != bits && #[trigger] rounding_gap(num, 1, c) == rounding_gap(
            num,
            1,
            bits,
        ) implies bits % 2 == 0 by {
        lemma_scaled_magnitude_order(magnitude(c), bits as int);
        lemma_scaled_magnitude_order(bits as int, magnitude(c));
        lemma_pow2_pos(1074);
        assert(num * pow2(1074) > 0) by (nonlinear_arith)
            requires
                num > 0,
                pow2(1074) > 0,
        ;
    }
}

/// A count of at least 2 to the power of `52 + k` has a nearest number.
proof fn lemma_count_rounded(n: int, k: nat) -> (bits: u64)
    requires
        k <= 12,
        IMPLICIT_BIT * pow2(k) <= n <= u64::MAX,
    ensures
        is_nearest(n, 1, bits),
        bits > 0,
    decreases 12 - k,
{
    vstd::arithmetic::power2::lemma2_to64();
    let p = pow2(k) as int;
    lemma_pow2_pos(k);
    if n < (2 * IMPLICIT_BIT) * p {
        let m = n / p;
        let r = n % p;
        vstd::arithmetic::div_mod::lemma_fundamental_div_mod(n, p);
        assert(IMPLICIT_BIT <= m < 2 * IMPLICIT_BIT) by (nonlinear_arith)
            requires
                n == p * m + r,
                0 <= r < p,
                IMPLICIT_BIT * p <= n < (2 * IMPLICIT_BIT) * p,
        ;
        let lower = ((1075 + k) * IMPLICIT_BIT + (m - IMPLICIT_BIT)) as u64;
        lemma_rounding_gaps(n, 1, 0, k, m, r, lower);
        if r < p - r || (r == p - r && lower % 2 == 0) {
            lower
        } else {
            (lower + 1) as u64
        }
    } else {
        lemma_pow2_unfold((k + 1) as nat);
        assert(IMPLICIT_BIT * (2 * p) == (2 * IMPLICIT_BIT) * p) by (nonlinear_arith);
        lemma_count_rounded(n, (k + 1) as nat)
    }
}

/// The fraction `num / den`, at most one and above zero, has a nearest number. Doubled `up` times it
/// is still below 2 to the power of 53.
proof fn lemma_fraction_rounded(num: int, den: int, up: nat) -> (bits: u64)
    requires
        0 < num <= den < 2 * IMPLICIT_BIT,
        up <= 106,
        num * pow2(up) < den * (2 * IMPLICIT_BIT),
    ensures
        is_nearest(num, den, bits),
        bits > 0,
    decreases 106 - up,
{
    let x = num * pow2(up);
    vstd::arithmetic::power2::lemma2_to64();
    if x >= den * IMPLICIT_BIT {
        let m = x / den;
        let r = x % den;
        vstd::arithmetic::div_mod::lemma_fundamental_div_mod(x, den);
        assert(IMPLICIT_BIT <= m < 2 * IMPLICIT_BIT) by (nonlinear_arith)
            requires
                x == den * m + r,
                0 <= r < den,
                den * IMPLICIT_BIT <= x < den * (2 * IMPLICIT_BIT),
        ;
        let lower = ((1075 - up) * IMPLICIT_BIT + (m - IMPLICIT_BIT)) as u64;
        assert(den * pow2(0) == den) by (nonlinear_arith)
            requires
                pow2(0) == 1,
        ;
        lemma_rounding_gaps(num, den, up, 0, m, r, lower);
        if r < den - r || (r == den - r && lower % 2 == 0) {
            lower
        } else {
            (lower + 1) as u64
        }
    } else {
        lemma_pow2_unfold((up + 1) as nat);
        assert(num * pow2((up + 1) as nat) == 2 * x) by (nonlinear_arith)
            requires
                x == num * pow2(up),
                pow2((up + 1) as nat) == 2 * pow2(up),
        ;
        assert(2 * x < den * (2 * IMPLICIT_BIT)) by (nonlinear_arith)
            requires
                x < den * IMPLICIT_BIT,
        ;
        assert(up < 106) by {
            if up == 106 {
                lemma_pow2_adds(53, 53);
                vstd::arithmetic::power2::lemma2_to64_rest();
                assert(x >= pow2(106)) by (nonlinear_arith)
                    requires
                        x == num * pow2(106),
                        num >= 1,
                        pow2(106) >= 0,
                ;
                assert(den * IMPLICIT_BIT < pow2(53) * pow2(53)) by (nonlinear_arith)
                    requires
                        0 < den < 0x20_0000_0000_0000,
                        IMPLICIT_BIT == 0x10_0000_0000_0000,
                        pow2(53) == 0x20_0000_0000_0000,
                ;
            }
        }
        lemma_fraction_rounded(num, den, (up + 1) as nat)
    }
}

/// The quotient of two counts that are numbers themselves is the number nearest to it.
pub proof fn lemma_ratio_is_nearest(num: int, den: int)
    requires
        0 <= num <= den < 2 * IMPLICIT_BIT,
        den > 0,
    ensures
        is_nearest(num, den, count_ratio(num, den)),
{
    vstd::arithmetic::power2::lemma2_to64();
    lemma_pow2_pos(1074);
    let p = pow2(1074) as int;
    if num == 0 {
        lemma_ratio_of_none(den);
        lemma_nearest_zero(den);
    } else {
        let b1 = lemma_count_exact(num, 0);
        lemma_exact_is_nearest(num, b1);
        lemma_nearest_is(num, 1, b1);
        let b2 = lemma_count_exact(den, 0);
        lemma_exact_is_nearest(den, b2);
        lemma_nearest_is(den, 1, b2);
        assert(num * pow2(0) < den * (2 * IMPLICIT_BIT)) by (nonlinear_arith)
            requires
                0 < num <= den,
                pow2(0) == 1,
                IMPLICIT_BIT == 0x10_0000_0000_0000,
        ;
        let bits = lemma_fraction_rounded(num, den, 0);
        lemma_nearest_expanded(num, den, p, bits);
        assert(den * p > 0) by (nonlinear_arith)
            requires
                den > 0,
                p > 0,
        ;
        lemma_nearest_is(num * p, den * p, bits);
    }
}

/// A count has a nearest number, which is what it becomes.
pub proof fn lemma_count_is_nearest(n: int)
    requires
        0 <= n <= u64::MAX,
    ensures
        is_nearest(n, 1, count_as_double(n)),
{
    vstd::arithmetic::power2::lemma2_to64();
    if n == 0 {
        lemma_nearest_zero(1);
        lemma_nearest_is(0, 1, 0);
    } else if n < 2 * IMPLICIT_BIT {
        let bits = lemma_count_exact(n, 0);
        lemma_exact_is_nearest(n, bits);
        lemma_nearest_is(n, 1, bits);
    } else {
        let bits = lemma_count_rounded(n, 0);
        lemma_nearest_is(n, 1, bits);
    }
}

/// None of some things is the fraction zero of them.
pub proof fn lemma_ratio_of_none(den: int)
    requires
        0 < den <= u64::MAX,
    ensures
        count_ratio(0, den) == 0,
{
    vstd::arithmetic::power2::lemma2_to64();
    lemma_pow2_pos(1074);
    let bits = if den < 2 * IMPLICIT_BIT {
        let bits = lemma_count_exact(den, 0);
        lemma_exact_is_nearest(den, bits);
        assert(den * pow2(1074) > 0) by (nonlinear_arith)
            requires
                den > 0,
                pow2(1074) > 0,
        ;
        bits
    } else {
        lemma_count_rounded(den, 0)
    };
    lemma_nearest_is(den, 1, bits);
    lemma_scaled_magnitude_order(0, bits as int);
    lemma_scaled_magnitude_order(bits as int, 0);
    lemma_nearest_zero(1);
    lemma_nearest_is(0, 1, 0);
    lemma_nearest_zero(scaled(bits));
    lemma_nearest_is(0, scaled(bits), 0);
}

/// The value that a count has as a number, which is a whole number again.
fn count_value(n: u64) -> (v: u128)
    ensures
        v <= 0x1_0000_0000_0000_0000,
        n > 0 <==> v > 0,
        is_nearest(n as int, 1, count_as_double(n as int)),
        scaled(count_as_double(n as int)) == v * pow2(1074),
{
    if n == 0 {
        proof {
            lemma_nearest_zero(1);
            lemma_nearest_is(0, 1, 0);
            assert(0 * pow2(1074) == 0) by (nonlinear_arith);
        }
        return 0;
    }
    if n < 0x20_0000_0000_0000 {
        proof {
            vstd::arithmetic::power2::lemma2_to64();
            let bits = lemma_count_exact(n as int, 0);
            lemma_exact_is_nearest(n as int, bits);
            lemma_nearest_is(n as int, 1, bits);
        }
        return n as u128;
    }
    let bits: u64 = round_fraction(n as u128, 1);
    let exponent: u64 = bits / IMPLICIT_BIT;
    let fraction: u64 = bits % IMPLICIT_BIT;
    proof {
        lemma_nearest_is(n as int, 1, bits);
        let c = (1087 * IMPLICIT_BIT) as u64;
        lemma_scaled_of_parts(IMPLICIT_BIT as int, 1087);
        lemma_pow2_adds(12, 1074);
        vstd::arithmetic::power2::lemma2_to64();
        let p = pow2(1074) as int;
        assert(n * p <= IMPLICIT_BIT * (0x1000 * p)) by (nonlinear_arith)
            requires
                n <= 0xFFFF_FFFF_FFFF_FFFF,
                p >= 0,
        ;
        lemma_nearest_at_most(n as int, 1, bits, c);
    }
    let mut v: u128 = (IMPLICIT_BIT + fraction) as u128;
    let mut k: u64 = 1075;
    proof {
        vstd::arithmetic::power2::lemma2_to64();
        assert(v == v * pow2(0)) by (nonlinear_arith)
            requires
                pow2(0) == 1,
        ;
    }
    while k < exponent
        invariant
            1075 <= k <= exponent <= 1087,
            exponent == 1087 ==> fraction == 0,
            fraction < IMPLICIT_BIT,
            v == (IMPLICIT_BIT + fraction) * pow2((k - 1075) as nat),
        decreases exponent - k,
    {
        proof {
            lemma_shifted_bound(fraction as int, (k - 1075) as nat, exponent as int);
            lemma_pow2_unfold((k + 1 - 1075) as nat);
            let a = IMPLICIT_BIT + fraction;
            let p = pow2((k - 1075) as nat) as int;
            assert(2 * (a * p) == a * (2 * p)) by (nonlinear_arith);
        }
        v = v * 2;
        k = k + 1;
    }
    proof {
        lemma_shifted_bound(fraction as int, (k - 1075) as nat, exponent as int);
        lemma_pow2_adds((exponent - 1075) as nat, 1074);
        let a = IMPLICIT_BIT + fraction;
        let p = pow2((exponent - 1075) as nat) as int;
        let q = pow2(1074) as int;
        assert((a * p) * q == a * (p * q)) by (nonlinear_arith);
    }
    v
}

/// A significand shifted by less than the width of a count stays within a count.
proof fn lemma_shifted_bound(fraction: int, k: nat, exponent: int)
    requires
        0 <= fraction < IMPLICIT_BIT,
        1075 + k <= exponent <= 1087,
        exponent == 1087 ==> fraction == 0,
    ensures
        0 < (IMPLICIT_BIT + fraction) * pow2(k) <= 0x1_0000_0000_0000_0000,
{
    vstd::arithmetic::power2::lemma2_to64();
    lemma_pow2_pos(k);
    let p = pow2(k) as int;
    if k == 12 {
        assert(IMPLICIT_BIT * 0x1000 == 0x1_0000_0000_0000_0000);
    } else {
        if k < 11 {
            lemma_pow2_strictly_increases(k, 11);
        }
        assert((IMPLICIT_BIT + fraction) * p <= 0x20_0000_0000_0000 * 0x800) by (nonlinear_arith)
            requires
                0 <= fraction < IMPLICIT_BIT,
                0 < p <= 0x800,
                IMPLICIT_BIT == 0x10_0000_0000_0000,
        ;
        assert((IMPLICIT_BIT + fraction) * p > 0) by (nonlinear_arith)
            requires
                0 <= fraction,
                0 < p,
                IMPLICIT_BIT == 0x10_0000_0000_0000,
        ;
    }
}

/// The quotient of two counts as a number, each count converted first.
pub fn ratio_of_counts(num: u64, den: u64) -> (bits: u64)
    requires
        num <= den,
        den > 0,
    ensures
        bits == count_ratio(num as int, den as int),
        bits <= ONE,
        num == 0 ==> bits == 0,
        num > 0 ==> bits > 0,
        forall|c: u64|
            c < INFINITY ==> {
                let top = scaled(count_as_double(num as int));
                let bottom = scaled(count_as_double(den as int));
                let here = top * pow2(1074) - scaled(bits) * bottom;
                let there = top * pow2(1074) - #[trigger] scaled(c) * bottom;
                (if here < 0 { -here } else { here }) <= (if there < 0 { -there } else { there })
            },
{
    let n: u128 = count_value(num);
    let d: u128 = count_value(den);
    let ghost p = pow2(1074) as int;
    proof {
        lemma_pow2_pos(1074);
        lemma_count_monotone(
            num as int,
            den as int,
            count_as_double(num as int),
            count_as_double(den as int),
        );
        lemma_scaled_magnitude_order(
            count_as_double(den as int) as int,
            count_as_double(num as int) as int,
        );
        assert(n <= d) by (nonlinear_arith)
            requires
                n * p <= d * p,
                p > 0,
        ;
        assert(d * p > 0) by (nonlinear_arith)
            requires
                d > 0,
                p > 0,
        ;
    }
    if n == 0 {
        proof {
            lemma_nearest_zero(d * p);
            assert(n * p == 0) by (nonlinear_arith)
                requires
                    n == 0,
            ;
            lemma_nearest_is(n * p, d * p, 0);
            assert(forall|c: u64|
                c < INFINITY ==> is_finite(c) && rounding_gap(n * p, d * p, 0) <= rounding_gap(
                    n * p,
                    d * p,
                    c,
                ) && #[trigger] scaled(c) == scaled(c));
        }
        return 0;
    }
    let bits: u64 = round_fraction(n, d);
    proof {
        lemma_nearest_expanded(n as int, d as int, p, bits);
        lemma_nearest_is(n * p, d * p, bits);
        assert(forall|c: u64|
            c < INFINITY ==> is_finite(c) && rounding_gap(n * p, d * p, bits) <= rounding_gap(
                n * p,
                d * p,
                c,
            ) && #[trigger] scaled(c) == scaled(c));
        lemma_scaled_of_parts(IMPLICIT_BIT as int, 1023);
        lemma_pow2_adds(52, 1022);
        vstd::arithmetic::power2::lemma2_to64_rest();
        assert(scaled(ONE) == p);
        assert(n * p <= p * d) by (nonlinear_arith)
            requires
                n <= d,
                p >= 0,
        ;
        lemma_nearest_at_most(n as int, d as int, bits, ONE);
    }
    bits
}

/// Tells whether `a` is a number, given by its bits, below the number `b`.
pub fn is_below(a: u64, b: u64) -> (r: bool)
    ensures
        r == below(a, b),
{
    let a_negative = a >= SIGN_BIT;
    let b_negative = b >= SIGN_BIT;
    let ma: u64 = if a_negative {
        a - SIGN_BIT
    } else {
        a
    };
    let mb: u64 = if b_negative {
        b - SIGN_BIT
    } else {
        b
    };
    proof {
        lemma_scaled_magnitude_order(ma as int, mb as int);
        lemma_scaled_magnitude_order(mb as int, ma as int);
    }
    if ma > INFINITY || mb > INFINITY {
        false
    } else if !a_negative && !b_negative {
        ma < mb
    } else if a_negative && b_negative {
        mb < ma
    } else if a_negative {
        ma != 0 || mb != 0
    } else {
        false
    }
}

} // verus!
