//! What holds of numbers and of the difference between payloads.
use crate::deadband::differing;
use crate::deadband::payload_difference;
use crate::deadband::suppresses;
use crate::deadband::DeadbandConfig;
use crate::double::below;
use crate::double::count_as_double;
use crate::double::count_ratio;
use crate::double::is_finite;
use crate::double::lemma_count_is_nearest;
use crate::double::lemma_nearest_at_most;
use crate::double::lemma_ratio_is_nearest;
use crate::double::lemma_scaled_magnitude_increases;
use crate::double::lemma_scaled_magnitude_order;
use crate::double::magnitude;
use crate::double::rounding_gap;
use crate::double::scaled;
use crate::signal::SignalView;
use vstd::arithmetic::power2::lemma_pow2_adds;
use vstd::arithmetic::power2::lemma_pow2_pos;
use vstd::arithmetic::power2::lemma_pow2_unfold;
use vstd::arithmetic::power2::pow2;
use vstd::prelude::*;

verus! {

/// Numbers order as their bit patterns do: upwards without a sign, downwards with one. The two zeros
/// are equal, and a pattern that is no number is not below anything, nor anything below it.
pub proof fn law_order_of_numbers(a: u64, b: u64)
    ensures
        a <= 0x7FF0_0000_0000_0000 && b <= 0x7FF0_0000_0000_0000 ==> (below(a, b) <==> a < b),
        0x8000_0000_0000_0000 <= a <= 0xFFF0_0000_0000_0000 && 0x8000_0000_0000_0000 <= b
            <= 0xFFF0_0000_0000_0000 ==> (below(a, b) <==> b < a),
        0x8000_0000_0000_0000 <= a <= 0xFFF0_0000_0000_0000 && b <= 0x7FF0_0000_0000_0000 ==> (
        below(a, b) <==> a != 0x8000_0000_0000_0000 || b != 0),
        a <= 0x7FF0_0000_0000_0000 && 0x8000_0000_0000_0000 <= b <= 0xFFF0_0000_0000_0000
            ==> !below(a, b),
        0x7FF0_0000_0000_0000 < a < 0x8000_0000_0000_0000 || a > 0xFFF0_0000_0000_0000 ==> !below(
            a,
            b,
        ) && !below(b, a),
{
    lemma_scaled_magnitude_order(magnitude(a), magnitude(b));
    lemma_scaled_magnitude_order(magnitude(b), magnitude(a));
}

/// The values of the numbers, counted in units of the smallest positive one: they start at zero,
/// and each step up is twice as large as soon as the exponent is one larger. A sign negates. One is
/// 2 to the power of 1074 such units.
pub proof fn law_values_of_numbers(b: u64)
    requires
        b < 0x7FF0_0000_0000_0000,
    ensures
        scaled(0) == 0,
        scaled((b + 1) as u64) - scaled(b) == pow2(
            if b < 0x0010_0000_0000_0000 {
                0
            } else {
                (b as int / 0x0010_0000_0000_0000 - 1) as nat
            },
        ),
        scaled((b + 0x8000_0000_0000_0000) as u64) == -scaled(b),
        scaled(0x3FF0_0000_0000_0000) == pow2(1074),
{
    let unit: int = 0x0010_0000_0000_0000;
    let e = b as int / unit;
    let f = b as int % unit;
    vstd::arithmetic::power2::lemma2_to64();
    vstd::arithmetic::power2::lemma2_to64_rest();
    vstd::arithmetic::div_mod::lemma_fundamental_div_mod(b as int, unit);
    if f + 1 < unit {
        vstd::arithmetic::div_mod::lemma_fundamental_div_mod_converse(b + 1, unit, e, f + 1);
        if e > 0 {
            let p = pow2((e - 1) as nat) as int;
            assert((unit + f + 1) * p == (unit + f) * p + p) by (nonlinear_arith);
        }
    } else {
        vstd::arithmetic::div_mod::lemma_fundamental_div_mod_converse(b + 1, unit, e + 1, 0);
        if e > 0 {
            let p = pow2((e - 1) as nat) as int;
            lemma_pow2_unfold(e as nat);
            assert(unit * (2 * p) == (unit + f) * p + p) by (nonlinear_arith)
                requires
                    f + 1 == unit,
            ;
        }
    }
    lemma_pow2_adds(52, 1022);
    assert(scaled(0x3FF0_0000_0000_0000) == 0x0010_0000_0000_0000 * pow2(1022));
}

/// No number is nearer to a count than the one that it becomes. Of two that are as near, it is the
/// one whose last bit is zero.
pub proof fn law_count_as_number(n: u64, c: u64)
    requires
        c < 0x7FF0_0000_0000_0000,
    ensures
        ({
            let here = n * pow2(1074) - scaled(count_as_double(n as int));
            let there = n * pow2(1074) - scaled(c);
            let gap = if here < 0 { -here } else { here };
            let other = if there < 0 { -there } else { there };
            &&& gap <= other
            &&& gap == other && c != count_as_double(n as int) ==> count_as_double(n as int) % 2
                == 0
        }),
        count_as_double(n as int) < 0x7FF0_0000_0000_0000,
{
    lemma_count_is_nearest(n as int);
    let bits = count_as_double(n as int);
    assert(is_finite(c));
    assert(rounding_gap(n as int, 1, bits) <= rounding_gap(n as int, 1, c));
}

/// No number is nearer to the quotient of two counts below 2 to the power of 53 than the one that
/// it is rounded to. Of two that are as near, it is the one whose last bit is zero.
pub proof fn law_ratio_is_rounded(num: int, den: int, c: u64)
    requires
        0 <= num <= den < 0x0020_0000_0000_0000,
        den > 0,
        c < 0x7FF0_0000_0000_0000,
    ensures
        ({
            let here = num * pow2(1074) - scaled(count_ratio(num, den)) * den;
            let there = num * pow2(1074) - scaled(c) * den;
            let gap = if here < 0 { -here } else { here };
            let other = if there < 0 { -there } else { there };
            &&& gap <= other
            &&& gap == other && c != count_ratio(num, den) ==> count_ratio(num, den) % 2 == 0
        }),
        count_ratio(num, den) <= 0x3FF0_0000_0000_0000,
        num == 0 <==> count_ratio(num, den) == 0,
        num == den ==> count_ratio(num, den) == 0x3FF0_0000_0000_0000,
{
    let r = count_ratio(num, den);
    let p = pow2(1074) as int;
    lemma_ratio_is_nearest(num, den);
    assert(is_finite(c));
    assert(rounding_gap(num, den, r) <= rounding_gap(num, den, c));
    law_values_of_numbers(0);
    lemma_pow2_pos(1074);
    assert(num * p <= p * den) by (nonlinear_arith)
        requires
            num <= den,
            p >= 0,
    ;
    lemma_nearest_at_most(num, den, r, 0x3FF0_0000_0000_0000);
    if num == 0 {
        assert(num * p <= scaled(0) * den) by (nonlinear_arith)
            requires
                num == 0,
                scaled(0) == 0,
        ;
        lemma_nearest_at_most(num, den, r, 0);
    } else if r == 0 {
        lemma_ratio_positive(num, den);
    }
    if num == den {
        let one: u64 = 0x3FF0_0000_0000_0000;
        assert(is_finite(one));
        assert(num * p - scaled(one) * den == 0) by (nonlinear_arith)
            requires
                num == den,
                scaled(one) == p,
        ;
        assert(rounding_gap(num, den, one) == 0);
        assert(rounding_gap(num, den, r) <= rounding_gap(num, den, one));
        assert(rounding_gap(num, den, r) == 0);
        assert(scaled(r) * den == p * den) by (nonlinear_arith)
            requires
                num * p - scaled(r) * den == 0,
                num == den,
        ;
        assert(scaled(r) == p) by (nonlinear_arith)
            requires
                scaled(r) * den == p * den,
                den > 0,
        ;
        if r < one {
            lemma_scaled_magnitude_increases(r as int, one as int);
        }
    }
}

/// A fraction above zero is not rounded to zero.
proof fn lemma_ratio_positive(num: int, den: int)
    requires
        0 < num <= den < 0x0020_0000_0000_0000,
    ensures
        count_ratio(num, den) != 0,
{
    lemma_ratio_is_nearest(num, den);
    law_values_of_numbers(0);
    if count_ratio(num, den) == 0 {
        let p = pow2(1074) as int;
        assert(is_finite(1u64));
        vstd::arithmetic::power2::lemma2_to64();
        assert(scaled(1) == 1);
        lemma_pow2_adds(64, 1010);
        lemma_pow2_pos(1010);
        vstd::arithmetic::power2::lemma2_to64_rest();
        assert(p >= 0x1_0000_0000_0000_0000) by (nonlinear_arith)
            requires
                p == 0x1_0000_0000_0000_0000 * pow2(1010),
                pow2(1010) >= 1,
        ;
        assert(num * p >= p) by (nonlinear_arith)
            requires
                num >= 1,
                p >= 0,
        ;
        assert(scaled(0) * den == 0 && scaled(1) * den == den) by (nonlinear_arith)
            requires
                scaled(0) == 0,
                scaled(1) == 1,
        ;
        assert(rounding_gap(num, den, 0) <= rounding_gap(num, den, 1));
    }
}

/// The positions below `n` at which two payloads differ, the shorter one filled up with zeros, are
/// as many as are counted.
pub proof fn law_differing_is_a_count(a: Seq<u8>, b: Seq<u8>, n: nat)
    ensures
        ({
            let places = Set::new(
                |i: int|
                    0 <= i < n && (if i < a.len() { a[i] } else { 0u8 }) != (if i < b.len() {
                        b[i]
                    } else {
                        0u8
                    }),
            );
            places.finite() && differing(a, b, n) == places.len()
        }),
    decreases n,
{
    let test = |k: nat|
        |i: int|
            0 <= i < k && (if i < a.len() { a[i] } else { 0u8 }) != (if i < b.len() {
                b[i]
            } else {
                0u8
            });
    let places = Set::new(test(n));
    if n == 0 {
        assert(places =~= Set::empty());
    } else {
        let m = (n - 1) as nat;
        law_differing_is_a_count(a, b, m);
        let before = Set::new(test(m));
        if test(n)(m as int) {
            assert(places =~= before.insert(m as int));
        } else {
            assert(places =~= before);
        }
    }
    assert(places =~= Set::new(
        |i: int|
            0 <= i < n && (if i < a.len() { a[i] } else { 0u8 }) != (if i < b.len() {
                b[i]
            } else {
                0u8
            }),
    ));
}

/// How far two payloads differ is the number of positions at which they do, the shorter one filled
/// up with zeros, over the length of the longer one, rounded to the nearest number. It is zero
/// exactly if they differ nowhere, and one exactly if they differ everywhere.
pub proof fn law_payload_difference(a: Seq<u8>, b: Seq<u8>, c: u64)
    requires
        a.len() < 0x0020_0000_0000_0000,
        b.len() < 0x0020_0000_0000_0000,
        c < 0x7FF0_0000_0000_0000,
    ensures
        ({
            let n = if a.len() >= b.len() { a.len() } else { b.len() };
            let places = Set::new(
                |i: int|
                    0 <= i < n && (if i < a.len() { a[i] } else { 0u8 }) != (if i < b.len() {
                        b[i]
                    } else {
                        0u8
                    }),
            );
            let r = payload_difference(a, b);
            let here = places.len() * pow2(1074) - scaled(r) * n;
            let there = places.len() * pow2(1074) - scaled(c) * n;
            &&& places.len() <= n
            &&& (if here < 0 { -here } else { here }) <= (if there < 0 { -there } else { there })
            &&& r <= 0x3FF0_0000_0000_0000
            &&& r == 0 <==> places.len() == 0
            &&& n > 0 && places.len() == n ==> r == 0x3FF0_0000_0000_0000
        }),
{
    let n = if a.len() >= b.len() { a.len() } else { b.len() };
    law_differing_is_a_count(a, b, n);
    lemma_differing_at_most(a, b, n);
    law_values_of_numbers(0);
    if n > 0 {
        law_ratio_is_rounded(differing(a, b, n) as int, n as int, c);
    } else {
        assert(0 * pow2(1074) == 0) by (nonlinear_arith);
        assert(scaled(payload_difference(a, b)) * n == 0 && scaled(c) * n == 0) by (nonlinear_arith)
            requires
                n == 0,
        ;
    }
}

proof fn lemma_differing_at_most(a: Seq<u8>, b: Seq<u8>, n: nat)
    ensures
        differing(a, b, n) <= n,
    decreases n,
{
    if n > 0 {
        lemma_differing_at_most(a, b, (n - 1) as nat);
    }
}

/// A signal whose payload differs from the last one at a fraction of the positions that reaches the
/// tolerance is not suppressed.
pub proof fn law_change_of_tolerance_passes(
    config: DeadbandConfig,
    previous: SignalView,
    current: SignalView,
    distance: u64,
)
    requires
        !config.use_embedding,
        config.tolerance < 0x7FF0_0000_0000_0000,
        previous.payload.len() < 0x0020_0000_0000_0000,
        current.payload.len() < 0x0020_0000_0000_0000,
        ({
            let a = previous.payload;
            let b = current.payload;
            let n = if a.len() >= b.len() { a.len() } else { b.len() };
            Set::new(
                |i: int|
                    0 <= i < n && (if i < a.len() { a[i] } else { 0u8 }) != (if i < b.len() {
                        b[i]
                    } else {
                        0u8
                    }),
            ).len() * pow2(1074) >= scaled(config.tolerance) * n
        }),
        previous.payload.len() > 0 || current.payload.len() > 0,
    ensures
        !suppresses(config, Some(previous), current, distance),
{
    let a = previous.payload;
    let b = current.payload;
    let n = if a.len() >= b.len() { a.len() } else { b.len() };
    let t = config.tolerance;
    let d = differing(a, b, n) as int;
    law_differing_is_a_count(a, b, n);
    lemma_differing_at_most(a, b, n);
    lemma_ratio_is_nearest(d, n as int);
    let r = count_ratio(d, n as int);
    if r < t {
        lemma_scaled_magnitude_increases(r as int, t as int);
        assert(scaled(r) * n < scaled(t) * n) by (nonlinear_arith)
            requires
                scaled(r) < scaled(t),
                n > 0,
        ;
        assert(is_finite(t));
        assert(rounding_gap(d, n as int, r) <= rounding_gap(d, n as int, t));
    }
    law_order_of_numbers(r, t);
}

/// A signal whose payload differs from the last one at a fraction of the positions that does not
/// exceed some number below the tolerance is suppressed.
pub proof fn law_change_below_tolerance_is_suppressed(
    config: DeadbandConfig,
    previous: SignalView,
    current: SignalView,
    distance: u64,
    c: u64,
)
    requires
        !config.use_embedding,
        c < config.tolerance <= 0x7FF0_0000_0000_0000,
        previous.payload.len() < 0x0020_0000_0000_0000,
        current.payload.len() < 0x0020_0000_0000_0000,
        ({
            let a = previous.payload;
            let b = current.payload;
            let n = if a.len() >= b.len() { a.len() } else { b.len() };
            Set::new(
                |i: int|
                    0 <= i < n && (if i < a.len() { a[i] } else { 0u8 }) != (if i < b.len() {
                        b[i]
                    } else {
                        0u8
                    }),
            ).len() * pow2(1074) <= scaled(c) * n
        }),
    ensures
        suppresses(config, Some(previous), current, distance),
{
    let a = previous.payload;
    let b = current.payload;
    let n = if a.len() >= b.len() { a.len() } else { b.len() };
    let t = config.tolerance;
    let d = differing(a, b, n) as int;
    law_differing_is_a_count(a, b, n);
    lemma_differing_at_most(a, b, n);
    let r = payload_difference(a, b);
    if n > 0 {
        lemma_ratio_is_nearest(d, n as int);
        lemma_nearest_at_most(d, n as int, r, c);
    }
    law_order_of_numbers(r, t);
    law_order_of_numbers(0, t);
}

/// With embeddings compared, a signal is suppressed exactly if there is a signal before it, the
/// tolerance is above zero, and the distance is below the tolerance; where one of the two has no
/// embedding, whatever the distance.
pub proof fn law_embedding_deadband(
    config: DeadbandConfig,
    previous: Option<SignalView>,
    current: SignalView,
    distance: u64,
)
    requires
        config.use_embedding,
    ensures
        suppresses(config, previous, current, distance) <==> previous is Some && 0
            < config.tolerance <= 0x7FF0_0000_0000_0000 && (previous->0.embedding.len() == 0
            || current.embedding.len() == 0 || below(distance, config.tolerance)),
{
    law_order_of_numbers(0, config.tolerance);
}

/// With payloads compared, a signal is suppressed exactly if there is a signal before it, the
/// tolerance is above zero, and the payloads differ by less; neither the embeddings nor anything
/// else in the two signals matters.
pub proof fn law_payload_deadband(
    config: DeadbandConfig,
    previous: Option<SignalView>,
    current: SignalView,
    distance: u64,
)
    requires
        !config.use_embedding,
    ensures
        suppresses(config, previous, current, distance) <==> previous is Some && 0
            < config.tolerance <= 0x7FF0_0000_0000_0000 && below(
            payload_difference(previous->0.payload, current.payload),
            config.tolerance,
        ),
{
    law_order_of_numbers(0, config.tolerance);
}

} // verus!
