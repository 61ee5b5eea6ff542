//! Arithmetic groundwork for the conversions: the position of the highest set
//! bit of a positive integer, and division rounded to nearest with ties to
//! even.

use vstd::prelude::*;

verus! {

use vstd::arithmetic::power2::pow2;
use vstd::arithmetic::power2::lemma_pow2_adds;
use vstd::arithmetic::power2::lemma_pow2_pos;
use vstd::arithmetic::power2::lemma_pow2_strictly_increases;
use vstd::arithmetic::div_mod::lemma_fundamental_div_mod;
use vstd::arithmetic::div_mod::lemma_fundamental_div_mod_converse;
use vstd::arithmetic::div_mod::lemma_div_is_ordered;
use vstd::arithmetic::mul::lemma_mul_inequality;
use vstd::arithmetic::mul::lemma_mul_strict_inequality;

/// Position of the highest set bit of `m`: the unique `l` with
/// `pow2(l) <= m < pow2(l + 1)`.
pub open spec fn floor_log2(m: nat) -> nat
    recommends
        m > 0,
    decreases m,
{
    if m <= 1 {
        0
    } else {
        1 + floor_log2(m / 2)
    }
}

/// `m / d` rounded to the nearest integer, ties going to the even neighbour.
pub open spec fn rne_div(m: nat, d: nat) -> nat
    recommends
        d > 0,
{
    let q = m / d;
    let r = m % d;
    if 2 * r > d || (2 * r == d && q % 2 == 1) {
        (q + 1) as nat
    } else {
        q
    }
}

/// `m` shifted up so that its highest set bit lands at position `top`:
/// the normalized significand of a value whose digits are those of `m`.
pub open spec fn normalized_sig(m: nat, top: nat) -> nat
    recommends
        m > 0,
        floor_log2(m) <= top,
{
    m * pow2((top - floor_log2(m)) as nat)
}

/// The highest set bit of `m` brackets it between two powers of two.
pub proof fn lemma_floor_log2_bounds(m: nat)
    requires
        m > 0,
    ensures
        pow2(floor_log2(m)) <= m < pow2(floor_log2(m) + 1),
    decreases m,
{
    vstd::arithmetic::power2::lemma2_to64();
    if m <= 1 {
    } else {
        lemma_floor_log2_bounds(m / 2);
        let l = floor_log2(m / 2);
        assert(pow2(l + 1) == 2 * pow2(l)) by {
            lemma_pow2_adds(l, 1);
        }
        assert(pow2(l + 2) == 2 * pow2(l + 1)) by {
            lemma_pow2_adds(l + 1, 1);
        }
    }
}

/// Any `l` that brackets `m` between `pow2(l)` and `pow2(l + 1)` is its
/// highest set bit position.
pub proof fn lemma_floor_log2_unique(m: nat, l: nat)
    requires
        pow2(l) <= m < pow2(l + 1),
    ensures
        floor_log2(m) == l,
{
    lemma_pow2_pos(l);
    lemma_floor_log2_bounds(m);
    let l0 = floor_log2(m);
    if l0 < l {
        lemma_pow2_strictly_increases(l0 + 1, l + 1);
        assert(pow2(l0 + 1) <= pow2(l)) by {
            if l0 + 1 < l {
                lemma_pow2_strictly_increases(l0 + 1, l);
            }
        }
    }
    if l < l0 {
        assert(pow2(l + 1) <= pow2(l0)) by {
            if l + 1 < l0 {
                lemma_pow2_strictly_increases(l + 1, l0);
            }
        }
    }
}

/// Scaling by a power of two moves the highest set bit up by the exponent.
pub proof fn lemma_floor_log2_mul_pow2(m: nat, k: nat)
    requires
        m > 0,
    ensures
        floor_log2(m * pow2(k)) == floor_log2(m) + k,
{
    let l = floor_log2(m);
    lemma_floor_log2_bounds(m);
    lemma_pow2_pos(k);
    assert(pow2(l) * pow2(k) <= m * pow2(k)) by {
        lemma_mul_inequality(pow2(l) as int, m as int, pow2(k) as int);
    }
    assert(m * pow2(k) < pow2(l + 1) * pow2(k)) by {
        lemma_mul_strict_inequality(m as int, pow2(l + 1) as int, pow2(k) as int);
    }
    lemma_pow2_adds(l, k);
    lemma_pow2_adds(l + 1, k);
    lemma_floor_log2_unique(m * pow2(k), l + k);
}

/// The highest set bit position never moves down as the integer grows.
pub proof fn lemma_floor_log2_mono(a: nat, b: nat)
    requires
        0 < a <= b,
    ensures
        floor_log2(a) <= floor_log2(b),
{
    lemma_floor_log2_bounds(a);
    lemma_floor_log2_bounds(b);
    if floor_log2(b) < floor_log2(a) {
        assert(pow2(floor_log2(b) + 1) <= pow2(floor_log2(a))) by {
            if floor_log2(b) + 1 < floor_log2(a) {
                lemma_pow2_strictly_increases(floor_log2(b) + 1, floor_log2(a));
            }
        }
    }
}

/// A normalized significand lands in the binade of its target position.
pub proof fn lemma_normalized_sig_bounds(m: nat, top: nat)
    requires
        m > 0,
        floor_log2(m) <= top,
    ensures
        pow2(top) <= normalized_sig(m, top) < pow2(top + 1),
{
    let l = floor_log2(m);
    lemma_floor_log2_bounds(m);
    lemma_pow2_pos((top - l) as nat);
    assert(pow2(l) * pow2((top - l) as nat) <= m * pow2((top - l) as nat)) by {
        lemma_mul_inequality(pow2(l) as int, m as int, pow2((top - l) as nat) as int);
    }
    assert(m * pow2((top - l) as nat) < pow2(l + 1) * pow2((top - l) as nat)) by {
        lemma_mul_strict_inequality(m as int, pow2(l + 1) as int, pow2((top - l) as nat) as int);
    }
    lemma_pow2_adds(l, (top - l) as nat);
    lemma_pow2_adds(l + 1, (top - l) as nat);
}

/// An integer below `pow2(c + 1)` has its highest set bit at or below `c`.
pub proof fn lemma_floor_log2_below(m: nat, c: nat)
    requires
        0 < m < pow2(c + 1),
    ensures
        floor_log2(m) <= c,
{
    lemma_floor_log2_bounds(m);
    if floor_log2(m) > c {
        assert(pow2(c + 1) <= pow2(floor_log2(m))) by {
            if c + 1 < floor_log2(m) {
                lemma_pow2_strictly_increases(c + 1, floor_log2(m));
            }
        }
    }
}

/// A quotient below one half, or exactly one half of an even target, rounds
/// to zero.
pub proof fn lemma_rne_div_zero(m: nat, d: nat)
    requires
        d > 0,
        2 * m <= d,
    ensures
        rne_div(m, d) == 0,
{
    if m < d {
        assert(m / d == 0) by {
            vstd::arithmetic::div_mod::lemma_basic_div(m as int, d as int);
        }
        vstd::arithmetic::div_mod::lemma_small_mod(m, d);
    }
}

/// The rounded quotient never exceeds a bound that the dividend respects.
pub proof fn lemma_rne_div_upper(m: nat, d: nat, c: nat)
    requires
        d > 0,
        m <= c * d,
    ensures
        rne_div(m, d) <= c,
{
    let q = m / d;
    let r = m % d;
    lemma_fundamental_div_mod(m as int, d as int);
    if q >= c + 1 {
        assert((c + 1) * d <= q * d) by {
            lemma_mul_inequality((c + 1) as int, q as int, d as int);
        }
        assert(c * d + d == (c + 1) * d) by {
            vstd::arithmetic::mul::lemma_mul_is_distributive_add_other_way(
                d as int,
                c as int,
                1,
            );
        }
    }
    if q == c {
        assert(m == c * d + r);
        assert(r == 0);
    }
}

/// The rounded quotient never falls below a bound that the dividend respects.
pub proof fn lemma_rne_div_lower(m: nat, d: nat, c: nat)
    requires
        d > 0,
        c * d <= m,
    ensures
        c <= rne_div(m, d),
{
    assert(c == (c * d) / d) by {
        vstd::arithmetic::div_mod::lemma_div_by_multiple(c as int, d as int);
    }
    lemma_div_is_ordered((c * d) as int, m as int, d as int);
}

/// The round-up decision of a shift that discards the `s + 1` lowest bits of
/// `m`, taken one bit early: it fires when any bit strictly below the
/// rounding bit (bit `s`) is set, or when the lowest surviving bit (bit
/// `s + 1`) is odd.  Together with the rounding bit itself this realises
/// round-to-nearest, ties to even.
pub open spec fn sticky_or_parity(m: nat, s: nat) -> nat {
    if m % pow2(s) != 0 || (m / pow2(s + 1)) % 2 == 1 {
        1
    } else {
        0
    }
}

/// Rounding away `s + 1` low bits splits into a shift by `s`, a conditional
/// increment, and a final halving — the form the conversions compute, which
/// never shifts by a full register width.
pub proof fn lemma_rne_shift(m: nat, s: nat)
    ensures
        rne_div(m, pow2(s + 1)) == (m / pow2(s) + sticky_or_parity(m, s)) / 2,
{
    let d = pow2(s);
    let dd = pow2(s + 1);
    lemma_pow2_pos(s);
    lemma_pow2_pos(s + 1);
    assert(dd == 2 * d) by {
        lemma_pow2_adds(s, 1);
        vstd::arithmetic::power2::lemma2_to64();
    }
    let q = m / dd;
    let r = m % dd;
    lemma_fundamental_div_mod(m as int, dd as int);
    let rb = r / d;
    let r2 = r % d;
    lemma_fundamental_div_mod(r as int, d as int);
    assert(rb < 2) by {
        lemma_div_is_ordered(r as int, (2 * d - 1) as int, d as int);
        assert((2 * d - 1) / (d as int) == 1) by {
            lemma_fundamental_div_mod_converse(2 * d - 1, d as int, 1, d - 1);
        }
    }
    assert(m == (2 * q + rb) * d + r2) by (nonlinear_arith)
        requires
            m == dd * q + r,
            r == d * rb + r2,
            dd == 2 * d,
    ;
    lemma_fundamental_div_mod_converse(m as int, d as int, (2 * q + rb) as int, r2 as int);
    let h = m / d;
    assert(h == 2 * q + rb);
    assert(m % d == r2);
    let u = sticky_or_parity(m, s);
    assert((2 * q) / 2 == q && (2 * q + 1) / 2 == q && (2 * q + 2) / 2 == q + 1) by {
        lemma_fundamental_div_mod_converse(2 * q as int, 2, q as int, 0);
        lemma_fundamental_div_mod_converse(2 * q as int + 1, 2, q as int, 1);
        lemma_fundamental_div_mod_converse(2 * q as int + 2, 2, q as int + 1, 0);
    }
    assert(r == rb * d + r2) by (nonlinear_arith)
        requires
            r == d * rb + r2,
    ;
    if rb == 0 {
        assert(r == r2);
        assert(2 * r < dd);
        assert(rne_div(m, dd) == q);
        assert((h + u) / 2 == q);
    } else {
        assert(r == d + r2);
        if r2 > 0 {
            assert(2 * r > dd);
            assert(u == 1);
            assert(rne_div(m, dd) == q + 1);
            assert((h + u) / 2 == q + 1);
        } else {
            assert(2 * r == dd);
            assert(m % d == 0);
            assert(u == if q % 2 == 1 { 1nat } else { 0nat });
            if q % 2 == 1 {
                assert(rne_div(m, dd) == q + 1);
                assert((h + u) / 2 == q + 1);
            } else {
                assert(rne_div(m, dd) == q);
                assert((h + u) / 2 == q);
            }
        }
    }
}

/// Scaling dividend and divisor by the same power of two does not change the
/// rounded quotient.
pub proof fn lemma_rne_div_scale(m: nat, k: nat, j: nat)
    ensures
        rne_div(m * pow2(j), pow2(k + j)) == rne_div(m, pow2(k)),
{
    let d = pow2(k);
    let jj = pow2(j);
    let dd = pow2(k + j);
    lemma_pow2_pos(k);
    lemma_pow2_pos(j);
    lemma_pow2_pos(k + j);
    lemma_pow2_adds(k, j);
    let q = m / d;
    let r = m % d;
    lemma_fundamental_div_mod(m as int, d as int);
    assert(m * jj == q * dd + r * jj) by {
        assert((q * d + r) * jj == q * d * jj + r * jj) by {
            vstd::arithmetic::mul::lemma_mul_is_distributive_add_other_way(
                jj as int,
                (q * d) as int,
                r as int,
            );
        }
        vstd::arithmetic::mul::lemma_mul_is_associative(q as int, d as int, jj as int);
    }
    assert(r * jj < dd) by {
        lemma_mul_strict_inequality(r as int, d as int, jj as int);
    }
    lemma_fundamental_div_mod_converse(
        (m * jj) as int,
        dd as int,
        q as int,
        (r * jj) as int,
    );
    assert(2 * (r * jj) == (2 * r) * jj) by {
        vstd::arithmetic::mul::lemma_mul_is_associative(2, r as int, jj as int);
    }
    if 2 * r > d {
        lemma_mul_strict_inequality(d as int, (2 * r) as int, jj as int);
    }
    if 2 * r < d {
        lemma_mul_strict_inequality((2 * r) as int, d as int, jj as int);
    }
}

/// With a common divisor, a larger dividend never rounds lower.
pub proof fn lemma_rne_div_mono_same(m1: nat, m2: nat, d: nat)
    requires
        d > 0,
        m1 <= m2,
    ensures
        rne_div(m1, d) <= rne_div(m2, d),
{
    let q1 = m1 / d;
    let q2 = m2 / d;
    lemma_div_is_ordered(m1 as int, m2 as int, d as int);
    lemma_fundamental_div_mod(m1 as int, d as int);
    lemma_fundamental_div_mod(m2 as int, d as int);
    if q1 == q2 {
        assert(m1 % d <= m2 % d);
    }
}

/// Rounding respects the ordering of the exact quotients, whatever the two
/// power-of-two divisors: if `m1 / pow2(k1) <= m2 / pow2(k2)` as exact
/// rationals, the rounded quotients are ordered the same way.
pub proof fn lemma_rne_div_mono(m1: nat, k1: nat, m2: nat, k2: nat)
    requires
        m1 * pow2(k2) <= m2 * pow2(k1),
    ensures
        rne_div(m1, pow2(k1)) <= rne_div(m2, pow2(k2)),
{
    lemma_rne_div_scale(m1, k1, k2);
    lemma_rne_div_scale(m2, k2, k1);
    lemma_pow2_pos(k1 + k2);
    assert(pow2(k2 + k1) == pow2(k1 + k2));
    lemma_rne_div_mono_same(m1 * pow2(k2), m2 * pow2(k1), pow2(k1 + k2));
}

/// An exact tie rounds to an even result.
pub proof fn lemma_rne_div_tie_even(m: nat, d: nat)
    requires
        d > 0,
        2 * (m % d) == d,
    ensures
        rne_div(m, d) % 2 == 0,
{
}

} // verus!
