//! The weights of pieces: binary logarithms of their counts in fixed point.
//!
//! A weight is a whole number of units of 2^-16 bit. The logarithm of a count
//! is worked out in integers alone, so a vocabulary has the same weights, and
//! a text the same tokens, on every machine.

use vstd::arithmetic::power2::lemma2_to64;
use vstd::arithmetic::power2::lemma_pow2_pos;
use vstd::arithmetic::power2::lemma_pow2_unfold;
use vstd::arithmetic::power2::pow2;
use vstd::arithmetic::power::pow;
use vstd::prelude::*;

verus! {

/// The number of binary places of a weight.
pub const FRACTION_BITS: usize = 16;

/// The weight that stands for one bit.
pub const ONE_BIT: i64 = 0x1_0000;

/// The whole part of the binary logarithm of `n`: the number of times `n` can
/// be halved before it falls to one. For `n` of at least one it is the `e` with
/// `pow2(e) <= n < pow2(e + 1)`.
pub open spec fn floor_log2(n: nat) -> nat
    decreases n,
{
    if n <= 1 {
        0
    } else {
        1 + floor_log2(n / 2)
    }
}

/// `n` scaled by a power of two into the range from 2^63 up to, but not
/// including, 2^64, and cut to a whole number: 2^63 times the mantissa of `n`.
pub open spec fn mantissa(n: nat) -> nat {
    let e = floor_log2(n);
    if e <= 63 {
        n * pow2((63 - e) as nat)
    } else {
        n / pow2((e - 63) as nat)
    }
}

/// 2^63 times the square of the mantissa `x`, cut to a whole number.
pub open spec fn squared(x: nat) -> nat {
    x * x / 0x8000_0000_0000_0000
}

/// The logarithm `acc` with `bits` more binary places, for a number whose
/// mantissa is `x`. Each place comes from squaring the mantissa, which doubles
/// its logarithm: the place is one where the square reaches two, and the
/// square is then halved to be a mantissa again.
pub open spec fn refine(x: nat, bits: nat, acc: nat) -> nat
    decreases bits,
{
    if bits == 0 {
        acc
    } else if squared(x) >= 0x1_0000_0000_0000_0000 {
        refine(squared(x) / 2, (bits - 1) as nat, 2 * acc + 1)
    } else {
        refine(squared(x), (bits - 1) as nat, 2 * acc)
    }
}

/// The binary logarithm of `n` in units of 2^-16, and zero for `n` zero.
pub open spec fn log2_fixed(n: nat) -> nat {
    refine(mantissa(n), FRACTION_BITS as nat, floor_log2(n))
}

/// The weight of a piece that was counted `count` times among `total`: the
/// logarithm of its share, `None` for a piece that was never counted.
pub open spec fn weight_of(count: nat, total: nat) -> Option<i64> {
    if count == 0 {
        None
    } else {
        Some((log2_fixed(count) - log2_fixed(total)) as i64)
    }
}

/// `floor_log2(n)` is the exponent of the largest power of two that is not
/// above `n`.
pub proof fn lemma_floor_log2(n: nat)
    requires
        n >= 1,
    ensures
        pow2(floor_log2(n)) <= n < pow2(floor_log2(n) + 1),
    decreases n,
{
    lemma2_to64();
    if n > 1 {
        lemma_floor_log2(n / 2);
        lemma_pow2_unfold(floor_log2(n));
        lemma_pow2_unfold(floor_log2(n) + 1);
    }
}

/// The logarithm keeps its whole part through every further binary place.
pub proof fn lemma_refine_bounds(x: nat, bits: nat, acc: nat)
    ensures
        acc * pow2(bits) <= refine(x, bits, acc) < (acc + 1) * pow2(bits),
    decreases bits,
{
    lemma2_to64();
    if bits > 0 {
        lemma_pow2_unfold(bits);
        let rest = (bits - 1) as nat;
        lemma_pow2_pos(rest);
        if squared(x) >= 0x1_0000_0000_0000_0000 {
            lemma_refine_bounds(squared(x) / 2, rest, 2 * acc + 1);
            assert((2 * acc + 1) * pow2(rest) >= acc * (2 * pow2(rest))) by (nonlinear_arith);
            assert((2 * acc + 1 + 1) * pow2(rest) == (acc + 1) * (2 * pow2(rest)))
                by (nonlinear_arith);
        } else {
            lemma_refine_bounds(squared(x), rest, 2 * acc);
            assert((2 * acc) * pow2(rest) == acc * (2 * pow2(rest))) by (nonlinear_arith);
            assert((2 * acc + 1) * pow2(rest) <= (acc + 1) * (2 * pow2(rest)))
                by (nonlinear_arith);
        }
    }
}

/// The fixed-point logarithm of `n` lies between the whole part of the
/// logarithm and the next whole number.
pub proof fn lemma_log2_fixed_bounds(n: nat)
    ensures
        floor_log2(n) * 0x1_0000 <= log2_fixed(n) < (floor_log2(n) + 1) * 0x1_0000,
{
    lemma2_to64();
    lemma_refine_bounds(mantissa(n), 16, floor_log2(n));
}

/// The whole part of the binary logarithm of `n`.
pub fn floor_log2_of(n: u128) -> (e: u32)
    ensures
        e == floor_log2(n as nat),
        e <= 127,
{
    let mut rest: u128 = n;
    let mut e: u32 = 0;
    proof {
        lemma2_to64();
    }
    while rest > 1
        invariant
            floor_log2(n as nat) == e + floor_log2(rest as nat),
            e <= 127,
            rest as nat * pow2(e as nat) <= n,
        decreases rest,
    {
        proof {
            lemma_pow2_unfold((e + 1) as nat);
            assert((rest / 2) as nat * (2 * pow2(e as nat)) <= rest as nat * pow2(e as nat))
                by (nonlinear_arith);
            if e == 127 {
                lemma_pow2_128();
                assert((rest / 2) as nat * pow2(128) >= pow2(128)) by (nonlinear_arith)
                    requires
                        rest / 2 >= 1,
                ;
            }
        }
        rest = rest / 2;
        e = e + 1;
    }
    e
}

proof fn lemma_pow2_128()
    ensures
        pow2(128) == 0x1_0000_0000_0000_0000_0000_0000_0000_0000,
{
    lemma2_to64();
    vstd::arithmetic::power2::lemma_pow2_adds(64, 64);
}

/// 2^63 times the mantissa of `n`, cut to a whole number.
pub fn mantissa_of(n: u128) -> (x: u128)
    requires
        n >= 1,
    ensures
        x == mantissa(n as nat),
        0x8000_0000_0000_0000 <= x < 0x1_0000_0000_0000_0000,
{
    let e: u32 = floor_log2_of(n);
    let mut x: u128 = n;
    let mut at: u32 = e;
    proof {
        lemma2_to64();
        lemma_floor_log2(n as nat);
        assert(n * pow2(0) == n);
        assert(n as nat / pow2(0) == n);
    }
    if e <= 63 {
        while at < 63
            invariant
                e <= at <= 63,
                x == n * pow2((at - e) as nat),
                pow2(at as nat) <= x < pow2((at + 1) as nat),
            decreases 63 - at,
        {
            proof {
                lemma2_to64();
                lemma_pow2_unfold((at + 1 - e) as nat);
                lemma_pow2_unfold((at + 1) as nat);
                lemma_pow2_unfold((at + 2) as nat);
                vstd::arithmetic::power2::lemma_pow2_strictly_increases((at + 1) as nat, 64);
                assert(n * (2 * pow2((at - e) as nat)) == 2 * (n * pow2((at - e) as nat)))
                    by (nonlinear_arith);
            }
            x = x * 2;
            at = at + 1;
        }
    } else {
        while at > 63
            invariant
                63 <= at <= e,
                x == n as nat / pow2((e - at) as nat),
                pow2(at as nat) <= x < pow2((at + 1) as nat),
            decreases at,
        {
            proof {
                lemma_pow2_unfold((e - at + 1) as nat);
                lemma_pow2_unfold(at as nat);
                lemma_pow2_unfold((at + 1) as nat);
                lemma_pow2_pos((e - at) as nat);
                vstd::arithmetic::div_mod::lemma_div_denominator(
                    n as int,
                    pow2((e - at) as nat) as int,
                    2,
                );
                assert(pow2((e - at) as nat) * 2 == 2 * pow2((e - at) as nat)) by (nonlinear_arith);
            }
            x = x / 2;
            at = at - 1;
        }
    }
    proof {
        vstd::arithmetic::power2::lemma2_to64_rest();
    }
    x
}

/// The binary logarithm of `n` in units of 2^-16, and zero for `n` zero.
///
/// Its whole part is exact. Its sixteen binary places come from squaring the
/// mantissa sixteen times in 64-bit fixed point, each square cut to a whole
/// number. The result is never above the logarithm and less than two units
/// below it.
pub fn log2_fixed_of(n: u128) -> (r: i64)
    ensures
        r == log2_fixed(n as nat),
        floor_log2(n as nat) * 0x1_0000 <= r < (floor_log2(n as nat) + 1) * 0x1_0000,
        0 <= r < 0x80_0000,
        n >= 1 ==> pow2(r as nat) <= pow(n as int, 65536) < pow2((r + 2) as nat),
{
    proof {
        lemma_log2_fixed_bounds(n as nat);
        lemma2_to64();
        if n >= 1 {
            lemma_log2_fixed_below(n as nat);
            lemma_log2_fixed_above(n as nat);
        }
    }
    if n == 0 {
        proof {
            assert(mantissa(0) == 0);
            lemma_refine_zero(FRACTION_BITS as nat);
        }
        return 0;
    }
    let e: u32 = floor_log2_of(n);
    let mut x: u128 = mantissa_of(n);
    let mut acc: u64 = e as u64;
    let mut done: usize = 0;
    while done < FRACTION_BITS
        invariant
            done <= FRACTION_BITS,
            0x8000_0000_0000_0000 <= x < 0x1_0000_0000_0000_0000,
            acc < 128 * pow2(done as nat),
            log2_fixed(n as nat) == refine(x as nat, (FRACTION_BITS - done) as nat, acc as nat),
        decreases FRACTION_BITS - done,
    {
        proof {
            lemma2_to64();
            lemma_pow2_unfold((done + 1) as nat);
            vstd::arithmetic::power2::lemma_pow2_strictly_increases(done as nat, 17);
            assert(x * x < 0x1_0000_0000_0000_0000 * 0x1_0000_0000_0000_0000) by (nonlinear_arith)
                requires
                    0 <= x < 0x1_0000_0000_0000_0000,
            ;
            assert(x * x >= 0x8000_0000_0000_0000 * 0x8000_0000_0000_0000) by (nonlinear_arith)
                requires
                    x >= 0x8000_0000_0000_0000,
            ;
        }
        let y: u128 = x * x / 0x8000_0000_0000_0000;
        if y >= 0x1_0000_0000_0000_0000 {
            x = y / 2;
            acc = 2 * acc + 1;
        } else {
            x = y;
            acc = 2 * acc;
        }
        done += 1;
    }
    acc as i64
}

proof fn lemma_refine_zero(bits: nat)
    ensures
        refine(0, bits, 0) == 0,
    decreases bits,
{
    if bits > 0 {
        assert(squared(0) == 0);
        lemma_refine_zero((bits - 1) as nat);
    }
}

/// The weight of a piece that was counted `count` times among `total`.
pub fn weight(count: usize, total: u128) -> (w: Option<i64>)
    ensures
        w == weight_of(count as nat, total as nat),
{
    if count == 0 {
        None
    } else {
        Some(log2_fixed_of(count as u128) - log2_fixed_of(total))
    }
}

/// A larger number has no smaller whole part of its logarithm.
pub proof fn lemma_floor_log2_ordered(a: nat, b: nat)
    requires
        a <= b,
    ensures
        floor_log2(a) <= floor_log2(b),
    decreases b,
{
    if a > 1 {
        lemma_floor_log2_ordered(a / 2, b / 2);
    }
}

/// Of two mantissas with the same logarithm so far, the larger has no
/// smaller logarithm in the end; and a smaller logarithm so far stays
/// smaller.
pub proof fn lemma_refine_ordered(x: nat, y: nat, bits: nat, a: nat, b: nat)
    requires
        a < b || (a == b && x <= y),
    ensures
        refine(x, bits, a) <= refine(y, bits, b),
    decreases bits,
{
    lemma_refine_bounds(x, bits, a);
    lemma_refine_bounds(y, bits, b);
    if a < b {
        assert((a + 1) * pow2(bits) <= b * pow2(bits)) by (nonlinear_arith)
            requires
                a + 1 <= b,
        ;
    } else if bits > 0 {
        assert(x * x <= y * y) by (nonlinear_arith)
            requires
                x <= y,
        ;
        let rest = (bits - 1) as nat;
        let next_x = squared(x);
        let next_y = squared(y);
        assert(next_x <= next_y);
        if next_x >= 0x1_0000_0000_0000_0000 {
            lemma_refine_ordered(next_x / 2, next_y / 2, rest, 2 * a + 1, 2 * b + 1);
        } else if next_y >= 0x1_0000_0000_0000_0000 {
            lemma_refine_ordered(next_x, next_y / 2, rest, 2 * a, 2 * b + 1);
        } else {
            lemma_refine_ordered(next_x, next_y, rest, 2 * a, 2 * b);
        }
    }
}

/// A larger number has no smaller fixed-point logarithm.
pub proof fn lemma_log2_fixed_ordered(a: nat, b: nat)
    requires
        a <= b,
    ensures
        log2_fixed(a) <= log2_fixed(b),
{
    lemma_floor_log2_ordered(a, b);
    let e = floor_log2(a);
    if e == floor_log2(b) {
        if e <= 63 {
            assert(a * pow2((63 - e) as nat) <= b * pow2((63 - e) as nat)) by (nonlinear_arith)
                requires
                    a <= b,
            ;
        } else {
            lemma_pow2_pos((e - 63) as nat);
            vstd::arithmetic::div_mod::lemma_div_is_ordered(
                a as int,
                b as int,
                pow2((e - 63) as nat) as int,
            );
        }
    }
    lemma_refine_ordered(
        mantissa(a),
        mantissa(b),
        FRACTION_BITS as nat,
        floor_log2(a),
        floor_log2(b),
    );
}

/// A piece that was counted no more often than all pieces together has a
/// weight of zero at most.
pub proof fn lemma_weight_not_positive(count: nat, total: nat)
    requires
        0 < count <= total,
        total <= u128::MAX,
    ensures
        weight_of(count, total) is Some,
        -0x80_0000 < weight_of(count, total).unwrap() <= 0,
        weight_of(count, total).unwrap() == log2_fixed(count) - log2_fixed(total),
{
    lemma_log2_fixed_ordered(count, total);
    lemma_log2_fixed_bounds(count);
    lemma_log2_fixed_bounds(total);
    lemma_pow2_128();
    lemma_floor_log2_below(total, 128);
    assert((floor_log2(total) + 1) * 0x1_0000 <= 128 * 0x1_0000) by (nonlinear_arith)
        requires
            floor_log2(total) + 1 <= 128,
    ;
}

/// A number below `pow2(e)` has a logarithm whose whole part is below `e`.
pub proof fn lemma_floor_log2_below(n: nat, e: nat)
    requires
        n < pow2(e),
        e >= 1,
    ensures
        floor_log2(n) < e,
    decreases e,
{
    lemma_pow2_unfold(e);
    if n > 1 {
        if e == 1 {
            lemma2_to64();
        } else {
            lemma_floor_log2_below(n / 2, (e - 1) as nat);
        }
    }
}

/// The whole part of the logarithm of a power of two is its exponent.
pub proof fn lemma_floor_log2_pow2(e: nat)
    ensures
        floor_log2(pow2(e)) == e,
    decreases e,
{
    lemma2_to64();
    if e > 0 {
        lemma_pow2_unfold(e);
        lemma_pow2_pos((e - 1) as nat);
        lemma_floor_log2_pow2((e - 1) as nat);
        assert(pow2(e) / 2 == pow2((e - 1) as nat));
    }
}

/// The mantissa one keeps a logarithm whole through every binary place.
proof fn lemma_refine_one(bits: nat, acc: nat)
    ensures
        refine(0x8000_0000_0000_0000, bits, acc) == acc * pow2(bits),
    decreases bits,
{
    lemma2_to64();
    if bits == 0 {
        assert(acc * pow2(0) == acc) by (nonlinear_arith)
            requires
                pow2(0) == 1,
        ;
    } else {
        let one: nat = 0x8000_0000_0000_0000;
        assert(one * one / 0x8000_0000_0000_0000 == one) by (nonlinear_arith)
            requires
                one == 0x8000_0000_0000_0000,
        ;
        assert(squared(one) == one);
        lemma_refine_one((bits - 1) as nat, 2 * acc);
        lemma_pow2_unfold(bits);
        assert((2 * acc) * pow2((bits - 1) as nat) == acc * (2 * pow2((bits - 1) as nat)))
            by (nonlinear_arith);
    }
}

/// The fixed-point logarithm of a power of two is exact: its exponent, in
/// units of 2^-16.
pub proof fn lemma_log2_fixed_pow2(e: nat)
    requires
        e <= 127,
    ensures
        log2_fixed(pow2(e)) == e * 0x1_0000,
{
    lemma2_to64();
    lemma_floor_log2_pow2(e);
    let n = pow2(e);
    if e <= 63 {
        vstd::arithmetic::power2::lemma_pow2_adds(e, (63 - e) as nat);
        vstd::arithmetic::power2::lemma2_to64_rest();
    } else {
        vstd::arithmetic::power2::lemma_pow2_adds(63, (e - 63) as nat);
        vstd::arithmetic::power2::lemma2_to64_rest();
        lemma_pow2_pos((e - 63) as nat);
        vstd::arithmetic::div_mod::lemma_div_multiples_vanish(
            0x8000_0000_0000_0000,
            pow2((e - 63) as nat) as int,
        );
    }
    assert(mantissa(n) == 0x8000_0000_0000_0000);
    lemma_refine_one(FRACTION_BITS as nat, e);
}

/// Where `pow2(acc)` times the mantissa `x` is no more than 2^63 times `p`,
/// two to the refined logarithm is no more than `p` to the power of two to
/// the number of places.
proof fn lemma_refine_below(x: nat, bits: nat, acc: nat, p: nat)
    requires
        0x8000_0000_0000_0000 <= x,
        pow2(acc) * x <= p * 0x8000_0000_0000_0000,
    ensures
        pow2(refine(x, bits, acc)) <= pow(p as int, pow2(bits)),
    decreases bits,
{
    lemma2_to64();
    let unit: nat = 0x8000_0000_0000_0000;
    let a = pow2(acc);
    if bits == 0 {
        vstd::arithmetic::power::lemma_pow1(p as int);
        assert(a <= p) by (nonlinear_arith)
            requires
                a * x <= p * unit,
                unit <= x,
                unit > 0,
        ;
    } else {
        let rest = (bits - 1) as nat;
        let s = squared(x);
        let q = p * p;
        vstd::arithmetic::power2::lemma_pow2_adds(acc, acc);
        lemma_pow2_unfold(2 * acc + 1);
        lemma_pow2_unfold(bits);
        vstd::arithmetic::div_mod::lemma_remainder_lower((x * x) as int, unit as int);
        assert(s * unit <= x * x);
        assert((a * x) * (a * x) <= (p * unit) * (p * unit)) by (nonlinear_arith)
            requires
                a * x <= p * unit,
        ;
        assert((a * a) * (s * unit) <= (a * x) * (a * x)) by (nonlinear_arith)
            requires
                s * unit <= x * x,
        ;
        assert((a * a) * s <= q * unit) by (nonlinear_arith)
            requires
                (a * a) * (s * unit) <= (p * unit) * (p * unit),
                q == p * p,
                unit > 0,
        ;
        assert(s >= unit) by (nonlinear_arith)
            requires
                s == x * x / unit,
                unit <= x,
                unit == 0x8000_0000_0000_0000,
        ;
        vstd::arithmetic::power::lemma_square_is_pow2(p as int);
        vstd::arithmetic::power::lemma_pow_multiplies(p as int, 2, pow2(rest));
        assert(pow(q as int, pow2(rest)) == pow(p as int, pow2(bits)));
        if s >= 0x1_0000_0000_0000_0000 {
            assert(pow2(2 * acc + 1) * (s / 2) <= q * unit) by (nonlinear_arith)
                requires
                    pow2(2 * acc + 1) == 2 * (a * a),
                    (a * a) * s <= q * unit,
            ;
            lemma_refine_below(s / 2, rest, 2 * acc + 1, q);
        } else {
            lemma_refine_below(s, rest, 2 * acc, q);
        }
    }
}

/// The fixed-point logarithm is never above the logarithm. With `r` the
/// fixed-point logarithm of `n`, two to the power `r` is no more than `n` to
/// the power 65536: `r / 65536` is no more than the binary logarithm of `n`.
pub proof fn lemma_log2_fixed_below(n: nat)
    requires
        n >= 1,
    ensures
        pow2(log2_fixed(n)) <= pow(n as int, 65536),
{
    lemma2_to64();
    vstd::arithmetic::power2::lemma2_to64_rest();
    lemma_floor_log2(n);
    let e = floor_log2(n);
    let unit: nat = 0x8000_0000_0000_0000;
    let x = mantissa(n);
    if e <= 63 {
        let up = pow2((63 - e) as nat);
        vstd::arithmetic::power2::lemma_pow2_adds(e, (63 - e) as nat);
        assert(pow2(e) * (n * up) == n * unit) by (nonlinear_arith)
            requires
                pow2(e) * up == unit,
        ;
        assert(n * up >= unit) by (nonlinear_arith)
            requires
                pow2(e) * up == unit,
                pow2(e) <= n,
        ;
    } else {
        let down = pow2((e - 63) as nat);
        lemma_pow2_pos((e - 63) as nat);
        vstd::arithmetic::power2::lemma_pow2_adds(63, (e - 63) as nat);
        vstd::arithmetic::div_mod::lemma_remainder_lower(n as int, down as int);
        assert(pow2(e) * (n / down) <= n * unit) by (nonlinear_arith)
            requires
                pow2(e) == unit * down,
                (n / down) * down <= n,
        ;
        vstd::arithmetic::div_mod::lemma_div_is_ordered(pow2(e) as int, n as int, down as int);
        vstd::arithmetic::div_mod::lemma_div_multiples_vanish(unit as int, down as int);
        assert(pow2(e) == unit * down);
        assert((unit * down) / down == unit);
    }
    lemma_refine_below(x, FRACTION_BITS as nat, e, n);
    assert(pow2(16) == 65536);
}

/// Where 2^63 times `p` is below `pow2(acc)` times a little more than the
/// mantissa `x`, `p` to the power of two to the number of places is below two
/// to the refined logarithm and two. The little more, `slack`, is what cutting
/// the squares to whole numbers has lost so far; it grows at most eightfold
/// with every place.
proof fn lemma_refine_above(x: nat, bits: nat, acc: nat, p: nat, slack: nat)
    requires
        0x8000_0000_0000_0000 <= x < 0x1_0000_0000_0000_0000,
        1 <= slack,
        slack * pow2(3 * bits) <= 0x8000_0000_0000_0000,
        p * 0x8000_0000_0000_0000 < pow2(acc) * (x + slack),
    ensures
        pow(p as int, pow2(bits)) < pow2(refine(x, bits, acc) + 2),
    decreases bits,
{
    lemma2_to64();
    let unit: nat = 0x8000_0000_0000_0000;
    let a = pow2(acc);
    lemma_pow2_pos(3 * bits);
    assert(slack <= unit) by (nonlinear_arith)
        requires
            slack * pow2(3 * bits) <= unit,
            pow2(3 * bits) >= 1,
    ;
    if bits == 0 {
        vstd::arithmetic::power::lemma_pow1(p as int);
        vstd::arithmetic::power2::lemma_pow2_adds(acc, 2);
        assert(p < a * 4) by (nonlinear_arith)
            requires
                p * unit < a * (x + slack),
                x + slack < 4 * unit,
                unit > 0,
        ;
    } else {
        let rest = (bits - 1) as nat;
        let s = squared(x);
        let q = p * p;
        let next = 5 * slack + 1;
        vstd::arithmetic::power2::lemma_pow2_adds(acc, acc);
        lemma_pow2_unfold(2 * acc + 1);
        lemma_pow2_unfold(bits);
        vstd::arithmetic::power2::lemma_pow2_adds(3, 3 * rest);
        assert(next * pow2(3 * rest) <= unit) by (nonlinear_arith)
            requires
                slack * pow2(3 * bits) <= unit,
                pow2(3 * bits) == 8 * pow2(3 * rest),
                next <= 8 * slack,
        ;
        vstd::arithmetic::div_mod::lemma_fundamental_div_mod((x * x) as int, unit as int);
        vstd::arithmetic::div_mod::lemma_mod_bound((x * x) as int, unit as int);
        assert(x * x < (s + 1) * unit) by (nonlinear_arith)
            requires
                (x * x) as int == unit * ((x * x) as int / unit as int) + (x * x) as int
                    % unit as int,
                (x * x) as int % (unit as int) < unit,
                s == (x * x) as int / unit as int,
        ;
        assert((x + slack) * (x + slack) < (s + next) * unit) by (nonlinear_arith)
            requires
                x * x < (s + 1) * unit,
                x < 2 * unit,
                1 <= slack <= unit,
                next == 5 * slack + 1,
        ;
        assert((p * unit) * (p * unit) < (a * (x + slack)) * (a * (x + slack)))
            by (nonlinear_arith)
            requires
                p * unit < a * (x + slack),
        ;
        assert(q * unit < (a * a) * (s + next)) by (nonlinear_arith)
            requires
                (p * unit) * (p * unit) < (a * (x + slack)) * (a * (x + slack)),
                (x + slack) * (x + slack) < (s + next) * unit,
                q == p * p,
                unit > 0,
        ;
        assert(unit <= s < 4 * unit) by (nonlinear_arith)
            requires
                s == x * x / unit,
                unit <= x < 2 * unit,
                unit == 0x8000_0000_0000_0000,
        ;
        vstd::arithmetic::power::lemma_square_is_pow2(p as int);
        vstd::arithmetic::power::lemma_pow_multiplies(p as int, 2, pow2(rest));
        assert(pow(q as int, pow2(rest)) == pow(p as int, pow2(bits)));
        if s >= 0x1_0000_0000_0000_0000 {
            assert(q * unit < pow2(2 * acc + 1) * (s / 2 + next)) by (nonlinear_arith)
                requires
                    pow2(2 * acc + 1) == 2 * (a * a),
                    q * unit < (a * a) * (s + next),
                    s <= 2 * (s / 2) + 1,
                    next >= 1,
            ;
            lemma_refine_above(s / 2, rest, 2 * acc + 1, q, next);
        } else {
            lemma_refine_above(s, rest, 2 * acc, q, next);
        }
    }
}

/// The fixed-point logarithm is less than two units below the logarithm.
/// With `r` the fixed-point logarithm of `n`, `n` to the power 65536 is below
/// two to the power `r + 2`: the binary logarithm of `n` is below
/// `(r + 2) / 65536`.
pub proof fn lemma_log2_fixed_above(n: nat)
    requires
        n >= 1,
    ensures
        pow(n as int, 65536) < pow2(log2_fixed(n) + 2),
{
    lemma2_to64();
    vstd::arithmetic::power2::lemma2_to64_rest();
    lemma_floor_log2(n);
    let e = floor_log2(n);
    let unit: nat = 0x8000_0000_0000_0000;
    let x = mantissa(n);
    lemma_pow2_unfold(e + 1);
    if e <= 63 {
        let up = pow2((63 - e) as nat);
        lemma_pow2_pos((63 - e) as nat);
        vstd::arithmetic::power2::lemma_pow2_adds(e, (63 - e) as nat);
        assert(n * unit < pow2(e) * (n * up + 1)) by (nonlinear_arith)
            requires
                pow2(e) * up == unit,
                pow2(e) > 0,
        ;
        assert(unit <= n * up < 2 * unit) by (nonlinear_arith)
            requires
                pow2(e) * up == unit,
                pow2(e) <= n < 2 * pow2(e),
                up > 0,
        ;
    } else {
        let down = pow2((e - 63) as nat);
        lemma_pow2_pos((e - 63) as nat);
        vstd::arithmetic::power2::lemma_pow2_adds(63, (e - 63) as nat);
        vstd::arithmetic::div_mod::lemma_fundamental_div_mod(n as int, down as int);
        vstd::arithmetic::div_mod::lemma_mod_bound(n as int, down as int);
        assert(n * unit < pow2(e) * (n / down + 1)) by (nonlinear_arith)
            requires
                pow2(e) == unit * down,
                n as int == down * (n as int / down as int) + n as int % down as int,
                n as int % (down as int) < down,
                unit > 0,
        ;
        assert(unit <= n / down < 2 * unit) by (nonlinear_arith)
            requires
                pow2(e) == unit * down,
                pow2(e) <= n < 2 * pow2(e),
                down > 0,
        ;
    }
    vstd::arithmetic::power2::lemma_pow2_strictly_increases(48, 63);
    assert(1 * pow2(48) <= unit);
    lemma_refine_above(x, FRACTION_BITS as nat, e, n, 1);
    assert(pow2(16) == 65536);
}

} // verus!
