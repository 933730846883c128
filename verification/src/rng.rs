//! A linear congruential generator: one multiplication and one addition modulo
//! two to the power of 64.

use vstd::arithmetic::power2::pow2;
use vstd::prelude::*;

verus! {

/// The multiplier.
pub const MULTIPLIER: u64 = 6364136223846793005;

/// The increment.
pub const INCREMENT: u64 = 1442695040888963407;

/// The state after one draw, which is also the number drawn.
pub open spec fn drawn(x: u64) -> u64 {
    ((x * MULTIPLIER + INCREMENT) % 0x1_0000_0000_0000_0000) as u64
}

/// The state after `n` draws.
pub open spec fn nth_drawn(x: u64, n: nat) -> u64
    decreases n,
{
    if n == 0 {
        x
    } else {
        nth_drawn(drawn(x), (n - 1) as nat)
    }
}

/// One draw more, made at the end instead of at the start.
pub proof fn lemma_one_more_draw(x: u64, n: nat)
    ensures
        nth_drawn(x, n + 1) == drawn(nth_drawn(x, n)),
    decreases n,
{
    if n > 0 {
        lemma_one_more_draw(drawn(x), (n - 1) as nat);
    } else {
        reveal_with_fuel(nth_drawn, 2);
    }
}

/// Draws a number.
pub fn draw(state: u64) -> (next: u64)
    ensures
        next == drawn(state),
{
    proof {
        let m = 0x1_0000_0000_0000_0000int;
        vstd::arithmetic::div_mod::lemma_mod_bound(state * MULTIPLIER, m);
        vstd::arithmetic::div_mod::lemma_add_mod_noop(state * MULTIPLIER, INCREMENT as int, m);
    }
    state.wrapping_mul(MULTIPLIER).wrapping_add(INCREMENT)
}

/// The generator over all integers, `n` times.
spec fn line(x: int, n: nat) -> int
    decreases n,
{
    if n == 0 {
        x
    } else {
        line(x * MULTIPLIER + INCREMENT, (n - 1) as nat)
    }
}

/// Draws are the integers of the line modulo two to the power of 64.
proof fn lemma_line_mod(x: u64, y: int, n: nat)
    requires
        y % 0x1_0000_0000_0000_0000 == x,
    ensures
        line(y, n) % 0x1_0000_0000_0000_0000 == nth_drawn(x, n),
    decreases n,
{
    if n > 0 {
        let m = 0x1_0000_0000_0000_0000int;
        let q = y / m;
        vstd::arithmetic::div_mod::lemma_fundamental_div_mod(y, m);
        let z = y * MULTIPLIER + INCREMENT;
        assert(z == (x * MULTIPLIER + INCREMENT) + m * (q * MULTIPLIER)) by (nonlinear_arith)
            requires
                y == m * q + x,
                z == y * MULTIPLIER + INCREMENT,
        ;
        vstd::arithmetic::div_mod::lemma_mod_multiples_vanish(
            q * MULTIPLIER,
            x * MULTIPLIER + INCREMENT,
            m,
        );
        assert(z % m == drawn(x));
        lemma_line_mod(drawn(x), z, (n - 1) as nat);
    }
}

/// Going `m` and then `n` steps is going `m + n` steps.
proof fn lemma_line_adds(x: int, m: nat, n: nat)
    ensures
        line(line(x, m), n) == line(x, m + n),
    decreases m,
{
    if m > 0 {
        lemma_line_adds(x * MULTIPLIER + INCREMENT, (m - 1) as nat, n);
    }
}

/// The slope of two to the power of `k` steps.
spec fn slope(k: nat) -> int
    decreases k,
{
    if k == 0 {
        MULTIPLIER as int
    } else {
        slope((k - 1) as nat) * slope((k - 1) as nat)
    }
}

/// Where two to the power of `k` steps take zero.
spec fn shift(k: nat) -> int
    decreases k,
{
    if k == 0 {
        INCREMENT as int
    } else {
        (slope((k - 1) as nat) + 1) * shift((k - 1) as nat)
    }
}

/// Two to the power of `k` steps are one straight step.
proof fn lemma_leap(x: int, k: nat)
    ensures
        line(x, pow2(k)) == slope(k) * x + shift(k),
    decreases k,
{
    vstd::arithmetic::power2::lemma_pow2_pos(k);
    if k == 0 {
        vstd::arithmetic::power2::lemma2_to64();
        reveal_with_fuel(line, 2);
        assert(x * MULTIPLIER == MULTIPLIER * x) by (nonlinear_arith);
    } else {
        let h = (k - 1) as nat;
        vstd::arithmetic::power2::lemma_pow2_unfold(k);
        lemma_line_adds(x, pow2(h), pow2(h));
        lemma_leap(x, h);
        lemma_leap(line(x, pow2(h)), h);
        let a = slope(h);
        let c = shift(h);
        assert(a * (a * x + c) + c == (a * a) * x + (a + 1) * c) by (nonlinear_arith);
    }
}

/// Slopes are one plus a multiple of `2^(k+2)`, shifts odd multiples of `2^k`.
proof fn lemma_leap_shape(k: nat) -> (mj: (int, int))
    ensures
        slope(k) == 1 + 4 * pow2(k) * mj.0,
        shift(k) == pow2(k) * (2 * mj.1 + 1),
    decreases k,
{
    if k == 0 {
        vstd::arithmetic::power2::lemma2_to64();
        let m = (MULTIPLIER as int - 1) / 4;
        let j = (INCREMENT as int - 1) / 2;
        assert(4 * pow2(k) * m == 4 * m && pow2(k) * (2 * j + 1) == 2 * j + 1) by (nonlinear_arith)
            requires
                pow2(k) == 1,
        ;
        (m, j)
    } else {
        let h = (k - 1) as nat;
        let (m, j) = lemma_leap_shape(h);
        vstd::arithmetic::power2::lemma_pow2_unfold(k);
        let p = pow2(h) as int;
        let a = slope(h);
        let c = shift(h);
        let m2 = m + 2 * p * m * m;
        let j2 = j + m * c;
        assert(a * a == 1 + 4 * (2 * p) * m2) by (nonlinear_arith)
            requires
                a == 1 + 4 * p * m,
                m2 == m + 2 * p * m * m,
        ;
        assert((a + 1) * c == (2 * p) * (2 * j2 + 1)) by (nonlinear_arith)
            requires
                a == 1 + 4 * p * m,
                c == p * (2 * j + 1),
                j2 == j + m * c,
        ;
        assert(4 * pow2(k) * m2 == 4 * (2 * p) * m2);
        (m2, j2)
    }
}

/// From everywhere some number of steps leads to any target, up to a multiple of
/// `2^k`.
proof fn lemma_close(x: int, t: int, k: nat) -> (nq: (nat, int))
    ensures
        line(x, nq.0) - t == pow2(k) * nq.1,
    decreases k,
{
    if k == 0 {
        vstd::arithmetic::power2::lemma2_to64();
        assert(pow2(k) * (x - t) == x - t) by (nonlinear_arith)
            requires
                pow2(k) == 1,
        ;
        (0, x - t)
    } else {
        let h = (k - 1) as nat;
        let (n, q) = lemma_close(x, t, h);
        vstd::arithmetic::power2::lemma_pow2_unfold(k);
        let p = pow2(h) as int;
        let y = line(x, n);
        if q % 2 == 0 {
            let r = q / 2;
            assert(p * q == (2 * p) * r) by (nonlinear_arith)
                requires
                    q == 2 * r,
            ;
            (n, r)
        } else {
            let r = q / 2;
            let (m, j) = lemma_leap_shape(h);
            lemma_leap(y, h);
            lemma_line_adds(x, n, pow2(h));
            let a = slope(h);
            let c = shift(h);
            let s = r + 2 * m * y + j + 1;
            assert(a * y + c - t == (2 * p) * s) by (nonlinear_arith)
                requires
                    y - t == p * q,
                    q == 2 * r + 1,
                    a == 1 + 4 * p * m,
                    c == p * (2 * j + 1),
                    s == r + 2 * m * y + j + 1,
            ;
            (n + pow2(h), s)
        }
    }
}

/// The generator has full period: from every state every number is drawn sooner
/// or later.
pub proof fn lemma_every_number_is_drawn(x: u64, target: u64) -> (n: nat)
    ensures
        n >= 1,
        nth_drawn(x, n) == target,
{
    let y = drawn(x);
    let (n, q) = lemma_close(y as int, target as int, 64);
    vstd::arithmetic::power2::lemma2_to64_rest();
    let m = 0x1_0000_0000_0000_0000int;
    lemma_line_mod(y, y as int, n);
    vstd::arithmetic::div_mod::lemma_mod_multiples_vanish(q, target as int, m);
    assert(m * q == pow2(64) * q);
    n + 1
}

/// What a draw gives is congruent, modulo two to the power of 64, to the last state
/// times 6364136223846793005 plus 1442695040888963407.
pub proof fn lemma_draw_is_congruent(x: u64)
    ensures
        (x * 6364136223846793005 + 1442695040888963407 - drawn(x)) % 0x1_0000_0000_0000_0000 == 0,
        nth_drawn(x, 0) == x,
        nth_drawn(x, 1) == drawn(x),
{
    reveal_with_fuel(nth_drawn, 2);
    let m = 0x1_0000_0000_0000_0000int;
    let z = x * MULTIPLIER + INCREMENT;
    vstd::arithmetic::div_mod::lemma_fundamental_div_mod(z, m);
    vstd::arithmetic::div_mod::lemma_mod_bound(z, m);
    vstd::arithmetic::div_mod::lemma_mod_multiples_basic(z / m, m);
    assert(z - z % m == (z / m) * m) by (nonlinear_arith)
        requires
            z == m * (z / m) + z % m,
    ;
}

} // verus!
