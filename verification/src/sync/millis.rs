//! A time in milliseconds to three decimals, digit for digit as the
//! double-precision number of milliseconds prints: the seconds and the fraction
//! of a second are added up and multiplied as doubles, each step rounded to the
//! nearest double, and the result is rounded to the nearest thousandth. A value
//! in the middle goes to the even neighbour throughout.

use vstd::prelude::*;

verus! {

/// How many steps a second is counted in here: two to the power of 82. Every
/// double from a nanosecond upwards is a whole number of them.
pub const STEPS: u128 = 4835703278458516698824704;

/// How many values the 53 bits of a double's significand tell apart.
pub const SIGNIFICANDS: u128 = 9007199254740992;

/// How many nanoseconds a second has.
pub const SECOND: u64 = 1_000_000_000;

/// `n / d`, rounded to the nearest whole number.
pub open spec fn half_even(n: nat, d: nat) -> nat {
    let (q, r) = (n / d, n % d);
    if 2 * r < d || (2 * r == d && q % 2 == 0) {
        q
    } else {
        q + 1
    }
}

/// How far apart doubles of this size are: `q`, doubled until 53 bits are
/// enough.
pub open spec fn grain(x: nat, q: nat) -> nat
    decreases x - q,
{
    if q == 0 || x < SIGNIFICANDS * q {
        q
    } else {
        grain(x, 2 * q)
    }
}

/// The double nearest to `n / d`.
pub open spec fn nearest(n: nat, d: nat) -> nat {
    let q = grain(n / d, 1);
    half_even(n, d * q) * q
}

/// How many thousandths of a millisecond a time prints as.
pub open spec fn micros(nanos: u64) -> nat {
    let fraction = nearest((nanos % SECOND) as nat * STEPS as nat, SECOND as nat);
    let seconds = nearest((nanos / SECOND) as nat * STEPS as nat + fraction, 1);
    let millis = nearest(seconds * 1000, 1);
    half_even(millis * 1000, STEPS as nat)
}

fn round(n: u128, d: u128) -> (r: u128)
    requires
        0 < d <= u128::MAX / 2,
    ensures
        r == half_even(n as nat, d as nat),
        r <= n / d + 1,
{
    let q: u128 = n / d;
    let r: u128 = n % d;
    if 2 * r < d || (2 * r == d && q % 2 == 0) {
        q
    } else {
        assert(q < u128::MAX) by {
            if q == u128::MAX {
                assert(n == d * q + r) by (nonlinear_arith)
                    requires
                        q == n / d,
                        r == n % d,
                        d > 0,
                ;
                assert(d == 1) by (nonlinear_arith)
                    requires
                        n == d * q + r,
                        q == u128::MAX,
                        n <= u128::MAX,
                        d > 0,
                        r >= 0,
                ;
            }
        }
        q + 1
    }
}

fn find_grain(x: u128) -> (r: u128)
    ensures
        r == grain(x as nat, 1),
        r >= 1,
        r == 1 || r * 0x10_0000_0000_0000 <= x,
{
    let mut q: u128 = 1;
    while x / SIGNIFICANDS >= q
        invariant
            1 <= q,
            q == 1 || q * 0x10_0000_0000_0000 <= x,
            grain(x as nat, 1) == grain(x as nat, q as nat),
        decreases x - q,
    {
        assert(x >= SIGNIFICANDS * q);
        q = 2 * q;
    }
    q
}

fn round_to_double(n: u128, d: u128) -> (r: u128)
    requires
        0 < d <= SECOND,
        n <= 0x8000_0000_0000_0000_0000_0000_0000_0000,
    ensures
        r == nearest(n as nat, d as nat),
        r <= n / d + n / d / 0x10_0000_0000_0000 + 1,
{
    let x: u128 = n / d;
    let q = find_grain(x);
    proof {
        assert(x <= n) by (nonlinear_arith)
            requires
                x == n / d,
                d > 0,
        ;
        assert(d * q <= 1_000_000_000 * q) by (nonlinear_arith)
            requires
                d <= 1_000_000_000,
        ;
        assert(0 < d * q) by (nonlinear_arith)
            requires
                d > 0,
                q > 0,
        ;
    }
    let m = round(n, d * q);
    proof {
        lemma_back(n as int, d as int, q as int, x as int, m as int);
    }
    m * q
}

proof fn lemma_back(n: int, d: int, q: int, x: int, m: int)
    requires
        n >= 0,
        d > 0,
        q > 0,
        x == n / d,
        0 <= m <= n / (d * q) + 1,
    ensures
        m * q <= x + q,
        0 <= m * q,
{
    vstd::arithmetic::div_mod::lemma_div_denominator(n, d, q);
    let y = x / q;
    assert(y * q <= x) by (nonlinear_arith)
        requires
            y == x / q,
            q > 0,
    ;
    assert(m * q <= y * q + q) by (nonlinear_arith)
        requires
            m <= y + 1,
            q > 0,
    ;
    assert(0 <= m * q) by (nonlinear_arith)
        requires
            m >= 0,
            q > 0,
    ;
}

/// How many thousandths of a millisecond a time prints as.
pub fn count_micros(nanos: u64) -> (r: u128)
    ensures
        r == micros(nanos),
{
    let fraction = round_to_double((nanos % SECOND) as u128 * STEPS, SECOND as u128);
    let seconds = round_to_double((nanos / SECOND) as u128 * STEPS + fraction, 1);
    let millis = round_to_double(seconds * 1000, 1);
    let whole: u128 = millis / STEPS;
    let rest: u128 = millis % STEPS;
    let r = round(rest * 1000, STEPS);
    proof {
        let (w, f, s) = (whole as nat, rest as nat, STEPS as nat);
        assert(millis as nat * 1000 == (w * 1000) * s + f * 1000);
        assert((millis as nat * 1000) / s == w * 1000 + (f * 1000) / s);
        assert((millis as nat * 1000) % s == (f * 1000) % s);
    }
    whole * 1000 + r
}

} // verus!
