use vstd::prelude::*;

verus! {

/// Quotient of `a / n` rounded toward negative infinity. For `n > 0` this is
/// exactly the mathematical (Euclidean) quotient `a / n` on `int`.
pub open spec fn floor_div(a: int, n: int) -> int {
    a / n
}

/// Quotient of `a / n` rounded toward zero, as Rust's `/` rounds.
pub open spec fn trunc_div(a: int, n: int) -> int {
    if a >= 0 {
        a / n
    } else {
        -((-a) / n)
    }
}

/// The integer square root: the greatest `r` with `r * r <= n`.
pub open spec fn sqrt_floor(n: int) -> int
    decreases n,
{
    if n < 1 {
        0
    } else {
        let r = sqrt_floor(n - 1);
        if (r + 1) * (r + 1) <= n {
            r + 1
        } else {
            r
        }
    }
}

/// `sqrt_floor` is the floor of the square root.
pub proof fn lemma_sqrt_floor(n: int)
    requires
        n >= 0,
    ensures
        0 <= sqrt_floor(n),
        sqrt_floor(n) * sqrt_floor(n) <= n,
        n < (sqrt_floor(n) + 1) * (sqrt_floor(n) + 1),
    decreases n,
{
    if n >= 1 {
        lemma_sqrt_floor(n - 1);
        let r = sqrt_floor(n - 1);
        if (r + 1) * (r + 1) <= n {
            assert(n < (r + 2) * (r + 2)) by (nonlinear_arith)
                requires
                    n - 1 < (r + 1) * (r + 1),
                    r >= 0,
            ;
        }
    }
}

/// Any `r` bracketing `n` between consecutive squares is `sqrt_floor(n)`.
pub proof fn lemma_sqrt_floor_unique(n: int, r: int)
    requires
        n >= 0,
        r >= 0,
        r * r <= n,
        n < (r + 1) * (r + 1),
    ensures
        r == sqrt_floor(n),
{
    lemma_sqrt_floor(n);
    let s = sqrt_floor(n);
    assert(r == s) by (nonlinear_arith)
        requires
            r >= 0,
            s >= 0,
            r * r <= n,
            n < (r + 1) * (r + 1),
            s * s <= n,
            n < (s + 1) * (s + 1),
    ;
}

/// Executable integer square root by bisection.
pub fn isqrt64(n: u64) -> (r: u64)
    ensures
        r == sqrt_floor(n as int),
        r * r <= n,
        r <= 4_294_967_295,
{
    proof {
        lemma_sqrt_floor(n as int);
    }
    if n == 0 {
        proof {
            lemma_sqrt_floor_unique(n as int, 0);
        }
        return 0;
    }
    let mut lo: u64 = 0;
    let mut hi: u64 = 4_294_967_296;
    while lo + 1 < hi
        invariant
            lo < hi <= 4_294_967_296,
            (lo as int) * (lo as int) <= n as int,
            (n as int) < (hi as int) * (hi as int),
        decreases hi - lo,
    {
        let mid: u64 = lo + (hi - lo) / 2;
        assert(mid < 4_294_967_296);
        assert((mid as int) * (mid as int) < 18446744073709551616) by (nonlinear_arith)
            requires
                0 <= (mid as int) < 4_294_967_296,
        ;
        if mid * mid <= n {
            lo = mid;
        } else {
            hi = mid;
        }
    }
    proof {
        lemma_sqrt_floor_unique(n as int, lo as int);
    }
    lo
}

/// Executable floor division for a positive divisor.
pub fn div_floor_i64(a: i64, n: i64) -> (q: i64)
    requires
        n >= 1,
        -9_000_000_000_000_000_000 <= a <= 9_000_000_000_000_000_000,
    ensures
        q == floor_div(a as int, n as int),
{
    if a >= 0 {
        let q: u64 = (a as u64) / (n as u64);
        q as i64
    } else {
        let na: u64 = (-a) as u64;
        let nn: u64 = n as u64;
        let qc: u64 = na / nn;
        let rem: u64 = na % nn;
        let q: u64 = if rem == 0 {
            qc
        } else {
            qc + 1
        };
        proof {
            let ai = a as int;
            let ni = n as int;
            vstd::arithmetic::div_mod::lemma_fundamental_div_mod(-ai, ni);
            vstd::arithmetic::div_mod::lemma_fundamental_div_mod(ai, ni);
            vstd::arithmetic::div_mod::lemma_mod_bound(-ai, ni);
            vstd::arithmetic::div_mod::lemma_mod_bound(ai, ni);
            assert(-(q as int) == ai / ni) by (nonlinear_arith)
                requires
                    ni >= 1,
                    ai < 0,
                    -ai == ni * ((-ai) / ni) + (-ai) % ni,
                    ai == ni * (ai / ni) + ai % ni,
                    0 <= (-ai) % ni < ni,
                    0 <= ai % ni < ni,
                    q as int == if (-ai) % ni == 0 {
                        (-ai) / ni
                    } else {
                        (-ai) / ni + 1
                    },
            ;
        }
        -(q as i64)
    }
}

/// Executable truncating division for a positive divisor (as Rust's `/`).
pub fn div_trunc_i64(a: i64, n: i64) -> (q: i64)
    requires
        n >= 1,
        -9_000_000_000_000_000_000 <= a <= 9_000_000_000_000_000_000,
    ensures
        q == trunc_div(a as int, n as int),
{
    if a >= 0 {
        let q: u64 = (a as u64) / (n as u64);
        q as i64
    } else {
        let q: u64 = ((-a) as u64) / (n as u64);
        proof {
            vstd::arithmetic::div_mod::lemma_div_pos_is_pos(-(a as int), n as int);
            vstd::arithmetic::div_mod::lemma_div_is_ordered(-(a as int), 9_000_000_000_000_000_000, n as int);
            vstd::arithmetic::div_mod::lemma_div_by_multiple(9_000_000_000_000_000_000, 1);
        }
        -(q as i64)
    }
}

/// Clamp `v` into `[lo, hi]`.
pub fn clamp_i64(v: i64, lo: i64, hi: i64) -> (r: i64)
    requires
        lo <= hi,
    ensures
        r == clamp_spec(v as int, lo as int, hi as int),
{
    if v < lo {
        lo
    } else if v > hi {
        hi
    } else {
        v
    }
}

pub open spec fn clamp_spec(v: int, lo: int, hi: int) -> int {
    if v < lo {
        lo
    } else if v > hi {
        hi
    } else {
        v
    }
}

/// Sine over the first half turn, scaled by 1000, for `u` in micro-turns
/// within `[0, 500_000]`: the rational approximation
/// `16000 * u * (500_000 - u) / (1_250_000_000_000 - 4 * u * (500_000 - u))`.
pub open spec fn half_sin_milli(u: int) -> int {
    16000 * (u * (500_000 - u)) / (1_250_000_000_000 - 4 * (u * (500_000 - u)))
}

/// Sine of a full turn, scaled by 1000, for `t` in micro-turns in `[0, 1_000_000)`.
pub open spec fn sin_milli_spec(t: int) -> int {
    if t <= 500_000 {
        half_sin_milli(t)
    } else {
        -half_sin_milli(t - 500_000)
    }
}

/// Cosine, scaled by 1000, as the sine a quarter turn ahead.
pub open spec fn cos_milli_spec(t: int) -> int {
    sin_milli_spec(if t < 750_000 {
        t + 250_000
    } else {
        t - 750_000
    })
}

fn half_sin_exec(u: i64) -> (r: i64)
    requires
        0 <= u <= 500_000,
    ensures
        r == half_sin_milli(u as int),
        0 <= r <= 1000,
{
    proof {
        assert(0 <= (u as int) * (500_000 - u as int) <= 62_500_000_000) by (nonlinear_arith)
            requires
                0 <= u as int <= 500_000,
        ;
    }
    let w: u64 = (u as u64) * (500_000 - u as u64);
    let num: u64 = 16000 * w;
    let den: u64 = 1_250_000_000_000 - 4 * w;
    let r: u64 = num / den;
    proof {
        assert(num as int <= 1000 * den as int) by (nonlinear_arith)
            requires
                num as int == 16000 * w as int,
                den as int == 1_250_000_000_000 - 4 * w as int,
                0 <= w as int <= 62_500_000_000,
        ;
        vstd::arithmetic::div_mod::lemma_div_is_ordered(num as int, 1000 * den as int, den as int);
        vstd::arithmetic::div_mod::lemma_div_by_multiple(1000, den as int);
    }
    r as i64
}

/// Sine of `t` micro-turns, scaled by 1000.
pub fn sin_milli(t: i64) -> (r: i64)
    requires
        0 <= t < 1_000_000,
    ensures
        r == sin_milli_spec(t as int),
        -1000 <= r <= 1000,
{
    if t <= 500_000 {
        half_sin_exec(t)
    } else {
        let h: i64 = half_sin_exec(t - 500_000);
        -h
    }
}

/// Cosine of `t` micro-turns, scaled by 1000.
pub fn cos_milli(t: i64) -> (r: i64)
    requires
        0 <= t < 1_000_000,
    ensures
        r == cos_milli_spec(t as int),
        -1000 <= r <= 1000,
{
    if t < 750_000 {
        sin_milli(t + 250_000)
    } else {
        sin_milli(t - 750_000)
    }
}

/// A truncating quotient stays within `b` when the dividend stays within
/// `b * n`.
pub proof fn lemma_trunc_div_bound(a: int, n: int, b: int)
    requires
        n >= 1,
        b >= 0,
        -(b * n) <= a <= b * n,
    ensures
        -b <= trunc_div(a, n) <= b,
{
    if a >= 0 {
        vstd::arithmetic::div_mod::lemma_div_pos_is_pos(a, n);
        vstd::arithmetic::div_mod::lemma_div_is_ordered(a, b * n, n);
        vstd::arithmetic::div_mod::lemma_div_multiples_vanish(b, n);
        assert(b * n == n * b) by (nonlinear_arith);
    } else {
        let m = -a;
        vstd::arithmetic::div_mod::lemma_div_pos_is_pos(m, n);
        vstd::arithmetic::div_mod::lemma_div_is_ordered(m, b * n, n);
        vstd::arithmetic::div_mod::lemma_div_multiples_vanish(b, n);
        assert(b * n == n * b) by (nonlinear_arith);
    }
}

} // verus!

