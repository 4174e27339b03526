//! Loudness levels: a mean square in squared sample units, as a level in
//! hundredths of a decibel, from a fixed-point base-2 logarithm whose fraction
//! is the mantissa read linearly (within 0.09 of `log2`, about 0.26 dB).
use vstd::prelude::*;

use vstd::arithmetic::power2::pow2;

verus! {

/// The level, in hundredths of a decibel, of the mean square of a full-scale
/// sine (`32767^2 / 2`, rounded down, which is 536838144): equal to
/// `level(536838144)`.
pub const FULL_SCALE_SINE_LEVEL: u64 = 8728;

/// `floor(log2(n))` for `n >= 1`.
pub open spec fn log2_floor(n: nat) -> nat
    decreases n,
{
    if n <= 1 {
        0
    } else {
        1 + log2_floor(n / 2)
    }
}

/// `256 * log2(n)`, with the fraction read linearly from the mantissa:
/// `256 * k + 256 * (n - 2^k) / 2^k` where `k = floor(log2(n))`.
pub open spec fn log2_fixed(n: nat) -> nat {
    let k = log2_floor(n);
    256 * k + (256 * (n - pow2(k)) / (pow2(k) as int)) as nat
}

/// `1000 * log10(n)`, that is `10 * log10(n)` dB in hundredths, through
/// `log10(2) = 0.30103`.
pub open spec fn level(n: nat) -> nat {
    log2_fixed(n) * 30103 / 25600
}

/// `floor(log2(n))` and `2^floor(log2(n))`.
fn log2_parts(n: u64) -> (r: (u64, u64))
    requires
        n >= 1,
    ensures
        r.0 == log2_floor(n as nat),
        r.1 == pow2(r.0 as nat),
        r.1 <= n < 2 * r.1,
        r.0 < 64,
{
    let mut y: u64 = n;
    let mut k: u64 = 0;
    let mut p: u64 = 1;
    proof {
        vstd::arithmetic::power2::lemma2_to64();
    }
    while y > 1
        invariant
            1 <= y,
            p >= 1,
            p == pow2(k as nat),
            y == n / p,
            log2_floor(n as nat) == k + log2_floor(y as nat),
            k < 64,
            p <= n,
            pow2(k as nat) <= n,
        decreases y,
    {
        proof {
            vstd::arithmetic::div_mod::lemma_fundamental_div_mod(n as int, p as int);
            assert(p * 2 <= p * y) by (nonlinear_arith)
                requires
                    y >= 2,
                    p >= 1,
            ;
            vstd::arithmetic::div_mod::lemma_div_denominator(n as int, p as int, 2);
            vstd::arithmetic::power2::lemma_pow2_unfold((k + 1) as nat);
            vstd::arithmetic::power2::lemma2_to64();
        }
        y = y / 2;
        p = p * 2;
        k = k + 1;
    }
    proof {
        vstd::arithmetic::div_mod::lemma_fundamental_div_mod(n as int, p as int);
    }
    (k, p)
}

/// The level of a mean square `ms`, in hundredths of a decibel.
pub fn level_centidb(ms: u64) -> (r: u64)
    requires
        ms >= 1,
    ensures
        r == level(ms as nat),
        r < 20000,
{
    let (k, p) = log2_parts(ms);
    proof {
        vstd::arithmetic::div_mod::lemma_div_is_ordered(256 * (ms - p), 256 * p, p as int);
        vstd::arithmetic::div_mod::lemma_div_multiples_vanish(256, p as int);
        vstd::arithmetic::div_mod::lemma_div_pos_is_pos(256 * (ms - p), p as int);
    }
    let fraction: u128 = 256 * ((ms - p) as u128) / (p as u128);
    proof {
        let num = 256 * (ms - p);
        vstd::arithmetic::div_mod::lemma_fundamental_div_mod(num as int, p as int);
        vstd::arithmetic::div_mod::lemma_mod_pos_bound(num as int, p as int);
        assert(fraction < 256) by (nonlinear_arith)
            requires
                num == p * fraction + num % (p as int),
                num % (p as int) >= 0,
                num < 256 * p,
                p > 0,
        ;
    }
    let fixed: u64 = 256 * k + fraction as u64;
    proof {
        vstd::arithmetic::div_mod::lemma_div_is_ordered(fixed * 30103, 493177449int, 25600);
    }
    fixed * 30103 / 25600
}

} // verus!
