//! Rendering of upload rates for the dashboard.
//!
//! A rate of `bps` bytes per second is shown in kilobits per second below one
//! megabit, and in megabits per second with one decimal from there on.  The
//! megabit figure is the double-precision quotient `kbps as f64 / 1000.0`
//! printed with one decimal; it is computed here exactly with integers.
use vstd::arithmetic::power2::{lemma2_to64, lemma2_to64_rest, lemma_pow2_adds, lemma_pow2_pos, pow2};
use vstd::prelude::*;

use crate::text::{decimal, push_char, write_decimal};

verus! {

/// `n / d` rounded to the nearest integer, a tie going to the even neighbour.
pub open spec fn round_half_even(n: nat, d: nat) -> nat {
    let q = n / d;
    let r = n % d;
    if 2 * r > d || (2 * r == d && q % 2 == 1) {
        q + 1
    } else {
        q
    }
}

/// The spacing of double-precision values around the integer `k`: 1 below
/// 2^53, doubling with every binade above.
pub open spec fn int_ulp(k: nat) -> nat
    decreases k,
{
    if k < 0x20_0000_0000_0000 {
        1
    } else {
        2 * int_ulp(k / 2)
    }
}

/// The double nearest to the integer `k` (ties to an even significand); it is
/// itself an integer.  This is `k as f64`.
pub open spec fn int_to_double(k: nat) -> nat {
    round_half_even(k, int_ulp(k)) * int_ulp(k)
}

/// Whether `x / 1000`, scaled by `2^e`, has a 53-bit integer part:
/// `2^52 <= x * 2^e / 1000 < 2^53`.
pub open spec fn is_significand_scale(x: nat, e: nat) -> bool {
    4_503_599_627_370_496_000 <= x * pow2(e) < 9_007_199_254_740_992_000
}

/// The exponent `e` at which `x / 1000` has a 53-bit significand.
pub open spec fn significand_scale(x: nat) -> nat {
    choose|e: nat| is_significand_scale(x, e)
}

/// The double nearest to `kbps as f64 / 1000.0`, in tenths, rounded to the
/// nearest tenth with ties to even: the digits that `{:.1}` prints for it.
/// The double is `m / 2^e`, with `m` the rounded 53-bit significand.
pub open spec fn mbps_tenths(kbps: nat) -> nat {
    let x = int_to_double(kbps);
    let e = significand_scale(x);
    let m = round_half_even(x * pow2(e), 1000);
    round_half_even(10 * m, pow2(e))
}

/// The text shown for a rate of `bps` bytes per second: `"<k> kbps"` below
/// 1000 kbps, else `"<m>.<d> Mbps"`.
pub open spec fn rate_text(bps: nat) -> Seq<char> {
    let kbps = bps * 8 / 1000;
    if kbps >= 1000 {
        let t = mbps_tenths(kbps);
        decimal(t / 10) + seq!['.'] + decimal(t % 10) + seq![' ', 'M', 'b', 'p', 's']
    } else {
        decimal(kbps) + seq![' ', 'k', 'b', 'p', 's']
    }
}

fn round_half_even_exec(n: u64, d: u64) -> (r: u64)
    requires
        0 < d <= 0x8000_0000_0000_0000,
        n < 0xffff_ffff_ffff_ffff,
    ensures
        r == round_half_even(n as nat, d as nat),
        n / d <= r <= n / d + 1,
{
    let q = n / d;
    let r = n % d;
    assert(q <= n) by (nonlinear_arith)
        requires
            q == n / d,
            d > 0,
    ;
    if 2 * r > d || (2 * r == d && q % 2 == 1) {
        q + 1
    } else {
        q
    }
}

proof fn lemma_scale_unique(x: nat, e1: nat, e2: nat)
    requires
        is_significand_scale(x, e1),
        is_significand_scale(x, e2),
    ensures
        e1 == e2,
{
    if e1 < e2 {
        lemma_pow2_adds(e1, (e2 - e1) as nat);
        lemma_pow2_pos((e2 - e1) as nat);
        let k = pow2((e2 - e1) as nat);
        assert(k >= 2) by {
            lemma_pow2_adds(1, (e2 - e1 - 1) as nat);
            lemma_pow2_pos((e2 - e1 - 1) as nat);
            lemma2_to64();
        }
        assert(x * pow2(e2) == (x * pow2(e1)) * k) by (nonlinear_arith)
            requires
                pow2(e2) == pow2(e1) * k,
        ;
        assert((x * pow2(e1)) * k >= (x * pow2(e1)) * 2) by (nonlinear_arith)
            requires
                k >= 2,
        ;
    } else if e2 < e1 {
        lemma_pow2_adds(e2, (e1 - e2) as nat);
        lemma_pow2_pos((e1 - e2) as nat);
        let k = pow2((e1 - e2) as nat);
        assert(k >= 2) by {
            lemma_pow2_adds(1, (e1 - e2 - 1) as nat);
            lemma_pow2_pos((e1 - e2 - 1) as nat);
            lemma2_to64();
        }
        assert(x * pow2(e1) == (x * pow2(e2)) * k) by (nonlinear_arith)
            requires
                pow2(e1) == pow2(e2) * k,
        ;
        assert((x * pow2(e2)) * k >= (x * pow2(e2)) * 2) by (nonlinear_arith)
            requires
                k >= 2,
        ;
    }
}

/// `kbps as f64`, exactly, for `kbps < 2^55`.
fn int_to_double_exec(kbps: u64) -> (a: u64)
    requires
        kbps < 0x80_0000_0000_0000,
    ensures
        a == int_to_double(kbps as nat),
        a <= 0x80_0000_0000_0000,
        kbps < 0x20_0000_0000_0000 ==> a == kbps,
        kbps >= 0x20_0000_0000_0000 ==> a >= 0x10_0000_0000_0000,
{
    if kbps < 0x20_0000_0000_0000 {
        assert(int_ulp(kbps as nat) == 1);
        kbps
    } else if kbps < 0x40_0000_0000_0000 {
        assert(int_ulp(kbps as nat) == 2) by {
            reveal_with_fuel(int_ulp, 2);
        }
        round_half_even_exec(kbps, 2) * 2
    } else {
        assert(int_ulp(kbps as nat) == 4) by {
            reveal_with_fuel(int_ulp, 3);
        }
        round_half_even_exec(kbps, 4) * 4
    }
}

/// The tenths of megabits shown for `kbps` kilobits per second.
fn mbps_tenths_exec(kbps: u64) -> (t: u64)
    requires
        1000 <= kbps < 0x80_0000_0000_0000,
    ensures
        t == mbps_tenths(kbps as nat),
{
    let a = int_to_double_exec(kbps);
    let mut p: u64 = a;
    let mut pw: u64 = 1;
    let mut e: u64 = 0;
    proof {
        lemma2_to64();
    }
    while p < 4_503_599_627_370_496_000
        invariant
            a >= 1000,
            a <= 0x80_0000_0000_0000,
            p == a * pw,
            pw == pow2(e as nat),
            1 <= pw,
            p < 9_007_199_254_740_992_000,
            e <= 52,
            pw * 1000 <= p,
        decreases 52 - e,
    {
        assert(pw < 4_503_599_627_370_496);
        assert(a * (pw * 2) == p * 2) by (nonlinear_arith)
            requires
                p == a * pw,
        ;
        proof {
            lemma_pow2_adds(e as nat, 1);
            lemma2_to64();
        }
        p = p * 2;
        pw = pw * 2;
        assert(e < 52) by {
            if e >= 52 {
                lemma_pow2_adds(52, (e - 52) as nat);
                lemma_pow2_pos((e - 52) as nat);
                lemma2_to64_rest();
            }
        }
        e = e + 1;
    }
    proof {
        assert(is_significand_scale(a as nat, e as nat));
        let e2 = significand_scale(a as nat);
        lemma_scale_unique(a as nat, e as nat, e2);
    }
    let m = round_half_even_exec(p, 1000);
    assert(m <= 9_007_199_254_740_992);
    round_half_even_exec(10 * m, pw)
}

proof fn lemma_round_half_even_close(n: nat, d: nat)
    requires
        d > 0,
    ensures
        2 * n <= 2 * d * round_half_even(n, d) + d,
        2 * d * round_half_even(n, d) <= 2 * n + d,
{
    let q = n / d;
    let r = n % d;
    assert(n == d * q + r) by (nonlinear_arith)
        requires
            d > 0,
            q == n / d,
            r == n % d,
    ;
    assert(2 * d * q == 2 * (d * q)) by (nonlinear_arith);
    assert(2 * d * (q + 1) == 2 * (d * q) + 2 * d) by (nonlinear_arith);
}

proof fn lemma_scale_exists(x: nat, e: nat)
    requires
        x >= 1,
        x * pow2(e) < 9_007_199_254_740_992_000,
    ensures
        exists|f: nat| is_significand_scale(x, f),
    decreases 9_007_199_254_740_992_000 - x * pow2(e),
{
    if x * pow2(e) < 4_503_599_627_370_496_000 {
        lemma_pow2_adds(e, 1);
        lemma2_to64();
        lemma_pow2_pos(e);
        assert(x * pow2(e + 1) == 2 * (x * pow2(e))) by (nonlinear_arith)
            requires
                pow2(e + 1) == pow2(e) * 2,
        ;
        assert(x * pow2(e) >= 1) by (nonlinear_arith)
            requires
                x >= 1,
                pow2(e) >= 1,
        ;
        lemma_scale_exists(x, e + 1);
    } else {
        assert(is_significand_scale(x, e));
    }
}

/// The megabit figure shown is the kilobit rate divided by 1000 and rounded
/// to one decimal: it is never more than half a tenth off the exact quotient
/// (for rates whose conversion to a double is exact, below 2^53 kbps).
pub proof fn law_mbps_within_half_tenth(kbps: nat)
    requires
        1000 <= kbps < 0x20_0000_0000_0000,
    ensures
        kbps <= 100 * mbps_tenths(kbps) + 50,
        100 * mbps_tenths(kbps) <= kbps + 50,
{
    assert(int_ulp(kbps) == 1);
    let x = int_to_double(kbps);
    assert(round_half_even(kbps, 1) == kbps);
    assert(x == kbps);
    lemma2_to64();
    assert(x * pow2(0) < 9_007_199_254_740_992_000);
    lemma_scale_exists(x, 0);
    let e = significand_scale(x);
    assert(is_significand_scale(x, e));
    let p = pow2(e);
    lemma_pow2_pos(e);
    assert(p > 500) by (nonlinear_arith)
        requires
            x * p >= 4_503_599_627_370_496_000,
            x < 0x20_0000_0000_0000,
            p > 0,
    ;
    let m = round_half_even(x * p, 1000);
    let t = round_half_even(10 * m, p);
    assert(t == mbps_tenths(kbps));
    lemma_round_half_even_close(x * p, 1000);
    lemma_round_half_even_close(10 * m, p);
    assert(x <= 100 * t + 50 && 100 * t <= x + 50) by (nonlinear_arith)
        requires
            2 * (x * p) <= 2 * 1000 * m + 1000,
            2 * 1000 * m <= 2 * (x * p) + 1000,
            2 * (10 * m) <= 2 * p * t + p,
            2 * p * t <= 2 * (10 * m) + p,
            p > 500,
    ;
}

/// The dashboard text for an upload rate of `bps` bytes per second.
pub fn fmt_rate(bps: u64) -> (s: String)
    requires
        bps <= u64::MAX / 8,
    ensures
        s@ == rate_text(bps as nat),
{
    let kbps = bps * 8 / 1000;
    let mut s = String::new();
    if kbps >= 1000 {
        let t = mbps_tenths_exec(kbps);
        write_decimal(&mut s, t / 10);
        push_char(&mut s, '.');
        write_decimal(&mut s, t % 10);
        s.append(" Mbps");
        proof {
            reveal_strlit(" Mbps");
        }
    } else {
        write_decimal(&mut s, kbps);
        s.append(" kbps");
        proof {
            reveal_strlit(" kbps");
        }
    }
    assert(s@ =~= rate_text(bps as nat));
    s
}

} // verus!
