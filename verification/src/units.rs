//! The compact unit-aware nanosecond formatter (`999ns`, `36.0us`, `3.59ms`).
//!
//! The two fractional tiers divide by 1_000 and 1_000_000 in binary64 and
//! print one or two decimals of the result. The binary64 steps are carried
//! out here exactly in integers: a quotient is rounded to the nearest value
//! with a 53-bit significand (ties to even), and the decimals are the exact
//! value of that significand rounded to the nearest digit (ties to even).

use vstd::arithmetic::power2::{lemma2_to64, lemma_pow2_unfold, pow2};
use vstd::prelude::*;

use crate::harness::{push_zero_padded, zero_pad};
use crate::text::{dec, push_char, push_dec, push_str};

verus! {

/// `floor(log2(num / den))` for `num >= den > 0`; `0` below that.
pub open spec fn lg2_ratio(num: nat, den: nat) -> nat
    decreases num,
{
    if den > 0 && num >= 2 * den {
        1 + lg2_ratio(num / 2, den)
    } else {
        0
    }
}

/// `a / d` rounded to the nearest integer, ties to the even one.
pub open spec fn round_half_even(a: nat, d: nat) -> nat {
    let q = a / d;
    let r = a % d;
    if 2 * r > d || (2 * r == d && q % 2 == 1) {
        q + 1
    } else {
        q
    }
}

/// The 53-bit significand of the binary64 nearest to `num / den`
/// (`num >= den > 0`), scaled so that the value is
/// `significand * 2^(lg2_ratio(num, den)) / 2^52`.
pub open spec fn f64_significand(num: nat, den: nat) -> nat {
    let e = lg2_ratio(num, den);
    if e <= 52 {
        round_half_even(num * pow2((52 - e) as nat), den)
    } else {
        round_half_even(num, den * pow2((e - 52) as nat))
    }
}

/// The integer value of `n as f64` (nearest binary64, ties to even).
pub open spec fn f64_of_int(n: nat) -> nat {
    let e = lg2_ratio(n, 1);
    if e <= 52 {
        n
    } else {
        f64_significand(n, 1) * pow2((e - 52) as nat)
    }
}

/// Tenths in `format!("{:.1}", ns as f64 / 1000.0)` for `1000 <= ns < 10^6`.
pub open spec fn us_tenths(ns: nat) -> nat {
    let e = lg2_ratio(ns, 1000);
    round_half_even(10 * f64_significand(ns, 1000), pow2((52 - e) as nat))
}

/// Hundredths in `format!("{:.2}", ns as f64 / 1e6)` for `ns >= 10^6`.
pub open spec fn ms_hundredths(ns: nat) -> nat {
    let a = f64_of_int(ns);
    let e = lg2_ratio(a, 1000000);
    round_half_even(100 * f64_significand(a, 1000000), pow2((52 - e) as nat))
}

/// `k` times the binary64 nearest to `num / den` (`num >= den > 0`),
/// rounded to the nearest integer, ties to even: the digits `{:.N}`
/// prints of that quotient, for `k = 10^N`.
pub open spec fn f64_quotient_scaled(num: nat, den: nat, k: nat) -> nat {
    let e = lg2_ratio(num, den);
    let m = f64_significand(num, den);
    if e <= 52 {
        round_half_even(k * m, pow2((52 - e) as nat))
    } else {
        k * m * pow2((e - 52) as nat)
    }
}

/// `r - 1.0` as `num / den`, exactly, for `r` the binary64 nearest to
/// `n / d` (`n >= d > 0`): below `2^53` the subtraction is exact; above, `r`
/// is an integer and the difference is rounded again.
pub open spec fn f64_minus_one(n: nat, d: nat) -> (nat, nat) {
    let e = lg2_ratio(n, d);
    let m = f64_significand(n, d);
    if e <= 52 {
        ((m - pow2((52 - e) as nat)) as nat, pow2((52 - e) as nat))
    } else {
        (f64_of_int((m * pow2((e - 52) as nat) - 1) as nat), 1)
    }
}

/// Sub-microsecond stays in ns; sub-millisecond goes to us with one
/// decimal; everything else is ms with two decimals.
pub open spec fn format_ns_text(ns: nat) -> Seq<char> {
    if ns < 1000 {
        dec(ns) + seq!['n', 's']
    } else if ns < 1000000 {
        let d = us_tenths(ns);
        dec(d / 10) + seq!['.'] + dec(d % 10) + seq!['u', 's']
    } else {
        let d = ms_hundredths(ns);
        dec(d / 100) + seq!['.'] + zero_pad(dec(d % 100), 2) + seq!['m', 's']
    }
}

proof fn lemma_lg2_ratio(num: nat, den: nat)
    requires
        den > 0,
        num >= den,
    ensures
        den * pow2(lg2_ratio(num, den)) <= num,
        num < den * pow2(lg2_ratio(num, den) + 1),
    decreases num,
{
    if num >= 2 * den {
        lemma_lg2_ratio(num / 2, den);
        let k = lg2_ratio(num / 2, den);
        assert(lg2_ratio(num, den) == k + 1);
        lemma_pow2_unfold(k + 1);
        lemma_pow2_unfold(k + 2);
        let a = den * pow2(k);
        let b = den * pow2(k + 1);
        assert(den * pow2(k + 1) == 2 * a) by (nonlinear_arith)
            requires
                pow2(k + 1) == 2 * pow2(k),
                a == den * pow2(k),
        ;
        assert(den * pow2(k + 2) == 2 * b) by (nonlinear_arith)
            requires
                pow2(k + 2) == 2 * pow2(k + 1),
                b == den * pow2(k + 1),
        ;
        assert(2 * a <= num) by (nonlinear_arith)
            requires
                a <= num / 2,
        ;
        assert(num < 2 * b) by (nonlinear_arith)
            requires
                num / 2 < b,
        ;
    } else {
        lemma_pow2_unfold(1);
        lemma2_to64();
        assert(lg2_ratio(num, den) == 0);
        assert(den * pow2(0) == den) by (nonlinear_arith)
            requires
                pow2(0) == 1,
        ;
        assert(den * pow2(1) == 2 * den) by (nonlinear_arith)
            requires
                pow2(1) == 2,
        ;
    }
}

proof fn lemma_pow2_mono(a: nat, b: nat)
    requires
        a <= b,
    ensures
        pow2(a) <= pow2(b),
    decreases b,
{
    if a < b {
        lemma_pow2_mono(a, (b - 1) as nat);
        lemma_pow2_unfold(b);
    }
}

fn lg2_ratio_exec(num: u128, den: u128) -> (e: u128)
    requires
        0 < den <= 0x40_0000_0000_0000_0000,
    ensures
        e == lg2_ratio(num as nat, den as nat),
{
    let mut x = num;
    let mut e: u128 = 0;
    while x >= 2 * den
        invariant
            0 < den <= 0x40_0000_0000_0000_0000,
            lg2_ratio(num as nat, den as nat) == e + lg2_ratio(x as nat, den as nat),
            e + x <= num,
        decreases x,
    {
        x = x / 2;
        e = e + 1;
    }
    e
}

fn pow2_exec(k: u128) -> (p: u128)
    requires
        k <= 126,
    ensures
        p == pow2(k as nat),
        1 <= p <= 0x4000_0000_0000_0000_0000_0000_0000_0000,
{
    let mut p: u128 = 1;
    let mut i: u128 = 0;
    proof {
        lemma2_to64();
        vstd::arithmetic::power2::lemma_pow2_adds(64, 32);
        vstd::arithmetic::power2::lemma_pow2_adds(96, 29);
        assert(pow2(64) * pow2(32) == 0x1_0000_0000_0000_0000_0000_0000) by (nonlinear_arith)
            requires
                pow2(64) == 0x10000000000000000,
                pow2(32) == 0x100000000,
        ;
        assert(pow2(96) * pow2(29) == 0x2000_0000_0000_0000_0000_0000_0000_0000) by (nonlinear_arith)
            requires
                pow2(96) == 0x1_0000_0000_0000_0000_0000_0000,
                pow2(29) == 0x20000000,
        ;
    }
    while i < k
        invariant
            i <= k <= 126,
            p == pow2(i as nat),
            1 <= p <= 0x4000_0000_0000_0000_0000_0000_0000_0000,
            i < 126 ==> p <= 0x2000_0000_0000_0000_0000_0000_0000_0000,
            pow2(125) == 0x2000_0000_0000_0000_0000_0000_0000_0000,
        decreases k - i,
    {
        proof {
            lemma_pow2_unfold(i as nat + 1);
            lemma_pow2_mono(i as nat, 125);
            if i + 1 < 126 {
                lemma_pow2_mono(i as nat + 1, 125);
            }
        }
        p = p * 2;
        i = i + 1;
    }
    p
}

fn round_half_even_exec(a: u128, d: u128) -> (r: u128)
    requires
        0 < d <= 0x4000_0000_0000_0000_0000_0000_0000_0000,
    ensures
        r == round_half_even(a as nat, d as nat),
{
    let q = a / d;
    let rem = a % d;
    if 2 * rem > d || (2 * rem == d && q % 2 == 1) {
        assert(q < a || d == 1 || q + 1 <= u128::MAX) by (nonlinear_arith)
            requires
                q == a / d,
                d >= 1,
        ;
        assert(q + 1 <= u128::MAX) by (nonlinear_arith)
            requires
                q == a / d,
                d >= 2 || 2 * (a % d) <= d,
                d >= 1,
                2 * (a % d) >= d,
        ;
        q + 1
    } else {
        q
    }
}

proof fn lemma_pow2_le_means_exp_le(e: nat, k: nat)
    requires
        pow2(e) < pow2(k),
    ensures
        e < k,
{
    if e >= k {
        lemma_pow2_mono(k, e);
    }
}

/// `(significand, exponent)` of the binary64 nearest to `num / den`.
pub(crate) fn f64_nearest(num: u128, den: u128) -> (r: (u128, u128))
    requires
        0 < den <= 0x40_0000_0000_0000_0000,
        den <= num <= 0x1_0000_0000_0000_0000_0000,
    ensures
        r.0 == f64_significand(num as nat, den as nat),
        r.1 == lg2_ratio(num as nat, den as nat),
        r.1 <= 80,
        0x10_0000_0000_0000 <= r.0,
        r.0 <= 0x20_0000_0000_0000,
{
    let e = lg2_ratio_exec(num, den);
    proof {
        lemma_lg2_ratio(num as nat, den as nat);
        lemma2_to64();
        assert(pow2(e as nat) <= den * pow2(e as nat)) by (nonlinear_arith)
            requires
                den >= 1,
        ;
        vstd::arithmetic::power2::lemma_pow2_adds(64, 16);
        assert(pow2(16) == 0x10000);
        assert(pow2(80) == 0x1_0000_0000_0000_0000_0000) by (nonlinear_arith)
            requires
                pow2(80) == pow2(64) * pow2(16),
                pow2(64) == 0x1_0000_0000_0000_0000,
                pow2(16) == 0x10000,
        ;
        if e > 80 {
            vstd::arithmetic::power2::lemma_pow2_strictly_increases(80, e as nat);
        }
        vstd::arithmetic::power2::lemma_pow2_adds(32, 20);
        assert(pow2(52) == 0x10_0000_0000_0000) by (nonlinear_arith)
            requires
                pow2(52) == pow2(32) * pow2(20),
                pow2(32) == 0x100000000,
                pow2(20) == 0x100000,
        ;
        vstd::arithmetic::power2::lemma_pow2_adds(32, 21);
        assert(pow2(53) == 0x20_0000_0000_0000) by (nonlinear_arith)
            requires
                pow2(53) == pow2(32) * pow2(21),
                pow2(32) == 0x100000000,
                pow2(21) == 0x200000,
        ;
    }
    if e <= 52 {
        let p = pow2_exec(52 - e);
        proof {
            vstd::arithmetic::power2::lemma_pow2_adds((e + 1) as nat, (52 - e) as nat);
            assert(num * p < den * pow2(53)) by (nonlinear_arith)
                requires
                    num < den * pow2(e as nat + 1),
                    p == pow2((52 - e) as nat),
                    pow2(53) == pow2(e as nat + 1) * pow2((52 - e) as nat),
                    p > 0,
            ;
            assert(den * pow2(53) <= 0x40_0000_0000_0000_0000 * 0x20_0000_0000_0000) by (nonlinear_arith)
                requires
                    den <= 0x40_0000_0000_0000_0000,
                    pow2(53) == 0x20_0000_0000_0000,
            ;
            vstd::arithmetic::power2::lemma_pow2_adds(e as nat, (52 - e) as nat);
            assert(num * p >= den * pow2(52)) by (nonlinear_arith)
                requires
                    den * pow2(e as nat) <= num,
                    p == pow2((52 - e) as nat),
                    pow2(52) == pow2(e as nat) * pow2((52 - e) as nat),
                    p > 0,
            ;
        }
        let m = round_half_even_exec(num * p, den);
        proof {
            assert(m <= 0x20_0000_0000_0000) by (nonlinear_arith)
                requires
                    m == round_half_even((num * p) as nat, den as nat),
                    num * p < den * 0x20_0000_0000_0000,
                    den > 0,
            ;
            assert((num * p) as nat / (den as nat) >= pow2(52)) by (nonlinear_arith)
                requires
                    num * p >= den * pow2(52),
                    den > 0,
            ;
        }
        (m, e)
    } else {
        let p = pow2_exec(e - 52);
        proof {
            vstd::arithmetic::power2::lemma_pow2_adds(53, (e - 52) as nat);
            lemma_pow2_mono((e - 52) as nat, 28);
            assert(pow2(28) == 0x1000_0000);
            vstd::arithmetic::power2::lemma_pow2_adds(52, (e - 52) as nat);
            assert(num >= den * p * pow2(52)) by (nonlinear_arith)
                requires
                    den * pow2(e as nat) <= num,
                    p == pow2((e - 52) as nat),
                    pow2(e as nat) == pow2(52) * p,
            ;
            assert(num < den * p * pow2(53)) by (nonlinear_arith)
                requires
                    num < den * pow2(e as nat + 1),
                    p == pow2((e - 52) as nat),
                    pow2(e as nat + 1) == pow2(53) * p,
            ;
            assert(den * p <= 0x40_0000_0000_0000_0000 * 0x1000_0000) by (nonlinear_arith)
                requires
                    den <= 0x40_0000_0000_0000_0000,
                    p <= 0x1000_0000,
            ;
        }
        let m = round_half_even_exec(num, den * p);
        proof {
            assert(m <= 0x20_0000_0000_0000) by (nonlinear_arith)
                requires
                    m == round_half_even(num as nat, (den * p) as nat),
                    num < den * p * 0x20_0000_0000_0000,
                    den * p > 0,
            ;
            assert((num as nat) / ((den * p) as nat) >= pow2(52)) by (nonlinear_arith)
                requires
                    num >= den * p * pow2(52),
                    den * p > 0,
            ;
        }
        (m, e)
    }
}

proof fn lemma_round_bounds(x: nat, d: nat)
    requires
        d > 0,
    ensures
        x / d <= round_half_even(x, d) <= x / d + 1,
{
}

proof fn lemma_round_mono(a: nat, b: nat, d: nat)
    requires
        d > 0,
        a <= b,
    ensures
        round_half_even(a, d) <= round_half_even(b, d),
{
    assert(a / d <= b / d) by (nonlinear_arith)
        requires
            a <= b,
            d > 0,
    ;
    if a / d == b / d {
        assert(a % d <= b % d) by (nonlinear_arith)
            requires
                a <= b,
                d > 0,
                a / d == b / d,
        ;
    }
}

/// Below `2^53 * d`, the rounded quotient is at most `2^53`.
proof fn lemma_round_below(x: nat, d: nat, t: nat)
    requires
        d > 0,
        x < t * d,
    ensures
        round_half_even(x, d) <= t,
{
    assert(x / d < t) by (nonlinear_arith)
        requires
            x < t * d,
            d > 0,
    ;
}

/// `f64_of_int` keeps the order of integers.
pub proof fn lemma_f64_of_int_mono(a: nat, b: nat)
    requires
        1 <= a <= b,
    ensures
        f64_of_int(a) <= f64_of_int(b),
{
    lemma_lg2_ratio(a, 1);
    lemma_lg2_ratio(b, 1);
    let ea = lg2_ratio(a, 1);
    let eb = lg2_ratio(b, 1);
    if ea > eb {
        lemma_pow2_mono(eb + 1, ea);
    }
    assert(ea <= eb);
    vstd::arithmetic::power2::lemma_pow2_adds(32, 20);
    lemma2_to64();
    assert(pow2(52) == 0x10_0000_0000_0000) by (nonlinear_arith)
        requires
            pow2(52) == pow2(32) * pow2(20),
            pow2(32) == 0x100000000,
            pow2(20) == 0x100000,
    ;
    lemma_pow2_unfold(53);
    if eb > 52 {
        let kb = (eb - 52) as nat;
        let pb = pow2(kb);
        vstd::arithmetic::power2::lemma_pow2_pos(kb);
        vstd::arithmetic::power2::lemma_pow2_adds(52, kb);
        let rb = round_half_even(b, pb);
        lemma_round_bounds(b, pb);
        assert(b / pb >= pow2(52)) by (nonlinear_arith)
            requires
                pow2(52) * pb <= b,
                pb > 0,
        ;
        assert(f64_of_int(b) == f64_significand(b, 1) * pb);
        assert(f64_significand(b, 1) == rb);
        assert(rb * pb >= pow2(52) * pb) by (nonlinear_arith)
            requires
                rb >= pow2(52),
                pb > 0,
        ;
        if ea <= 52 {
            lemma_pow2_mono(ea + 1, 53);
            lemma_pow2_mono(1, kb);
            lemma_pow2_unfold(1);
            assert(pow2(52) * pb >= pow2(53)) by (nonlinear_arith)
                requires
                    pb >= 2,
                    pow2(53) == 2 * pow2(52),
            ;
            assert(kb >= 1);
            lemma_pow2_mono(1, kb);
            lemma_pow2_unfold(1);
        } else {
            let ka = (ea - 52) as nat;
            let pa = pow2(ka);
            vstd::arithmetic::power2::lemma_pow2_pos(ka);
            vstd::arithmetic::power2::lemma_pow2_adds(52, ka);
            let ra = round_half_even(a, pa);
            assert(f64_of_int(a) == ra * pa);
            if ka == kb {
                lemma_round_mono(a, b, pa);
                assert(ra * pa <= rb * pa) by (nonlinear_arith)
                    requires
                        ra <= rb,
                        pa > 0,
                ;
            } else {
                vstd::arithmetic::power2::lemma_pow2_adds(53, ka);
                assert(a < pow2(53) * pa);
                assert(a < (pow2(53)) * pa);
                lemma_round_below(a, pa, pow2(53));
                assert(ra * pa <= pow2(53) * pa) by (nonlinear_arith)
                    requires
                        ra <= pow2(53),
                        pa > 0,
                ;
                lemma_pow2_mono(ea + 1, eb);
            }
        }
    }
}

/// `k` times the binary64 nearest to `num / den`, rounded as `{:.N}` does.
pub(crate) fn f64_quotient_scaled_exec(num: u128, den: u128, k: u128) -> (r: u128)
    requires
        0 < den <= 0x40_0000_0000_0000_0000,
        den <= num <= 0x1_0000_0000_0000_0000_0000,
        1 <= k <= 10,
    ensures
        r == f64_quotient_scaled(num as nat, den as nat, k as nat),
{
    let (m, e) = f64_nearest(num, den);
    assert(k * m <= 10 * 0x20_0000_0000_0000) by (nonlinear_arith)
        requires
            k <= 10,
            m <= 0x20_0000_0000_0000,
    ;
    if e <= 52 {
        let p = pow2_exec(52 - e);
        round_half_even_exec(k * m, p)
    } else {
        let p = pow2_exec(e - 52);
        proof {
            lemma2_to64();
            lemma_pow2_mono((e - 52) as nat, 28);
            assert(pow2(28) == 0x1000_0000);
            assert(k * m * p <= 10 * 0x20_0000_0000_0000 * 0x1000_0000) by (nonlinear_arith)
                requires
                    k <= 10,
                    m <= 0x20_0000_0000_0000,
                    p <= 0x1000_0000,
            ;
        }
        k * m * p
    }
}

/// The integer value of `n as f64`.
pub(crate) fn f64_of_int_exec(n: u128) -> (r: u128)
    requires
        n <= 0x1_0000_0000_0000_0000_0000,
    ensures
        r == f64_of_int(n as nat),
        r <= 2 * n,
        n >= 1 ==> r >= 1,
        n < 0x1_0000_0000_0000_0000 ==> r <= 0x1_0000_0000_0000_0000,
{
    proof {
        lemma2_to64();
    }
    if n == 0 {
        proof {
            assert(lg2_ratio(0, 1) == 0);
        }
        return 0;
    }
    let (am, ae) = f64_nearest(n, 1);
    if ae <= 52 {
        n
    } else {
        let p = pow2_exec(ae - 52);
        proof {
            lemma_lg2_ratio(n as nat, 1);
            lemma_pow2_mono((ae - 52) as nat, 28);
            assert(pow2(28) == 0x1000_0000);
            vstd::arithmetic::power2::lemma_pow2_adds(52, (ae - 52) as nat);
            vstd::arithmetic::power2::lemma_pow2_adds(32, 20);
            assert(pow2(52) == 0x10_0000_0000_0000) by (nonlinear_arith)
                requires
                    pow2(52) == pow2(32) * pow2(20),
                    pow2(32) == 0x100000000,
                    pow2(20) == 0x100000,
            ;
            assert(am * p <= 0x20_0000_0000_0000 * 0x1000_0000) by (nonlinear_arith)
                requires
                    am <= 0x20_0000_0000_0000,
                    p <= 0x1000_0000,
            ;
            assert(am <= (n as nat) / (p as nat) + 1) by (nonlinear_arith)
                requires
                    am == round_half_even(n as nat, p as nat),
                    p > 0,
            ;
            assert(am * p <= 2 * n) by (nonlinear_arith)
                requires
                    am <= (n as nat) / (p as nat) + 1,
                    1 * (pow2(52) * p) <= n,
                    pow2(52) >= 1,
                    p > 0,
            ;
            assert(am * p >= 1) by (nonlinear_arith)
                requires
                    am >= 0x10_0000_0000_0000,
                    p >= 1,
            ;
            if n < 0x1_0000_0000_0000_0000 {
                assert(pow2(ae as nat) < pow2(64)) by (nonlinear_arith)
                    requires
                        1 * pow2(ae as nat) <= n,
                        n < 0x1_0000_0000_0000_0000,
                        pow2(64) == 0x10000000000000000,
                ;
                lemma_pow2_le_means_exp_le(ae as nat, 64);
                lemma_pow2_mono((ae - 52) as nat, 11);
                assert(pow2(11) == 0x800);
                assert(am * p <= 0x20_0000_0000_0000 * 0x800) by (nonlinear_arith)
                    requires
                        am <= 0x20_0000_0000_0000,
                        p <= 0x800,
                ;
            }
        }
        am * p
    }
}

/// `r - 1.0` as `num / den` for the binary64 `r` nearest to `n / d`.
pub(crate) fn f64_minus_one_exec(n: u128, d: u128) -> (r: (u128, u128))
    requires
        1 <= d <= n <= 0x1_0000_0000_0000_0000,
    ensures
        r.0 == f64_minus_one(n as nat, d as nat).0,
        r.1 == f64_minus_one(n as nat, d as nat).1,
        r.0 <= 0x4_0000_0000_0000_0000,
        1 <= r.1 <= 0x10_0000_0000_0000,
{
    let (m, e) = f64_nearest(n, d);
    proof {
        lemma2_to64();
        lemma_lg2_ratio(n as nat, d as nat);
        assert(pow2(e as nat) <= pow2(64)) by (nonlinear_arith)
            requires
                d * pow2(e as nat) <= n,
                n <= 0x1_0000_0000_0000_0000,
                d >= 1,
                pow2(64) == 0x10000000000000000,
        ;
        if e > 64 {
            vstd::arithmetic::power2::lemma_pow2_strictly_increases(64, e as nat);
        }
        vstd::arithmetic::power2::lemma_pow2_adds(32, 20);
        assert(pow2(52) == 0x10_0000_0000_0000) by (nonlinear_arith)
            requires
                pow2(52) == pow2(32) * pow2(20),
                pow2(32) == 0x100000000,
                pow2(20) == 0x100000,
        ;
    }
    if e <= 52 {
        let p = pow2_exec(52 - e);
        proof {
            lemma_pow2_mono((52 - e) as nat, 52);
        }
        (m - p, p)
    } else {
        let p = pow2_exec(e - 52);
        proof {
            lemma_pow2_mono((e - 52) as nat, 12);
            assert(pow2(12) == 0x1000);
            assert(m * p <= 0x20_0000_0000_0000 * 0x1000) by (nonlinear_arith)
                requires
                    m <= 0x20_0000_0000_0000,
                    p <= 0x1000,
            ;
            assert(m * p >= 1) by (nonlinear_arith)
                requires
                    m >= 0x10_0000_0000_0000,
                    p >= 1,
            ;
        }
        let x = f64_of_int_exec(m * p - 1);
        (x, 1)
    }
}

/// Compact unit-aware nanosecond formatter: below 1 us as `<n>ns`, below
/// 1 ms as microseconds with one decimal, otherwise milliseconds with two
/// decimals, each decimal as `{:.1}` / `{:.2}` prints the binary64 quotient.
pub fn format_ns(ns: u64) -> (r: String)
    ensures
        r@ == format_ns_text(ns as nat),
{
    let mut out = String::new();
    if ns < 1000 {
        push_dec(&mut out, ns);
        push_char(&mut out, 'n');
        push_char(&mut out, 's');
        assert(out@ =~= format_ns_text(ns as nat));
        return out;
    }
    proof {
        lemma2_to64();
    }
    if ns < 1000000 {
        let (m, e) = f64_nearest(ns as u128, 1000);
        proof {
            lemma_lg2_ratio(ns as nat, 1000);
            assert(pow2(e as nat) < pow2(10)) by (nonlinear_arith)
                requires
                    1000 * pow2(e as nat) <= ns,
                    ns < 1000000,
                    pow2(10) == 0x400,
            ;
            lemma_pow2_le_means_exp_le(e as nat, 10);
        }
        let p = pow2_exec(52 - e);
        let d = round_half_even_exec(10 * m, p);
        assert(d == us_tenths(ns as nat));
        assert(d <= 10 * m) by (nonlinear_arith)
            requires
                d == round_half_even((10 * m) as nat, p as nat),
                p >= 1,
        ;
        let d64 = d as u64;
        push_dec(&mut out, d64 / 10);
        push_char(&mut out, '.');
        push_dec(&mut out, d64 % 10);
        push_char(&mut out, 'u');
        push_char(&mut out, 's');
        assert(out@ =~= format_ns_text(ns as nat));
        return out;
    }
    let a = f64_of_int_exec(ns as u128);
    proof {
        assert(a >= 1000000) by {
            if lg2_ratio(ns as nat, 1) > 52 {
                lemma_lg2_ratio(ns as nat, 1);
                let e = lg2_ratio(ns as nat, 1);
                let p = pow2((e - 52) as nat);
                vstd::arithmetic::power2::lemma_pow2_adds(52, (e - 52) as nat);
                vstd::arithmetic::power2::lemma_pow2_adds(32, 20);
                assert(pow2(52) == 0x10_0000_0000_0000) by (nonlinear_arith)
                    requires
                        pow2(52) == pow2(32) * pow2(20),
                        pow2(32) == 0x100000000,
                        pow2(20) == 0x100000,
                ;
                vstd::arithmetic::power2::lemma_pow2_pos((e - 52) as nat);
                let am = f64_significand(ns as nat, 1);
                assert((ns as nat) / p >= pow2(52)) by (nonlinear_arith)
                    requires
                        1 * (pow2(52) * p) <= ns,
                        p > 0,
                ;
                assert(am >= (ns as nat) / p) by (nonlinear_arith)
                    requires
                        am == round_half_even(ns as nat, p),
                        p > 0,
                ;
                assert(am * p >= 1000000) by (nonlinear_arith)
                    requires
                        am >= 0x10_0000_0000_0000,
                        p >= 1,
                ;
            }
        }
    }
    assert(a == f64_of_int(ns as nat));
    let (m, e) = f64_nearest(a, 1000000);
    proof {
        lemma_lg2_ratio(a as nat, 1000000);
        vstd::arithmetic::power2::lemma_pow2_adds(32, 21);
        assert(pow2(53) == 0x20_0000_0000_0000) by (nonlinear_arith)
            requires
                pow2(53) == pow2(32) * pow2(21),
                pow2(32) == 0x100000000,
                pow2(21) == 0x200000,
        ;
        assert(pow2(e as nat) < pow2(53)) by (nonlinear_arith)
            requires
                1000000 * pow2(e as nat) <= a,
                a <= 0x1_0000_0000_0000_0000,
                pow2(53) == 0x20_0000_0000_0000,
        ;
        lemma_pow2_le_means_exp_le(e as nat, 53);
    }
    let p = pow2_exec(52 - e);
    let d = round_half_even_exec(100 * m, p);
    assert(d == ms_hundredths(ns as nat));
    assert(d <= 100 * m) by (nonlinear_arith)
        requires
            d == round_half_even((100 * m) as nat, p as nat),
            p >= 1,
            m >= 0,
    ;
    let d64 = d as u64;
    push_dec(&mut out, d64 / 100);
    push_char(&mut out, '.');
    push_zero_padded(&mut out, d64 % 100, 2);
    push_char(&mut out, 'm');
    push_char(&mut out, 's');
    assert(out@ =~= format_ns_text(ns as nat));
    out
}

} // verus!
