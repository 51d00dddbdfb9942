//! Per-stage statistics: percentiles over a sorted buffer, mean, sample
//! standard deviation, a log2 latency histogram and the window jitter score.
//! All of them are exact integer computations.

use vstd::prelude::*;

verus! {

// ---------------------------------------------------------------------
// Sums
// ---------------------------------------------------------------------

/// Sum of the samples.
pub open spec fn sum(s: Seq<u64>) -> nat
    decreases s.len(),
{
    if s.len() == 0 {
        0
    } else {
        sum(s.drop_last()) + s.last() as nat
    }
}

/// Sum of the squared samples.
pub open spec fn sum_sq(s: Seq<u64>) -> nat
    decreases s.len(),
{
    if s.len() == 0 {
        0
    } else {
        sum_sq(s.drop_last()) + (s.last() as nat) * (s.last() as nat)
    }
}

/// Sum of squared deviations from `m`.
pub open spec fn sq_dev(s: Seq<u64>, m: int) -> nat
    decreases s.len(),
{
    if s.len() == 0 {
        0
    } else {
        sq_dev(s.drop_last(), m) + ((s.last() - m) * (s.last() - m)) as nat
    }
}

pub proof fn lemma_sum_prefix(s: Seq<u64>, i: int)
    requires
        0 <= i <= s.len(),
    ensures
        sum(s.take(i)) <= sum(s),
        sum_sq(s.take(i)) <= sum_sq(s),
    decreases s.len() - i,
{
    if i < s.len() {
        lemma_sum_prefix(s, i + 1);
        assert(s.take(i + 1).drop_last() == s.take(i));
    } else {
        assert(s.take(i) == s);
    }
}

proof fn lemma_sum_take_step(s: Seq<u64>, i: int)
    requires
        0 <= i < s.len(),
    ensures
        sum(s.take(i + 1)) == sum(s.take(i)) + s[i],
        sum_sq(s.take(i + 1)) == sum_sq(s.take(i)) + s[i] * s[i],
{
    assert(s.take(i + 1).drop_last() == s.take(i));
}

/// The squares never add up to more than the square of the sum.
proof fn lemma_sum_sq_le(s: Seq<u64>)
    ensures
        sum_sq(s) <= sum(s) * sum(s),
    decreases s.len(),
{
    if s.len() > 0 {
        let t = s.drop_last();
        lemma_sum_sq_le(t);
        let a = sum(t);
        let x = s.last() as nat;
        assert(sum_sq(t) + x * x <= (a + x) * (a + x)) by (nonlinear_arith)
            requires
                sum_sq(t) <= a * a,
        ;
    }
}

/// The deviation sum in closed form.
proof fn lemma_sq_dev(s: Seq<u64>, m: int)
    ensures
        sq_dev(s, m) == sum_sq(s) - 2 * m * sum(s) + s.len() * m * m,
    decreases s.len(),
{
    if s.len() > 0 {
        let t = s.drop_last();
        lemma_sq_dev(t, m);
        let x = s.last() as int;
        assert((x - m) * (x - m) == x * x - 2 * m * x + m * m) by (nonlinear_arith);
        assert((x - m) * (x - m) >= 0) by (nonlinear_arith);
        assert(sq_dev(s, m) == sq_dev(t, m) + (x - m) * (x - m));
        assert(sum(s) == sum(t) + x);
        assert(sum_sq(s) == sum_sq(t) + x * x);
        let st = sum(t) as int;
        let ss = sum(s) as int;
        assert(2 * m * ss == 2 * m * st + 2 * m * x) by (nonlinear_arith)
            requires
                ss == st + x,
        ;
        assert(s.len() * m * m == t.len() * m * m + m * m) by (nonlinear_arith)
            requires
                s.len() == t.len() + 1,
        ;
        let qs = sum_sq(s) as int;
        let qt = sum_sq(t) as int;
        let dt = sq_dev(t, m) as int;
        let ds = sq_dev(s, m) as int;
        let ns = s.len() as int;
        let nt = t.len() as int;
        assert(ds == qs - 2 * m * ss + ns * m * m) by (nonlinear_arith)
            requires
                dt == qt - 2 * m * st + nt * m * m,
                ds == dt + (x - m) * (x - m),
                ss == st + x,
                qs == qt + x * x,
                ns == nt + 1,
        ;
    } else {
        assert(s.len() * m * m == 0) by (nonlinear_arith)
            requires
                s.len() == 0,
        ;
        assert(2 * m * sum(s) == 0) by (nonlinear_arith)
            requires
                sum(s) == 0,
        ;
    }
}

// ---------------------------------------------------------------------
// Percentile, mean
// ---------------------------------------------------------------------

/// Whether the samples are in ascending order.
pub open spec fn sorted(s: Seq<u64>) -> bool {
    forall|i: int, j: int| 0 <= i <= j < s.len() ==> s[i] <= s[j]
}

/// Index the `num/den` percentile reads in a buffer of `len` samples: the
/// rank `floor(len * num / den)`, capped at the last sample.
pub open spec fn percentile_index(len: nat, num: nat, den: nat) -> nat {
    let i = len * num / den;
    if i < len {
        i
    } else {
        (len - 1) as nat
    }
}

/// The `num/den` percentile of an ascending buffer; `0` for an empty one.
pub open spec fn percentile_of(sorted: Seq<u64>, num: nat, den: nat) -> u64 {
    if sorted.len() == 0 {
        0
    } else {
        sorted[percentile_index(sorted.len(), num, den) as int]
    }
}

/// The `num/den` percentile of an ascending buffer (e.g. `99/100` for p99):
/// the sample at rank `floor(len * num / den)`, or the last one when that
/// rank is past the end. `0` for an empty buffer.
pub fn percentile(sorted: &[u64], num: u64, den: u64) -> (r: u64)
    requires
        den > 0,
    ensures
        r == percentile_of(sorted@, num as nat, den as nat),
{
    let n = sorted.len();
    if n == 0 {
        return 0;
    }
    assert((n as u128) * (num as u128) <= u128::MAX) by (nonlinear_arith)
        requires
            n <= u64::MAX,
            num <= u64::MAX,
    ;
    let prod: u128 = (n as u128) * (num as u128);
    let i128: u128 = prod / (den as u128);
    let idx: usize = if i128 < n as u128 {
        i128 as usize
    } else {
        n - 1
    };
    sorted[idx]
}

/// Arithmetic mean rounded down; `0` for no samples.
pub open spec fn mean_of(s: Seq<u64>) -> nat {
    if s.len() == 0 {
        0
    } else {
        sum(s) / s.len()
    }
}

/// Sum of the samples; they must add up within `u64`.
pub fn sum_u64(s: &[u64]) -> (r: u64)
    requires
        sum(s@) <= u64::MAX,
    ensures
        r == sum(s@),
{
    let mut acc: u64 = 0;
    let mut i: usize = 0;
    while i < s.len()
        invariant
            i <= s@.len(),
            sum(s@) <= u64::MAX,
            acc == sum(s@.take(i as int)),
        decreases s@.len() - i,
    {
        proof {
            lemma_sum_take_step(s@, i as int);
            lemma_sum_prefix(s@, i as int + 1);
        }
        acc = acc + s[i];
        i += 1;
    }
    assert(s@.take(s@.len() as int) == s@);
    acc
}

/// Arithmetic mean, rounded down; `0` if empty. The samples must add up
/// within `u64`.
pub fn mean(s: &[u64]) -> (r: u64)
    requires
        sum(s@) <= u64::MAX,
    ensures
        r == mean_of(s@),
{
    if s.len() == 0 {
        return 0;
    }
    sum_u64(s) / (s.len() as u64)
}

// ---------------------------------------------------------------------
// Rounded square roots
// ---------------------------------------------------------------------

/// `r` is `sqrt(a / b)` rounded to the nearest integer, halves up.
pub open spec fn is_round_sqrt(r: int, a: int, b: int) -> bool {
    &&& r >= 0
    &&& (r == 0 || (2 * r - 1) * (2 * r - 1) * b <= 4 * a)
    &&& 4 * a < (2 * r + 1) * (2 * r + 1) * b
}

/// Integer square root: the largest `k` with `k * k <= x`.
pub fn isqrt(x: u128) -> (k: u64)
    ensures
        k * k <= x < (k + 1) * (k + 1),
{
    let mut lo: u128 = 0;
    let mut hi: u128 = 0x1_0000_0000_0000_0000;
    assert(x < hi * hi) by (nonlinear_arith)
        requires
            hi == 0x1_0000_0000_0000_0000u128,
            x <= u128::MAX,
    ;
    while hi - lo > 1
        invariant
            lo < hi <= 0x1_0000_0000_0000_0000u128,
            lo * lo <= x,
            x < hi * hi,
        decreases hi - lo,
    {
        let mid: u128 = lo + (hi - lo) / 2;
        assert(mid * mid <= 0xFFFF_FFFF_FFFF_FFFE_0000_0000_0000_0001u128) by (nonlinear_arith)
            requires
                mid < 0x1_0000_0000_0000_0000u128,
        ;
        if mid * mid <= x {
            lo = mid;
        } else {
            hi = mid;
        }
    }
    assert(hi == lo + 1);
    lo as u64
}

proof fn lemma_round_up_far(a: int, b: int, q: int, f: int, k: int)
    requires
        b > 0,
        0 <= f < b,
        a == q * b + f,
        k >= 0,
        k * k <= q < (k + 1) * (k + 1),
        q >= k * k + k + 1,
    ensures
        is_round_sqrt(k + 1, a, b),
{
    assert((2 * k + 1) * (2 * k + 1) * b <= 4 * a) by (nonlinear_arith)
        requires
            b > 0,
            f >= 0,
            a == q * b + f,
            q >= k * k + k + 1,
    ;
    assert(4 * a < (2 * k + 3) * (2 * k + 3) * b) by (nonlinear_arith)
        requires
            b > 0,
            f < b,
            a == q * b + f,
            q < (k + 1) * (k + 1),
            k >= 0,
    ;
}

proof fn lemma_round_up_tie(a: int, b: int, q: int, f: int, k: int)
    requires
        b > 0,
        0 <= f < b,
        a == q * b + f,
        k >= 0,
        q == k * k + k,
        4 * f >= b,
    ensures
        is_round_sqrt(k + 1, a, b),
{
    assert((2 * k + 1) * (2 * k + 1) * b <= 4 * a) by (nonlinear_arith)
        requires
            a == q * b + f,
            q == k * k + k,
            4 * f >= b,
    ;
    assert(4 * a < (2 * k + 3) * (2 * k + 3) * b) by (nonlinear_arith)
        requires
            b > 0,
            f < b,
            a == q * b + f,
            q == k * k + k,
            k >= 0,
    ;
}

proof fn lemma_round_down(a: int, b: int, q: int, f: int, k: int)
    requires
        b > 0,
        0 <= f < b,
        a == q * b + f,
        k >= 0,
        k * k <= q,
        q < k * k + k || (q == k * k + k && 4 * f < b),
    ensures
        is_round_sqrt(k, a, b),
{
    if k > 0 {
        assert((2 * k - 1) * (2 * k - 1) * b <= 4 * a) by (nonlinear_arith)
            requires
                b > 0,
                f >= 0,
                a == q * b + f,
                k * k <= q,
                k > 0,
        ;
    }
    if q < k * k + k {
        assert(4 * a < (2 * k + 1) * (2 * k + 1) * b) by (nonlinear_arith)
            requires
                b > 0,
                f < b,
                a == q * b + f,
                q + 1 <= k * k + k,
        ;
    } else {
        assert(4 * a < (2 * k + 1) * (2 * k + 1) * b) by (nonlinear_arith)
            requires
                b > 0,
                a == q * b + f,
                q == k * k + k,
                4 * f < b,
        ;
    }
}

/// `sqrt(q + f / b)` rounded to the nearest integer (halves up), given the
/// quotient `q` and remainder `f` of some `a` divided by `b`.
fn round_sqrt_qr(q: u128, f: u128, b: u128) -> (r: u64)
    requires
        b > 0,
        f < b,
        q <= 0xFFFF_FFFF_FFFF_FFFE_0000_0000_0000_0001u128,
    ensures
        is_round_sqrt(r as int, q * b + f, b as int),
{
    let k = isqrt(q);
    let kk: u128 = (k as u128) * (k as u128);
    // `4 * f >= b`, written without overflow.
    let quarter_up: u128 = b / 4 + if b % 4 == 0 {
        0
    } else {
        1
    };
    let tie_up = f >= quarter_up;
    assert(tie_up == (4 * f >= b));
    if q - kk > k as u128 || (q - kk == k as u128 && tie_up) {
        proof {
            if q - kk > k as u128 {
                lemma_round_up_far(q * b + f, b as int, q as int, f as int, k as int);
            } else {
                lemma_round_up_tie(q * b + f, b as int, q as int, f as int, k as int);
            }
        }
        if k == u64::MAX {
            assert(kk == 0xFFFF_FFFF_FFFF_FFFE_0000_0000_0000_0001u128);
            assert(false);
        }
        k + 1
    } else {
        proof {
            lemma_round_down(q * b + f, b as int, q as int, f as int, k as int);
        }
        k
    }
}

// ---------------------------------------------------------------------
// Standard deviation
// ---------------------------------------------------------------------

/// Sample standard deviation (n - 1 denominator) around the rounded-down
/// mean, rounded to the nearest integer; `0` for fewer than two samples.
pub open spec fn is_stddev(r: u64, s: Seq<u64>) -> bool {
    if s.len() < 2 {
        r == 0
    } else {
        is_round_sqrt(r as int, sq_dev(s, mean_of(s) as int) as int, s.len() - 1)
    }
}

/// The deviations around the rounded-down mean add up to no more than the
/// squares do.
proof fn lemma_sq_dev_bound(s: Seq<u64>)
    requires
        s.len() > 0,
    ensures
        sq_dev(s, mean_of(s) as int) <= sum_sq(s),
{
    let m = mean_of(s) as int;
    let n = s.len() as int;
    let t = sum(s) as int;
    lemma_sq_dev(s, m);
    assert(n * m <= t) by (nonlinear_arith)
        requires
            m == t / n,
            n > 0,
            t >= 0,
    ;
    assert(n * m * m <= m * t) by (nonlinear_arith)
        requires
            n * m <= t,
            m >= 0,
    ;
    assert(2 * m * t >= m * t) by (nonlinear_arith)
        requires
            m >= 0,
            t >= 0,
    ;
    assert(sq_dev(s, m) == sum_sq(s) - 2 * m * t + n * m * m);
}

proof fn lemma_sq_dev_prefix(s: Seq<u64>, m: int, i: int)
    requires
        0 <= i <= s.len(),
    ensures
        sq_dev(s.take(i), m) <= sq_dev(s, m),
    decreases s.len() - i,
{
    if i < s.len() {
        lemma_sq_dev_prefix(s, m, i + 1);
        assert(s.take(i + 1).drop_last() == s.take(i));
    } else {
        assert(s.take(i) == s);
    }
}

/// Sample standard deviation, rounded to the nearest integer: `0` when there
/// are fewer than two samples. The samples must add up within `u64`.
pub fn stddev(s: &[u64]) -> (r: u64)
    requires
        sum(s@) <= u64::MAX,
    ensures
        is_stddev(r, s@),
{
    let n = s.len();
    if n < 2 {
        return 0;
    }
    let m = mean(s);
    proof {
        lemma_sq_dev_bound(s@);
        lemma_sum_sq_le(s@);
        assert(sum(s@) * sum(s@) <= u64::MAX * u64::MAX) by (nonlinear_arith)
            requires
                sum(s@) <= u64::MAX,
        ;
    }
    let ghost total = sq_dev(s@, m as int);
    let mut acc: u128 = 0;
    let mut i: usize = 0;
    while i < n
        invariant
            i <= n == s@.len(),
            total == sq_dev(s@, m as int),
            total <= u64::MAX * u64::MAX,
            acc == sq_dev(s@.take(i as int), m as int),
        decreases n - i,
    {
        proof {
            assert(s@.take(i as int + 1).drop_last() == s@.take(i as int));
            lemma_sq_dev_prefix(s@, m as int, i as int + 1);
        }
        let v = s[i];
        let d: u64 = if v >= m {
            v - m
        } else {
            m - v
        };
        assert((d as u128) * (d as u128) <= u128::MAX) by (nonlinear_arith)
            requires
                d <= u64::MAX,
        ;
        let d2: u128 = (d as u128) * (d as u128);
        assert(d2 == (v - m) * (v - m)) by (nonlinear_arith)
            requires
                d == v - m || d == m - v,
                d2 == d * d,
        ;
        acc = acc + d2;
        i += 1;
    }
    assert(s@.take(n as int) == s@);
    let b: u128 = (n - 1) as u128;
    proof {
        vstd::arithmetic::div_mod::lemma_fundamental_div_mod(acc as int, b as int);
        assert(acc / b <= acc);
        assert((acc / b) * b == b * (acc / b)) by (nonlinear_arith);
        assert(acc == sq_dev(s@, m as int));
    }
    round_sqrt_qr(acc / b, acc % b, b)
}

// ---------------------------------------------------------------------
// Log2 histogram
// ---------------------------------------------------------------------

/// `floor(log2(v))`, with `0` for `v <= 1`.
pub open spec fn log2(v: nat) -> nat
    decreases v,
{
    if v < 2 {
        0
    } else {
        1 + log2(v / 2)
    }
}

/// How many samples land in bucket `b`, where a sample `v` lands in bucket
/// `floor(log2 v)` (bucket `0` for `v == 0`).
pub open spec fn bucket_count(s: Seq<u64>, b: nat) -> nat
    decreases s.len(),
{
    if s.len() == 0 {
        0
    } else {
        bucket_count(s.drop_last(), b) + if log2(s.last() as nat) == b {
            1nat
        } else {
            0nat
        }
    }
}

proof fn lemma_bucket_count_le(s: Seq<u64>, b: nat)
    ensures
        bucket_count(s, b) <= s.len(),
    decreases s.len(),
{
    if s.len() > 0 {
        lemma_bucket_count_le(s.drop_last(), b);
    }
}

proof fn lemma_log2_lower(v: nat)
    requires
        v >= 1,
    ensures
        vstd::arithmetic::power2::pow2(log2(v)) <= v,
    decreases v,
{
    if v >= 2 {
        lemma_log2_lower(v / 2);
        vstd::arithmetic::power2::lemma_pow2_unfold(log2(v));
    } else {
        vstd::arithmetic::power2::lemma2_to64();
    }
}

proof fn lemma_log2_bound(v: nat)
    requires
        v <= u64::MAX,
    ensures
        log2(v) < 64,
{
    if v >= 1 && log2(v) >= 64 {
        lemma_log2_lower(v);
        vstd::arithmetic::power2::lemma2_to64();
        if log2(v) > 64 {
            vstd::arithmetic::power2::lemma_pow2_strictly_increases(64, log2(v));
        }
    }
}

fn log2_u64(v: u64) -> (r: usize)
    ensures
        r == log2(v as nat),
        r < 64,
{
    proof {
        lemma_log2_bound(v as nat);
    }
    let mut x = v;
    let mut k: usize = 0;
    while x >= 2
        invariant
            log2(v as nat) == k + log2(x as nat),
            log2(v as nat) < 64,
        decreases x,
    {
        x = x / 2;
        k += 1;
    }
    k
}

/// Log2-spaced latency histogram: 64 buckets, bucket `i` counting the
/// samples in `[2^i, 2^(i+1))` (zero goes to bucket 0).
pub fn cdf_buckets(s: &[u64]) -> (r: Vec<u64>)
    ensures
        r@.len() == 64,
        forall|b: int| 0 <= b < 64 ==> #[trigger] r@[b] == bucket_count(s@, b as nat),
{
    let mut buckets: Vec<u64> = Vec::new();
    let mut j: usize = 0;
    while j < 64
        invariant
            j <= 64,
            buckets@.len() == j,
            forall|b: int| 0 <= b < j ==> #[trigger] buckets@[b] == 0,
        decreases 64 - j,
    {
        buckets.push(0);
        j += 1;
    }
    let mut i: usize = 0;
    while i < s.len()
        invariant
            i <= s@.len(),
            buckets@.len() == 64,
            forall|b: int| 0 <= b < 64 ==> #[trigger] buckets@[b] == bucket_count(
                s@.take(i as int),
                b as nat,
            ),
        decreases s@.len() - i,
    {
        let idx = log2_u64(s[i]);
        proof {
            lemma_bucket_count_le(s@.take(i as int), idx as nat);
            assert(s@.take(i as int + 1).drop_last() == s@.take(i as int));
        }
        let cur = buckets[idx];
        buckets.set(idx, cur + 1);
        i += 1;
    }
    assert(s@.take(s@.len() as int) == s@);
    buckets
}

// ---------------------------------------------------------------------
// Jitter
// ---------------------------------------------------------------------

/// Sum of window `w` (samples `32w .. 32w + 32`).
pub open spec fn window_sum(s: Seq<u64>, w: int) -> nat {
    sum(s.subrange(32 * w, 32 * w + 32))
}

/// Sums of the first `k` windows.
pub open spec fn window_sums_total(s: Seq<u64>, k: nat) -> nat
    decreases k,
{
    if k == 0 {
        0
    } else {
        window_sums_total(s, (k - 1) as nat) + window_sum(s, k - 1)
    }
}

/// Sum of the squared sums of the first `k` windows.
pub open spec fn window_sums_sq(s: Seq<u64>, k: nat) -> nat
    decreases k,
{
    if k == 0 {
        0
    } else {
        window_sums_sq(s, (k - 1) as nat) + window_sum(s, k - 1) * window_sum(s, k - 1)
    }
}

/// The jitter score in ten-thousandths: the coefficient of variation of the
/// means of the non-overlapping 32-sample windows, clamped to `[0, 1]` and
/// rounded to four decimals (halves up). With `T` the sum of the window sums,
/// `Q` the sum of their squares and `W` the window count, the coefficient is
/// `sqrt(W * Q - T^2) / T`. `0` when there are fewer than two windows or every
/// windowed sample is zero.
pub open spec fn is_jitter_e4(r: u64, s: Seq<u64>) -> bool {
    let w = s.len() / 32;
    let t = window_sums_total(s, w);
    let q = window_sums_sq(s, w);
    let e = w * q - t * t;
    if s.len() < 64 || t == 0 {
        r == 0
    } else if e >= t * t {
        r == 10000
    } else {
        is_round_sqrt(r as int, 100000000 * e, (t * t) as int)
    }
}

/// `q`, `r` with `a * m == q * d + r` and `r < d`, for `a <= d`, computed
/// without overflowing.
fn mul_div(a: u128, m: u128, d: u128) -> (qr: (u128, u128))
    requires
        0 < d,
        a <= d,
    ensures
        a * m == qr.0 * d + qr.1,
        qr.1 < d,
{
    let mut q: u128 = 0;
    let mut r: u128 = 0;
    let mut bit: u32 = 128;
    assert(m >> 128u32 == 0) by (bit_vector);
    // Processes the bits of `m` from the most significant one.
    while bit > 0
        invariant
            bit <= 128,
            r < d,
            a <= d,
            0 < d,
            q <= (m >> bit),
            a * (m >> bit) == q * d + r,
        decreases bit,
    {
        let ghost prev: int = (m >> bit) as int;
        let ghost q0: int = q as int;
        let ghost r0: int = r as int;
        bit -= 1;
        let b = (m >> bit) & 1;
        assert((m >> bit) == 2 * (m >> (bit + 1) as u32) + b && b <= 1) by (bit_vector)
            requires
                bit < 128,
                b == (m >> bit) & 1,
        ;
        assert((m >> (bit + 1) as u32) <= 0x7FFF_FFFF_FFFF_FFFF_FFFF_FFFF_FFFF_FFFFu128) by (bit_vector)
            requires
                bit < 128,
        ;
        assert(prev == (m >> (bit + 1) as u32));
        // Double.
        if r >= d - r {
            r = r - (d - r);
            q = 2 * q + 1;
        } else {
            r = r + r;
            q = 2 * q;
        }
        assert(a * (2 * prev) == q * d + r) by (nonlinear_arith)
            requires
                a * prev == q0 * d + r0,
                (q == 2 * q0 + 1 && r == 2 * r0 - d) || (q == 2 * q0 && r == 2 * r0),
        ;
        if b == 1 {
            assert(a * (m >> bit) == q * d + r + a) by (nonlinear_arith)
                requires
                    a * (2 * prev) == q * d + r,
                    (m >> bit) == 2 * prev + 1,
            ;
            if r >= d - a {
                assert(q + 1 <= (m >> bit)) by (nonlinear_arith)
                    requires
                        a * (m >> bit) == q * d + r + a,
                        r + a >= d,
                        a <= d,
                        0 < d,
                ;
                let ghost q1 = q;
                let ghost r1 = r;
                r = r - (d - a);
                q = q + 1;
                assert(a * (m >> bit) == q * d + r) by (nonlinear_arith)
                    requires
                        a * (m >> bit) == q1 * d + r1 + a,
                        q == q1 + 1,
                        r == r1 + a - d,
                ;
            } else {
                r = r + a;
            }
        } else {
            assert(a * (m >> bit) == q * d + r) by (nonlinear_arith)
                requires
                    a * (2 * prev) == q * d + r,
                    (m >> bit) == 2 * prev,
            ;
        }
        assert(q <= (m >> bit)) by (nonlinear_arith)
            requires
                a * (m >> bit) == q * d + r,
                a <= d,
                0 < d,
                r >= 0,
        ;
    }
    assert(m >> 0u32 == m) by (bit_vector);
    (q, r)
}

proof fn lemma_sum_concat(a: Seq<u64>, b: Seq<u64>)
    ensures
        sum(a + b) == sum(a) + sum(b),
    decreases b.len(),
{
    if b.len() == 0 {
        assert(a + b == a);
    } else {
        assert((a + b).drop_last() == a + b.drop_last());
        lemma_sum_concat(a, b.drop_last());
    }
}

proof fn lemma_window_total(s: Seq<u64>, k: nat)
    requires
        32 * k <= s.len(),
    ensures
        window_sums_total(s, k) == sum(s.take(32 * k as int)),
    decreases k,
{
    if k == 0 {
        assert(s.take(0) == Seq::<u64>::empty());
    } else {
        let j = (k - 1) as nat;
        lemma_window_total(s, j);
        let a = 32 * j as int;
        assert(s.take(a + 32) == s.take(a) + s.subrange(a, a + 32));
        lemma_sum_concat(s.take(a), s.subrange(a, a + 32));
    }
}

proof fn lemma_window_sq_le(s: Seq<u64>, k: nat)
    ensures
        window_sums_sq(s, k) <= window_sums_total(s, k) * window_sums_total(s, k),
    decreases k,
{
    if k > 0 {
        let j = (k - 1) as nat;
        lemma_window_sq_le(s, j);
        let a = window_sums_total(s, j);
        let x = window_sum(s, j as int);
        assert(window_sums_sq(s, j) + x * x <= (a + x) * (a + x)) by (nonlinear_arith)
            requires
                window_sums_sq(s, j) <= a * a,
        ;
    }
}

/// The jitter score in ten-thousandths (see [`is_jitter_e4`]): `0` below two
/// 32-sample windows, at most `10000`. The samples must add up within `u64`.
pub fn jitter_score(s: &[u64]) -> (r: u64)
    requires
        sum(s@) <= u64::MAX,
    ensures
        is_jitter_e4(r, s@),
        r <= 10000,
{
    let n = s.len();
    if n < 64 {
        return 0;
    }
    let w = n / 32;
    let mut t: u64 = 0;
    let mut q: u128 = 0;
    let mut k: usize = 0;
    let mut i: usize = 0;
    while k < w
        invariant
            w == s@.len() / 32,
            s@.len() == n,
            k <= w,
            i == 32 * k,
            sum(s@) <= u64::MAX,
            t == window_sums_total(s@, k as nat),
            t == sum(s@.take(i as int)),
            q == window_sums_sq(s@, k as nat),
        decreases w - k,
    {
        assert(32 * (k + 1) <= 32 * w <= s@.len());
        let start = t;
        let mut acc = t;
        let mut j: usize = 0;
        while j < 32
            invariant
                j <= 32,
                i + 32 <= s@.len(),
                s@.len() == n,
                sum(s@) <= u64::MAX,
                acc == sum(s@.take(i + j)),
                start == sum(s@.take(i as int)),
            decreases 32 - j,
        {
            proof {
                lemma_sum_take_step(s@, (i + j) as int);
                lemma_sum_prefix(s@, (i + j + 1) as int);
            }
            acc = acc + s[i + j];
            j += 1;
        }
        proof {
            lemma_window_total(s@, k as nat + 1);
            lemma_window_total(s@, k as nat);
            lemma_sum_prefix(s@, i as int + 32);
            lemma_window_sq_le(s@, k as nat + 1);
        }
        let ws = acc - start;
        assert(ws == window_sum(s@, k as int));
        assert((acc as int) * (acc as int) <= u64::MAX * u64::MAX) by (nonlinear_arith)
            requires
                acc <= u64::MAX,
        ;
        assert(q + ws * ws <= u64::MAX * u64::MAX) by (nonlinear_arith)
            requires
                q + ws * ws <= acc * acc,
                acc * acc <= u64::MAX * u64::MAX,
        ;
        t = acc;
        q = q + (ws as u128) * (ws as u128);
        k += 1;
        i += 32;
    }
    if t == 0 {
        return 0;
    }
    proof {
        lemma_window_sq_le(s@, w as nat);
        assert((t as int) * (t as int) <= u64::MAX * u64::MAX) by (nonlinear_arith)
            requires
                t <= u64::MAX,
        ;
    }
    let d: u128 = (t as u128) * (t as u128);
    assert(d > 0) by (nonlinear_arith)
        requires
            d == t * t,
            t > 0,
    ;
    let m: u128 = (w as u128) * 100_000_000;
    let (qq, rr) = mul_div(q, m, d);
    let ghost e: int = w * q - t * t;
    assert(100000000 * e == (qq - 100000000) * d + rr) by (nonlinear_arith)
        requires
            q * m == qq * d + rr,
            m == w * 100000000,
            d == t * t,
            e == w * q - t * t,
    ;
    if qq >= 200_000_000 {
        assert(e >= t * t) by (nonlinear_arith)
            requires
                100000000 * e == (qq - 100000000) * d + rr,
                qq >= 200000000,
                rr >= 0,
                d == t * t,
        ;
        return 10000;
    }
    assert(e < t * t) by (nonlinear_arith)
        requires
            100000000 * e == (qq - 100000000) * d + rr,
            qq < 200000000,
            rr < d,
            d == t * t,
    ;
    if qq < 100_000_000 {
        assert(e < 0) by (nonlinear_arith)
            requires
                100000000 * e == (qq - 100000000) * d + rr,
                qq < 100000000,
                rr < d,
        ;
        return 0;
    }
    let r = round_sqrt_qr(qq - 100_000_000, rr, d);
    assert(r <= 10000) by (nonlinear_arith)
        requires
            is_round_sqrt(r as int, (qq - 100000000) * d + rr, d as int),
            qq < 200000000,
            rr < d,
            d > 0,
    ;
    r
}


/// A rounded square root is unique.
pub proof fn lemma_round_sqrt_unique(r1: int, r2: int, a: int, b: int)
    requires
        b > 0,
        is_round_sqrt(r1, a, b),
        is_round_sqrt(r2, a, b),
    ensures
        r1 == r2,
{
    if r1 < r2 {
        assert((2 * r1 + 1) * (2 * r1 + 1) * b <= (2 * r2 - 1) * (2 * r2 - 1) * b) by (nonlinear_arith)
            requires
                0 <= r1,
                r1 + 1 <= r2,
                b > 0,
        ;
    } else if r2 < r1 {
        assert((2 * r2 + 1) * (2 * r2 + 1) * b <= (2 * r1 - 1) * (2 * r1 - 1) * b) by (nonlinear_arith)
            requires
                0 <= r2,
                r2 + 1 <= r1,
                b > 0,
        ;
    }
}

/// The standard deviation and the jitter score of a sample set are each
/// one number.
pub proof fn lemma_stddev_jitter_unique(s: Seq<u64>, d1: u64, d2: u64, j1: u64, j2: u64)
    requires
        is_stddev(d1, s),
        is_stddev(d2, s),
        is_jitter_e4(j1, s),
        is_jitter_e4(j2, s),
    ensures
        d1 == d2,
        j1 == j2,
{
    if s.len() >= 2 {
        lemma_round_sqrt_unique(d1 as int, d2 as int, sq_dev(s, mean_of(s) as int) as int, s.len() - 1);
    }
    let w = s.len() / 32;
    let t = window_sums_total(s, w);
    if s.len() >= 64 && t != 0 {
        let q = window_sums_sq(s, w);
        let e = w * q - t * t;
        if e < t * t {
            assert(t * t > 0) by (nonlinear_arith)
                requires
                    t != 0,
            ;
            lemma_round_sqrt_unique(j1 as int, j2 as int, 100000000 * e, (t * t) as int);
        }
    }
}

} // verus!
