//! SC16 IQ samples (interleaved little-endian I/Q) to magnitudes.
//!
//! The magnitude of a sample is the integer part of the single-precision
//! square root of `i*i + q*q` evaluated in single precision, as the usual
//! dump1090/readsb `f32` path computes it: each square and the sum are
//! rounded to 24 significant bits (nearest, ties to even), the square root is
//! rounded the same way, and the result is truncated. All of it is computed
//! here exactly with integers.
use vstd::prelude::*;

verus! {

/// The smallest power of two `u >= from` (from a power of two) with `v / u < 2^24`.
pub open spec fn unit_from(v: nat, u: nat) -> nat
    decreases (if u == 0 || u > v { 0 } else { v + 1 - u }),
{
    if u == 0 || v / u < 0x100_0000 || u > v {
        u
    } else {
        unit_from(v, 2 * u)
    }
}

/// `v` rounded to 24 significant bits, to nearest with ties to even: the
/// single-precision value of the integer `v`.
pub open spec fn rn24(v: nat) -> nat {
    let u = unit_from(v, 1);
    let q = v / u;
    let r = v % u;
    if 2 * r > u || (2 * r == u && q % 2 == 1) {
        (q + 1) * u
    } else {
        q * u
    }
}

/// `floor(log4(x))` for `x >= 1` (0 for `x < 4`).
pub open spec fn log4(x: nat) -> nat
    decreases x,
{
    if x < 4 {
        0
    } else {
        1 + log4(x / 4)
    }
}

pub open spec fn pow4(n: nat) -> nat
    decreases n,
{
    if n == 0 {
        1
    } else {
        4 * pow4((n - 1) as nat)
    }
}

pub open spec fn pow2n(n: nat) -> nat
    decreases n,
{
    if n == 0 {
        1
    } else {
        2 * pow2n((n - 1) as nat)
    }
}

/// `s` is the integer square root of `n`.
pub open spec fn is_isqrt(s: nat, n: nat) -> bool {
    s * s <= n < (s + 1) * (s + 1)
}

/// The integer square root.
pub open spec fn isqrt(n: nat) -> nat {
    choose|s: nat| #[trigger] is_isqrt(s, n)
}

/// The integer part of the single-precision value nearest to `sqrt(x)`:
/// `sqrt(x)` lies in binade `e = log4(x)`, where single-precision numbers are
/// the multiples of `2^-t` with `t = 23 - e`; `k` is the grid point below,
/// rounded up when `sqrt(x)` is past the midpoint (ties cannot occur).
pub open spec fn sqrt_f32_trunc(x: nat) -> nat {
    let t = (23 - log4(x)) as nat;
    let y = x * pow4(t);
    let k = isqrt(y);
    let k2 = if 4 * y >= (2 * k + 1) * (2 * k + 1) { k + 1 } else { k };
    k2 / pow2n(t)
}

/// The magnitude of one IQ sample, as the single-precision path computes it.
pub open spec fn mag_spec(i: i16, q: i16) -> nat {
    let x = rn24(rn24((i * i) as nat) + rn24((q * q) as nat));
    if x == 0 {
        0
    } else {
        sqrt_f32_trunc(x)
    }
}


// ---------------------------------------------------------------- lemmas

proof fn lemma_pow2n_small()
    ensures
        pow2n(0) == 1,
        pow2n(8) == 256,
        forall|k: nat| k <= 8 ==> 1 <= #[trigger] pow2n(k) <= 256,
        forall|k: nat| #[trigger] pow2n(k + 1) == 2 * pow2n(k),
{
    reveal_with_fuel(pow2n, 9);
    assert forall|k: nat| k <= 8 implies 1 <= #[trigger] pow2n(k) <= 256 by {
        reveal_with_fuel(pow2n, 9);
    }
}

proof fn lemma_pow4_small()
    ensures
        forall|k: nat| k <= 24 ==> 1 <= #[trigger] pow4(k) <= pow4(24),
        pow4(24) == 0x1_0000_0000_0000,
        forall|k: nat| #[trigger] pow4(k + 1) == 4 * pow4(k),
{
    reveal_with_fuel(pow4, 25);
    assert forall|k: nat| k <= 24 implies 1 <= #[trigger] pow4(k) <= pow4(24) by {
        lemma_pow4_mono(k, 24);
    }
}

proof fn lemma_pow4_mono(a: nat, b: nat)
    requires
        a <= b,
    ensures
        1 <= pow4(a) <= pow4(b),
    decreases b,
{
    if b > 0 && a < b {
        lemma_pow4_mono(a, (b - 1) as nat);
    } else if b > 0 {
        lemma_pow4_mono(0, (b - 1) as nat);
    }
}

proof fn lemma_pow4_add(a: nat, b: nat)
    ensures
        pow4(a) * pow4(b) == pow4(a + b),
    decreases a,
{
    if a > 0 {
        let a1 = (a - 1) as nat;
        lemma_pow4_add(a1, b);
        assert(pow4(a) == 4 * pow4(a1));
        assert(pow4(a1 + b + 1) == 4 * pow4(a1 + b));
        assert(a1 + b + 1 == a + b);
        let x = pow4(a1);
        let y = pow4(b);
        assert((4 * x) * y == 4 * (x * y)) by (nonlinear_arith);
        assert(pow4(a) * pow4(b) == pow4(a + b));
    } else {
        assert(pow4(0) == 1);
        let y = pow4(b);
        assert(1 * y == y);
        assert(pow4(a) * pow4(b) == pow4(a + b));
    }
}

proof fn lemma_pow4_pow2(t: nat)
    ensures
        pow4(t) == pow2n(t) * pow2n(t),
    decreases t,
{
    if t > 0 {
        let t1 = (t - 1) as nat;
        lemma_pow4_pow2(t1);
        assert(pow4(t) == 4 * pow4(t1));
        assert(pow2n(t) == 2 * pow2n(t1));
        let p = pow2n(t1);
        assert((2 * p) * (2 * p) == 4 * (p * p)) by (nonlinear_arith);
    } else {
        assert(pow4(0) == 1);
        assert(pow2n(0) == 1);
    }
}

/// `log4` brackets its argument.
proof fn lemma_log4(x: nat)
    requires
        x >= 1,
    ensures
        pow4(log4(x)) <= x < pow4(log4(x) + 1),
    decreases x,
{
    if x >= 4 {
        lemma_log4(x / 4);
        let e = log4(x / 4);
        assert(pow4(e + 1) == 4 * pow4(e));
        assert(pow4(e + 2) == 4 * pow4(e + 1));
    } else {
        assert(pow4(1) == 4 * pow4(0));
    }
}

proof fn lemma_log4_bound(x: nat)
    requires
        1 <= x < 0x1_0000_0000,
    ensures
        log4(x) <= 15,
{
    lemma_log4(x);
    lemma_pow4_small();
    if log4(x) >= 16 {
        lemma_pow4_mono(16, log4(x));
        reveal_with_fuel(pow4, 17);
        assert(pow4(16) == 0x1_0000_0000);
    }
}

/// The integer square root is unique.
proof fn lemma_isqrt_unique(s: nat, n: nat)
    requires
        is_isqrt(s, n),
    ensures
        isqrt(n) == s,
{
    let r = isqrt(n);
    assert(is_isqrt(r, n));
    if r < s {
        assert((r + 1) * (r + 1) <= s * s) by (nonlinear_arith)
            requires r + 1 <= s;
    } else if s < r {
        assert((s + 1) * (s + 1) <= r * r) by (nonlinear_arith)
            requires s + 1 <= r;
    }
}

/// Below `2^32` the rounding unit is at most 256.
proof fn lemma_unit_bound(v: nat, k: nat)
    requires
        v < 0x1_0000_0000,
        k <= 8,
    ensures
        1 <= unit_from(v, pow2n(k)) <= 256,
        exists|j: nat| j <= 8 && unit_from(v, pow2n(k)) == #[trigger] pow2n(j),
    decreases 8 - k,
{
    lemma_pow2n_small();
    let u = pow2n(k);
    if v / u < 0x100_0000 || u > v {
    } else {
        if k == 8 {
            assert(v / 256 < 0x100_0000);
        } else {
            lemma_unit_bound(v, k + 1);
        }
    }
}

/// Rounding stays within half a unit above, and never overshoots `2^32`.
proof fn lemma_rn24_bound(v: nat)
    requires
        v < 0x1_0000_0000,
    ensures
        rn24(v) <= v + 128,
        v < 0x100_0000 ==> rn24(v) == v,
{
    lemma_unit_bound(v, 0);
    lemma_pow2n_small();
    let u = unit_from(v, 1);
    let q = v / u;
    let r = v % u;
    assert(v == q * u + r) by (nonlinear_arith)
        requires u >= 1, q == v / u, r == v % u;
    assert((q + 1) * u == q * u + u) by (nonlinear_arith);
    if v < 0x100_0000 {
        assert(u == 1);
    }
}


// ---------------------------------------------------------------- exec

/// `v` as the nearest single-precision value (ties to even).
fn round24(v: u64) -> (r: u64)
    requires
        v < 0x1_0000_0000,
    ensures
        r == rn24(v as nat),
        r <= v + 128,
{
    proof {
        lemma_pow2n_small();
        lemma_rn24_bound(v as nat);
    }
    let mut u: u64 = 1;
    let ghost mut k: nat = 0;
    while !(v / u < 0x100_0000 || u > v)
        invariant
            v < 0x1_0000_0000,
            k <= 8,
            u == pow2n(k),
            unit_from(v as nat, u as nat) == unit_from(v as nat, 1),
            forall|j: nat| #[trigger] pow2n(j + 1) == 2 * pow2n(j),
            forall|j: nat| j <= 8 ==> 1 <= #[trigger] pow2n(j) <= 256,
            pow2n(8) == 256,
        decreases 8 - k,
    {
        proof {
            if k == 8 {
                assert(v / 256 < 0x100_0000);
            }
        }
        u = u * 2;
        proof {
            k = k + 1;
        }
    }
    let q = v / u;
    let r = v % u;
    if 2 * r > u || (2 * r == u && q % 2 == 1) {
        (q + 1) * u
    } else {
        q * u
    }
}

fn log4_of(x: u64) -> (e: u64)
    requires
        1 <= x < 0x1_0000_0000,
    ensures
        e == log4(x as nat),
        e <= 15,
{
    proof {
        lemma_log4_bound(x as nat);
    }
    let mut y = x;
    let mut e: u64 = 0;
    while y >= 4
        invariant
            1 <= y <= x,
            e + log4(y as nat) == log4(x as nat),
            log4(x as nat) <= 15,
        decreases y,
    {
        y = y / 4;
        e = e + 1;
    }
    e
}

fn pow4_of(t: u64) -> (p: u64)
    requires
        t <= 24,
    ensures
        p == pow4(t as nat),
{
    proof {
        lemma_pow4_small();
    }
    let mut p: u64 = 1;
    let mut k: u64 = 0;
    while k < t
        invariant
            k <= t <= 24,
            p == pow4(k as nat),
            forall|j: nat| j <= 24 ==> 1 <= #[trigger] pow4(j) <= pow4(24),
            pow4(24) == 0x1_0000_0000_0000,
            forall|j: nat| #[trigger] pow4(j + 1) == 4 * pow4(j),
        decreases t - k,
    {
        p = p * 4;
        k = k + 1;
    }
    p
}

fn pow2_of(t: u64) -> (p: u64)
    requires
        t <= 24,
    ensures
        p == pow2n(t as nat),
        p >= 1,
{
    proof {
        lemma_pow4_small();
    }
    let mut p: u64 = 1;
    let mut k: u64 = 0;
    while k < t
        invariant
            k <= t <= 24,
            p == pow2n(k as nat),
            1 <= p,
            p * p == pow4(k as nat),
            forall|j: nat| j <= 24 ==> 1 <= #[trigger] pow4(j) <= pow4(24),
            pow4(24) == 0x1_0000_0000_0000,
            forall|j: nat| #[trigger] pow4(j + 1) == 4 * pow4(j),
        decreases t - k,
    {
        proof {
            lemma_pow4_pow2(k as nat);
            assert(pow4((k + 1) as nat) == 4 * pow4(k as nat));
            assert((2 * p) * (2 * p) == 4 * (p * p)) by (nonlinear_arith);
            assert(p <= 0x100_0000) by (nonlinear_arith)
                requires p * p <= 0x1_0000_0000_0000, p >= 1;
        }
        p = p * 2;
        k = k + 1;
    }
    p
}

/// Integer square root of `n < 2^48`, bit by bit.
fn isqrt_u64(n: u64) -> (s: u64)
    requires
        n < 0x1_0000_0000_0000,
    ensures
        is_isqrt(s as nat, n as nat),
        s < 0x100_0000,
{
    let mut s: u64 = 0;
    let mut span: u64 = 0x100_0000;
    let ghost mut k: nat = 24;
    proof {
        reveal_with_fuel(pow2n, 25);
        assert(0x100_0000 * 0x100_0000 == 0x1_0000_0000_0000) by (nonlinear_arith);
    }
    while span > 1
        invariant
            span == pow2n(k),
            k <= 24,
            s + span <= 0x100_0000,
            s * s <= n,
            n < (s + span) * (s + span),
        decreases k,
    {
        proof {
            if k == 0 {
                assert(pow2n(0) == 1);
            }
            assert(pow2n(k) == 2 * pow2n((k - 1) as nat));
        }
        let half = span / 2;
        let c = s + half;
        proof {
            assert(c * c <= 0x1_0000_0000_0000) by (nonlinear_arith)
                requires c <= 0x100_0000;
        }
        if c * c <= n {
            s = c;
        }
        span = half;
        proof {
            k = (k - 1) as nat;
        }
    }
    proof {
        assert(pow2n(k) == 1 ==> span == 1);
        if s >= 0x100_0000 {
            assert(s * s >= 0x1_0000_0000_0000) by (nonlinear_arith)
                requires s >= 0x100_0000;
        }
    }
    s
}

/// Magnitude of one IQ sample: `(i*i + q*q).sqrt() as u16` in single precision.
fn mag_sample(i: i16, q: i16) -> (r: u16)
    ensures
        r == mag_spec(i, q),
{
    proof {
        assert(i * i <= 0x4000_0000 && q * q <= 0x4000_0000) by (nonlinear_arith)
            requires -0x8000 <= i < 0x8000, -0x8000 <= q < 0x8000;
        assert(i * i >= 0 && q * q >= 0) by (nonlinear_arith);
    }
    let ii = (i as i32 * i as i32) as u64;
    let qq = (q as i32 * q as i32) as u64;
    let a = round24(ii);
    let b = round24(qq);
    let x = round24(a + b);
    if x == 0 {
        return 0;
    }
    let e = log4_of(x);
    let t = 23 - e;
    let p4 = pow4_of(t);
    proof {
        lemma_log4(x as nat);
        lemma_pow4_add((e + 1) as nat, t as nat);
        lemma_pow4_small();
        assert(x * p4 < 0x1_0000_0000_0000) by (nonlinear_arith)
            requires x < pow4((e + 1) as nat), pow4((e + 1) as nat) * p4 == 0x1_0000_0000_0000, p4 >= 1;
    }
    let y = x * p4;
    let k = isqrt_u64(y);
    proof {
        assert((2 * k + 1) * (2 * k + 1) < 0x10_0000_0000_0000) by (nonlinear_arith)
            requires k < 0x100_0000;
    }
    let k2 = if 4 * y >= (2 * k + 1) * (2 * k + 1) {
        k + 1
    } else {
        k
    };
    let p2 = pow2_of(t);
    proof {
        lemma_isqrt_unique(k as nat, y as nat);
        lemma_pow4_pow2(t as nat);
        // x <= 2^31 + 384 < 46341^2, so k < 46341 * 2^t and the result fits.
        assert(x < 46341 * 46341);
        assert(k < 46341 * p2) by (nonlinear_arith)
            requires k * k <= y, y == x * p4, p4 == p2 * p2, x < 46341 * 46341, p2 >= 1;
        assert(k2 / p2 <= 46341) by (nonlinear_arith)
            requires k2 <= k + 1, k < 46341 * p2, p2 >= 1;
    }
    (k2 / p2) as u16
}


/// Magnitudes of interleaved IQ samples `(iq[2c], iq[2c+1])`; a trailing odd
/// value is ignored.
pub open spec fn spec_magnitude(iq: Seq<i16>) -> Seq<u16> {
    Seq::new(iq.len() / 2, |c: int| mag_spec(iq[2 * c], iq[2 * c + 1]) as u16)
}

/// The signed 16-bit value of two little-endian bytes.
pub open spec fn le_i16(lo: u8, hi: u8) -> i16 {
    let u = hi as int * 256 + lo as int;
    (if u >= 0x8000 { u - 0x1_0000 } else { u }) as i16
}

/// Interleaved SC16 bytes (I lo, I hi, Q lo, Q hi, ...) as samples.
pub open spec fn sc16_samples(bytes: Seq<u8>) -> Seq<i16> {
    Seq::new(bytes.len() / 2, |n: int| le_i16(bytes[2 * n], bytes[2 * n + 1]))
}

/// Convert IQ to magnitude as single-precision `sqrt(i*i + q*q)` truncated
/// (dump1090/readsb-style).
pub fn magnitude(iq: &[i16]) -> (mag: Vec<u16>)
    ensures
        mag@ == spec_magnitude(iq@),
{
    let len = iq.len();
    let n = len / 2;
    let mut mag: Vec<u16> = Vec::with_capacity(n);
    let mut c: usize = 0;
    while c < n
        invariant
            len == iq@.len(),
            n == iq@.len() / 2,
            c <= n,
            mag@ == spec_magnitude(iq@).take(c as int),
        decreases n - c,
    {
        let m = mag_sample(iq[2 * c], iq[2 * c + 1]);
        mag.push(m);
        c = c + 1;
        assert(mag@ =~= spec_magnitude(iq@).take(c as int));
    }
    assert(spec_magnitude(iq@).take(n as int) =~= spec_magnitude(iq@));
    mag
}

fn sample_from_le(lo: u8, hi: u8) -> (v: i16)
    ensures
        v == le_i16(lo, hi),
{
    let u: i32 = hi as i32 * 256 + lo as i32;
    if u >= 0x8000 {
        (u - 0x1_0000) as i16
    } else {
        u as i16
    }
}

/// Decode interleaved little-endian SC16 bytes to samples (I, Q, I, Q, ...);
/// a trailing odd byte is ignored.
pub fn samples_from_le_bytes(bytes: &[u8]) -> (iq: Vec<i16>)
    ensures
        iq@ == sc16_samples(bytes@),
{
    let len = bytes.len();
    let n = len / 2;
    let mut iq: Vec<i16> = Vec::with_capacity(n);
    let mut c: usize = 0;
    while c < n
        invariant
            len == bytes@.len(),
            n == bytes@.len() / 2,
            c <= n,
            iq@ == sc16_samples(bytes@).take(c as int),
        decreases n - c,
    {
        iq.push(sample_from_le(bytes[2 * c], bytes[2 * c + 1]));
        c = c + 1;
        assert(iq@ =~= sc16_samples(bytes@).take(c as int));
    }
    assert(sc16_samples(bytes@).take(n as int) =~= sc16_samples(bytes@));
    iq
}

/// Convert interleaved little-endian SC16 bytes to magnitude samples.
pub fn magnitude_from_le_bytes(bytes: &[u8]) -> (mag: Vec<u16>)
    ensures
        mag@ == spec_magnitude(sc16_samples(bytes@)),
{
    let len = bytes.len();
    let n = len / 4;
    let ghost iq = sc16_samples(bytes@);
    let mut mag: Vec<u16> = Vec::with_capacity(n);
    let mut c: usize = 0;
    while c < n
        invariant
            len == bytes@.len(),
            n == bytes@.len() / 4,
            iq == sc16_samples(bytes@),
            c <= n,
            mag@ == spec_magnitude(iq).take(c as int),
        decreases n - c,
    {
        let i = sample_from_le(bytes[4 * c], bytes[4 * c + 1]);
        let q = sample_from_le(bytes[4 * c + 2], bytes[4 * c + 3]);
        assert(iq[2 * c as int] == i && iq[2 * c + 1] == q);
        mag.push(mag_sample(i, q));
        c = c + 1;
        assert(mag@ =~= spec_magnitude(iq).take(c as int));
    }
    assert(spec_magnitude(iq).take(n as int) =~= spec_magnitude(iq));
    mag
}


// ---------------------------------------------------------------- laws

proof fn lemma_pow2n_mono(a: nat, b: nat)
    requires
        a <= b,
    ensures
        1 <= pow2n(a) <= pow2n(b),
    decreases b,
{
    if b > 0 && a < b {
        lemma_pow2n_mono(a, (b - 1) as nat);
    } else if b > 0 {
        lemma_pow2n_mono(0, (b - 1) as nat);
    }
}

/// Below `2^24`, where single precision holds `i*i + q*q` exactly, the
/// magnitude is exactly the integer square root of `i*i + q*q`.
pub proof fn lemma_magnitude_exact_small(i: i16, q: i16)
    requires
        i * i + q * q < 0x100_0000,
    ensures
        mag_spec(i, q) == isqrt((i * i + q * q) as nat),
{
    assert(i * i >= 0 && q * q >= 0) by (nonlinear_arith);
    let ii = (i * i) as nat;
    let qq = (q * q) as nat;
    lemma_rn24_bound(ii);
    lemma_rn24_bound(qq);
    lemma_rn24_bound(ii + qq);
    let x = ii + qq;
    assert(x == rn24(rn24(ii) + rn24(qq)));
    // the integer square root exists
    let s = isqrt_exists(x);
    lemma_isqrt_unique(s, x);
    if x == 0 {
        assert(0 * 0 <= x < 1 * 1);
        lemma_isqrt_unique(0, x);
    } else {
        lemma_log4(x);
        let e = log4(x);
        lemma_pow4_small();
        reveal_with_fuel(pow4, 13);
        if e >= 12 {
            lemma_pow4_mono(12, e);
        }
        assert(e <= 11);
        let t = (23 - e) as nat;
        let y = x * pow4(t);
        let k = isqrt_exists(y);
        lemma_isqrt_unique(k, y);
        let p = pow2n(t);
        lemma_pow4_pow2(t);
        lemma_pow2n_mono(12, t);
        reveal_with_fuel(pow2n, 13);
        assert(pow2n(12) == 4096);
        assert(s < 4096) by (nonlinear_arith)
            requires s * s <= x, x < 0x100_0000;
        // s*p <= k < (s+1)*p
        assert(s * p <= k) by (nonlinear_arith)
            requires s * s <= x, y == x * (p * p), k * k <= y, y < (k + 1) * (k + 1), p >= 1;
        assert(k < (s + 1) * p) by (nonlinear_arith)
            requires x < (s + 1) * (s + 1), y == x * (p * p), k * k <= y, p >= 1;
        let k2 = if 4 * y >= (2 * k + 1) * (2 * k + 1) { k + 1 } else { k };
        if k + 1 == (s + 1) * p {
            assert(4 * y < (2 * k + 1) * (2 * k + 1)) by (nonlinear_arith)
                requires
                    k + 1 == (s + 1) * p,
                    x + 1 <= (s + 1) * (s + 1),
                    y == x * (p * p),
                    s + 1 <= p,
            ;
        }
        assert(k2 < (s + 1) * p);
        assert(s * p <= k2);
        assert(k2 / p == s) by (nonlinear_arith)
            requires s * p <= k2, k2 < (s + 1) * p, p >= 1;
    }
}

/// Rounding to 24 significant bits moves a value below `2^32` by at most 128.
proof fn lemma_rn24_close(v: nat)
    requires
        v < 0x1_0000_0000,
    ensures
        v <= rn24(v) + 128,
        rn24(v) <= v + 128,
{
    lemma_rn24_bound(v);
    lemma_unit_bound(v, 0);
    lemma_pow2n_small();
    let u = unit_from(v, 1);
    let q = v / u;
    let r = v % u;
    assert(v == q * u + r) by (nonlinear_arith)
        requires u >= 1, q == v / u, r == v % u;
    assert((q + 1) * u == q * u + u) by (nonlinear_arith);
}

/// The single-precision magnitude is within one of the integer square root
/// of `i*i + q*q`, for every sample.
pub proof fn lemma_magnitude_within_one(i: i16, q: i16)
    ensures
        isqrt((i * i + q * q) as nat) <= mag_spec(i, q) + 1,
        mag_spec(i, q) <= isqrt((i * i + q * q) as nat) + 1,
{
    assert(i * i >= 0 && q * q >= 0) by (nonlinear_arith);
    assert(i * i <= 0x4000_0000 && q * q <= 0x4000_0000) by (nonlinear_arith)
        requires -0x8000 <= i < 0x8000, -0x8000 <= q < 0x8000;
    let ii = (i * i) as nat;
    let qq = (q * q) as nat;
    let n = ii + qq;
    if n < 0x100_0000 {
        lemma_magnitude_exact_small(i, q);
        return;
    }
    lemma_rn24_close(ii);
    lemma_rn24_close(qq);
    let a = rn24(ii);
    let b = rn24(qq);
    lemma_rn24_close(a + b);
    let x = rn24(a + b);
    assert(n <= x + 384 && x <= n + 384);
    let s = isqrt_exists(n);
    lemma_isqrt_unique(s, n);
    assert(s >= 4096) by (nonlinear_arith)
        requires n < (s + 1) * (s + 1), n >= 0x100_0000;
    assert((s + 2) * (s + 2) == (s + 1) * (s + 1) + 2 * s + 3) by (nonlinear_arith);
    assert((s - 1) * (s - 1) == s * s - 2 * s + 1) by (nonlinear_arith);
    assert(x + s + 2 <= (s + 2) * (s + 2));
    assert((s - 1) * (s - 1) <= x);
    lemma_log4(x);
    lemma_log4_bound(x);
    let e = log4(x);
    let t = (23 - e) as nat;
    let p = pow2n(t);
    lemma_pow4_pow2(t);
    lemma_pow2n_mono(0, t);
    assert(pow2n(0) == 1);
    let y = x * pow4(t);
    let k = isqrt_exists(y);
    lemma_isqrt_unique(k, y);
    let k2 = if 4 * y >= (2 * k + 1) * (2 * k + 1) { k + 1 } else { k };
    assert(mag_spec(i, q) == k2 / p);
    // upper: k2 < (s + 2) * p
    assert(k < (s + 2) * p) by (nonlinear_arith)
        requires k * k <= y, y == x * (p * p), x < (s + 2) * (s + 2), p >= 1;
    if k + 1 == (s + 2) * p {
        assert(4 * y < (2 * k + 1) * (2 * k + 1)) by (nonlinear_arith)
            requires
                k + 1 == (s + 2) * p,
                x + s + 2 <= (s + 2) * (s + 2),
                y == x * (p * p),
                p >= 1,
                s >= 1,
        ;
    }
    assert(k2 < (s + 2) * p);
    assert(k2 / p <= s + 1) by (nonlinear_arith)
        requires k2 < (s + 2) * p, p >= 1;
    // lower: (s - 1) * p <= k2
    assert((s - 1) * p <= k) by (nonlinear_arith)
        requires (s - 1) * (s - 1) <= x, y == x * (p * p), y < (k + 1) * (k + 1), s >= 1, p >= 1;
    assert(s - 1 <= k2 / p) by (nonlinear_arith)
        requires (s - 1) * p <= k2, p >= 1, s >= 1;
}

/// Some integer square root of `n` exists.
proof fn isqrt_exists(n: nat) -> (s: nat)
    ensures
        is_isqrt(s, n),
    decreases n,
{
    if n == 0 {
        assert(is_isqrt(0, n)) by (nonlinear_arith)
            requires n == 0;
        0
    } else {
        let r = isqrt_exists((n - 1) as nat);
        if (r + 1) * (r + 1) <= n {
            assert((r + 1) * (r + 1) == n) by (nonlinear_arith)
                requires r * r <= n - 1, n - 1 < (r + 1) * (r + 1), (r + 1) * (r + 1) <= n;
            assert(n < (r + 2) * (r + 2)) by (nonlinear_arith)
                requires (r + 1) * (r + 1) == n;
            assert(is_isqrt(r + 1, n));
            r + 1
        } else {
            assert(is_isqrt(r, n));
            r
        }
    }
}

/// Little-endian bytes of 16-bit samples.
pub open spec fn le_bytes(iq: Seq<i16>) -> Seq<u8> {
    Seq::new(
        2 * iq.len(),
        |b: int|
            {
                let v = iq[b / 2] as int;
                let u = if v < 0 { v + 0x1_0000 } else { v };
                (if b % 2 == 0 { u % 256 } else { u / 256 }) as u8
            },
    )
}

/// Decoding the little-endian bytes of IQ samples gives back the samples,
/// so their magnitudes match the magnitudes of the samples themselves.
pub proof fn lemma_le_bytes_magnitude(iq: Seq<i16>)
    ensures
        sc16_samples(le_bytes(iq)) == iq,
        spec_magnitude(sc16_samples(le_bytes(iq))) == spec_magnitude(iq),
{
    let b = le_bytes(iq);
    assert forall|n: int| 0 <= n < iq.len() implies #[trigger] le_i16(b[2 * n], b[2 * n + 1])
        == iq[n] by {
        assert((2 * n) / 2 == n && (2 * n + 1) / 2 == n && (2 * n) % 2 == 0 && (2 * n + 1) % 2 == 1);
    }
    assert(sc16_samples(b) =~= iq);
}

} // verus!
