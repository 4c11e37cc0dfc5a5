//! Mode S / ADS-B demodulation at 2.4 Msps.
//!
//! Bits arrive at 1 Mbit/s, i.e. every 2.4 samples; positions inside a frame
//! are counted in fifths of a sample, so bit `n` of a frame whose first data
//! bit sits at fifth `g` lies at fifth `g + 12 * n`. The sample index is the
//! fifth divided by 5 and the remainder selects one of five correlation
//! kernels (readsb's 2.4 MHz slicer).
use std::collections::HashSet;
use vstd::prelude::*;
use crate::mode_s::{
    df11_for_each_1bit_repair, df11_syndrome_iid_ok, first_repair, icao_from_aa,
    iid_residual_ok, is_surveillance, lemma_repair_search, residual, spec_accept_message,
    spec_df, spec_residual, spec_icao_from_aa,
};

verus! {

broadcast use vstd::std_specs::hash::group_hash_axioms;

/// readsb default `--preamble-threshold` (58).
pub const PREAMBLE_THRESHOLD: i32 = 58;

/// Preamble span before the first data bit (samples @ 2.4 Msps).
pub const PREAMBLE_SAMPLES: usize = 19;

/// Max samples needed after preamble start to finish a long Mode S frame.
pub const MESSAGE_SAMPLES: usize = 270;

/// A scan stops this many samples before the end of its buffer.
pub const DEMOD_OVERLAP: usize = 289;

/// Samples carried from one window into the next. The slices at a preamble
/// position read samples up to 290 past it (a long frame in the latest try
/// phase), so every position an inner window scans sees all of them.
pub const WINDOW_CARRY: usize = 290;

/// `(global_sample_index, raw_bytes, nbits)`.
pub type RawFrame = (usize, [u8; 14], usize);

// ---------------------------------------------------------------- spec layer

/// Correlation kernel `k` (0..5) applied at sample `i`.
pub open spec fn kernel(k: int, m: Seq<u16>, i: int) -> int {
    if k == 0 {
        18 * m[i] - 15 * m[i + 1] - 3 * m[i + 2]
    } else if k == 1 {
        14 * m[i] - 5 * m[i + 1] - 9 * m[i + 2]
    } else if k == 2 {
        16 * m[i] + 5 * m[i + 1] - 20 * m[i + 2]
    } else if k == 3 {
        7 * m[i] + 11 * m[i + 1] - 18 * m[i + 2]
    } else {
        4 * m[i] + 15 * m[i + 1] - 20 * m[i + 2] + m[i + 3]
    }
}

/// The data bit whose period starts at fifth-of-a-sample position `g`.
pub open spec fn data_bit(m: Seq<u16>, g: int) -> int {
    if kernel(g % 5, m, g / 5) > 0 {
        1
    } else {
        0
    }
}

/// The first `n` bits (MSB first) of the byte starting at fifth `g`.
pub open spec fn byte_prefix(m: Seq<u16>, g: int, n: nat) -> int
    decreases n,
{
    if n == 0 {
        0
    } else {
        byte_prefix(m, g, (n - 1) as nat) * 2 + data_bit(m, g + 12 * (n - 1))
    }
}

/// The byte whose first bit starts at fifth `g`.
pub open spec fn data_byte(m: Seq<u16>, g: int) -> int {
    byte_prefix(m, g, 8)
}

/// A byte starting at fifth `g` is only sliced when 20 samples follow its start sample.
pub open spec fn byte_fits(len: int, g: int) -> bool {
    g / 5 + 20 < len
}

/// Frame length in bytes by downlink format (0 for formats that are not sliced).
pub open spec fn frame_bytes(df: int) -> int {
    if df == 0 || df == 4 || df == 5 || df == 11 {
        7
    } else if df == 16 || df == 17 || df == 18 || df == 20 || df == 21 {
        14
    } else {
        0
    }
}

/// Fifth position of the first data bit for a preamble at `start`, try phase `tp`.
pub open spec fn frame_origin(start: int, tp: int) -> int {
    5 * (start + 19) + tp
}

/// The 14-byte buffer of a frame of `n` bytes starting at fifth `g` (zero padded).
pub open spec fn frame_buffer(m: Seq<u16>, g: int, n: int) -> Seq<u8> {
    Seq::new(14, |i: int| if i < n { data_byte(m, g + 96 * i) as u8 } else { 0u8 })
}

/// Slicing a frame for a preamble at `start` with try phase `tp`: the first
/// byte gives the DF and with it the length; every byte must fit.
pub open spec fn spec_slice(m: Seq<u16>, start: int, tp: int) -> Option<(Seq<u8>, int)> {
    let g = frame_origin(start, tp);
    if !byte_fits(m.len() as int, g) {
        None
    } else {
        let n = frame_bytes(data_byte(m, g) / 8);
        if n == 0 || !byte_fits(m.len() as int, g + 96 * (n - 1)) {
            None
        } else {
            Some((frame_buffer(m, g, n), n * 8))
        }
    }
}

/// The first seven bytes are all zero.
pub open spec fn zero7(msg: Seq<u8>) -> bool {
    forall|i: int| 0 <= i < 7 ==> msg[i] == 0
}

/// Score of a DF11 candidate (readsb's ICAO-filter scoring).
pub open spec fn spec_score_df11(msg: Seq<u8>, syn: u32, known: Set<u32>) -> int {
    let addr = spec_icao_from_aa(msg);
    if iid_residual_ok(syn) {
        if syn & 0x7Fu32 == 0 {
            if known.contains(addr) { 1600 } else { 750 }
        } else if known.contains(addr) {
            1000
        } else {
            -1
        }
    } else if first_repair(msg, 0, |a: u32| known.contains(a)) < 56 {
        800
    } else {
        -2
    }
}

/// Score of a sliced candidate frame; positive scores are acceptable.
pub open spec fn spec_score(msg: Seq<u8>, nbits: int, known: Set<u32>) -> int {
    let df = msg[0] / 8;
    let syn = spec_residual(msg, nbits);
    if nbits / 8 >= 7 && zero7(msg) {
        -2
    } else if df == 17 || df == 18 {
        if syn == 0 { 1400 } else { -2 }
    } else if df == 11 {
        spec_score_df11(msg, syn, known)
    } else if df == 0 || df == 4 || df == 5 || df == 16 || df == 20 || df == 21 {
        if known.contains(syn) { 1000 } else { -1 }
    } else {
        -2
    }
}

/// Addresses learned from an accepted frame.
pub open spec fn spec_learn(msg: Seq<u8>, nbits: int, known: Set<u32>) -> Set<u32> {
    let df = msg[0] / 8;
    let syn = spec_residual(msg, nbits);
    if df == 11 {
        if iid_residual_ok(syn) { known.insert(spec_icao_from_aa(msg)) } else { known }
    } else if df == 17 || df == 18 {
        known.insert(spec_icao_from_aa(msg))
    } else if df == 0 || df == 4 || df == 5 || df == 16 || df == 20 || df == 21 {
        known.insert(syn)
    } else {
        known
    }
}

/// Sample `k` of the preamble window at `j`.
pub open spec fn pm(m: Seq<u16>, j: int, k: int) -> int {
    m[j + k] as int
}

/// Preamble shape gate.
pub open spec fn spec_gate(m: Seq<u16>, j: int) -> bool {
    pm(m, j, 1) > pm(m, j, 7) && pm(m, j, 12) > pm(m, j, 14) && pm(m, j, 12) > pm(m, j, 15)
}

/// Noise reference level of the preamble at `j`.
pub open spec fn ref_level(m: Seq<u16>, j: int) -> int {
    ((pm(m, j, 5) + pm(m, j, 8) + pm(m, j, 16) + pm(m, j, 17) + pm(m, j, 18)) * 58) / 32
}

/// Whether phase slot `i` (try phase `4 + i`) passes the preamble threshold at `j`.
pub open spec fn tried(m: Seq<u16>, j: int, i: int) -> bool {
    let diff_2_3 = pm(m, j, 2) - pm(m, j, 3);
    let sum_1_4 = pm(m, j, 1) + pm(m, j, 4);
    let diff_10_11 = pm(m, j, 10) - pm(m, j, 11);
    let common = sum_1_4 - diff_2_3 + pm(m, j, 9) + pm(m, j, 12);
    if i == 0 || i == 1 {
        common - diff_10_11 >= ref_level(m, j)
    } else if i == 2 || i == 3 {
        common + diff_10_11 >= ref_level(m, j)
    } else {
        sum_1_4 + 2 * diff_2_3 + diff_10_11 + pm(m, j, 12) >= ref_level(m, j)
    }
}

/// Best candidate over phase slots `i..5`, given the best so far.
pub open spec fn best_from(
    m: Seq<u16>,
    j: int,
    known: Set<u32>,
    i: int,
    best: Option<(Seq<u8>, int, int)>,
) -> Option<(Seq<u8>, int, int)>
    decreases 5 - i,
{
    if i >= 5 {
        best
    } else {
        let next = if tried(m, j, i) {
            match spec_slice(m, j, 4 + i) {
                Some((msg, nbits)) => {
                    let sc = spec_score(msg, nbits, known);
                    if sc > 0 && (best is None || sc > best.unwrap().2) {
                        Some((msg, nbits, sc))
                    } else {
                        best
                    }
                },
                None => best,
            }
        } else {
            best
        };
        best_from(m, j, known, i + 1, next)
    }
}

/// The frame accepted at preamble position `j` (if any).
pub open spec fn best_at(m: Seq<u16>, j: int, known: Set<u32>) -> Option<(Seq<u8>, int, int)> {
    if spec_gate(m, j) {
        best_from(m, j, known, 0, None)
    } else {
        None
    }
}

/// A scan result: frames `(position, bytes, nbits)`, the cursor after the
/// scan, and the known addresses after it.
pub type ScanResult = (Seq<(int, Seq<u8>, int)>, int, Set<u32>);

/// Scanning preamble positions `j..end` with known addresses `known`.
pub open spec fn spec_scan(m: Seq<u16>, j: int, end: int, known: Set<u32>) -> ScanResult
    decreases (if j < end { end - j } else { 0 }),
{
    if j >= end {
        (Seq::empty(), j, known)
    } else {
        match best_at(m, j, known) {
            Some((msg, nbits, _)) => {
                proof {
                    lemma_best_nbits(m, j, known);
                    assert(nbits > 0);
                }
                let rest = spec_scan(m, j + nbits * 2, end, spec_learn(msg, nbits, known));
                (seq![(j, msg, nbits)] + rest.0, rest.1, rest.2)
            },
            None => spec_scan(m, j + 1, end, known),
        }
    }
}

/// Candidates always carry 7 or 14 bytes.
pub proof fn lemma_slice_nbits(m: Seq<u16>, start: int, tp: int)
    ensures
        spec_slice(m, start, tp) matches Some((msg, nbits)) ==> (nbits == 56 || nbits == 112)
            && msg.len() == 14,
{
}

proof fn lemma_best_from_nbits(
    m: Seq<u16>,
    j: int,
    known: Set<u32>,
    i: int,
    best: Option<(Seq<u8>, int, int)>,
)
    requires
        best matches Some((msg, nbits, _)) ==> (nbits == 56 || nbits == 112) && msg.len() == 14,
    ensures
        best_from(m, j, known, i, best) matches Some((msg, nbits, _)) ==> (nbits == 56 || nbits
            == 112) && msg.len() == 14,
    decreases 5 - i,
{
    if i < 5 {
        lemma_slice_nbits(m, j, 4 + i);
        let next = if tried(m, j, i) {
            match spec_slice(m, j, 4 + i) {
                Some((msg, nbits)) => {
                    let sc = spec_score(msg, nbits, known);
                    if sc > 0 && (best is None || sc > best.unwrap().2) {
                        Some((msg, nbits, sc))
                    } else {
                        best
                    }
                },
                None => best,
            }
        } else {
            best
        };
        lemma_best_from_nbits(m, j, known, i + 1, next);
    }
}

/// An accepted frame is 56 or 112 bits long.
pub proof fn lemma_best_nbits(m: Seq<u16>, j: int, known: Set<u32>)
    ensures
        best_at(m, j, known) matches Some((msg, nbits, _)) ==> (nbits == 56 || nbits == 112)
            && msg.len() == 14,
{
    lemma_best_from_nbits(m, j, known, 0, None);
}


// ---------------------------------------------------------------- slicing

fn slice_phase0(m: &[u16], i: usize) -> (r: i32)
    requires
        i + 2 < m@.len(),
    ensures
        r == kernel(0, m@, i as int),
{
    18 * m[i] as i32 - 15 * m[i + 1] as i32 - 3 * m[i + 2] as i32
}

fn slice_phase1(m: &[u16], i: usize) -> (r: i32)
    requires
        i + 2 < m@.len(),
    ensures
        r == kernel(1, m@, i as int),
{
    14 * m[i] as i32 - 5 * m[i + 1] as i32 - 9 * m[i + 2] as i32
}

fn slice_phase2(m: &[u16], i: usize) -> (r: i32)
    requires
        i + 2 < m@.len(),
    ensures
        r == kernel(2, m@, i as int),
{
    16 * m[i] as i32 + 5 * m[i + 1] as i32 - 20 * m[i + 2] as i32
}

fn slice_phase3(m: &[u16], i: usize) -> (r: i32)
    requires
        i + 2 < m@.len(),
    ensures
        r == kernel(3, m@, i as int),
{
    7 * m[i] as i32 + 11 * m[i + 1] as i32 - 18 * m[i + 2] as i32
}

fn slice_phase4(m: &[u16], i: usize) -> (r: i32)
    requires
        i + 3 < m@.len(),
    ensures
        r == kernel(4, m@, i as int),
{
    4 * m[i] as i32 + 15 * m[i + 1] as i32 - 20 * m[i + 2] as i32 + m[i + 3] as i32
}

fn slice_kernel(k: usize, m: &[u16], i: usize) -> (r: i32)
    requires
        k < 5,
        i + 3 < m@.len(),
    ensures
        r == kernel(k as int, m@, i as int),
{
    match k {
        0 => slice_phase0(m, i),
        1 => slice_phase1(m, i),
        2 => slice_phase2(m, i),
        3 => slice_phase3(m, i),
        _ => slice_phase4(m, i),
    }
}

fn bit(v: i32) -> (r: u8)
    ensures
        r == (if v > 0 { 1int } else { 0int }),
{
    if v > 0 {
        1
    } else {
        0
    }
}

/// `2^n`.
spec fn cap(n: nat) -> int
    decreases n,
{
    if n == 0 {
        1
    } else {
        2 * cap((n - 1) as nat)
    }
}

proof fn lemma_byte_prefix_bound(m: Seq<u16>, g: int, n: nat)
    ensures
        0 <= byte_prefix(m, g, n) < cap(n),
    decreases n,
{
    if n > 0 {
        lemma_byte_prefix_bound(m, g, (n - 1) as nat);
    }
}

proof fn lemma_cap8()
    ensures
        cap(7) == 128,
        cap(8) == 256,
        forall|n: nat| n <= 7 ==> #[trigger] cap(n) <= 128,
{
    reveal_with_fuel(cap, 9);
    assert forall|n: nat| n <= 7 implies #[trigger] cap(n) <= 128 by {
        reveal_with_fuel(cap, 9);
    }
}

proof fn lemma_fifths(p: int, x: int)
    requires
        p >= 0,
        x >= 0,
    ensures
        (5 * p + x) / 5 == p + x / 5,
        (5 * p + x) % 5 == x % 5,
{
    assert((5 * p + x) / 5 == p + x / 5 && (5 * p + x) % 5 == x % 5) by (nonlinear_arith)
        requires p >= 0, x >= 0;
}

/// Slice one byte at (`ptr`, `phase`) and advance by 8 bit periods (96 fifths).
fn decode_byte(m: &[u16], phase: &mut usize, ptr: &mut usize) -> (r: Option<u8>)
    requires
        *old(phase) < 5,
    ensures
        ({
            let g = 5 * *old(ptr) + *old(phase);
            if byte_fits(m@.len() as int, g) {
                &&& r == Some(data_byte(m@, g) as u8)
                &&& *final(ptr) == (g + 96) / 5
                &&& *final(phase) == (g + 96) % 5
            } else {
                &&& r is None
                &&& *final(ptr) == *old(ptr)
                &&& *final(phase) == *old(phase)
            }
        }),
{
    let p = *ptr;
    let ph = *phase;
    let len = m.len();
    let ghost g = 5 * p + ph;
    if p >= len || len - p <= 20 {
        return None;
    }
    proof {
        lemma_fifths(p as int, ph as int);
    }
    let mut b: u32 = 0;
    let mut k: usize = 0;
    while k < 8
        invariant
            k <= 8,
            ph < 5,
            g == 5 * p + ph,
            len == m@.len(),
            p + 20 < m@.len(),
            b == byte_prefix(m@, g, k as nat),
        decreases 8 - k,
    {
        let f = ph + 12 * k;
        proof {
            lemma_fifths(p as int, f as int);
            lemma_byte_prefix_bound(m@, g, k as nat);
            lemma_cap8();
            assert(f / 5 <= 17);
        }
        let v = slice_kernel(f % 5, m, p + f / 5);
        b = b * 2 + bit(v) as u32;
        k = k + 1;
    }
    proof {
        lemma_byte_prefix_bound(m@, g, 8);
        lemma_cap8();
        lemma_fifths(p as int, (ph + 96) as int);
    }
    *ptr = p + (ph + 96) / 5;
    *phase = (ph + 96) % 5;
    Some(b as u8)
}

/// A later byte only fits where an earlier one does.
proof fn lemma_fits_mono(len: int, g: int, a: int, b: int)
    requires
        0 <= a <= b,
        g >= 0,
        byte_fits(len, g + 96 * b),
    ensures
        byte_fits(len, g + 96 * a),
{
    assert((g + 96 * a) / 5 <= (g + 96 * b) / 5) by (nonlinear_arith)
        requires 0 <= a <= b, g >= 0;
}

fn slice_message(m: &[u16], start: usize, try_phase: usize) -> (r: Option<([u8; 14], usize)>)
    requires
        4 <= try_phase < 9,
        start < m@.len(),
        start + 20 <= usize::MAX,
    ensures
        match r {
            Some((msg, nbits)) => spec_slice(m@, start as int, try_phase as int) == Some(
                (msg@, nbits as int),
            ),
            None => spec_slice(m@, start as int, try_phase as int) is None,
        },
{
    let ghost g = frame_origin(start as int, try_phase as int);
    let mut ptr: usize = start + 19 + try_phase / 5;
    let mut phase: usize = try_phase % 5;
    let mut msg: [u8; 14] = [0u8; 14];
    let first = decode_byte(m, &mut phase, &mut ptr);
    let b0 = match first {
        Some(b) => b,
        None => return None,
    };
    msg[0] = b0;
    proof {
        lemma_byte_prefix_bound(m@, g, 8);
        lemma_cap8();
    }
    let df = b0 >> 3u8;
    assert(df == b0 / 8) by (bit_vector)
        requires df == b0 >> 3u8;
    let nbytes: usize = match df {
        0 | 4 | 5 | 11 => 7,
        16 | 17 | 18 | 20 | 21 => 14,
        _ => return None,
    };
    let mut i: usize = 1;
    while i < nbytes
        invariant
            1 <= i <= nbytes,
            nbytes == frame_bytes(data_byte(m@, g) / 8),
            nbytes == 7 || nbytes == 14,
            phase < 5,
            g == frame_origin(start as int, try_phase as int),
            5 * ptr + phase == g + 96 * i,
            byte_fits(m@.len() as int, g),
            byte_fits(m@.len() as int, g + 96 * (i - 1)),
            forall|x: int| 0 <= x < i ==> msg@[x] == data_byte(m@, g + 96 * x) as u8,
            forall|x: int| i <= x < 14 ==> msg@[x] == 0u8,
            msg@.len() == 14,
        decreases nbytes - i,
    {
        let ghost old_ptr = ptr;
        let ghost old_phase = phase;
        match decode_byte(m, &mut phase, &mut ptr) {
            Some(b) => {
                msg[i] = b;
            },
            None => {
                proof {
                    if byte_fits(m@.len() as int, g + 96 * (nbytes - 1)) {
                        lemma_fits_mono(m@.len() as int, g, i as int, nbytes - 1);
                    }
                }
                return None;
            },
        }
        i = i + 1;
    }
    assert(msg@ =~= frame_buffer(m@, g, nbytes as int));
    Some((msg, nbytes * 8))
}


// ---------------------------------------------------------------- scoring

fn score_df11(msg: &[u8], syn: u32, known: &HashSet<u32>) -> (r: i32)
    requires
        msg@.len() >= 7,
    ensures
        r == spec_score_df11(msg@, syn, known@),
{
    let addr = icao_from_aa(msg);
    if df11_syndrome_iid_ok(syn) {
        let iid = syn & 0x7Fu32;
        return if iid == 0 {
            if known.contains(&addr) {
                1600
            } else {
                750
            }
        } else if known.contains(&addr) {
            1000
        } else {
            -1
        };
    }
    // 1-bit repair only when corrected AA is already known (readsb behaviour).
    let is_known = |_trial: &[u8; 7], addr2: u32| -> (r: bool)
        ensures
            r == known@.contains(addr2),
        { known.contains(&addr2) };
    let found = df11_for_each_1bit_repair(msg, is_known);
    proof {
        lemma_repair_search(msg@, is_known, |a: u32| known@.contains(a), found);
    }
    match found {
        Some(_) => 800,
        None => -2,
    }
}

fn score(msg: &[u8], nbits: usize, known: &HashSet<u32>) -> (r: i32)
    requires
        msg@.len() >= 7,
        nbits / 8 <= msg@.len(),
    ensures
        r == spec_score(msg@, nbits as int, known@),
{
    let nbytes = nbits / 8;
    if nbytes >= 7 && msg[0] == 0 && msg[1] == 0 && msg[2] == 0 && msg[3] == 0 && msg[4] == 0
        && msg[5] == 0 && msg[6] == 0 {
        return -2;
    }
    let df = msg[0] >> 3u8;
    let b0 = msg[0];
    assert(df == b0 / 8) by (bit_vector)
        requires df == b0 >> 3u8;
    let syn = residual(msg, nbits);
    match df {
        17 | 18 => {
            if syn == 0 {
                1400
            } else {
                -2
            }
        },
        11 => score_df11(msg, syn, known),
        0 | 4 | 5 | 16 | 20 | 21 => {
            if known.contains(&syn) {
                1000
            } else {
                -1
            }
        },
        _ => -2,
    }
}

fn learn_icao(msg: &[u8], nbits: usize, known: &mut HashSet<u32>)
    requires
        msg@.len() >= 4,
        nbits / 8 <= msg@.len(),
    ensures
        final(known)@ == spec_learn(msg@, nbits as int, old(known)@),
{
    let df = msg[0] >> 3u8;
    let b0 = msg[0];
    assert(df == b0 / 8) by (bit_vector)
        requires df == b0 >> 3u8;
    let syn = residual(msg, nbits);
    match df {
        11 => {
            if df11_syndrome_iid_ok(syn) {
                known.insert(icao_from_aa(msg));
            }
        },
        17 | 18 => {
            known.insert(icao_from_aa(msg));
        },
        0 | 4 | 5 | 16 | 20 | 21 => {
            known.insert(syn);
        },
        _ => {},
    }
}

fn preamble_gate(p: &[u16], j: usize) -> (r: bool)
    requires
        j + 18 < p@.len() <= usize::MAX,
    ensures
        r == spec_gate(p@, j as int),
{
    p[j + 1] > p[j + 7] && p[j + 12] > p[j + 14] && p[j + 12] > p[j + 15]
}


// ---------------------------------------------------------------- scanning

/// A frame as the spec sees it: `(sample index, 14 bytes, nbits)`.
pub open spec fn raw_view(f: RawFrame) -> (int, Seq<u8>, int) {
    (f.0 as int, f.1@, f.2 as int)
}

pub open spec fn frames_view(v: Seq<RawFrame>) -> Seq<(int, Seq<u8>, int)> {
    v.map_values(|f: RawFrame| raw_view(f))
}

/// Scan frames with their positions moved by `base`.
pub open spec fn frames_at(s: Seq<(int, Seq<u8>, int)>, base: int) -> Seq<(int, Seq<u8>, int)> {
    s.map_values(|f: (int, Seq<u8>, int)| (f.0 + base, f.1, f.2))
}

/// Where a `process` call stops scanning: at `search_end`, but never closer
/// than [`DEMOD_OVERLAP`] samples to the end of the buffer.
pub open spec fn process_end(len: int, search_end: int) -> int {
    let cap = if len >= 289 { len - 289 } else { 0 };
    if search_end < cap { search_end } else { cap }
}

/// Stateful demodulator so ICAO learning persists across magnitude chunks.
#[derive(Debug)]
pub struct Demodulator {
    known: HashSet<u32>,
}

impl View for Demodulator {
    type V = Set<u32>;

    /// The ICAO addresses learned so far.
    closed spec fn view(&self) -> Set<u32> {
        self.known@
    }
}

/// The preamble threshold slots at `j`, as computed from the samples.
fn phase_slots(mag: &[u16], j: usize) -> (r: [bool; 5])
    requires
        j + 18 < mag@.len() <= usize::MAX,
    ensures
        forall|i: int| 0 <= i < 5 ==> r@[i] == tried(mag@, j as int, i),
{
    let base_noise = mag[j + 5] as i32 + mag[j + 8] as i32 + mag[j + 16] as i32 + mag[j + 17] as i32
        + mag[j + 18] as i32;
    let scaled = base_noise * PREAMBLE_THRESHOLD;
    let ref_level = scaled >> 5u32;
    assert(ref_level == scaled / 32) by (bit_vector)
        requires ref_level == scaled >> 5u32, scaled >= 0;
    let diff_2_3 = mag[j + 2] as i32 - mag[j + 3] as i32;
    let sum_1_4 = mag[j + 1] as i32 + mag[j + 4] as i32;
    let diff_10_11 = mag[j + 10] as i32 - mag[j + 11] as i32;
    let common3456 = sum_1_4 - diff_2_3 + mag[j + 9] as i32 + mag[j + 12] as i32;
    let mut try_phases = [false;5];
    let pa_mag_a = common3456 - diff_10_11;
    if pa_mag_a >= ref_level {
        try_phases[0] = true;
        try_phases[1] = true;
    }
    let pa_mag_b = common3456 + diff_10_11;
    if pa_mag_b >= ref_level {
        try_phases[2] = true;
        try_phases[3] = true;
    }
    let pa_mag_c = sum_1_4 + 2 * diff_2_3 + diff_10_11 + mag[j + 12] as i32;
    if pa_mag_c >= ref_level {
        try_phases[4] = true;
    }
    try_phases
}

pub open spec fn best_view(b: Option<([u8; 14], usize, i32)>) -> Option<(Seq<u8>, int, int)> {
    match b {
        Some((msg, nbits, sc)) => Some((msg@, nbits as int, sc as int)),
        None => None,
    }
}

impl Demodulator {
    pub fn new() -> (r: Self)
        ensures
            r@ == Set::<u32>::empty(),
    {
        Demodulator { known: HashSet::new() }
    }

    /// The best-scoring candidate frame for the preamble at `j`.
    fn best_candidate(&self, mag: &[u16], j: usize) -> (r: Option<([u8; 14], usize, i32)>)
        requires
            j + 289 <= mag@.len() <= usize::MAX,
            spec_gate(mag@, j as int),
        ensures
            best_view(r) == best_at(mag@, j as int, self@),
            r matches Some((msg, nbits, _)) ==> nbits == 56 || nbits == 112,
    {
        let try_phases = phase_slots(mag, j);
        let mut best: Option<([u8; 14], usize, i32)> = None;
        let mut i: usize = 0;
        while i < 5
            invariant
                i <= 5,
                j + 289 <= mag@.len() <= usize::MAX,
                forall|x: int| 0 <= x < 5 ==> try_phases@[x] == tried(mag@, j as int, x),
                best_from(mag@, j as int, self@, 0, None) == best_from(
                    mag@,
                    j as int,
                    self@,
                    i as int,
                    best_view(best),
                ),
                best matches Some((msg, nbits, _)) ==> nbits == 56 || nbits == 112,
            decreases 5 - i,
        {
            if try_phases[i] {
                match slice_message(mag, j, 4 + i) {
                    Some((msg, nbits)) => {
                        proof {
                            lemma_slice_nbits(mag@, j as int, 4 + i);
                        }
                        let sc = score(&msg, nbits, &self.known);
                        let better = match best {
                            None => true,
                            Some((_, _, s)) => sc > s,
                        };
                        if sc > 0 && better {
                            best = Some((msg, nbits, sc));
                        }
                    },
                    None => {},
                }
            }
            i = i + 1;
        }
        best
    }

    /// Scan `mag[start_j..search_end)` for preambles; decode may read through `mag.len()`.
    ///
    /// `sample_base` is the global sample index of `mag[0]` (for CPR timestamps).
    /// Returns emitted frames and the scan cursor after this window (may exceed
    /// `search_end` when a message skip lands in the overlap tail).
    pub fn process(&mut self, mag: &[u16], sample_base: usize, start_j: usize, search_end: usize) -> (r: (
        Vec<RawFrame>,
        usize,
    ))
        requires
            sample_base + mag@.len() <= usize::MAX,
        ensures
            ({
                let sc = spec_scan(
                    mag@,
                    start_j as int,
                    process_end(mag@.len() as int, search_end as int),
                    old(self)@,
                );
                &&& frames_view(r.0@) == frames_at(sc.0, sample_base as int)
                &&& r.1 == sc.1
                &&& final(self)@ == sc.2
            }),
    {
        let mut out: Vec<RawFrame> = Vec::new();
        let len = mag.len();
        let cap = if len >= DEMOD_OVERLAP { len - DEMOD_OVERLAP } else { 0 };
        let search_end = if search_end < cap { search_end } else { cap };
        let ghost total = spec_scan(mag@, start_j as int, search_end as int, self@);
        if start_j >= search_end {
            assert(frames_view(out@) =~= frames_at(total.0, sample_base as int));
            return (out, start_j);
        }
        let mut j = start_j;
        while j < search_end
            invariant
                len == mag@.len(),
                sample_base + len <= usize::MAX,
                search_end + 289 <= len || search_end == 0,
                ({
                    let rem = spec_scan(mag@, j as int, search_end as int, self@);
                    &&& frames_view(out@) + frames_at(rem.0, sample_base as int) == frames_at(
                        total.0,
                        sample_base as int,
                    )
                    &&& rem.1 == total.1
                    &&& rem.2 == total.2
                }),
                j < search_end + 224,
            decreases (if j < search_end { search_end - j } else { 0 }),
        {
            let ghost known0 = self@;
            let ghost rem = spec_scan(mag@, j as int, search_end as int, self@);
            if !preamble_gate(mag, j) {
                j += 1;
                continue;
            }
            match self.best_candidate(mag, j) {
                Some((msg, nbits, _)) => {
                    learn_icao(&msg, nbits, &mut self.known);
                    let ghost next = spec_scan(mag@, (j + nbits * 2) as int, search_end as int, self@);
                    assert(rem.0 == seq![(j as int, msg@, nbits as int)] + next.0);
                    let ghost old_out = out@;
                    out.push((sample_base + j, msg, nbits));
                    assert(frames_view(out@) =~= frames_view(old_out).push(
                        (sample_base + j, msg@, nbits as int),
                    ));
                    assert(frames_at(rem.0, sample_base as int) =~= seq![
                        (sample_base + j, msg@, nbits as int),
                    ] + frames_at(next.0, sample_base as int));
                    assert(frames_view(out@) + frames_at(next.0, sample_base as int) =~= frames_view(
                        old_out,
                    ) + frames_at(rem.0, sample_base as int));
                    j += nbits * 2;
                },
                None => {
                    j += 1;
                },
            }
        }
        assert(frames_view(out@) =~= frames_view(out@) + frames_at(
            spec_scan(mag@, j as int, search_end as int, self@).0,
            sample_base as int,
        ));
        (out, j)
    }
}


impl Default for Demodulator {
    fn default() -> (r: Self)
        ensures
            r@ == Set::<u32>::empty(),
    {
        Demodulator::new()
    }
}

/// Frames of a one-shot scan over the whole buffer, learning from nothing.
pub open spec fn spec_demodulate(m: Seq<u16>) -> Seq<(int, Seq<u8>, int)> {
    if m.len() < 289 {
        Seq::empty()
    } else {
        spec_scan(m, 0, m.len() - 289, Set::empty()).0
    }
}

/// End of the window that starts at `pos`: `chunk` scanned positions and
/// the [`WINDOW_CARRY`] samples after them, or the end of the buffer.
pub open spec fn window_end(len: int, chunk: int, pos: int) -> int {
    if pos + chunk + 290 < len { pos + chunk + 290 } else { len }
}

/// Frames of the chunked walk from window `pos`, resuming the scan at local
/// cursor `start_j` with known addresses `known`. An inner window scans all
/// but its last [`WINDOW_CARRY`] samples; the last window scans as far as a
/// one-shot scan does.
pub open spec fn spec_chunked(
    m: Seq<u16>,
    chunk: int,
    pos: int,
    start_j: int,
    known: Set<u32>,
) -> Seq<(int, Seq<u8>, int)>
    decreases m.len() - pos,
{
    if pos >= m.len() || chunk <= 0 || pos < 0 {
        Seq::empty()
    } else {
        let end = window_end(m.len() as int, chunk, pos);
        let w = m.subrange(pos, end);
        if end >= m.len() {
            if w.len() < 289 {
                Seq::empty()
            } else {
                frames_at(spec_scan(w, start_j, w.len() - 289, known).0, pos)
            }
        } else {
            let e = w.len() - 290;
            let sc = spec_scan(w, start_j, e, known);
            frames_at(sc.0, pos) + spec_chunked(m, chunk, pos + e, sc.1 - e, sc.2)
        }
    }
}

/// The scan cursor never stops short of the scan end.
pub proof fn lemma_scan_end(m: Seq<u16>, j: int, end: int, known: Set<u32>)
    ensures
        spec_scan(m, j, end, known).1 >= end,
        j >= end ==> spec_scan(m, j, end, known).1 == j,
    decreases (if j < end { end - j } else { 0 }),
{
    if j < end {
        lemma_best_nbits(m, j, known);
        match best_at(m, j, known) {
            Some((msg, nbits, _)) => {
                lemma_scan_end(m, j + nbits * 2, end, spec_learn(msg, nbits, known));
            },
            None => {
                lemma_scan_end(m, j + 1, end, known);
            },
        }
    }
}

/// Learning never forgets: the addresses known after a scan include the
/// addresses known before it.
pub proof fn lemma_scan_keeps_known(m: Seq<u16>, j: int, end: int, known: Set<u32>)
    ensures
        known.subset_of(spec_scan(m, j, end, known).2),
    decreases (if j < end { end - j } else { 0 }),
{
    if j < end {
        lemma_best_nbits(m, j, known);
        match best_at(m, j, known) {
            Some((msg, nbits, _)) => {
                let k2 = spec_learn(msg, nbits, known);
                assert(known.subset_of(k2));
                lemma_scan_keeps_known(m, j + nbits * 2, end, k2);
            },
            None => {
                lemma_scan_keeps_known(m, j + 1, end, known);
            },
        }
    }
}

/// One-shot demod over a full magnitude buffer (tests / simple callers).
pub fn demodulate(mag: &[u16]) -> (r: Vec<RawFrame>)
    ensures
        frames_view(r@) == spec_demodulate(mag@),
{
    if mag.len() < DEMOD_OVERLAP {
        let empty: Vec<RawFrame> = Vec::new();
        assert(frames_view(empty@) =~= Seq::empty());
        return empty;
    }
    let mut demod = Demodulator::new();
    let (frames, _) = demod.process(mag, 0, 0, mag.len() - DEMOD_OVERLAP);
    assert(frames_at(spec_scan(mag@, 0, mag@.len() - 289, Set::empty()).0, 0) =~= spec_scan(
        mag@,
        0,
        mag@.len() - 289,
        Set::empty(),
    ).0);
    frames
}

/// Chunked demod over an existing magnitude buffer (parity helper / tests).
///
/// Walks `mag` in windows of `chunk_samples` scanned positions, carrying the
/// last [`WINDOW_CARRY`] samples of each window into the next, so results
/// match [`demodulate`] while exercising the streaming path.
pub fn demodulate_chunked(mag: &[u16], chunk_samples: usize) -> (r: Vec<RawFrame>)
    requires
        chunk_samples > 0,
        mag@.len() + chunk_samples + 290 <= usize::MAX,
    ensures
        frames_view(r@) == spec_chunked(mag@, chunk_samples as int, 0, 0, Set::empty()),
{
    let mut demod = Demodulator::new();
    let mut out: Vec<RawFrame> = Vec::new();
    let mut pos: usize = 0;
    let mut start_j: usize = 0;
    let len = mag.len();
    let ghost total = spec_chunked(mag@, chunk_samples as int, 0, 0, Set::empty());
    while pos < len
        invariant_except_break
            frames_view(out@) + spec_chunked(mag@, chunk_samples as int, pos as int, start_j as int, demod@)
                == total,
        invariant
            len == mag@.len(),
            len + chunk_samples + 290 <= usize::MAX,
            chunk_samples > 0,
        ensures
            frames_view(out@) == total,
        decreases len - pos,
    {
        let end = if pos + chunk_samples + WINDOW_CARRY < len {
            pos + chunk_samples + WINDOW_CARRY
        } else {
            len
        };
        let window = slice_subrange(mag, pos, end);
        let ghost rest = spec_chunked(mag@, chunk_samples as int, pos as int, start_j as int, demod@);
        let ghost old_out = out@;
        if end >= len {
            if window.len() < DEMOD_OVERLAP {
                assert(frames_view(out@) + rest =~= frames_view(out@));
                break;
            }
            let (frames, _) = demod.process(window, pos, start_j, window.len() - DEMOD_OVERLAP);
            extend_frames(&mut out, frames);
            assert(frames_view(out@) =~= frames_view(old_out) + rest);
            break;
        }
        let search_end = window.len() - WINDOW_CARRY;
        let ghost known0 = demod@;
        let (frames, end_j) = demod.process(window, pos, start_j, search_end);
        proof {
            lemma_scan_end(window@, start_j as int, search_end as int, known0);
        }
        extend_frames(&mut out, frames);
        start_j = end_j - search_end;
        pos += search_end;
        assert(frames_view(out@) + spec_chunked(mag@, chunk_samples as int, pos as int, start_j as int, demod@)
            =~= frames_view(old_out) + rest);
    }
    out
}

/// `s[from..to]`.
fn slice_subrange(s: &[u16], from: usize, to: usize) -> (r: &[u16])
    requires
        from <= to <= s@.len(),
    ensures
        r@ == s@.subrange(from as int, to as int),
{
    vstd::slice::slice_subrange(s, from, to)
}

/// Append `more` to `out`.
pub fn extend_frames(out: &mut Vec<RawFrame>, more: Vec<RawFrame>)
    ensures
        frames_view(final(out)@) == frames_view(old(out)@) + frames_view(more@),
{
    let mut more = more;
    let ghost orig = more@;
    let ghost start = out@;
    let mut i: usize = 0;
    let n = more.len();
    while i < n
        invariant
            n == more@.len(),
            more@ == orig,
            i <= n,
            out@ == start + orig.take(i as int),
        decreases n - i,
    {
        out.push(more[i]);
        assert(orig.take(i + 1) =~= orig.take(i as int).push(orig[i as int]));
        i += 1;
    }
    assert(orig.take(n as int) =~= orig);
    assert(frames_view(out@) =~= frames_view(start) + frames_view(orig));
}


proof fn lemma_best_from_score(
    m: Seq<u16>,
    j: int,
    known: Set<u32>,
    i: int,
    best: Option<(Seq<u8>, int, int)>,
)
    requires
        best matches Some((msg, nbits, sc)) ==> sc == spec_score(msg, nbits, known) && sc > 0,
    ensures
        best_from(m, j, known, i, best) matches Some((msg, nbits, sc)) ==> sc == spec_score(
            msg,
            nbits,
            known,
        ) && sc > 0,
    decreases 5 - i,
{
    if i < 5 {
        let next = if tried(m, j, i) {
            match spec_slice(m, j, 4 + i) {
                Some((msg, nbits)) => {
                    let sc = spec_score(msg, nbits, known);
                    if sc > 0 && (best is None || sc > best.unwrap().2) {
                        Some((msg, nbits, sc))
                    } else {
                        best
                    }
                },
                None => best,
            }
        } else {
            best
        };
        lemma_best_from_score(m, j, known, i + 1, next);
    }
}

/// Every frame a scan emits passes [`crate::mode_s::accept_message`]; in
/// particular every DF17/18 frame it emits has a zero CRC residual.
pub proof fn lemma_scan_frames_accepted(m: Seq<u16>, j: int, end: int, known: Set<u32>)
    ensures
        forall|i: int|
            0 <= i < spec_scan(m, j, end, known).0.len() ==> #[trigger] spec_accept_message(
                spec_scan(m, j, end, known).0[i].1,
                spec_scan(m, j, end, known).0[i].2,
            ),
    decreases (if j < end { end - j } else { 0 }),
{
    if j < end {
        lemma_best_nbits(m, j, known);
        lemma_best_from_score(m, j, known, 0, None);
        match best_at(m, j, known) {
            Some((msg, nbits, sc)) => {
                let k2 = spec_learn(msg, nbits, known);
                lemma_scan_frames_accepted(m, j + nbits * 2, end, k2);
                let rest = spec_scan(m, j + nbits * 2, end, k2);
                let all = spec_scan(m, j, end, known);
                assert(all.0 == seq![(j, msg, nbits)] + rest.0);
                assert(spec_accept_message(msg, nbits));
                assert forall|i: int| 0 <= i < all.0.len() implies #[trigger] spec_accept_message(
                    all.0[i].1,
                    all.0[i].2,
                ) by {
                    if i > 0 {
                        assert(all.0[i] == rest.0[i - 1]);
                    }
                }
            },
            None => {
                lemma_scan_frames_accepted(m, j + 1, end, known);
                assert(spec_scan(m, j, end, known) == spec_scan(m, j + 1, end, known));
            },
        }
    } else {
        assert(spec_scan(m, j, end, known).0.len() == 0);
    }
}


/// The addresses known after learning from `frames` in order, starting
/// from `known`.
pub open spec fn learn_all(frames: Seq<(int, Seq<u8>, int)>, known: Set<u32>) -> Set<u32>
    decreases frames.len(),
{
    if frames.len() == 0 {
        known
    } else {
        learn_all(frames.drop_first(), spec_learn(frames[0].1, frames[0].2, known))
    }
}

/// A surveillance reply (DF0/4/5/16/20/21) whose residual is an address
/// learned from the frames before it.
pub open spec fn admitted_after_learning(
    frames: Seq<(int, Seq<u8>, int)>,
    known: Set<u32>,
) -> bool {
    forall|i: int|
        0 <= i < frames.len() && is_surveillance(spec_df(#[trigger] frames[i].1)) ==> learn_all(
            frames.take(i),
            known,
        ).contains(spec_residual(frames[i].1, frames[i].2))
}

proof fn lemma_learn_all_concat(a: Seq<(int, Seq<u8>, int)>, b: Seq<(int, Seq<u8>, int)>, known: Set<u32>)
    ensures
        learn_all(a + b, known) == learn_all(b, learn_all(a, known)),
    decreases a.len(),
{
    if a.len() > 0 {
        assert((a + b).drop_first() =~= a.drop_first() + b);
        assert((a + b)[0] == a[0]);
        lemma_learn_all_concat(a.drop_first(), b, spec_learn(a[0].1, a[0].2, known));
    } else {
        assert(a + b =~= b);
    }
}

/// Learning law of a scan: the addresses known after it are those learned
/// from the frames it emits, in order; and it emits a surveillance reply
/// only when the reply's residual is an address already known, from before
/// the scan or from a frame emitted earlier in it.
pub proof fn lemma_scan_learns(m: Seq<u16>, j: int, end: int, known: Set<u32>)
    ensures
        spec_scan(m, j, end, known).2 == learn_all(spec_scan(m, j, end, known).0, known),
        admitted_after_learning(spec_scan(m, j, end, known).0, known),
    decreases (if j < end { end - j } else { 0 }),
{
    let all = spec_scan(m, j, end, known);
    if j < end {
        lemma_best_nbits(m, j, known);
        lemma_best_from_score(m, j, known, 0, None);
        match best_at(m, j, known) {
            Some((msg, nbits, sc)) => {
                let k2 = spec_learn(msg, nbits, known);
                lemma_scan_learns(m, j + nbits * 2, end, k2);
                let rest = spec_scan(m, j + nbits * 2, end, k2);
                let head = (j, msg, nbits);
                assert(all.0 == seq![head] + rest.0);
                assert(all.0.drop_first() =~= rest.0);
                assert forall|i: int|
                    0 <= i < all.0.len() && is_surveillance(spec_df(#[trigger] all.0[i].1)) implies learn_all(
                    all.0.take(i),
                    known,
                ).contains(spec_residual(all.0[i].1, all.0[i].2)) by {
                    if i == 0 {
                        assert(all.0.take(0) =~= Seq::<(int, Seq<u8>, int)>::empty());
                        assert(sc == spec_score(msg, nbits, known));
                    } else {
                        assert(all.0[i] == rest.0[i - 1]);
                        let t = all.0.take(i);
                        assert(t.drop_first() =~= rest.0.take(i - 1));
                        assert(t[0] == head);
                    }
                }
            },
            None => {
                lemma_scan_learns(m, j + 1, end, known);
            },
        }
    }
}

/// Learning persists across calls: when a second scan starts from the
/// addresses the first one ended with, every surveillance reply the two
/// emit together has a residual learned before it, and the addresses known
/// at the end are those learned from all their frames.
pub proof fn lemma_learning_across_scans(
    m1: Seq<u16>,
    j1: int,
    e1: int,
    m2: Seq<u16>,
    j2: int,
    e2: int,
    known: Set<u32>,
)
    ensures
        ({
            let s1 = spec_scan(m1, j1, e1, known);
            let s2 = spec_scan(m2, j2, e2, s1.2);
            &&& admitted_after_learning(s1.0 + s2.0, known)
            &&& s2.2 == learn_all(s1.0 + s2.0, known)
        }),
{
    let s1 = spec_scan(m1, j1, e1, known);
    let s2 = spec_scan(m2, j2, e2, s1.2);
    lemma_scan_learns(m1, j1, e1, known);
    lemma_scan_learns(m2, j2, e2, s1.2);
    lemma_learn_all_concat(s1.0, s2.0, known);
    let all = s1.0 + s2.0;
    assert forall|i: int|
        0 <= i < all.len() && is_surveillance(spec_df(#[trigger] all[i].1)) implies learn_all(
        all.take(i),
        known,
    ).contains(spec_residual(all[i].1, all[i].2)) by {
        if i < s1.0.len() {
            assert(all.take(i) =~= s1.0.take(i));
            assert(all[i] == s1.0[i]);
        } else {
            let k = i - s1.0.len();
            assert(all[i] == s2.0[k]);
            assert(all.take(i) =~= s1.0 + s2.0.take(k));
            lemma_learn_all_concat(s1.0, s2.0.take(k), known);
        }
    }
}


/// Address learning law: learning from a frame never forgets an address; a
/// DF17/18 frame teaches its AA address; a DF11 reply teaches its AA address
/// exactly when its residual is the interrogator ID alone (and teaches
/// nothing otherwise); a surveillance reply teaches its residual, the
/// address its parity is overlaid with; any other format teaches nothing.
pub proof fn lemma_learn_rules(msg: Seq<u8>, nbits: int, known: Set<u32>)
    ensures
        known.subset_of(spec_learn(msg, nbits, known)),
        (spec_df(msg) == 17 || spec_df(msg) == 18) ==> spec_learn(msg, nbits, known) == known.insert(
            spec_icao_from_aa(msg),
        ),
        spec_df(msg) == 11 && iid_residual_ok(spec_residual(msg, nbits)) ==> spec_learn(
            msg,
            nbits,
            known,
        ).contains(spec_icao_from_aa(msg)) && spec_learn(msg, nbits, known) == known.insert(
            spec_icao_from_aa(msg),
        ),
        spec_df(msg) == 11 && !iid_residual_ok(spec_residual(msg, nbits)) ==> spec_learn(
            msg,
            nbits,
            known,
        ) == known,
        is_surveillance(spec_df(msg)) ==> spec_learn(msg, nbits, known) == known.insert(
            spec_residual(msg, nbits),
        ),
        !(spec_df(msg) == 11 || spec_df(msg) == 17 || spec_df(msg) == 18 || is_surveillance(
            spec_df(msg),
        )) ==> spec_learn(msg, nbits, known) == known,
{
}

/// Learning in a scan: once a scan has emitted a DF11 reply whose residual
/// is the interrogator ID alone, or a DF17/18 frame, that frame's AA
/// address is known to every later step of the scan and after it.
pub proof fn lemma_scan_learns_addresses(m: Seq<u16>, j: int, end: int, known: Set<u32>)
    ensures
        ({
            let sc = spec_scan(m, j, end, known);
            forall|i: int, k: int|
                0 <= i < k <= sc.0.len() && (spec_df(#[trigger] sc.0[i].1) == 17 || spec_df(
                    sc.0[i].1,
                ) == 18 || (spec_df(sc.0[i].1) == 11 && iid_residual_ok(
                    spec_residual(sc.0[i].1, sc.0[i].2),
                ))) ==> #[trigger] learn_all(sc.0.take(k), known).contains(
                    spec_icao_from_aa(sc.0[i].1),
                )
        }),
        spec_scan(m, j, end, known).2 == learn_all(spec_scan(m, j, end, known).0, known),
{
    lemma_scan_learns(m, j, end, known);
    let sc = spec_scan(m, j, end, known);
    assert forall|i: int, k: int|
        0 <= i < k <= sc.0.len() && (spec_df(#[trigger] sc.0[i].1) == 17 || spec_df(sc.0[i].1)
            == 18 || (spec_df(sc.0[i].1) == 11 && iid_residual_ok(
            spec_residual(sc.0[i].1, sc.0[i].2),
        ))) implies #[trigger] learn_all(sc.0.take(k), known).contains(
        spec_icao_from_aa(sc.0[i].1),
    ) by {
        let f = sc.0[i];
        let pre = sc.0.take(i);
        let mid = sc.0.subrange(i, k);
        assert(sc.0.take(k) =~= pre + mid);
        lemma_learn_all_concat(pre, mid, known);
        let k1 = learn_all(pre, known);
        assert(mid[0] == f);
        assert(mid.len() > 0);
        lemma_learn_rules(f.1, f.2, k1);
        lemma_learn_all_grows(mid.drop_first(), spec_learn(f.1, f.2, k1));
        assert(learn_all(mid, k1) == learn_all(mid.drop_first(), spec_learn(f.1, f.2, k1)));
    }
}

/// Learning from more frames only adds addresses.
proof fn lemma_learn_all_grows(frames: Seq<(int, Seq<u8>, int)>, known: Set<u32>)
    ensures
        known.subset_of(learn_all(frames, known)),
    decreases frames.len(),
{
    if frames.len() > 0 {
        let k2 = spec_learn(frames[0].1, frames[0].2, known);
        assert(known.subset_of(k2));
        lemma_learn_all_grows(frames.drop_first(), k2);
    }
}

} // verus!
