//! Chunked scanning reproduces the one-shot scan.
//!
//! An inner window ends [`WINDOW_CARRY`] samples after its last scanned
//! preamble position, so every slice at a position it scans reads only
//! samples inside it; the last window ends with the buffer. Scanning the
//! windows in turn therefore finds exactly the frames of one scan over the
//! whole buffer, for every buffer and every chunk size.
use vstd::prelude::*;
use crate::pipeline::{chunk_step, chunk_count, mag_chunks, spec_sc16_pipeline, spec_stream, stream_start};
use crate::iq::{sc16_samples, spec_magnitude};
use crate::demod::{
    best_at, best_from, byte_fits, byte_prefix, data_byte, frame_buffer, frame_bytes, frame_origin,
    frames_at, spec_chunked, spec_demodulate, spec_gate, spec_scan, spec_slice, tried, window_end,
    spec_learn, spec_score, lemma_best_nbits, lemma_scan_end, admitted_after_learning,
    lemma_scan_learns,
};

verus! {

proof fn lemma_fifths_shift(g: int, d: int)
    requires
        g >= 0,
        d >= 0,
    ensures
        (g + 5 * d) / 5 == g / 5 + d,
        (g + 5 * d) % 5 == g % 5,
{
    assert((g + 5 * d) / 5 == g / 5 + d && (g + 5 * d) % 5 == g % 5) by (nonlinear_arith)
        requires g >= 0, d >= 0;
}

/// Bytes read from two buffers that agree (with offset `d` samples) on the
/// 20 samples a byte needs are equal.
proof fn lemma_byte_prefix_agree(a: Seq<u16>, b: Seq<u16>, g: int, d: int, n: nat)
    requires
        g >= 0,
        d >= 0,
        n <= 8,
        g / 5 + 20 <= b.len(),
        g / 5 + d + 20 <= a.len(),
        forall|t: int| g / 5 <= t < g / 5 + 20 ==> #[trigger] b[t] == a[t + d],
    ensures
        byte_prefix(b, g, n) == byte_prefix(a, g + 5 * d, n),
    decreases n,
{
    if n > 0 {
        lemma_byte_prefix_agree(a, b, g, d, (n - 1) as nat);
        let h = g + 12 * (n - 1);
        lemma_fifths_shift(h, d);
        assert(h / 5 <= g / 5 + 17) by (nonlinear_arith)
            requires h == g + 12 * (n - 1), n <= 8, g >= 0;
        assert(h / 5 >= g / 5) by (nonlinear_arith)
            requires h == g + 12 * (n - 1), n >= 1, g >= 0;
        let i = h / 5;
        assert(b[i] == a[i + d]);
        assert(b[i + 1] == a[i + 1 + d]);
        assert(b[i + 2] == a[i + 2 + d]);
        if h % 5 == 4 {
            assert(h / 5 <= g / 5 + 16) by (nonlinear_arith)
                requires h == g + 12 * (n - 1), n <= 8, n >= 1, g >= 0, h % 5 == 4;
            assert(b[i + 3] == a[i + 3 + d]);
        }
        assert(g + 5 * d + 12 * (n - 1) == h + 5 * d);
    }
}

proof fn lemma_data_byte_agree(a: Seq<u16>, b: Seq<u16>, g: int, d: int)
    requires
        g >= 0,
        d >= 0,
        g / 5 + 20 <= b.len(),
        g / 5 + d + 20 <= a.len(),
        forall|t: int| g / 5 <= t < g / 5 + 20 ==> #[trigger] b[t] == a[t + d],
    ensures
        data_byte(b, g) == data_byte(a, g + 5 * d),
{
    lemma_byte_prefix_agree(a, b, g, d, 8);
}

/// Slicing a suffix of a buffer at `x` is slicing the buffer at `pos + x`.
proof fn lemma_slice_suffix(a: Seq<u16>, pos: int, x: int, tp: int)
    requires
        0 <= pos <= a.len(),
        0 <= x,
        4 <= tp < 9,
    ensures
        spec_slice(a.subrange(pos, a.len() as int), x, tp) == spec_slice(a, pos + x, tp),
{
    let b = a.subrange(pos, a.len() as int);
    let gb = frame_origin(x, tp);
    let ga = frame_origin(pos + x, tp);
    assert(ga == gb + 5 * pos);
    assert forall|i: int| 0 <= i < 14 implies (#[trigger] byte_fits(b.len() as int, gb + 96 * i)
        <==> byte_fits(a.len() as int, ga + 96 * i)) by {
        lemma_fifths_shift(gb + 96 * i, pos);
    }
    assert forall|i: int| 0 <= i < 14 && byte_fits(b.len() as int, gb + 96 * i) implies #[trigger] data_byte(
        b,
        gb + 96 * i,
    ) == data_byte(a, ga + 96 * i) by {
        let h = gb + 96 * i;
        lemma_fifths_shift(h, pos);
        assert forall|t: int| h / 5 <= t < h / 5 + 20 implies #[trigger] b[t] == a[t + pos] by {}
        lemma_data_byte_agree(a, b, h, pos);
    }
    assert(byte_fits(b.len() as int, gb + 96 * 0) <==> byte_fits(a.len() as int, ga + 96 * 0));
    if byte_fits(b.len() as int, gb) {
        assert(data_byte(b, gb + 96 * 0) == data_byte(a, ga + 96 * 0));
        let n = frame_bytes(data_byte(b, gb) / 8);
        if n != 0 {
            assert(byte_fits(b.len() as int, gb + 96 * (n - 1)) <==> byte_fits(
                a.len() as int,
                ga + 96 * (n - 1),
            ));
            if byte_fits(b.len() as int, gb + 96 * (n - 1)) {
                assert forall|i: int| 0 <= i < n implies #[trigger] byte_fits(b.len() as int, gb + 96 * i) by {
                    assert((gb + 96 * i) / 5 <= (gb + 96 * (n - 1)) / 5) by (nonlinear_arith)
                        requires 0 <= i < n, gb >= 0;
                }
                assert(frame_buffer(b, gb, n) =~= frame_buffer(a, ga, n));
            }
        }
    }
}

/// Cutting a buffer after `g + 290` does not change the slices at `g`: no
/// byte of them reaches the cut.
proof fn lemma_slice_cut(m: Seq<u16>, len: int, g: int, tp: int)
    requires
        0 <= g,
        g + 290 < len <= m.len(),
        4 <= tp < 9,
    ensures
        spec_slice(m.take(len), g, tp) == spec_slice(m, g, tp),
{
    let c = m.take(len);
    let g0 = frame_origin(g, tp);
    assert forall|i: int| 0 <= i < 14 implies #[trigger] byte_fits(c.len() as int, g0 + 96 * i)
        && byte_fits(m.len() as int, g0 + 96 * i) by {
        assert((g0 + 96 * i) / 5 <= g + 270) by (nonlinear_arith)
            requires 0 <= i < 14, g0 == 5 * (g + 19) + tp, tp < 9, g >= 0;
    }
    assert forall|i: int| 0 <= i < 14 implies #[trigger] data_byte(c, g0 + 96 * i) == data_byte(
        m,
        g0 + 96 * i,
    ) by {
        let h = g0 + 96 * i;
        assert(h / 5 + 20 <= len) by (nonlinear_arith)
            requires 0 <= i < 14, h == g0 + 96 * i, g0 == 5 * (g + 19) + tp, tp < 9, g >= 0, g + 290 < len;
        assert forall|t: int| h / 5 <= t < h / 5 + 20 implies #[trigger] c[t] == m[t + 0] by {}
        lemma_data_byte_agree(m, c, h, 0);
    }
    assert(data_byte(c, g0 + 96 * 0) == data_byte(m, g0 + 96 * 0));
    let n = frame_bytes(data_byte(c, g0) / 8);
    if n != 0 {
        assert(byte_fits(c.len() as int, g0 + 96 * (n - 1)));
        assert(frame_buffer(c, g0, n) =~= frame_buffer(m, g0, n));
    }
}


/// A window position whose slices agree with the full buffer.
pub open spec fn window_pos_ok(m: Seq<u16>, pos: int, end: int, x: int) -> bool {
    x + 290 < end - pos || end == m.len()
}

proof fn lemma_window_slice(m: Seq<u16>, pos: int, end: int, x: int, tp: int)
    requires
        0 <= pos <= end <= m.len(),
        0 <= x,
        x + 290 <= end - pos,
        4 <= tp < 9,
        window_pos_ok(m, pos, end, x),
    ensures
        spec_slice(m.subrange(pos, end), x, tp) == spec_slice(m, pos + x, tp),
{
    let a = m.take(end);
    assert(m.subrange(pos, end) =~= a.subrange(pos, a.len() as int));
    lemma_slice_suffix(a, pos, x, tp);
    if end == m.len() {
        assert(a =~= m);
    } else {
        lemma_slice_cut(m, end, pos + x, tp);
    }
}

proof fn lemma_window_best_from(
    m: Seq<u16>,
    pos: int,
    end: int,
    x: int,
    known: Set<u32>,
    i: int,
    best: Option<(Seq<u8>, int, int)>,
)
    requires
        0 <= pos <= end <= m.len(),
        0 <= x,
        x + 290 <= end - pos,
        window_pos_ok(m, pos, end, x),
        0 <= i <= 5,
    ensures
        best_from(m.subrange(pos, end), x, known, i, best) == best_from(m, pos + x, known, i, best),
    decreases 5 - i,
{
    if i < 5 {
        let w = m.subrange(pos, end);
        lemma_window_slice(m, pos, end, x, 4 + i);
        assert(tried(w, x, i) == tried(m, pos + x, i));
        let next = if tried(w, x, i) {
            match spec_slice(w, x, 4 + i) {
                Some((msg, nbits)) => {
                    let sc = spec_score(msg, nbits, known);
                    if sc > 0 && (best is None || sc > best.unwrap().2) {
                        Some((msg, nbits, sc))
                    } else {
                        best
                    }
                },
                None => best,
            }
        } else {
            best
        };
        lemma_window_best_from(m, pos, end, x, known, i + 1, next);
    }
}

proof fn lemma_window_best(m: Seq<u16>, pos: int, end: int, x: int, known: Set<u32>)
    requires
        0 <= pos <= end <= m.len(),
        0 <= x,
        x + 290 <= end - pos,
        window_pos_ok(m, pos, end, x),
    ensures
        best_at(m.subrange(pos, end), x, known) == best_at(m, pos + x, known),
{
    assert(spec_gate(m.subrange(pos, end), x) == spec_gate(m, pos + x));
    lemma_window_best_from(m, pos, end, x, known, 0, None);
}

/// Scanning a window is scanning the buffer over the same positions.
proof fn lemma_window_scan(m: Seq<u16>, pos: int, end: int, x: int, e: int, known: Set<u32>)
    requires
        0 <= pos <= end <= m.len(),
        0 <= x,
        e + 289 <= end - pos,
        end == m.len() || e + 290 <= end - pos,
    ensures
        ({
            let sw = spec_scan(m.subrange(pos, end), x, e, known);
            let sm = spec_scan(m, pos + x, pos + e, known);
            &&& frames_at(sw.0, pos) == sm.0
            &&& sw.1 + pos == sm.1
            &&& sw.2 == sm.2
        }),
    decreases (if x < e { e - x } else { 0 }),
{
    let w = m.subrange(pos, end);
    if x < e {
        lemma_window_best(m, pos, end, x, known);
        lemma_best_nbits(m, pos + x, known);
        match best_at(w, x, known) {
            Some((msg, nbits, sc)) => {
                lemma_window_scan(m, pos, end, x + nbits * 2, e, spec_learn(msg, nbits, known));
                let rest = spec_scan(w, x + nbits * 2, e, spec_learn(msg, nbits, known));
                assert(frames_at(seq![(x, msg, nbits)] + rest.0, pos) =~= seq![(pos + x, msg, nbits)]
                    + frames_at(rest.0, pos));
            },
            None => {
                lemma_window_scan(m, pos, end, x + 1, e, known);
            },
        }
    } else {
        assert(frames_at(Seq::<(int, Seq<u8>, int)>::empty(), pos) =~= Seq::empty());
    }
}

/// A scan over `a..c` is the scan over `a..b` followed by the scan that
/// resumes where that one stopped.
proof fn lemma_scan_split(m: Seq<u16>, a: int, b: int, c: int, known: Set<u32>)
    requires
        b <= c,
    ensures
        ({
            let r1 = spec_scan(m, a, b, known);
            let r2 = spec_scan(m, r1.1, c, r1.2);
            let whole = spec_scan(m, a, c, known);
            &&& whole.0 == r1.0 + r2.0
            &&& whole.1 == r2.1
            &&& whole.2 == r2.2
        }),
    decreases (if a < b { b - a } else { 0 }),
{
    if a < b {
        lemma_best_nbits(m, a, known);
        match best_at(m, a, known) {
            Some((msg, nbits, _)) => {
                lemma_scan_split(m, a + nbits * 2, b, c, spec_learn(msg, nbits, known));
                let r1 = spec_scan(m, a + nbits * 2, b, spec_learn(msg, nbits, known));
                let r2 = spec_scan(m, r1.1, c, r1.2);
                assert(seq![(a, msg, nbits)] + (r1.0 + r2.0) =~= (seq![(a, msg, nbits)] + r1.0)
                    + r2.0);
            },
            None => {
                lemma_scan_split(m, a + 1, b, c, known);
            },
        }
    } else {
        let r2 = spec_scan(m, a, c, known);
        assert(Seq::<(int, Seq<u8>, int)>::empty() + r2.0 =~= r2.0);
    }
}

/// From window `pos` on, the chunked walk yields the rest of the one-shot scan.
proof fn lemma_chunked_tail(m: Seq<u16>, chunk: int, pos: int, sj: int, known: Set<u32>)
    requires
        chunk > 0,
        pos >= 0,
        sj >= 0,
        pos + 289 <= m.len(),
    ensures
        spec_chunked(m, chunk, pos, sj, known) == spec_scan(m, pos + sj, m.len() - 289, known).0,
    decreases m.len() - pos,
{
    let len = m.len() as int;
    let end = window_end(len, chunk, pos);
    let w = m.subrange(pos, end);
    if end >= len {
        let e = w.len() - 289;
        lemma_window_scan(m, pos, end, sj, e, known);
    } else {
        let e = w.len() - 290;
        lemma_window_scan(m, pos, end, sj, e, known);
        let sc = spec_scan(w, sj, e, known);
        lemma_scan_end(w, sj, e, known);
        lemma_chunked_tail(m, chunk, pos + e, sc.1 - e, sc.2);
        lemma_scan_split(m, pos + sj, pos + e, len - 289, known);
    }
}

/// Chunk parity: walking a magnitude buffer in windows of `chunk` scanned
/// positions, carrying [`WINDOW_CARRY`] samples from each window into the
/// next, finds exactly the frames, at the same sample indices and in the
/// same order, that one scan over the whole buffer finds.
pub proof fn lemma_chunked_matches_oneshot(m: Seq<u16>, chunk: int)
    requires
        chunk > 0,
    ensures
        spec_chunked(m, chunk, 0, 0, Set::empty()) == spec_demodulate(m),
{
    if m.len() >= 289 {
        lemma_chunked_tail(m, chunk, 0, 0, Set::empty());
    }
}


/// The chunks of a stream laid end to end.
pub open spec fn flatten(chunks: Seq<Seq<u16>>) -> Seq<u16>
    decreases chunks.len(),
{
    if chunks.len() == 0 {
        Seq::empty()
    } else {
        flatten(chunks.drop_last()) + chunks.last()
    }
}

proof fn lemma_flatten_succ(chunks: Seq<Seq<u16>>, i: int)
    requires
        0 <= i < chunks.len(),
    ensures
        flatten(chunks.take(i + 1)) == flatten(chunks.take(i)) + chunks[i],
{
    assert(chunks.take(i + 1).drop_last() =~= chunks.take(i));
}

proof fn lemma_flatten_prefix(chunks: Seq<Seq<u16>>, k: int)
    requires
        0 <= k <= chunks.len(),
    ensures
        flatten(chunks.take(k)).len() <= flatten(chunks).len(),
        flatten(chunks).take(flatten(chunks.take(k)).len() as int) == flatten(chunks.take(k)),
    decreases chunks.len(),
{
    if k == chunks.len() {
        assert(chunks.take(k) =~= chunks);
    } else {
        let dl = chunks.drop_last();
        lemma_flatten_prefix(dl, k);
        assert(dl.take(k) =~= chunks.take(k));
        let f = flatten(chunks.take(k));
        assert(flatten(chunks).take(f.len() as int) =~= flatten(dl).take(f.len() as int));
    }
}

/// The window a stream step sees is the flattened stream between `base`
/// and the end of chunk `i`.
proof fn lemma_stream_window(chunks: Seq<Seq<u16>>, i: int, carry: Seq<u16>, base: int)
    requires
        0 <= i < chunks.len(),
        0 <= base <= flatten(chunks.take(i)).len(),
        carry == flatten(chunks).subrange(base, flatten(chunks.take(i)).len() as int),
    ensures
        flatten(chunks.take(i)).len() <= flatten(chunks.take(i + 1)).len() <= flatten(chunks).len(),
        carry + chunks[i] == flatten(chunks).subrange(base, flatten(chunks.take(i + 1)).len() as int),
{
    let m = flatten(chunks);
    lemma_flatten_succ(chunks, i);
    lemma_flatten_prefix(chunks, i);
    lemma_flatten_prefix(chunks, i + 1);
    let p0 = flatten(chunks.take(i)).len() as int;
    let p1 = flatten(chunks.take(i + 1)).len() as int;
    assert(m.subrange(base, p1) =~= m.subrange(base, p0) + chunks[i]) by {
        assert(m.take(p1) == flatten(chunks.take(i)) + chunks[i]);
        assert(m.take(p0) == flatten(chunks.take(i)));
        assert forall|t: int| 0 <= t < p1 - base implies #[trigger] m.subrange(base, p1)[t] == (
        m.subrange(base, p0) + chunks[i])[t] by {
            assert(m.subrange(base, p1)[t] == m.take(p1)[base + t]);
            if base + t < p0 {
                assert(m.take(p0)[base + t] == m[base + t]);
            }
        }
    }
}

/// A stream too short for any window yields nothing.
proof fn lemma_stream_short(
    chunks: Seq<Seq<u16>>,
    i: int,
    carry: Seq<u16>,
    base: int,
    sj: int,
    known: Set<u32>,
)
    requires
        0 <= i <= chunks.len(),
        flatten(chunks).len() < 289,
        0 <= base <= flatten(chunks.take(i)).len(),
        carry == flatten(chunks).subrange(base, flatten(chunks.take(i)).len() as int),
    ensures
        spec_stream(chunks, i, (carry, base, sj, known)) == Seq::<(int, Seq<u8>, int)>::empty(),
    decreases chunks.len() - i,
{
    if i < chunks.len() {
        lemma_stream_window(chunks, i, carry, base);
        lemma_stream_short(chunks, i + 1, carry + chunks[i], base, sj, known);
    }
}

/// From chunk `i` on, the stream yields the rest of the one-shot scan.
proof fn lemma_stream_tail(
    chunks: Seq<Seq<u16>>,
    i: int,
    carry: Seq<u16>,
    base: int,
    sj: int,
    known: Set<u32>,
)
    requires
        0 <= i < chunks.len(),
        flatten(chunks).len() >= 289,
        0 <= base <= flatten(chunks.take(i)).len(),
        carry == flatten(chunks).subrange(base, flatten(chunks.take(i)).len() as int),
        sj >= 0,
    ensures
        spec_stream(chunks, i, (carry, base, sj, known)) == spec_scan(
            flatten(chunks),
            base + sj,
            flatten(chunks).len() - 289,
            known,
        ).0,
    decreases chunks.len() - i,
{
    let m = flatten(chunks);
    let len = m.len() as int;
    let n = chunks.len() as int;
    lemma_stream_window(chunks, i, carry, base);
    let p1 = flatten(chunks.take(i + 1)).len() as int;
    let mag = carry + chunks[i];
    let more = i + 1 < n;
    if !more {
        assert(chunks.take(i + 1) =~= chunks);
    }
    let st = (carry, base, sj, known);
    let (frames, next) = chunk_step(st, chunks[i], more);
    assert(spec_stream(chunks, i, st) == frames + spec_stream(chunks, i + 1, next));
    if more {
        if mag.len() < 290 {
            assert(frames == Seq::<(int, Seq<u8>, int)>::empty());
            lemma_stream_tail(chunks, i + 1, mag, base, sj, known);
            assert(frames + spec_stream(chunks, i + 1, next) =~= spec_stream(chunks, i + 1, next));
        } else {
            let e = mag.len() - 290;
            lemma_window_scan(m, base, p1, sj, e, known);
            let sc = spec_scan(mag, sj, e, known);
            lemma_scan_end(mag, sj, e, known);
            assert(mag.subrange(e, mag.len() as int) =~= m.subrange(base + e, p1));
            lemma_stream_tail(chunks, i + 1, mag.subrange(e, mag.len() as int), base + e, sc.1 - e, sc.2);
            lemma_scan_split(m, base + sj, base + e, len - 289, known);
        }
    } else {
        assert(p1 == len);
        assert(spec_stream(chunks, i + 1, next) == Seq::<(int, Seq<u8>, int)>::empty());
        assert(frames + spec_stream(chunks, i + 1, next) =~= frames);
        if mag.len() >= 289 {
            lemma_window_scan(m, base, p1, sj, mag.len() - 289, known);
        }
    }
}

/// Stream parity: feeding magnitude chunks one after another finds exactly
/// the frames, at the same global sample indices and in the same order, that
/// one scan over all the samples finds, whatever the chunk sizes.
pub proof fn lemma_stream_matches_oneshot(chunks: Seq<Seq<u16>>)
    ensures
        spec_stream(chunks, 0, stream_start()) == spec_demodulate(flatten(chunks)),
{
    let m = flatten(chunks);
    assert(chunks.take(0) =~= Seq::<Seq<u16>>::empty());
    assert(m.subrange(0, 0) =~= Seq::<u16>::empty());
    if m.len() < 289 {
        lemma_stream_short(chunks, 0, Seq::empty(), 0, 0, Set::empty());
    } else {
        if chunks.len() == 0 {
            assert(m.len() == 0);
        }
        lemma_stream_tail(chunks, 0, Seq::empty(), 0, 0, Set::empty());
    }
}


/// Magnitudes of a whole-sample byte range are the matching range of the
/// magnitudes of the whole buffer.
proof fn lemma_magnitude_range(bytes: Seq<u8>, a: int, b: int)
    requires
        0 <= a <= b <= bytes.len() / 4,
    ensures
        spec_magnitude(sc16_samples(bytes.subrange(4 * a, 4 * b))) == spec_magnitude(
            sc16_samples(bytes),
        ).subrange(a, b),
{
    let sub = bytes.subrange(4 * a, 4 * b);
    let whole = spec_magnitude(sc16_samples(bytes));
    let part = spec_magnitude(sc16_samples(sub));
    assert(part.len() == b - a);
    assert forall|c: int| 0 <= c < b - a implies #[trigger] part[c] == whole[a + c] by {
        assert(sub[4 * c] == bytes[4 * (a + c)]);
        assert(sub[4 * c + 1] == bytes[4 * (a + c) + 1]);
        assert(sub[4 * c + 2] == bytes[4 * (a + c) + 2]);
        assert(sub[4 * c + 3] == bytes[4 * (a + c) + 3]);
        assert(sc16_samples(sub)[2 * c] == sc16_samples(bytes)[2 * (a + c)]);
        assert(sc16_samples(sub)[2 * c + 1] == sc16_samples(bytes)[2 * (a + c) + 1]);
    }
    assert(part =~= whole.subrange(a, b));
}

proof fn lemma_mag_chunks_flatten(bytes: Seq<u8>, chunk: int, k: int)
    requires
        chunk > 0,
        0 <= k <= mag_chunks(bytes, chunk).len(),
    ensures
        flatten(mag_chunks(bytes, chunk).take(k)) == spec_magnitude(sc16_samples(bytes)).take(
            if k * chunk < bytes.len() / 4 { k * chunk } else { (bytes.len() / 4) as int },
        ),
    decreases k,
{
    let total = bytes.len() / 4;
    let cs = mag_chunks(bytes, chunk);
    let whole = spec_magnitude(sc16_samples(bytes));
    if k == 0 {
        assert(cs.take(0) =~= Seq::<Seq<u16>>::empty());
        assert(whole.take(0) =~= Seq::<u16>::empty());
        assert(k * chunk == 0) by (nonlinear_arith)
            requires k == 0;
        assert(flatten(cs.take(k)) == whole.take(0));
    } else {
        lemma_mag_chunks_flatten(bytes, chunk, k - 1);
        lemma_flatten_succ(cs, k - 1);
        assert((k - 1) * chunk < total) by (nonlinear_arith)
            requires k - 1 < (total + chunk - 1) / chunk, chunk > 0, k >= 1;
        assert(k * chunk == (k - 1) * chunk + chunk) by (nonlinear_arith);
        let a = (k - 1) * chunk;
        let b = if k * chunk < total { k * chunk } else { total as int };
        lemma_magnitude_range(bytes, a, b);
        assert(((k - 1) + 1) * chunk == k * chunk);
        assert(cs[k - 1] == spec_magnitude(sc16_samples(bytes.subrange(4 * a, 4 * b))));
        assert(flatten(cs.take(k)) == flatten(cs.take(k - 1)) + cs[k - 1]);
        assert(flatten(cs.take(k - 1)) == whole.take(a));
        assert(whole.take(b) =~= whole.take(a) + whole.subrange(a, b));
        assert(flatten(cs.take(k)) == whole.take(b));
    }
}

/// Pipeline parity: the chunked SC16 pipeline finds exactly the frames of
/// one scan over the magnitudes of the whole buffer.
pub proof fn lemma_sc16_pipeline_matches_oneshot(bytes: Seq<u8>)
    ensures
        spec_sc16_pipeline(bytes) == spec_demodulate(spec_magnitude(sc16_samples(bytes))),
{
    let cs = mag_chunks(bytes, 1048576);
    let total = bytes.len() / 4;
    let whole = spec_magnitude(sc16_samples(bytes));
    if total >= 289 {
        lemma_mag_chunks_flatten(bytes, 1048576, cs.len() as int);
        assert(cs.len() * 1048576 >= total) by (nonlinear_arith)
            requires cs.len() == (total + 1048576 - 1) / 1048576;
        assert(cs.take(cs.len() as int) =~= cs);
        assert(whole.take(total as int) =~= whole);
        lemma_stream_matches_oneshot(cs);
    }
}


/// Learning across chunks: a fresh demodulator fed magnitude chunks emits a
/// surveillance reply only when its residual is an address learned from a
/// frame emitted before it, however the samples are cut into chunks.
pub proof fn lemma_stream_learns(chunks: Seq<Seq<u16>>)
    ensures
        admitted_after_learning(spec_stream(chunks, 0, stream_start()), Set::empty()),
{
    lemma_stream_matches_oneshot(chunks);
    let m = flatten(chunks);
    if m.len() >= 289 {
        lemma_scan_learns(m, 0, m.len() - 289, Set::empty());
    }
}

} // verus!
