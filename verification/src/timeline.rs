//! Emitted frames come out in time order.
//!
//! A frame's position is the sample index of its preamble, the timestamp
//! that trajectories are built from. Every way of running the demodulator
//! (one shot, in windows, or fed chunk by chunk) emits frames at strictly
//! increasing positions.
use vstd::prelude::*;
use crate::demod::{
    best_at, frames_at, lemma_best_nbits, spec_chunked, spec_demodulate, spec_learn, spec_scan,
    window_end,
};
use crate::pipeline::{chunk_step, spec_sc16_pipeline, spec_stream, stream_start, mag_chunks, StreamState};

verus! {

/// Frame positions strictly increase along `s`.
pub open spec fn in_time_order(s: Seq<(int, Seq<u8>, int)>) -> bool {
    forall|a: int, b: int| 0 <= a < b < s.len() ==> #[trigger] s[a].0 < #[trigger] s[b].0
}

/// Every frame position in `s` is at least `lo`.
pub open spec fn positions_from(s: Seq<(int, Seq<u8>, int)>, lo: int) -> bool {
    forall|i: int| 0 <= i < s.len() ==> lo <= #[trigger] s[i].0
}

/// Every frame position in `s` lies in `lo..hi`.
pub open spec fn positions_within(s: Seq<(int, Seq<u8>, int)>, lo: int, hi: int) -> bool {
    forall|i: int| 0 <= i < s.len() ==> lo <= #[trigger] s[i].0 < hi
}

proof fn lemma_frames_at(s: Seq<(int, Seq<u8>, int)>, base: int, lo: int, hi: int)
    requires
        in_time_order(s),
        positions_within(s, lo, hi),
    ensures
        in_time_order(frames_at(s, base)),
        positions_within(frames_at(s, base), lo + base, hi + base),
{
    let t = frames_at(s, base);
    assert forall|a: int, b: int| 0 <= a < b < t.len() implies #[trigger] t[a].0 < #[trigger] t[b].0 by {
        assert(s[a].0 < s[b].0);
    }
    assert forall|i: int| 0 <= i < t.len() implies lo + base <= #[trigger] t[i].0 < hi + base by {
        assert(lo <= s[i].0 < hi);
    }
}

/// Two runs in time order, the second starting where the first ended, are
/// in time order together.
proof fn lemma_concat(
    s: Seq<(int, Seq<u8>, int)>,
    t: Seq<(int, Seq<u8>, int)>,
    lo: int,
    mid: int,
    hi: int,
)
    requires
        lo <= mid <= hi,
        in_time_order(s),
        in_time_order(t),
        positions_within(s, lo, mid),
        positions_within(t, mid, hi),
    ensures
        in_time_order(s + t),
        positions_within(s + t, lo, hi),
{
    lemma_concat_from(s, t, lo, mid);
    let u = s + t;
    assert forall|i: int| 0 <= i < u.len() implies lo <= #[trigger] u[i].0 < hi by {
        if i < s.len() {
            assert(lo <= s[i].0 < mid);
        } else {
            assert(mid <= t[i - s.len()].0 < hi);
        }
    }
}

/// As [`lemma_concat`], with no bound on the second run from above.
proof fn lemma_concat_from(s: Seq<(int, Seq<u8>, int)>, t: Seq<(int, Seq<u8>, int)>, lo: int, mid: int)
    requires
        lo <= mid,
        in_time_order(s),
        in_time_order(t),
        positions_within(s, lo, mid),
        positions_from(t, mid),
    ensures
        in_time_order(s + t),
        positions_from(s + t, lo),
{
    let u = s + t;
    assert forall|a: int, b: int| 0 <= a < b < u.len() implies #[trigger] u[a].0 < #[trigger] u[b].0 by {
        if b < s.len() {
            assert(s[a].0 < s[b].0);
        } else if a >= s.len() {
            assert(t[a - s.len()].0 < t[b - s.len()].0);
        } else {
            assert(s[a].0 < mid);
            assert(mid <= t[b - s.len()].0);
        }
    }
    assert forall|i: int| 0 <= i < u.len() implies lo <= #[trigger] u[i].0 by {
        if i < s.len() {
            assert(lo <= s[i].0);
        } else {
            assert(mid <= t[i - s.len()].0);
        }
    }
}

/// A scan from `j` emits frames in time order, at positions from `j` up to
/// (not including) the cursor it stops at.
pub proof fn lemma_scan_in_time_order(m: Seq<u16>, j: int, end: int, known: Set<u32>)
    ensures
        in_time_order(spec_scan(m, j, end, known).0),
        positions_within(spec_scan(m, j, end, known).0, j, spec_scan(m, j, end, known).1),
        j <= spec_scan(m, j, end, known).1,
    decreases (if j < end { end - j } else { 0 }),
{
    let sc = spec_scan(m, j, end, known);
    if j < end {
        lemma_best_nbits(m, j, known);
        match best_at(m, j, known) {
            Some((msg, nbits, _)) => {
                let k2 = spec_learn(msg, nbits, known);
                let next = j + nbits * 2;
                lemma_scan_in_time_order(m, next, end, k2);
                let rest = spec_scan(m, next, end, k2);
                let head = seq![(j, msg, nbits)];
                assert(in_time_order(head));
                assert(positions_within(head, j, next));
                lemma_concat(head, rest.0, j, next, rest.1);
                assert(sc.0 == head + rest.0);
            },
            None => {
                lemma_scan_in_time_order(m, j + 1, end, known);
                assert(sc == spec_scan(m, j + 1, end, known));
            },
        }
    } else {
        assert(sc.0.len() == 0);
    }
}

/// One-shot demodulation emits frames in time order.
pub proof fn lemma_demodulate_in_time_order(m: Seq<u16>)
    ensures
        in_time_order(spec_demodulate(m)),
{
    if m.len() >= 289 {
        lemma_scan_in_time_order(m, 0, m.len() - 289, Set::empty());
    }
}

proof fn lemma_chunked_from(m: Seq<u16>, chunk: int, pos: int, start_j: int, known: Set<u32>)
    ensures
        in_time_order(spec_chunked(m, chunk, pos, start_j, known)),
        positions_from(spec_chunked(m, chunk, pos, start_j, known), pos + start_j),
    decreases m.len() - pos,
{
    let all = spec_chunked(m, chunk, pos, start_j, known);
    if pos >= m.len() || chunk <= 0 || pos < 0 {
        assert(all.len() == 0);
    } else {
        let end = window_end(m.len() as int, chunk, pos);
        let w = m.subrange(pos, end);
        if end >= m.len() {
            if w.len() < 289 {
                assert(all.len() == 0);
            } else {
                let e = w.len() - 289;
                let sc = spec_scan(w, start_j, e, known);
                lemma_scan_in_time_order(w, start_j, e, known);
                lemma_frames_at(sc.0, pos, start_j, sc.1);
                assert(all == frames_at(sc.0, pos));
            }
        } else {
            let e = w.len() - 290;
            let sc = spec_scan(w, start_j, e, known);
            lemma_scan_in_time_order(w, start_j, e, known);
            lemma_frames_at(sc.0, pos, start_j, sc.1);
            let frames = frames_at(sc.0, pos);
            lemma_chunked_from(m, chunk, pos + e, sc.1 - e, sc.2);
            let rest = spec_chunked(m, chunk, pos + e, sc.1 - e, sc.2);
            lemma_concat_from(frames, rest, pos + start_j, pos + sc.1);
            assert(all == frames + rest);
        }
    }
}

/// Chunked demodulation emits frames in time order.
pub proof fn lemma_chunked_in_time_order(m: Seq<u16>, chunk: int)
    ensures
        in_time_order(spec_chunked(m, chunk, 0, 0, Set::empty())),
{
    lemma_chunked_from(m, chunk, 0, 0, Set::empty());
}

proof fn lemma_stream_from(chunks: Seq<Seq<u16>>, i: int, st: StreamState)
    ensures
        in_time_order(spec_stream(chunks, i, st)),
        positions_from(spec_stream(chunks, i, st), st.1 + st.2),
    decreases chunks.len() - i,
{
    let all = spec_stream(chunks, i, st);
    if i >= chunks.len() || i < 0 {
        assert(all.len() == 0);
    } else {
        let more = i + 1 < chunks.len();
        let (frames, next) = chunk_step(st, chunks[i], more);
        lemma_stream_from(chunks, i + 1, next);
        let rest = spec_stream(chunks, i + 1, next);
        assert(all == frames + rest);
        let (carry, base, sj, known) = st;
        let mag = carry + chunks[i];
        if more {
            if mag.len() < 290 {
                assert(frames.len() == 0);
                assert(frames + rest == rest);
            } else {
                let e = mag.len() - 290;
                let sc = spec_scan(mag, sj, e, known);
                lemma_scan_in_time_order(mag, sj, e, known);
                lemma_frames_at(sc.0, base, sj, sc.1);
                lemma_concat_from(frames, rest, base + sj, base + sc.1);
            }
        } else {
            assert(rest.len() == 0);
            assert(frames + rest == frames);
            if mag.len() >= 289 {
                let sc = spec_scan(mag, sj, mag.len() - 289, known);
                lemma_scan_in_time_order(mag, sj, mag.len() - 289, known);
                lemma_frames_at(sc.0, base, sj, sc.1);
            }
        }
    }
}

/// Feeding magnitude chunks to one demodulator emits frames in time order.
pub proof fn lemma_stream_in_time_order(chunks: Seq<Seq<u16>>)
    ensures
        in_time_order(spec_stream(chunks, 0, stream_start())),
{
    lemma_stream_from(chunks, 0, stream_start());
}

/// The chunked SC16 pipeline emits frames in time order.
pub proof fn lemma_sc16_pipeline_in_time_order(bytes: Seq<u8>)
    ensures
        in_time_order(spec_sc16_pipeline(bytes)),
{
    if bytes.len() / 4 >= 289 {
        lemma_stream_in_time_order(mag_chunks(bytes, 1048576));
    }
}

} // verus!
