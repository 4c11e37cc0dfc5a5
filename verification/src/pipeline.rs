//! Chunked IQ → magnitude → demod pipeline.
//!
//! Magnitude chunks are fed to one demodulator in order; the last
//! [`WINDOW_CARRY`] samples of each processed window are carried into the
//! next so preambles near a chunk edge still decode.
use vstd::prelude::*;
use crate::demod::{
    extend_frames, frames_at, frames_view, process_end, spec_scan, Demodulator, RawFrame,
    DEMOD_OVERLAP, WINDOW_CARRY,
};
use crate::iq::{magnitude_from_le_bytes, sc16_samples, spec_magnitude};

verus! {

/// Complex samples per mag chunk (~0.44 s @ 2.4 Msps, 2 MiB of `u16`).
pub const MAG_CHUNK_SAMPLES: usize = 1048576;

/// Streaming state between chunks: carried samples, global index of the
/// first carried sample, local scan cursor, learned addresses.
pub type StreamState = (Seq<u16>, int, int, Set<u32>);

/// Feeding one magnitude chunk: the carried samples and the chunk form a
/// window. When more chunks follow, a window of at least [`WINDOW_CARRY`]
/// samples is scanned up to its last [`WINDOW_CARRY`] samples, which are
/// carried; a shorter one is carried whole. The last window is scanned as
/// far as a one-shot scan goes ([`DEMOD_OVERLAP`] samples before its end).
pub open spec fn chunk_step(st: StreamState, new_mag: Seq<u16>, more_coming: bool) -> (
    Seq<(int, Seq<u8>, int)>,
    StreamState,
) {
    let (carry, base, start_j, known) = st;
    let mag = carry + new_mag;
    if more_coming {
        if mag.len() < 290 {
            (Seq::empty(), (mag, base, start_j, known))
        } else {
            let e = mag.len() - 290;
            let sc = spec_scan(mag, start_j, e, known);
            (frames_at(sc.0, base), (mag.subrange(e, mag.len() as int), base + e, sc.1 - e, sc.2))
        }
    } else if mag.len() < 289 {
        (Seq::empty(), (mag, base, start_j, known))
    } else {
        let sc = spec_scan(mag, start_j, mag.len() - 289, known);
        (frames_at(sc.0, base), (Seq::empty(), base, 0, sc.2))
    }
}

/// Frames of feeding `chunks[i..]` in order, the last one marked as last.
pub open spec fn spec_stream(chunks: Seq<Seq<u16>>, i: int, st: StreamState) -> Seq<
    (int, Seq<u8>, int),
>
    decreases chunks.len() - i,
{
    if i >= chunks.len() || i < 0 {
        Seq::empty()
    } else {
        let (frames, next) = chunk_step(st, chunks[i], i + 1 < chunks.len());
        frames + spec_stream(chunks, i + 1, next)
    }
}

/// The initial streaming state.
pub open spec fn stream_start() -> StreamState {
    (Seq::empty(), 0, 0, Set::empty())
}

/// Feed one magnitude chunk to the demodulator, carrying the window tail
/// when more chunks follow.
pub fn consume_mag_chunk(
    demod: &mut Demodulator,
    out: &mut Vec<RawFrame>,
    carry: &mut Vec<u16>,
    sample_base: &mut usize,
    start_j: &mut usize,
    new_mag: Vec<u16>,
    more_coming: bool,
)
    requires
        *old(sample_base) + old(carry)@.len() + new_mag@.len() <= usize::MAX,
    ensures
        ({
            let (frames, next) = chunk_step(
                (old(carry)@, *old(sample_base) as int, *old(start_j) as int, old(demod)@),
                new_mag@,
                more_coming,
            );
            &&& frames_view(final(out)@) == frames_view(old(out)@) + frames
            &&& final(carry)@ == next.0
            &&& *final(sample_base) == next.1
            &&& *final(start_j) == next.2
            &&& final(demod)@ == next.3
        }),
{
    let mut mag: Vec<u16> = Vec::new();
    mag.append(carry);
    let mut fresh = new_mag;
    mag.append(&mut fresh);

    let keep = if more_coming { WINDOW_CARRY } else { DEMOD_OVERLAP };
    if mag.len() < keep {
        *carry = mag;
        assert(frames_view(out@) =~= frames_view(old(out)@) + Seq::empty());
        return;
    }

    let search_end = mag.len() - keep;
    let ghost known0 = demod@;
    let (frames, end_j) = demod.process(&mag, *sample_base, *start_j, search_end);
    proof {
        assert(process_end(mag@.len() as int, search_end as int) == search_end);
        crate::demod::lemma_scan_end(mag@, *start_j as int, search_end as int, known0);
    }
    extend_frames(out, frames);

    if more_coming {
        *start_j = end_j - search_end;
        *sample_base += search_end;
        *carry = mag.split_off(search_end);
    } else {
        *start_j = 0;
    }
}

/// Frames and final state of feeding every chunk of `cs` with more to come.
pub open spec fn feed_all(cs: Seq<Seq<u16>>, st: StreamState) -> (
    Seq<(int, Seq<u8>, int)>,
    StreamState,
)
    decreases cs.len(),
{
    if cs.len() == 0 {
        (Seq::empty(), st)
    } else {
        let (f, s1) = feed_all(cs.drop_last(), st);
        let (f2, s2) = chunk_step(s1, cs.last(), true);
        (f + f2, s2)
    }
}

/// Total number of samples in `cs`.
pub open spec fn samples_total(cs: Seq<Seq<u16>>) -> int
    decreases cs.len(),
{
    if cs.len() == 0 {
        0
    } else {
        samples_total(cs.drop_last()) + cs.last().len()
    }
}

/// The state after feeding chunks accounts for every sample fed: the
/// carried samples end where the fed samples end.
proof fn lemma_feed_all_total(cs: Seq<Seq<u16>>)
    ensures
        ({
            let st = feed_all(cs, stream_start()).1;
            st.1 + st.0.len() == samples_total(cs) && st.1 >= 0
        }),
    decreases cs.len(),
{
    if cs.len() > 0 {
        lemma_feed_all_total(cs.drop_last());
    }
}

/// The whole stream is its chunks but the last fed with more to come,
/// followed by the last chunk fed as the last.
proof fn lemma_stream_as_feed(cs: Seq<Seq<u16>>, i: int)
    requires
        0 <= i < cs.len(),
    ensures
        ({
            let (f, st) = feed_all(cs.take(i), stream_start());
            let (fl, _) = feed_all(cs.drop_last(), stream_start());
            let last = chunk_step(feed_all(cs.drop_last(), stream_start()).1, cs.last(), false).0;
            f + spec_stream(cs, i, st) == fl + last
        }),
    decreases cs.len() - i,
{
    let (f, st) = feed_all(cs.take(i), stream_start());
    if i == cs.len() - 1 {
        assert(cs.take(i) =~= cs.drop_last());
        let (frames, next) = chunk_step(st, cs[i], false);
        assert(spec_stream(cs, i, st) == frames + spec_stream(cs, i + 1, next));
        assert(spec_stream(cs, i + 1, next) =~= Seq::empty());
        assert(frames + Seq::<(int, Seq<u8>, int)>::empty() =~= frames);
    } else {
        lemma_stream_as_feed(cs, i + 1);
        assert(cs.take(i + 1).drop_last() =~= cs.take(i));
        assert(cs.take(i + 1).last() == cs[i]);
        let (frames, next) = chunk_step(st, cs[i], true);
        assert(feed_all(cs.take(i + 1), stream_start()) == (f + frames, next));
        assert(spec_stream(cs, i, st) == frames + spec_stream(cs, i + 1, next));
        assert(f + (frames + spec_stream(cs, i + 1, next)) =~= (f + frames) + spec_stream(
            cs,
            i + 1,
            next,
        ));
    }
}

/// Chunks fed one at a time as they arrive: each chunk is held back until
/// the next one comes (or the stream ends), so that the last chunk is
/// processed as the last.
pub struct MagStream {
    demod: Demodulator,
    out: Vec<RawFrame>,
    carry: Vec<u16>,
    sample_base: usize,
    start_j: usize,
    pending: Option<Vec<u16>>,
    pushed: Ghost<Seq<Seq<u16>>>,
}

impl MagStream {
    /// The chunks pushed so far.
    pub closed spec fn chunks(&self) -> Seq<Seq<u16>> {
        self.pushed@
    }

    /// Everything but the held-back chunk has been fed.
    pub closed spec fn wf(&self) -> bool {
        let cs = self.pushed@;
        let (f, st) = feed_all(cs.drop_last(), stream_start());
        &&& samples_total(cs) <= usize::MAX
        &&& if cs.len() == 0 {
            &&& self.pending is None
            &&& self.out@.len() == 0
            &&& self.carry@.len() == 0
            &&& self.sample_base == 0
            &&& self.start_j == 0
            &&& self.demod@ == Set::<u32>::empty()
        } else {
            &&& self.pending matches Some(p) && p@ == cs.last()
            &&& frames_view(self.out@) == f
            &&& st == (self.carry@, self.sample_base as int, self.start_j as int, self.demod@)
        }
    }

    pub fn new() -> (r: Self)
        ensures
            r.wf(),
            r.chunks() == Seq::<Seq<u16>>::empty(),
    {
        MagStream {
            demod: Demodulator::new(),
            out: Vec::new(),
            carry: Vec::new(),
            sample_base: 0,
            start_j: 0,
            pending: None,
            pushed: Ghost(Seq::empty()),
        }
    }

    /// Take the next chunk; the one held back so far is fed with more to come.
    pub fn push(&mut self, chunk: Vec<u16>)
        requires
            old(self).wf(),
            samples_total(old(self).chunks()) + chunk@.len() <= usize::MAX,
        ensures
            final(self).wf(),
            final(self).chunks() == old(self).chunks().push(chunk@),
    {
        let ghost cs = self.pushed@;
        let ghost cs2 = cs.push(chunk@);
        proof {
            assert(cs2.drop_last() =~= cs);
            assert(cs2.last() == chunk@);
        }
        match self.pending.take() {
            Some(prev) => {
                proof {
                    lemma_feed_all_total(cs.drop_last());
                    assert(cs.drop_last().push(cs.last()) =~= cs);
                    assert(samples_total(cs) == samples_total(cs.drop_last()) + prev@.len());
                }
                let ghost before = frames_view(self.out@);
                consume_mag_chunk(
                    &mut self.demod,
                    &mut self.out,
                    &mut self.carry,
                    &mut self.sample_base,
                    &mut self.start_j,
                    prev,
                    true,
                );
                proof {
                    assert(cs.drop_last().len() + 1 == cs.len());
                    assert(feed_all(cs, stream_start()).1 == (
                        self.carry@,
                        self.sample_base as int,
                        self.start_j as int,
                        self.demod@,
                    ));
                }
            },
            None => {
                proof {
                    assert(cs.len() == 0);
                    assert(cs2.drop_last() =~= Seq::<Seq<u16>>::empty());
                    assert(frames_view(self.out@) =~= Seq::empty());
                    assert(self.carry@ =~= Seq::<u16>::empty());
                }
            },
        }
        self.pending = Some(chunk);
        self.pushed = Ghost(cs2);
    }

    /// End of the stream: feed the held-back chunk as the last one and
    /// return every frame found.
    pub fn finish(self) -> (r: Vec<RawFrame>)
        requires
            self.wf(),
        ensures
            frames_view(r@) == spec_stream(self.chunks(), 0, stream_start()),
    {
        let ghost cs = self.pushed@;
        let mut demod = self.demod;
        let mut out = self.out;
        let mut carry = self.carry;
        let mut sample_base = self.sample_base;
        let mut start_j = self.start_j;
        match self.pending {
            Some(last) => {
                proof {
                    lemma_feed_all_total(cs.drop_last());
                    assert(cs.drop_last().push(cs.last()) =~= cs);
                    assert(samples_total(cs) == samples_total(cs.drop_last()) + last@.len());
                }
                consume_mag_chunk(
                    &mut demod,
                    &mut out,
                    &mut carry,
                    &mut sample_base,
                    &mut start_j,
                    last,
                    false,
                );
                proof {
                    lemma_stream_as_feed(cs, 0);
                    assert(cs.take(0) =~= Seq::<Seq<u16>>::empty());
                    assert(Seq::<(int, Seq<u8>, int)>::empty() + spec_stream(cs, 0, stream_start())
                        =~= spec_stream(cs, 0, stream_start()));
                }
                out
            },
            None => {
                assert(frames_view(out@) =~= spec_stream(cs, 0, stream_start()));
                out
            },
        }
    }
}

/// Feed magnitude chunks in order to one demodulator (the last chunk is
/// marked as such).
pub fn consume_mag_stream(chunks: Vec<Vec<u16>>) -> (r: Vec<RawFrame>)
    requires
        chunks_total(chunks@) <= usize::MAX,
    ensures
        frames_view(r@) == spec_stream(chunk_views(chunks@), 0, stream_start()),
{
    let mut demod = Demodulator::new();
    let mut out: Vec<RawFrame> = Vec::new();
    let mut carry: Vec<u16> = Vec::new();
    let mut sample_base: usize = 0;
    let mut start_j: usize = 0;
    let n = chunks.len();
    let ghost all = chunks@;
    let ghost views = chunk_views(all);
    let mut chunks = chunks;
    let mut i: usize = 0;
    assert(all.take(0) =~= Seq::<Vec<u16>>::empty());
    assert(frames_view(out@) + spec_stream(views, 0, stream_start()) =~= spec_stream(
        views,
        0,
        stream_start(),
    ));
    while i < n
        invariant
            n == all.len(),
            views == chunk_views(all),
            i <= n,
            chunks@ == all.skip(i as int),
            chunks_total(all) <= usize::MAX,
            i < n ==> sample_base + carry@.len() == chunks_total(all.take(i as int)),
            frames_view(out@) + spec_stream(
                views,
                i as int,
                (carry@, sample_base as int, start_j as int, demod@),
            ) == spec_stream(views, 0, stream_start()),
        decreases n - i,
    {
        let chunk = chunks.remove(0);
        proof {
            assert(chunk == all[i as int]);
            lemma_chunks_total_take(all, i as int);
            lemma_chunks_total_mono(all, i + 1);
        }
        let more_coming = i + 1 < n;
        let ghost before = frames_view(out@);
        let ghost st = (carry@, sample_base as int, start_j as int, demod@);
        consume_mag_chunk(
            &mut demod,
            &mut out,
            &mut carry,
            &mut sample_base,
            &mut start_j,
            chunk,
            more_coming,
        );
        proof {
            let (frames, next) = chunk_step(st, views[i as int], more_coming);
            assert(spec_stream(views, i as int, st) == frames + spec_stream(views, i + 1, next));
            assert(before + (frames + spec_stream(views, i + 1, next)) =~= (before + frames)
                + spec_stream(views, i + 1, next));
        }
        i = i + 1;
        assert(chunks@ =~= all.skip(i as int));
    }
    assert(frames_view(out@) =~= frames_view(out@) + spec_stream(
        views,
        i as int,
        (carry@, sample_base as int, start_j as int, demod@),
    ));
    out
}

proof fn lemma_chunks_total_take(all: Seq<Vec<u16>>, i: int)
    requires
        0 <= i < all.len(),
    ensures
        chunks_total(all.take(i + 1)) == chunks_total(all.take(i)) + all[i]@.len(),
{
    assert(all.take(i + 1).drop_last() =~= all.take(i));
}

proof fn lemma_chunks_total_mono(all: Seq<Vec<u16>>, k: int)
    requires
        0 <= k <= all.len(),
    ensures
        0 <= chunks_total(all.take(k)) <= chunks_total(all),
    decreases all.len() - k,
{
    if k < all.len() {
        lemma_chunks_total_mono(all, k + 1);
        lemma_chunks_total_take(all, k);
    } else {
        assert(all.take(k) =~= all);
    }
    lemma_chunks_total_nonneg(all.take(k));
}

proof fn lemma_chunks_total_nonneg(all: Seq<Vec<u16>>)
    ensures
        chunks_total(all) >= 0,
    decreases all.len(),
{
    if all.len() > 0 {
        lemma_chunks_total_nonneg(all.drop_last());
    }
}

/// Number of chunks of `chunk` samples (the last one possibly shorter).
pub open spec fn chunk_count(total: int, chunk: int) -> int {
    (total + chunk - 1) / chunk
}

/// Magnitudes of the SC16 byte buffer, cut into chunks of `chunk` samples.
pub open spec fn mag_chunks(bytes: Seq<u8>, chunk: int) -> Seq<Seq<u16>> {
    let total = bytes.len() / 4;
    Seq::new(
        chunk_count(total as int, chunk) as nat,
        |k: int|
            spec_magnitude(
                sc16_samples(
                    bytes.subrange(4 * (k * chunk), 4 * (if (k + 1) * chunk < total { (k + 1) * chunk } else { total as int })),
                ),
            ),
    )
}

/// Frames of the chunked pipeline over an SC16 byte buffer: nothing when it
/// holds fewer than [`DEMOD_OVERLAP`] samples, else the stream of its
/// [`MAG_CHUNK_SAMPLES`]-sample magnitude chunks.
pub open spec fn spec_sc16_pipeline(bytes: Seq<u8>) -> Seq<(int, Seq<u8>, int)> {
    if bytes.len() / 4 < 289 {
        Seq::empty()
    } else {
        spec_stream(mag_chunks(bytes, 1048576), 0, stream_start())
    }
}

/// `bytes[from..to]`.
fn byte_range(bytes: &[u8], from: usize, to: usize) -> (r: &[u8])
    requires
        from <= to <= bytes@.len(),
    ensures
        r@ == bytes@.subrange(from as int, to as int),
{
    vstd::slice::slice_subrange(bytes, from, to)
}

/// Single-threaded chunked path (mag then demod per window).
pub fn demodulate_sc16_bytes_serial(bytes: &[u8]) -> (r: Vec<RawFrame>)
    ensures
        frames_view(r@) == spec_sc16_pipeline(bytes@),
{
    let len = bytes.len();
    let total_samples = len / 4;
    if total_samples < DEMOD_OVERLAP {
        let empty: Vec<RawFrame> = Vec::new();
        assert(frames_view(empty@) =~= Seq::empty());
        return empty;
    }
    let ghost chunks = mag_chunks(bytes@, 1048576);
    let mut demod = Demodulator::new();
    let mut out: Vec<RawFrame> = Vec::new();
    let mut carry: Vec<u16> = Vec::with_capacity(DEMOD_OVERLAP);
    let mut sample_base: usize = 0;
    let mut start_j: usize = 0;
    let mut iq_sample: usize = 0;
    let ghost mut k: int = 0;
    assert(frames_view(out@) + spec_stream(chunks, 0, stream_start()) =~= spec_stream(
        chunks,
        0,
        stream_start(),
    ));
    while iq_sample < total_samples
        invariant
            len == bytes@.len(),
            total_samples == bytes@.len() / 4,
            chunks == mag_chunks(bytes@, 1048576),
            iq_sample <= total_samples,
            iq_sample < total_samples ==> iq_sample == k * 1048576,
            iq_sample < total_samples ==> sample_base + carry@.len() == iq_sample,
            0 <= k <= chunks.len(),
            iq_sample == total_samples ==> k == chunks.len(),
            frames_view(out@) + spec_stream(
                chunks,
                k,
                (carry@, sample_base as int, start_j as int, demod@),
            ) == spec_stream(chunks, 0, stream_start()),
        decreases total_samples - iq_sample,
    {
        let take = if total_samples - iq_sample < MAG_CHUNK_SAMPLES {
            total_samples - iq_sample
        } else {
            MAG_CHUNK_SAMPLES
        };
        let chunk_bytes = byte_range(bytes, iq_sample * 4, (iq_sample + take) * 4);
        let new_mag = magnitude_from_le_bytes(chunk_bytes);
        proof {
            assert(k < chunks.len()) by (nonlinear_arith)
                requires
                    k * 1048576 < total_samples,
                    chunks.len() == (total_samples + 1048576 - 1) / 1048576,
            ;
            assert(new_mag@ == chunks[k]);
        }
        iq_sample += take;
        let more_coming = iq_sample < total_samples;
        proof {
            if more_coming {
                assert(k + 1 < chunks.len()) by (nonlinear_arith)
                    requires
                        (k + 1) * 1048576 < total_samples,
                        chunks.len() == (total_samples + 1048576 - 1) / 1048576,
                ;
            } else {
                assert(k + 1 == chunks.len()) by (nonlinear_arith)
                    requires
                        k * 1048576 < total_samples,
                        total_samples <= (k + 1) * 1048576,
                        chunks.len() == (total_samples + 1048576 - 1) / 1048576,
                ;
            }
        }
        let ghost before = frames_view(out@);
        let ghost st = (carry@, sample_base as int, start_j as int, demod@);
        consume_mag_chunk(
            &mut demod,
            &mut out,
            &mut carry,
            &mut sample_base,
            &mut start_j,
            new_mag,
            more_coming,
        );
        proof {
            let (frames, next) = chunk_step(st, chunks[k], more_coming);
            assert(spec_stream(chunks, k, st) == frames + spec_stream(chunks, k + 1, next));
            assert(before + (frames + spec_stream(chunks, k + 1, next)) =~= (before + frames)
                + spec_stream(chunks, k + 1, next));
            k = k + 1;
        }
    }
    assert(frames_view(out@) =~= frames_view(out@) + spec_stream(
        chunks,
        k,
        (carry@, sample_base as int, start_j as int, demod@),
    ));
    out
}

/// Demodulate an in-memory SC16 byte buffer: convert it chunk by chunk to
/// magnitudes and feed the chunks to one demodulator (same frames as
/// [`demodulate_sc16_bytes_serial`]).
pub fn demodulate_sc16_bytes(bytes: &[u8]) -> (r: Vec<RawFrame>)
    ensures
        frames_view(r@) == spec_sc16_pipeline(bytes@),
{
    let len = bytes.len();
    let total_samples = len / 4;
    if total_samples < DEMOD_OVERLAP {
        let empty: Vec<RawFrame> = Vec::new();
        assert(frames_view(empty@) =~= Seq::empty());
        return empty;
    }
    let ghost chunks = mag_chunks(bytes@, 1048576);
    let mut built: Vec<Vec<u16>> = Vec::new();
    let mut iq_sample: usize = 0;
    let ghost mut k: int = 0;
    while iq_sample < total_samples
        invariant
            len == bytes@.len(),
            total_samples == bytes@.len() / 4,
            chunks == mag_chunks(bytes@, 1048576),
            iq_sample <= total_samples,
            iq_sample < total_samples ==> iq_sample == k * 1048576,
            0 <= k <= chunks.len(),
            iq_sample == total_samples ==> k == chunks.len(),
            built@.len() == k,
            chunk_views(built@) == chunks.take(k),
            chunks_total(built@) == iq_sample,
        decreases total_samples - iq_sample,
    {
        let take = if total_samples - iq_sample < MAG_CHUNK_SAMPLES {
            total_samples - iq_sample
        } else {
            MAG_CHUNK_SAMPLES
        };
        let chunk_bytes = byte_range(bytes, iq_sample * 4, (iq_sample + take) * 4);
        let mag = magnitude_from_le_bytes(chunk_bytes);
        proof {
            assert(k < chunks.len()) by (nonlinear_arith)
                requires
                    k * 1048576 < total_samples,
                    chunks.len() == (total_samples + 1048576 - 1) / 1048576,
            ;
            assert(mag@ == chunks[k]);
        }
        let ghost before = built@;
        built.push(mag);
        iq_sample += take;
        proof {
            if iq_sample < total_samples {
                assert(k + 1 < chunks.len()) by (nonlinear_arith)
                    requires
                        (k + 1) * 1048576 < total_samples,
                        chunks.len() == (total_samples + 1048576 - 1) / 1048576,
                ;
            } else {
                assert(k + 1 == chunks.len()) by (nonlinear_arith)
                    requires
                        k * 1048576 < total_samples,
                        total_samples <= (k + 1) * 1048576,
                        chunks.len() == (total_samples + 1048576 - 1) / 1048576,
                ;
            }
            assert(built@.drop_last() =~= before);
            assert(chunk_views(built@) =~= chunks.take(k + 1));
            k = k + 1;
        }
    }
    assert(chunks.take(k) =~= chunks);
    consume_mag_stream(built)
}

/// The views of the chunks.
pub open spec fn chunk_views(chunks: Seq<Vec<u16>>) -> Seq<Seq<u16>> {
    chunks.map_values(|c: Vec<u16>| c@)
}

/// Total number of samples in the chunks.
pub open spec fn chunks_total(chunks: Seq<Vec<u16>>) -> int
    decreases chunks.len(),
{
    if chunks.len() == 0 {
        0
    } else {
        chunks_total(chunks.drop_last()) + chunks.last()@.len()
    }
}

} // verus!
