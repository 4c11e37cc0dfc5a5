use adsb_decoder::demod::demodulate;
use adsb_decoder::iq::magnitude_from_le_bytes;
use adsb_decoder::pipeline::{
    consume_mag_stream, demodulate_sc16_bytes, demodulate_sc16_bytes_serial, MagStream,
};

fn synth_sc16(n_samples: usize) -> Vec<u8> {
    let mut bytes = Vec::with_capacity(n_samples * 4);
    for i in 0..n_samples {
        let i_s = ((i * 13) % 2000) as i16;
        let q_s = ((i * 29) % 2000) as i16 - 1000;
        bytes.extend_from_slice(&i_s.to_le_bytes());
        bytes.extend_from_slice(&q_s.to_le_bytes());
    }
    bytes
}

#[test]
fn serial_and_pipelined_match_oneshot() {
    let bytes = synth_sc16(200_000);
    let mag = magnitude_from_le_bytes(&bytes);
    let oneshot = demodulate(&mag);
    let serial = demodulate_sc16_bytes_serial(&bytes);
    let pipelined = demodulate_sc16_bytes(&bytes);
    assert_eq!(oneshot, serial);
    assert_eq!(oneshot, pipelined);
}

#[test]
fn stream_of_small_chunks_matches_oneshot() {
    let bytes = synth_sc16(30_000);
    let mag = magnitude_from_le_bytes(&bytes);
    let oneshot = demodulate(&mag);
    // uneven chunks, some shorter than the overlap
    let mut chunks = Vec::new();
    let mut pos = 0;
    let sizes = [100usize, 50, 5000, 1, 289, 7000, 3];
    let mut k = 0;
    while pos < mag.len() {
        let n = sizes[k % sizes.len()].min(mag.len() - pos);
        chunks.push(mag[pos..pos + n].to_vec());
        pos += n;
        k += 1;
    }
    assert_eq!(consume_mag_stream(chunks), oneshot);
}

#[test]
fn tiny_inputs_give_nothing() {
    assert!(demodulate_sc16_bytes_serial(&[0u8; 100]).is_empty());
    assert!(demodulate_sc16_bytes(&[]).is_empty());
    assert!(consume_mag_stream(vec![vec![5u16; 100], vec![9u16; 100]]).is_empty());
}

/// Magnitudes of an ideal PPM transmission of `msg` starting at `start`.
fn synth_frame(mag: &mut [u16], start: usize, msg: &[u8], amp: f64) {
    let mut pulses: Vec<(f64, f64)> = vec![(0.0, 0.5), (1.0, 1.5), (3.5, 4.0), (4.5, 5.0)];
    for (i, byte) in msg.iter().enumerate() {
        for b in 0..8 {
            let t = 8.0 + (i * 8 + b) as f64;
            if (byte >> (7 - b)) & 1 == 1 {
                pulses.push((t, t + 0.5));
            } else {
                pulses.push((t + 0.5, t + 1.0));
            }
        }
    }
    for k in 0..(mag.len() - start).min(300) {
        let (s0, s1) = (k as f64 / 2.4, (k + 1) as f64 / 2.4);
        let mut on = 0.0;
        for &(a, b) in &pulses {
            let lo = a.max(s0);
            let hi = b.min(s1);
            if hi > lo {
                on += hi - lo;
            }
        }
        let v = (amp * on / (s1 - s0)).round() as u16;
        if v > 0 {
            mag[start + k] = v;
        }
    }
}

#[test]
fn incremental_stream_matches_batch_and_oneshot() {
    let msg: Vec<u8> = vec![
        0x8d, 0x4c, 0xa9, 0x2d, 0x99, 0x15, 0x4f, 0x17, 0x00, 0xbc, 0xb3, 0xb0, 0x27, 0xd7,
    ];
    let mut mag = vec![0u16; 12_000];
    for start in [700usize, 3900, 8100] {
        synth_frame(&mut mag, start, &msg, 2000.0);
    }
    let oneshot = demodulate(&mag);
    assert_eq!(oneshot.len(), 3);
    // chunk cuts fall inside the second and third frames
    let cuts = [0usize, 2000, 4000, 4100, 8200, 12_000];
    let chunks: Vec<Vec<u16>> = cuts.windows(2).map(|w| mag[w[0]..w[1]].to_vec()).collect();
    let mut stream = MagStream::new();
    for c in chunks.clone() {
        stream.push(c);
    }
    let incremental = stream.finish();
    assert_eq!(incremental, consume_mag_stream(chunks));
    assert_eq!(incremental, oneshot);
    // no chunk at all: no frames
    assert!(MagStream::new().finish().is_empty());
}
