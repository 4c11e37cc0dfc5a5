use adsb_decoder::demod::{demodulate, demodulate_chunked, Demodulator, DEMOD_OVERLAP};
use adsb_decoder::mode_s::{accept_message, crc24, df};

#[test]
fn chunked_matches_oneshot_on_emptyish_mag() {
    let mag = vec![0u16; 50_000];
    assert_eq!(demodulate(&mag), demodulate_chunked(&mag, 8_192));
    assert_eq!(demodulate(&mag), demodulate_chunked(&mag, 1_024));
}

#[test]
fn chunked_matches_oneshot_on_noisy_mag() {
    let mut mag = vec![0u16; 80_000];
    for (i, s) in mag.iter_mut().enumerate() {
        *s = ((i * 17 + 91) % 500) as u16;
    }
    let full = demodulate(&mag);
    let chunked = demodulate_chunked(&mag, 4096);
    assert_eq!(full, chunked);
}

fn hex_msg(s: &str) -> Vec<u8> {
    (0..s.len() / 2)
        .map(|i| u8::from_str_radix(&s[i * 2..i * 2 + 2], 16).unwrap())
        .collect()
}

/// Magnitudes of an ideal PPM Mode S transmission at 2.4 Msps: amplitude
/// `amp` while a half-microsecond pulse is on, area-weighted per sample.
fn synth_frame(mag: &mut [u16], start: usize, msg: &[u8], amp: f64) {
    let mut pulses: Vec<(f64, f64)> = vec![(0.0, 0.5), (1.0, 1.5), (3.5, 4.0), (4.5, 5.0)];
    for (i, byte) in msg.iter().enumerate() {
        for b in 0..8 {
            let t = 8.0 + (i * 8 + b) as f64;
            if (byte >> (7 - b)) & 1 == 1 {
                pulses.push((t, t + 0.5));
            } else {
                pulses.push((t + 0.5, t + 1.0));
            }
        }
    }
    for k in 0..(mag.len() - start) {
        let (s0, s1) = (k as f64 / 2.4, (k + 1) as f64 / 2.4);
        let mut on = 0.0;
        for &(a, b) in &pulses {
            let lo = a.max(s0);
            let hi = b.min(s1);
            if hi > lo {
                on += hi - lo;
            }
        }
        let v = (amp * on / (s1 - s0)).round() as u16;
        if v > 0 {
            mag[start + k] = v;
        }
    }
}

#[test]
fn demodulates_a_synthesized_df17_frame() {
    let msg = hex_msg("8d4ca92d99154f1700bcb3b027d7");
    let mut mag = vec![0u16; 4000];
    synth_frame(&mut mag, 1000, &msg, 2000.0);
    let frames = demodulate(&mag);
    assert_eq!(frames.len(), 1, "{:?}", frames);
    let (idx, raw, nbits) = frames[0];
    assert_eq!(nbits, 112);
    assert_eq!(&raw[..], &msg[..]);
    assert!((999..=1001).contains(&idx));
    // every emitted frame passes the acceptance check
    assert!(accept_message(&raw, nbits));
    assert_eq!(df(&raw), 17);
    assert_eq!(crc24(&raw, nbits), 0);
    // and the chunked walk finds it across any window cut
    for chunk in [300usize, 700, 1001, 1500] {
        assert_eq!(demodulate_chunked(&mag, chunk), frames, "chunk {chunk}");
    }
}

#[test]
fn process_carries_learned_addresses_and_offsets() {
    let msg = hex_msg("8d4ca92d99154f1700bcb3b027d7");
    let mut mag = vec![0u16; 3000];
    synth_frame(&mut mag, 500, &msg, 1500.0);
    let mut demod = Demodulator::new();
    let (frames, end_j) = demod.process(&mag, 10_000, 0, mag.len() - DEMOD_OVERLAP);
    assert_eq!(frames.len(), 1);
    assert!(frames[0].0 >= 10_000 + 499 && frames[0].0 <= 10_000 + 501);
    assert!(end_j >= mag.len() - DEMOD_OVERLAP);
    // a start at or past the search end scans nothing
    let (none, j) = demod.process(&mag, 0, 2800, 100);
    assert!(none.is_empty());
    assert_eq!(j, 2800);
}

#[test]
fn short_buffers_yield_nothing() {
    assert!(demodulate(&[0u16; 10]).is_empty());
    assert!(demodulate(&[]).is_empty());
    assert!(demodulate_chunked(&[7u16; 200], 16).is_empty());
}

/// A DF17 frame from `addr` with valid parity.
fn df17_from(addr: u32) -> Vec<u8> {
    let mut msg = vec![
        0x8d,
        (addr >> 16) as u8,
        (addr >> 8) as u8,
        addr as u8,
        0x99,
        0x15,
        0x4f,
        0x17,
        0x00,
        0xbc,
        0xb3,
        0,
        0,
        0,
    ];
    let p = crc24(&msg[..11], 88);
    msg[11] = (p >> 16) as u8;
    msg[12] = (p >> 8) as u8;
    msg[13] = p as u8;
    assert_eq!(crc24(&msg, 112), 0);
    msg
}

/// A DF5 reply whose parity field is overlaid with `addr`.
fn df5_from(addr: u32) -> Vec<u8> {
    let mut msg = vec![5u8 << 3, 0x00, 0x12, 0x34, 0, 0, 0];
    let p = crc24(&msg[..4], 32) ^ addr;
    msg[4] = (p >> 16) as u8;
    msg[5] = (p >> 8) as u8;
    msg[6] = p as u8;
    msg
}

#[test]
fn learned_address_admits_surveillance_reply() {
    let addr = 0x4ca92d;
    let reply = df5_from(addr);
    let adsb = df17_from(addr);

    // alone, the reply's address is unknown and the reply is dropped
    let mut only = vec![0u16; 3000];
    synth_frame(&mut only, 1000, &reply, 2000.0);
    assert!(demodulate(&only).is_empty());

    // once a DF17 frame has taught the address, the reply is kept
    let mut both = vec![0u16; 3000];
    synth_frame(&mut both, 300, &adsb, 2000.0);
    synth_frame(&mut both, 1500, &reply, 2000.0);
    let frames = demodulate(&both);
    assert_eq!(frames.len(), 2, "{:?}", frames);
    assert_eq!(df(&frames[0].1), 17);
    assert_eq!(df(&frames[1].1), 5);
    assert_eq!(&frames[1].1[..7], &reply[..]);

    // and what was learned stays learned across calls
    let mut demod = Demodulator::new();
    let mut first = vec![0u16; 1000];
    synth_frame(&mut first, 100, &adsb, 2000.0);
    let (f1, _) = demod.process(&first, 0, 0, first.len() - DEMOD_OVERLAP);
    assert_eq!(f1.len(), 1);
    let (f2, _) = demod.process(&only, 0, 0, only.len() - DEMOD_OVERLAP);
    assert_eq!(f2.len(), 1);
    assert_eq!(df(&f2[0].1), 5);
}

/// As `synth_frame`, with the transmission starting at a fractional sample.
fn synth_frame_at(mag: &mut [u16], start: f64, msg: &[u8], amp: f64) {
    let mut pulses: Vec<(f64, f64)> = vec![(0.0, 0.5), (1.0, 1.5), (3.5, 4.0), (4.5, 5.0)];
    for (i, byte) in msg.iter().enumerate() {
        for b in 0..8 {
            let t = 8.0 + (i * 8 + b) as f64;
            if (byte >> (7 - b)) & 1 == 1 {
                pulses.push((t, t + 0.5));
            } else {
                pulses.push((t + 0.5, t + 1.0));
            }
        }
    }
    for k in 0..mag.len() {
        let (s0, s1) = ((k as f64 - start) / 2.4, (k as f64 + 1.0 - start) / 2.4);
        let mut on = 0.0;
        for &(a, b) in &pulses {
            let lo = a.max(s0);
            let hi = b.min(s1);
            if hi > lo {
                on += hi - lo;
            }
        }
        let v = (amp * on / (s1 - s0)).round() as u16;
        if v > 0 {
            mag[k] = v;
        }
    }
}

/// A long frame whose preamble sits at the last scanned position of a
/// window, sliced in the latest try phase, is found where the one-shot scan
/// finds it.
#[test]
fn window_edge_frame_stays_put() {
    let msg = hex_msg("8d4ca92d99154f1700bcb3b027d7");
    for tenth in 0..10 {
        let start = 998.0 + tenth as f64 / 5.0;
        let mut mag = vec![0u16; 3000];
        synth_frame_at(&mut mag, start, &msg, 2000.0);
        let oneshot = demodulate(&mag);
        assert_eq!(oneshot.len(), 1, "start {start}");
        for chunk in 995usize..1004 {
            assert_eq!(demodulate_chunked(&mag, chunk), oneshot, "start {start} chunk {chunk}");
        }
    }
    let mut mag = vec![0u16; 3000];
    synth_frame_at(&mut mag, 1000.5, &msg, 2000.0);
    assert_eq!(demodulate(&mag)[0].0, 999);
    assert_eq!(demodulate_chunked(&mag, 1000)[0].0, 999);
}
