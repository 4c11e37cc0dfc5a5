use adsb_decoder::iq::{magnitude, magnitude_from_le_bytes, samples_from_le_bytes};

#[test]
fn magnitude_matches_integer_isqrt_on_typical_samples() {
    let iq = [
        0i16, 0, 3, 4, -3, 4, 1000, -1000, 32767, 0, 0, -32768, 20000, 20000,
    ];
    let got = magnitude(&iq);
    let expect: Vec<u16> = iq
        .chunks_exact(2)
        .map(|c| {
            let i = c[0] as i32;
            let q = c[1] as i32;
            ((i * i + q * q) as u32).isqrt().min(u16::MAX as u32) as u16
        })
        .collect();
    // f32 may differ by ±1 on large sums; allow that, require exact on small.
    assert_eq!(&got[..3], &expect[..3]);
    for (g, e) in got.iter().zip(expect.iter()) {
        assert!((*g as i32 - *e as i32).abs() <= 1, "{g} vs {e}");
    }
}

#[test]
fn magnitude_from_bytes_matches_iq_slice() {
    let iq = [10i16, -20, 300, 400];
    let mut bytes = Vec::new();
    for v in iq {
        bytes.extend_from_slice(&v.to_le_bytes());
    }
    assert_eq!(magnitude_from_le_bytes(&bytes), magnitude(&iq));
}

fn f32_mag(i: i16, q: i16) -> u16 {
    let (i, q) = (i as f32, q as f32);
    (i * i + q * q).sqrt().min(u16::MAX as f32) as u16
}

/// The integer computation agrees with the single-precision one.
#[test]
fn magnitude_equals_single_precision_path() {
    let mut iq = Vec::new();
    let edges = [-32768i16, -32767, -20000, -4096, -4095, -2897, -1, 0, 1, 3, 2896, 4095, 4096, 20000, 32767];
    for &a in &edges {
        for &b in &edges {
            iq.push(a);
            iq.push(b);
        }
    }
    let mut x: u32 = 12345;
    for _ in 0..200_000 {
        x = x.wrapping_mul(1_103_515_245).wrapping_add(12345);
        iq.push((x >> 16) as u16 as i16);
        x = x.wrapping_mul(1_103_515_245).wrapping_add(12345);
        iq.push((x >> 16) as u16 as i16);
    }
    let got = magnitude(&iq);
    for (k, c) in iq.chunks_exact(2).enumerate() {
        assert_eq!(got[k], f32_mag(c[0], c[1]), "i={} q={}", c[0], c[1]);
    }
}

/// Below 2^24 the magnitude is the exact integer square root.
#[test]
fn magnitude_exact_for_small_samples() {
    for i in (-2000i32..2000).step_by(37) {
        for q in (-2000i32..2000).step_by(41) {
            let m = magnitude(&[i as i16, q as i16]);
            assert_eq!(m[0] as u32, ((i * i + q * q) as u32).isqrt());
        }
    }
}

#[test]
fn magnitude_rounds_like_single_precision_on_large_sums() {
    // 32767^2 + 0 is not representable in single precision; the f32 path
    // gives 32767 as well
    assert_eq!(magnitude(&[32767, 0]), vec![32767]);
    assert_eq!(magnitude(&[-32768, -32768]), vec![46340]);
    // odd trailing value ignored
    assert_eq!(magnitude(&[3, 4, 7]), vec![5]);
    assert_eq!(magnitude_from_le_bytes(&[3, 0, 4, 0, 9]), vec![5]);
}

/// Over the whole sample range the magnitude stays within one of the integer
/// square root.
#[test]
fn magnitude_within_one_of_isqrt_everywhere() {
    let mut iq = Vec::new();
    for i in (-32768i32..=32767).step_by(131) {
        for q in (-32768i32..=32767).step_by(127) {
            iq.push(i as i16);
            iq.push(q as i16);
        }
    }
    let got = magnitude(&iq);
    for (k, c) in iq.chunks_exact(2).enumerate() {
        let (i, q) = (c[0] as i64, c[1] as i64);
        let e = ((i * i + q * q) as u64).isqrt() as i64;
        assert!((got[k] as i64 - e).abs() <= 1, "i={i} q={q}: {} vs {e}", got[k]);
    }
}

#[test]
fn samples_decode_little_endian_pairs() {
    let iq = [1i16, 2, -3, 4, i16::MIN, i16::MAX, -1, 0];
    let mut bytes = Vec::new();
    for v in iq {
        bytes.extend_from_slice(&v.to_le_bytes());
    }
    assert_eq!(samples_from_le_bytes(&bytes), iq.to_vec());
    bytes.push(0x7f);
    assert_eq!(samples_from_le_bytes(&bytes), iq.to_vec());
    assert_eq!(samples_from_le_bytes(&[0x34, 0x12]), vec![0x1234]);
    assert_eq!(samples_from_le_bytes(&[0x00, 0x80]), vec![i16::MIN]);
}
