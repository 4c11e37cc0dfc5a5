use adsb_decoder::mode_s::{
    accept_message, crc24, df, residual, should_emit, df11_for_each_1bit_repair, df11_syndrome_iid_ok, extract_icao,
    icao_from_aa, icao_hex, message_crc_ok,
};

#[test]
fn df17_known_crc_zero() {
    let msg = [
        0x8c, 0x48, 0x41, 0x75, 0x3a, 0x9a, 0x15, 0x32, 0x37, 0xae, 0xf0, 0xf2, 0x75, 0xbe,
    ];
    assert_eq!(df(&msg), 17);
    assert_eq!(crc24(&msg, 112), 0);
    assert_eq!(icao_from_aa(&msg), 0x484175);
    assert!(message_crc_ok(&msg, 112));
}

fn hex_msg(s: &str) -> Vec<u8> {
    (0..s.len() / 2)
        .map(|i| u8::from_str_radix(&s[i * 2..i * 2 + 2], 16).unwrap())
        .collect()
}

#[test]
fn crc_detects_a_flipped_bit() {
    let mut msg = hex_msg("8d4ca92d99154f1700bcb3b027d7");
    assert_eq!(crc24(&msg, 112), 0);
    msg[6] ^= 0x10;
    assert_ne!(crc24(&msg, 112), 0);
    assert!(!message_crc_ok(&msg, 112));
    assert!(!accept_message(&msg, 112));
}

/// Appending the residual of the data bytes as parity yields a valid frame.
#[test]
fn parity_appended_validates() {
    let data = hex_msg("8d40621d58c382d690c8ac");
    let mut padded = data.clone();
    padded.extend_from_slice(&[0, 0, 0]);
    // residual over the data alone (parity bytes zero) is the data's CRC register
    let p = crc24(&data, 88);
    let mut frame = data.clone();
    frame.extend_from_slice(&[(p >> 16) as u8, (p >> 8) as u8, p as u8]);
    assert_eq!(crc24(&frame, 112), 0);
    assert_eq!(frame, hex_msg("8d40621d58c382d690c8ac2863a7"));
}

#[test]
fn icao_hex_is_six_lowercase_digits() {
    assert_eq!(icao_hex(0x40621d), "40621d");
    assert_eq!(icao_hex(0x00001f), "00001f");
    assert_eq!(icao_hex(0x1abc123), "abc123");
    assert_eq!(icao_hex(0xFFFF_FFFF), "ffffff");
}

#[test]
fn iid_residual_check() {
    assert!(df11_syndrome_iid_ok(0));
    assert!(df11_syndrome_iid_ok(0x7F));
    assert!(!df11_syndrome_iid_ok(0x80));
    assert!(df11_syndrome_iid_ok(0xFF00_0000));
}

/// A DF11 reply whose parity carries interrogator ID `iid`.
fn df11_reply(aa: u32, iid: u32) -> Vec<u8> {
    let mut msg = vec![0x5du8, (aa >> 16) as u8, (aa >> 8) as u8, aa as u8, 0, 0, 0];
    let p = crc24(&msg[..4], 32) ^ iid;
    msg[4] = (p >> 16) as u8;
    msg[5] = (p >> 8) as u8;
    msg[6] = p as u8;
    msg
}

#[test]
fn df11_clean_and_repaired_address() {
    let msg = df11_reply(0x4840d6, 0);
    assert_eq!(df(&msg), 11);
    assert!(df11_syndrome_iid_ok(residual(&msg, 56)));
    assert_eq!(extract_icao(&msg, 56), 0x4840d6);
    assert!(message_crc_ok(&msg, 56));

    // flip one address bit: the repair finds the transmitted address
    let mut bad = msg.clone();
    bad[2] ^= 0x04;
    assert!(!df11_syndrome_iid_ok(residual(&bad, 56)));
    assert_eq!(extract_icao(&bad, 56), 0x4840d6);
    let found = df11_for_each_1bit_repair(&bad, |_t: &[u8; 7], a: u32| a == 0x4840d6);
    let (trial, aa) = found.expect("repair");
    assert_eq!(aa, 0x4840d6);
    assert_eq!(&trial[..], &msg[..]);
    // a callback that refuses everything gets nothing back
    assert!(df11_for_each_1bit_repair(&bad, |_t: &[u8; 7], _a: u32| false).is_none());
    // too short: nothing to try
    assert!(df11_for_each_1bit_repair(&bad[..6], |_t: &[u8; 7], _a: u32| true).is_none());
}

#[test]
fn accept_rules_by_df() {
    let good = hex_msg("8d4ca92d99154f1700bcb3b027d7");
    assert!(accept_message(&good, 112));
    let df11 = df11_reply(0x4840d6, 5);
    assert!(accept_message(&df11, 56));
    // DF4 surveillance reply: accepted (address matched upstream)
    let mut df4 = vec![0x20u8, 0, 0, 0, 0, 0, 0];
    assert!(accept_message(&df4, 56));
    assert!(message_crc_ok(&df4, 56));
    assert_eq!(extract_icao(&df4, 56), residual(&df4, 56));
    // DF24 is refused
    df4[0] = 24 << 3;
    assert!(!accept_message(&df4, 56));
    assert!(!message_crc_ok(&df4, 56));
}

#[test]
fn df11_with_interrogator_id_passes() {
    for iid in [0u32, 1, 5, 0x40, 0x7F] {
        let msg = df11_reply(0x4840d6, iid);
        assert_eq!(residual(&msg, 56), iid);
        assert!(message_crc_ok(&msg, 56), "iid {iid}");
        assert_eq!(extract_icao(&msg, 56), 0x4840d6);
    }
    // a residual beyond the interrogator ID is an integrity failure
    let msg = df11_reply(0x4840d6, 0x80);
    assert!(!message_crc_ok(&msg, 56));
}

/// A surveillance reply whose parity field is overlaid with `addr`.
fn surveillance_reply(df: u8, addr: u32, nbytes: usize) -> Vec<u8> {
    let mut msg = vec![0u8; nbytes];
    msg[0] = df << 3;
    msg[1] = 0x12;
    msg[2] = 0x34;
    msg[3] = 0x56;
    let p = crc24(&msg[..nbytes - 3], 8 * (nbytes - 3)) ^ addr;
    msg[nbytes - 3] = (p >> 16) as u8;
    msg[nbytes - 2] = (p >> 8) as u8;
    msg[nbytes - 1] = p as u8;
    msg
}

#[test]
fn surveillance_parity_carries_the_address() {
    for addr in [1u32, 0x4840d6, 0xabcdef, 0xffffff] {
        let df5 = surveillance_reply(5, addr, 7);
        assert_eq!(extract_icao(&df5, 56), addr);
        let df20 = surveillance_reply(20, addr, 14);
        assert_eq!(extract_icao(&df20, 112), addr);
    }
}

#[test]
fn crc24_laws() {
    let mut lone = [0u8; 14];
    lone[13] = 1;
    assert_eq!(crc24(&lone, 112), 0xFF_F409);
    assert_eq!(crc24(&[0u8; 14], 112), 0);
    let a = hex_msg("8d4ca92d99154f1700bcb3b027d7");
    let b = hex_msg("8c4841753a9a153237aef0f275be");
    let x: Vec<u8> = a.iter().zip(b.iter()).map(|(p, q)| p ^ q).collect();
    assert_eq!(crc24(&x, 112), crc24(&a, 112) ^ crc24(&b, 112));
    assert_eq!(crc24(&x, 80), crc24(&a, 80) ^ crc24(&b, 80));
    // only the first nbits / 8 bytes count
    assert_eq!(crc24(&a[..10], 80), crc24(&a, 80));
}

#[test]
fn emission_filter() {
    let good = hex_msg("8d4ca92d99154f1700bcb3b027d7");
    assert!(should_emit(&good, 112, false));
    let df11 = df11_reply(0x4840d6, 3);
    assert!(!should_emit(&df11, 56, false));
    assert!(should_emit(&df11, 56, true));
    let mut bad = good.clone();
    bad[5] ^= 1;
    assert!(!should_emit(&bad, 112, true));
}
