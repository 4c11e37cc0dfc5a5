use adsb_decoder::adsb::{
    decode_ac12_altitude, decode_callsign, decode_fields, decode_surface_movement,
    decode_velocity, parse_cpr_airborne_layout, read_bits, surface_movement_to_eighths, MeFields,
    VelocityFields,
};

fn hex_msg(s: &str) -> [u8; 14] {
    let mut out = [0u8; 14];
    for i in 0..14 {
        out[i] = u8::from_str_radix(&s[i * 2..i * 2 + 2], 16).unwrap();
    }
    out
}

#[test]
fn ac12_altitude_25ft() {
    // alt = n*25-1000 = 36000 → n=1480; Q-bit packing into ME bytes 5-6.
    let n: u16 = 1480;
    let alt_code = ((n & 0x07F0) << 1) | 0x10 | (n & 0x0F);
    let mut msg = [0u8; 14];
    msg[5] = (alt_code >> 4) as u8;
    msg[6] = ((alt_code & 0x0F) << 4) as u8;
    assert_eq!(decode_ac12_altitude(&msg), Some(36_000));
}

#[test]
fn ac12_altitude_gillham_and_zero_skipped() {
    let msg = [0u8; 14];
    assert_eq!(decode_ac12_altitude(&msg), None);
    let mut g = [0u8; 14];
    g[5] = 0x12; // Q bit clear
    g[6] = 0x30;
    assert_eq!(decode_ac12_altitude(&g), None);
}

#[test]
fn df17_callsign() {
    let msg = hex_msg("8d4ca92b234994b5cd3360d23b80");
    assert_eq!(decode_callsign(&msg).as_deref(), Some("RYR53SM"));
    let f = decode_fields(&msg, 112).unwrap();
    assert_eq!(f.df, 17);
    assert_eq!(f.tc, Some(4));
    assert_eq!(f.icao, 0x4ca92b);
    match f.me {
        Some(MeFields::Identification { callsign }) => assert_eq!(callsign.as_deref(), Some("RYR53SM")),
        _ => panic!("identification expected"),
    }
    // all-padding identification gives no callsign
    let mut blank = msg;
    for b in &mut blank[5..11] {
        *b = 0;
    }
    assert_eq!(decode_callsign(&blank), None);
    assert_eq!(decode_callsign(&msg[..10]), None);
}

#[test]
fn df17_velocity_groundspeed() {
    // Captured DF17: *8d4ca92d99154f1700bcb3b027d7 → ~381 kt, track ~299°
    let msg = hex_msg("8d4ca92d99154f1700bcb3b027d7");
    let f = decode_fields(&msg, 112).unwrap();
    assert_eq!(f.tc, Some(19));
    match decode_velocity(&msg) {
        VelocityFields::Ground { east, north } => {
            let (e, n) = (east as f64, north as f64);
            let gs = (e * e + n * n).sqrt();
            let mut track = e.atan2(n).to_degrees();
            if track < 0.0 {
                track += 360.0;
            }
            assert!(gs > 380.0 && gs < 382.0, "{gs}");
            assert!(track > 298.0 && track < 300.0, "{track}");
        }
        _ => panic!("ground speed expected"),
    }
}

#[test]
fn airspeed_subtype() {
    let mut msg = [0u8; 14];
    msg[4] = (19 << 3) | 3; // TC 19, subtype 3
    msg[5] = 0x04 | 0x01; // heading status, heading high bits 01
    msg[6] = 0x00; // heading 0x100
    msg[7] = 0x01; // airspeed high bits
    msg[8] = 0x40; // airspeed 0b0000001_010 = 10 → 9 kt
    match decode_velocity(&msg) {
        VelocityFields::Air { speed, heading_raw } => {
            assert_eq!(speed, 9);
            assert_eq!(heading_raw, Some(0x100));
        }
        _ => panic!("airspeed expected"),
    }
    msg[7] = 0;
    msg[8] = 0;
    assert!(matches!(decode_velocity(&msg), VelocityFields::Unavailable));
}

#[test]
fn airborne_position_fields() {
    let even = hex_msg("8d40621d58c382d690c8ac2863a7");
    let odd = hex_msg("8d40621d58c386435cc412692ad6");
    assert_eq!(parse_cpr_airborne_layout(&even), (false, 93_000, 51_372));
    assert_eq!(parse_cpr_airborne_layout(&odd), (true, 74_158, 50_194));
    match decode_fields(&even, 112).unwrap().me {
        Some(MeFields::AirbornePosition { altitude, odd, lat_cpr, lon_cpr }) => {
            assert_eq!(altitude, Some(38_000));
            assert!(!odd);
            assert_eq!((lat_cpr, lon_cpr), (93_000, 51_372));
        }
        _ => panic!("airborne position expected"),
    }
}

#[test]
fn surface_movement_quantisation() {
    assert_eq!(surface_movement_to_eighths(0), None);
    assert_eq!(surface_movement_to_eighths(1), Some(0));
    assert_eq!(surface_movement_to_eighths(2), Some(1));
    assert_eq!(surface_movement_to_eighths(9), Some(8));
    assert_eq!(surface_movement_to_eighths(13), Some(16));
    assert_eq!(surface_movement_to_eighths(39), Some(120));
    assert_eq!(surface_movement_to_eighths(94), Some(560));
    assert_eq!(surface_movement_to_eighths(109), Some(800));
    assert_eq!(surface_movement_to_eighths(123), Some(1360));
    assert_eq!(surface_movement_to_eighths(124), Some(1400));
    assert_eq!(surface_movement_to_eighths(125), None);
    let mut msg = [0u8; 14];
    msg[4] = (6 << 3) | 0x02; // TC 6, movement high bits 010
    msg[5] = 0x78 | 0x07; // movement low 0111 → 0b0100111 = 39, track valid, track hi 111
    msg[6] = 0xF0; // track low 1111 → 127
    assert_eq!(decode_surface_movement(&msg), (Some(120), Some(127)));
}

#[test]
fn non_adsb_and_truncated_frames() {
    let df4 = [0x20u8, 0x00, 0x10, 0x00, 0x12, 0x34, 0x56];
    let f = decode_fields(&df4, 56).unwrap();
    assert_eq!(f.df, 4);
    assert!(f.tc.is_none() && f.me.is_none());
    let msg = hex_msg("8d4ca92b234994b5cd3360d23b80");
    assert!(decode_fields(&msg, 56).is_none());
    assert!(decode_fields(&msg[..7], 56).is_none());
}

#[test]
fn bit_reader() {
    let msg = [0b1010_0000u8, 0xFF, 0x01];
    assert_eq!(read_bits(&msg, 0, 3), 0b101);
    assert_eq!(read_bits(&msg, 4, 8), 0x0F);
    assert_eq!(read_bits(&msg, 16, 8), 1);
    assert_eq!(read_bits(&msg, 0, 0), 0);
}
