use adsb_decoder::frame::{parse_icao_hex, TrackBuffer, TrackObservation, MAX_POINTS_PER_TRACK};
use adsb_decoder::mode_s::icao_hex;

#[derive(Debug, Clone, Copy, PartialEq)]
struct Pt {
    ts: f64,
    lat: Option<f64>,
    lon: Option<f64>,
}

fn frame(
    icao: &str,
    ts: Option<f64>,
    lat: Option<f64>,
    lon: Option<f64>,
    gs: Option<f64>,
) -> TrackObservation<Pt> {
    TrackObservation {
        icao: icao.to_string(),
        has_position: lat.is_some() && lon.is_some(),
        has_velocity: gs.is_some(),
        callsign: None,
        point: ts.map(|ts| Pt { ts, lat, lon }),
    }
}

#[test]
fn track_buffer_skips_id_only_and_missing_ts() {
    let mut buf = TrackBuffer::new();
    let mut id = frame("abc123", Some(1.0), None, None, None);
    id.callsign = Some("TEST123".into());
    buf.observe(id);
    assert!(buf.tracks().is_empty(), "ID-only must not create empty track");

    buf.observe(frame("abc123", None, Some(1.0), Some(2.0), None));
    assert!(buf.tracks().is_empty(), "missing ts must not record");

    buf.observe(frame("abc123", Some(1.5), Some(52.0), Some(4.0), None));
    assert_eq!(buf.tracks().len(), 1);
    assert_eq!(buf.tracks()[&0x00abc123].points.len(), 1);
    assert!((buf.tracks()[&0x00abc123].points[0].ts - 1.5).abs() < 1e-9);
}

#[test]
fn callsign_applied_to_existing_track_only_once() {
    let mut buf = TrackBuffer::new();
    buf.observe(frame("40621d", Some(1.0), None, None, Some(400.0)));
    let mut id = frame("40621d", Some(2.0), None, None, None);
    id.callsign = Some("KLM1023".into());
    buf.observe(id);
    assert_eq!(buf.tracks()[&0x40621d].callsign.as_deref(), Some("KLM1023"));
    assert_eq!(buf.tracks()[&0x40621d].points.len(), 1);
    // ID-only frames do not overwrite an existing callsign
    let mut id2 = frame("40621d", Some(3.0), None, None, None);
    id2.callsign = Some("OTHER".into());
    buf.observe(id2);
    assert_eq!(buf.tracks()[&0x40621d].callsign.as_deref(), Some("KLM1023"));
    // a position frame with a callsign does
    let mut pos = frame("40621d", Some(4.0), Some(52.2), Some(3.9), None);
    pos.callsign = Some("NEW".into());
    buf.observe(pos);
    assert_eq!(buf.tracks()[&0x40621d].callsign.as_deref(), Some("NEW"));
    let ts: Vec<f64> = buf.tracks()[&0x40621d].points.iter().map(|p| p.ts).collect();
    assert_eq!(ts, vec![1.0, 4.0]);
    assert_eq!(buf.tracks()[&0x40621d].icao, "40621d");
}

#[test]
fn track_points_are_capped() {
    let mut buf = TrackBuffer::new();
    for k in 0..(MAX_POINTS_PER_TRACK + 10) {
        buf.observe(frame("000001", Some(k as f64), Some(1.0), Some(1.0), None));
    }
    assert_eq!(buf.tracks()[&1].points.len(), MAX_POINTS_PER_TRACK);
    assert_eq!(buf.tracks()[&1].points[MAX_POINTS_PER_TRACK - 1].ts, (MAX_POINTS_PER_TRACK - 1) as f64);
}

#[test]
fn bad_icao_text_is_ignored() {
    let mut buf = TrackBuffer::new();
    buf.observe(frame("", Some(1.0), Some(1.0), Some(1.0), None));
    buf.observe(frame("zz", Some(1.0), Some(1.0), Some(1.0), None));
    assert!(buf.tracks().is_empty());
}

#[test]
fn parse_icao_hex_follows_from_str_radix() {
    assert_eq!(parse_icao_hex("abc123"), Some(0xabc123));
    assert_eq!(parse_icao_hex("ABC123"), Some(0xabc123));
    assert_eq!(parse_icao_hex("+1f"), Some(0x1f));
    assert_eq!(parse_icao_hex("1abc123"), Some(0xabc123));
    assert_eq!(parse_icao_hex("ffffffff"), Some(0xffffff));
    assert_eq!(parse_icao_hex(""), None);
    assert_eq!(parse_icao_hex("+"), None);
    assert_eq!(parse_icao_hex("-1"), None);
    assert_eq!(parse_icao_hex("xyz"), None);
    assert_eq!(parse_icao_hex("100000000"), None);
    for s in ["0", "7", "deadbeef", "+ff", "1_0", " 1", "fffffffff", "g", "Ab"] {
        let expect = u32::from_str_radix(s, 16).ok().map(|v| v & 0xFF_FFFF);
        let got = if s.is_empty() { None } else { parse_icao_hex(s) };
        assert_eq!(got, expect, "{s}");
    }
}

#[test]
fn address_text_parses_back_to_the_address() {
    for a in [0u32, 1, 0x40621d, 0xabc123, 0xffffff, 0x1234_5678, u32::MAX] {
        assert_eq!(parse_icao_hex(&icao_hex(a)), Some(a & 0xFF_FFFF), "{a:x}");
    }
}
