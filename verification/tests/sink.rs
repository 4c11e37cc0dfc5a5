use adsb_decoder::sink::{DecodeStats, FrameSummary};

fn summary(icao: u32, df: u8, pos: bool, alt: bool, vel: bool, cs: bool) -> FrameSummary {
    FrameSummary {
        icao,
        df,
        has_position: pos,
        has_altitude: alt,
        has_velocity: vel,
        has_callsign: cs,
    }
}

#[test]
fn stats_count_and_summarise() {
    let mut st = DecodeStats::default();
    st.record(&summary(0x40621d, 17, true, true, false, false), true);
    st.record(&summary(0x40621d, 17, false, false, true, true), true);
    st.record(&summary(0x4ca92b, 11, true, true, true, true), false);
    assert_eq!(st.messages, 3);
    assert_eq!(st.crc_ok, 2);
    assert_eq!(st.df17_18, 2);
    assert_eq!(st.unique_icaos(), 2);
    assert_eq!(st.icaos_with_pos.len(), 1);
    assert_eq!(st.icaos_with_callsign.len(), 1);
    let text = st.print_summary();
    assert_eq!(
        text,
        "messages: 3\ncrc_ok: 2\ndf17_18: 2\nunique_icao: 2\nicao_with_position: 1\n\
         icao_with_altitude: 1\nicao_with_velocity: 1\nicao_with_callsign: 1\n"
    );
}

#[test]
fn summary_of_fresh_stats() {
    let st = DecodeStats::new();
    assert_eq!(
        st.print_summary(),
        "messages: 0\ncrc_ok: 0\ndf17_18: 0\nunique_icao: 0\nicao_with_position: 0\n\
         icao_with_altitude: 0\nicao_with_velocity: 0\nicao_with_callsign: 0\n"
    );
    let mut big = DecodeStats::new();
    big.messages = 1234567890;
    assert!(big.print_summary().starts_with("messages: 1234567890\n"));
}
