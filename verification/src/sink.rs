//! Mission counters over emitted frames (`--stats`).
use std::collections::BTreeSet;
use vstd::prelude::*;

verus! {

broadcast use {vstd::laws_cmp::group_laws_cmp, vstd::std_specs::btree::group_btree_axioms};

/// What the counters read of one emitted frame.
pub struct FrameSummary {
    /// ICAO address of the frame.
    pub icao: u32,
    pub df: u8,
    /// Both latitude and longitude were decoded.
    pub has_position: bool,
    pub has_altitude: bool,
    /// A ground speed (or airspeed) was decoded.
    pub has_velocity: bool,
    pub has_callsign: bool,
}

/// Aggregate counters for `--stats` (mission-oriented).
#[derive(Debug, Clone)]
pub struct DecodeStats {
    pub messages: u64,
    pub crc_ok: u64,
    pub df17_18: u64,
    pub icaos: BTreeSet<u32>,
    pub icaos_with_pos: BTreeSet<u32>,
    pub icaos_with_alt: BTreeSet<u32>,
    pub icaos_with_vel: BTreeSet<u32>,
    pub icaos_with_callsign: BTreeSet<u32>,
}

/// `s` with `x` added when `cond` holds.
pub open spec fn add_if(s: Set<u32>, cond: bool, x: u32) -> Set<u32> {
    if cond { s.insert(x) } else { s }
}

impl DecodeStats {
    /// Counters that agree with each other: integrity and ADS-B counts never
    /// exceed the message count, and every per-field address set lies in the
    /// set of all addresses.
    pub open spec fn wf(&self) -> bool {
        &&& self.crc_ok <= self.messages
        &&& self.df17_18 <= self.messages
        &&& self.icaos_with_pos@.subset_of(self.icaos@)
        &&& self.icaos_with_alt@.subset_of(self.icaos@)
        &&& self.icaos_with_vel@.subset_of(self.icaos@)
        &&& self.icaos_with_callsign@.subset_of(self.icaos@)
        &&& self.icaos@.finite()
    }

    pub fn new() -> (r: Self)
        ensures
            r.messages == 0,
            r.crc_ok == 0,
            r.df17_18 == 0,
            r.icaos@ == Set::<u32>::empty(),
            r.icaos_with_pos@ == Set::<u32>::empty(),
            r.icaos_with_alt@ == Set::<u32>::empty(),
            r.icaos_with_vel@ == Set::<u32>::empty(),
            r.icaos_with_callsign@ == Set::<u32>::empty(),
            r.wf(),
    {
        DecodeStats {
            messages: 0,
            crc_ok: 0,
            df17_18: 0,
            icaos: BTreeSet::new(),
            icaos_with_pos: BTreeSet::new(),
            icaos_with_alt: BTreeSet::new(),
            icaos_with_vel: BTreeSet::new(),
            icaos_with_callsign: BTreeSet::new(),
        }
    }

    /// Count one emitted frame; `crc_ok` is its integrity verdict.
    pub fn record(&mut self, frame: &FrameSummary, crc_ok: bool)
        requires
            old(self).messages < u64::MAX,
            crc_ok ==> old(self).crc_ok < u64::MAX,
            frame.df == 17 || frame.df == 18 ==> old(self).df17_18 < u64::MAX,
        ensures
            final(self).messages == old(self).messages + 1,
            final(self).crc_ok == old(self).crc_ok + (if crc_ok { 1int } else { 0 }),
            ({
                let adsb = frame.df == 17 || frame.df == 18;
                &&& final(self).df17_18 == old(self).df17_18 + (if adsb { 1int } else { 0 })
                &&& final(self).icaos@ == old(self).icaos@.insert(frame.icao)
                &&& final(self).icaos_with_pos@ == add_if(
                    old(self).icaos_with_pos@,
                    adsb && frame.has_position,
                    frame.icao,
                )
                &&& final(self).icaos_with_alt@ == add_if(
                    old(self).icaos_with_alt@,
                    adsb && frame.has_altitude,
                    frame.icao,
                )
                &&& final(self).icaos_with_vel@ == add_if(
                    old(self).icaos_with_vel@,
                    adsb && frame.has_velocity,
                    frame.icao,
                )
                &&& final(self).icaos_with_callsign@ == add_if(
                    old(self).icaos_with_callsign@,
                    adsb && frame.has_callsign,
                    frame.icao,
                )
            }),
            old(self).wf() ==> final(self).wf(),
    {
        self.messages = self.messages + 1;
        if crc_ok {
            self.crc_ok = self.crc_ok + 1;
        }
        self.icaos.insert(frame.icao);
        if frame.df == 17 || frame.df == 18 {
            self.df17_18 = self.df17_18 + 1;
            if frame.has_position {
                self.icaos_with_pos.insert(frame.icao);
            }
            if frame.has_altitude {
                self.icaos_with_alt.insert(frame.icao);
            }
            if frame.has_velocity {
                self.icaos_with_vel.insert(frame.icao);
            }
            if frame.has_callsign {
                self.icaos_with_callsign.insert(frame.icao);
            }
        }
    }
}


/// Decimal digits of `v`, most significant first.
pub open spec fn dec_text(v: nat) -> Seq<char>
    decreases v,
{
    if v < 10 {
        seq![(v + 48) as char]
    } else {
        dec_text(v / 10).push(((v % 10) + 48) as char)
    }
}

fn push_decimal(s: &mut String, v: u64)
    ensures
        final(s)@ == old(s)@ + dec_text(v as nat),
    decreases v,
{
    if v >= 10 {
        push_decimal(s, v / 10);
    }
    s.push(((v % 10) as u8 + 48) as char);
    proof {
        if v < 10 {
            assert(v % 10 == v);
        }
    }
}

fn push_str(s: &mut String, t: &str)
    ensures
        final(s)@ == old(s)@ + t@,
{
    s.append(t);
}

/// `label: value` followed by a newline.
pub open spec fn summary_line(label: Seq<char>, v: nat) -> Seq<char> {
    label + seq![':', ' '] + dec_text(v) + seq!['\n']
}

fn push_line(s: &mut String, label: &str, v: u64)
    ensures
        final(s)@ == old(s)@ + summary_line(label@, v as nat),
{
    push_str(s, label);
    s.push(':');
    s.push(' ');
    push_decimal(s, v);
    s.push('\n');
    assert(s@ =~= old(s)@ + summary_line(label@, v as nat));
}

impl DecodeStats {
    /// Number of distinct ICAO addresses seen.
    pub fn unique_icaos(&self) -> (r: usize)
        ensures
            r == self.icaos@.len(),
    {
        self.icaos.len()
    }

    /// The summary printed for `--stats`: one `label: count` line per counter.
    pub fn print_summary(&self) -> (r: String)
        ensures
            r@ == summary_line("messages"@, self.messages as nat) + summary_line(
                "crc_ok"@,
                self.crc_ok as nat,
            ) + summary_line("df17_18"@, self.df17_18 as nat) + summary_line(
                "unique_icao"@,
                self.icaos@.len(),
            ) + summary_line("icao_with_position"@, self.icaos_with_pos@.len()) + summary_line(
                "icao_with_altitude"@,
                self.icaos_with_alt@.len(),
            ) + summary_line("icao_with_velocity"@, self.icaos_with_vel@.len()) + summary_line(
                "icao_with_callsign"@,
                self.icaos_with_callsign@.len(),
            ),
    {
        let mut s = String::new();
        push_line(&mut s, "messages", self.messages);
        push_line(&mut s, "crc_ok", self.crc_ok);
        push_line(&mut s, "df17_18", self.df17_18);
        push_line(&mut s, "unique_icao", self.unique_icaos() as u64);
        push_line(&mut s, "icao_with_position", self.icaos_with_pos.len() as u64);
        push_line(&mut s, "icao_with_altitude", self.icaos_with_alt.len() as u64);
        push_line(&mut s, "icao_with_velocity", self.icaos_with_vel.len() as u64);
        push_line(&mut s, "icao_with_callsign", self.icaos_with_callsign.len() as u64);
        assert(s@ =~= summary_line("messages"@, self.messages as nat) + summary_line(
            "crc_ok"@,
            self.crc_ok as nat,
        ) + summary_line("df17_18"@, self.df17_18 as nat) + summary_line(
            "unique_icao"@,
            self.icaos@.len(),
        ) + summary_line("icao_with_position"@, self.icaos_with_pos@.len()) + summary_line(
            "icao_with_altitude"@,
            self.icaos_with_alt@.len(),
        ) + summary_line("icao_with_velocity"@, self.icaos_with_vel@.len()) + summary_line(
            "icao_with_callsign"@,
            self.icaos_with_callsign@.len(),
        ));
        s
    }
}

impl Default for DecodeStats {
    fn default() -> (r: Self)
        ensures
            r.messages == 0,
            r.crc_ok == 0,
            r.df17_18 == 0,
            r.icaos@ == Set::<u32>::empty(),
            r.icaos_with_pos@ == Set::<u32>::empty(),
            r.icaos_with_alt@ == Set::<u32>::empty(),
            r.icaos_with_vel@ == Set::<u32>::empty(),
            r.icaos_with_callsign@ == Set::<u32>::empty(),
    {
        DecodeStats::new()
    }
}

} // verus!
