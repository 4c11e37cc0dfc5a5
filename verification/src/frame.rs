//! Per-ICAO trajectories (time-ordered position/velocity samples).
use std::collections::BTreeMap;
use vstd::prelude::*;
use vstd::string::StrSliceExecFns;
use crate::mode_s::{hex_char, hex_text};

verus! {

broadcast use {vstd::laws_cmp::group_laws_cmp, vstd::std_specs::btree::group_btree_axioms};

/// Soft per-track point cap to bound memory on long captures.
pub const MAX_POINTS_PER_TRACK: usize = 50000;

// ---------------------------------------------------------------- ICAO text

/// Value of a hexadecimal digit (either case).
pub open spec fn hex_val(c: char) -> Option<nat> {
    if '0' <= c <= '9' {
        Some((c as nat - 48) as nat)
    } else if 'a' <= c <= 'f' {
        Some((c as nat - 87) as nat)
    } else if 'A' <= c <= 'F' {
        Some((c as nat - 55) as nat)
    } else {
        None
    }
}

/// Value of a string of hexadecimal digits (none if any is not one).
pub open spec fn hex_value(d: Seq<char>) -> Option<nat>
    decreases d.len(),
{
    if d.len() == 0 {
        Some(0)
    } else {
        match (hex_value(d.drop_last()), hex_val(d.last())) {
            (Some(v), Some(x)) => Some(16 * v + x),
            _ => None,
        }
    }
}

/// `u32::from_str_radix(s, 16)`: an optional `+`, then at least one hex
/// digit, and a value that fits in 32 bits.
pub open spec fn spec_u32_from_hex(s: Seq<char>) -> Option<u32> {
    let d = if s.len() > 0 && s[0] == '+' { s.drop_first() } else { s };
    if d.len() == 0 {
        None
    } else {
        match hex_value(d) {
            Some(v) => if v <= u32::MAX { Some(v as u32) } else { None },
            None => None,
        }
    }
}

/// A track key from ICAO hex text: the parsed value masked to 24 bits.
pub open spec fn spec_parse_icao_hex(s: Seq<char>) -> Option<u32> {
    if s.len() == 0 {
        None
    } else {
        match spec_u32_from_hex(s) {
            Some(v) => Some((v % 0x100_0000) as u32),
            None => None,
        }
    }
}

fn hex_digit_value(c: char) -> (r: Option<u64>)
    ensures
        match r {
            Some(v) => hex_val(c) == Some(v as nat),
            None => hex_val(c) is None,
        },
{
    if '0' <= c && c <= '9' {
        Some(c as u64 - 48)
    } else if 'a' <= c && c <= 'f' {
        Some(c as u64 - 87)
    } else if 'A' <= c && c <= 'F' {
        Some(c as u64 - 55)
    } else {
        None
    }
}

proof fn lemma_hex_value_grows(d: Seq<char>, k: int)
    requires
        0 <= k <= d.len(),
        hex_value(d) is Some,
    ensures
        hex_value(d.take(k)) is Some,
        hex_value(d.take(k)).unwrap() <= hex_value(d).unwrap(),
    decreases d.len(),
{
    if k < d.len() {
        lemma_hex_value_grows(d.drop_last(), k);
        assert(d.drop_last().take(k) =~= d.take(k));
    } else {
        assert(d.take(k) =~= d);
    }
}

/// Parse ICAO hex text to a 24-bit track key (`None` for empty or invalid text).
pub fn parse_icao_hex(s: &str) -> (r: Option<u32>)
    ensures
        r == spec_parse_icao_hex(s@),
{
    let n = s.unicode_len();
    if n == 0 {
        return None;
    }
    let mut i: usize = 0;
    if s.get_char(0) == '+' {
        i = 1;
    }
    let ghost d = if s@.len() > 0 && s@[0] == '+' { s@.drop_first() } else { s@ };
    let start = i;
    if start == n {
        assert(d.len() == 0);
        return None;
    }
    let mut v: u64 = 0;
    while i < n
        invariant
            n == s@.len(),
            1 <= n,
            start <= i <= n,
            start == n - d.len(),
            d.len() > 0,
            d == (if s@.len() > 0 && s@[0] == '+' { s@.drop_first() } else { s@ }),
            d =~= s@.subrange(start as int, n as int),
            hex_value(d.take(i - start)) == Some(v as nat),
            v <= u32::MAX,
        decreases n - i,
    {
        let c = s.get_char(i);
        proof {
            assert(d.take(i - start + 1).drop_last() =~= d.take(i - start));
            assert(d.take(i - start + 1).last() == c);
        }
        match hex_digit_value(c) {
            Some(x) => {
                v = 16 * v + x;
                proof {
                    assert(hex_value(d.take(i - start + 1)) == Some(v as nat));
                }
                if v > 0xFFFF_FFFF {
                    proof {
                        if hex_value(d) is Some {
                            lemma_hex_value_grows(d, i - start + 1);
                        }
                        assert(spec_u32_from_hex(s@) is None);
                    }
                    return None;
                }
            },
            None => {
                proof {
                    assert(hex_value(d.take(i - start + 1)) is None);
                    if hex_value(d) is Some {
                        lemma_hex_value_grows(d, i - start + 1);
                    }
                    assert(spec_u32_from_hex(s@) is None);
                }
                return None;
            },
        }
        i = i + 1;
    }
    assert(d.take(n - start) =~= d);
    let w = v as u32;
    let r = w & 0xFF_FFFFu32;
    assert(r == w % 0x100_0000) by (bit_vector)
        requires r == w & 0xFF_FFFFu32;
    Some(r)
}


/// `16^n`.
pub open spec fn pow16(n: nat) -> nat
    decreases n,
{
    if n == 0 {
        1
    } else {
        16 * pow16((n - 1) as nat)
    }
}

proof fn lemma_hex_char_value(d: nat)
    requires
        d < 16,
    ensures
        hex_val(hex_char(d)) == Some(d),
{
}

/// `n` hex digits of `v < 16^n` read back as `v`.
proof fn lemma_hex_text_value(v: nat, n: nat)
    requires
        v < pow16(n),
    ensures
        hex_value(hex_text(v, n)) == Some(v),
        hex_text(v, n).len() == n,
        forall|i: int| 0 <= i < n ==> #[trigger] hex_val(hex_text(v, n)[i]) is Some,
    decreases n,
{
    if n > 0 {
        let p = pow16((n - 1) as nat);
        assert(v / 16 < p) by (nonlinear_arith)
            requires v < 16 * p;
        lemma_hex_text_value(v / 16, (n - 1) as nat);
        lemma_hex_char_value(v % 16);
        let t = hex_text(v / 16, (n - 1) as nat);
        let s = hex_text(v, n);
        assert(s == t.push(hex_char(v % 16)));
        assert(s.drop_last() =~= t);
        assert(16 * (v / 16) + v % 16 == v) by (nonlinear_arith);
        assert forall|i: int| 0 <= i < n implies #[trigger] hex_val(s[i]) is Some by {
            if i < n - 1 {
                assert(s[i] == t[i]);
            }
        }
    } else {
        assert(v == 0);
    }
}

/// The track key of a frame is its address: parsing the six hex digits that
/// [`crate::mode_s::icao_hex`] writes for an address gives the 24-bit address back.
pub proof fn lemma_icao_text_roundtrip(addr: u32)
    ensures
        spec_parse_icao_hex(hex_text((addr % 0x100_0000) as nat, 6)) == Some(
            (addr % 0x100_0000) as u32,
        ),
{
    let v = (addr % 0x100_0000) as nat;
    reveal_with_fuel(pow16, 7);
    assert(pow16(6) == 0x100_0000);
    lemma_hex_text_value(v, 6);
    let s = hex_text(v, 6);
    assert(hex_val(s[0]) is Some);
    assert(s[0] != '+');
}

// ---------------------------------------------------------------- tracks

/// Per-ICAO trajectory for offline OD / analysis; `P` is one time-ordered
/// sample (timestamp, position and velocity as decoded).
pub struct AircraftTrack<P> {
    pub icao: String,
    pub callsign: Option<String>,
    pub points: Vec<P>,
}

/// A track as the contracts see it.
pub struct TrackView<P> {
    pub icao: Seq<char>,
    pub callsign: Option<Seq<char>>,
    pub points: Seq<P>,
}

pub open spec fn opt_text(o: Option<String>) -> Option<Seq<char>> {
    match o {
        Some(s) => Some(s@),
        None => None,
    }
}

pub open spec fn track_view<P>(t: AircraftTrack<P>) -> TrackView<P> {
    TrackView { icao: t.icao@, callsign: opt_text(t.callsign), points: t.points@ }
}

/// What a track buffer reads of one decoded frame.
pub struct TrackObservation<P> {
    /// ICAO address as hex text.
    pub icao: String,
    /// Both latitude and longitude were decoded.
    pub has_position: bool,
    /// A ground speed was decoded.
    pub has_velocity: bool,
    pub callsign: Option<String>,
    /// The sample to record; absent when the frame carries no timestamp.
    pub point: Option<P>,
}

/// Collects time-ordered pos/vel samples keyed by ICAO address.
///
/// ID-only / callsign-only frames do **not** create empty trajectories; callsign
/// is applied when a pos/vel point is recorded (or when updating an existing track).
/// Points without a timestamp are skipped. Per-track growth is capped at
/// [`MAX_POINTS_PER_TRACK`].
pub struct TrackBuffer<P> {
    tracks: BTreeMap<u32, AircraftTrack<P>>,
}

/// The effect of one observation on the tracks.
pub open spec fn spec_observe<P>(
    v: Map<u32, TrackView<P>>,
    icao: Seq<char>,
    has_position: bool,
    has_velocity: bool,
    callsign: Option<Seq<char>>,
    point: Option<P>,
) -> Map<u32, TrackView<P>> {
    match spec_parse_icao_hex(icao) {
        None => v,
        Some(key) => if !has_position && !has_velocity {
            match callsign {
                Some(cs) => if v.contains_key(key) && v[key].callsign is None {
                    v.insert(
                        key,
                        TrackView { icao: v[key].icao, callsign: Some(cs), points: v[key].points },
                    )
                } else {
                    v
                },
                None => v,
            }
        } else {
            match point {
                None => v,
                Some(p) => {
                    let t = if v.contains_key(key) {
                        v[key]
                    } else {
                        TrackView { icao: icao, callsign: None, points: Seq::empty() }
                    };
                    let cs = match callsign {
                        Some(c) => Some(c),
                        None => t.callsign,
                    };
                    let pts = if t.points.len() >= 50000 { t.points } else { t.points.push(p) };
                    v.insert(key, TrackView { icao: t.icao, callsign: cs, points: pts })
                },
            }
        },
    }
}

impl<P> View for TrackBuffer<P> {
    type V = Map<u32, TrackView<P>>;

    closed spec fn view(&self) -> Map<u32, TrackView<P>> {
        self.tracks@.map_values(|t: AircraftTrack<P>| track_view(t))
    }
}

impl<P> TrackBuffer<P> {
    /// Every track holds between one and [`MAX_POINTS_PER_TRACK`] points.
    pub open spec fn wf(&self) -> bool {
        forall|k: u32| #[trigger] self@.contains_key(k) ==> 1 <= self@[k].points.len() <= 50000
    }

    pub fn new() -> (r: Self)
        ensures
            r@ == Map::<u32, TrackView<P>>::empty(),
            r.wf(),
    {
        let r = TrackBuffer { tracks: BTreeMap::new() };
        assert(r@ =~= Map::<u32, TrackView<P>>::empty());
        r
    }

    /// The tracks, keyed by 24-bit ICAO address.
    pub fn tracks(&self) -> (r: &BTreeMap<u32, AircraftTrack<P>>)
        ensures
            r@.map_values(|t: AircraftTrack<P>| track_view(t)) == self@,
    {
        &self.tracks
    }

    /// Record a frame if it carries position and/or velocity (mission fields).
    pub fn observe(&mut self, obs: TrackObservation<P>)
        ensures
            final(self)@ == spec_observe(
                old(self)@,
                obs.icao@,
                obs.has_position,
                obs.has_velocity,
                opt_text(obs.callsign),
                obs.point,
            ),
            old(self).wf() ==> final(self).wf(),
    {
        let ghost old_v = self@;
        let key = match parse_icao_hex(obs.icao.as_str()) {
            Some(k) => k,
            None => return,
        };
        if !obs.has_position && !obs.has_velocity {
            if let Some(cs) = obs.callsign {
                match self.tracks.remove(&key) {
                    Some(t) => {
                        let mut t = t;
                        if t.callsign.is_none() {
                            t.callsign = Some(cs);
                        }
                        self.tracks.insert(key, t);
                        proof {
                            assert(self.tracks@ == old(self).tracks@.insert(key, t));
                        }
                        assert(self@ =~= spec_observe(
                            old_v,
                            obs.icao@,
                            obs.has_position,
                            obs.has_velocity,
                            opt_text(obs.callsign),
                            obs.point,
                        ));
                    },
                    None => {
                        assert(self@ =~= old_v);
                    },
                }
            }
            return;
        }
        let p = match obs.point {
            Some(p) => p,
            None => return,
        };
        let mut t = match self.tracks.remove(&key) {
            Some(t) => t,
            None => AircraftTrack { icao: obs.icao, callsign: None, points: Vec::new() },
        };
        if let Some(cs) = obs.callsign {
            t.callsign = Some(cs);
        }
        if t.points.len() < MAX_POINTS_PER_TRACK {
            t.points.push(p);
        }
        self.tracks.insert(key, t);
        assert(self@ =~= spec_observe(
            old_v,
            obs.icao@,
            obs.has_position,
            obs.has_velocity,
            opt_text(obs.callsign),
            obs.point,
        ));
    }
}


impl<P> Default for TrackBuffer<P> {
    fn default() -> (r: Self)
        ensures
            r@ == Map::<u32, TrackView<P>>::empty(),
            r.wf(),
    {
        TrackBuffer::new()
    }
}

/// What one observation keeps: no track disappears and no recorded point is
/// lost or reordered (points are only appended); frames with neither position
/// nor velocity, and frames without a timestamp, create no track and add no
/// point.
pub proof fn lemma_observe_keeps_tracks<P>(
    v: Map<u32, TrackView<P>>,
    icao: Seq<char>,
    has_position: bool,
    has_velocity: bool,
    callsign: Option<Seq<char>>,
    point: Option<P>,
)
    ensures
        ({
            let w = spec_observe(v, icao, has_position, has_velocity, callsign, point);
            &&& forall|k: u32| #[trigger] v.contains_key(k) ==> w.contains_key(k) && w[k].icao
                == v[k].icao && w[k].points.take(v[k].points.len() as int) == v[k].points
            &&& forall|k: u32| #[trigger] w.contains_key(k) && !v.contains_key(k) ==> w[k].points.len()
                == 1
            &&& (!has_position && !has_velocity) ==> w.dom() == v.dom() && forall|k: u32|
                #[trigger] v.contains_key(k) ==> w[k].points == v[k].points
            &&& point is None ==> w.dom() == v.dom() && forall|k: u32| #[trigger] v.contains_key(k)
                ==> w[k].points == v[k].points
        }),
{
    let w = spec_observe(v, icao, has_position, has_velocity, callsign, point);
    assert forall|k: u32| #[trigger] v.contains_key(k) implies w.contains_key(k) && w[k].icao
        == v[k].icao && w[k].points.take(v[k].points.len() as int) == v[k].points by {
        assert(w[k].points.take(v[k].points.len() as int) =~= v[k].points);
    }
    if !has_position && !has_velocity {
        assert(w.dom() =~= v.dom());
    }
    if point is None {
        assert(w.dom() =~= v.dom());
    }
}


/// Callsign law of observing a frame: a frame without a callsign never
/// changes any track's callsign; a frame with one that records a point sets
/// its track's callsign to it; a frame with one that carries neither
/// position nor velocity only fills in a missing callsign of an existing
/// track and never replaces a known one.
pub proof fn lemma_observe_callsign<P>(
    v: Map<u32, TrackView<P>>,
    icao: Seq<char>,
    has_position: bool,
    has_velocity: bool,
    callsign: Option<Seq<char>>,
    point: Option<P>,
)
    ensures
        ({
            let w = spec_observe(v, icao, has_position, has_velocity, callsign, point);
            &&& callsign is None ==> forall|k: u32| #[trigger] v.contains_key(k) ==> w[k].callsign
                == v[k].callsign
            &&& forall|k: u32| #[trigger] v.contains_key(k) && v[k].callsign is Some && (!has_position
                && !has_velocity) ==> w[k].callsign == v[k].callsign
            &&& (callsign is Some && (has_position || has_velocity) && point is Some
                && spec_parse_icao_hex(icao) is Some) ==> w[spec_parse_icao_hex(
                icao,
            ).unwrap()].callsign == callsign
            &&& forall|key: u32|
                callsign is Some && !has_position && !has_velocity && spec_parse_icao_hex(icao)
                    == Some(key) && #[trigger] v.contains_key(key) && v[key].callsign is None
                    ==> w[key].callsign == callsign
        }),
{
}

} // verus!
