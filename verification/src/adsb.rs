//! ADS-B ME field extraction (DF17/18): type code, identification, CPR
//! position fields, altitude, velocity and surface movement, as integers.
//!
//! Fields are addressed by message bit index (bit 0 is the MSB of byte 0),
//! the ME field spanning bits 32..88.
use vstd::prelude::*;
use crate::mode_s::{df, extract_icao, is_surveillance, spec_df, spec_extract_icao};

verus! {

/// Message bit `i` (0 = most significant bit of byte 0).
pub open spec fn msg_bit(msg: Seq<u8>, i: int) -> int {
    (msg[i / 8] as int / pow2_8(7 - i % 8)) % 2
}

/// `2^k` for `0 <= k < 8`.
pub open spec fn pow2_8(k: int) -> int {
    if k == 0 {
        1
    } else if k == 1 {
        2
    } else if k == 2 {
        4
    } else if k == 3 {
        8
    } else if k == 4 {
        16
    } else if k == 5 {
        32
    } else if k == 6 {
        64
    } else {
        128
    }
}

/// The unsigned value of message bits `from .. from + n` (MSB first).
pub open spec fn msg_bits(msg: Seq<u8>, from: int, n: nat) -> int
    decreases n,
{
    if n == 0 {
        0
    } else {
        2 * msg_bits(msg, from, (n - 1) as nat) + msg_bit(msg, from + n - 1)
    }
}

proof fn lemma_msg_bits_bound(msg: Seq<u8>, from: int, n: nat)
    ensures
        0 <= msg_bits(msg, from, n) < pow2_64(n),
    decreases n,
{
    if n > 0 {
        lemma_msg_bits_bound(msg, from, (n - 1) as nat);
    }
}

/// `2^n`.
pub open spec fn pow2_64(n: nat) -> int
    decreases n,
{
    if n == 0 {
        1
    } else {
        2 * pow2_64((n - 1) as nat)
    }
}

fn read_bit(msg: &[u8], i: usize) -> (b: u64)
    requires
        i / 8 < msg@.len(),
    ensures
        b == msg_bit(msg@, i as int),
{
    let byte = msg[i / 8];
    let sh = 7 - i % 8;
    let v = (byte as u64) >> (sh as u64);
    let r = v & 1u64;
    proof {
        let bb = byte as u64;
        let s = sh as u64;
        assert(s < 8);
        assert(r == (bb >> s) & 1u64);
        assert(s == 0 ==> (bb >> s) & 1u64 == (bb / 1) % 2) by (bit_vector);
        assert(s == 1 ==> (bb >> s) & 1u64 == (bb / 2) % 2) by (bit_vector);
        assert(s == 2 ==> (bb >> s) & 1u64 == (bb / 4) % 2) by (bit_vector);
        assert(s == 3 ==> (bb >> s) & 1u64 == (bb / 8) % 2) by (bit_vector);
        assert(s == 4 ==> (bb >> s) & 1u64 == (bb / 16) % 2) by (bit_vector);
        assert(s == 5 ==> (bb >> s) & 1u64 == (bb / 32) % 2) by (bit_vector);
        assert(s == 6 ==> (bb >> s) & 1u64 == (bb / 64) % 2) by (bit_vector);
        assert(s == 7 ==> (bb >> s) & 1u64 == (bb / 128) % 2) by (bit_vector);
    }
    r
}

/// Message bits `from .. from + n`, `n <= 32`.
pub fn read_bits(msg: &[u8], from: usize, n: usize) -> (v: u64)
    requires
        n <= 32,
        from + n <= 8 * msg@.len(),
        from + n <= usize::MAX,
    ensures
        v == msg_bits(msg@, from as int, n as nat),
        v < pow2_64(n as nat),
{
    let mut v: u64 = 0;
    let mut k: usize = 0;
    while k < n
        invariant
            k <= n <= 32,
            from + n <= 8 * msg@.len(),
            from + n <= usize::MAX,
            v == msg_bits(msg@, from as int, k as nat),
        decreases n - k,
    {
        proof {
            lemma_msg_bits_bound(msg@, from as int, k as nat);
            lemma_pow2_64_le(k as nat, 32);
            lemma_pow2_64_32();
        }
        let b = read_bit(msg, from + k);
        v = 2 * v + b;
        k = k + 1;
    }
    proof {
        lemma_msg_bits_bound(msg@, from as int, n as nat);
    }
    v
}

proof fn lemma_pow2_64_le(a: nat, b: nat)
    requires
        a <= b,
    ensures
        pow2_64(a) <= pow2_64(b),
    decreases b,
{
    if a < b {
        lemma_pow2_64_le(a, (b - 1) as nat);
        assert(pow2_64(b) == 2 * pow2_64((b - 1) as nat));
        lemma_pow2_64_pos((b - 1) as nat);
    }
}

proof fn lemma_pow2_64_pos(a: nat)
    ensures
        pow2_64(a) >= 1,
    decreases a,
{
    if a > 0 {
        lemma_pow2_64_pos((a - 1) as nat);
    }
}

proof fn lemma_pow2_64_32()
    ensures
        pow2_64(32) == 0x1_0000_0000,
{
    reveal_with_fuel(pow2_64, 33);
}


// ---------------------------------------------------------------- fields

/// AC12 altitude (ME bits 8..20) in feet; only the 25 ft (Q = 1) encoding
/// is decoded, Gillham (Q = 0) and the all-zero code give nothing.
pub open spec fn spec_ac12_altitude(msg: Seq<u8>) -> Option<int> {
    if msg_bits(msg, 40, 12) == 0 || msg_bit(msg, 47) == 0 {
        None
    } else {
        Some((msg_bits(msg, 40, 7) * 16 + msg_bits(msg, 48, 4)) * 25 - 1000)
    }
}

/// Decode 12-bit AC altitude field from airborne position ME → feet.
pub fn decode_ac12_altitude(msg: &[u8]) -> (r: Option<i32>)
    requires
        msg@.len() >= 7,
    ensures
        r matches Some(a) ==> spec_ac12_altitude(msg@) == Some(a as int),
        r is None ==> spec_ac12_altitude(msg@) is None,
{
    let alt_code = read_bits(msg, 40, 12);
    if alt_code == 0 {
        return None;
    }
    let q = read_bit(msg, 47);
    if q == 1 {
        let hi = read_bits(msg, 40, 7);
        let lo = read_bits(msg, 48, 4);
        proof {
            reveal_with_fuel(pow2_64, 8);
        }
        let n = (hi * 16 + lo) as i32;
        Some(n * 25 - 1000)
    } else {
        None
    }
}

/// Airborne/surface position ME CPR layout: format bit F (odd), LAT17, LON17.
pub fn parse_cpr_airborne_layout(msg: &[u8]) -> (r: (bool, u32, u32))
    requires
        msg@.len() >= 11,
    ensures
        r.0 == (msg_bit(msg@, 53) == 1),
        r.1 == msg_bits(msg@, 54, 17),
        r.2 == msg_bits(msg@, 71, 17),
        r.1 < 0x2_0000,
        r.2 < 0x2_0000,
{
    proof {
        reveal_with_fuel(pow2_64, 18);
    }
    let f_odd = read_bit(msg, 53) == 1;
    let lat_cpr = read_bits(msg, 54, 17) as u32;
    let lon_cpr = read_bits(msg, 71, 17) as u32;
    (f_odd, lat_cpr, lon_cpr)
}

/// Surface movement code → ground speed in eighths of a knot (ICAO Doc 9871
/// quantisation, simplified): no information for 0 and for codes above 124.
pub open spec fn movement_eighths(m: int) -> Option<int> {
    if m == 0 {
        None
    } else if m == 1 {
        Some(0)
    } else if 2 <= m <= 8 {
        Some(1 + (m - 2))
    } else if 9 <= m <= 12 {
        Some(8 + (m - 9) * 2)
    } else if 13 <= m <= 38 {
        Some(16 + (m - 13) * 4)
    } else if 39 <= m <= 93 {
        Some(120 + (m - 39) * 8)
    } else if 94 <= m <= 108 {
        Some(560 + (m - 94) * 16)
    } else if 109 <= m <= 123 {
        Some(800 + (m - 109) * 40)
    } else if m == 124 {
        Some(1400)
    } else {
        None
    }
}

/// Ground speed of a surface movement code, in eighths of a knot.
pub fn surface_movement_to_eighths(m: u8) -> (r: Option<u32>)
    ensures
        r matches Some(v) ==> movement_eighths(m as int) == Some(v as int),
        r is None ==> movement_eighths(m as int) is None,
{
    let m = m as u32;
    if m == 0 {
        None
    } else if m == 1 {
        Some(0)
    } else if m <= 8 {
        Some(1 + (m - 2))
    } else if m <= 12 {
        Some(8 + (m - 9) * 2)
    } else if m <= 38 {
        Some(16 + (m - 13) * 4)
    } else if m <= 93 {
        Some(120 + (m - 39) * 8)
    } else if m <= 108 {
        Some(560 + (m - 94) * 16)
    } else if m <= 123 {
        Some(800 + (m - 109) * 40)
    } else if m == 124 {
        Some(1400)
    } else {
        None
    }
}

/// Surface position ME: movement (ME bits 5..12) and ground track (valid bit
/// 12, 7-bit track in 1/128 of a turn).
pub fn decode_surface_movement(msg: &[u8]) -> (r: (Option<u32>, Option<u8>))
    requires
        msg@.len() >= 7,
    ensures
        (r.0 matches Some(v) ==> movement_eighths(msg_bits(msg@, 37, 7)) == Some(v as int)),
        (r.0 is None ==> movement_eighths(msg_bits(msg@, 37, 7)) is None),
        (r.1 matches Some(t) ==> msg_bit(msg@, 44) == 1 && t == msg_bits(msg@, 45, 7)),
        (r.1 is None ==> msg_bit(msg@, 44) == 0),
{
    proof {
        reveal_with_fuel(pow2_64, 8);
    }
    let movement = read_bits(msg, 37, 7) as u8;
    let gs = surface_movement_to_eighths(movement);
    let track_valid = read_bit(msg, 44) == 1;
    let track = if track_valid {
        Some(read_bits(msg, 45, 7) as u8)
    } else {
        None
    };
    (gs, track)
}

/// Velocity ME (TC 19) as integers.
pub enum VelocityFields {
    /// Subtypes 1/2: east and north components in knots (subtype 2 is ×4).
    Ground { east: i32, north: i32 },
    /// Subtypes 3/4: airspeed in knots and, when the status bit is set, the
    /// 10-bit heading (1/1024 of a turn).
    Air { speed: i32, heading_raw: Option<u16> },
    /// Unknown subtype or a zero ("no information") speed field.
    Unavailable,
}

/// Signed velocity component: magnitude field `v` (0 = no information,
/// else `v - 1` knots, ×4 for supersonic), negative when `dir` is 1.
pub open spec fn velocity_component(dir: int, v: int, supersonic: bool) -> int {
    let mag = if supersonic { 4 * (v - 1) } else { v - 1 };
    if dir == 1 { -mag } else { mag }
}

pub open spec fn velocity_matches(msg: Seq<u8>, r: VelocityFields) -> bool {
    let subtype = msg_bits(msg, 37, 3);
    if subtype == 1 || subtype == 2 {
        let ew = msg_bits(msg, 46, 10);
        let ns = msg_bits(msg, 57, 10);
        if ew == 0 || ns == 0 {
            r is Unavailable
        } else {
            r matches VelocityFields::Ground { east, north } && east == velocity_component(
                msg_bit(msg, 45),
                ew,
                subtype == 2,
            ) && north == velocity_component(msg_bit(msg, 56), ns, subtype == 2)
        }
    } else if subtype == 3 || subtype == 4 {
        let as_raw = msg_bits(msg, 57, 10);
        if as_raw == 0 {
            r is Unavailable
        } else {
            r matches VelocityFields::Air { speed, heading_raw } && speed == as_raw - 1 && (
            if msg_bit(msg, 45) == 1 {
                heading_raw == Some(msg_bits(msg, 46, 10) as u16)
            } else {
                heading_raw is None
            })
        }
    } else {
        r is Unavailable
    }
}

/// Decode the velocity ME (ground speed or airspeed subtypes) to integers.
pub fn decode_velocity(msg: &[u8]) -> (r: VelocityFields)
    requires
        msg@.len() >= 9,
    ensures
        velocity_matches(msg@, r),
{
    proof {
        reveal_with_fuel(pow2_64, 11);
    }
    let subtype = read_bits(msg, 37, 3);
    if subtype == 1 || subtype == 2 {
        let ew_dir = read_bit(msg, 45);
        let ew = read_bits(msg, 46, 10);
        let ns_dir = read_bit(msg, 56);
        let ns = read_bits(msg, 57, 10);
        if ew == 0 || ns == 0 {
            return VelocityFields::Unavailable;
        }
        let mut vew = ew as i32 - 1;
        let mut vns = ns as i32 - 1;
        if subtype == 2 {
            vew = vew * 4;
            vns = vns * 4;
        }
        if ew_dir == 1 {
            vew = -vew;
        }
        if ns_dir == 1 {
            vns = -vns;
        }
        VelocityFields::Ground { east: vew, north: vns }
    } else if subtype == 3 || subtype == 4 {
        let hdg_status = read_bit(msg, 45);
        let hdg_raw = read_bits(msg, 46, 10);
        let as_raw = read_bits(msg, 57, 10);
        if as_raw == 0 {
            return VelocityFields::Unavailable;
        }
        let heading_raw = if hdg_status == 1 {
            Some(hdg_raw as u16)
        } else {
            None
        };
        VelocityFields::Air { speed: as_raw as i32 - 1, heading_raw }
    } else {
        VelocityFields::Unavailable
    }
}


// ---------------------------------------------------------------- callsign

/// AIS 6-bit character `idx` (ICAO Doc 9871): ASCII with bit 6 set below 32;
/// the padding character `@` (0) reads as a space.
pub open spec fn ais_char(idx: int) -> char {
    if idx == 0 {
        ' '
    } else if idx < 32 {
        (idx + 64) as char
    } else {
        idx as char
    }
}

/// The eight identification characters (ME bits 8..56), untrimmed.
pub open spec fn callsign_raw(msg: Seq<u8>) -> Seq<char> {
    Seq::new(8, |k: int| ais_char(msg_bits(msg, 40 + 6 * k, 6)))
}

pub open spec fn trim_start(s: Seq<char>) -> Seq<char>
    decreases s.len(),
{
    if s.len() > 0 && s[0] == ' ' {
        trim_start(s.drop_first())
    } else {
        s
    }
}

pub open spec fn trim_end(s: Seq<char>) -> Seq<char>
    decreases s.len(),
{
    if s.len() > 0 && s.last() == ' ' {
        trim_end(s.drop_last())
    } else {
        s
    }
}

/// The callsign: the identification characters with surrounding spaces
/// removed; none when nothing else is left.
pub open spec fn spec_callsign(msg: Seq<u8>) -> Option<Seq<char>> {
    let t = trim_end(trim_start(callsign_raw(msg)));
    if t.len() == 0 {
        None
    } else {
        Some(t)
    }
}

fn ais_char_of(idx: u64) -> (c: char)
    requires
        idx < 64,
    ensures
        c == ais_char(idx as int),
{
    if idx == 0 {
        ' '
    } else if idx < 32 {
        ((idx + 64) as u8) as char
    } else {
        (idx as u8) as char
    }
}

proof fn lemma_trim_start(s: Seq<char>, a: int)
    requires
        0 <= a <= s.len(),
        forall|i: int| 0 <= i < a ==> s[i] == ' ',
        a == s.len() || s[a] != ' ',
    ensures
        trim_start(s) == s.subrange(a, s.len() as int),
    decreases a,
{
    if a > 0 {
        lemma_trim_start(s.drop_first(), a - 1);
        assert(s.drop_first().subrange(a - 1, s.len() - 1) =~= s.subrange(a, s.len() as int));
    } else {
        assert(s.subrange(0, s.len() as int) =~= s);
    }
}

proof fn lemma_trim_end(s: Seq<char>, b: int)
    requires
        0 <= b <= s.len(),
        forall|i: int| b <= i < s.len() ==> s[i] == ' ',
        b == 0 || s[b - 1] != ' ',
    ensures
        trim_end(s) == s.subrange(0, b),
    decreases s.len() - b,
{
    if b < s.len() {
        lemma_trim_end(s.drop_last(), b);
        assert(s.drop_last().subrange(0, b) =~= s.subrange(0, b));
    } else {
        assert(s.subrange(0, b) =~= s);
    }
}

/// Decode TC1–4 aircraft identification → callsign (trimmed).
pub fn decode_callsign(msg: &[u8]) -> (r: Option<String>)
    ensures
        msg@.len() < 11 ==> r is None,
        msg@.len() >= 11 ==> match r {
            Some(cs) => spec_callsign(msg@) == Some(cs@),
            None => spec_callsign(msg@) is None,
        },
{
    if msg.len() < 11 {
        return None;
    }
    let mut raw: Vec<char> = Vec::new();
    let mut k: usize = 0;
    proof {
        reveal_with_fuel(pow2_64, 7);
    }
    while k < 8
        invariant
            k <= 8,
            msg@.len() >= 11,
            raw@ == callsign_raw(msg@).take(k as int),
            pow2_64(6) == 64,
        decreases 8 - k,
    {
        let idx = read_bits(msg, 40 + 6 * k, 6);
        raw.push(ais_char_of(idx));
        k = k + 1;
        assert(raw@ =~= callsign_raw(msg@).take(k as int));
    }
    let ghost full = callsign_raw(msg@);
    assert(full.take(8) =~= full);
    // first non-space
    let mut a: usize = 0;
    while a < 8 && raw[a] == ' '
        invariant
            a <= 8,
            raw@ == full,
            full.len() == 8,
            forall|i: int| 0 <= i < a ==> full[i] == ' ',
        decreases 8 - a,
    {
        a = a + 1;
    }
    proof {
        lemma_trim_start(full, a as int);
    }
    if a == 8 {
        assert(trim_start(full).len() == 0);
        return None;
    }
    // one past the last non-space
    let mut b: usize = 8;
    while b > a && raw[b - 1] == ' '
        invariant
            a < 8,
            a <= b <= 8,
            raw@ == full,
            full.len() == 8,
            full[a as int] != ' ',
            forall|i: int| b <= i < 8 ==> full[i] == ' ',
        decreases b,
    {
        b = b - 1;
    }
    let ghost mid = full.subrange(a as int, 8);
    proof {
        lemma_trim_end(mid, b - a);
        assert(mid.subrange(0, b - a) =~= full.subrange(a as int, b as int));
    }
    let mut cs = String::new();
    let mut i: usize = a;
    while i < b
        invariant
            a <= i <= b <= 8,
            raw@ == full,
            full.len() == 8,
            cs@ == full.subrange(a as int, i as int),
        decreases b - i,
    {
        cs.push(raw[i]);
        i = i + 1;
        assert(cs@ =~= full.subrange(a as int, i as int));
    }
    Some(cs)
}


// ---------------------------------------------------------------- frames

/// The integer content of a DF17/18 ME field, by type code.
pub enum MeFields {
    /// TC 1–4: aircraft identification.
    Identification { callsign: Option<String> },
    /// TC 5–8: surface position.
    SurfacePosition {
        odd: bool,
        lat_cpr: u32,
        lon_cpr: u32,
        speed_eighths: Option<u32>,
        track_raw: Option<u8>,
    },
    /// TC 9–18 (barometric) and 20–22 (GNSS height): airborne position.
    AirbornePosition { altitude: Option<i32>, odd: bool, lat_cpr: u32, lon_cpr: u32 },
    /// TC 19: airborne velocity.
    Velocity(VelocityFields),
    /// Any other type code.
    Other,
}

/// Downlink format, address, and for DF17/18 the type code and ME content.
pub struct FrameFields {
    pub icao: u32,
    pub df: u8,
    pub tc: Option<u8>,
    pub me: Option<MeFields>,
}

/// `me` is the ME content of `msg` for type code `tc`.
pub open spec fn me_matches(msg: Seq<u8>, tc: int, me: MeFields) -> bool {
    if 1 <= tc <= 4 {
        me matches MeFields::Identification { callsign } && match callsign {
            Some(cs) => spec_callsign(msg) == Some(cs@),
            None => spec_callsign(msg) is None,
        }
    } else if 5 <= tc <= 8 {
        me matches MeFields::SurfacePosition { odd, lat_cpr, lon_cpr, speed_eighths, track_raw }
            && odd == (msg_bit(msg, 53) == 1) && lat_cpr == msg_bits(msg, 54, 17) && lon_cpr
            == msg_bits(msg, 71, 17) && match speed_eighths {
            Some(v) => movement_eighths(msg_bits(msg, 37, 7)) == Some(v as int),
            None => movement_eighths(msg_bits(msg, 37, 7)) is None,
        } && match track_raw {
            Some(t) => msg_bit(msg, 44) == 1 && t == msg_bits(msg, 45, 7),
            None => msg_bit(msg, 44) == 0,
        }
    } else if (9 <= tc <= 18) || (20 <= tc <= 22) {
        me matches MeFields::AirbornePosition { altitude, odd, lat_cpr, lon_cpr } && odd == (
        msg_bit(msg, 53) == 1) && lat_cpr == msg_bits(msg, 54, 17) && lon_cpr == msg_bits(
            msg,
            71,
            17,
        ) && match altitude {
            Some(a) => spec_ac12_altitude(msg) == Some(a as int),
            None => spec_ac12_altitude(msg) is None,
        }
    } else if tc == 19 {
        me matches MeFields::Velocity(v) && velocity_matches(msg, v)
    } else {
        me is Other
    }
}

/// Decode one Mode S frame to its integer fields. ME fields are read only
/// for DF17/18, which must be complete (14 bytes, 112 bits); other DFs give
/// the address and DF alone.
pub fn decode_fields(msg: &[u8], nbits: usize) -> (r: Option<FrameFields>)
    requires
        msg@.len() >= 4,
        spec_df(msg@) == 11 ==> msg@.len() >= 7,
        is_surveillance(spec_df(msg@)) ==> nbits / 8 <= msg@.len(),
    ensures
        ({
            let d = spec_df(msg@);
            if d != 17 && d != 18 {
                match r {
                    Some(f) => f.icao == spec_extract_icao(msg@, nbits as int) && f.df == d
                        && f.tc is None && f.me is None,
                    None => false,
                }
            } else if msg@.len() < 14 || nbits < 112 {
                r is None
            } else {
                match r {
                    Some(f) => f.icao == spec_extract_icao(msg@, nbits as int) && f.df == d && f.tc
                        == Some(msg_bits(msg@, 32, 5) as u8) && match f.me {
                        Some(me) => me_matches(msg@, msg_bits(msg@, 32, 5), me),
                        None => false,
                    },
                    None => false,
                }
            }
        }),
{
    let d = df(msg);
    let icao = extract_icao(msg, nbits);
    if d != 17 && d != 18 {
        return Some(FrameFields { icao, df: d, tc: None, me: None });
    }
    if msg.len() < 14 || nbits < 112 {
        return None;
    }
    proof {
        reveal_with_fuel(pow2_64, 6);
    }
    let tc = read_bits(msg, 32, 5);
    let me = if 1 <= tc && tc <= 4 {
        MeFields::Identification { callsign: decode_callsign(msg) }
    } else if 5 <= tc && tc <= 8 {
        let (odd, lat_cpr, lon_cpr) = parse_cpr_airborne_layout(msg);
        let (speed_eighths, track_raw) = decode_surface_movement(msg);
        MeFields::SurfacePosition { odd, lat_cpr, lon_cpr, speed_eighths, track_raw }
    } else if (9 <= tc && tc <= 18) || (20 <= tc && tc <= 22) {
        let altitude = decode_ac12_altitude(msg);
        let (odd, lat_cpr, lon_cpr) = parse_cpr_airborne_layout(msg);
        MeFields::AirbornePosition { altitude, odd, lat_cpr, lon_cpr }
    } else if tc == 19 {
        MeFields::Velocity(decode_velocity(msg))
    } else {
        MeFields::Other
    };
    Some(FrameFields { icao, df: d, tc: Some(tc as u8), me: Some(me) })
}


// ---------------------------------------------------------------- laws

/// Ground-speed velocity law (subtypes 1 and 2, both speed fields nonzero):
/// the east component has magnitude E/W field − 1 and the north component
/// N/S field − 1 (each ×4 for subtype 2); the east component is negative
/// exactly when the E/W direction bit (message bit 45, bit 2 of byte 5) is
/// set, the north component exactly when the S/N direction bit (message bit
/// 56, the top bit of byte 7) is set, each sign by its own bit alone.
pub proof fn lemma_ground_velocity(msg: Seq<u8>, r: VelocityFields)
    requires
        msg.len() >= 9,
        velocity_matches(msg, r),
        msg_bits(msg, 37, 3) == 1 || msg_bits(msg, 37, 3) == 2,
        msg_bits(msg, 46, 10) != 0,
        msg_bits(msg, 57, 10) != 0,
    ensures
        ({
            let k = if msg_bits(msg, 37, 3) == 2 { 4int } else { 1int };
            let me = k * (msg_bits(msg, 46, 10) - 1);
            let mn = k * (msg_bits(msg, 57, 10) - 1);
            &&& r matches VelocityFields::Ground { east, north }
            &&& east == (if msg_bit(msg, 45) == 1 { -me } else { me })
            &&& north == (if msg_bit(msg, 56) == 1 { -mn } else { mn })
            &&& me >= 0 && mn >= 0
            &&& (north < 0 <==> (msg[7] >= 128 && mn > 0))
            &&& (east < 0 <==> ((msg[5] / 4) % 2 == 1 && me > 0))
        }),
{
    lemma_msg_bits_bound(msg, 46, 10);
    lemma_msg_bits_bound(msg, 57, 10);
    assert(msg_bit(msg, 56) == (msg[7] as int / 128) % 2);
    assert(msg_bit(msg, 45) == (msg[5] as int / 4) % 2);
}

/// Airspeed velocity law (subtypes 3 and 4, airspeed field nonzero): the
/// speed is the airspeed field − 1 knots, and a heading is given exactly
/// when the heading status bit (message bit 45) is set, as the 10-bit field
/// that follows it.
pub proof fn lemma_air_velocity(msg: Seq<u8>, r: VelocityFields)
    requires
        msg.len() >= 9,
        velocity_matches(msg, r),
        msg_bits(msg, 37, 3) == 3 || msg_bits(msg, 37, 3) == 4,
        msg_bits(msg, 57, 10) != 0,
    ensures
        r matches VelocityFields::Air { speed, heading_raw } && speed == msg_bits(msg, 57, 10) - 1
            && (heading_raw is Some <==> msg_bit(msg, 45) == 1) && (heading_raw matches Some(h)
            ==> h == msg_bits(msg, 46, 10)),
{
    lemma_msg_bits_bound(msg, 46, 10);
    reveal_with_fuel(pow2_64, 11);
}

/// Surface movement law: code 1 is standstill and each following code up to
/// 124 adds a fixed quantum that depends on its band, continuously across
/// band edges: 1/8 kt up to code 9, 1/4 kt up to 13, 1/2 kt up to 39, 1 kt up
/// to 94, 2 kt up to 109 and 5 kt up to 124 (175 kt). Code 0 and codes above
/// 124 carry no speed.
pub proof fn lemma_movement_steps()
    ensures
        movement_eighths(1) == Some(0int),
        forall|m: int| 1 <= m <= 124 ==> #[trigger] movement_eighths(m) is Some,
        forall|m: int| (m <= 0 || m > 124) ==> #[trigger] movement_eighths(m) is None,
        forall|m: int|
            1 <= m < 124 ==> #[trigger] movement_eighths(m + 1) == Some(
                movement_eighths(m).unwrap() + (if m < 9 {
                    1int
                } else if m < 13 {
                    2int
                } else if m < 39 {
                    4int
                } else if m < 94 {
                    8int
                } else if m < 109 {
                    16int
                } else {
                    40int
                }),
            ),
        movement_eighths(124) == Some(1400int),
{
}

/// AIS character law: index 0 (`@`, padding) and index 32 read as a space,
/// indices 1..=26 are the letters `A`..=`Z` in order, 48..=57 the digits
/// `0`..=`9` in order, 27..=31 are `[` `\` `]` `^` `_`, and every index from
/// 32 on is the ASCII character with that code.
pub proof fn lemma_ais_chars()
    ensures
        ais_char(0) == ' ',
        ais_char(32) == ' ',
        forall|i: int| 1 <= i <= 26 ==> #[trigger] ais_char(i) as int == 'A' as int + (i - 1),
        forall|d: int| 0 <= d <= 9 ==> #[trigger] ais_char(48 + d) as int == '0' as int + d,
        forall|i: int| 32 <= i < 64 ==> #[trigger] ais_char(i) as int == i,
        forall|i: int| 27 <= i <= 31 ==> #[trigger] ais_char(i) as int == '[' as int + (i - 27),
        forall|i: int| 0 <= i < 64 ==> #[trigger] ais_char(i) as int != '@' as int,
{
    assert forall|i: int| 32 <= i < 64 implies #[trigger] ais_char(i) as int == i by {}
    assert forall|d: int| 0 <= d <= 9 implies #[trigger] ais_char(48 + d) as int == '0' as int + d by {
        assert(ais_char(48 + d) as int == 48 + d);
    }
}

/// Callsign law: each of the eight identification characters is the AIS
/// character of its own 6-bit group (ME bits 8 + 6k), whatever the others
/// hold; the callsign returned is that text without surrounding spaces.
pub proof fn lemma_callsign_chars(msg: Seq<u8>)
    ensures
        forall|k: int| 0 <= k < 8 ==> #[trigger] callsign_raw(msg)[k] == ais_char(msg_bits(msg, 40 + 6 * k, 6)),
        callsign_raw(msg).len() == 8,
        spec_callsign(msg) matches Some(t) ==> t.len() > 0 && t[0] != ' ' && t.last() != ' ',
{
    let t = trim_end(trim_start(callsign_raw(msg)));
    lemma_trim_start_first(callsign_raw(msg));
    lemma_trim_end_last(trim_start(callsign_raw(msg)));
}

proof fn lemma_trim_start_first(s: Seq<char>)
    ensures
        trim_start(s).len() > 0 ==> trim_start(s)[0] != ' ',
        exists|a: int| 0 <= a <= s.len() && trim_start(s) == s.subrange(a, s.len() as int),
    decreases s.len(),
{
    if s.len() > 0 && s[0] == ' ' {
        lemma_trim_start_first(s.drop_first());
        let a = choose|a: int| 0 <= a <= s.drop_first().len() && trim_start(s.drop_first()) == s.drop_first().subrange(a, s.drop_first().len() as int);
        assert(s.drop_first().subrange(a, s.drop_first().len() as int) =~= s.subrange(a + 1, s.len() as int));
    } else {
        assert(s.subrange(0, s.len() as int) =~= s);
    }
}

proof fn lemma_trim_end_last(s: Seq<char>)
    ensures
        trim_end(s).len() > 0 ==> trim_end(s).last() != ' ',
        trim_end(s).len() > 0 ==> trim_end(s)[0] == s[0],
    decreases s.len(),
{
    if s.len() > 0 && s.last() == ' ' {
        lemma_trim_end_last(s.drop_last());
    }
}


/// Bits `f .. f + n + k` are bits `f .. f + n` followed by bits
/// `f + n .. f + n + k`.
proof fn lemma_msg_bits_concat(msg: Seq<u8>, f: int, n: nat, k: nat)
    ensures
        msg_bits(msg, f, n + k) == msg_bits(msg, f, n) * pow2_64(k) + msg_bits(msg, f + n, k),
    decreases k,
{
    if k == 0 {
        assert(msg_bits(msg, f, n) * 1 == msg_bits(msg, f, n));
    } else {
        let k1 = (k - 1) as nat;
        lemma_msg_bits_concat(msg, f, n, k1);
        assert((n + k1 + 1) as nat == n + k);
        let x = msg_bits(msg, f, n);
        let p = pow2_64(k1);
        assert(2 * (x * p) == x * (2 * p)) by (nonlinear_arith);
        assert(msg_bits(msg, f + n, k) == 2 * msg_bits(msg, f + n, k1) + msg_bit(msg, f + n + k - 1));
    }
}

/// The eight bits of byte `i` are the byte.
proof fn lemma_msg_byte(msg: Seq<u8>, i: int)
    requires
        0 <= i,
    ensures
        msg_bits(msg, 8 * i, 8) == msg[i] as int,
{
    reveal_with_fuel(msg_bits, 9);
    let b = msg[i];
    assert(msg_bit(msg, 8 * i) == (b as int / 128) % 2);
    assert(msg_bit(msg, 8 * i + 1) == (b as int / 64) % 2);
    assert(msg_bit(msg, 8 * i + 2) == (b as int / 32) % 2);
    assert(msg_bit(msg, 8 * i + 3) == (b as int / 16) % 2);
    assert(msg_bit(msg, 8 * i + 4) == (b as int / 8) % 2);
    assert(msg_bit(msg, 8 * i + 5) == (b as int / 4) % 2);
    assert(msg_bit(msg, 8 * i + 6) == (b as int / 2) % 2);
    assert(msg_bit(msg, 8 * i + 7) == (b as int / 1) % 2);
    assert(((((((((b / 128) % 2) * 2 + (b / 64) % 2) * 2 + (b / 32) % 2) * 2 + (b / 16) % 2) * 2 + (b
        / 8) % 2) * 2 + (b / 4) % 2) * 2 + (b / 2) % 2) * 2 + (b / 1) % 2 == b) by (bit_vector);
}


proof fn lemma_bits1(msg: Seq<u8>, f: int)
    ensures
        msg_bits(msg, f, 1) == msg_bit(msg, f),
        0 <= msg_bit(msg, f) <= 1,
{
    reveal_with_fuel(msg_bits, 2);
}

proof fn lemma_pow2_small()
    ensures
        pow2_64(1) == 2,
        pow2_64(2) == 4,
        pow2_64(3) == 8,
        pow2_64(4) == 16,
        pow2_64(5) == 32,
        pow2_64(7) == 128,
        pow2_64(8) == 256,
        pow2_64(15) == 0x8000,
        pow2_64(16) == 0x1_0000,
{
    reveal_with_fuel(pow2_64, 17);
}

proof fn lemma_byte4(msg: Seq<u8>)
    ensures
        msg_bits(msg, 32, 5) == msg[4] as int / 8,
        msg_bits(msg, 37, 3) == msg[4] as int % 8,
{
    lemma_pow2_small();
    lemma_msg_byte(msg, 4);
    lemma_msg_bits_concat(msg, 32, 5, 3);
    lemma_msg_bits_bound(msg, 37, 3);
    lemma_msg_bits_bound(msg, 32, 5);
}

proof fn lemma_byte5(msg: Seq<u8>)
    ensures
        msg_bits(msg, 40, 4) == msg[5] as int / 16,
        msg_bits(msg, 40, 7) == msg[5] as int / 2,
        msg_bit(msg, 44) == (msg[5] as int / 8) % 2,
        msg_bit(msg, 45) == (msg[5] as int / 4) % 2,
        msg_bit(msg, 47) == msg[5] as int % 2,
        msg_bits(msg, 45, 3) == msg[5] as int % 8,
        msg_bits(msg, 46, 2) == msg[5] as int % 4,
        msg_bits(msg, 40, 8) == msg[5] as int,
{
    lemma_pow2_small();
    lemma_msg_byte(msg, 5);
    lemma_msg_bits_concat(msg, 40, 4, 4);
    lemma_msg_bits_bound(msg, 44, 4);
    lemma_msg_bits_bound(msg, 40, 4);
    lemma_msg_bits_concat(msg, 40, 5, 3);
    lemma_msg_bits_bound(msg, 45, 3);
    lemma_msg_bits_bound(msg, 40, 5);
    lemma_msg_bits_concat(msg, 40, 6, 2);
    lemma_msg_bits_bound(msg, 46, 2);
    lemma_msg_bits_bound(msg, 40, 6);
    lemma_msg_bits_concat(msg, 40, 7, 1);
    lemma_bits1(msg, 47);
    lemma_msg_bits_bound(msg, 40, 7);
    assert(msg_bit(msg, 44) == (msg[5] as int / 8) % 2);
    assert(msg_bit(msg, 45) == (msg[5] as int / 4) % 2);
}

proof fn lemma_byte6(msg: Seq<u8>)
    ensures
        msg_bits(msg, 48, 4) == msg[6] as int / 16,
        msg_bits(msg, 54, 2) == msg[6] as int % 4,
        msg_bit(msg, 53) == (msg[6] as int / 4) % 2,
        msg_bits(msg, 48, 8) == msg[6] as int,
{
    lemma_pow2_small();
    lemma_msg_byte(msg, 6);
    lemma_msg_bits_concat(msg, 48, 4, 4);
    lemma_msg_bits_bound(msg, 52, 4);
    lemma_msg_bits_bound(msg, 48, 4);
    lemma_msg_bits_concat(msg, 48, 6, 2);
    lemma_msg_bits_bound(msg, 54, 2);
    lemma_msg_bits_bound(msg, 48, 6);
    assert(msg_bit(msg, 53) == (msg[6] as int / 4) % 2);
}

proof fn lemma_byte7(msg: Seq<u8>)
    ensures
        msg_bit(msg, 56) == msg[7] as int / 128,
        msg_bits(msg, 57, 7) == msg[7] as int % 128,
        msg_bits(msg, 56, 8) == msg[7] as int,
{
    lemma_pow2_small();
    lemma_msg_byte(msg, 7);
    lemma_msg_bits_concat(msg, 56, 1, 7);
    lemma_bits1(msg, 56);
    lemma_msg_bits_bound(msg, 57, 7);
}

proof fn lemma_byte8(msg: Seq<u8>)
    ensures
        msg_bits(msg, 64, 3) == msg[8] as int / 32,
        msg_bits(msg, 64, 7) == msg[8] as int / 2,
        msg_bits(msg, 71, 1) == msg[8] as int % 2,
{
    lemma_pow2_small();
    lemma_msg_byte(msg, 8);
    lemma_msg_bits_concat(msg, 64, 3, 5);
    lemma_msg_bits_bound(msg, 67, 5);
    lemma_msg_bits_bound(msg, 64, 3);
    lemma_msg_bits_concat(msg, 64, 7, 1);
    lemma_bits1(msg, 71);
    lemma_msg_bits_bound(msg, 64, 7);
}

/// Where the ME fields sit in the message bytes (ME = bytes 4..11).
pub proof fn lemma_me_fields_bytes(msg: Seq<u8>)
    requires
        msg.len() >= 11,
    ensures
        msg_bits(msg, 32, 5) == msg[4] as int / 8,
        msg_bits(msg, 37, 3) == msg[4] as int % 8,
        msg_bits(msg, 37, 7) == (msg[4] as int % 8) * 16 + msg[5] as int / 16,
        msg_bits(msg, 40, 7) == msg[5] as int / 2,
        msg_bits(msg, 40, 12) == msg[5] as int * 16 + msg[6] as int / 16,
        msg_bit(msg, 44) == (msg[5] as int / 8) % 2,
        msg_bit(msg, 45) == (msg[5] as int / 4) % 2,
        msg_bits(msg, 45, 7) == (msg[5] as int % 8) * 16 + msg[6] as int / 16,
        msg_bits(msg, 46, 10) == (msg[5] as int % 4) * 256 + msg[6] as int,
        msg_bit(msg, 47) == msg[5] as int % 2,
        msg_bits(msg, 48, 4) == msg[6] as int / 16,
        msg_bit(msg, 53) == (msg[6] as int / 4) % 2,
        msg_bits(msg, 54, 17) == (msg[6] as int % 4) * 0x8000 + msg[7] as int * 128 + msg[8] as int
            / 2,
        msg_bit(msg, 56) == msg[7] as int / 128,
        msg_bits(msg, 57, 10) == (msg[7] as int % 128) * 8 + msg[8] as int / 32,
        msg_bits(msg, 71, 17) == (msg[8] as int % 2) * 0x1_0000 + msg[9] as int * 256 + msg[10] as int,
{
    lemma_pow2_small();
    lemma_byte4(msg);
    lemma_byte5(msg);
    lemma_byte6(msg);
    lemma_byte7(msg);
    lemma_byte8(msg);
    lemma_msg_byte(msg, 9);
    lemma_msg_byte(msg, 10);
    lemma_msg_bits_concat(msg, 37, 3, 4);
    lemma_msg_bits_concat(msg, 40, 8, 4);
    lemma_msg_bits_concat(msg, 45, 3, 4);
    lemma_msg_bits_concat(msg, 46, 2, 8);
    lemma_msg_bits_concat(msg, 54, 2, 15);
    lemma_msg_bits_concat(msg, 56, 8, 7);
    lemma_msg_bits_concat(msg, 57, 7, 3);
    lemma_msg_bits_concat(msg, 71, 1, 16);
    lemma_msg_bits_concat(msg, 72, 8, 8);
}


/// Altitude law: the 25 ft encoding is selected by the Q bit (bit 0 of
/// byte 5); the altitude is then 25 ft per unit of the 11-bit number formed
/// by the seven bits above Q and the top four bits of byte 6, counted from
/// −1000 ft. With Q clear nothing is decoded.
pub proof fn lemma_altitude_bytes(msg: Seq<u8>)
    ensures
        spec_ac12_altitude(msg) == (if msg[5] % 2 == 0 {
            None
        } else {
            Some(((msg[5] as int / 2) * 16 + msg[6] as int / 16) * 25 - 1000)
        }),
{
    lemma_pow2_small();
    lemma_byte5(msg);
    lemma_byte6(msg);
    lemma_msg_bits_concat(msg, 40, 8, 4);
    lemma_msg_bits_concat(msg, 40, 7, 5);
    assert(msg_bits(msg, 40, 12) == msg[5] as int * 16 + msg[6] as int / 16);
}

/// ME content law (DF17/18): the type code is the top five bits of byte 4,
/// and it selects the content. Identification for 1–4; surface position for
/// 5–8, with the movement code in bits 2..0 of byte 4 and 7..4 of byte 5,
/// a track exactly when bit 3 of byte 5 is set (then bits 2..0 of byte 5 and
/// 7..4 of byte 6); airborne position for 9–18 and 20–22, with the altitude
/// of [`lemma_altitude_bytes`]; velocity for 19; nothing else otherwise.
/// Both position kinds carry the CPR format bit (bit 2 of byte 6) and the
/// 17-bit latitude (bits 1..0 of byte 6, byte 7, bits 7..1 of byte 8) and
/// longitude (bit 0 of byte 8, bytes 9 and 10).
pub proof fn lemma_me_content_bytes(msg: Seq<u8>, me: MeFields)
    requires
        msg.len() >= 11,
        me_matches(msg, msg_bits(msg, 32, 5), me),
    ensures
        ({
            let tc = msg[4] as int / 8;
            let odd = (msg[6] as int / 4) % 2 == 1;
            let lat = (msg[6] as int % 4) * 0x8000 + msg[7] as int * 128 + msg[8] as int / 2;
            let lon = (msg[8] as int % 2) * 0x1_0000 + msg[9] as int * 256 + msg[10] as int;
            &&& (1 <= tc <= 4 ==> me is Identification)
            &&& (5 <= tc <= 8 ==> match me {
                MeFields::SurfacePosition { odd: o, lat_cpr, lon_cpr, speed_eighths, track_raw } => {
                    &&& o == odd
                    &&& lat_cpr == lat
                    &&& lon_cpr == lon
                    &&& match speed_eighths {
                        Some(v) => movement_eighths((msg[4] as int % 8) * 16 + msg[5] as int / 16)
                            == Some(v as int),
                        None => movement_eighths((msg[4] as int % 8) * 16 + msg[5] as int / 16) is None,
                    }
                    &&& match track_raw {
                        Some(t) => (msg[5] as int / 8) % 2 == 1 && t == (msg[5] as int % 8) * 16
                            + msg[6] as int / 16,
                        None => (msg[5] as int / 8) % 2 == 0,
                    }
                },
                _ => false,
            })
            &&& ((9 <= tc <= 18 || 20 <= tc <= 22) ==> match me {
                MeFields::AirbornePosition { altitude, odd: o, lat_cpr, lon_cpr } => {
                    &&& o == odd
                    &&& lat_cpr == lat
                    &&& lon_cpr == lon
                    &&& match altitude {
                        Some(a) => msg[5] % 2 == 1 && a == ((msg[5] as int / 2) * 16 + msg[6] as int
                            / 16) * 25 - 1000,
                        None => msg[5] % 2 == 0,
                    }
                },
                _ => false,
            })
            &&& (tc == 19 ==> me is Velocity)
            &&& ((tc == 0 || tc > 22) ==> me is Other)
        }),
{
    lemma_me_fields_bytes(msg);
    lemma_altitude_bytes(msg);
}

} // verus!
