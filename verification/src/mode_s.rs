//! Mode S framing: downlink format, ICAO address, CRC-24 and DF11 repair.
use vstd::prelude::*;

verus! {

/// Generator step of the Mode S CRC: shift left one bit and, when bit 24
/// comes up, xor in the generator polynomial (0xFFF409).
pub open spec fn crc_shift(crc: u32) -> u32 {
    let c = crc << 1u32;
    if c & 0x100_0000u32 != 0 {
        c ^ 0xFF_F409u32
    } else {
        c
    }
}

/// `n` generator steps.
pub open spec fn crc_steps(crc: u32, n: nat) -> u32
    decreases n,
{
    if n == 0 {
        crc
    } else {
        crc_shift(crc_steps(crc, (n - 1) as nat))
    }
}

/// Feeding one message byte into the CRC register.
pub open spec fn crc_feed(crc: u32, byte: u8) -> u32 {
    crc_steps(crc ^ ((byte as u32) << 16u32), 8)
}

/// The CRC register after feeding all of `bytes`, starting from zero.
pub open spec fn crc_register(bytes: Seq<u8>) -> u32
    decreases bytes.len(),
{
    if bytes.len() == 0 {
        0
    } else {
        crc_feed(crc_register(bytes.drop_last()), bytes.last())
    }
}

/// Mode S CRC-24 residual over the first `nbits / 8` bytes of `msg`
/// (parity field included). A valid DF17/18 frame has residual 0.
pub open spec fn spec_crc24(msg: Seq<u8>, nbits: int) -> u32 {
    crc_register(msg.take(nbits / 8)) & 0xFF_FFFFu32
}

/// Mode S CRC-24 over the full message (including PI). Valid DF17 → 0.
pub fn crc24(msg: &[u8], nbits: usize) -> (r: u32)
    requires
        nbits / 8 <= msg@.len(),
    ensures
        r == spec_crc24(msg@, nbits as int),
        r < 0x100_0000,
{
    let nbytes = nbits / 8;
    let mut crc: u32 = 0;
    let mut i: usize = 0;
    while i < nbytes
        invariant
            nbytes == nbits / 8,
            nbytes <= msg@.len(),
            i <= nbytes,
            crc == crc_register(msg@.take(i as int)),
        decreases nbytes - i,
    {
        let byte = msg[i];
        let start: u32 = crc ^ ((byte as u32) << 16u32);
        crc = start;
        let mut k: usize = 0;
        while k < 8
            invariant
                k <= 8,
                crc == crc_steps(start, k as nat),
            decreases 8 - k,
        {
            crc = crc << 1u32;
            if (crc & 0x100_0000u32) != 0 {
                crc = crc ^ 0xFF_F409u32;
            }
            k = k + 1;
        }
        assert(msg@.take(i + 1).drop_last() =~= msg@.take(i as int));
        i = i + 1;
    }
    let r = crc & 0xFF_FFFFu32;
    assert(r < 0x100_0000) by (bit_vector)
        requires r == crc & 0xFF_FFFFu32;
    r
}


/// Surveillance replies whose parity field is overlaid with the address.
pub open spec fn is_surveillance(df: u8) -> bool {
    df == 0 || df == 4 || df == 5 || df == 16 || df == 20 || df == 21
}

/// The 24-bit parity field: the last three of the first `n` bytes.
pub open spec fn parity_field(msg: Seq<u8>, n: int) -> u32 {
    (msg[n - 3] as int * 0x1_0000 + msg[n - 2] as int * 0x100 + msg[n - 1] as int) as u32
}

/// Mode S residual of the first `nbits / 8` bytes: the CRC of the data
/// bytes (all but the last three) xored with the parity field. It is 0 for
/// an intact DF17/18 frame, the interrogator ID for a DF11 reply, and the
/// address for a reply whose parity field is overlaid with it (DF0/4/5/16/
/// 20/21). A buffer too short to hold a parity field has the CRC of all of
/// it as residual.
pub open spec fn spec_residual(msg: Seq<u8>, nbits: int) -> u32 {
    let n = nbits / 8;
    if n < 3 {
        spec_crc24(msg, nbits)
    } else {
        (crc_register(msg.take(n - 3)) & 0xFF_FFFFu32) ^ parity_field(msg, n)
    }
}

/// The Mode S residual: data CRC xored with the parity field.
pub fn residual(msg: &[u8], nbits: usize) -> (r: u32)
    requires
        nbits / 8 <= msg@.len(),
    ensures
        r == spec_residual(msg@, nbits as int),
        r < 0x100_0000,
{
    let n = nbits / 8;
    if n < 3 {
        return crc24(msg, nbits);
    }
    let data_bits = (n - 3) * 8;
    assert(data_bits / 8 == n - 3);
    let c = crc24(msg, data_bits);
    let a = msg[n - 3];
    let b = msg[n - 2];
    let d = msg[n - 1];
    let p = ((a as u32) << 16u32) | ((b as u32) << 8u32) | d as u32;
    assert(p == a as u32 * 0x1_0000 + b as u32 * 0x100 + d as u32 && p < 0x100_0000) by (bit_vector)
        requires p == ((a as u32) << 16u32) | ((b as u32) << 8u32) | d as u32;
    let r = c ^ p;
    assert(r < 0x100_0000) by (bit_vector)
        requires r == c ^ p, c < 0x100_0000, p < 0x100_0000;
    r
}

/// Downlink format: the top five bits of the first byte.
pub open spec fn spec_df(msg: Seq<u8>) -> u8 {
    msg[0] / 8
}

pub fn df(msg: &[u8]) -> (r: u8)
    requires
        msg@.len() >= 1,
    ensures
        r == spec_df(msg@),
        r < 32,
{
    let b = msg[0];
    let r = b >> 3u8;
    assert(r == b / 8 && r < 32) by (bit_vector)
        requires r == b >> 3u8;
    r
}

/// The 24-bit address/parity field carried in bytes 1..4 (big-endian).
pub open spec fn spec_icao_from_aa(msg: Seq<u8>) -> u32 {
    (msg[1] as int * 0x1_0000 + msg[2] as int * 0x100 + msg[3] as int) as u32
}

pub fn icao_from_aa(msg: &[u8]) -> (r: u32)
    requires
        msg@.len() >= 4,
    ensures
        r == spec_icao_from_aa(msg@),
        r < 0x100_0000,
{
    let a = msg[1];
    let b = msg[2];
    let c = msg[3];
    let r = ((a as u32) << 16u32) | ((b as u32) << 8u32) | c as u32;
    assert(r == a as u32 * 0x1_0000 + b as u32 * 0x100 + c as u32) by (bit_vector)
        requires r == ((a as u32) << 16u32) | ((b as u32) << 8u32) | c as u32;
    r
}

/// Lower-case hexadecimal digit for `d < 16`.
pub open spec fn hex_char(d: nat) -> char {
    if d < 10 {
        (d + 48) as char
    } else {
        (d + 87) as char
    }
}

/// The `n` lowest hexadecimal digits of `v`, most significant first.
pub open spec fn hex_text(v: nat, n: nat) -> Seq<char>
    decreases n,
{
    if n == 0 {
        Seq::empty()
    } else {
        hex_text(v / 16, (n - 1) as nat).push(hex_char(v % 16))
    }
}

fn hex_digit(d: u32) -> (c: char)
    requires
        d < 16,
    ensures
        c == hex_char(d as nat),
{
    if d < 10 {
        ((d + 48) as u8) as char
    } else {
        ((d + 87) as u8) as char
    }
}

fn push_hex(s: &mut String, v: u32, n: usize)
    ensures
        final(s)@ == old(s)@ + hex_text(v as nat, n as nat),
    decreases n,
{
    if n > 0 {
        push_hex(s, v / 16, n - 1);
        s.push(hex_digit(v % 16));
    }
}

/// Six lower-case hex digits of the 24-bit address (`{:06x}` of `addr & 0xFFFFFF`).
pub fn icao_hex(addr: u32) -> (r: String)
    ensures
        r@ == hex_text((addr % 0x100_0000) as nat, 6),
{
    let a = addr & 0xFF_FFFFu32;
    assert(a == addr % 0x100_0000) by (bit_vector)
        requires a == addr & 0xFF_FFFFu32;
    let mut s = String::new();
    push_hex(&mut s, a, 6);
    assert(s@ =~= hex_text(a as nat, 6));
    s
}

/// The DF11 residual is clean when only the 7-bit interrogator ID remains.
pub open spec fn iid_residual_ok(syn: u32) -> bool {
    syn & 0xFF_FF80u32 == 0
}

/// True when DF11 CRC residual is only the 7-bit interrogator ID.
pub fn df11_syndrome_iid_ok(syn: u32) -> (r: bool)
    ensures
        r == iid_residual_ok(syn),
{
    (syn & 0xFF_FF80u32) == 0
}


/// The first seven bytes of `msg` with message bit `bit` (0 = MSB of byte 0) flipped.
pub open spec fn flip_bit(msg: Seq<u8>, bit: int) -> Seq<u8> {
    let t = msg.take(7);
    t.update(bit / 8, t[bit / 8] ^ (1u8 << ((7 - bit % 8) as u8)))
}

/// Flipping `bit` leaves a DF11 residual that is only the interrogator ID.
pub open spec fn repair_ok(msg: Seq<u8>, bit: int) -> bool {
    iid_residual_ok(spec_residual(flip_bit(msg, bit), 56))
}

/// The first bit in `from..56` whose flip repairs the DF11 residual and whose
/// repaired address satisfies `pred`; 56 when there is none.
pub open spec fn first_repair(msg: Seq<u8>, from: int, pred: spec_fn(u32) -> bool) -> int
    decreases 56 - from,
{
    if from >= 56 {
        56
    } else if repair_ok(msg, from) && pred(spec_icao_from_aa(flip_bit(msg, from))) {
        from
    } else {
        first_repair(msg, from + 1, pred)
    }
}

/// Tries every single-bit flip of a DF11 frame in bit order and hands each one
/// whose residual is only the interrogator ID, with its address, to `f`;
/// stops at the first for which `f` answers `true` and returns that repair.
pub fn df11_for_each_1bit_repair<F: Fn(&[u8; 7], u32) -> bool>(msg: &[u8], f: F) -> (found: Option<([u8; 7], u32)>)
    requires
        forall|t: &[u8; 7], a: u32| #[trigger] f.requires((t, a)),
    ensures
        msg@.len() < 7 ==> found is None,
        found matches Some((t, aa)) ==> exists|bit: int| {
            &&& 0 <= bit < 56
            &&& #[trigger] flip_bit(msg@, bit) == t@
            &&& repair_ok(msg@, bit)
            &&& aa == spec_icao_from_aa(t@)
            &&& f.ensures((&t, aa), true)
            &&& forall|b: int, t2: [u8; 7]| #![trigger f.ensures((&t2, spec_icao_from_aa(t2@)), false), flip_bit(msg@, b)] 0 <= b < bit && repair_ok(msg@, b) && t2@ == flip_bit(msg@, b)
                ==> f.ensures((&t2, spec_icao_from_aa(t2@)), false)
        },
        found is None && msg@.len() >= 7 ==> forall|b: int, t2: [u8; 7]|
            #![trigger f.ensures((&t2, spec_icao_from_aa(t2@)), false), flip_bit(msg@, b)]
            0 <= b < 56 && repair_ok(msg@, b) && t2@ == flip_bit(msg@, b)
                ==> f.ensures((&t2, spec_icao_from_aa(t2@)), false),
{
    if msg.len() < 7 {
        return None;
    }
    let mut bit: usize = 0;
    while bit < 56
        invariant
            msg@.len() >= 7,
            bit <= 56,
            forall|t: &[u8; 7], a: u32| #[trigger] f.requires((t, a)),
            forall|b: int, t2: [u8; 7]| #![trigger f.ensures((&t2, spec_icao_from_aa(t2@)), false), flip_bit(msg@, b)] 0 <= b < bit && repair_ok(msg@, b) && t2@ == flip_bit(msg@, b)
                ==> f.ensures((&t2, spec_icao_from_aa(t2@)), false),
        decreases 56 - bit,
    {
        let idx = bit / 8;
        let mask: u8 = 1u8 << ((7 - bit % 8) as u8);
        let mut trial: [u8; 7] = [msg[0], msg[1], msg[2], msg[3], msg[4], msg[5], msg[6]];
        let flipped = trial[idx] ^ mask;
        trial[idx] = flipped;
        assert(trial@ =~= flip_bit(msg@, bit as int));
        let syn2 = residual(&trial, 56);
        if df11_syndrome_iid_ok(syn2) {
            let aa = icao_from_aa(&trial);
            let hit = f(&trial, aa);
            if hit {
                return Some((trial, aa));
            }
        }
        proof {
            assert forall|b: int, t2: [u8; 7]|
                #![trigger f.ensures((&t2, spec_icao_from_aa(t2@)), false), flip_bit(msg@, b)]
                0 <= b < bit + 1 && repair_ok(msg@, b) && t2@ == flip_bit(msg@, b)
                implies f.ensures((&t2, spec_icao_from_aa(t2@)), false) by {
                if b == bit {
                    assert(t2 =~= trial);
                }
            }
        }
        bit = bit + 1;
    }
    None
}

/// Integrity check for stats: DF17/18 residual 0; DF11 IID-only; surveillance
/// DFs are taken as checked upstream (address match against a known ICAO).
pub open spec fn spec_message_crc_ok(msg: Seq<u8>, nbits: int) -> bool {
    let syn = spec_residual(msg, nbits);
    let d = spec_df(msg);
    if d == 17 || d == 18 {
        syn == 0
    } else if d == 11 {
        iid_residual_ok(syn)
    } else {
        d == 0 || d == 4 || d == 5 || d == 16 || d == 20 || d == 21
    }
}

/// Integrity check for stats: DF17/18 residual 0; DF11 IID-only; surv DFs accepted
/// upstream via known-ICAO address match (PI == ICAO).
pub fn message_crc_ok(msg: &[u8], nbits: usize) -> (r: bool)
    requires
        msg@.len() >= 1,
        nbits / 8 <= msg@.len(),
    ensures
        r == spec_message_crc_ok(msg@, nbits as int),
{
    let syn = residual(msg, nbits);
    match df(msg) {
        17 | 18 => syn == 0,
        11 => df11_syndrome_iid_ok(syn),
        0 | 4 | 5 | 16 | 20 | 21 => true,
        _ => false,
    }
}

/// DF17/18 need residual 0; DF11 and the surveillance DFs were already
/// vetted by the demodulator; every other DF is refused.
pub open spec fn spec_accept_message(msg: Seq<u8>, nbits: int) -> bool {
    let d = spec_df(msg);
    if d == 17 || d == 18 {
        spec_residual(msg, nbits) == 0
    } else {
        d == 11 || d == 0 || d == 4 || d == 5 || d == 16 || d == 20 || d == 21
    }
}

/// Accept DF17/18 (CRC 0), DF11 (IID residual, possibly after demod 1-bit
/// repair), or DF0/4/5/16/20/21 when demod already matched a known ICAO.
pub fn accept_message(msg: &[u8], nbits: usize) -> (r: bool)
    requires
        msg@.len() >= 1,
        nbits / 8 <= msg@.len(),
    ensures
        r == spec_accept_message(msg@, nbits as int),
{
    let d = df(msg);
    let syn = residual(msg, nbits);
    match d {
        17 | 18 => syn == 0,
        11 => true,
        0 | 4 | 5 | 16 | 20 | 21 => true,
        _ => false,
    }
}

/// Whether a demodulated frame is emitted: it must be accepted, and unless
/// every downlink format is asked for, it must be ADS-B (DF17/18).
pub fn should_emit(msg: &[u8], nbits: usize, all_df: bool) -> (r: bool)
    requires
        msg@.len() >= 1,
        nbits / 8 <= msg@.len(),
    ensures
        r == (spec_accept_message(msg@, nbits as int) && (all_df || spec_df(msg@) == 17
            || spec_df(msg@) == 18)),
{
    if !accept_message(msg, nbits) {
        return false;
    }
    let d = df(msg);
    all_df || d == 17 || d == 18
}

/// Address of a DF11 reply: the AA field when the residual is clean, else the
/// AA of the first single-bit repair with a clean residual, else the raw AA.
pub open spec fn spec_df11_addr(msg: Seq<u8>) -> u32 {
    if iid_residual_ok(spec_residual(msg, 56)) {
        spec_icao_from_aa(msg)
    } else {
        let b = first_repair(msg, 0, |a: u32| true);
        if b < 56 {
            spec_icao_from_aa(flip_bit(msg, b))
        } else {
            spec_icao_from_aa(msg)
        }
    }
}

/// The ICAO address a frame speaks for: DF11 from its (repaired) AA field,
/// DF17/18 from AA, the surveillance DFs from the address/parity residual.
pub open spec fn spec_extract_icao(msg: Seq<u8>, nbits: int) -> u32 {
    let d = spec_df(msg);
    if d == 11 {
        spec_df11_addr(msg)
    } else if d == 0 || d == 4 || d == 5 || d == 16 || d == 20 || d == 21 {
        spec_residual(msg, nbits)
    } else {
        spec_icao_from_aa(msg)
    }
}

/// `first_repair` is the bit `bit` when every earlier repaired candidate
/// fails `pred` and `bit` itself passes; it is 56 when all fail.
proof fn lemma_first_repair(msg: Seq<u8>, from: int, bit: int, pred: spec_fn(u32) -> bool)
    requires
        0 <= from <= bit <= 56,
        forall|b: int| from <= b < bit && repair_ok(msg, b) ==> !pred(#[trigger] spec_icao_from_aa(flip_bit(msg, b))),
        bit < 56 ==> repair_ok(msg, bit) && pred(spec_icao_from_aa(flip_bit(msg, bit))),
    ensures
        first_repair(msg, from, pred) == bit,
    decreases bit - from,
{
    if from < bit {
        lemma_first_repair(msg, from + 1, bit, pred);
    }
}

/// The array holding the first seven bytes of `s`.
spec fn to_array7(s: Seq<u8>) -> [u8; 7] {
    [s[0], s[1], s[2], s[3], s[4], s[5], s[6]]
}

proof fn lemma_to_array7(s: Seq<u8>)
    requires
        s.len() == 7,
    ensures
        to_array7(s)@ == s,
{
    assert(to_array7(s)@ =~= s);
}

/// What the repair search returns, read through a callback that answers
/// exactly `pred` of the repaired address.
pub(crate) proof fn lemma_repair_search<F: Fn(&[u8; 7], u32) -> bool>(
    msg: Seq<u8>,
    f: F,
    pred: spec_fn(u32) -> bool,
    found: Option<([u8; 7], u32)>,
)
    requires
        msg.len() >= 7,
        forall|t: &[u8; 7], a: u32, r: bool| f.ensures((t, a), r) ==> r == pred(a),
        found matches Some((t, aa)) ==> exists|bit: int| {
            &&& 0 <= bit < 56
            &&& #[trigger] flip_bit(msg, bit) == t@
            &&& repair_ok(msg, bit)
            &&& aa == spec_icao_from_aa(t@)
            &&& f.ensures((&t, aa), true)
            &&& forall|b: int, t2: [u8; 7]| #![trigger f.ensures((&t2, spec_icao_from_aa(t2@)), false), flip_bit(msg, b)] 0 <= b < bit && repair_ok(msg, b) && t2@ == flip_bit(msg, b)
                ==> f.ensures((&t2, spec_icao_from_aa(t2@)), false)
        },
        found is None ==> forall|b: int, t2: [u8; 7]|
            #![trigger f.ensures((&t2, spec_icao_from_aa(t2@)), false), flip_bit(msg, b)]
            0 <= b < 56 && repair_ok(msg, b) && t2@ == flip_bit(msg, b)
                ==> f.ensures((&t2, spec_icao_from_aa(t2@)), false),
    ensures
        found matches Some((t, aa)) ==> {
            &&& first_repair(msg, 0, pred) < 56
            &&& t@ == flip_bit(msg, first_repair(msg, 0, pred))
            &&& aa == spec_icao_from_aa(t@)
        },
        found is None ==> first_repair(msg, 0, pred) == 56,
{
    let limit: int = match found {
        Some((t, aa)) => choose|bit: int| {
            &&& 0 <= bit < 56
            &&& #[trigger] flip_bit(msg, bit) == t@
            &&& repair_ok(msg, bit)
            &&& aa == spec_icao_from_aa(t@)
            &&& f.ensures((&t, aa), true)
            &&& forall|b: int, t2: [u8; 7]| #![trigger f.ensures((&t2, spec_icao_from_aa(t2@)), false), flip_bit(msg, b)] 0 <= b < bit && repair_ok(msg, b) && t2@ == flip_bit(msg, b)
                ==> f.ensures((&t2, spec_icao_from_aa(t2@)), false)
        },
        None => 56,
    };
    assert forall|b: int| 0 <= b < limit && repair_ok(msg, b) implies !pred(
        #[trigger] spec_icao_from_aa(flip_bit(msg, b)),
    ) by {
        let t2 = to_array7(flip_bit(msg, b));
        lemma_to_array7(flip_bit(msg, b));
        assert(f.ensures((&t2, spec_icao_from_aa(t2@)), false));
    }
    lemma_first_repair(msg, 0, limit, pred);
}

/// The ICAO address a frame speaks for (see [`spec_extract_icao`]).
pub fn extract_icao(msg: &[u8], nbits: usize) -> (r: u32)
    requires
        msg@.len() >= 4,
        spec_df(msg@) == 11 ==> msg@.len() >= 7,
        is_surveillance(spec_df(msg@)) ==> nbits / 8 <= msg@.len(),
    ensures
        r == spec_extract_icao(msg@, nbits as int),
{
    match df(msg) {
        11 => df11_addr(msg),
        17 | 18 => icao_from_aa(msg),
        0 | 4 | 5 | 16 | 20 | 21 => residual(msg, nbits),
        _ => icao_from_aa(msg),
    }
}

fn df11_addr(msg: &[u8]) -> (r: u32)
    requires
        msg@.len() >= 7,
    ensures
        r == spec_df11_addr(msg@),
{
    let syn = residual(msg, 56);
    if df11_syndrome_iid_ok(syn) {
        return icao_from_aa(msg);
    }
    let always = |trial: &[u8; 7], aa: u32| -> (r: bool) ensures r == true { true };
    let found = df11_for_each_1bit_repair(msg, always);
    proof {
        lemma_repair_search(msg@, always, |a: u32| true, found);
    }
    match found {
        Some((trial, _aa)) => icao_from_aa(&trial),
        None => icao_from_aa(msg),
    }
}


/// Every message that passes the stats integrity check is accepted.
pub proof fn lemma_crc_ok_accepted(msg: Seq<u8>, nbits: int)
    requires
        spec_message_crc_ok(msg, nbits),
    ensures
        spec_accept_message(msg, nbits),
{
}

/// The parity bytes (big-endian) of a 24-bit register value.
pub open spec fn parity_bytes(p: u32) -> Seq<u8> {
    seq![((p / 0x1_0000) % 0x100) as u8, ((p / 0x100) % 0x100) as u8, (p % 0x100) as u8]
}

proof fn lemma_feed_top_byte(c: u32)
    ensures
        crc_feed(c, ((c & 0xFF_FFFFu32) >> 16u32) as u8) & 0xFF_FFFFu32 == (c << 8u32) & 0xFF_FFFFu32,
{
    let b = ((c & 0xFF_FFFFu32) >> 16u32) as u8;
    let s0 = c ^ ((b as u32) << 16u32);
    assert(s0 & 0xFF_0000u32 == 0 && s0 & 0xFFFFu32 == c & 0xFFFFu32) by (bit_vector)
        requires s0 == c ^ ((b as u32) << 16u32), b == ((c & 0xFF_FFFFu32) >> 16u32) as u8;
    reveal_with_fuel(crc_steps, 9);
    let s1 = crc_shift(s0);
    let s2 = crc_shift(s1);
    let s3 = crc_shift(s2);
    let s4 = crc_shift(s3);
    let s5 = crc_shift(s4);
    let s6 = crc_shift(s5);
    let s7 = crc_shift(s6);
    let s8 = crc_shift(s7);
    assert(crc_steps(s0, 8) == s8);
    assert(s8 & 0xFF_FFFFu32 == (c << 8u32) & 0xFF_FFFFu32) by (bit_vector)
        requires
            s0 & 0xFF_0000u32 == 0,
            s0 & 0xFFFFu32 == c & 0xFFFFu32,
            s1 == (if (s0 << 1u32) & 0x100_0000u32 != 0 { (s0 << 1u32) ^ 0xFF_F409u32 } else { s0 << 1u32 }),
            s2 == (if (s1 << 1u32) & 0x100_0000u32 != 0 { (s1 << 1u32) ^ 0xFF_F409u32 } else { s1 << 1u32 }),
            s3 == (if (s2 << 1u32) & 0x100_0000u32 != 0 { (s2 << 1u32) ^ 0xFF_F409u32 } else { s2 << 1u32 }),
            s4 == (if (s3 << 1u32) & 0x100_0000u32 != 0 { (s3 << 1u32) ^ 0xFF_F409u32 } else { s3 << 1u32 }),
            s5 == (if (s4 << 1u32) & 0x100_0000u32 != 0 { (s4 << 1u32) ^ 0xFF_F409u32 } else { s4 << 1u32 }),
            s6 == (if (s5 << 1u32) & 0x100_0000u32 != 0 { (s5 << 1u32) ^ 0xFF_F409u32 } else { s5 << 1u32 }),
            s7 == (if (s6 << 1u32) & 0x100_0000u32 != 0 { (s6 << 1u32) ^ 0xFF_F409u32 } else { s6 << 1u32 }),
            s8 == (if (s7 << 1u32) & 0x100_0000u32 != 0 { (s7 << 1u32) ^ 0xFF_F409u32 } else { s7 << 1u32 }),
    ;
}

/// Appending the residual of a message as its parity field leaves a zero
/// residual: the parity that `crc24` computes over the data is the one that
/// validates the frame (as a DF17/18 encoder appends it).
pub proof fn lemma_parity_validates(data: Seq<u8>)
    ensures
        spec_crc24(
            data + parity_bytes(crc_register(data) & 0xFF_FFFFu32),
            (8 * (data.len() + 3)) as int,
        ) == 0,
{
    let r = crc_register(data);
    let p = r & 0xFF_FFFFu32;
    let full = data + parity_bytes(p);
    assert(full.take(full.len() as int) =~= full);
    assert(full.drop_last().drop_last().drop_last() =~= data);
    assert((8 * (data.len() + 3)) / 8 == data.len() + 3);
    let b0 = ((p / 0x1_0000) % 0x100) as u8;
    let b1 = ((p / 0x100) % 0x100) as u8;
    let b2 = (p % 0x100) as u8;
    assert(full.drop_last().drop_last() =~= data.push(b0));
    assert(full.drop_last() =~= data.push(b0).push(b1));
    assert(b0 == ((r & 0xFF_FFFFu32) >> 16u32) as u8) by (bit_vector)
        requires p == r & 0xFF_FFFFu32, b0 == ((p / 0x1_0000) % 0x100) as u8;
    lemma_feed_top_byte(r);
    let c1 = crc_feed(r, b0);
    assert(b1 == ((c1 & 0xFF_FFFFu32) >> 16u32) as u8) by (bit_vector)
        requires
            c1 & 0xFF_FFFFu32 == (r << 8u32) & 0xFF_FFFFu32,
            p == r & 0xFF_FFFFu32,
            b1 == ((p / 0x100) % 0x100) as u8;
    lemma_feed_top_byte(c1);
    let c2 = crc_feed(c1, b1);
    assert(b2 == ((c2 & 0xFF_FFFFu32) >> 16u32) as u8) by (bit_vector)
        requires
            c2 & 0xFF_FFFFu32 == (c1 << 8u32) & 0xFF_FFFFu32,
            c1 & 0xFF_FFFFu32 == (r << 8u32) & 0xFF_FFFFu32,
            p == r & 0xFF_FFFFu32,
            b2 == (p % 0x100) as u8;
    lemma_feed_top_byte(c2);
    let c3 = crc_feed(c2, b2);
    assert(c3 & 0xFF_FFFFu32 == 0) by (bit_vector)
        requires
            c3 & 0xFF_FFFFu32 == (c2 << 8u32) & 0xFF_FFFFu32,
            c2 & 0xFF_FFFFu32 == (c1 << 8u32) & 0xFF_FFFFu32,
            c1 & 0xFF_FFFFu32 == (r << 8u32) & 0xFF_FFFFu32;
    let d1 = data.push(b0);
    let d2 = d1.push(b1);
    assert(d1.drop_last() =~= data);
    assert(d2.drop_last() =~= d1);
    assert(crc_register(d1) == c1);
    assert(crc_register(d2) == c2);
    assert(full.last() == b2);
    assert(crc_register(full) == c3);
}


/// Residual law: a reply whose parity field is the data's parity xored with
/// a 24-bit value `q` has residual `q`. So an intact frame (`q == 0`) has
/// residual 0, a DF11 reply has its interrogator ID as residual, and a reply
/// that overlays its address on the parity has that address as residual.
pub proof fn lemma_residual_overlay(data: Seq<u8>, q: u32)
    requires
        q < 0x100_0000,
    ensures
        spec_residual(
            data + parity_bytes((crc_register(data) & 0xFF_FFFFu32) ^ q),
            (8 * (data.len() + 3)) as int,
        ) == q,
{
    let r = crc_register(data);
    let c = r & 0xFF_FFFFu32;
    let p = c ^ q;
    assert(c < 0x100_0000) by (bit_vector)
        requires c == r & 0xFF_FFFFu32;
    assert(p < 0x100_0000) by (bit_vector)
        requires p == c ^ q, c < 0x100_0000, q < 0x100_0000;
    let full = data + parity_bytes(p);
    let n: int = data.len() as int + 3;
    assert((8 * (data.len() + 3)) / 8 == n);
    assert(full.take(n - 3) =~= data);
    assert(full[n - 3] == ((p / 0x1_0000) % 0x100) as u8);
    assert(full[n - 2] == ((p / 0x100) % 0x100) as u8);
    assert(full[n - 1] == (p % 0x100) as u8);
    assert(parity_field(full, n) == p);
    assert(c ^ (c ^ q) == q) by (bit_vector);
}

/// Bytewise xor of two byte strings (as long as the shorter one).
pub open spec fn xor_bytes(a: Seq<u8>, b: Seq<u8>) -> Seq<u8> {
    Seq::new(if a.len() < b.len() { a.len() } else { b.len() }, |i: int| a[i] ^ b[i])
}

proof fn lemma_shift_xor(a: u32, b: u32)
    ensures
        crc_shift(a ^ b) == crc_shift(a) ^ crc_shift(b),
{
    let x = a ^ b;
    let sa = crc_shift(a);
    let sb = crc_shift(b);
    let sx = crc_shift(x);
    assert(sx == sa ^ sb) by (bit_vector)
        requires
            x == a ^ b,
            sa == (if (a << 1u32) & 0x100_0000u32 != 0 { (a << 1u32) ^ 0xFF_F409u32 } else { a << 1u32 }),
            sb == (if (b << 1u32) & 0x100_0000u32 != 0 { (b << 1u32) ^ 0xFF_F409u32 } else { b << 1u32 }),
            sx == (if (x << 1u32) & 0x100_0000u32 != 0 { (x << 1u32) ^ 0xFF_F409u32 } else { x << 1u32 }),
    ;
}

proof fn lemma_steps_xor(a: u32, b: u32, n: nat)
    ensures
        crc_steps(a ^ b, n) == crc_steps(a, n) ^ crc_steps(b, n),
    decreases n,
{
    if n > 0 {
        lemma_steps_xor(a, b, (n - 1) as nat);
        lemma_shift_xor(crc_steps(a, (n - 1) as nat), crc_steps(b, (n - 1) as nat));
    }
}

proof fn lemma_register_xor(a: Seq<u8>, b: Seq<u8>)
    requires
        a.len() == b.len(),
    ensures
        crc_register(xor_bytes(a, b)) == crc_register(a) ^ crc_register(b),
    decreases a.len(),
{
    let x = xor_bytes(a, b);
    if a.len() == 0 {
        assert(x.len() == 0);
        assert(0u32 ^ 0u32 == 0u32) by (bit_vector);
    } else {
        lemma_register_xor(a.drop_last(), b.drop_last());
        assert(x.drop_last() =~= xor_bytes(a.drop_last(), b.drop_last()));
        let ra = crc_register(a.drop_last());
        let rb = crc_register(b.drop_last());
        let ya = a.last();
        let yb = b.last();
        let yx = x.last();
        assert(yx == ya ^ yb);
        let sa = ra ^ ((ya as u32) << 16u32);
        let sb = rb ^ ((yb as u32) << 16u32);
        let sx = (ra ^ rb) ^ ((yx as u32) << 16u32);
        assert(sx == sa ^ sb) by (bit_vector)
            requires
                yx == ya ^ yb,
                sa == ra ^ ((ya as u32) << 16u32),
                sb == rb ^ ((yb as u32) << 16u32),
                sx == (ra ^ rb) ^ ((yx as u32) << 16u32),
        ;
        lemma_steps_xor(sa, sb, 8);
    }
}

proof fn lemma_steps_zero(n: nat)
    ensures
        crc_steps(0, n) == 0,
    decreases n,
{
    if n > 0 {
        lemma_steps_zero((n - 1) as nat);
        assert(crc_shift(0) == 0) by (bit_vector);
    }
}

proof fn lemma_register_zero(a: Seq<u8>)
    requires
        forall|i: int| 0 <= i < a.len() ==> a[i] == 0,
    ensures
        crc_register(a) == 0,
    decreases a.len(),
{
    if a.len() > 0 {
        lemma_register_zero(a.drop_last());
        lemma_steps_zero(8);
        assert(0u32 ^ ((0u8 as u32) << 16u32) == 0u32) by (bit_vector);
    }
}

/// CRC-24 laws: the result is a 24-bit value of the first `n / 8` bytes
/// alone; it is linear under bytewise xor; all-zero bytes give 0.
pub proof fn lemma_crc24_linear(a: Seq<u8>, b: Seq<u8>, n: int)
    requires
        0 <= n,
        n / 8 <= a.len(),
        n / 8 <= b.len(),
    ensures
        spec_crc24(a, n) < 0x100_0000,
        a.take(n / 8) == b.take(n / 8) ==> spec_crc24(a, n) == spec_crc24(b, n),
        spec_crc24(xor_bytes(a, b), n) == spec_crc24(a, n) ^ spec_crc24(b, n),
        (forall|i: int| 0 <= i < n / 8 ==> a[i] == 0) ==> spec_crc24(a, n) == 0,
{
    let k = n / 8;
    let ta = a.take(k);
    let tb = b.take(k);
    let x = xor_bytes(a, b);
    assert(x.take(k) =~= xor_bytes(ta, tb));
    lemma_register_xor(ta, tb);
    let ra = crc_register(ta);
    let rb = crc_register(tb);
    assert(((ra ^ rb) & 0xFF_FFFFu32) == (ra & 0xFF_FFFFu32) ^ (rb & 0xFF_FFFFu32)) by (bit_vector);
    assert((ra & 0xFF_FFFFu32) < 0x100_0000) by (bit_vector);
    if forall|i: int| 0 <= i < n / 8 ==> a[i] == 0 {
        lemma_register_zero(ta);
        assert(0u32 & 0xFF_FFFFu32 == 0) by (bit_vector);
    }
}

/// A message of zeros but for its very last bit has the generator
/// polynomial 0xFFF409 as CRC-24.
pub proof fn lemma_crc24_last_bit(k: nat)
    requires
        k >= 1,
    ensures
        spec_crc24(Seq::new(k, |i: int| if i == k - 1 { 1u8 } else { 0u8 }), (8 * k) as int)
            == 0xFF_F409u32,
{
    let m = Seq::new(k, |i: int| if i == k - 1 { 1u8 } else { 0u8 });
    assert((8 * k) / 8 == k);
    assert(m.take(k as int) =~= m);
    lemma_register_zero(m.drop_last());
    assert(m.last() == 1u8);
    let s0 = 0u32 ^ ((1u8 as u32) << 16u32);
    assert(s0 == 0x1_0000u32) by (bit_vector)
        requires s0 == 0u32 ^ ((1u8 as u32) << 16u32);
    reveal_with_fuel(crc_steps, 9);
    lemma_shift_small(0x1_0000u32);
    lemma_shift_small(0x2_0000u32);
    lemma_shift_small(0x4_0000u32);
    lemma_shift_small(0x8_0000u32);
    lemma_shift_small(0x10_0000u32);
    lemma_shift_small(0x20_0000u32);
    lemma_shift_small(0x40_0000u32);
    assert(crc_steps(0x1_0000u32, 7) == 0x80_0000u32);
    let c = crc_shift(0x80_0000u32);
    assert(c & 0xFF_FFFFu32 == 0xFF_F409u32) by (bit_vector)
        requires
            c == (if (0x80_0000u32 << 1u32) & 0x100_0000u32 != 0 {
                (0x80_0000u32 << 1u32) ^ 0xFF_F409u32
            } else {
                0x80_0000u32 << 1u32
            }),
    ;
}

proof fn lemma_shift_small(c: u32)
    requires
        c < 0x80_0000,
    ensures
        crc_shift(c) == c * 2,
{
    let s = crc_shift(c);
    assert(s == c * 2) by (bit_vector)
        requires
            c < 0x80_0000,
            s == (if (c << 1u32) & 0x100_0000u32 != 0 { (c << 1u32) ^ 0xFF_F409u32 } else { c << 1u32 }),
    ;
}

} // verus!
