//! Mode S / ADS-B receiver logic: CRC and framing, IQ magnitude, preamble
//! demodulation, chunked streaming, ME-field extraction, track and stats
//! bookkeeping.
pub mod mode_s;
pub mod text;
pub mod demod;
pub mod chunking;
pub mod iq;
pub mod pipeline;
pub mod adsb;
pub mod sink;
pub mod frame;
pub mod timeline;
