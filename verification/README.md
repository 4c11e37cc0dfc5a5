# adsb_decoder

A 1090 MHz Mode S / ADS-B receiver: SC16 IQ samples in, DF17/18 frames with
ICAO address, position, altitude, velocity and callsign out, plus per-aircraft
trajectories and mission statistics.

The receiver logic is a Verus-verified library:

| module            | what it holds                                                          |
|-------------------|------------------------------------------------------------------------|
| `src/mode_s.rs`   | CRC-24, parity residual, address extraction, DF11 single-bit repair    |
| `src/iq.rs`       | IQ → magnitude, an exact integer model of the single-precision path   |
| `src/demod.rs`    | preamble detection, 2.4 Msps bit slicing, candidate scoring, scanning  |
| `src/chunking.rs` | proofs that chunked and streamed scans equal the one-shot scan, for every buffer and chunk size |
| `src/pipeline.rs` | the chunked magnitude → demodulator stream                             |
| `src/timeline.rs` | proofs that every scan emits frames in time order                      |
| `src/adsb.rs`     | ME-field extraction (altitude, CPR fields, velocity, callsign)        |
| `src/frame.rs`    | per-ICAO track buffer                                                  |
| `src/sink.rs`     | decode statistics and their text summary                               |

`app/` is the command-line program around it: argument parsing, file input
(memory map and a reader thread), CPR position resolution and unit
conversion in floating point, and JSON / JSONL output.

Every function in `src/` is proved against its contract by Verus. The one
trusted statement is the specification of `String::push` in `src/text.rs`.
The tests under `tests/` exercise the compiled library on concrete inputs.
