//! Protocol-translation core for serial-attached embedded devices.
//!
//! From a single inbound byte stream the library frames and parses three
//! wire protocols -- line-oriented SimpleSerial, control-character-delimited
//! POESerial with a CRC-8 checksum, and a CAN/CAN-FD-over-serial dialect with
//! multi-frame reassembly -- and serialises outgoing commands in each of
//! them, including fragmentation of large payloads across CAN frames.

pub mod config;
pub mod crc;
pub mod external;
pub mod frame_codec;
pub mod hex;
pub mod logging;
pub mod models;
pub mod poe_canable;
pub mod poe_serial;
pub mod simple_serial;
