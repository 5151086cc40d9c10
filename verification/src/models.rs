//! Plain data carried between the host and the protocol engines.

use vstd::prelude::*;

verus! {

/// Connection parameters for one port.  The numeric fields carry the codes
/// that `crate::config` validates and maps to their enumerations.
#[derive(Debug)]
pub struct SerialConfig {
    pub path: String,
    pub baud_rate: u32,
    pub data_bits: u32,
    pub flow_control: u32,
    pub parity: u32,
    pub stop_bits: u32,
    pub timeout: Option<u64>,
    pub protocol: String,
    pub can_bitrate: Option<String>,
    pub canfd_bitrate: Option<String>,
    pub canfd_data_bitrate: Option<String>,
}

/// Decoded text delivered to the host, tagged by port.
#[derive(Debug)]
pub struct SerialDataPayload {
    pub port: String,
    pub data: String,
}

/// A failure delivered to the host, tagged by port.
#[derive(Debug)]
pub struct SerialErrorPayload {
    pub port: String,
    pub error: String,
}

/// One read notification from the port driver.
#[derive(Debug)]
pub struct ReadDataResult {
    pub size: usize,
    pub data: Vec<u8>,
}

} // verus!
