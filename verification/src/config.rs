//! Connection-parameter codes, protocol routing, and the fixed command
//! sequences of port control: CAN bus initialisation and the modem-line
//! reset dance.  The host performs the writes and the waits; the decisions
//! are made here.

use vstd::prelude::*;

verus! {

use vstd::string::StringSliceAdditionalSpecFns;
use vstd::string::StrSliceExecFns;

/// Word length of one serial character.
#[derive(Clone, Copy, Debug, PartialEq, Eq, Structural)]
pub enum DataBits {
    Five,
    Six,
    Seven,
    Eight,
}

/// Flow control discipline.
#[derive(Clone, Copy, Debug, PartialEq, Eq, Structural)]
pub enum FlowControl {
    Off,
    Software,
    Hardware,
}

/// Parity discipline.
#[derive(Clone, Copy, Debug, PartialEq, Eq, Structural)]
pub enum Parity {
    Off,
    Odd,
    Even,
}

/// Stop bit count.
#[derive(Clone, Copy, Debug, PartialEq, Eq, Structural)]
pub enum StopBits {
    One,
    Two,
}

/// The word length a numeric code stands for, if any.
pub open spec fn data_bits_spec(value: u32) -> Option<DataBits> {
    if value == 5 {
        Some(DataBits::Five)
    } else if value == 6 {
        Some(DataBits::Six)
    } else if value == 7 {
        Some(DataBits::Seven)
    } else if value == 8 {
        Some(DataBits::Eight)
    } else {
        None
    }
}

/// Map a numeric code to its word length: 5 through 8.
pub fn data_bits_from_u32(value: u32) -> (r: Option<DataBits>)
    ensures
        r == data_bits_spec(value),
{
    match value {
        5 => Some(DataBits::Five),
        6 => Some(DataBits::Six),
        7 => Some(DataBits::Seven),
        8 => Some(DataBits::Eight),
        _ => None,
    }
}

/// The flow control a numeric code stands for, if any.
pub open spec fn flow_control_spec(value: u32) -> Option<FlowControl> {
    if value == 0 {
        Some(FlowControl::Off)
    } else if value == 1 {
        Some(FlowControl::Software)
    } else if value == 2 {
        Some(FlowControl::Hardware)
    } else {
        None
    }
}

/// Map a numeric code to its flow control: 0 none, 1 software, 2 hardware.
pub fn flow_control_from_u32(value: u32) -> (r: Option<FlowControl>)
    ensures
        r == flow_control_spec(value),
{
    match value {
        0 => Some(FlowControl::Off),
        1 => Some(FlowControl::Software),
        2 => Some(FlowControl::Hardware),
        _ => None,
    }
}

/// The parity a numeric code stands for, if any.
pub open spec fn parity_spec(value: u32) -> Option<Parity> {
    if value == 0 {
        Some(Parity::Off)
    } else if value == 1 {
        Some(Parity::Odd)
    } else if value == 2 {
        Some(Parity::Even)
    } else {
        None
    }
}

/// Map a numeric code to its parity: 0 none, 1 odd, 2 even.
pub fn parity_from_u32(value: u32) -> (r: Option<Parity>)
    ensures
        r == parity_spec(value),
{
    match value {
        0 => Some(Parity::Off),
        1 => Some(Parity::Odd),
        2 => Some(Parity::Even),
        _ => None,
    }
}

/// The stop bit count a numeric code stands for, if any.
pub open spec fn stop_bits_spec(value: u32) -> Option<StopBits> {
    if value == 1 {
        Some(StopBits::One)
    } else if value == 2 {
        Some(StopBits::Two)
    } else {
        None
    }
}

/// Map a numeric code to its stop bit count: 1 or 2.
pub fn stop_bits_from_u32(value: u32) -> (r: Option<StopBits>)
    ensures
        r == stop_bits_spec(value),
{
    match value {
        1 => Some(StopBits::One),
        2 => Some(StopBits::Two),
        _ => None,
    }
}

/// The protocols the dispatcher routes between.
#[derive(Clone, Copy, Debug, PartialEq, Eq, Structural)]
pub enum Protocol {
    SimpleSerial,
    PoeSerial,
    PoeCanable,
    PoeCanableFd,
}

/// The protocol a tag names, if any.
pub open spec fn protocol_spec(s: Seq<char>) -> Option<Protocol> {
    if s == "SimpleSerial"@ {
        Some(Protocol::SimpleSerial)
    } else if s == "POESerial"@ {
        Some(Protocol::PoeSerial)
    } else if s == "POECanable"@ {
        Some(Protocol::PoeCanable)
    } else if s == "POECanableFD"@ {
        Some(Protocol::PoeCanableFd)
    } else {
        None
    }
}

/// Route a protocol tag; an unknown tag routes nowhere.
pub fn protocol_from_string(s: &String) -> (r: Option<Protocol>)
    ensures
        r == protocol_spec(s@),
{
    if *s == String::from_str("SimpleSerial") {
        Some(Protocol::SimpleSerial)
    } else if *s == String::from_str("POESerial") {
        Some(Protocol::PoeSerial)
    } else if *s == String::from_str("POECanable") {
        Some(Protocol::PoeCanable)
    } else if *s == String::from_str("POECanableFD") {
        Some(Protocol::PoeCanableFd)
    } else {
        None
    }
}

/// The command texts that initialise the CAN adapter after the port opens:
/// close the bus, set the bitrate (CAN-FD sets the nominal and the data
/// rate), then mode, filter and open.
pub open spec fn can_init_spec(fd: bool, bitrate: Seq<char>, data_bitrate: Seq<char>) -> Seq<
    Seq<char>,
> {
    if fd {
        seq![
            "C\r"@,
            bitrate + "\r"@,
            data_bitrate + "\r"@,
            "M0\r"@,
            "A0\r"@,
            "O\r"@,
        ]
    } else {
        seq!["C\r"@, bitrate + "\r"@, "M0\r"@, "A0\r"@, "O\r"@]
    }
}

/// Build the CAN initialisation sequence, in the order it must be written.
pub fn can_init_commands(fd: bool, bitrate: &str, data_bitrate: &str) -> (r: Vec<String>)
    ensures
        r@.map_values(|s: String| s@) == can_init_spec(fd, bitrate@, data_bitrate@),
{
    let mut out: Vec<String> = Vec::new();
    out.push(String::from_str("C\r"));
    out.push(String::from_str(bitrate).concat("\r"));
    if fd {
        out.push(String::from_str(data_bitrate).concat("\r"));
    }
    out.push(String::from_str("M0\r"));
    out.push(String::from_str("A0\r"));
    out.push(String::from_str("O\r"));
    proof {
        assert(out@.map_values(|s: String| s@) =~= can_init_spec(fd, bitrate@, data_bitrate@));
    }
    out
}

/// The command to write before tearing a port down, when one is needed:
/// a CAN protocol closes the adapter's bus first.
pub fn close_bus_command(can_protocol: bool) -> (r: Option<String>)
    ensures
        can_protocol ==> (r matches Some(s) && s@ == "C\r"@),
        !can_protocol ==> r is None,
{
    if can_protocol {
        Some(String::from_str("C\r"))
    } else {
        None
    }
}

/// A byte of a port path as it appears in the read event's name: dots,
/// slashes and backslashes become dashes.
pub open spec fn event_name_byte(b: u8) -> u8 {
    if b == 0x2e || b == 0x2f || b == 0x5c {
        0x2d
    } else {
        b
    }
}

/// The name of the driver's read event for a port, as bytes: a fixed
/// prefix, then the path with every dot, slash and backslash replaced by a
/// dash.
pub fn listener_event_name_bytes(path: &str) -> (r: Vec<u8>)
    ensures
        r@ == "plugin-serialplugin-read-".spec_bytes() + path.spec_bytes().map_values(
            |b: u8| event_name_byte(b),
        ),
{
    let mut out: Vec<u8> = "plugin-serialplugin-read-".as_bytes_vec();
    let pb: Vec<u8> = path.as_bytes_vec();
    let ghost prefix = out@;
    let mut i: usize = 0;
    proof {
        assert(pb@.take(0).map_values(|b: u8| event_name_byte(b)) =~= Seq::<u8>::empty());
        assert(out@ =~= prefix + pb@.take(0).map_values(|b: u8| event_name_byte(b)));
    }
    while i < pb.len()
        invariant
            i <= pb@.len(),
            pb@ == path.spec_bytes(),
            out@ == prefix + pb@.take(i as int).map_values(|b: u8| event_name_byte(b)),
        decreases pb@.len() - i,
    {
        let b = pb[i];
        let mapped: u8 = if b == 0x2e || b == 0x2f || b == 0x5c {
            0x2d
        } else {
            b
        };
        proof {
            assert(pb@.take(i + 1).map_values(|c: u8| event_name_byte(c)) =~= pb@.take(
                i as int,
            ).map_values(|c: u8| event_name_byte(c)).push(event_name_byte(pb@[i as int])));
            assert((prefix + pb@.take(i as int).map_values(|c: u8| event_name_byte(c))).push(
                mapped,
            ) =~= prefix + pb@.take(i + 1).map_values(|c: u8| event_name_byte(c)));
        }
        out.push(mapped);
        i = i + 1;
    }
    proof {
        assert(pb@.take(pb@.len() as int) =~= pb@);
    }
    out
}

/// One step of the modem-line reset: drive DTR and RTS, then wait.
#[derive(Clone, Copy, Debug, PartialEq, Eq, Structural)]
pub struct ModemStep {
    pub dtr: bool,
    pub rts: bool,
    pub wait_ms: u64,
}

/// The device-reset sequence: DTR up and RTS down, wait; DTR down and RTS
/// up, wait; both up.
pub fn hard_restart_steps() -> (r: Vec<ModemStep>)
    ensures
        r@ == seq![
            ModemStep { dtr: true, rts: false, wait_ms: 100 },
            ModemStep { dtr: false, rts: true, wait_ms: 100 },
            ModemStep { dtr: true, rts: true, wait_ms: 0 },
        ],
{
    let mut out: Vec<ModemStep> = Vec::new();
    out.push(ModemStep { dtr: true, rts: false, wait_ms: 100 });
    out.push(ModemStep { dtr: false, rts: true, wait_ms: 100 });
    out.push(ModemStep { dtr: true, rts: true, wait_ms: 0 });
    proof {
        assert(out@ =~= seq![
            ModemStep { dtr: true, rts: false, wait_ms: 100 },
            ModemStep { dtr: false, rts: true, wait_ms: 100 },
            ModemStep { dtr: true, rts: true, wait_ms: 0 },
        ]);
    }
    out
}

} // verus!
