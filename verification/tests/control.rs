use poelink::config::{
    can_init_commands, close_bus_command, data_bits_from_u32, flow_control_from_u32,
    hard_restart_steps, listener_event_name_bytes, parity_from_u32, protocol_from_string,
    stop_bits_from_u32, DataBits, FlowControl, Parity, Protocol, StopBits,
};
use poelink::logging::{log_allowed, LogLevel};
use poelink::poe_canable::{plan_poe_canable_send, PoeCanableCommand};
use poelink::simple_serial::simple_serial_frame;

#[test]
fn parameter_codes_map_exactly() {
    assert_eq!(data_bits_from_u32(5), Some(DataBits::Five));
    assert_eq!(data_bits_from_u32(8), Some(DataBits::Eight));
    assert_eq!(data_bits_from_u32(9), None);
    assert_eq!(flow_control_from_u32(0), Some(FlowControl::Off));
    assert_eq!(flow_control_from_u32(2), Some(FlowControl::Hardware));
    assert_eq!(flow_control_from_u32(3), None);
    assert_eq!(parity_from_u32(1), Some(Parity::Odd));
    assert_eq!(parity_from_u32(7), None);
    assert_eq!(stop_bits_from_u32(2), Some(StopBits::Two));
    assert_eq!(stop_bits_from_u32(0), None);
}

#[test]
fn protocol_routing() {
    assert_eq!(protocol_from_string(&"SimpleSerial".to_string()), Some(Protocol::SimpleSerial));
    assert_eq!(protocol_from_string(&"POESerial".to_string()), Some(Protocol::PoeSerial));
    assert_eq!(protocol_from_string(&"POECanable".to_string()), Some(Protocol::PoeCanable));
    assert_eq!(protocol_from_string(&"POECanableFD".to_string()), Some(Protocol::PoeCanableFd));
    assert_eq!(protocol_from_string(&"Modbus".to_string()), None);
}

#[test]
fn can_init_sequences() {
    let classic = can_init_commands(false, "S6", "");
    assert_eq!(classic, vec!["C\r", "S6\r", "M0\r", "A0\r", "O\r"]);
    let fd = can_init_commands(true, "S6", "Y2");
    assert_eq!(fd, vec!["C\r", "S6\r", "Y2\r", "M0\r", "A0\r", "O\r"]);
}

#[test]
fn close_and_restart_sequences() {
    assert_eq!(close_bus_command(true).as_deref(), Some("C\r"));
    assert_eq!(close_bus_command(false), None);
    let steps = hard_restart_steps();
    assert_eq!(steps.len(), 3);
    assert!(steps[0].dtr && !steps[0].rts && steps[0].wait_ms == 100);
    assert!(!steps[1].dtr && steps[1].rts && steps[1].wait_ms == 100);
    assert!(steps[2].dtr && steps[2].rts && steps[2].wait_ms == 0);
}

#[test]
fn log_level_filtering() {
    assert!(!log_allowed(0, LogLevel::Error));
    assert!(log_allowed(1, LogLevel::Error));
    assert!(!log_allowed(1, LogLevel::Warn));
    assert!(log_allowed(2, LogLevel::Warn));
    assert!(!log_allowed(2, LogLevel::Info));
    assert!(log_allowed(3, LogLevel::Info));
    assert_eq!(LogLevel::from(1u8), LogLevel::Error);
    assert_eq!(LogLevel::from(2u8), LogLevel::Warn);
    assert_eq!(LogLevel::from(9u8), LogLevel::Info);
}

#[test]
fn listener_event_name_replaces_separators() {
    let name = listener_event_name_bytes("/dev/tty.USB0");
    assert_eq!(name, b"plugin-serialplugin-read--dev-tty-USB0".to_vec());
}

#[test]
fn simple_serial_send_appends_terminator() {
    assert_eq!(simple_serial_frame("CMD", "\r\n"), "CMD\r\n");
}

#[test]
fn outbound_fragmentation_classic() {
    let cmd = PoeCanableCommand {
        header: 1,
        argument: 2,
        target_id: 3,
        return_id: 4,
        convert_to_base64: 0,
        data: Some("ABCDEFGHIJ".to_string()),
    };
    let plan = plan_poe_canable_send(false, &cmd).unwrap();
    assert_eq!(plan.frames, vec![
        "T0402030484142434445464748\r".to_string(),
        "T140203042494A\r".to_string(),
    ]);
    assert!(plan.echo.is_none());
}

#[test]
fn outbound_remote_when_no_data() {
    let cmd = PoeCanableCommand {
        header: 1,
        argument: 2,
        target_id: 3,
        return_id: 4,
        convert_to_base64: 0,
        data: None,
    };
    let plan = plan_poe_canable_send(false, &cmd).unwrap();
    assert_eq!(plan.frames, vec!["R140203040\r".to_string()]);
    let cmd_blank = PoeCanableCommand { data: Some("   ".to_string()), ..cmd };
    let plan = plan_poe_canable_send(false, &cmd_blank).unwrap();
    assert_eq!(plan.frames, vec!["R140203040\r".to_string()]);
}

#[test]
fn outbound_base64_path_encodes_hex_tokens() {
    let cmd = PoeCanableCommand {
        header: 1,
        argument: 2,
        target_id: 3,
        return_id: 4,
        convert_to_base64: 1,
        data: Some("48 65 6C".to_string()),
    };
    let plan = plan_poe_canable_send(false, &cmd).unwrap();
    // base64 of 48 65 6C is "SGVs"; a NUL closes the payload.
    assert_eq!(plan.echo, Some(b"SGVs\x00".to_vec()));
    assert_eq!(plan.frames, vec!["T1402030455347567300\r".to_string()]);
}

#[test]
fn outbound_base64_path_with_plain_text() {
    let cmd = PoeCanableCommand {
        header: 0,
        argument: 0,
        target_id: 0,
        return_id: 0,
        convert_to_base64: 1,
        data: Some("hi".to_string()),
    };
    let plan = plan_poe_canable_send(false, &cmd).unwrap();
    // No hex token parses: the raw text goes out with a NUL, un-encoded.
    assert_eq!(plan.echo, Some(b"hi\x00".to_vec()));
    assert_eq!(plan.frames, vec!["T100000003686900\r".to_string()]);
}

#[test]
fn outbound_rejects_out_of_range_fields() {
    let cmd = PoeCanableCommand {
        header: 4,
        argument: 2,
        target_id: 3,
        return_id: 4,
        convert_to_base64: 0,
        data: None,
    };
    assert!(plan_poe_canable_send(false, &cmd).is_err());
    let cmd = PoeCanableCommand { header: 1, argument: 0x400, ..cmd };
    assert!(plan_poe_canable_send(false, &cmd).is_err());
    let cmd = PoeCanableCommand { argument: 1, target_id: 0x100, ..cmd };
    assert!(plan_poe_canable_send(false, &cmd).is_err());
    let cmd = PoeCanableCommand { target_id: 1, return_id: 0x100, ..cmd };
    assert!(plan_poe_canable_send(false, &cmd).is_err());
}

#[test]
fn outbound_fd_uses_large_frames() {
    let text: String = std::iter::repeat('A').take(70).collect();
    let cmd = PoeCanableCommand {
        header: 1,
        argument: 2,
        target_id: 3,
        return_id: 4,
        convert_to_base64: 0,
        data: Some(text),
    };
    let plan = plan_poe_canable_send(true, &cmd).unwrap();
    assert_eq!(plan.frames.len(), 2);
    // First frame: 64 bytes, not final; second: 6 bytes, final bit set.
    assert!(plan.frames[0].starts_with("B04020304F"));
    assert!(plan.frames[1].starts_with("B140203046"));
}
