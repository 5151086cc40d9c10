use poelink::crc::crc8;
use poelink::frame_codec::{decode_frame, format_can_frame, scan_frames};
use poelink::poe_canable::{b64_shape, parse_hex_token_bytes};

#[test]
fn crc8_check_value() {
    // The published CRC-8/MAXIM check value.
    assert_eq!(crc8(b"123456789"), 0xA1);
    assert_eq!(crc8(b""), 0x00);
}

#[test]
fn scan_finds_frame_and_passes_garbage_through() {
    let data = b"XXt1234\rYY".to_vec();
    let (frames, tail) = scan_frames(&data);
    assert_eq!(frames.len(), 1);
    assert_eq!(frames[0].frame_type, b't');
    assert_eq!(frames[0].id, 0x123);
    assert_eq!(frames[0].dlc, 4);
    assert_eq!(tail, b"XXYY".to_vec());
}

#[test]
fn scan_keeps_incomplete_frame_in_tail() {
    let data = b"t12".to_vec();
    let (frames, tail) = scan_frames(&data);
    assert_eq!(frames.len(), 0);
    assert_eq!(tail, b"t12".to_vec());
}

#[test]
fn decode_extended_frame_fields() {
    let data = b"T1ABC000227B7D\r".to_vec();
    let (frames, tail) = scan_frames(&data);
    assert_eq!(frames.len(), 1);
    assert!(tail.is_empty());
    let d = decode_frame(&frames[0]);
    assert!(d.is_extended);
    assert!(d.is_classic);
    assert!(!d.is_remote);
    assert_eq!(d.main_id, 0xABC);
    assert_eq!(d.full_id.is_full_packet, 1);
    assert_eq!(d.data, vec![0x7B, 0x7D]);
}

#[test]
fn decode_fd_frame_maps_dlc_and_trims_zeros() {
    // DLC nibble 9 announces 12 bytes; trailing zeros are trimmed.
    let mut text = String::from("D0ABC00009");
    text.push_str("AB0000000000000000000000");
    text.push('\r');
    let data = text.into_bytes();
    let (frames, _) = scan_frames(&data);
    assert_eq!(frames.len(), 1);
    let d = decode_frame(&frames[0]);
    assert!(d.is_fd);
    assert!(d.is_extended);
    assert_eq!(d.main_id, 0xABC);
    // Only 12 bytes are read; of 0xAB then eleven zero bytes, the zeros go.
    assert_eq!(d.data, vec![0xAB]);
}

#[test]
fn format_classic_frame_round_trip() {
    let s = format_can_frame('T', 0x1ABC0001, Some(vec![0xDE, 0xAD, 0xBE, 0xEF]), 4).unwrap();
    assert_eq!(s, "T1ABC00014DEADBEEF\r");
    let (frames, tail) = scan_frames(&s.into_bytes());
    assert_eq!(frames.len(), 1);
    assert!(tail.is_empty());
    let d = decode_frame(&frames[0]);
    assert_eq!(frames[0].id, 0x1ABC0001);
    assert_eq!(d.data, vec![0xDE, 0xAD, 0xBE, 0xEF]);
}

#[test]
fn format_remote_frame_has_no_data() {
    let s = format_can_frame('R', 0x14020304, None, 0).unwrap();
    assert_eq!(s, "R140203040\r");
}

#[test]
fn format_fd_frame_pads_payload() {
    // Ten bytes of payload pad to twelve and use DLC nibble 9.
    let s = format_can_frame('B', 0x1ABC0001, Some((1..=10).collect()), 10).unwrap();
    assert_eq!(s, "B1ABC000190102030405060708090A0000\r");
}

#[test]
fn base64_shape_accepts_padded_quartets() {
    assert!(b64_shape(&b"".to_vec()));
    assert!(b64_shape(&b"AAAA".to_vec()));
    assert!(b64_shape(&b"AAA=".to_vec()));
    assert!(b64_shape(&b"AA==".to_vec()));
    assert!(!b64_shape(&b"A===".to_vec()));
    assert!(!b64_shape(&b"AAA".to_vec()));
    assert!(!b64_shape(&b"A{AA".to_vec()));
}

#[test]
fn hex_tokens_skip_what_does_not_parse() {
    assert_eq!(parse_hex_token_bytes(&b"48 zz 6C".to_vec()), vec![0x48, 0x6C]);
    assert_eq!(parse_hex_token_bytes(&b"  FF 0 1ff +a  ".to_vec()), vec![0xFF, 0x00, 0x0A]);
    assert_eq!(parse_hex_token_bytes(&b"hello".to_vec()), Vec::<u8>::new());
}
