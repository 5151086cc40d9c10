use poelink::poe_canable::{process_poe_canable_data, PartialPacket, PartialStore};
use poelink::poe_serial::{poe_serial_frame, poe_extract_packets, process_poe_serial_data};
use poelink::simple_serial::process_simple_serial_data;
use poelink::crc::crc8;

#[test]
fn simple_serial_line_split_across_reads() {
    // Feed "AB", then "C\nDE", then "F\r": emissions "ABC" and "DEF".
    let mut buffer: Vec<u8> = Vec::new();
    let mut emitted: Vec<String> = Vec::new();

    buffer.extend_from_slice(b"AB");
    let (lines, tail) = process_simple_serial_data(&buffer, 0);
    emitted.extend(lines);
    buffer = tail;

    buffer.extend_from_slice(b"C\nDE");
    let (lines, tail) = process_simple_serial_data(&buffer, 0);
    emitted.extend(lines);
    buffer = tail;

    buffer.extend_from_slice(b"F\r");
    let (lines, tail) = process_simple_serial_data(&buffer, 0);
    emitted.extend(lines);
    buffer = tail;

    assert_eq!(emitted, vec!["ABC".to_string(), "DEF".to_string()]);
    assert!(buffer.is_empty());
}

#[test]
fn simple_serial_flush_after_timeout() {
    let (lines, tail) = process_simple_serial_data(&b"XY".to_vec(), 6000);
    assert_eq!(lines, vec!["XY".to_string()]);
    assert!(tail.is_empty());
    let (lines, tail) = process_simple_serial_data(&b"XY".to_vec(), 4999);
    assert!(lines.is_empty());
    assert_eq!(tail, b"XY".to_vec());
}

#[test]
fn simple_serial_lossy_text() {
    // An invalid byte becomes the replacement character, as lossy decoding does.
    let (lines, _) = process_simple_serial_data(&vec![0xFF, b'\n'], 0);
    assert_eq!(lines, vec!["\u{FFFD}".to_string()]);
}

#[test]
fn poe_serial_single_packet() {
    let mut store = PartialStore::new();
    let port = String::from("COM1");
    let data = b"\x01H\x1FA\x02V\x0300\x1F42\x04".to_vec();
    let records = process_poe_serial_data(&mut store, &port, &data, 0);
    assert_eq!(records.len(), 1);
    assert_eq!(records[0].header, "H");
    assert_eq!(records[0].argument, "A");
    assert_eq!(records[0].value, "V");
    assert_eq!(records[0].crc_hex, "00");
    assert_eq!(records[0].free_heap_size, "42");
}

#[test]
fn poe_serial_partial_then_continuation() {
    let mut store = PartialStore::new();
    let port = String::from("COM1");
    let records = process_poe_serial_data(&mut store, &port, &b"\x01H\x1FA\x02V".to_vec(), 0);
    assert!(records.is_empty());
    // The continuation arrives within half a second.
    let records = process_poe_serial_data(&mut store, &port, &b"\x0300\x1F9\x04".to_vec(), 100);
    assert_eq!(records.len(), 1);
    assert_eq!(records[0].header, "H");
    assert_eq!(records[0].argument, "A");
    assert_eq!(records[0].value, "V");
    assert_eq!(records[0].crc_hex, "00");
    assert_eq!(records[0].free_heap_size, "9");
}

#[test]
fn poe_serial_partial_expires() {
    let mut store = PartialStore::new();
    let port = String::from("COM1");
    let records = process_poe_serial_data(&mut store, &port, &b"\x01H\x1FA\x02V".to_vec(), 0);
    assert!(records.is_empty());
    // Too late: the kept tail is gone, the continuation alone is no packet.
    let records = process_poe_serial_data(&mut store, &port, &b"\x0300\x1F9\x04".to_vec(), 900);
    assert!(records.is_empty());
}

#[test]
fn poe_serial_round_trip() {
    let frame = poe_serial_frame("H", "A", "V");
    let (records, tail) = poe_extract_packets(&frame.into_bytes());
    assert!(tail.is_empty());
    assert_eq!(records.len(), 1);
    assert_eq!(records[0].header, "H");
    assert_eq!(records[0].argument, "A");
    assert_eq!(records[0].value, "V");
    assert_eq!(records[0].crc_hex, format!("{:02X}", crc8(b"HAV")));
    assert_eq!(records[0].free_heap_size, "");
}

#[test]
fn poe_serial_stray_eot_stalls() {
    // An EOT before the first SOH stops the scan; everything is kept.
    let data = b"\x04\x01H\x1FA\x02V\x0300\x1F1\x04".to_vec();
    let (records, tail) = poe_extract_packets(&data);
    assert!(records.is_empty());
    assert_eq!(tail, data);
}

#[test]
fn poe_serial_malformed_packet_dropped() {
    // A span without STX is dropped; the following packet still parses.
    let data = b"\x01bad\x04\x01H\x1FA\x02V\x0300\x1F1\x04".to_vec();
    let (records, tail) = poe_extract_packets(&data);
    assert_eq!(records.len(), 1);
    assert_eq!(records[0].header, "H");
    assert!(tail.is_empty());
}

#[test]
fn can_classic_remote_frame() {
    let mut store = PartialStore::new();
    let port = String::from("COM9");
    let (msgs, tail) = process_poe_canable_data(&mut store, &port, &b"r1230\r".to_vec(), 0);
    assert!(tail.is_empty());
    assert_eq!(msgs.len(), 1);
    let (id, m) = &msgs[0];
    assert_eq!(*id, 0x123);
    assert_eq!(m.main_id, 0x123);
    assert!(m.is_remote);
    assert!(m.is_complete);
    assert!(m.can_data.is_empty());
    assert_eq!(m.json, "{}");
}

#[test]
fn can_fd_multi_frame_with_json() {
    let mut store = PartialStore::new();
    let port = String::from("COM9");
    // First frame, full-packet bit clear, carries the opening of the JSON.
    let first = b"D0ABC000067B226B223A22\r".to_vec();
    let (msgs, _) = process_poe_canable_data(&mut store, &port, &first, 1000);
    assert!(msgs.is_empty());
    // Final frame, full-packet bit set, closes the document.
    let second = b"D1ABC0000376227D\r".to_vec();
    let (msgs, _) = process_poe_canable_data(&mut store, &port, &second, 1500);
    assert_eq!(msgs.len(), 1);
    let (id, m) = &msgs[0];
    assert_eq!(*id, 0xABC);
    assert_eq!(m.can_data, b"{\"k\":\"v\"}".to_vec());
    assert_eq!(m.json, "{\"k\":\"v\"}");
    assert!(m.is_complete);
    assert!(!m.is_remote);
    // The message keeps the first frame's timestamp.
    assert_eq!(m.timestamp, 1000);
}

#[test]
fn can_partial_expires_after_timeout() {
    let mut store = PartialStore::new();
    let port = String::from("COM9");
    let first = b"D0ABC000067B226B223A22\r".to_vec();
    let (msgs, _) = process_poe_canable_data(&mut store, &port, &first, 0);
    assert!(msgs.is_empty());
    assert!(store.get_partial_packet(&port, 0xABC).is_some());
    // More than two seconds later, the slot is evicted before parsing.
    let (msgs, _) = process_poe_canable_data(&mut store, &port, &Vec::new(), 2500);
    assert!(msgs.is_empty());
    assert!(store.get_partial_packet(&port, 0xABC).is_none());
}

#[test]
fn can_ports_are_isolated() {
    let mut store = PartialStore::new();
    let port_a = String::from("A");
    let port_b = String::from("B");
    let first = b"D0ABC000067B226B223A22\r".to_vec();
    let (_, _) = process_poe_canable_data(&mut store, &port_a, &first, 0);
    // A parse call for the other port, far in the future, leaves A's slot.
    let (_, _) = process_poe_canable_data(&mut store, &port_b, &b"r1230\r".to_vec(), 9000);
    assert!(store.get_partial_packet(&port_a, 0xABC).is_some());
}

#[test]
fn can_overflow_drops_partial() {
    let mut store = PartialStore::new();
    let port = String::from("COM9");
    // Sixteen full CAN-FD frames accumulate exactly 1024 bytes.
    let chunk_hex: String = std::iter::repeat("41").take(64).collect();
    let frame = format!("B0ABC0000F{}\r", chunk_hex);
    for _ in 0..16 {
        let (msgs, _) = process_poe_canable_data(&mut store, &port, &frame.clone().into_bytes(), 0);
        assert!(msgs.is_empty());
    }
    assert_eq!(store.get_partial_packet(&port, 0xABC).unwrap().data.len(), 1024);
    // One more non-final frame pushes past the bound: the slot is dropped.
    let (msgs, _) = process_poe_canable_data(&mut store, &port, &frame.into_bytes(), 0);
    assert!(msgs.is_empty());
    assert!(store.get_partial_packet(&port, 0xABC).is_none());
    // A final frame then carries only its own bytes.
    let (msgs, _) = process_poe_canable_data(&mut store, &port, &b"B1ABC00001AB\r".to_vec(), 0);
    assert_eq!(msgs.len(), 1);
    assert_eq!(msgs[0].1.can_data, vec![0xAB]);
}

#[test]
fn can_base64_payload_is_decoded() {
    let mut store = PartialStore::new();
    let port = String::from("COM9");
    // Payload "AAAA" is base64-shaped and decodes to three zero bytes.
    let (msgs, _) = process_poe_canable_data(&mut store, &port, &b"T1ABC0000441414141\r".to_vec(), 0);
    assert_eq!(msgs.len(), 1);
    assert_eq!(msgs[0].1.can_data, vec![0, 0, 0]);
}

#[test]
fn can_json_of_valid_text() {
    let mut store = PartialStore::new();
    let port = String::from("COM9");
    // "1" is a JSON document, and is not base64-shaped.
    let (msgs, _) = process_poe_canable_data(&mut store, &port, &b"T1ABC0000131\r".to_vec(), 0);
    assert_eq!(msgs.len(), 1);
    assert_eq!(msgs[0].1.json, "1");
    assert_eq!(msgs[0].1.can_data, vec![0x31]);
}

#[test]
fn can_json_of_invalid_utf8() {
    let mut store = PartialStore::new();
    let port = String::from("COM9");
    let (msgs, _) = process_poe_canable_data(&mut store, &port, &b"T1ABC00001FF\r".to_vec(), 0);
    assert_eq!(msgs.len(), 1);
    assert_eq!(msgs[0].1.json, "{}");
    assert_eq!(msgs[0].1.can_data, vec![0xFF]);
}

#[test]
fn can_partial_store_direct_access() {
    let mut store = PartialStore::new();
    let port = String::from("P");
    store.insert_partial_packet(&port, 7, PartialPacket { timestamp: 3, data: vec![1, 2] });
    let got = store.get_partial_packet(&port, 7).unwrap();
    assert_eq!(got.timestamp, 3);
    assert_eq!(got.data, vec![1, 2]);
    store.remove_partial_packet(&port, 7);
    assert!(store.get_partial_packet(&port, 7).is_none());
}
