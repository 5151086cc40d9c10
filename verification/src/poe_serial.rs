//! POESerial engine: control-character-delimited packets with a CRC-8.
//!
//! A packet on the wire is `SOH header US argument STX value ETX crc
//! [US free_heap_size] EOT`.  The parser extracts every complete `SOH…EOT`
//! span from the buffer, drops malformed spans, and keeps the unfinished
//! tail per port for half a second.

use vstd::prelude::*;

verus! {

use crate::poe_canable::{PartialStore, PartialPacket, PartialPacketView, StoreMap, keep_packet};
use vstd::string::StringSliceAdditionalSpecFns;
use vstd::string::StrSliceExecFns;

/// Start of heading: opens a packet.
pub const SOH: u8 = 0x01;

/// Start of text: opens the value field.
pub const STX: u8 = 0x02;

/// End of text: closes the value field.
pub const ETX: u8 = 0x03;

/// End of transmission: closes a packet.
pub const EOT: u8 = 0x04;

/// Unit separator: between header and argument, and before the heap field.
pub const US: u8 = 0x1f;

/// Age in milliseconds after which a kept tail is evicted.
pub const TAIL_TIMEOUT_MS: u64 = 500;

/// Index of the first `b` at or after `from`, or `s.len()` when absent.
pub open spec fn find_byte(s: Seq<u8>, b: u8, from: int) -> int
    decreases s.len() - from,
{
    if !(0 <= from < s.len()) {
        s.len() as int
    } else if s[from] == b {
        from
    } else {
        find_byte(s, b, from + 1)
    }
}

/// What `find_byte` returns: the first occurrence, or the length.
pub proof fn lemma_find_byte(s: Seq<u8>, b: u8, from: int)
    requires
        0 <= from <= s.len(),
    ensures
        from <= find_byte(s, b, from) <= s.len(),
        find_byte(s, b, from) < s.len() ==> s[find_byte(s, b, from)] == b,
        forall|j: int| from <= j < find_byte(s, b, from) ==> s[j] != b,
    decreases s.len() - from,
{
    if from < s.len() && s[from] != b {
        lemma_find_byte(s, b, from + 1);
    }
}

/// `find_byte` is determined by a witness position.
pub proof fn lemma_find_byte_is(s: Seq<u8>, b: u8, from: int, k: int)
    requires
        0 <= from <= k <= s.len(),
        k < s.len() ==> s[k] == b,
        forall|j: int| from <= j < k ==> s[j] != b,
    ensures
        find_byte(s, b, from) == k,
    decreases s.len() - from,
{
    if from < s.len() && s[from] != b {
        lemma_find_byte_is(s, b, from + 1, k);
    }
}

/// The five byte fields of one parsed packet.
pub ghost struct PoePacketBytes {
    pub header: Seq<u8>,
    pub argument: Seq<u8>,
    pub value: Seq<u8>,
    pub crc_hex: Seq<u8>,
    pub free_heap_size: Seq<u8>,
}

/// Whether a `SOH…EOT` span has its inner delimiters in order.
pub open spec fn packet_well_formed(pkt: Seq<u8>) -> bool {
    let us = find_byte(pkt, US, 0);
    let stx = find_byte(pkt, STX, 0);
    let etx = find_byte(pkt, ETX, 0);
    us < stx && stx < etx && etx < pkt.len()
}

/// The fields of a well-formed `SOH…EOT` span, by its delimiters: header
/// before the first `US`, argument before the first `STX`, value before the
/// first `ETX`; after the `ETX`, the checksum up to the next `US` (or up to
/// the closing `EOT`), and the heap figure after that `US`, if one is there.
pub open spec fn packet_fields(pkt: Seq<u8>) -> PoePacketBytes {
    let us = find_byte(pkt, US, 0);
    let stx = find_byte(pkt, STX, 0);
    let etx = find_byte(pkt, ETX, 0);
    let us2 = find_byte(pkt, US, etx + 1);
    PoePacketBytes {
        header: pkt.subrange(1, us),
        argument: pkt.subrange(us + 1, stx),
        value: pkt.subrange(stx + 1, etx),
        crc_hex: pkt.subrange(
            etx + 1,
            if us2 < pkt.len() {
                us2
            } else {
                pkt.len() - 1
            },
        ),
        free_heap_size: if us2 < pkt.len() {
            pkt.subrange(us2 + 1, pkt.len() - 1)
        } else {
            Seq::empty()
        },
    }
}

/// The packets of a buffer and its unconsumed tail.
pub ghost struct PoeScanResult {
    pub packets: Seq<PoePacketBytes>,
    pub tail: Seq<u8>,
}

/// Extract packets while the buffer holds an `SOH` before an `EOT`: the
/// span through the `EOT` is consumed, parsed when well formed and dropped
/// otherwise.  A stray `EOT` before the first `SOH` stops the scan.
pub open spec fn poe_scan(s: Seq<u8>) -> PoeScanResult
    decreases s.len(),
{
    let soh = find_byte(s, SOH, 0);
    let eot = find_byte(s, EOT, 0);
    if !(0 <= soh < s.len()) || !(0 <= eot < s.len()) || soh >= eot {
        PoeScanResult { packets: Seq::empty(), tail: s }
    } else {
        let pkt = s.subrange(soh, eot + 1);
        let rest = poe_scan(s.subrange(eot + 1, s.len() as int));
        PoeScanResult {
            packets: if packet_well_formed(pkt) {
                seq![packet_fields(pkt)] + rest.packets
            } else {
                rest.packets
            },
            tail: rest.tail,
        }
    }
}

/// One parsed POESerial packet, fields as text.
#[derive(Debug)]
pub struct PoeSerialData {
    pub header: String,
    pub argument: String,
    pub value: String,
    pub crc_hex: String,
    pub free_heap_size: String,
}

/// A text field faithfully stands for a byte field: whenever the bytes are
/// valid UTF-8, the text is their decoding.
pub open spec fn field_matches(bytes: Seq<u8>, text: Seq<char>) -> bool {
    crate::external::text_matches_bytes(bytes, text)
}

/// A record faithfully stands for a packet's byte fields.
pub open spec fn record_matches(p: PoePacketBytes, r: PoeSerialData) -> bool {
    &&& field_matches(p.header, r.header@)
    &&& field_matches(p.argument, r.argument@)
    &&& field_matches(p.value, r.value@)
    &&& field_matches(p.crc_hex, r.crc_hex@)
    &&& field_matches(p.free_heap_size, r.free_heap_size@)
}

/// Find the first `b` at or after `from`.
fn find_byte_exec(s: &Vec<u8>, b: u8, from: usize) -> (r: usize)
    requires
        from <= s@.len(),
    ensures
        r == find_byte(s@, b, from as int),
{
    let mut i: usize = from;
    while i < s.len()
        invariant
            from <= i <= s@.len(),
            find_byte(s@, b, from as int) == find_byte(s@, b, i as int),
        decreases s@.len() - i,
    {
        if s[i] == b {
            return i;
        }
        i = i + 1;
    }
    s.len()
}

/// Consume one leading `SOH…EOT` span of `rest`, if the scan makes
/// progress: the record when the span is well formed, and the buffer that
/// remains.  The third component says whether anything was consumed.
#[verifier::rlimit(30)]
fn poe_step(rest: &Vec<u8>) -> (r: (Option<PoeSerialData>, Vec<u8>, bool))
    ensures
        !r.2 ==> r.0 is None && r.1@ == rest@ && poe_scan(rest@).packets.len() == 0 && poe_scan(
            rest@,
        ).tail == rest@,
        r.2 ==> r.1@.len() < rest@.len() && poe_scan(rest@).tail == poe_scan(r.1@).tail && (match
        r.0 {
            Some(rec) => poe_scan(rest@).packets == seq![poe_scan(rest@).packets[0]] + poe_scan(
                r.1@,
            ).packets && record_matches(poe_scan(rest@).packets[0], rec),
            None => poe_scan(rest@).packets == poe_scan(r.1@).packets,
        }),
{
    let soh = find_byte_exec(rest, SOH, 0);
    let eot = find_byte_exec(rest, EOT, 0);
    proof {
        lemma_find_byte(rest@, SOH, 0);
        lemma_find_byte(rest@, EOT, 0);
    }
    if soh >= rest.len() || eot >= rest.len() || soh >= eot {
        return (None, crate::poe_canable::copy_bytes(rest), false);
    }
    let ghost pkt_spec = rest@.subrange(soh as int, eot + 1);
    let us = find_byte_exec(rest, US, soh);
    let stx = find_byte_exec(rest, STX, soh);
    let etx = find_byte_exec(rest, ETX, soh);
    proof {
        lemma_find_byte(rest@, US, soh as int);
        lemma_find_byte(rest@, STX, soh as int);
        lemma_find_byte(rest@, ETX, soh as int);
        assert(forall|j: int| 0 <= j < pkt_spec.len() ==> pkt_spec[j] == rest@[soh + j]);
        assert(pkt_spec[0] == SOH);
        lemma_find_byte_is(
            pkt_spec,
            US,
            0,
            if us < eot {
                us - soh
            } else {
                pkt_spec.len() as int
            },
        );
        lemma_find_byte_is(
            pkt_spec,
            STX,
            0,
            if stx < eot {
                stx - soh
            } else {
                pkt_spec.len() as int
            },
        );
        lemma_find_byte_is(
            pkt_spec,
            ETX,
            0,
            if etx < eot {
                etx - soh
            } else {
                pkt_spec.len() as int
            },
        );
    }
    let next = crate::poe_canable::copy_range(rest, eot + 1, rest.len());
    proof {
        assert(poe_scan(rest@).tail == poe_scan(next@).tail);
    }
    if us < stx && stx < etx && etx < eot {
        let us2 = find_byte_exec(rest, US, etx + 1);
        proof {
            lemma_find_byte(rest@, US, etx + 1);
            lemma_find_byte_is(
                pkt_spec,
                US,
                etx + 1 - soh,
                if us2 < eot {
                    us2 - soh
                } else {
                    pkt_spec.len() as int
                },
            );
            assert(packet_well_formed(pkt_spec));
        }
        let crc_end: usize = if us2 < eot {
            us2
        } else {
            eot
        };
        let header = crate::external::lossy_string(
            &crate::poe_canable::copy_range(rest, soh + 1, us),
        );
        let argument = crate::external::lossy_string(
            &crate::poe_canable::copy_range(rest, us + 1, stx),
        );
        let value = crate::external::lossy_string(
            &crate::poe_canable::copy_range(rest, stx + 1, etx),
        );
        let crc_hex = crate::external::lossy_string(
            &crate::poe_canable::copy_range(rest, etx + 1, crc_end),
        );
        let free_heap_size = if us2 < eot {
            crate::external::lossy_string(&crate::poe_canable::copy_range(rest, us2 + 1, eot))
        } else {
            crate::external::lossy_string(&Vec::new())
        };
        proof {
            let f = packet_fields(pkt_spec);
            assert(f.header =~= rest@.subrange(soh + 1, us as int));
            assert(f.argument =~= rest@.subrange(us + 1, stx as int));
            assert(f.value =~= rest@.subrange(stx + 1, etx as int));
            assert(f.crc_hex =~= rest@.subrange(etx + 1, crc_end as int));
            if us2 < eot {
                assert(f.free_heap_size =~= rest@.subrange(us2 + 1, eot as int));
            } else {
                assert(f.free_heap_size =~= Seq::<u8>::empty());
                crate::external::lemma_ascii_bytes(Seq::<u8>::empty());
            }
        }
        let record = PoeSerialData { header, argument, value, crc_hex, free_heap_size };
        proof {
            assert(record_matches(packet_fields(pkt_spec), record));
            assert(poe_scan(rest@).packets =~= seq![packet_fields(pkt_spec)] + poe_scan(
                next@,
            ).packets);
            assert(poe_scan(rest@).packets[0] == packet_fields(pkt_spec));
        }
        (Some(record), next, true)
    } else {
        proof {
            assert(!packet_well_formed(pkt_spec));
            assert(poe_scan(rest@).packets =~= poe_scan(next@).packets);
        }
        (None, next, true)
    }
}

/// Extract every complete packet from `data`; return the records, in
/// order, and the unconsumed tail.
pub fn poe_extract_packets(data: &Vec<u8>) -> (r: (Vec<PoeSerialData>, Vec<u8>))
    ensures
        r.0@.len() == poe_scan(data@).packets.len(),
        forall|i: int|
            0 <= i < r.0@.len() ==> record_matches(poe_scan(data@).packets[i], #[trigger] r.0@[i]),
        r.1@ == poe_scan(data@).tail,
{
    let mut records: Vec<PoeSerialData> = Vec::new();
    let mut rest: Vec<u8> = crate::poe_canable::copy_bytes(data);
    loop
        invariant
            poe_scan(data@).packets.len() == records@.len() + poe_scan(rest@).packets.len(),
            forall|i: int|
                0 <= i < records@.len() ==> record_matches(
                    poe_scan(data@).packets[i],
                    #[trigger] records@[i],
                ),
            forall|i: int|
                0 <= i < poe_scan(rest@).packets.len() ==> poe_scan(data@).packets[records@.len()
                    + i] == #[trigger] poe_scan(rest@).packets[i],
            poe_scan(data@).tail == poe_scan(rest@).tail,
        decreases rest@.len(),
    {
        let ghost old_rest = rest@;
        let ghost old_n = records@.len() as int;
        let (maybe, next, advanced) = poe_step(&rest);
        if !advanced {
            proof {
                assert(poe_scan(data@).tail == rest@);
            }
            return (records, rest);
        }
        match maybe {
            Some(rec) => {
                proof {
                    assert(poe_scan(data@).packets[old_n] == poe_scan(old_rest).packets[0]);
                    assert(record_matches(poe_scan(data@).packets[old_n], rec));
                    assert forall|i: int| 0 <= i < poe_scan(next@).packets.len() implies poe_scan(
                        data@,
                    ).packets[(old_n + 1) + i] == #[trigger] poe_scan(next@).packets[i] by {
                        assert(poe_scan(old_rest).packets[1 + i] == poe_scan(next@).packets[i]);
                        assert(poe_scan(data@).packets[old_n + (1 + i)] == poe_scan(
                            old_rest,
                        ).packets[1 + i]);
                    }
                }
                records.push(rec);
            },
            None => {},
        }
        rest = next;
    }
}

/// The store and the packets after one whole parse call.
pub ghost struct PoeProcessResult {
    pub store: StoreMap,
    pub packets: Seq<PoePacketBytes>,
}

/// One whole parse call: every port's stale tail is evicted, this port's
/// kept tail (if any) is prepended to the fresh bytes, packets are
/// extracted, and the unconsumed remainder is kept as this port's new tail
/// with the call's timestamp.
pub open spec fn poe_process_spec(
    st: StoreMap,
    port: Seq<char>,
    data: Seq<u8>,
    now: u64,
) -> PoeProcessResult {
    let st1 = crate::poe_canable::clear_all_expired_spec(st, now, TAIL_TIMEOUT_MS);
    let prior = if st1.dom().contains((port, 0)) {
        st1[(port, 0)].data
    } else {
        Seq::<u8>::empty()
    };
    let sc = poe_scan(prior + data);
    let st2 = st1.remove((port, 0));
    PoeProcessResult {
        store: if sc.tail.len() > 0 {
            st2.insert((port, 0), PartialPacketView { timestamp: now, data: sc.tail })
        } else {
            st2
        },
        packets: sc.packets,
    }
}

/// Parse one buffer's worth of POESerial data for `port` at time `now`.
///
/// The store holds each port's leftover tail under identifier zero.
pub fn process_poe_serial_data(
    store: &mut PartialStore,
    port: &String,
    data: &Vec<u8>,
    now: u64,
) -> (r: Vec<PoeSerialData>)
    requires
        old(store).wf(),
    ensures
        final(store).wf(),
        final(store)@ == poe_process_spec(old(store)@, port@, data@, now).store,
        r@.len() == poe_process_spec(old(store)@, port@, data@, now).packets.len(),
        forall|i: int|
            0 <= i < r@.len() ==> record_matches(
                poe_process_spec(old(store)@, port@, data@, now).packets[i],
                #[trigger] r@[i],
            ),
{
    store.clear_all_expired(now, TAIL_TIMEOUT_MS);
    let prior = store.get_partial_packet(port, 0);
    let mut combined: Vec<u8>;
    match prior {
        Some(p) => {
            combined = p.data;
        },
        None => {
            combined = Vec::new();
        },
    }
    let mut fresh = crate::poe_canable::copy_bytes(data);
    combined.append(&mut fresh);
    store.remove_partial_packet(port, 0);
    let (records, tail) = poe_extract_packets(&combined);
    if tail.len() > 0 {
        store.insert_partial_packet(port, 0, PartialPacket { timestamp: now, data: tail });
    }
    records
}

/// The wire bytes of one outgoing packet: the three fields between their
/// delimiters, then the CRC-8 of their concatenation as two uppercase hex
/// digits.
pub open spec fn poe_frame_bytes(h: Seq<u8>, a: Seq<u8>, v: Seq<u8>) -> Seq<u8> {
    seq![SOH] + h + seq![US] + a + seq![STX] + v + seq![ETX] + crate::hex::hex_byte(
        crate::crc::crc8_of(h + a + v),
    ) + seq![EOT]
}

/// Serialise one outgoing POESerial command.
pub fn poe_serial_frame(header: &str, argument: &str, value: &str) -> (r: String)
    ensures
        vstd::utf8::encode_utf8(r@) == poe_frame_bytes(
            header.spec_bytes(),
            argument.spec_bytes(),
            value.spec_bytes(),
        ),
{
    broadcast use vstd::utf8::valid_utf8_concat;
    broadcast use vstd::utf8::encode_utf8_valid_utf8;

    let mut hav: Vec<u8> = header.as_bytes_vec();
    let mut ab: Vec<u8> = argument.as_bytes_vec();
    let mut vb: Vec<u8> = value.as_bytes_vec();
    hav.append(&mut ab);
    hav.append(&mut vb);
    proof {
        assert(hav@ == header.spec_bytes() + argument.spec_bytes() + value.spec_bytes());
        assert(header.spec_bytes() + argument.spec_bytes() + value.spec_bytes()
            =~= header.spec_bytes() + (argument.spec_bytes() + value.spec_bytes()));
    }
    let crc: u8 = crate::crc::crc8(hav.as_slice());
    let mut out: Vec<u8> = Vec::new();
    out.push(SOH);
    let mut hb: Vec<u8> = header.as_bytes_vec();
    out.append(&mut hb);
    out.push(US);
    let mut ab2: Vec<u8> = argument.as_bytes_vec();
    out.append(&mut ab2);
    out.push(STX);
    let mut vb2: Vec<u8> = value.as_bytes_vec();
    out.append(&mut vb2);
    out.push(ETX);
    crate::hex::push_hex_byte(&mut out, crc);
    out.push(EOT);
    proof {
        assert(out@ =~= poe_frame_bytes(
            header.spec_bytes(),
            argument.spec_bytes(),
            value.spec_bytes(),
        ));
        assert(vstd::utf8::valid_utf8(out@)) by {
            let sep1 = seq![SOH];
            let sep2 = seq![US];
            let sep3 = seq![STX];
            let sep4 = seq![ETX];
            let crcb = crate::hex::hex_byte(crc);
            let sep5 = seq![EOT];
            crate::external::lemma_ascii_bytes(sep1);
            crate::external::lemma_ascii_bytes(sep2);
            crate::external::lemma_ascii_bytes(sep3);
            crate::external::lemma_ascii_bytes(sep4);
            crate::external::lemma_ascii_bytes(sep5);
            crate::external::lemma_ascii_bytes(crcb);
            assert(vstd::utf8::valid_utf8(header.spec_bytes()));
            assert(vstd::utf8::valid_utf8(argument.spec_bytes()));
            assert(vstd::utf8::valid_utf8(value.spec_bytes()));
            assert(vstd::utf8::valid_utf8(sep1 + header.spec_bytes()));
            assert(vstd::utf8::valid_utf8((sep1 + header.spec_bytes()) + sep2));
            assert(vstd::utf8::valid_utf8(((sep1 + header.spec_bytes()) + sep2)
                + argument.spec_bytes()));
            assert(vstd::utf8::valid_utf8((((sep1 + header.spec_bytes()) + sep2)
                + argument.spec_bytes()) + sep3));
            assert(vstd::utf8::valid_utf8(((((sep1 + header.spec_bytes()) + sep2)
                + argument.spec_bytes()) + sep3) + value.spec_bytes()));
            assert(vstd::utf8::valid_utf8((((((sep1 + header.spec_bytes()) + sep2)
                + argument.spec_bytes()) + sep3) + value.spec_bytes()) + sep4));
            assert(vstd::utf8::valid_utf8(((((((sep1 + header.spec_bytes()) + sep2)
                + argument.spec_bytes()) + sep3) + value.spec_bytes()) + sep4) + crcb));
            assert(vstd::utf8::valid_utf8((((((((sep1 + header.spec_bytes()) + sep2)
                + argument.spec_bytes()) + sep3) + value.spec_bytes()) + sep4) + crcb) + sep5));
            assert((((((((sep1 + header.spec_bytes()) + sep2) + argument.spec_bytes()) + sep3)
                + value.spec_bytes()) + sep4) + crcb) + sep5 =~= out@);
        }
    }
    match crate::external::utf8_string(&out) {
        Some(st) => {
            proof {
                vstd::utf8::decode_utf8_encode_utf8(out@);
            }
            st
        },
        None => {
            proof {
                assert(false);
            }
            String::new()
        },
    }
}

/// A field that uses none of the protocol's control bytes.
pub open spec fn field_clean(s: Seq<u8>) -> bool {
    forall|i: int|
        0 <= i < s.len() ==> (#[trigger] s[i]) != SOH && s[i] != STX && s[i] != ETX && s[i] != EOT
            && s[i] != US
}

/// Round trip: a packet built by `poe_frame_bytes` parses back to exactly
/// its three fields and its checksum, with an empty heap field and no
/// leftover tail — provided the fields stay clear of the control bytes.
pub proof fn lemma_poe_round_trip(h: Seq<u8>, a: Seq<u8>, v: Seq<u8>)
    requires
        field_clean(h),
        field_clean(a),
        field_clean(v),
    ensures
        poe_scan(poe_frame_bytes(h, a, v)).packets == seq![
            PoePacketBytes {
                header: h,
                argument: a,
                value: v,
                crc_hex: crate::hex::hex_byte(crate::crc::crc8_of(h + a + v)),
                free_heap_size: Seq::<u8>::empty(),
            },
        ],
        poe_scan(poe_frame_bytes(h, a, v)).tail == Seq::<u8>::empty(),
{
    let crcb = crate::hex::hex_byte(crate::crc::crc8_of(h + a + v));
    let s = poe_frame_bytes(h, a, v);
    let hl = h.len() as int;
    let al = a.len() as int;
    let vl = v.len() as int;
    let n = s.len() as int;
    assert(crcb.len() == 2);
    assert(n == hl + al + vl + 7);
    let us_pos = 1 + hl;
    let stx_pos = 2 + hl + al;
    let etx_pos = 3 + hl + al + vl;
    assert(crcb[0] != SOH && crcb[0] != STX && crcb[0] != ETX && crcb[0] != EOT && crcb[0] != US);
    assert(crcb[1] != SOH && crcb[1] != STX && crcb[1] != ETX && crcb[1] != EOT && crcb[1] != US);
    assert(s[0] == SOH);
    assert(s[us_pos] == US);
    assert(s[stx_pos] == STX);
    assert(s[etx_pos] == ETX);
    assert(s[etx_pos + 1] == crcb[0]);
    assert(s[etx_pos + 2] == crcb[1]);
    assert(s[n - 1] == EOT);
    assert(forall|j: int| 1 <= j < us_pos ==> s[j] == h[j - 1]);
    assert(forall|j: int| us_pos < j < stx_pos ==> s[j] == a[j - us_pos - 1]);
    assert(forall|j: int| stx_pos < j < etx_pos ==> s[j] == v[j - stx_pos - 1]);
    lemma_find_byte_is(s, SOH, 0, 0);
    lemma_find_byte_is(s, EOT, 0, n - 1);
    assert(s.subrange(0, n) =~= s);
    lemma_find_byte_is(s, US, 0, us_pos);
    lemma_find_byte_is(s, STX, 0, stx_pos);
    lemma_find_byte_is(s, ETX, 0, etx_pos);
    lemma_find_byte_is(s, US, etx_pos + 1, n);
    assert(packet_well_formed(s));
    let f = packet_fields(s);
    assert(f.header =~= h);
    assert(f.argument =~= a);
    assert(f.value =~= v);
    assert(f.crc_hex =~= crcb);
    assert(f.free_heap_size =~= Seq::<u8>::empty());
    let rest = s.subrange(n, n);
    assert(rest =~= Seq::<u8>::empty());
    assert(poe_scan(rest).packets =~= Seq::<PoePacketBytes>::empty());
    assert(poe_scan(s).packets =~= seq![f] + poe_scan(rest).packets);
    assert(seq![f] + poe_scan(rest).packets =~= seq![f]);
}

/// Tail closure: feeding a stream in two calls, with the first call's tail
/// prepended to the second, yields the same packets in the same order, and
/// the same final tail, as feeding it in one call.
pub proof fn lemma_poe_scan_append(x: Seq<u8>, y: Seq<u8>)
    ensures
        poe_scan(x + y).packets == poe_scan(x).packets + poe_scan(poe_scan(x).tail + y).packets,
        poe_scan(x + y).tail == poe_scan(poe_scan(x).tail + y).tail,
    decreases x.len(),
{
    let soh = find_byte(x, SOH, 0);
    let eot = find_byte(x, EOT, 0);
    lemma_find_byte(x, SOH, 0);
    lemma_find_byte(x, EOT, 0);
    if !(0 <= soh < x.len()) || !(0 <= eot < x.len()) || soh >= eot {
        assert(poe_scan(x).tail == x);
        assert(poe_scan(x).packets =~= Seq::<PoePacketBytes>::empty());
        assert(poe_scan(x).packets + poe_scan(x + y).packets =~= poe_scan(x + y).packets);
    } else {
        let z = x + y;
        assert(forall|j: int| 0 <= j < x.len() ==> z[j] == x[j]);
        lemma_find_byte_is(z, SOH, 0, soh);
        lemma_find_byte_is(z, EOT, 0, eot);
        let pkt = x.subrange(soh, eot + 1);
        assert(z.subrange(soh, eot + 1) =~= pkt);
        let xr = x.subrange(eot + 1, x.len() as int);
        assert(z.subrange(eot + 1, z.len() as int) =~= xr + y);
        lemma_poe_scan_append(xr, y);
        assert(poe_scan(x).tail == poe_scan(xr).tail);
        if packet_well_formed(pkt) {
            assert(poe_scan(z).packets =~= seq![packet_fields(pkt)] + poe_scan(xr + y).packets);
            assert(poe_scan(x).packets =~= seq![packet_fields(pkt)] + poe_scan(xr).packets);
            assert((seq![packet_fields(pkt)] + poe_scan(xr).packets) + poe_scan(
                poe_scan(xr).tail + y,
            ).packets =~= seq![packet_fields(pkt)] + (poe_scan(xr).packets + poe_scan(
                poe_scan(xr).tail + y,
            ).packets));
        } else {
            assert(poe_scan(z).packets =~= poe_scan(xr + y).packets);
            assert(poe_scan(x).packets =~= poe_scan(xr).packets);
        }
    }
}

/// Isolation: a parse call for one port leaves every other port's fresh
/// tail exactly as it was.  (A stale tail of any port is evicted: the
/// half-second timeout is enforced lazily, at whichever call comes next.)
pub proof fn lemma_poe_port_isolation(st: StoreMap, port: Seq<char>, data: Seq<u8>, now: u64)
    ensures
        forall|k: (Seq<char>, u32)|
            #![trigger st.dom().contains(k)]
            k.0 != port && st.dom().contains(k) && keep_packet(st[k], now, TAIL_TIMEOUT_MS)
                ==> poe_process_spec(st, port, data, now).store.dom().contains(k)
                && poe_process_spec(st, port, data, now).store[k] == st[k],
{
}

} // verus!
