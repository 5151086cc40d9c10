//! Codec for the ASCII representation of one CAN / CAN-FD frame.
//!
//! A frame on the wire is a type letter (`t T r R d D b B`), three to eight
//! uppercase hex digits of identifier, one hex digit of DLC, the payload as
//! hex digit pairs, and a carriage return.  The scanner walks a byte buffer
//! left to right, consumes every complete frame and passes every other byte
//! through to the tail in order.

use vstd::prelude::*;

verus! {

use crate::hex::{
    is_uhex, hex_val, hex_char, hex_seq_val, hex_render, uhex_digit, hex_digit_val,
    parse_hex_run, lemma_hex_seq_val_bound, lemma_pow16_le8, lemma_hex_render_ascii,
};

/// Carriage return, the frame terminator.
pub const CR: u8 = 0x0d;

/// The eight frame type letters, as bytes.
pub open spec fn is_frame_type(b: u8) -> bool {
    ||| b == 0x74  // t
    ||| b == 0x54  // T
    ||| b == 0x72  // r
    ||| b == 0x52  // R
    ||| b == 0x64  // d
    ||| b == 0x44  // D
    ||| b == 0x62  // b
    ||| b == 0x42  // B
}

/// Uppercase letters mark a 29-bit extended identifier.
pub open spec fn is_extended_type(b: u8) -> bool {
    b == 0x54 || b == 0x52 || b == 0x44 || b == 0x42
}

/// `r`/`R` are remote frames, which carry no payload.
pub open spec fn is_remote_type(b: u8) -> bool {
    b == 0x72 || b == 0x52
}

/// `t`/`T` are classic data frames.
pub open spec fn is_classic_type(b: u8) -> bool {
    b == 0x74 || b == 0x54
}

/// `d D b B` are CAN-FD data frames.
pub open spec fn is_fd_type(b: u8) -> bool {
    b == 0x64 || b == 0x44 || b == 0x62 || b == 0x42
}

/// Payload byte count for a CAN-FD DLC nibble.
pub open spec fn fd_payload_len(dlc: nat) -> nat {
    if dlc <= 8 {
        dlc
    } else if dlc == 9 {
        12
    } else if dlc == 10 {
        16
    } else if dlc == 11 {
        20
    } else if dlc == 12 {
        24
    } else if dlc == 13 {
        32
    } else if dlc == 14 {
        48
    } else if dlc == 15 {
        64
    } else {
        0
    }
}

/// Length of the maximal run of uppercase hex digits starting at `i`.
pub open spec fn hex_run_len(s: Seq<u8>, i: int) -> int
    decreases s.len() - i,
{
    if 0 <= i && i < s.len() && is_uhex(s[i]) {
        1 + hex_run_len(s, i + 1)
    } else {
        0
    }
}

/// Shape of the maximal hex run: its bounds and its boundary byte.
pub proof fn lemma_hex_run(s: Seq<u8>, i: int)
    requires
        0 <= i <= s.len(),
    ensures
        0 <= hex_run_len(s, i),
        i + hex_run_len(s, i) <= s.len(),
        forall|j: int| i <= j < i + hex_run_len(s, i) ==> is_uhex(s[j]),
        i + hex_run_len(s, i) < s.len() ==> !is_uhex(s[i + hex_run_len(s, i)]),
    decreases s.len() - i,
{
    if i < s.len() && is_uhex(s[i]) {
        lemma_hex_run(s, i + 1);
    }
}

/// A complete frame starts at `i`: a type letter, at least four hex digits,
/// and a carriage return right after the digit run.
pub open spec fn match_at(s: Seq<u8>, i: int) -> bool {
    &&& 0 <= i < s.len()
    &&& is_frame_type(s[i])
    &&& hex_run_len(s, i + 1) >= 4
    &&& i + 1 + hex_run_len(s, i + 1) < s.len()
    &&& s[i + 1 + hex_run_len(s, i + 1)] == CR
}

/// Number of bytes the frame starting at `i` occupies.
pub open spec fn match_len(s: Seq<u8>, i: int) -> int {
    2 + hex_run_len(s, i + 1)
}

/// How many digits of the run belong to the identifier: all but the last,
/// capped at eight.  (The digit after the identifier is the DLC.)
pub open spec fn id_len_of(n: int) -> int {
    if n - 1 <= 8 {
        n - 1
    } else {
        8
    }
}

/// One frame as scanned, before interpretation: type letter, numeric
/// identifier, DLC nibble, and the raw payload digits.
pub ghost struct RawFrameView {
    pub frame_type: u8,
    pub id: u32,
    pub dlc: u8,
    pub data_hex: Seq<u8>,
}

/// The frame starting at `i`, assuming `match_at(s, i)`.
pub open spec fn frame_at(s: Seq<u8>, i: int) -> RawFrameView {
    let n = hex_run_len(s, i + 1);
    let il = id_len_of(n);
    RawFrameView {
        frame_type: s[i],
        id: hex_seq_val(s.subrange(i + 1, i + 1 + il)) as u32,
        dlc: hex_val(s[i + 1 + il]) as u8,
        data_hex: s.subrange(i + 2 + il, i + 1 + n),
    }
}

/// Result of scanning a buffer: the frames found, in order, and every
/// unconsumed byte, in order.
pub ghost struct ScanResult {
    pub frames: Seq<RawFrameView>,
    pub tail: Seq<u8>,
}

/// Scan `s` from position `i`: consume each complete frame, pass every
/// other byte to the tail.
pub open spec fn scan_from(s: Seq<u8>, i: int) -> ScanResult
    decreases s.len() - i,
{
    if !(0 <= i < s.len()) {
        ScanResult { frames: Seq::empty(), tail: Seq::empty() }
    } else if match_at(s, i) {
        let rest = scan_from(s, i + match_len(s, i));
        ScanResult { frames: seq![frame_at(s, i)] + rest.frames, tail: rest.tail }
    } else {
        let rest = scan_from(s, i + 1);
        ScanResult { frames: rest.frames, tail: seq![s[i]] + rest.tail }
    }
}

/// Scan a whole buffer.
pub open spec fn scan(s: Seq<u8>) -> ScanResult {
    scan_from(s, 0)
}

/// One scanned frame, executable form.
#[derive(Debug)]
pub struct CanFrame {
    pub frame_type: u8,
    pub id: u32,
    pub dlc: u8,
    pub data_hex: Vec<u8>,
}

impl View for CanFrame {
    type V = RawFrameView;

    open spec fn view(&self) -> RawFrameView {
        RawFrameView {
            frame_type: self.frame_type,
            id: self.id,
            dlc: self.dlc,
            data_hex: self.data_hex@,
        }
    }
}

/// Executable test for a frame type letter.
pub fn frame_type_byte(b: u8) -> (r: bool)
    ensures
        r == is_frame_type(b),
{
    b == 0x74 || b == 0x54 || b == 0x72 || b == 0x52 || b == 0x64 || b == 0x44 || b == 0x62
        || b == 0x42
}

/// Scan a buffer for CAN frames.  Returns the frames found, in order, and
/// the bytes no frame consumed, in order.
pub fn scan_frames(data: &Vec<u8>) -> (r: (Vec<CanFrame>, Vec<u8>))
    ensures
        r.0@.map_values(|f: CanFrame| f@) == scan(data@).frames,
        r.1@ == scan(data@).tail,
{
    let mut frames: Vec<CanFrame> = Vec::new();
    let mut tail: Vec<u8> = Vec::new();
    let mut i: usize = 0;
    while i < data.len()
        invariant
            i <= data@.len(),
            scan(data@).frames == frames@.map_values(|f: CanFrame| f@) + scan_from(
                data@,
                i as int,
            ).frames,
            scan(data@).tail == tail@ + scan_from(data@, i as int).tail,
        decreases data@.len() - i,
    {
        let b = data[i];
        let mut consumed = false;
        if frame_type_byte(b) {
            let mut j: usize = i + 1;
            while j < data.len() && uhex_digit(data[j])
                invariant
                    i + 1 <= j <= data@.len(),
                    forall|k: int| i + 1 <= k < j ==> is_uhex(data@[k]),
                    hex_run_len(data@, i + 1) == (j - i - 1) + hex_run_len(data@, j as int),
                decreases data@.len() - j,
            {
                j = j + 1;
            }
            proof {
                assert(hex_run_len(data@, j as int) == 0);
            }
            let n = j - i - 1;
            if n >= 4 && j < data.len() && data[j] == CR {
                proof {
                    assert(match_at(data@, i as int));
                }
                let id_len: usize = if n - 1 <= 8 {
                    n - 1
                } else {
                    8
                };
                let id: u32 = parse_hex_run(data.as_slice(), i + 1, i + 1 + id_len);
                proof {
                    lemma_hex_seq_val_bound(data@.subrange(i + 1, i + 1 + id_len as int));
                    lemma_pow16_le8();
                }
                let dlc: u8 = hex_digit_val(data[i + 1 + id_len]);
                let mut dh: Vec<u8> = Vec::new();
                let mut k: usize = i + 2 + id_len;
                proof {
                    assert(data@.subrange((i + 2 + id_len) as int, (i + 2 + id_len) as int)
                        =~= Seq::<u8>::empty());
                }
                while k < j
                    invariant
                        i + 2 + id_len <= k <= j <= data@.len(),
                        dh@ == data@.subrange((i + 2 + id_len) as int, k as int),
                    decreases j - k,
                {
                    dh.push(data[k]);
                    proof {
                        assert(data@.subrange((i + 2 + id_len) as int, k as int).push(data@[k as int])
                            =~= data@.subrange((i + 2 + id_len) as int, k + 1));
                    }
                    k = k + 1;
                }
                let f = CanFrame { frame_type: b, id, dlc, data_hex: dh };
                proof {
                    let fv = frame_at(data@, i as int);
                    assert(f@ == fv);
                    assert(scan_from(data@, i as int).frames =~= seq![fv] + scan_from(
                        data@,
                        j + 1,
                    ).frames);
                    assert(frames@.push(f).map_values(|g: CanFrame| g@) =~= frames@.map_values(
                        |g: CanFrame| g@,
                    ).push(f@));
                    assert(frames@.map_values(|g: CanFrame| g@) + (seq![fv] + scan_from(
                        data@,
                        j + 1,
                    ).frames) =~= frames@.map_values(|g: CanFrame| g@).push(f@) + scan_from(
                        data@,
                        j + 1,
                    ).frames);
                }
                frames.push(f);
                i = j + 1;
                consumed = true;
            } else {
                proof {
                    assert(!match_at(data@, i as int));
                }
            }
        } else {
            proof {
                assert(!match_at(data@, i as int));
            }
        }
        if !consumed {
            proof {
                assert(scan_from(data@, i as int).tail =~= seq![data@[i as int]] + scan_from(
                    data@,
                    i + 1,
                ).tail);
                assert(tail@ + (seq![data@[i as int]] + scan_from(data@, i + 1).tail)
                    =~= tail@.push(data@[i as int]) + scan_from(data@, i + 1).tail);
            }
            tail.push(b);
            i = i + 1;
        }
    }
    proof {
        assert(frames@.map_values(|g: CanFrame| g@) + scan_from(data@, i as int).frames
            =~= frames@.map_values(|g: CanFrame| g@));
        assert(tail@ + scan_from(data@, i as int).tail =~= tail@);
    }
    (frames, tail)
}

/// The sub-fields of a 29-bit extended CAN identifier.
#[derive(Clone, Copy, Debug, PartialEq, Eq, Structural)]
pub struct FullId {
    pub is_full_packet: u32,
    pub header_code: u32,
    pub argument_code: u32,
    pub target_id: u32,
    pub return_id: u32,
}

/// Bit-field decomposition of an extended identifier.
pub open spec fn full_id_decoded(id: u32) -> FullId {
    FullId {
        is_full_packet: (id >> 28) & 0x01,
        header_code: (id >> 26) & 0x03,
        argument_code: (id >> 16) & 0x3ff,
        target_id: (id >> 8) & 0xff,
        return_id: id & 0xff,
    }
}

/// The all-zero decomposition used for standard (11-bit) identifiers.
pub open spec fn zero_full_id() -> FullId {
    FullId { is_full_packet: 0, header_code: 0, argument_code: 0, target_id: 0, return_id: 0 }
}

/// Decompose an extended identifier into its sub-fields.
pub fn decode_full_id(id: u32) -> (r: FullId)
    ensures
        r == full_id_decoded(id),
{
    FullId {
        is_full_packet: (id >> 28) & 0x01,
        header_code: (id >> 26) & 0x03,
        argument_code: (id >> 16) & 0x3ff,
        target_id: (id >> 8) & 0xff,
        return_id: id & 0xff,
    }
}

/// Payload bytes read from hex digit pairs starting at `i`, at most `limit`
/// bytes, stopping when fewer than two digits remain.
pub open spec fn parse_pairs_from(s: Seq<u8>, i: int, limit: int) -> Seq<u8>
    decreases s.len() - i,
{
    if !(0 <= i) || i + 1 >= s.len() || limit <= 0 {
        Seq::empty()
    } else {
        seq![(hex_val(s[i]) * 16 + hex_val(s[i + 1])) as u8] + parse_pairs_from(
            s,
            i + 2,
            limit - 1,
        )
    }
}

/// Drop trailing zero bytes.
pub open spec fn trim_zeros(s: Seq<u8>) -> Seq<u8>
    decreases s.len(),
{
    if s.len() == 0 {
        s
    } else if s.last() == 0 {
        trim_zeros(s.drop_last())
    } else {
        s
    }
}

/// One frame after interpretation: classification flags, payload bytes,
/// and the identifier's decompositions.
pub struct DecodedFrame {
    pub is_extended: bool,
    pub is_remote: bool,
    pub is_classic: bool,
    pub is_fd: bool,
    pub full_id: FullId,
    pub main_id: u32,
    pub dlc: u8,
    pub data: Vec<u8>,
}

/// Mathematical form of a decoded frame.
pub ghost struct DecodedFrameView {
    pub is_extended: bool,
    pub is_remote: bool,
    pub is_classic: bool,
    pub is_fd: bool,
    pub full_id: FullId,
    pub main_id: u32,
    pub dlc: u8,
    pub data: Seq<u8>,
}

impl View for DecodedFrame {
    type V = DecodedFrameView;

    open spec fn view(&self) -> DecodedFrameView {
        DecodedFrameView {
            is_extended: self.is_extended,
            is_remote: self.is_remote,
            is_classic: self.is_classic,
            is_fd: self.is_fd,
            full_id: self.full_id,
            main_id: self.main_id,
            dlc: self.dlc,
            data: self.data@,
        }
    }
}

/// How many payload bytes a frame's DLC announces.
pub open spec fn payload_limit(f: RawFrameView) -> nat {
    if is_fd_type(f.frame_type) {
        fd_payload_len(f.dlc as nat)
    } else if f.dlc <= 8 {
        f.dlc as nat
    } else {
        8
    }
}

/// Interpretation of one scanned frame: classification, payload bytes
/// (remote frames have none; CAN-FD payloads lose their trailing zeros),
/// and the identifier decompositions.
pub open spec fn decoded_of(f: RawFrameView) -> DecodedFrameView {
    let ext = is_extended_type(f.frame_type);
    let rem = is_remote_type(f.frame_type);
    let fd = is_fd_type(f.frame_type);
    let raw = if rem {
        Seq::<u8>::empty()
    } else {
        parse_pairs_from(f.data_hex, 0, payload_limit(f) as int)
    };
    DecodedFrameView {
        is_extended: ext,
        is_remote: rem,
        is_classic: is_classic_type(f.frame_type),
        is_fd: fd,
        full_id: if ext {
            full_id_decoded(f.id)
        } else {
            zero_full_id()
        },
        main_id: if ext {
            (f.id >> 16) & 0xfff
        } else {
            f.id & 0x7ff
        },
        dlc: f.dlc,
        data: if fd {
            trim_zeros(raw)
        } else {
            raw
        },
    }
}

/// Executable payload byte count for a CAN-FD DLC nibble.
pub fn fd_payload_bytes(dlc: u8) -> (r: usize)
    ensures
        r == fd_payload_len(dlc as nat),
{
    if dlc <= 8 {
        dlc as usize
    } else if dlc == 9 {
        12
    } else if dlc == 10 {
        16
    } else if dlc == 11 {
        20
    } else if dlc == 12 {
        24
    } else if dlc == 13 {
        32
    } else if dlc == 14 {
        48
    } else if dlc == 15 {
        64
    } else {
        0
    }
}

/// Interpret one scanned frame.
pub fn decode_frame(f: &CanFrame) -> (r: DecodedFrame)
    ensures
        r@ == decoded_of(f@),
{
    let is_extended = f.frame_type == 0x54 || f.frame_type == 0x52 || f.frame_type == 0x44
        || f.frame_type == 0x42;
    let is_remote = f.frame_type == 0x72 || f.frame_type == 0x52;
    let is_classic = f.frame_type == 0x74 || f.frame_type == 0x54;
    let is_fd = f.frame_type == 0x64 || f.frame_type == 0x44 || f.frame_type == 0x62
        || f.frame_type == 0x42;
    let limit: usize = if is_fd {
        fd_payload_bytes(f.dlc)
    } else if f.dlc <= 8 {
        f.dlc as usize
    } else {
        8
    };
    let mut data: Vec<u8> = Vec::new();
    if !is_remote {
        let s = &f.data_hex;
        let mut i: usize = 0;
        proof {
            assert(parse_pairs_from(s@, 0, limit as int) =~= Seq::<u8>::empty()
                + parse_pairs_from(s@, 0, limit as int));
        }
        while i < s.len() && i + 1 < s.len() && data.len() < limit
            invariant
                i <= s@.len() + 1,
                data@.len() <= limit,
                parse_pairs_from(s@, 0, limit as int) == data@ + parse_pairs_from(
                    s@,
                    i as int,
                    limit - data@.len(),
                ),
            decreases s@.len() - i,
        {
            let hi = s[i];
            let lo = s[i + 1];
            let hv: u8 = if 0x30 <= hi && hi <= 0x39 {
                hi - 0x30
            } else if 0x41 <= hi && hi <= 0x46 {
                hi - 0x41 + 10
            } else if 0x61 <= hi && hi <= 0x66 {
                hi - 0x61 + 10
            } else {
                0
            };
            let lv: u8 = if 0x30 <= lo && lo <= 0x39 {
                lo - 0x30
            } else if 0x41 <= lo && lo <= 0x46 {
                lo - 0x41 + 10
            } else if 0x61 <= lo && lo <= 0x66 {
                lo - 0x61 + 10
            } else {
                0
            };
            proof {
                assert(hv == hex_val(s@[i as int]) && hv < 16);
                assert(lv == hex_val(s@[i + 1]) && lv < 16);
                assert(parse_pairs_from(s@, i as int, limit - data@.len()) =~= seq![
                    (hex_val(s@[i as int]) * 16 + hex_val(s@[i + 1])) as u8,
                ] + parse_pairs_from(s@, i + 2, limit - data@.len() - 1));
                assert(data@ + (seq![(hex_val(s@[i as int]) * 16 + hex_val(s@[i + 1])) as u8]
                    + parse_pairs_from(s@, i + 2, limit - data@.len() - 1)) =~= data@.push(
                    (hv * 16 + lv) as u8,
                ) + parse_pairs_from(s@, i + 2, limit - data@.len() - 1));
            }
            data.push(hv * 16 + lv);
            i = i + 2;
        }
        proof {
            assert(parse_pairs_from(s@, i as int, limit - data@.len()) =~= Seq::<u8>::empty());
            assert(data@ + Seq::<u8>::empty() =~= data@);
        }
    }
    if is_fd {
        let ghost full = data@;
        while data.len() > 0 && data[data.len() - 1] == 0
            invariant
                trim_zeros(full) == trim_zeros(data@),
            decreases data@.len(),
        {
            proof {
                assert(data@.drop_last() =~= data@.subrange(0, data@.len() - 1));
            }
            data.pop();
        }
        proof {
            assert(trim_zeros(data@) =~= data@);
        }
    }
    let full_id = if is_extended {
        decode_full_id(f.id)
    } else {
        FullId { is_full_packet: 0, header_code: 0, argument_code: 0, target_id: 0, return_id: 0 }
    };
    let main_id: u32 = if is_extended {
        (f.id >> 16) & 0xfff
    } else {
        f.id & 0x7ff
    };
    DecodedFrame {
        is_extended,
        is_remote,
        is_classic,
        is_fd,
        full_id,
        main_id,
        dlc: f.dlc,
        data,
    }
}

/// DLC nibble emitted for a payload of `len` bytes on a CAN-FD frame.
pub open spec fn fd_dlc_val(len: nat) -> nat {
    if len <= 8 {
        len
    } else if len <= 12 {
        9
    } else if len <= 16 {
        10
    } else if len <= 20 {
        11
    } else if len <= 24 {
        12
    } else if len <= 32 {
        13
    } else if len <= 48 {
        14
    } else if len <= 64 {
        15
    } else {
        8
    }
}

/// Padded payload length for a CAN-FD frame of `len` bytes.
pub open spec fn fd_padded_len(len: nat) -> nat {
    if len <= 8 {
        len
    } else if len <= 12 {
        12
    } else if len <= 16 {
        16
    } else if len <= 20 {
        20
    } else if len <= 24 {
        24
    } else if len <= 32 {
        32
    } else if len <= 48 {
        48
    } else if len <= 64 {
        64
    } else {
        8
    }
}

/// DLC nibble for an outgoing frame: the CAN-FD table, or the classic
/// clamp to eight.
pub open spec fn enc_dlc_val(fd: bool, len: nat) -> nat {
    if fd {
        fd_dlc_val(len)
    } else if len <= 8 {
        len
    } else {
        8
    }
}

/// Emitted payload length for an outgoing frame.
pub open spec fn enc_padded_len(fd: bool, len: nat) -> nat {
    if fd {
        fd_padded_len(len)
    } else if len <= 8 {
        len
    } else {
        8
    }
}

/// `data` left-filled with zero bytes to exactly `plen` bytes (or cut to
/// `plen` when longer).
pub open spec fn padded_data(data: Seq<u8>, plen: nat) -> Seq<u8> {
    Seq::new(
        plen,
        |k: int|
            if k < data.len() {
                data[k]
            } else {
                0
            },
    )
}

/// A byte sequence as uppercase hex digit pairs.
pub open spec fn hex_pairs_of(s: Seq<u8>) -> Seq<u8>
    decreases s.len(),
{
    if s.len() == 0 {
        Seq::empty()
    } else {
        hex_pairs_of(s.drop_last()) + crate::hex::hex_byte(s.last())
    }
}

/// Every byte of a hex pair rendering is ASCII.
pub proof fn lemma_hex_pairs_ascii(s: Seq<u8>)
    ensures
        forall|k: int| 0 <= k < hex_pairs_of(s).len() ==> hex_pairs_of(s)[k] < 0x80,
    decreases s.len(),
{
    if s.len() == 0 {
    } else {
        lemma_hex_pairs_ascii(s.drop_last());
        assert forall|k: int| 0 <= k < hex_pairs_of(s).len() implies hex_pairs_of(s)[k]
            < 0x80 by {
            let head = hex_pairs_of(s.drop_last());
            if k < head.len() {
            } else {
                assert(hex_pairs_of(s)[k] == crate::hex::hex_byte(s.last())[k - head.len()]);
            }
        }
    }
}

/// The byte a frame type letter stands for.
pub open spec fn frame_char_byte(c: char) -> u8 {
    if c == 't' {
        0x74
    } else if c == 'T' {
        0x54
    } else if c == 'r' {
        0x72
    } else if c == 'R' {
        0x52
    } else if c == 'd' {
        0x64
    } else if c == 'D' {
        0x44
    } else if c == 'b' {
        0x62
    } else if c == 'B' {
        0x42
    } else {
        0
    }
}

/// The wire bytes of one outgoing frame: type letter, identifier as eight
/// (extended) or three (standard) hex digits, the DLC nibble, the padded
/// payload as hex pairs (none on remote frames), and a carriage return.
pub open spec fn encoded_frame(tb: u8, id: u32, data: Option<Seq<u8>>, dlc: u32) -> Seq<u8> {
    let ext = is_extended_type(tb);
    let fd = is_fd_type(tb);
    let rem = is_remote_type(tb);
    let dval = enc_dlc_val(fd, dlc as nat);
    let plen = enc_padded_len(fd, dlc as nat);
    let data_part = match data {
        Some(d) => if rem {
            Seq::<u8>::empty()
        } else {
            hex_pairs_of(padded_data(d, plen))
        },
        None => Seq::<u8>::empty(),
    };
    seq![tb] + hex_render(id as nat, if ext {
        8
    } else {
        3
    }) + seq![hex_char(dval)] + data_part + seq![CR]
}

/// The view of an optional byte vector.
pub open spec fn opt_bytes_view(d: Option<Vec<u8>>) -> Option<Seq<u8>> {
    match d {
        Some(v) => Some(v@),
        None => None,
    }
}

/// Every byte of an encoded frame is ASCII.
pub proof fn lemma_encoded_frame_ascii(tb: u8, id: u32, data: Option<Seq<u8>>, dlc: u32)
    requires
        is_frame_type(tb),
    ensures
        forall|k: int|
            0 <= k < encoded_frame(tb, id, data, dlc).len() ==> encoded_frame(
                tb,
                id,
                data,
                dlc,
            )[k] < 0x80,
{
    let ext = is_extended_type(tb);
    let fd = is_fd_type(tb);
    let rem = is_remote_type(tb);
    let dval = enc_dlc_val(fd, dlc as nat);
    let plen = enc_padded_len(fd, dlc as nat);
    let idw: nat = if ext {
        8
    } else {
        3
    };
    let data_part = match data {
        Some(d) => if rem {
            Seq::<u8>::empty()
        } else {
            hex_pairs_of(padded_data(d, plen))
        },
        None => Seq::<u8>::empty(),
    };
    let whole = encoded_frame(tb, id, data, dlc);
    lemma_hex_render_ascii(id as nat, idw);
    crate::hex::lemma_hex_char_ascii(dval);
    if data is Some && !rem {
        lemma_hex_pairs_ascii(padded_data(data.unwrap(), plen));
    }
    assert forall|k: int| 0 <= k < whole.len() implies whole[k] < 0x80 by {
        let rend = hex_render(id as nat, idw);
        if k == 0 {
        } else if k < 1 + rend.len() {
            assert(whole[k] == rend[k - 1]);
        } else if k == 1 + rend.len() {
            assert(whole[k] == hex_char(dval));
        } else if k < 2 + rend.len() + data_part.len() {
            assert(whole[k] == data_part[k - 2 - rend.len()]);
        } else {
            assert(whole[k] == CR);
        }
    }
}

/// Format one CAN frame for the wire.
///
/// Returns the ASCII frame string; the `Err` arm is never taken.
pub fn format_can_frame(frame_type: char, id: u32, data: Option<Vec<u8>>, dlc: u32) -> (r:
    Result<String, String>)
    requires
        frame_type == 't' || frame_type == 'T' || frame_type == 'r' || frame_type == 'R'
            || frame_type == 'd' || frame_type == 'D' || frame_type == 'b' || frame_type == 'B',
    ensures
        r matches Ok(s) && s@ == crate::external::ascii_chars_of(
            encoded_frame(frame_char_byte(frame_type), id, opt_bytes_view(data), dlc),
        ),
{
    let tb: u8 = if frame_type == 't' {
        0x74
    } else if frame_type == 'T' {
        0x54
    } else if frame_type == 'r' {
        0x72
    } else if frame_type == 'R' {
        0x52
    } else if frame_type == 'd' {
        0x64
    } else if frame_type == 'D' {
        0x44
    } else if frame_type == 'b' {
        0x62
    } else {
        0x42
    };
    let is_extended = tb == 0x54 || tb == 0x52 || tb == 0x44 || tb == 0x42;
    let is_fd = tb == 0x64 || tb == 0x44 || tb == 0x62 || tb == 0x42;
    let is_remote = tb == 0x72 || tb == 0x52;
    let dval: u32 = if is_fd {
        if dlc <= 8 {
            dlc
        } else if dlc <= 12 {
            9
        } else if dlc <= 16 {
            10
        } else if dlc <= 20 {
            11
        } else if dlc <= 24 {
            12
        } else if dlc <= 32 {
            13
        } else if dlc <= 48 {
            14
        } else if dlc <= 64 {
            15
        } else {
            8
        }
    } else if dlc <= 8 {
        dlc
    } else {
        8
    };
    let plen: usize = if is_fd {
        if dlc <= 8 {
            dlc as usize
        } else if dlc <= 12 {
            12
        } else if dlc <= 16 {
            16
        } else if dlc <= 20 {
            20
        } else if dlc <= 24 {
            24
        } else if dlc <= 32 {
            32
        } else if dlc <= 48 {
            48
        } else if dlc <= 64 {
            64
        } else {
            8
        }
    } else if dlc <= 8 {
        dlc as usize
    } else {
        8
    };
    let mut out: Vec<u8> = Vec::new();
    out.push(tb);
    proof {
        assert(out@ =~= seq![tb]);
    }
    let idw: usize = if is_extended {
        8
    } else {
        3
    };
    crate::hex::push_hex_render(&mut out, id, idw);
    crate::hex::push_hex_render(&mut out, dval, 1);
    proof {
        assert(hex_render(dval as nat, 1) =~= seq![hex_char(dval as nat)]);
    }
    let ghost head = seq![tb] + hex_render(id as nat, idw as nat) + seq![
        hex_char(enc_dlc_val(is_fd, dlc as nat)),
    ];
    proof {
        assert(out@ =~= head);
    }
    let ghost data_part_spec = match opt_bytes_view(data) {
        Some(d) => if is_remote {
            Seq::<u8>::empty()
        } else {
            hex_pairs_of(padded_data(d, plen as nat))
        },
        None => Seq::<u8>::empty(),
    };
    if let Some(d) = &data {
        if !is_remote {
            let ghost padded = padded_data(d@, plen as nat);
            let mut k: usize = 0;
            proof {
                assert(padded.take(0) =~= Seq::<u8>::empty());
                assert(out@ =~= head + hex_pairs_of(padded.take(0)));
            }
            while k < plen
                invariant
                    k <= plen,
                    padded == padded_data(d@, plen as nat),
                    out@ == head + hex_pairs_of(padded.take(k as int)),
                decreases plen - k,
            {
                let byte: u8 = if k < d.len() {
                    d[k]
                } else {
                    0
                };
                proof {
                    assert(padded.take(k + 1).drop_last() =~= padded.take(k as int));
                    assert(padded.take(k + 1).last() == byte);
                    assert(hex_pairs_of(padded.take(k + 1)) =~= hex_pairs_of(padded.take(k as int))
                        + crate::hex::hex_byte(byte));
                }
                crate::hex::push_hex_byte(&mut out, byte);
                proof {
                    assert((head + hex_pairs_of(padded.take(k as int))) + crate::hex::hex_byte(byte)
                        =~= head + hex_pairs_of(padded.take(k + 1)));
                }
                k = k + 1;
            }
            proof {
                assert(padded.take(plen as int) =~= padded);
            }
        }
    }
    proof {
        assert(out@ =~= head + data_part_spec);
    }
    out.push(CR);
    proof {
        assert(out@ =~= encoded_frame(tb, id, opt_bytes_view(data), dlc));
        lemma_encoded_frame_ascii(tb, id, opt_bytes_view(data), dlc);
        crate::external::lemma_ascii_bytes(out@);
    }
    match crate::external::utf8_string(&out) {
        Some(s) => Ok(s),
        None => {
            proof {
                assert(false);
            }
            Err(String::new())
        },
    }
}

/// Shape of a hex pair rendering: twice as long, digit pairs in place.
proof fn lemma_hex_pairs_shape(s: Seq<u8>)
    ensures
        hex_pairs_of(s).len() == 2 * s.len(),
        forall|k: int|
            0 <= k < s.len() ==> hex_pairs_of(s)[2 * k] == hex_char((s[k] / 16) as nat)
                && hex_pairs_of(s)[2 * k + 1] == hex_char((s[k] % 16) as nat),
        forall|j: int| 0 <= j < hex_pairs_of(s).len() ==> is_uhex(hex_pairs_of(s)[j]),
    decreases s.len(),
{
    if s.len() == 0 {
    } else {
        lemma_hex_pairs_shape(s.drop_last());
        crate::hex::lemma_hex_char_val((s.last() / 16) as nat);
        crate::hex::lemma_hex_char_val((s.last() % 16) as nat);
        let head = hex_pairs_of(s.drop_last());
        assert forall|k: int| 0 <= k < s.len() implies hex_pairs_of(s)[2 * k] == hex_char(
            (s[k] / 16) as nat,
        ) && hex_pairs_of(s)[2 * k + 1] == hex_char((s[k] % 16) as nat) by {
            if k < s.len() - 1 {
                assert(s.drop_last()[k] == s[k]);
                assert(hex_pairs_of(s)[2 * k] == head[2 * k]);
                assert(hex_pairs_of(s)[2 * k + 1] == head[2 * k + 1]);
            } else {
                assert(hex_pairs_of(s)[2 * k] == crate::hex::hex_byte(s.last())[0]);
                assert(hex_pairs_of(s)[2 * k + 1] == crate::hex::hex_byte(s.last())[1]);
            }
        }
        assert forall|j: int| 0 <= j < hex_pairs_of(s).len() implies is_uhex(
            hex_pairs_of(s)[j],
        ) by {
            if j < head.len() {
            } else {
                assert(hex_pairs_of(s)[j] == crate::hex::hex_byte(s.last())[j - head.len()]);
            }
        }
    }
}

/// Reading hex pairs back, from position `2 * k` on with `s.len() - k`
/// bytes allowed, yields the bytes from `k` on.
proof fn lemma_parse_pairs_inverse(s: Seq<u8>, k: int)
    requires
        0 <= k <= s.len(),
    ensures
        parse_pairs_from(hex_pairs_of(s), 2 * k, s.len() - k) == s.skip(k),
    decreases s.len() - k,
{
    lemma_hex_pairs_shape(s);
    let bytes = hex_pairs_of(s);
    if k == s.len() {
        assert(s.skip(k) =~= Seq::<u8>::empty());
    } else {
        lemma_parse_pairs_inverse(s, k + 1);
        crate::hex::lemma_hex_char_val((s[k] / 16) as nat);
        crate::hex::lemma_hex_char_val((s[k] % 16) as nat);
        assert(bytes[2 * k] == hex_char((s[k] / 16) as nat));
        assert(bytes[2 * k + 1] == hex_char((s[k] % 16) as nat));
        assert(hex_val(bytes[2 * k]) * 16 + hex_val(bytes[2 * k + 1]) == (s[k] / 16) * 16 + (
        s[k] % 16));
        assert((s[k] / 16) * 16 + (s[k] % 16) == s[k]);
        assert(parse_pairs_from(bytes, 2 * k, s.len() - k) == seq![s[k]] + parse_pairs_from(
            bytes,
            2 * (k + 1),
            s.len() - (k + 1),
        ));
        assert(seq![s[k]] + s.skip(k + 1) =~= s.skip(k));
    }
}

/// A hex run bounded by a non-digit is exactly as long as its digits.
proof fn lemma_hex_run_determined(s: Seq<u8>, i: int, n: int)
    requires
        0 <= i,
        n >= 0,
        i + n <= s.len(),
        forall|j: int| i <= j < i + n ==> is_uhex(s[j]),
        i + n < s.len() ==> !is_uhex(s[i + n]),
    ensures
        hex_run_len(s, i) == n,
    decreases n,
{
    if n == 0 {
    } else {
        lemma_hex_run_determined(s, i + 1, n - 1);
    }
}

/// Round trip of the frame codec: an encoded frame scans back as exactly
/// one frame with the fields it was built from, and its payload decodes to
/// the bytes it was given — so re-encoding those fields reproduces the
/// wire text.
///
/// The hypotheses delimit the invertible wire forms: the payload length
/// must be one the DLC table can state exactly; a standard (11-bit) frame
/// carries no payload, since the grammar reads all but the last digit of a
/// longer run as identifier; a remote frame has none by definition; and a
/// CAN-FD payload must not end in a zero byte, which the decoder trims.
pub proof fn lemma_frame_codec_round_trip(tb: u8, id: u32, data: Seq<u8>)
    requires
        is_frame_type(tb),
        is_extended_type(tb) || id <= 0xfff,
        is_extended_type(tb) || data.len() == 0,
        is_remote_type(tb) ==> data.len() == 0,
        enc_padded_len(is_fd_type(tb), data.len()) == data.len(),
        is_fd_type(tb) ==> (data.len() == 0 || data.last() != 0),
    ensures
        ({
            let bytes = encoded_frame(tb, id, Some(data), data.len() as u32);
            let sc = scan(bytes);
            &&& sc.frames.len() == 1
            &&& sc.tail.len() == 0
            &&& sc.frames[0].frame_type == tb
            &&& sc.frames[0].id == id
            &&& decoded_of(sc.frames[0]).data == data
            &&& encoded_frame(
                sc.frames[0].frame_type,
                sc.frames[0].id,
                Some(decoded_of(sc.frames[0]).data),
                decoded_of(sc.frames[0]).data.len() as u32,
            ) == bytes
        }),
{
    let ext = is_extended_type(tb);
    let fd = is_fd_type(tb);
    let rem = is_remote_type(tb);
    let len = data.len() as int;
    let w: int = if ext {
        8
    } else {
        3
    };
    let dval = enc_dlc_val(fd, data.len());
    let plen = enc_padded_len(fd, data.len());
    let rend = hex_render(id as nat, w as nat);
    let pairs: Seq<u8> = if rem {
        Seq::<u8>::empty()
    } else {
        hex_pairs_of(padded_data(data, plen))
    };
    let p: int = pairs.len() as int;
    let bytes = encoded_frame(tb, id, Some(data), data.len() as u32);
    assert(padded_data(data, plen) =~= data);
    crate::hex::lemma_pow16_le8();
    crate::hex::lemma_hex_render_len(id as nat, w as nat);
    crate::hex::lemma_hex_render_uhex(id as nat, w as nat);
    crate::hex::lemma_hex_render_val(id as nat, w as nat);
    crate::hex::lemma_hex_char_val(dval);
    lemma_hex_pairs_shape(data);
    assert(rem ==> p == 0);
    assert(!rem ==> p == 2 * len);
    assert(bytes =~= seq![tb] + rend + seq![hex_char(dval)] + pairs + seq![CR]);
    let n_run: int = w + 1 + p;
    assert(bytes.len() == n_run + 2);
    assert(bytes[0] == tb);
    assert(forall|j: int| 1 <= j < 1 + w ==> bytes[j] == rend[j - 1]);
    assert(bytes[1 + w] == hex_char(dval));
    assert(forall|j: int| 2 + w <= j < 1 + n_run ==> bytes[j] == pairs[j - 2 - w]);
    assert(bytes[1 + n_run] == CR);
    assert(forall|j: int| 1 <= j < 1 + n_run ==> is_uhex(bytes[j]));
    assert(!is_uhex(CR));
    lemma_hex_run_determined(bytes, 1, n_run);
    assert(match_at(bytes, 0));
    assert(match_len(bytes, 0) == 2 + n_run);
    let f = frame_at(bytes, 0);
    let il = id_len_of(n_run);
    assert(il == w);
    assert(bytes.subrange(1, 1 + w) =~= rend);
    assert(f.id == id) by {
        assert(hex_seq_val(rend) == id as nat);
        if ext {
            assert((id as nat) < crate::hex::pow16(8));
        }
    }
    assert(f.frame_type == tb);
    assert(f.dlc == dval as u8);
    assert(f.data_hex =~= pairs);
    let d = decoded_of(f);
    assert(payload_limit(f) == data.len()) by {
        if fd {
            assert(fd_payload_len(dval) == plen);
        }
    }
    assert(d.data == data) by {
        if rem {
            assert(data =~= Seq::<u8>::empty());
        } else {
            lemma_parse_pairs_inverse(data, 0);
            assert(data.skip(0) =~= data);
            assert(parse_pairs_from(pairs, 0, len) == data);
            if fd {
                assert(trim_zeros(data) =~= data);
            }
        }
    }
    let rest = scan_from(bytes, 2 + n_run);
    assert(rest.frames =~= Seq::<RawFrameView>::empty());
    assert(rest.tail =~= Seq::<u8>::empty());
    assert(scan(bytes).frames =~= seq![f] + rest.frames);
    assert(scan(bytes).frames =~= seq![f]);
    assert(scan(bytes).tail =~= Seq::<u8>::empty());
    assert(d.data.len() as u32 == data.len() as u32);
}

/// Stepping one byte into two equal suffixes keeps them equal.
proof fn lemma_skip_shift(u: Seq<u8>, v: Seq<u8>, i: int, j: int)
    requires
        0 <= i < u.len(),
        0 <= j < v.len(),
        u.skip(i) == v.skip(j),
    ensures
        u[i] == v[j],
        u.len() - i == v.len() - j,
        u.skip(i + 1) == v.skip(j + 1),
{
    assert(u.skip(i).len() == v.skip(j).len());
    assert(u.skip(i).len() == u.len() - i);
    assert(v.skip(j).len() == v.len() - j);
    vstd::seq_lib::lemma_seq_skip_index(u, i, 0);
    vstd::seq_lib::lemma_seq_skip_index(v, j, 0);
    vstd::seq_lib::lemma_seq_skip_of_skip(u, i, 1);
    vstd::seq_lib::lemma_seq_skip_of_skip(v, j, 1);
    assert(u.skip(i).skip(1) == v.skip(j).skip(1));
}

/// Any step of equal size into two equal suffixes keeps them equal.
proof fn lemma_skip_shift_by(u: Seq<u8>, v: Seq<u8>, i: int, j: int, m: int)
    requires
        0 <= i <= u.len(),
        0 <= j <= v.len(),
        0 <= m <= u.len() - i,
        u.skip(i) == v.skip(j),
    ensures
        u.len() - i == v.len() - j,
        u.skip(i + m) == v.skip(j + m),
{
    assert(u.skip(i).len() == v.skip(j).len());
    assert(u.skip(i).len() == u.len() - i);
    assert(v.skip(j).len() == v.len() - j);
    vstd::seq_lib::lemma_seq_skip_of_skip(u, i, m);
    vstd::seq_lib::lemma_seq_skip_of_skip(v, j, m);
    assert(u.skip(i).skip(m) == v.skip(j).skip(m));
}

/// Matching elements of two equal suffixes are equal.
proof fn lemma_suffix_elem(u: Seq<u8>, v: Seq<u8>, i: int, j: int, k: int)
    requires
        0 <= i <= u.len(),
        0 <= j <= v.len(),
        0 <= k < u.len() - i,
        u.skip(i) == v.skip(j),
    ensures
        u.len() - i == v.len() - j,
        u[i + k] == v[j + k],
{
    assert(u.skip(i).len() == v.skip(j).len());
    assert(u.skip(i).len() == u.len() - i);
    assert(v.skip(j).len() == v.len() - j);
    vstd::seq_lib::lemma_seq_skip_index(u, i, k);
    assert(u.skip(i)[k] == u[i + k]);
    vstd::seq_lib::lemma_seq_skip_index(v, j, k);
    assert(v.skip(j)[k] == v[j + k]);
    assert(u.skip(i)[k] == v.skip(j)[k]);
}

/// Equal suffixes have equal hex runs.
proof fn lemma_hex_run_agree(u: Seq<u8>, v: Seq<u8>, i: int, j: int)
    requires
        0 <= i <= u.len(),
        0 <= j <= v.len(),
        u.skip(i) == v.skip(j),
    ensures
        hex_run_len(u, i) == hex_run_len(v, j),
    decreases u.len() - i,
{
    assert(u.skip(i).len() == v.skip(j).len());
    assert(u.skip(i).len() == u.len() - i);
    assert(v.skip(j).len() == v.len() - j);
    if i < u.len() {
        lemma_skip_shift(u, v, i, j);
        if is_uhex(u[i]) {
            lemma_hex_run_agree(u, v, i + 1, j + 1);
        }
    }
}

/// Equal suffixes scan to the same frames and the same tail.
proof fn lemma_scan_agree(u: Seq<u8>, v: Seq<u8>, i: int, j: int)
    requires
        0 <= i <= u.len(),
        0 <= j <= v.len(),
        u.skip(i) == v.skip(j),
    ensures
        scan_from(u, i) == scan_from(v, j),
    decreases u.len() - i,
{
    assert(u.skip(i).len() == v.skip(j).len());
    assert(u.skip(i).len() == u.len() - i);
    assert(v.skip(j).len() == v.len() - j);
    if i < u.len() {
        lemma_skip_shift(u, v, i, j);
        lemma_hex_run_agree(u, v, i + 1, j + 1);
        let n = hex_run_len(u, i + 1);
        lemma_hex_run(u, i + 1);
        lemma_skip_shift_by(u, v, i, j, if 0 <= 1 + n <= u.len() - i {
            1 + n
        } else {
            0
        });
        assert(match_at(u, i) == match_at(v, j)) by {
            if 1 + n < u.len() - i {
                lemma_suffix_elem(u, v, i, j, 1 + n);
            }
        }
        if match_at(u, i) {
            let il = id_len_of(n);
            assert(frame_at(u, i) == frame_at(v, j)) by {
                lemma_suffix_elem(u, v, i, j, 1 + il);
                assert(u[i + (1 + il)] == v[j + (1 + il)]);
                assert(u.subrange(i + 1, i + 1 + il) =~= v.subrange(j + 1, j + 1 + il)) by {
                    assert forall|k: int| 0 <= k < il implies #[trigger] u.subrange(
                        i + 1,
                        i + 1 + il,
                    )[k] == v.subrange(j + 1, j + 1 + il)[k] by {
                        lemma_suffix_elem(u, v, i, j, 1 + k);
                        assert(u[i + (1 + k)] == v[j + (1 + k)]);
                    }
                }
                assert(u.subrange(i + 2 + il, i + 1 + n) =~= v.subrange(j + 2 + il, j + 1 + n))
                    by {
                    assert forall|k: int| 0 <= k < n - il - 1 implies #[trigger] u.subrange(
                        i + 2 + il,
                        i + 1 + n,
                    )[k] == v.subrange(j + 2 + il, j + 1 + n)[k] by {
                        lemma_suffix_elem(u, v, i, j, 2 + il + k);
                        assert(u[i + (2 + il + k)] == v[j + (2 + il + k)]);
                    }
                }
            }
            lemma_skip_shift_by(u, v, i, j, match_len(u, i));
            lemma_scan_agree(u, v, i + match_len(u, i), j + match_len(v, j));
        } else {
            lemma_scan_agree(u, v, i + 1, j + 1);
        }
    }
}

/// A clean scan from `i` on: every unconsumed byte lies after the last
/// consumed frame — once a byte passes to the tail, no later frame is
/// taken.  This is the shape of a healthy stream: complete frames first,
/// then at most an unfinished one.
pub open spec fn clean_scan(s: Seq<u8>, i: int) -> bool
    decreases s.len() - i,
{
    if !(0 <= i < s.len()) {
        true
    } else if match_at(s, i) {
        clean_scan(s, i + match_len(s, i))
    } else {
        scan_from(s, i).frames.len() == 0
    }
}

/// A scan that found no frame passed every byte through, in order.
proof fn lemma_gap_tail(s: Seq<u8>, i: int)
    requires
        0 <= i <= s.len(),
        scan_from(s, i).frames.len() == 0,
    ensures
        scan_from(s, i).tail == s.skip(i),
    decreases s.len() - i,
{
    if i == s.len() {
        assert(s.skip(i) =~= Seq::<u8>::empty());
    } else if match_at(s, i) {
        assert(scan_from(s, i).frames.len() > 0);
    } else {
        lemma_gap_tail(s, i + 1);
        assert(seq![s[i]] + s.skip(i + 1) =~= s.skip(i));
    }
}

/// Tail closure of the scanner, from position `i` on.
proof fn lemma_scan_append_from(x: Seq<u8>, y: Seq<u8>, i: int)
    requires
        0 <= i <= x.len(),
        clean_scan(x, i),
    ensures
        scan_from(x + y, i).frames == scan_from(x, i).frames + scan(
            scan_from(x, i).tail + y,
        ).frames,
        scan_from(x + y, i).tail == scan(scan_from(x, i).tail + y).tail,
    decreases x.len() - i,
{
    let z = x + y;
    if i == x.len() {
        assert(scan_from(x, i).frames =~= Seq::<RawFrameView>::empty());
        assert(scan_from(x, i).tail =~= Seq::<u8>::empty());
        assert(z.skip(i) =~= (Seq::<u8>::empty() + y).skip(0));
        lemma_scan_agree(z, Seq::<u8>::empty() + y, i, 0);
        assert(scan_from(x, i).frames + scan(scan_from(x, i).tail + y).frames =~= scan(
            Seq::<u8>::empty() + y,
        ).frames);
    } else if match_at(x, i) {
        let n = hex_run_len(x, i + 1);
        lemma_hex_run(x, i + 1);
        assert(forall|j: int| 0 <= j < x.len() ==> z[j] == x[j]);
        lemma_hex_run_determined(z, i + 1, n);
        assert(match_at(z, i));
        assert(match_len(z, i) == match_len(x, i));
        let il = id_len_of(n);
        assert(frame_at(z, i) == frame_at(x, i)) by {
            assert(z.subrange(i + 1, i + 1 + il) =~= x.subrange(i + 1, i + 1 + il));
            assert(z.subrange(i + 2 + il, i + 1 + n) =~= x.subrange(i + 2 + il, i + 1 + n));
        }
        let i2 = i + match_len(x, i);
        lemma_scan_append_from(x, y, i2);
        let f = frame_at(x, i);
        assert(scan_from(z, i).frames =~= seq![f] + scan_from(z, i2).frames);
        assert(scan_from(x, i).frames =~= seq![f] + scan_from(x, i2).frames);
        assert(scan_from(x, i).tail == scan_from(x, i2).tail);
        assert((seq![f] + scan_from(x, i2).frames) + scan(
            scan_from(x, i2).tail + y,
        ).frames =~= seq![f] + (scan_from(x, i2).frames + scan(
            scan_from(x, i2).tail + y,
        ).frames));
    } else {
        assert(scan_from(x, i).frames.len() == 0);
        lemma_gap_tail(x, i);
        assert(z.skip(i) =~= (x.skip(i) + y).skip(0));
        lemma_scan_agree(z, x.skip(i) + y, i, 0);
        assert(scan_from(x, i).frames + scan(scan_from(x, i).tail + y).frames =~= scan(
            x.skip(i) + y,
        ).frames);
    }
}

/// Tail closure: when a buffer scans cleanly — its unconsumed bytes all
/// follow its last frame — feeding it in one call or in two calls, with
/// the first call's tail prepended to the second, yields the same frames
/// in the same order and the same final tail.
pub proof fn lemma_can_scan_append(x: Seq<u8>, y: Seq<u8>)
    requires
        clean_scan(x, 0),
    ensures
        scan(x + y).frames == scan(x).frames + scan(scan(x).tail + y).frames,
        scan(x + y).tail == scan(scan(x).tail + y).tail,
{
    lemma_scan_append_from(x, y, 0);
}

} // verus!
