//! Hexadecimal helpers for the ASCII wire formats: classification of hex
//! digit bytes, numeric values of digit runs, and rendering of numbers as
//! fixed-width uppercase hex.

use vstd::prelude::*;

verus! {

/// An uppercase hexadecimal digit byte, as used by the CAN frame grammar.
pub open spec fn is_uhex(b: u8) -> bool {
    (0x30 <= b && b <= 0x39) || (0x41 <= b && b <= 0x46)
}

/// Any hexadecimal digit byte, either case.
pub open spec fn is_hex(b: u8) -> bool {
    is_uhex(b) || (0x61 <= b && b <= 0x66)
}

/// Numeric value of a hexadecimal digit byte.
pub open spec fn hex_val(b: u8) -> nat {
    if 0x30 <= b && b <= 0x39 {
        (b - 0x30) as nat
    } else if 0x41 <= b && b <= 0x46 {
        (b - 0x41 + 10) as nat
    } else if 0x61 <= b && b <= 0x66 {
        (b - 0x61 + 10) as nat
    } else {
        0
    }
}

/// The uppercase digit byte for a value below 16.
pub open spec fn hex_char(v: nat) -> u8 {
    if v < 10 {
        (0x30 + v) as u8
    } else {
        (0x41 + (v - 10)) as u8
    }
}

/// Value of a run of hexadecimal digit bytes, most significant first.
pub open spec fn hex_seq_val(s: Seq<u8>) -> nat
    decreases s.len(),
{
    if s.len() == 0 {
        0
    } else {
        hex_seq_val(s.drop_last()) * 16 + hex_val(s.last())
    }
}

/// 16 to the power `k`.
pub open spec fn pow16(k: nat) -> nat
    decreases k,
{
    if k == 0 {
        1
    } else {
        16 * pow16((k - 1) as nat)
    }
}

/// A digit run's value is bounded by 16 to its length.
pub proof fn lemma_hex_seq_val_bound(s: Seq<u8>)
    ensures
        hex_seq_val(s) < pow16(s.len()),
    decreases s.len(),
{
    if s.len() == 0 {
    } else {
        lemma_hex_seq_val_bound(s.drop_last());
        assert(hex_val(s.last()) < 16);
    }
}

/// `v` rendered in uppercase hex, left-padded with `0` to at least `w`
/// digits (more digits appear when `v` does not fit in `w`).
pub open spec fn hex_render(v: nat, w: nat) -> Seq<u8>
    decreases v, w,
{
    if v < 16 && w <= 1 {
        seq![hex_char(v)]
    } else {
        hex_render(v / 16, if w == 0 { 0 } else { (w - 1) as nat }) + seq![hex_char(v % 16)]
    }
}

/// The two uppercase digit bytes of one payload byte.
pub open spec fn hex_byte(b: u8) -> Seq<u8> {
    seq![hex_char((b / 16) as nat), hex_char((b % 16) as nat)]
}

/// Executable digit classification.
pub fn uhex_digit(b: u8) -> (r: bool)
    ensures
        r == is_uhex(b),
{
    (0x30 <= b && b <= 0x39) || (0x41 <= b && b <= 0x46)
}

/// Executable digit value; meaningful on hex digit bytes only.
pub fn hex_digit_val(b: u8) -> (r: u8)
    requires
        is_hex(b),
    ensures
        r == hex_val(b),
        r < 16,
{
    if 0x30 <= b && b <= 0x39 {
        b - 0x30
    } else if 0x41 <= b && b <= 0x46 {
        b - 0x41 + 10
    } else {
        b - 0x61 + 10
    }
}

/// Parse the digit run `s[from..to]` as a number, most significant first.
pub fn parse_hex_run(s: &[u8], from: usize, to: usize) -> (r: u32)
    requires
        from <= to <= s@.len(),
        to - from <= 8,
        forall|j: int| from <= j < to ==> is_uhex(s@[j]),
    ensures
        r == hex_seq_val(s@.subrange(from as int, to as int)),
{
    let mut val: u32 = 0;
    let mut i: usize = from;
    proof {
        assert(s@.subrange(from as int, from as int) =~= Seq::<u8>::empty());
        lemma_pow16_le8();
    }
    while i < to
        invariant
            from <= i <= to <= s@.len(),
            to - from <= 8,
            forall|j: int| from <= j < to ==> is_uhex(s@[j]),
            val == hex_seq_val(s@.subrange(from as int, i as int)),
            val < pow16((i - from) as nat),
        decreases to - i,
    {
        let d = hex_digit_val(s[i]);
        proof {
            lemma_pow16_le8();
            assert(s@.subrange(from as int, i + 1).drop_last() =~= s@.subrange(
                from as int,
                i as int,
            ));
            assert(pow16(((i + 1) - from) as nat) == 16 * pow16((i - from) as nat));
        }
        val = val * 16 + (d as u32);
        i = i + 1;
    }
    val
}

/// The powers of 16 up to the eighth fit in 32 bits.
pub proof fn lemma_pow16_le8()
    ensures
        pow16(0) == 1,
        pow16(1) == 16,
        pow16(2) == 256,
        pow16(3) == 4096,
        pow16(4) == 0x10000,
        pow16(5) == 0x100000,
        pow16(6) == 0x1000000,
        pow16(7) == 0x10000000,
        pow16(8) == 0x100000000,
{
}

/// Hex digit bytes are ASCII.
pub proof fn lemma_hex_char_ascii(v: nat)
    requires
        v < 16,
    ensures
        hex_char(v) < 0x80,
{
}

/// Every byte of a rendered number is ASCII.
pub proof fn lemma_hex_render_ascii(v: nat, w: nat)
    ensures
        forall|k: int| 0 <= k < hex_render(v, w).len() ==> hex_render(v, w)[k] < 0x80,
    decreases v, w,
{
    if v < 16 && w <= 1 {
    } else {
        lemma_hex_render_ascii(v / 16, if w == 0 { 0 } else { (w - 1) as nat });
        assert forall|k: int| 0 <= k < hex_render(v, w).len() implies hex_render(v, w)[k]
            < 0x80 by {
            let head = hex_render(v / 16, if w == 0 { 0 } else { (w - 1) as nat });
            if k < head.len() {
            } else {
                assert(hex_render(v, w)[k] == hex_char(v % 16));
            }
        }
    }
}

/// Append `v` in uppercase hex, left-padded with `0` to at least `w` digits.
pub fn push_hex_render(out: &mut Vec<u8>, v: u32, w: usize)
    ensures
        final(out)@ == old(out)@ + hex_render(v as nat, w as nat),
    decreases v, w,
{
    let digit: u8 = (v % 16) as u8;
    let digit_byte: u8 = if digit < 10 {
        0x30 + digit
    } else {
        0x41 + (digit - 10)
    };
    if v < 16 && w <= 1 {
        out.push(digit_byte);
        proof {
            assert(hex_render(v as nat, w as nat) =~= seq![hex_char(v as nat)]);
            assert(old(out)@.push(hex_char(v as nat)) =~= old(out)@ + hex_render(
                v as nat,
                w as nat,
            ));
        }
    } else {
        let next_w: usize = if w == 0 {
            0
        } else {
            w - 1
        };
        push_hex_render(out, v / 16, next_w);
        out.push(digit_byte);
        proof {
            assert((old(out)@ + hex_render((v / 16) as nat, next_w as nat)).push(
                hex_char((v % 16) as nat),
            ) =~= old(out)@ + hex_render(v as nat, w as nat));
        }
    }
}

/// Append the two uppercase digit bytes of one payload byte.
pub fn push_hex_byte(out: &mut Vec<u8>, b: u8)
    ensures
        final(out)@ == old(out)@ + hex_byte(b),
{
    let hi: u8 = b / 16;
    let lo: u8 = b % 16;
    let hi_byte: u8 = if hi < 10 {
        0x30 + hi
    } else {
        0x41 + (hi - 10)
    };
    let lo_byte: u8 = if lo < 10 {
        0x30 + lo
    } else {
        0x41 + (lo - 10)
    };
    out.push(hi_byte);
    out.push(lo_byte);
    proof {
        assert(old(out)@.push(hex_char((b / 16) as nat)).push(hex_char((b % 16) as nat))
            =~= old(out)@ + hex_byte(b));
    }
}

/// Digit and value are mutually inverse below 16.
pub proof fn lemma_hex_char_val(v: nat)
    requires
        v < 16,
    ensures
        hex_val(hex_char(v)) == v,
        is_uhex(hex_char(v)),
{
}

/// Every byte of a rendered number is an uppercase hex digit.
pub proof fn lemma_hex_render_uhex(v: nat, w: nat)
    ensures
        forall|k: int| 0 <= k < hex_render(v, w).len() ==> is_uhex(hex_render(v, w)[k]),
    decreases v, w,
{
    if v < 16 && w <= 1 {
        lemma_hex_char_val(v);
    } else {
        let w2: nat = if w == 0 {
            0
        } else {
            (w - 1) as nat
        };
        lemma_hex_render_uhex(v / 16, w2);
        lemma_hex_char_val(v % 16);
        assert forall|k: int| 0 <= k < hex_render(v, w).len() implies is_uhex(
            hex_render(v, w)[k],
        ) by {
            let head = hex_render(v / 16, w2);
            if k < head.len() {
            } else {
                assert(hex_render(v, w)[k] == hex_char(v % 16));
            }
        }
    }
}

/// A number below the width's range renders to exactly that many digits.
pub proof fn lemma_hex_render_len(v: nat, w: nat)
    requires
        w >= 1,
        v < pow16(w),
    ensures
        hex_render(v, w).len() == w,
    decreases w,
{
    if v < 16 && w <= 1 {
        assert(w == 1);
        assert(hex_render(v, w) =~= seq![hex_char(v)]);
        assert(hex_render(v, w).len() == w);
    } else {
        assert(w >= 2) by {
            if w == 1 {
                lemma_pow16_le8();
            }
        }
        assert(pow16(w) == 16 * pow16((w - 1) as nat));
        assert(v / 16 < pow16((w - 1) as nat)) by (nonlinear_arith)
            requires
                v < 16 * pow16((w - 1) as nat),
        ;
        lemma_hex_render_len(v / 16, (w - 1) as nat);
        assert(hex_render(v / 16, (w - 1) as nat).len() == w - 1);
        assert(hex_render(v, w) =~= hex_render(v / 16, (w - 1) as nat) + seq![
            hex_char(v % 16),
        ]);
        assert(hex_render(v, w).len() == w);
    }
}

/// Reading a rendered number back yields the number.
pub proof fn lemma_hex_render_val(v: nat, w: nat)
    ensures
        hex_seq_val(hex_render(v, w)) == v,
    decreases v, w,
{
    if v < 16 && w <= 1 {
        lemma_hex_char_val(v);
        assert(hex_render(v, w) =~= seq![hex_char(v)]);
        assert(hex_render(v, w).drop_last() =~= Seq::<u8>::empty());
        assert(hex_render(v, w).last() == hex_char(v));
        assert(hex_seq_val(hex_render(v, w)) == hex_seq_val(Seq::<u8>::empty()) * 16 + hex_val(
            hex_char(v),
        ));
    } else {
        let w2: nat = if w == 0 {
            0
        } else {
            (w - 1) as nat
        };
        lemma_hex_render_val(v / 16, w2);
        lemma_hex_char_val(v % 16);
        assert(hex_render(v, w).drop_last() =~= hex_render(v / 16, w2));
        assert(hex_render(v, w).last() == hex_char(v % 16));
        assert(hex_render(v, w).len() > 0);
        assert(hex_seq_val(hex_render(v, w)) == hex_seq_val(hex_render(v / 16, w2)) * 16
            + hex_val(hex_char(v % 16)));
        assert((v / 16) * 16 + (v % 16) == v);
    }
}

} // verus!
