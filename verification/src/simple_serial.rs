//! SimpleSerial engine: a line-oriented protocol.
//!
//! Inbound bytes are split at every carriage return or line feed; each
//! completed line is emitted without its terminator.  An unterminated
//! remainder stays buffered, unless the flush timeout has passed, in which
//! case it is emitted as a line of its own.

use vstd::prelude::*;

verus! {

/// Milliseconds after which a stuck unterminated line is flushed.
pub const FLUSH_TIMEOUT_MS: u64 = 5000;

/// A line terminator: line feed or carriage return.
pub open spec fn is_eol(b: u8) -> bool {
    b == 0x0a || b == 0x0d
}

/// Index of the first line terminator at or after `from`, or `s.len()`.
pub open spec fn find_eol(s: Seq<u8>, from: int) -> int
    decreases s.len() - from,
{
    if !(0 <= from < s.len()) {
        s.len() as int
    } else if is_eol(s[from]) {
        from
    } else {
        find_eol(s, from + 1)
    }
}

/// What `find_eol` returns: the first terminator, or the length.
pub proof fn lemma_find_eol(s: Seq<u8>, from: int)
    requires
        0 <= from <= s.len(),
    ensures
        from <= find_eol(s, from) <= s.len(),
        find_eol(s, from) < s.len() ==> is_eol(s[find_eol(s, from)]),
        forall|j: int| from <= j < find_eol(s, from) ==> !is_eol(s[j]),
    decreases s.len() - from,
{
    if from < s.len() && !is_eol(s[from]) {
        lemma_find_eol(s, from + 1);
    }
}

/// The completed lines of a buffer, terminators stripped, and the
/// unterminated remainder.
pub ghost struct SsScanResult {
    pub lines: Seq<Seq<u8>>,
    pub tail: Seq<u8>,
}

/// Split a buffer at every terminator.
pub open spec fn ss_scan(s: Seq<u8>) -> SsScanResult
    decreases s.len(),
{
    let d = find_eol(s, 0);
    if !(0 <= d < s.len()) {
        SsScanResult { lines: Seq::empty(), tail: s }
    } else {
        let rest = ss_scan(s.subrange(d + 1, s.len() as int));
        SsScanResult { lines: seq![s.subrange(0, d)] + rest.lines, tail: rest.tail }
    }
}

/// One whole parse call: the completed lines, and — once the flush timeout
/// has elapsed and something unterminated remains — that remainder as one
/// more line, leaving nothing buffered.
pub open spec fn ss_process(data: Seq<u8>, elapsed_ms: u64) -> SsScanResult {
    let sc = ss_scan(data);
    if elapsed_ms >= FLUSH_TIMEOUT_MS && sc.tail.len() > 0 {
        SsScanResult { lines: sc.lines + seq![sc.tail], tail: Seq::empty() }
    } else {
        sc
    }
}

/// Find the first terminator at or after `from`.
fn find_eol_exec(s: &Vec<u8>, from: usize) -> (r: usize)
    requires
        from <= s@.len(),
    ensures
        r == find_eol(s@, from as int),
{
    let mut i: usize = from;
    while i < s.len()
        invariant
            from <= i <= s@.len(),
            find_eol(s@, from as int) == find_eol(s@, i as int),
        decreases s@.len() - i,
    {
        if s[i] == 0x0a || s[i] == 0x0d {
            return i;
        }
        i = i + 1;
    }
    s.len()
}

/// Parse one buffer's worth of SimpleSerial data, `elapsed_ms` after the
/// start of the current flush cycle.
///
/// Returns the emitted lines, in order, and the bytes to keep buffered.
pub fn process_simple_serial_data(data: &Vec<u8>, elapsed_ms: u64) -> (r: (Vec<String>, Vec<u8>))
    ensures
        r.0@.len() == ss_process(data@, elapsed_ms).lines.len(),
        forall|i: int|
            0 <= i < r.0@.len() ==> crate::external::text_matches_bytes(
                ss_process(data@, elapsed_ms).lines[i],
                (#[trigger] r.0@[i])@,
            ),
        r.1@ == ss_process(data@, elapsed_ms).tail,
{
    let mut lines: Vec<String> = Vec::new();
    let mut rest: Vec<u8> = crate::poe_canable::copy_bytes(data);
    while find_eol_exec(&rest, 0) < rest.len()
        invariant
            ss_scan(data@).lines.len() == lines@.len() + ss_scan(rest@).lines.len(),
            forall|i: int|
                0 <= i < lines@.len() ==> crate::external::text_matches_bytes(
                    ss_scan(data@).lines[i],
                    (#[trigger] lines@[i])@,
                ),
            forall|i: int|
                0 <= i < ss_scan(rest@).lines.len() ==> ss_scan(data@).lines[lines@.len() + i]
                    == #[trigger] ss_scan(rest@).lines[i],
            ss_scan(data@).tail == ss_scan(rest@).tail,
        decreases rest@.len(),
    {
        let d = find_eol_exec(&rest, 0);
        proof {
            lemma_find_eol(rest@, 0);
        }
        let ghost old_rest = rest@;
        let ghost old_n = lines@.len() as int;
        let line_bytes = crate::poe_canable::copy_range(&rest, 0, d);
        let line = crate::external::lossy_string(&line_bytes);
        let next = crate::poe_canable::copy_range(&rest, d + 1, rest.len());
        proof {
            assert(ss_scan(old_rest).lines =~= seq![old_rest.subrange(0, d as int)] + ss_scan(
                next@,
            ).lines);
            assert(ss_scan(data@).lines[old_n] == ss_scan(old_rest).lines[0]);
            assert(crate::external::text_matches_bytes(ss_scan(data@).lines[old_n], line@));
            assert forall|i: int| 0 <= i < ss_scan(next@).lines.len() implies ss_scan(
                data@,
            ).lines[(old_n + 1) + i] == #[trigger] ss_scan(next@).lines[i] by {
                assert(ss_scan(old_rest).lines[1 + i] == ss_scan(next@).lines[i]);
                assert(ss_scan(data@).lines[old_n + (1 + i)] == ss_scan(old_rest).lines[1 + i]);
            }
        }
        lines.push(line);
        rest = next;
    }
    proof {
        assert(ss_scan(rest@).tail == rest@);
        assert(ss_scan(rest@).lines.len() == 0);
    }
    if elapsed_ms >= FLUSH_TIMEOUT_MS && rest.len() > 0 {
        let flushed = crate::external::lossy_string(&rest);
        proof {
            assert(ss_process(data@, elapsed_ms).lines =~= ss_scan(data@).lines + seq![
                ss_scan(data@).tail,
            ]);
            assert(ss_process(data@, elapsed_ms).lines[lines@.len() as int] == ss_scan(
                data@,
            ).tail);
        }
        lines.push(flushed);
        let empty_rest: Vec<u8> = Vec::new();
        return (lines, empty_rest);
    }
    (lines, rest)
}

/// Serialise one outgoing SimpleSerial command: the text followed by its
/// terminator, unchanged.
pub fn simple_serial_frame(data: &str, end_package: &str) -> (r: String)
    ensures
        r@ == data@ + end_package@,
{
    let s = String::from_str(data);
    s.concat(end_package)
}

/// Tail closure: feeding a stream in two calls, with the first call's
/// unterminated tail prepended to the second, yields the same lines in the
/// same order, and the same final tail, as feeding it in one call.  (This
/// speaks of the split itself; a flush that fires between the two calls
/// emits the tail early instead.)
pub proof fn lemma_ss_scan_append(x: Seq<u8>, y: Seq<u8>)
    ensures
        ss_scan(x + y).lines == ss_scan(x).lines + ss_scan(ss_scan(x).tail + y).lines,
        ss_scan(x + y).tail == ss_scan(ss_scan(x).tail + y).tail,
    decreases x.len(),
{
    let d = find_eol(x, 0);
    lemma_find_eol(x, 0);
    if !(0 <= d < x.len()) {
        assert(ss_scan(x).tail == x);
        assert(ss_scan(x).lines =~= Seq::<Seq<u8>>::empty());
        assert(ss_scan(x).lines + ss_scan(x + y).lines =~= ss_scan(x + y).lines);
    } else {
        let z = x + y;
        assert(forall|j: int| 0 <= j < x.len() ==> z[j] == x[j]);
        assert(forall|j: int| 0 <= j < d ==> !is_eol(z[j]));
        assert(is_eol(z[d]));
        assert(find_eol(z, 0) == d) by {
            lemma_find_eol_is(z, 0, d);
        }
        let xr = x.subrange(d + 1, x.len() as int);
        assert(z.subrange(d + 1, z.len() as int) =~= xr + y);
        assert(z.subrange(0, d) =~= x.subrange(0, d));
        lemma_ss_scan_append(xr, y);
        assert(ss_scan(x).tail == ss_scan(xr).tail);
        assert(ss_scan(z).lines =~= seq![x.subrange(0, d)] + ss_scan(xr + y).lines);
        assert(ss_scan(x).lines =~= seq![x.subrange(0, d)] + ss_scan(xr).lines);
        assert((seq![x.subrange(0, d)] + ss_scan(xr).lines) + ss_scan(
            ss_scan(xr).tail + y,
        ).lines =~= seq![x.subrange(0, d)] + (ss_scan(xr).lines + ss_scan(
            ss_scan(xr).tail + y,
        ).lines));
    }
}

/// `find_eol` is determined by a witness position.
proof fn lemma_find_eol_is(s: Seq<u8>, from: int, k: int)
    requires
        0 <= from <= k <= s.len(),
        k < s.len() ==> is_eol(s[k]),
        forall|j: int| from <= j < k ==> !is_eol(s[j]),
    ensures
        find_eol(s, from) == k,
    decreases s.len() - from,
{
    if from < s.len() && !is_eol(s[from]) {
        lemma_find_eol_is(s, from + 1, k);
    }
}

} // verus!
