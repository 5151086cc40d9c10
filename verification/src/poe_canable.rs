//! POECanable engine: reassembly of multi-frame logical CAN messages.
//!
//! Non-final frames of a logical message accumulate in a per-port,
//! per-identifier partial-packet store; the frame whose extended identifier
//! carries the full-packet bit completes the message.  Partials are bounded
//! to 1024 bytes and expire after two seconds.

use vstd::prelude::*;

verus! {

use vstd::map::*;
use crate::frame_codec::FullId;

/// Age in milliseconds after which a partial packet is evicted.
pub const PACKET_TIMEOUT_MS: u64 = 2000;

/// Size in bytes above which a partial packet is dropped.
pub const PARTIAL_LIMIT: usize = 1024;

/// Accumulated bytes of one logical message awaiting its final frame.
#[derive(Debug)]
pub struct PartialPacket {
    pub timestamp: u64,
    pub data: Vec<u8>,
}

/// Mathematical form of a partial packet.
pub ghost struct PartialPacketView {
    pub timestamp: u64,
    pub data: Seq<u8>,
}

impl View for PartialPacket {
    type V = PartialPacketView;

    open spec fn view(&self) -> PartialPacketView {
        PartialPacketView { timestamp: self.timestamp, data: self.data@ }
    }
}

/// A port's name paired with a reassembly key and its partial packet.
struct StoreEntry {
    port: String,
    main_id: u32,
    packet: PartialPacket,
}

/// The reassembly key of an entry.
spec fn entry_key(e: StoreEntry) -> (Seq<char>, u32) {
    (e.port@, e.main_id)
}

/// The map an entry sequence stands for.
spec fn entries_map(s: Seq<StoreEntry>) -> Map<(Seq<char>, u32), PartialPacketView>
    decreases s.len(),
{
    if s.len() == 0 {
        Map::empty()
    } else {
        entries_map(s.drop_last()).insert(entry_key(s.last()), s.last().packet@)
    }
}

/// No two entries share a key.
spec fn unique_keys(s: Seq<StoreEntry>) -> bool {
    forall|i: int, j: int|
        0 <= i < j < s.len() ==> entry_key(s[i]) != entry_key(s[j])
}

/// A key is in the map exactly when some entry carries it.
proof fn lemma_map_dom(s: Seq<StoreEntry>, k: (Seq<char>, u32))
    ensures
        entries_map(s).dom().contains(k) <==> exists|i: int|
            0 <= i < s.len() && entry_key(s[i]) == k,
    decreases s.len(),
{
    if s.len() == 0 {
    } else {
        lemma_map_dom(s.drop_last(), k);
        if entry_key(s.last()) == k {
            assert(entry_key(s[s.len() - 1]) == k);
        } else if entries_map(s).dom().contains(k) {
            let i = choose|i: int|
                0 <= i < s.drop_last().len() && entry_key(s.drop_last()[i]) == k;
            assert(entry_key(s[i]) == k);
        } else if exists|i: int| 0 <= i < s.len() && entry_key(s[i]) == k {
            let i = choose|i: int| 0 <= i < s.len() && entry_key(s[i]) == k;
            assert(entry_key(s.drop_last()[i]) == k);
        }
    }
}

/// Under unique keys, the map sends each entry's key to its packet.
proof fn lemma_map_at(s: Seq<StoreEntry>, i: int)
    requires
        unique_keys(s),
        0 <= i < s.len(),
    ensures
        entries_map(s).dom().contains(entry_key(s[i])),
        entries_map(s)[entry_key(s[i])] == s[i].packet@,
    decreases s.len(),
{
    if i == s.len() - 1 {
    } else {
        assert(unique_keys(s.drop_last())) by {
            assert(forall|a: int, b: int|
                0 <= a < b < s.drop_last().len() ==> entry_key(s.drop_last()[a]) != entry_key(
                    s.drop_last()[b],
                ));
        }
        lemma_map_at(s.drop_last(), i);
        assert(entry_key(s[i]) != entry_key(s.last()));
    }
}

/// Unique keys survive removing an entry.
proof fn lemma_unique_remove(s: Seq<StoreEntry>, i: int)
    requires
        unique_keys(s),
        0 <= i < s.len(),
    ensures
        unique_keys(s.remove(i)),
{
    assert forall|a: int, b: int|
        0 <= a < b < s.remove(i).len() implies entry_key(s.remove(i)[a]) != entry_key(
        s.remove(i)[b],
    ) by {
        let a0 = if a < i {
            a
        } else {
            a + 1
        };
        let b0 = if b < i {
            b
        } else {
            b + 1
        };
        assert(s.remove(i)[a] == s[a0]);
        assert(s.remove(i)[b] == s[b0]);
    }
}

/// Removing the entry at `i` removes exactly its key from the map.
proof fn lemma_map_remove(s: Seq<StoreEntry>, i: int)
    requires
        unique_keys(s),
        0 <= i < s.len(),
    ensures
        entries_map(s.remove(i)) == entries_map(s).remove(entry_key(s[i])),
    decreases s.len(),
{
    let k = entry_key(s[i]);
    if i == s.len() - 1 {
        assert(s.remove(i) =~= s.drop_last());
        lemma_map_dom(s.drop_last(), k);
        assert(forall|j: int|
            0 <= j < s.drop_last().len() ==> entry_key(s.drop_last()[j]) == entry_key(s[j]));
        assert(!entries_map(s.drop_last()).dom().contains(k));
        assert(entries_map(s.drop_last()) =~= entries_map(s.drop_last()).insert(
            k,
            s[i].packet@,
        ).remove(k));
    } else {
        assert(unique_keys(s.drop_last())) by {
            assert(forall|a: int, b: int|
                0 <= a < b < s.drop_last().len() ==> entry_key(s.drop_last()[a]) != entry_key(
                    s.drop_last()[b],
                ));
        }
        lemma_map_remove(s.drop_last(), i);
        assert(s.remove(i).drop_last() =~= s.drop_last().remove(i));
        assert(s.remove(i).last() == s.last());
        assert(entries_map(s.remove(i)) == entries_map(s.drop_last().remove(i)).insert(
            entry_key(s.last()),
            s.last().packet@,
        ));
        assert(k != entry_key(s.last()));
        assert(entries_map(s.drop_last()).remove(k).insert(entry_key(s.last()), s.last().packet@)
            =~= entries_map(s.drop_last()).insert(
            entry_key(s.last()),
            s.last().packet@,
        ).remove(k));
    }
}

/// Keep a partial packet while its age is within `timeout`.
pub open spec fn keep_packet(p: PartialPacketView, now: u64, timeout: u64) -> bool {
    now <= p.timestamp + timeout
}

/// The store after evicting this port's expired partials: entries of other
/// ports are untouched.
pub open spec fn clear_expired_spec(
    m: Map<(Seq<char>, u32), PartialPacketView>,
    port: Seq<char>,
    now: u64,
    timeout: u64,
) -> Map<(Seq<char>, u32), PartialPacketView> {
    Map::new(
        |k: (Seq<char>, u32)|
            m.dom().contains(k) && (k.0 != port || keep_packet(m[k], now, timeout)),
        |k: (Seq<char>, u32)| m[k],
    )
}

/// The store after evicting every partial whose age exceeds `timeout`,
/// whatever its port.
pub open spec fn clear_all_expired_spec(
    m: Map<(Seq<char>, u32), PartialPacketView>,
    now: u64,
    timeout: u64,
) -> Map<(Seq<char>, u32), PartialPacketView> {
    Map::new(
        |k: (Seq<char>, u32)| m.dom().contains(k) && keep_packet(m[k], now, timeout),
        |k: (Seq<char>, u32)| m[k],
    )
}

/// The partial-packet store: one slot per port and reassembly identifier.
///
/// Its view is the map from `(port, main_id)` to the stored partial.
pub struct PartialStore {
    entries: Vec<StoreEntry>,
}

impl View for PartialStore {
    type V = Map<(Seq<char>, u32), PartialPacketView>;

    closed spec fn view(&self) -> Map<(Seq<char>, u32), PartialPacketView> {
        entries_map(self.entries@)
    }
}

impl PartialStore {
    /// Internal shape: entry keys are pairwise distinct.
    pub closed spec fn wf(&self) -> bool {
        unique_keys(self.entries@)
    }

    /// An empty store.
    pub fn new() -> (s: Self)
        ensures
            s.wf(),
            s@ == Map::<(Seq<char>, u32), PartialPacketView>::empty(),
    {
        PartialStore { entries: Vec::new() }
    }

    /// Index of the entry for `(port, main_id)`, if any.
    fn find(&self, port: &String, main_id: u32) -> (r: Option<usize>)
        ensures
            match r {
                Some(i) => i < self.entries@.len() && entry_key(self.entries@[i as int]) == (
                    port@,
                    main_id,
                ),
                None => forall|j: int|
                    0 <= j < self.entries@.len() ==> entry_key(self.entries@[j]) != (
                        port@,
                        main_id,
                    ),
            },
    {
        let mut i: usize = 0;
        while i < self.entries.len()
            invariant
                i <= self.entries@.len(),
                forall|j: int|
                    0 <= j < i ==> entry_key(self.entries@[j]) != (port@, main_id),
            decreases self.entries@.len() - i,
        {
            let e = &self.entries[i];
            if e.main_id == main_id && e.port == *port {
                return Some(i);
            }
            i = i + 1;
        }
        None
    }

    /// Store `packet` under `(port, main_id)`, replacing any earlier slot.
    pub fn insert_partial_packet(&mut self, port: &String, main_id: u32, packet: PartialPacket)
        requires
            old(self).wf(),
        ensures
            final(self).wf(),
            final(self)@ == old(self)@.insert((port@, main_id), packet@),
    {
        self.remove_partial_packet(port, main_id);
        let ghost pre = self.entries@;
        let e = StoreEntry { port: clone_string(port), main_id, packet };
        proof {
            lemma_map_dom(pre, (port@, main_id));
        }
        self.entries.push(e);
        proof {
            assert(self.entries@.drop_last() =~= pre);
            assert(forall|j: int| 0 <= j < pre.len() ==> self.entries@[j] == pre[j]);
            assert(unique_keys(self.entries@));
            assert(old(self)@.remove((port@, main_id)).insert((port@, main_id), packet@)
                =~= old(self)@.insert((port@, main_id), packet@));
        }
    }

    /// Look up the partial stored under `(port, main_id)`.
    pub fn get_partial_packet(&self, port: &String, main_id: u32) -> (r: Option<PartialPacket>)
        requires
            self.wf(),
        ensures
            match r {
                Some(p) => self@.dom().contains((port@, main_id)) && p@ == self@[(port@, main_id)],
                None => !self@.dom().contains((port@, main_id)),
            },
    {
        proof {
            lemma_map_dom(self.entries@, (port@, main_id));
        }
        match self.find(port, main_id) {
            Some(i) => {
                proof {
                    lemma_map_at(self.entries@, i as int);
                }
                let e = &self.entries[i];
                Some(PartialPacket { timestamp: e.packet.timestamp, data: copy_bytes(&e.packet.data) })
            },
            None => None,
        }
    }

    /// Drop the slot for `(port, main_id)`, if present.
    pub fn remove_partial_packet(&mut self, port: &String, main_id: u32)
        requires
            old(self).wf(),
        ensures
            final(self).wf(),
            final(self)@ == old(self)@.remove((port@, main_id)),
    {
        proof {
            lemma_map_dom(self.entries@, (port@, main_id));
        }
        match self.find(port, main_id) {
            Some(i) => {
                proof {
                    lemma_map_remove(self.entries@, i as int);
                    lemma_unique_remove(self.entries@, i as int);
                }
                self.entries.remove(i);
            },
            None => {
                proof {
                    assert(old(self)@ =~= old(self)@.remove((port@, main_id)));
                }
            },
        }
    }

    /// Evict this port's partials whose age exceeds `timeout`; other ports'
    /// slots are untouched.
    pub fn clear_expired_partial_packets(&mut self, port: &String, now: u64, timeout: u64)
        requires
            old(self).wf(),
        ensures
            final(self).wf(),
            final(self)@ == clear_expired_spec(old(self)@, port@, now, timeout),
    {
        let ghost target = clear_expired_spec(old(self)@, port@, now, timeout);
        let mut i: usize = 0;
        while i < self.entries.len()
            invariant
                i <= self.entries@.len(),
                unique_keys(self.entries@),
                clear_expired_spec(entries_map(self.entries@), port@, now, timeout) == target,
                forall|j: int|
                    0 <= j < i ==> (#[trigger] self.entries@[j]).port@ != port@ || keep_packet(
                        self.entries@[j].packet@,
                        now,
                        timeout,
                    ),
            decreases self.entries@.len() - i,
        {
            let e = &self.entries[i];
            let fresh = if e.packet.timestamp >= now {
                true
            } else {
                now - e.packet.timestamp <= timeout
            };
            if e.port == *port && !fresh {
                let ghost pre = self.entries@;
                let ghost k = entry_key(pre[i as int]);
                proof {
                    lemma_map_at(pre, i as int);
                    lemma_map_remove(pre, i as int);
                    lemma_unique_remove(pre, i as int);
                }
                self.entries.remove(i);
                proof {
                    assert(clear_expired_spec(entries_map(self.entries@), port@, now, timeout)
                        =~= clear_expired_spec(entries_map(pre), port@, now, timeout));
                }
            } else {
                i = i + 1;
            }
        }
        proof {
            let m = entries_map(self.entries@);
            assert forall|k: (Seq<char>, u32)| m.dom().contains(k) implies k.0 != port@
                || keep_packet(m[k], now, timeout) by {
                lemma_map_dom(self.entries@, k);
                let j = choose|j: int|
                    0 <= j < self.entries@.len() && entry_key(self.entries@[j]) == k;
                lemma_map_at(self.entries@, j);
            }
            assert(clear_expired_spec(m, port@, now, timeout) =~= m);
        }
    }

    /// Evict every partial whose age exceeds `timeout`, whatever its port.
    pub fn clear_all_expired(&mut self, now: u64, timeout: u64)
        requires
            old(self).wf(),
        ensures
            final(self).wf(),
            final(self)@ == clear_all_expired_spec(old(self)@, now, timeout),
    {
        let ghost target = clear_all_expired_spec(old(self)@, now, timeout);
        let mut i: usize = 0;
        while i < self.entries.len()
            invariant
                i <= self.entries@.len(),
                unique_keys(self.entries@),
                clear_all_expired_spec(entries_map(self.entries@), now, timeout) == target,
                forall|j: int|
                    0 <= j < i ==> keep_packet((#[trigger] self.entries@[j]).packet@, now, timeout),
            decreases self.entries@.len() - i,
        {
            let e = &self.entries[i];
            let fresh = if e.packet.timestamp >= now {
                true
            } else {
                now - e.packet.timestamp <= timeout
            };
            if !fresh {
                let ghost pre = self.entries@;
                proof {
                    lemma_map_at(pre, i as int);
                    lemma_map_remove(pre, i as int);
                    lemma_unique_remove(pre, i as int);
                }
                self.entries.remove(i);
                proof {
                    assert(clear_all_expired_spec(entries_map(self.entries@), now, timeout)
                        =~= clear_all_expired_spec(entries_map(pre), now, timeout));
                }
            } else {
                i = i + 1;
            }
        }
        proof {
            let m = entries_map(self.entries@);
            assert forall|k: (Seq<char>, u32)| m.dom().contains(k) implies keep_packet(
                m[k],
                now,
                timeout,
            ) by {
                lemma_map_dom(self.entries@, k);
                let j = choose|j: int|
                    0 <= j < self.entries@.len() && entry_key(self.entries@[j]) == k;
                lemma_map_at(self.entries@, j);
            }
            assert(clear_all_expired_spec(m, now, timeout) =~= m);
        }
    }
}

/// One decoded logical message, possibly reassembled from several frames.
#[derive(Debug)]
pub struct MessageData {
    pub timestamp: u64,
    pub full_id: FullId,
    pub main_id: u32,
    pub can_data: Vec<u8>,
    pub json: String,
    pub is_remote: bool,
    pub is_complete: bool,
}

/// Mathematical form of a logical message.
pub ghost struct MessageDataView {
    pub timestamp: u64,
    pub full_id: FullId,
    pub main_id: u32,
    pub can_data: Seq<u8>,
    pub json: Seq<char>,
    pub is_remote: bool,
    pub is_complete: bool,
}

impl View for MessageData {
    type V = MessageDataView;

    open spec fn view(&self) -> MessageDataView {
        MessageDataView {
            timestamp: self.timestamp,
            full_id: self.full_id,
            main_id: self.main_id,
            can_data: self.can_data@,
            json: self.json@,
            is_remote: self.is_remote,
            is_complete: self.is_complete,
        }
    }
}

/// The store map a `PartialStore` stands for.
pub type StoreMap = Map<(Seq<char>, u32), PartialPacketView>;

/// The view of a message batch.
pub open spec fn msgs_view(s: Seq<(u32, MessageData)>) -> Seq<(u32, MessageDataView)> {
    s.map_values(|p: (u32, MessageData)| (p.0, p.1@))
}

/// The batch without any message keyed `id`.
pub open spec fn remove_id(s: Seq<(u32, MessageDataView)>, id: u32) -> Seq<(
    u32,
    MessageDataView,
)>
    decreases s.len(),
{
    if s.len() == 0 {
        s
    } else {
        let rest = remove_id(s.drop_first(), id);
        if s[0].0 == id {
            rest
        } else {
            seq![s[0]] + rest
        }
    }
}

/// Replace the batch's message for `id` (if any) by `m`, at the end: the
/// surviving messages keep the order in which they were last produced.
pub open spec fn upsert_msg(
    s: Seq<(u32, MessageDataView)>,
    id: u32,
    m: MessageDataView,
) -> Seq<(u32, MessageDataView)> {
    remove_id(s, id).push((id, m))
}

/// The JSON text attached to a completed message: the payload's own text
/// when it is worth attempting (non-empty; for CAN-FD, opening with `{`),
/// is valid UTF-8 and parses as JSON; otherwise the empty object.
pub open spec fn json_text_of(data: Seq<u8>, is_fd: bool) -> Seq<char> {
    let attempt = if is_fd {
        data.len() > 0 && data[0] == 0x7b
    } else {
        data.len() > 0
    };
    if attempt && vstd::utf8::valid_utf8(data) && crate::external::json_ok(
        vstd::utf8::decode_utf8(data),
    ) {
        vstd::utf8::decode_utf8(data)
    } else {
        seq!['{', '}']
    }
}

/// A store map and a message batch, as one engine state.
pub ghost struct EngineStep {
    pub store: StoreMap,
    pub msgs: Seq<(u32, MessageDataView)>,
}

/// The engine's reaction to one scanned frame.
///
/// A remote frame yields a complete empty message and leaves the store
/// alone.  A data frame carrying the full-packet bit completes the slot's
/// accumulated bytes, with the slot's original timestamp, and frees the
/// slot.  Any other data frame extends (or opens) the slot, keeping the
/// slot's original timestamp, except that growing past `PARTIAL_LIMIT`
/// bytes drops the slot without any emission.
pub open spec fn frame_step(
    st: StoreMap,
    msgs: Seq<(u32, MessageDataView)>,
    port: Seq<char>,
    f: crate::frame_codec::RawFrameView,
    now: u64,
) -> EngineStep {
    let d = crate::frame_codec::decoded_of(f);
    let k = (port, d.main_id);
    if d.is_remote {
        let m = MessageDataView {
            timestamp: now,
            full_id: d.full_id,
            main_id: d.main_id,
            can_data: Seq::empty(),
            json: seq!['{', '}'],
            is_remote: true,
            is_complete: true,
        };
        EngineStep { store: st, msgs: upsert_msg(msgs, d.main_id, m) }
    } else if d.is_classic || d.is_fd {
        if d.full_id.is_full_packet == 1 {
            let part = if st.dom().contains(k) {
                st[k].data
            } else {
                Seq::<u8>::empty()
            };
            let ts = if st.dom().contains(k) {
                st[k].timestamp
            } else {
                now
            };
            let complete = part + d.data;
            let m = MessageDataView {
                timestamp: ts,
                full_id: d.full_id,
                main_id: d.main_id,
                can_data: complete,
                json: json_text_of(complete, d.is_fd),
                is_remote: false,
                is_complete: true,
            };
            EngineStep { store: st.remove(k), msgs: upsert_msg(msgs, d.main_id, m) }
        } else {
            let part = if st.dom().contains(k) {
                st[k].data
            } else {
                Seq::<u8>::empty()
            };
            let ts = if st.dom().contains(k) {
                st[k].timestamp
            } else {
                now
            };
            let combined = part + d.data;
            if combined.len() > PARTIAL_LIMIT as nat {
                EngineStep { store: st.remove(k), msgs }
            } else {
                EngineStep {
                    store: st.insert(k, PartialPacketView { timestamp: ts, data: combined }),
                    msgs,
                }
            }
        }
    } else {
        EngineStep { store: st, msgs }
    }
}

/// The engine state after a sequence of frames, in order.
pub open spec fn frame_steps(
    st: StoreMap,
    msgs: Seq<(u32, MessageDataView)>,
    port: Seq<char>,
    frames: Seq<crate::frame_codec::RawFrameView>,
    now: u64,
) -> EngineStep
    decreases frames.len(),
{
    if frames.len() == 0 {
        EngineStep { store: st, msgs }
    } else {
        let first = frame_step(st, msgs, port, frames[0], now);
        frame_steps(first.store, first.msgs, port, frames.drop_first(), now)
    }
}

/// Remove every message for `id` from the batch, preserving order.
fn retain_other_ids(msgs: &mut Vec<(u32, MessageData)>, id: u32)
    ensures
        msgs_view(final(msgs)@) == remove_id(msgs_view(old(msgs)@), id),
{
    let mut out: Vec<(u32, MessageData)> = Vec::new();
    proof {
        assert(msgs_view(Seq::<(u32, MessageData)>::empty()) =~= Seq::<(
            u32,
            MessageDataView,
        )>::empty());
    }
    while msgs.len() > 0
        invariant
            remove_id(msgs_view(old(msgs)@), id) == msgs_view(out@) + remove_id(
                msgs_view(msgs@),
                id,
            ),
        decreases msgs@.len(),
    {
        let ghost pre = msgs@;
        let p = msgs.remove(0);
        proof {
            assert(msgs@ =~= pre.drop_first());
            assert(msgs_view(pre)[0] == (p.0, p.1@));
            assert(msgs_view(pre).drop_first() =~= msgs_view(pre.drop_first()));
        }
        if p.0 != id {
            proof {
                assert(msgs_view(out@).push((p.0, p.1@)) =~= msgs_view(out@.push(p)));
                assert(msgs_view(out@) + (seq![(p.0, p.1@)] + remove_id(
                    msgs_view(pre.drop_first()),
                    id,
                )) =~= msgs_view(out@.push(p)) + remove_id(msgs_view(pre.drop_first()), id));
            }
            out.push(p);
        }
    }
    proof {
        assert(msgs_view(msgs@) =~= Seq::<(u32, MessageDataView)>::empty());
        assert(msgs_view(out@) + remove_id(msgs_view(msgs@), id) =~= msgs_view(out@));
    }
    let mut replaced = out;
    core::mem::swap(msgs, &mut replaced);
}

/// Put `m` into the batch under `id`, dropping any earlier message for it.
fn upsert_message(msgs: &mut Vec<(u32, MessageData)>, id: u32, m: MessageData)
    ensures
        msgs_view(final(msgs)@) == upsert_msg(msgs_view(old(msgs)@), id, m@),
{
    retain_other_ids(msgs, id);
    proof {
        let ghost pre = msgs@;
        assert(msgs_view(pre).push((id, m@)) =~= msgs_view(pre.push((id, m))));
    }
    msgs.push((id, m));
}

/// The empty-object JSON text.
fn empty_json() -> (r: String)
    ensures
        r@ == seq!['{', '}'],
{
    let s = "{}";
    proof {
        reveal_strlit("{}");
        assert(s@ =~= seq!['{', '}']);
    }
    String::from_str(s)
}

/// React to one scanned frame: update the store and the outgoing batch.
pub fn process_can_frame(
    store: &mut PartialStore,
    msgs: &mut Vec<(u32, MessageData)>,
    port: &String,
    frame: &crate::frame_codec::CanFrame,
    now: u64,
)
    requires
        old(store).wf(),
    ensures
        final(store).wf(),
        frame_step(old(store)@, msgs_view(old(msgs)@), port@, frame@, now) == (EngineStep {
            store: final(store)@,
            msgs: msgs_view(final(msgs)@),
        }),
{
    let d = crate::frame_codec::decode_frame(frame);
    if d.is_remote {
        let m = MessageData {
            timestamp: now,
            full_id: d.full_id,
            main_id: d.main_id,
            can_data: Vec::new(),
            json: empty_json(),
            is_remote: true,
            is_complete: true,
        };
        upsert_message(msgs, d.main_id, m);
    } else if d.is_classic || d.is_fd {
        let existing = store.get_partial_packet(port, d.main_id);
        let mut complete: Vec<u8>;
        let ts: u64;
        match existing {
            Some(p) => {
                complete = p.data;
                ts = p.timestamp;
            },
            None => {
                complete = Vec::new();
                ts = now;
            },
        }
        let mut frame_bytes = d.data;
        complete.append(&mut frame_bytes);
        if d.full_id.is_full_packet == 1 {
            let attempt = if d.is_fd {
                complete.len() > 0 && complete[0] == 0x7b
            } else {
                complete.len() > 0
            };
            let json: String = if attempt {
                match crate::external::utf8_string(&complete) {
                    Some(text) => {
                        if crate::external::json_parse_ok(text.as_str()) {
                            text
                        } else {
                            empty_json()
                        }
                    },
                    None => empty_json(),
                }
            } else {
                empty_json()
            };
            let m = MessageData {
                timestamp: ts,
                full_id: d.full_id,
                main_id: d.main_id,
                can_data: complete,
                json,
                is_remote: false,
                is_complete: true,
            };
            store.remove_partial_packet(port, d.main_id);
            upsert_message(msgs, d.main_id, m);
        } else {
            if complete.len() > PARTIAL_LIMIT {
                store.remove_partial_packet(port, d.main_id);
            } else {
                store.insert_partial_packet(
                    port,
                    d.main_id,
                    PartialPacket { timestamp: ts, data: complete },
                );
            }
        }
    }
}

/// A byte of the base64 alphabet proper (no padding).
pub open spec fn is_b64_alpha(b: u8) -> bool {
    ||| (0x41 <= b && b <= 0x5a)  // A-Z
    ||| (0x61 <= b && b <= 0x7a)  // a-z
    ||| (0x30 <= b && b <= 0x39)  // 0-9
    ||| b == 0x2b  // +
    ||| b == 0x2f  // /
}

/// Shape of a standard base64 text: quartets of alphabet bytes, the last
/// quartet optionally closed by one or two `=` padding bytes.  The empty
/// sequence qualifies.
pub open spec fn is_b64_shape(s: Seq<u8>) -> bool {
    let n = s.len() as int;
    n % 4 == 0 && {
        ||| (forall|i: int| 0 <= i < n ==> is_b64_alpha(s[i]))
        ||| (n > 0 && s[n - 1] == 0x3d && forall|i: int| 0 <= i < n - 1 ==> is_b64_alpha(s[i]))
        ||| (n > 1 && s[n - 1] == 0x3d && s[n - 2] == 0x3d && forall|i: int|
            0 <= i < n - 2 ==> is_b64_alpha(s[i]))
    }
}

/// Executable test for the base64 shape.
pub fn b64_shape(s: &Vec<u8>) -> (r: bool)
    ensures
        r == is_b64_shape(s@),
{
    let n = s.len();
    if n % 4 != 0 {
        return false;
    }
    let pad: usize = if n >= 2 && s[n - 1] == 0x3d && s[n - 2] == 0x3d {
        2
    } else if n >= 1 && s[n - 1] == 0x3d {
        1
    } else {
        0
    };
    let body = n - pad;
    let mut i: usize = 0;
    while i < body
        invariant
            n == s@.len(),
            n as int % 4 == 0,
            pad <= 2,
            body + pad == n,
            i <= body,
            pad == 0 ==> n == 0 || s@[n - 1] != 0x3d,
            pad == 1 ==> n >= 1 && s@[n - 1] == 0x3d && (n < 2 || s@[n - 2] != 0x3d),
            pad == 2 ==> n >= 2 && s@[n - 1] == 0x3d && s@[n - 2] == 0x3d,
            forall|j: int| 0 <= j < i ==> is_b64_alpha(s@[j]),
        decreases body - i,
    {
        let b = s[i];
        let ok = (0x41 <= b && b <= 0x5a) || (0x61 <= b && b <= 0x7a) || (0x30 <= b && b <= 0x39)
            || b == 0x2b || b == 0x2f;
        if !ok {
            proof {
                assert(!is_b64_alpha(s@[i as int]));
                assert(!is_b64_alpha(0x3d));
                if pad == 1 {
                    assert(s@[n - 1] == 0x3d);
                } else if pad == 2 {
                    assert(s@[n - 1] == 0x3d && s@[n - 2] == 0x3d);
                }
                assert(!is_b64_shape(s@));
            }
            return false;
        }
        i = i + 1;
    }
    proof {
        if pad == 0 {
            assert(forall|j: int| 0 <= j < s@.len() ==> is_b64_alpha(s@[j]));
        } else if pad == 1 {
            assert(s@[n - 1] == 0x3d);
            assert(forall|j: int| 0 <= j < n - 1 ==> is_b64_alpha(s@[j]));
        } else {
            assert(s@[n - 1] == 0x3d && s@[n - 2] == 0x3d);
            assert(forall|j: int| 0 <= j < n - 2 ==> is_b64_alpha(s@[j]));
        }
        assert(is_b64_shape(s@));
    }
    true
}

/// A message after the batch's base64 pass: a payload in base64 shape that
/// the decoder accepts is replaced by its decoded bytes.
pub open spec fn b64_passed(m: MessageDataView) -> MessageDataView {
    if is_b64_shape(m.can_data) {
        match crate::external::b64_decode_of(m.can_data) {
            Some(d) => MessageDataView { can_data: d, ..m },
            None => m,
        }
    } else {
        m
    }
}

/// The result of one whole parse call: the store afterwards, the message
/// batch (after the base64 pass), and the unconsumed tail.
pub ghost struct CanProcessResult {
    pub store: StoreMap,
    pub msgs: Seq<(u32, MessageDataView)>,
    pub tail: Seq<u8>,
}

/// One whole parse call over a buffer: evict this port's expired partials,
/// scan for frames, react to each in order, then run the base64 pass over
/// the batch.  Slots of other ports are never touched.
pub open spec fn can_process_spec(
    st: StoreMap,
    port: Seq<char>,
    data: Seq<u8>,
    now: u64,
) -> CanProcessResult {
    let st1 = clear_expired_spec(st, port, now, PACKET_TIMEOUT_MS);
    let sc = crate::frame_codec::scan(data);
    let stepped = frame_steps(st1, Seq::empty(), port, sc.frames, now);
    CanProcessResult {
        store: stepped.store,
        msgs: stepped.msgs.map_values(|p: (u32, MessageDataView)| (p.0, b64_passed(p.1))),
        tail: sc.tail,
    }
}

/// Parse one buffer's worth of POECanable data for `port` at time `now`.
///
/// Returns the decoded messages, in order of completion, and the bytes no
/// frame consumed, which the caller keeps as the next buffer.
pub fn process_poe_canable_data(
    store: &mut PartialStore,
    port: &String,
    data: &Vec<u8>,
    now: u64,
) -> (r: (Vec<(u32, MessageData)>, Vec<u8>))
    requires
        old(store).wf(),
    ensures
        final(store).wf(),
        final(store)@ == can_process_spec(old(store)@, port@, data@, now).store,
        msgs_view(r.0@) == can_process_spec(old(store)@, port@, data@, now).msgs,
        r.1@ == can_process_spec(old(store)@, port@, data@, now).tail,
{
    store.clear_expired_partial_packets(port, now, PACKET_TIMEOUT_MS);
    let ghost st1 = store@;
    let (frames, tail) = crate::frame_codec::scan_frames(data);
    let ghost frames_v = frames@.map_values(|f: crate::frame_codec::CanFrame| f@);
    let mut msgs: Vec<(u32, MessageData)> = Vec::new();
    let mut i: usize = 0;
    proof {
        assert(msgs_view(msgs@) =~= Seq::<(u32, MessageDataView)>::empty());
        assert(frames_v.skip(0) =~= frames_v);
    }
    while i < frames.len()
        invariant
            i <= frames@.len(),
            store.wf(),
            frames_v == frames@.map_values(|f: crate::frame_codec::CanFrame| f@),
            frame_steps(st1, Seq::empty(), port@, frames_v, now) == frame_steps(
                store@,
                msgs_view(msgs@),
                port@,
                frames_v.skip(i as int),
                now,
            ),
        decreases frames@.len() - i,
    {
        let ghost pre = frames_v.skip(i as int);
        proof {
            assert(pre[0] == frames_v[i as int]);
            assert(pre.drop_first() =~= frames_v.skip(i + 1));
        }
        process_can_frame(store, &mut msgs, port, &frames[i], now);
        i = i + 1;
    }
    proof {
        assert(frames_v.skip(frames_v.len() as int) =~= Seq::<
            crate::frame_codec::RawFrameView,
        >::empty());
    }
    let ghost stepped = frame_steps(st1, Seq::empty(), port@, frames_v, now);
    let mut out: Vec<(u32, MessageData)> = Vec::new();
    proof {
        assert(msgs_view(msgs@) =~= stepped.msgs);
        assert(msgs_view(out@) =~= Seq::<(u32, MessageDataView)>::empty());
        assert(stepped.msgs.map_values(|p: (u32, MessageDataView)| (p.0, b64_passed(p.1)))
            =~= msgs_view(out@) + msgs_view(msgs@).map_values(
            |p: (u32, MessageDataView)| (p.0, b64_passed(p.1)),
        ));
    }
    while msgs.len() > 0
        invariant
            stepped.msgs.map_values(|p: (u32, MessageDataView)| (p.0, b64_passed(p.1)))
                == msgs_view(out@) + msgs_view(msgs@).map_values(
                |p: (u32, MessageDataView)| (p.0, b64_passed(p.1)),
            ),
        decreases msgs@.len(),
    {
        let ghost pre = msgs@;
        let mut p = msgs.remove(0);
        proof {
            assert(msgs@ =~= pre.drop_first());
            assert(msgs_view(pre)[0] == (p.0, p.1@));
            assert(msgs_view(pre).drop_first() =~= msgs_view(pre.drop_first()));
        }
        let ghost before = p.1@;
        if b64_shape(&p.1.can_data) {
            match crate::external::b64_decode_bytes(&p.1.can_data) {
                Some(decoded) => {
                    p.1.can_data = decoded;
                },
                None => {},
            }
        }
        proof {
            assert(p.1@ == b64_passed(before));
            assert(msgs_view(out@).push((p.0, p.1@)) =~= msgs_view(out@.push(p)));
            assert(msgs_view(pre).map_values(
                |q: (u32, MessageDataView)| (q.0, b64_passed(q.1)),
            ) =~= seq![(p.0, b64_passed(before))] + msgs_view(pre.drop_first()).map_values(
                |q: (u32, MessageDataView)| (q.0, b64_passed(q.1)),
            ));
            assert(msgs_view(out@) + (seq![(p.0, p.1@)] + msgs_view(pre.drop_first()).map_values(
                |q: (u32, MessageDataView)| (q.0, b64_passed(q.1)),
            )) =~= msgs_view(out@.push(p)) + msgs_view(pre.drop_first()).map_values(
                |q: (u32, MessageDataView)| (q.0, b64_passed(q.1)),
            ));
        }
        out.push(p);
    }
    proof {
        assert(msgs_view(msgs@) =~= Seq::<(u32, MessageDataView)>::empty());
        assert(msgs_view(msgs@).map_values(|p: (u32, MessageDataView)| (p.0, b64_passed(p.1)))
            =~= Seq::<(u32, MessageDataView)>::empty());
        assert(msgs_view(out@) + Seq::<(u32, MessageDataView)>::empty() =~= msgs_view(out@));
    }
    (out, tail)

}

/// Byte-for-byte copy of a buffer.
pub fn copy_bytes(v: &Vec<u8>) -> (r: Vec<u8>)
    ensures
        r@ == v@,
{
    let mut out: Vec<u8> = Vec::new();
    let mut i: usize = 0;
    while i < v.len()
        invariant
            i <= v@.len(),
            out@ == v@.subrange(0, i as int),
        decreases v@.len() - i,
    {
        out.push(v[i]);
        proof {
            assert(v@.subrange(0, i as int).push(v@[i as int]) =~= v@.subrange(0, i + 1));
        }
        i = i + 1;
    }
    proof {
        assert(v@.subrange(0, v@.len() as int) =~= v@);
    }
    out
}

/// Copy of a string (the std `Clone` carries no contract here).
fn clone_string(s: &String) -> (r: String)
    ensures
        r@ == s@,
{
    String::from_str(s.as_str())
}

/// An ASCII whitespace byte, as token separators on the send path.
pub open spec fn is_ws(b: u8) -> bool {
    b == 0x20 || b == 0x09 || b == 0x0a || b == 0x0d || b == 0x0b || b == 0x0c
}

/// Executable whitespace test.
pub fn ws_byte(b: u8) -> (r: bool)
    ensures
        r == is_ws(b),
{
    b == 0x20 || b == 0x09 || b == 0x0a || b == 0x0d || b == 0x0b || b == 0x0c
}

/// Length of the maximal whitespace-free run starting at `i`.
pub open spec fn tok_len(s: Seq<u8>, i: int) -> int
    decreases s.len() - i,
{
    if 0 <= i && i < s.len() && !is_ws(s[i]) {
        1 + tok_len(s, i + 1)
    } else {
        0
    }
}

/// The whitespace-separated tokens of `s`, from position `i` on.
pub open spec fn tokens_from(s: Seq<u8>, i: int) -> Seq<Seq<u8>>
    decreases s.len() - i,
{
    if !(0 <= i < s.len()) {
        Seq::empty()
    } else if is_ws(s[i]) {
        tokens_from(s, i + 1)
    } else {
        let rest = tokens_from(s, i + 1);
        if i + 1 < s.len() && !is_ws(s[i + 1]) {
            rest.update(0, seq![s[i]] + rest[0])
        } else {
            seq![seq![s[i]]] + rest
        }
    }
}

/// At a token's start, the token is the whole whitespace-free run.
proof fn lemma_tokens_at(s: Seq<u8>, i: int)
    requires
        0 <= i < s.len(),
        !is_ws(s[i]),
    ensures
        tok_len(s, i) >= 1,
        i + tok_len(s, i) <= s.len(),
        tokens_from(s, i) == seq![s.subrange(i, i + tok_len(s, i))] + tokens_from(
            s,
            i + tok_len(s, i),
        ),
    decreases s.len() - i,
{
    let tl = tok_len(s, i);
    if i + 1 < s.len() && !is_ws(s[i + 1]) {
        lemma_tokens_at(s, i + 1);
        let tl2 = tok_len(s, i + 1);
        assert(tl == 1 + tl2);
        let rest = tokens_from(s, i + 1);
        assert(rest == seq![s.subrange(i + 1, i + 1 + tl2)] + tokens_from(s, i + 1 + tl2));
        assert(rest[0] == s.subrange(i + 1, i + 1 + tl2));
        assert(seq![s[i]] + rest[0] =~= s.subrange(i, i + tl));
        assert(rest.update(0, seq![s[i]] + rest[0]) =~= seq![s.subrange(i, i + tl)]
            + tokens_from(s, i + tl));
    } else {
        assert(tok_len(s, i + 1) == 0);
        assert(tl == 1);
        assert(s.subrange(i, i + 1) =~= seq![s[i]]);
    }
}

/// Every byte is a hex digit, either case.
pub open spec fn all_hex_digits(s: Seq<u8>) -> bool {
    forall|i: int| 0 <= i < s.len() ==> crate::hex::is_hex(s[i])
}

/// What one token parses to: an optional `+` or `-` sign, then hex digits
/// either case; accepted when the value fits a byte (a `-` sign only with
/// value zero).
pub open spec fn parse_hex_token(t: Seq<u8>) -> Option<u8> {
    if t.len() == 0 {
        None
    } else {
        let signed = t[0] == 0x2b || t[0] == 0x2d;
        let body = if signed {
            t.drop_first()
        } else {
            t
        };
        if body.len() == 0 {
            None
        } else if !all_hex_digits(body) {
            None
        } else if t[0] == 0x2d {
            if crate::hex::hex_seq_val(body) == 0 {
                Some(0)
            } else {
                None
            }
        } else if crate::hex::hex_seq_val(body) <= 255 {
            Some(crate::hex::hex_seq_val(body) as u8)
        } else {
            None
        }
    }
}

/// The bytes of the tokens that parse, in order.
pub open spec fn parsed_hex_bytes(toks: Seq<Seq<u8>>) -> Seq<u8>
    decreases toks.len(),
{
    if toks.len() == 0 {
        Seq::empty()
    } else {
        (match parse_hex_token(toks[0]) {
            Some(b) => seq![b],
            None => Seq::<u8>::empty(),
        }) + parsed_hex_bytes(toks.drop_first())
    }
}

/// Parse the token `s[from..to]` as a hex byte.
#[verifier::loop_isolation(false)]
fn parse_token_range(s: &Vec<u8>, from: usize, to: usize) -> (r: Option<u8>)
    requires
        from < to <= s@.len(),
    ensures
        r == parse_hex_token(s@.subrange(from as int, to as int)),
{
    let ghost t = s@.subrange(from as int, to as int);
    let first = s[from];
    let signed = first == 0x2b || first == 0x2d;
    let body_from = if signed {
        from + 1
    } else {
        from
    };
    proof {
        assert(t[0] == s@[from as int]);
    }
    let ghost body = if t[0] == 0x2b || t[0] == 0x2d {
        t.drop_first()
    } else {
        t
    };
    proof {
        assert(body =~= s@.subrange(body_from as int, to as int));
    }
    if body_from >= to {
        proof {
            assert(t[0] == s@[from as int]);
            assert(body.len() == 0);
        }
        return None;
    }
    proof {
        assert(t[0] == s@[from as int]);
        assert(forall|j: int| 0 <= j < body.len() ==> body[j] == s@[body_from + j]);
    }
    let mut i: usize = body_from;
    let mut val: u32 = 0;
    let mut big: bool = false;
    proof {
        assert(s@.subrange(body_from as int, body_from as int) =~= Seq::<u8>::empty());
    }
    while i < to
        invariant
            body_from <= i <= to <= s@.len(),
            body == s@.subrange(body_from as int, to as int),
            forall|j: int| body_from <= j < i ==> crate::hex::is_hex(s@[j]),
            !big ==> val <= 255 && val == crate::hex::hex_seq_val(
                s@.subrange(body_from as int, i as int),
            ),
            big ==> crate::hex::hex_seq_val(s@.subrange(body_from as int, i as int)) > 255,
        decreases to - i,
    {
        let b = s[i];
        let hexb = (0x30 <= b && b <= 0x39) || (0x41 <= b && b <= 0x46) || (0x61 <= b && b
            <= 0x66);
        if !hexb {
            proof {
                assert(body[i - body_from] == s@[i as int]);
                assert(!crate::hex::is_hex(body[i - body_from]));
                assert(!all_hex_digits(body));
            }
            return None;
        }
        let d = crate::hex::hex_digit_val(b);
        proof {
            assert(s@.subrange(body_from as int, i + 1).drop_last() =~= s@.subrange(
                body_from as int,
                i as int,
            ));
            assert(s@.subrange(body_from as int, i + 1).last() == s@[i as int]);
        }
        if big {
            proof {
                let prev = crate::hex::hex_seq_val(s@.subrange(body_from as int, i as int));
                assert(crate::hex::hex_seq_val(s@.subrange(body_from as int, i + 1)) == prev * 16
                    + crate::hex::hex_val(s@[i as int]));
                assert(prev * 16 + crate::hex::hex_val(s@[i as int]) > 255) by (nonlinear_arith)
                    requires
                        prev > 255,
                ;
            }
        } else {
            let next = val * 16 + (d as u32);
            if next > 255 {
                big = true;
            } else {
                val = next;
            }
        }
        i = i + 1;
    }
    proof {
        assert(s@.subrange(body_from as int, to as int) =~= body);
        assert(all_hex_digits(body));
        assert(crate::hex::hex_seq_val(body) == crate::hex::hex_seq_val(
            s@.subrange(body_from as int, to as int),
        ));
    }
    if first == 0x2d {
        if big || val != 0 {
            None
        } else {
            Some(0)
        }
    } else if big {
        None
    } else {
        Some(val as u8)
    }
}

/// Collect the hex bytes of `data`'s whitespace-separated tokens, skipping
/// tokens that do not parse.
pub fn parse_hex_token_bytes(data: &Vec<u8>) -> (r: Vec<u8>)
    ensures
        r@ == parsed_hex_bytes(tokens_from(data@, 0)),
{
    let mut out: Vec<u8> = Vec::new();
    let mut i: usize = 0;
    proof {
        assert(parsed_hex_bytes(tokens_from(data@, 0)) =~= Seq::<u8>::empty()
            + parsed_hex_bytes(tokens_from(data@, 0)));
    }
    while i < data.len()
        invariant
            i <= data@.len(),
            parsed_hex_bytes(tokens_from(data@, 0)) == out@ + parsed_hex_bytes(
                tokens_from(data@, i as int),
            ),
        decreases data@.len() - i,
    {
        let b = data[i];
        if ws_byte(b) {
            i = i + 1;
        } else {
            let mut j: usize = i + 1;
            while j < data.len() && !ws_byte(data[j])
                invariant
                    i + 1 <= j <= data@.len(),
                    forall|k: int| i <= k < j ==> !is_ws(data@[k]),
                    tok_len(data@, i as int) == (j - i) + tok_len(data@, j as int),
                decreases data@.len() - j,
            {
                j = j + 1;
            }
            proof {
                assert(tok_len(data@, j as int) == 0);
                lemma_tokens_at(data@, i as int);
            }
            let parsed = parse_token_range(data, i, j);
            proof {
                let toks = tokens_from(data@, i as int);
                assert(toks[0] == data@.subrange(i as int, j as int));
                assert(toks.drop_first() =~= tokens_from(data@, j as int));
                match parse_hex_token(data@.subrange(i as int, j as int)) {
                    Some(v) => {
                        assert(out@ + (seq![v] + parsed_hex_bytes(tokens_from(data@, j as int)))
                            =~= out@.push(v) + parsed_hex_bytes(tokens_from(data@, j as int)));
                    },
                    None => {
                        assert(out@ + (Seq::<u8>::empty() + parsed_hex_bytes(
                            tokens_from(data@, j as int),
                        )) =~= out@ + parsed_hex_bytes(tokens_from(data@, j as int)));
                    },
                }
            }
            match parsed {
                Some(v) => out.push(v),
                None => {},
            }
            i = j;
        }
    }
    proof {
        assert(parsed_hex_bytes(tokens_from(data@, i as int)) =~= Seq::<u8>::empty());
        assert(out@ + Seq::<u8>::empty() =~= out@);
    }
    out
}

/// Copy of the byte range `v[from..to]`.
pub fn copy_range(v: &Vec<u8>, from: usize, to: usize) -> (r: Vec<u8>)
    requires
        from <= to <= v@.len(),
    ensures
        r@ == v@.subrange(from as int, to as int),
{
    let mut out: Vec<u8> = Vec::new();
    let mut i: usize = from;
    proof {
        assert(v@.subrange(from as int, from as int) =~= Seq::<u8>::empty());
    }
    while i < to
        invariant
            from <= i <= to <= v@.len(),
            out@ == v@.subrange(from as int, i as int),
        decreases to - i,
    {
        out.push(v[i]);
        proof {
            assert(v@.subrange(from as int, i as int).push(v@[i as int]) =~= v@.subrange(
                from as int,
                i + 1,
            ));
        }
        i = i + 1;
    }
    out
}

/// Frame size on the wire: 64 payload bytes for CAN-FD, 8 for classic.
pub open spec fn chunk_size_of(fd: bool) -> nat {
    if fd {
        64
    } else {
        8
    }
}

/// The wire text of one outgoing chunk; the final chunk carries the
/// full-packet bit in its identifier.
pub open spec fn chunk_frame(ch: Seq<u8>, base: u32, fd: bool, fin: bool) -> Seq<char> {
    crate::external::ascii_chars_of(
        crate::frame_codec::encoded_frame(
            if fd {
                0x42
            } else {
                0x54
            },
            if fin {
                base | 0x10000000
            } else {
                base
            },
            Some(ch),
            ch.len() as u32,
        ),
    )
}

/// An outgoing payload cut into frames of the protocol's chunk size, in
/// order; only the last frame is marked final.
pub open spec fn fragment_frames(p: Seq<u8>, base: u32, fd: bool) -> Seq<Seq<char>>
    decreases p.len(),
{
    let sz = chunk_size_of(fd);
    if p.len() == 0 {
        Seq::empty()
    } else if p.len() <= sz {
        seq![chunk_frame(p, base, fd, true)]
    } else {
        seq![chunk_frame(p.take(sz as int), base, fd, false)] + fragment_frames(
            p.skip(sz as int),
            base,
            fd,
        )
    }
}

/// Cut `p` into wire frames.
pub fn fragment_can_frames(p: &Vec<u8>, base: u32, fd: bool) -> (r: Vec<String>)
    ensures
        r@.map_values(|s: String| s@) == fragment_frames(p@, base, fd),
{
    let sz: usize = if fd {
        64
    } else {
        8
    };
    let mut out: Vec<String> = Vec::new();
    let mut i: usize = 0;
    proof {
        assert(p@.skip(0) =~= p@);
        assert(out@.map_values(|s: String| s@) =~= Seq::<Seq<char>>::empty());
    }
    while i < p.len()
        invariant
            i <= p@.len(),
            sz == chunk_size_of(fd),
            fragment_frames(p@, base, fd) == out@.map_values(|s: String| s@)
                + fragment_frames(p@.skip(i as int), base, fd),
        decreases p@.len() - i,
    {
        let remaining = p.len() - i;
        let end: usize = if remaining <= sz {
            p.len()
        } else {
            i + sz
        };
        let fin = end == p.len();
        let chunk = copy_range(p, i, end);
        let id: u32 = if fin {
            base | 0x10000000
        } else {
            base
        };
        let tc: char = if fd {
            'B'
        } else {
            'T'
        };
        let clen: u32 = (end - i) as u32;
        proof {
            let rest = p@.skip(i as int);
            if rest.len() <= sz {
                assert(chunk@ =~= rest);
            } else {
                assert(chunk@ =~= rest.take(sz as int));
                assert(rest.skip(sz as int) =~= p@.skip(end as int));
            }
        }
        let formatted = crate::frame_codec::format_can_frame(tc, id, Some(chunk), clen);
        match formatted {
            Ok(frame) => {
                proof {
                    let rest = p@.skip(i as int);
                    let fv = if rest.len() <= sz {
                        chunk_frame(rest, base, fd, true)
                    } else {
                        chunk_frame(rest.take(sz as int), base, fd, false)
                    };
                    assert(frame@ == fv);
                    assert(out@.push(frame).map_values(|s: String| s@) =~= out@.map_values(
                        |s: String| s@,
                    ).push(frame@));
                    if rest.len() <= sz {
                        assert(fragment_frames(rest, base, fd) =~= seq![fv]);
                        assert(p@.skip(p@.len() as int) =~= Seq::<u8>::empty());
                        assert(out@.map_values(|s: String| s@) + seq![fv] =~= out@.map_values(
                            |s: String| s@,
                        ).push(fv) + fragment_frames(p@.skip(p@.len() as int), base, fd));
                    } else {
                        assert(fragment_frames(rest, base, fd) =~= seq![fv] + fragment_frames(
                            p@.skip(end as int),
                            base,
                            fd,
                        ));
                        assert(out@.map_values(|s: String| s@) + (seq![fv] + fragment_frames(
                            p@.skip(end as int),
                            base,
                            fd,
                        )) =~= out@.map_values(|s: String| s@).push(fv) + fragment_frames(
                            p@.skip(end as int),
                            base,
                            fd,
                        ));
                    }
                }
                out.push(frame);
            },
            Err(_) => {
                proof {
                    assert(false);
                }
            },
        }
        i = end;
    }
    proof {
        assert(p@.skip(i as int) =~= Seq::<u8>::empty());
        assert(fragment_frames(p@.skip(i as int), base, fd) =~= Seq::<Seq<char>>::empty());
        assert(out@.map_values(|s: String| s@) + Seq::<Seq<char>>::empty() =~= out@.map_values(
            |s: String| s@,
        ));
    }
    out
}

/// An outgoing POECanable command, as handed over by the host.
#[derive(Debug)]
pub struct PoeCanableCommand {
    pub header: u32,
    pub argument: u32,
    pub target_id: u32,
    pub return_id: u32,
    pub convert_to_base64: u32,
    pub data: Option<String>,
}

/// Mathematical form of an outgoing command.
pub ghost struct PoeCanableCommandView {
    pub header: u32,
    pub argument: u32,
    pub target_id: u32,
    pub return_id: u32,
    pub convert_to_base64: u32,
    pub data: Option<Seq<char>>,
}

impl View for PoeCanableCommand {
    type V = PoeCanableCommandView;

    open spec fn view(&self) -> PoeCanableCommandView {
        PoeCanableCommandView {
            header: self.header,
            argument: self.argument,
            target_id: self.target_id,
            return_id: self.return_id,
            convert_to_base64: self.convert_to_base64,
            data: match self.data {
                Some(s) => Some(s@),
                None => None,
            },
        }
    }
}

/// The command's fields fit their identifier bit-fields.
pub open spec fn valid_can_command(c: PoeCanableCommandView) -> bool {
    c.header <= 0x3 && c.argument <= 0x3ff && c.target_id <= 0xff && c.return_id <= 0xff
}

/// The 29-bit identifier built from the command's fields.
pub open spec fn base_can_id(c: PoeCanableCommandView) -> u32 {
    (((c.header & 0x03) << 26) | ((c.argument & 0x3ff) << 16) | ((c.target_id & 0xff) << 8) | (
    c.return_id & 0xff)) & 0x1fffffff
}

/// Nothing but ASCII whitespace.
pub open spec fn is_blank_bytes(s: Seq<u8>) -> bool {
    forall|i: int| 0 <= i < s.len() ==> is_ws(s[i])
}

/// What `send` writes and echoes: the frame texts, in order, and for the
/// base64 path the payload that is echoed before each write.
pub ghost struct CanSendPlanView {
    pub frames: Seq<Seq<char>>,
    pub echo: Option<Seq<u8>>,
}

/// Executable form of a send plan.
#[derive(Debug)]
pub struct CanSendPlan {
    pub frames: Vec<String>,
    pub echo: Option<Vec<u8>>,
}

impl View for CanSendPlan {
    type V = CanSendPlanView;

    open spec fn view(&self) -> CanSendPlanView {
        CanSendPlanView {
            frames: self.frames@.map_values(|s: String| s@),
            echo: match self.echo {
                Some(v) => Some(v@),
                None => None,
            },
        }
    }
}

/// The plan for a command without payload: one remote frame, final bit set.
pub open spec fn remote_frame_plan(base: u32) -> CanSendPlanView {
    CanSendPlanView {
        frames: seq![
            crate::external::ascii_chars_of(
                crate::frame_codec::encoded_frame(0x52, base | 0x10000000, None, 0),
            ),
        ],
        echo: None,
    }
}

/// The payload of the base64 path: the hex tokens' bytes base64-encoded,
/// or, when no token parses, the text's raw bytes; a NUL closes either.
pub open spec fn b64_payload_of(bytes: Seq<u8>) -> Seq<u8> {
    let toks = parsed_hex_bytes(tokens_from(bytes, 0));
    if toks.len() == 0 {
        bytes + seq![0u8]
    } else {
        crate::external::b64_encode_of(toks) + seq![0u8]
    }
}

/// The whole send plan of a valid command: a remote frame when there is no
/// payload text or only whitespace; otherwise the payload (base64-prepared
/// when asked) cut into frames.
pub open spec fn poe_canable_plan(fd: bool, c: PoeCanableCommandView) -> CanSendPlanView {
    let base = base_can_id(c);
    match c.data {
        None => remote_frame_plan(base),
        Some(chars) => {
            let bytes = vstd::utf8::encode_utf8(chars);
            if is_blank_bytes(bytes) {
                remote_frame_plan(base)
            } else if c.convert_to_base64 == 1 {
                let p = b64_payload_of(bytes);
                CanSendPlanView { frames: fragment_frames(p, base, fd), echo: Some(p) }
            } else {
                CanSendPlanView { frames: fragment_frames(bytes, base, fd), echo: None }
            }
        },
    }
}

/// Build the remote-frame plan.
fn remote_plan(base: u32) -> (r: CanSendPlan)
    ensures
        r@ == remote_frame_plan(base),
{
    let formatted = crate::frame_codec::format_can_frame('R', base | 0x10000000, None, 0);
    match formatted {
        Ok(frame) => {
            let mut frames: Vec<String> = Vec::new();
            proof {
                assert(frames@.map_values(|s: String| s@) =~= Seq::<Seq<char>>::empty());
            }
            let ghost fv = frame@;
            frames.push(frame);
            proof {
                assert(frames@.map_values(|s: String| s@) =~= seq![fv]);
            }
            CanSendPlan { frames, echo: None }
        },
        Err(_) => {
            proof {
                assert(false);
            }
            CanSendPlan { frames: Vec::new(), echo: None }
        },
    }
}

/// Turn one outgoing command into the frames to write.
///
/// Fails exactly when a field exceeds its identifier bit-field.
pub fn plan_poe_canable_send(protocol_fd: bool, cmd: &PoeCanableCommand) -> (r: Result<
    CanSendPlan,
    String,
>)
    ensures
        r is Err <==> !valid_can_command(cmd@),
        r matches Ok(p) ==> p@ == poe_canable_plan(protocol_fd, cmd@),
{
    if cmd.header > 0x3 || cmd.argument > 0x3ff || cmd.target_id > 0xff || cmd.return_id > 0xff {
        return Err(String::from_str("Invalid ID parameters"));
    }
    let base: u32 = (((cmd.header & 0x03) << 26) | ((cmd.argument & 0x3ff) << 16) | ((
    cmd.target_id & 0xff) << 8) | (cmd.return_id & 0xff)) & 0x1fffffff;
    match &cmd.data {
        None => Ok(remote_plan(base)),
        Some(ds) => {
            let bytes: Vec<u8> = ds.as_str().as_bytes_vec();
            let mut blank = true;
            let mut i: usize = 0;
            while i < bytes.len()
                invariant
                    i <= bytes@.len(),
                    blank == forall|j: int| 0 <= j < i ==> is_ws(bytes@[j]),
                decreases bytes@.len() - i,
            {
                if !ws_byte(bytes[i]) {
                    blank = false;
                    proof {
                        assert(!is_ws(bytes@[i as int]));
                        assert(!is_blank_bytes(bytes@));
                    }
                    i = bytes.len();
                } else {
                    i = i + 1;
                }
            }
            if blank {
                Ok(remote_plan(base))
            } else if cmd.convert_to_base64 == 1 {
                let toks = parse_hex_token_bytes(&bytes);
                let mut payload: Vec<u8>;
                if toks.len() == 0 {
                    payload = copy_bytes(&bytes);
                } else {
                    payload = crate::external::b64_encode_bytes(&toks);
                }
                payload.push(0);
                proof {
                    assert(payload@ =~= b64_payload_of(bytes@));
                }
                let frames = fragment_can_frames(&payload, base, protocol_fd);
                let echo = copy_bytes(&payload);
                Ok(CanSendPlan { frames, echo: Some(echo) })
            } else {
                let frames = fragment_can_frames(&bytes, base, protocol_fd);
                Ok(CanSendPlan { frames, echo: None })
            }
        },
    }
}

/// A non-final data frame for `mid`: classic or CAN-FD, without the
/// full-packet bit.
pub open spec fn nonfinal_data_frame(f: crate::frame_codec::RawFrameView, mid: u32) -> bool {
    let d = crate::frame_codec::decoded_of(f);
    (d.is_classic || d.is_fd) && d.full_id.is_full_packet == 0 && d.main_id == mid
}

/// A final data frame for `mid`: classic or CAN-FD, full-packet bit set.
pub open spec fn final_data_frame(f: crate::frame_codec::RawFrameView, mid: u32) -> bool {
    let d = crate::frame_codec::decoded_of(f);
    (d.is_classic || d.is_fd) && d.full_id.is_full_packet == 1 && d.main_id == mid
}

/// The payload bytes of a frame sequence, concatenated in order.
pub open spec fn concat_frame_data(frames: Seq<crate::frame_codec::RawFrameView>) -> Seq<u8>
    decreases frames.len(),
{
    if frames.len() == 0 {
        Seq::empty()
    } else {
        crate::frame_codec::decoded_of(frames[0]).data + concat_frame_data(frames.drop_first())
    }
}

/// The store after a sequence of frames arrives, frame `i` at time
/// `nows[i]`; each frame is handled as one parse call would handle it.
pub open spec fn store_after_frames(
    st: StoreMap,
    port: Seq<char>,
    frames: Seq<crate::frame_codec::RawFrameView>,
    nows: Seq<u64>,
) -> StoreMap
    decreases frames.len(),
{
    if frames.len() == 0 {
        st
    } else {
        store_after_frames(
            frame_step(st, Seq::empty(), port, frames[0], nows[0]).store,
            port,
            frames.drop_first(),
            nows.drop_first(),
        )
    }
}

/// Non-final frames for one identifier extend its slot byte for byte, and
/// the slot keeps the timestamp it was created with.
proof fn lemma_reassembly_extends(
    st: StoreMap,
    port: Seq<char>,
    frames: Seq<crate::frame_codec::RawFrameView>,
    nows: Seq<u64>,
    mid: u32,
    ts: u64,
    acc: Seq<u8>,
)
    requires
        frames.len() == nows.len(),
        forall|i: int| 0 <= i < frames.len() ==> nonfinal_data_frame(#[trigger] frames[i], mid),
        st.dom().contains((port, mid)),
        st[(port, mid)] == (PartialPacketView { timestamp: ts, data: acc }),
        acc.len() + concat_frame_data(frames).len() <= PARTIAL_LIMIT,
    ensures
        store_after_frames(st, port, frames, nows) == st.insert(
            (port, mid),
            PartialPacketView { timestamp: ts, data: acc + concat_frame_data(frames) },
        ),
    decreases frames.len(),
{
    let k = (port, mid);
    if frames.len() == 0 {
        assert(acc + concat_frame_data(frames) =~= acc);
        assert(st =~= st.insert(k, PartialPacketView { timestamp: ts, data: acc }));
    } else {
        let d = crate::frame_codec::decoded_of(frames[0]);
        let st1 = frame_step(st, Seq::empty(), port, frames[0], nows[0]).store;
        assert(concat_frame_data(frames) == d.data + concat_frame_data(frames.drop_first()));
        assert(st1 == st.insert(k, PartialPacketView { timestamp: ts, data: acc + d.data }));
        lemma_reassembly_extends(
            st1,
            port,
            frames.drop_first(),
            nows.drop_first(),
            mid,
            ts,
            acc + d.data,
        );
        assert((acc + d.data) + concat_frame_data(frames.drop_first()) =~= acc
            + concat_frame_data(frames));
        assert(st1.insert(
            k,
            PartialPacketView { timestamp: ts, data: acc + concat_frame_data(frames) },
        ) =~= st.insert(
            k,
            PartialPacketView { timestamp: ts, data: acc + concat_frame_data(frames) },
        ));
    }
}

/// Reassembly: after any run of non-final frames for one identifier,
/// starting from an empty slot, the final frame's message carries the
/// byte-concatenation of every frame's payload, and the timestamp of the
/// first non-final frame; the slot is gone afterwards.
pub proof fn lemma_can_reassembly(
    st: StoreMap,
    msgs: Seq<(u32, MessageDataView)>,
    port: Seq<char>,
    frames: Seq<crate::frame_codec::RawFrameView>,
    nows: Seq<u64>,
    fin: crate::frame_codec::RawFrameView,
    now_fin: u64,
    mid: u32,
)
    requires
        frames.len() == nows.len(),
        frames.len() >= 1,
        forall|i: int| 0 <= i < frames.len() ==> nonfinal_data_frame(#[trigger] frames[i], mid),
        final_data_frame(fin, mid),
        !st.dom().contains((port, mid)),
        concat_frame_data(frames).len() <= PARTIAL_LIMIT,
    ensures
        ({
            let st_n = store_after_frames(st, port, frames, nows);
            let d = crate::frame_codec::decoded_of(fin);
            let complete = concat_frame_data(frames) + d.data;
            let res = frame_step(st_n, msgs, port, fin, now_fin);
            res.msgs == upsert_msg(
                msgs,
                mid,
                MessageDataView {
                    timestamp: nows[0],
                    full_id: d.full_id,
                    main_id: mid,
                    can_data: complete,
                    json: json_text_of(complete, d.is_fd),
                    is_remote: false,
                    is_complete: true,
                },
            ) && res.store == st
        }),
{
    let k = (port, mid);
    let d0 = crate::frame_codec::decoded_of(frames[0]);
    let st1 = frame_step(st, Seq::empty(), port, frames[0], nows[0]).store;
    assert(concat_frame_data(frames) == d0.data + concat_frame_data(frames.drop_first()));
    assert(Seq::<u8>::empty() + d0.data =~= d0.data);
    assert(st1 == st.insert(k, PartialPacketView { timestamp: nows[0], data: d0.data }));
    lemma_reassembly_extends(
        st1,
        port,
        frames.drop_first(),
        nows.drop_first(),
        mid,
        nows[0],
        d0.data,
    );
    let st_n = store_after_frames(st, port, frames, nows);
    assert(st_n == st1.insert(
        k,
        PartialPacketView {
            timestamp: nows[0],
            data: d0.data + concat_frame_data(frames.drop_first()),
        },
    ));
    assert(st_n == st.insert(
        k,
        PartialPacketView { timestamp: nows[0], data: concat_frame_data(frames) },
    )) by {
        assert(st1.insert(
            k,
            PartialPacketView { timestamp: nows[0], data: concat_frame_data(frames) },
        ) =~= st.insert(
            k,
            PartialPacketView { timestamp: nows[0], data: concat_frame_data(frames) },
        ));
    }
    assert(st_n.remove(k) =~= st);
}

/// Overflow: a non-final frame that would push a slot past the byte bound
/// drops the slot and emits nothing.
pub proof fn lemma_can_overflow_drop(
    st: StoreMap,
    msgs: Seq<(u32, MessageDataView)>,
    port: Seq<char>,
    f: crate::frame_codec::RawFrameView,
    now: u64,
    mid: u32,
)
    requires
        nonfinal_data_frame(f, mid),
        (if st.dom().contains((port, mid)) {
            st[(port, mid)].data.len()
        } else {
            0
        }) + crate::frame_codec::decoded_of(f).data.len() > PARTIAL_LIMIT,
    ensures
        frame_step(st, msgs, port, f, now).store == st.remove((port, mid)),
        frame_step(st, msgs, port, f, now).msgs == msgs,
{
    let d = crate::frame_codec::decoded_of(f);
    assert(!d.is_remote);
    assert(d.main_id == mid);
    let k = (port, mid);
    let part = if st.dom().contains(k) {
        st[k].data
    } else {
        Seq::<u8>::empty()
    };
    assert((part + d.data).len() > PARTIAL_LIMIT as nat);
}

/// Each frame step leaves other ports' slots exactly as they were.
proof fn lemma_frame_steps_other_ports(
    st: StoreMap,
    msgs: Seq<(u32, MessageDataView)>,
    port: Seq<char>,
    frames: Seq<crate::frame_codec::RawFrameView>,
    now: u64,
)
    ensures
        forall|k: (Seq<char>, u32)|
            #![trigger frame_steps(st, msgs, port, frames, now).store.dom().contains(k)]
            k.0 != port ==> (frame_steps(st, msgs, port, frames, now).store.dom().contains(k)
                <==> st.dom().contains(k)) && (st.dom().contains(k)
                ==> frame_steps(st, msgs, port, frames, now).store[k] == st[k]),
    decreases frames.len(),
{
    if frames.len() == 0 {
    } else {
        let first = frame_step(st, msgs, port, frames[0], now);
        lemma_frame_steps_other_ports(first.store, first.msgs, port, frames.drop_first(), now);
        let whole = frame_steps(st, msgs, port, frames, now);
        let rest = frame_steps(first.store, first.msgs, port, frames.drop_first(), now);
        assert forall|k: (Seq<char>, u32)|
            k.0 != port implies (#[trigger] whole.store.dom().contains(k) <==> st.dom().contains(
            k,
        )) && (st.dom().contains(k) ==> whole.store[k] == st[k]) by {
            assert(whole.store == rest.store);
            assert(rest.store.dom().contains(k) <==> first.store.dom().contains(k));
            assert(first.store.dom().contains(k) ==> rest.store[k] == first.store[k]);
            assert(first.store.dom().contains(k) <==> st.dom().contains(k));
            assert(st.dom().contains(k) ==> first.store[k] == st[k]);
        }
    }
}

/// Each frame step keeps this port's slots fresh, given they were fresh.
proof fn lemma_frame_steps_fresh(
    st: StoreMap,
    msgs: Seq<(u32, MessageDataView)>,
    port: Seq<char>,
    frames: Seq<crate::frame_codec::RawFrameView>,
    now: u64,
)
    requires
        forall|k: (Seq<char>, u32)|
            #![trigger st.dom().contains(k)]
            k.0 == port && st.dom().contains(k) ==> keep_packet(st[k], now, PACKET_TIMEOUT_MS),
    ensures
        forall|k: (Seq<char>, u32)|
            #![trigger frame_steps(st, msgs, port, frames, now).store.dom().contains(k)]
            k.0 == port && frame_steps(st, msgs, port, frames, now).store.dom().contains(k)
                ==> keep_packet(
                frame_steps(st, msgs, port, frames, now).store[k],
                now,
                PACKET_TIMEOUT_MS,
            ),
    decreases frames.len(),
{
    if frames.len() == 0 {
    } else {
        let first = frame_step(st, msgs, port, frames[0], now);
        assert forall|k: (Seq<char>, u32)|
            k.0 == port && #[trigger] first.store.dom().contains(k) implies keep_packet(
            first.store[k],
            now,
            PACKET_TIMEOUT_MS,
        ) by {
            assert(st.dom().contains(k) ==> keep_packet(st[k], now, PACKET_TIMEOUT_MS));
            let d = crate::frame_codec::decoded_of(frames[0]);
            let key = (port, d.main_id);
            assert(st.dom().contains(key) ==> keep_packet(st[key], now, PACKET_TIMEOUT_MS));
            if k == key && first.store[k] != st[k] {
                assert(first.store[k].timestamp == now || (st.dom().contains(key)
                    && first.store[k].timestamp == st[key].timestamp));
            }
        }
        lemma_frame_steps_fresh(first.store, first.msgs, port, frames.drop_first(), now);
        let whole = frame_steps(st, msgs, port, frames, now);
        let rest = frame_steps(first.store, first.msgs, port, frames.drop_first(), now);
        assert forall|k: (Seq<char>, u32)|
            k.0 == port && #[trigger] whole.store.dom().contains(k) implies keep_packet(
            whole.store[k],
            now,
            PACKET_TIMEOUT_MS,
        ) by {
            assert(whole.store == rest.store);
            assert(rest.store.dom().contains(k));
            assert(keep_packet(rest.store[k], now, PACKET_TIMEOUT_MS));
        }
    }
}

/// Expiry: after a parse call, no slot of this port is older than the
/// packet timeout — a partial untouched for longer is gone.
pub proof fn lemma_can_partial_expiry(st: StoreMap, port: Seq<char>, data: Seq<u8>, now: u64)
    ensures
        forall|k: (Seq<char>, u32)|
            #![trigger can_process_spec(st, port, data, now).store.dom().contains(k)]
            k.0 == port && can_process_spec(st, port, data, now).store.dom().contains(k)
                ==> keep_packet(
                can_process_spec(st, port, data, now).store[k],
                now,
                PACKET_TIMEOUT_MS,
            ),
{
    let st1 = clear_expired_spec(st, port, now, PACKET_TIMEOUT_MS);
    let sc = crate::frame_codec::scan(data);
    lemma_frame_steps_fresh(st1, Seq::empty(), port, sc.frames, now);
    let stepped = frame_steps(st1, Seq::empty(), port, sc.frames, now);
    assert forall|k: (Seq<char>, u32)|
        k.0 == port && #[trigger] can_process_spec(st, port, data, now).store.dom().contains(k)
        implies keep_packet(
        can_process_spec(st, port, data, now).store[k],
        now,
        PACKET_TIMEOUT_MS,
    ) by {
        assert(can_process_spec(st, port, data, now).store == stepped.store);
        assert(stepped.store.dom().contains(k) && keep_packet(
            stepped.store[k],
            now,
            PACKET_TIMEOUT_MS,
        ));
    }
}

/// Isolation: a parse call for one port leaves every other port's slots
/// exactly as they were.
pub proof fn lemma_can_port_isolation(st: StoreMap, port: Seq<char>, data: Seq<u8>, now: u64)
    ensures
        forall|k: (Seq<char>, u32)|
            k.0 != port ==> (can_process_spec(st, port, data, now).store.dom().contains(k)
                <==> st.dom().contains(k)) && (st.dom().contains(k) ==> can_process_spec(
                st,
                port,
                data,
                now,
            ).store[k] == st[k]),
{
    let st1 = clear_expired_spec(st, port, now, PACKET_TIMEOUT_MS);
    let sc = crate::frame_codec::scan(data);
    lemma_frame_steps_other_ports(st1, Seq::empty(), port, sc.frames, now);
    let stepped = frame_steps(st1, Seq::empty(), port, sc.frames, now);
    assert forall|k: (Seq<char>, u32)| k.0 != port implies (can_process_spec(
        st,
        port,
        data,
        now,
    ).store.dom().contains(k) <==> st.dom().contains(k)) && (st.dom().contains(k)
        ==> can_process_spec(st, port, data, now).store[k] == st[k]) by {
        assert(st1.dom().contains(k) <==> st.dom().contains(k));
        assert(st.dom().contains(k) ==> st1[k] == st[k]);
        assert(can_process_spec(st, port, data, now).store == stepped.store);
        assert(stepped.store.dom().contains(k) <==> st1.dom().contains(k));
        assert(st1.dom().contains(k) ==> stepped.store[k] == st1[k]);
    }
}

} // verus!
