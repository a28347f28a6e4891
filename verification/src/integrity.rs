//! Confirms that message content read by consumers matches what producers
//! wrote, and that every write is eventually read and every read corresponds
//! to a write. Content is compared through a deterministic hash keyed by
//! (topic, partition, offset); raw content is never retained.

use vstd::prelude::*;
use vstd::string::StrSliceExecFns;
use vstd::string::StringExecFns;

use crate::codec::enc_str;
use crate::codec::enc_u64;
use crate::codec::parse_str;
use crate::codec::parse_u64;
use crate::codec::append_enc_str;
use crate::codec::append_enc_u64;
use crate::codec::lemma_parse_enc_str;
use crate::codec::lemma_parse_enc_u64;
use crate::codec::parse_str_chars;
use crate::codec::parse_u64_chars;
use crate::codec::str_to_chars;
use crate::domain::DeserializationError;
use crate::domain::EventView;
use crate::domain::FailureView;
use crate::domain::LineView;
use crate::domain::MessageView;
use crate::domain::TestEvent;
use crate::domain::TestLogLine;
use crate::domain::TestValidator;
use crate::domain::ValidationFailure;
use crate::domain::outcomes_view;
use crate::order::chars_cmp;
use crate::order::chars_lt;
use crate::order::lemma_chars_lt_asym;
use crate::order::lemma_chars_lt_irrefl;
use crate::order::lemma_chars_lt_total;
use crate::order::lemma_chars_lt_trans;
use crate::text::data_hash;
use crate::text::compute_data_hash;
use crate::text::dec;
use crate::text::u64_to_string;

verus! {

/// A content hash together with the log line that recorded it.
#[derive(Clone, Copy, PartialEq, Eq, Structural)]
pub struct HashLoc {
    pub hash: u64,
    pub line: u64,
}

/// The read and write hashes observed for one (topic, partition, offset)
/// slot; a slot is only ever created with at least one side present.
pub struct SlotEntry {
    pub topic: String,
    pub partition: u64,
    pub offset: u64,
    pub read: Option<HashLoc>,
    pub write: Option<HashLoc>,
}

/// Mathematical model of `SlotEntry`.
#[verifier::ext_equal]
pub struct SlotView {
    pub topic: Seq<char>,
    pub partition: u64,
    pub offset: u64,
    pub read: Option<HashLoc>,
    pub write: Option<HashLoc>,
}

impl View for SlotEntry {
    type V = SlotView;

    open spec fn view(&self) -> SlotView {
        SlotView {
            topic: self.topic@,
            partition: self.partition,
            offset: self.offset,
            read: self.read,
            write: self.write,
        }
    }
}

/// The models of a sequence of slots.
pub open spec fn slot_views(s: Seq<SlotEntry>) -> Seq<SlotView> {
    s.map_values(|e: SlotEntry| e@)
}

/// A well-formed slot has at least one side recorded; slots are only created
/// when one side is inserted, so every reachable state satisfies this.
pub open spec fn wf_slot(s: SlotView) -> bool {
    s.read is Some || s.write is Some
}

/// Well-formedness of a whole state.
pub open spec fn wf_state(st: Seq<SlotView>) -> bool {
    forall|i: int| 0 <= i < st.len() ==> wf_slot(#[trigger] st[i])
}

/// Whether slot `s` records the triple (`t`, `p`, `o`).
pub open spec fn slot_matches(s: SlotView, t: Seq<char>, p: u64, o: u64) -> bool {
    s.topic == t && s.partition == p && s.offset == o
}

/// Whether the key (`t`, `p`, `o`) sorts strictly before slot `s`'s key, by
/// topic, then partition, then offset.
pub open spec fn key_lt(t: Seq<char>, p: u64, o: u64, s: SlotView) -> bool {
    chars_lt(t, s.topic) || (t == s.topic && (p < s.partition || (p == s.partition && o
        < s.offset)))
}

/// The key order between two slots.
pub open spec fn slot_key_lt(a: SlotView, b: SlotView) -> bool {
    key_lt(a.topic, a.partition, a.offset, b)
}

/// Whether the slots are strictly sorted by key; the reconciliation sweep
/// walks them in stored order, so a sorted state reports its findings by
/// topic, then partition, then offset.
pub open spec fn sorted_slots(st: Seq<SlotView>) -> bool {
    forall|i: int, j: int| 0 <= i < j < st.len() ==> slot_key_lt(st[i], st[j])
}

/// Whether each slot's key sorts strictly before its successor's.
pub open spec fn adj_sorted(st: Seq<SlotView>) -> bool {
    forall|i: int| 0 <= i < st.len() - 1 ==> slot_key_lt(#[trigger] st[i], st[i + 1])
}

/// Adjacent order extends to every pair, by transitivity.
pub proof fn lemma_adj_sorted_pairwise(st: Seq<SlotView>)
    requires
        adj_sorted(st),
    ensures
        sorted_slots(st),
{
    assert forall|i: int, j: int| 0 <= i < j < st.len() implies slot_key_lt(st[i], st[j]) by {
        lemma_adj_sorted_chain(st, i, j);
    }
}

/// A chain of adjacent comparisons orders any pair.
proof fn lemma_adj_sorted_chain(st: Seq<SlotView>, i: int, j: int)
    requires
        adj_sorted(st),
        0 <= i < j < st.len(),
    ensures
        slot_key_lt(st[i], st[j]),
    decreases j - i,
{
    if j == i + 1 {
        assert(slot_key_lt(st[i], st[i + 1]));
    } else {
        lemma_adj_sorted_chain(st, i, j - 1);
        assert(slot_key_lt(st[j - 1], st[j]));
        lemma_slot_key_lt_trans(st[i], st[j - 1], st[j]);
    }
}

/// The position a new key is inserted at: before the first slot whose key is
/// greater.
pub open spec fn insert_pos(st: Seq<SlotView>, t: Seq<char>, p: u64, o: u64) -> int
    decreases st.len(),
{
    if st.len() == 0 {
        0
    } else if key_lt(t, p, o, st[0]) {
        0
    } else {
        1 + insert_pos(st.skip(1), t, p, o)
    }
}

/// The insertion position is in bounds, everything before it is not greater
/// than the key, and the slot at it (if any) is greater.
proof fn lemma_insert_pos_props(st: Seq<SlotView>, t: Seq<char>, p: u64, o: u64)
    ensures
        0 <= insert_pos(st, t, p, o) <= st.len(),
        forall|j: int| 0 <= j < insert_pos(st, t, p, o) ==> !key_lt(t, p, o, #[trigger] st[j]),
        insert_pos(st, t, p, o) < st.len() ==> key_lt(t, p, o, st[insert_pos(st, t, p, o)]),
    decreases st.len(),
{
    if st.len() > 0 && !key_lt(t, p, o, st[0]) {
        lemma_insert_pos_props(st.skip(1), t, p, o);
        let pos = insert_pos(st, t, p, o);
        assert forall|j: int| 0 <= j < pos implies !key_lt(t, p, o, #[trigger] st[j]) by {
            if j > 0 {
                assert(st.skip(1)[j - 1] == st[j]);
            }
        }
        if pos < st.len() {
            assert(st.skip(1)[pos - 1] == st[pos]);
        }
    }
}

/// Advancing past keys that are not greater leaves the position ahead.
proof fn lemma_insert_pos_skip(st: Seq<SlotView>, t: Seq<char>, p: u64, o: u64, i: int)
    requires
        0 <= i <= st.len(),
        forall|j: int| 0 <= j < i ==> !key_lt(t, p, o, #[trigger] st[j]),
    ensures
        insert_pos(st, t, p, o) == i + insert_pos(st.skip(i), t, p, o),
    decreases i,
{
    if i == 0 {
        assert(st.skip(0) =~= st);
    } else {
        lemma_insert_pos_skip(st, t, p, o, i - 1);
        assert(st.skip(i - 1).len() > 0);
        assert(st.skip(i - 1)[0] == st[i - 1]);
        assert(st.skip(i - 1).skip(1) =~= st.skip(i));
    }
}

/// The key order on slots is transitive.
proof fn lemma_slot_key_lt_trans(a: SlotView, b: SlotView, c: SlotView)
    requires
        slot_key_lt(a, b),
        slot_key_lt(b, c),
    ensures
        slot_key_lt(a, c),
{
    if chars_lt(a.topic, b.topic) && chars_lt(b.topic, c.topic) {
        lemma_chars_lt_trans(a.topic, b.topic, c.topic);
    }
}

/// Slots with different keys are strictly ordered one way or the other.
proof fn lemma_slot_key_lt_total(s: SlotView, t: Seq<char>, p: u64, o: u64)
    requires
        !slot_matches(s, t, p, o),
    ensures
        key_lt(t, p, o, s) || chars_lt(s.topic, t) || (s.topic == t && (s.partition < p || (
        s.partition == p && s.offset < o))),
{
    if s.topic != t {
        lemma_chars_lt_total(t, s.topic);
    }
}

/// The index of the slot recorded for (`t`, `p`, `o`), if any.
pub open spec fn find_slot_idx(st: Seq<SlotView>, t: Seq<char>, p: u64, o: u64) -> Option<int>
    decreases st.len(),
{
    if st.len() == 0 {
        None
    } else if slot_matches(st[0], t, p, o) {
        Some(0)
    } else {
        match find_slot_idx(st.skip(1), t, p, o) {
            None => None,
            Some(j) => Some(j + 1),
        }
    }
}

/// Same offset returned different content to two reads.
pub open spec fn different_reads_failure(line: u64, prior: HashLoc) -> FailureView {
    FailureView {
        line,
        code: "different-reads"@,
        error: "message data differs from previous read at line "@ + dec(prior.line),
    }
}

/// A read completed a pair whose hashes differ.
pub open spec fn write_read_different_failure(line: u64, w: HashLoc) -> FailureView {
    FailureView {
        line,
        code: "write-read-different"@,
        error: "message data differs from previous write by the producer at line "@ + dec(w.line),
    }
}

/// Same offset written twice with different content.
pub open spec fn different_writes_failure(line: u64, prior: HashLoc) -> FailureView {
    FailureView {
        line,
        code: "different-writes"@,
        error: "message data differs from previous write at line "@ + dec(prior.line),
    }
}

/// A write completed a pair whose hashes differ.
pub open spec fn read_write_different_failure(line: u64, r: HashLoc) -> FailureView {
    FailureView {
        line,
        code: "read-write-different"@,
        error: "message data differs from previous read by the consumer at line "@ + dec(r.line),
    }
}

/// At stream end: a consumer read an offset that was never written.
pub open spec fn read_never_written_failure(s: SlotView, r: HashLoc) -> FailureView {
    FailureView {
        line: r.line,
        code: "read-never-written"@,
        error: "topic = '"@ + s.topic + "', partition = "@ + dec(s.partition) + ", offset = "@
            + dec(s.offset) + ": message read at line "@ + dec(r.line) + " was never written"@,
    }
}

/// At stream end: a written offset was never read by any consumer.
pub open spec fn write_never_read_failure(s: SlotView, w: HashLoc) -> FailureView {
    FailureView {
        line: w.line,
        code: "write-never-read"@,
        error: "topic = '"@ + s.topic + "', partition = "@ + dec(s.partition) + ", offset = "@
            + dec(s.offset) + ": message write at line "@ + dec(w.line)
            + " was never read by any consumer, it may be lost"@,
    }
}

/// After a read settled into slot `s`, the pair check: both sides present
/// with different hashes reports `write-read-different`.
pub open spec fn pair_outcome_read(s: SlotView, line: u64) -> Seq<Option<FailureView>> {
    match (s.read, s.write) {
        (Some(r), Some(w)) => if r.hash != w.hash {
            seq![Some(write_read_different_failure(line, w))]
        } else {
            seq![None]
        },
        _ => seq![None],
    }
}

/// After a write settled into slot `s`, the pair check: both sides present
/// with different hashes reports `read-write-different`.
pub open spec fn pair_outcome_write(s: SlotView, line: u64) -> Seq<Option<FailureView>> {
    match (s.read, s.write) {
        (Some(r), Some(w)) => if r.hash != w.hash {
            seq![Some(read_write_different_failure(line, r))]
        } else {
            seq![None]
        },
        _ => seq![None],
    }
}

/// What a read event does: create or fill the slot's read side, reject a
/// conflicting repeated read without updating, then run the pair check.
pub open spec fn integrity_read_step(st: Seq<SlotView>, line: u64, message: MessageView) -> (
    Seq<SlotView>,
    Seq<Option<FailureView>>,
) {
    let h = data_hash(message.data);
    let t = message.metadata.topic_name;
    let p = message.metadata.topic_partition;
    let o = message.metadata.topic_partition_offset;
    match find_slot_idx(st, t, p, o) {
        None => (
            st.insert(
                insert_pos(st, t, p, o),
                SlotView {
                    topic: t,
                    partition: p,
                    offset: o,
                    read: Some(HashLoc { hash: h, line }),
                    write: None,
                },
            ),
            seq![None],
        ),
        Some(i) => {
            let s = st[i];
            match s.read {
                Some(prior) => if prior.hash != h {
                    (st, seq![Some(different_reads_failure(line, prior))])
                } else {
                    (st, pair_outcome_read(s, line))
                },
                None => {
                    let s2 = SlotView {
                        topic: s.topic,
                        partition: s.partition,
                        offset: s.offset,
                        read: Some(HashLoc { hash: h, line }),
                        write: s.write,
                    };
                    (st.update(i, s2), pair_outcome_read(s2, line))
                },
            }
        },
    }
}

/// What a write event does: the symmetric logic with roles swapped.
pub open spec fn integrity_write_step(st: Seq<SlotView>, line: u64, message: MessageView) -> (
    Seq<SlotView>,
    Seq<Option<FailureView>>,
) {
    let h = data_hash(message.data);
    let t = message.metadata.topic_name;
    let p = message.metadata.topic_partition;
    let o = message.metadata.topic_partition_offset;
    match find_slot_idx(st, t, p, o) {
        None => (
            st.insert(
                insert_pos(st, t, p, o),
                SlotView {
                    topic: t,
                    partition: p,
                    offset: o,
                    read: None,
                    write: Some(HashLoc { hash: h, line }),
                },
            ),
            seq![None],
        ),
        Some(i) => {
            let s = st[i];
            match s.write {
                Some(prior) => if prior.hash != h {
                    (st, seq![Some(different_writes_failure(line, prior))])
                } else {
                    (st, pair_outcome_write(s, line))
                },
                None => {
                    let s2 = SlotView {
                        topic: s.topic,
                        partition: s.partition,
                        offset: s.offset,
                        read: s.read,
                        write: Some(HashLoc { hash: h, line }),
                    };
                    (st.update(i, s2), pair_outcome_write(s2, line))
                },
            }
        },
    }
}

/// The findings for one slot at end of stream: a one-sided slot yields
/// exactly one failure at the captured line; a paired slot yields none. A
/// slot with neither side cannot arise from any reachable state (see
/// `lemma_integrity_step_preserves_wf`) and contributes nothing.
pub open spec fn slot_failures(s: SlotView) -> Seq<Option<FailureView>> {
    match (s.read, s.write) {
        (Some(_), Some(_)) => Seq::empty(),
        (Some(r), None) => seq![Some(read_never_written_failure(s, r))],
        (None, Some(w)) => seq![Some(write_never_read_failure(s, w))],
        (None, None) => Seq::empty(),
    }
}

/// The full end-of-stream sweep, in stored slot order.
pub open spec fn reconcile(st: Seq<SlotView>) -> Seq<Option<FailureView>>
    decreases st.len(),
{
    if st.len() == 0 {
        Seq::empty()
    } else {
        slot_failures(st[0]) + reconcile(st.skip(1))
    }
}

/// What one log line does to the integrity state.
pub open spec fn integrity_step(st: Seq<SlotView>, l: LineView) -> (
    Seq<SlotView>,
    Seq<Option<FailureView>>,
) {
    match l.event {
        EventView::Read { consumer, message } => integrity_read_step(st, l.line, message),
        EventView::Write { producer, message } => integrity_write_step(st, l.line, message),
        EventView::Ended => (st, reconcile(st)),
        _ => (st, seq![None]),
    }
}

/// Every step preserves slot well-formedness: a slot is created with one side
/// present and a side is only ever added, so the sweep's empty case is
/// unreachable in any run that starts from a well-formed state.
pub proof fn lemma_integrity_step_preserves_wf(st: Seq<SlotView>, l: LineView)
    requires
        wf_state(st),
    ensures
        wf_state(integrity_step(st, l).0),
{
    let st2 = integrity_step(st, l).0;
    assert forall|i: int| 0 <= i < st2.len() implies wf_slot(#[trigger] st2[i]) by {
        match l.event {
            EventView::Read { consumer, message } => {
                let t = message.metadata.topic_name;
                let p = message.metadata.topic_partition;
                let o = message.metadata.topic_partition_offset;
                lemma_find_slot_idx_bounds(st, t, p, o);
                match find_slot_idx(st, t, p, o) {
                    None => {
                        lemma_insert_pos_props(st, t, p, o);
                        let p0 = insert_pos(st, t, p, o);
                        if i == p0 {
                            assert(st2[i].read is Some);
                        } else if i < p0 {
                            assert(st2[i] == st[i]);
                        } else {
                            assert(st2[i] == st[i - 1]);
                        }
                    },
                    Some(i0) => {
                        match st[i0].read {
                            Some(_) => {
                                assert(st2 == st);
                            },
                            None => {
                                if i == i0 {
                                    assert(st2[i].read is Some);
                                } else {
                                    assert(st2[i] == st[i]);
                                }
                            },
                        }
                    },
                }
            },
            EventView::Write { producer, message } => {
                let t = message.metadata.topic_name;
                let p = message.metadata.topic_partition;
                let o = message.metadata.topic_partition_offset;
                lemma_find_slot_idx_bounds(st, t, p, o);
                match find_slot_idx(st, t, p, o) {
                    None => {
                        lemma_insert_pos_props(st, t, p, o);
                        let p0 = insert_pos(st, t, p, o);
                        if i == p0 {
                            assert(st2[i].write is Some);
                        } else if i < p0 {
                            assert(st2[i] == st[i]);
                        } else {
                            assert(st2[i] == st[i - 1]);
                        }
                    },
                    Some(i0) => {
                        match st[i0].write {
                            Some(_) => {
                                assert(st2 == st);
                            },
                            None => {
                                if i == i0 {
                                    assert(st2[i].write is Some);
                                } else {
                                    assert(st2[i] == st[i]);
                                }
                            },
                        }
                    },
                }
            },
            _ => {
                assert(st2 == st);
            },
        }
    }
}

/// Inserting a fresh key at its position keeps the slots strictly sorted.
proof fn lemma_sorted_insert(st: Seq<SlotView>, fresh: SlotView)
    requires
        sorted_slots(st),
        find_slot_idx(st, fresh.topic, fresh.partition, fresh.offset) is None,
    ensures
        sorted_slots(
            st.insert(insert_pos(st, fresh.topic, fresh.partition, fresh.offset), fresh),
        ),
{
    let t = fresh.topic;
    let p = fresh.partition;
    let o = fresh.offset;
    lemma_insert_pos_props(st, t, p, o);
    lemma_find_slot_none_converse(st, t, p, o);
    let p0 = insert_pos(st, t, p, o);
    let st2 = st.insert(p0, fresh);
    assert forall|i: int, j: int| 0 <= i < j < st2.len() implies slot_key_lt(st2[i], st2[j]) by {
        if i == p0 {
            assert(st2[i] == fresh);
            assert(st2[j] == st[j - 1]);
            assert(key_lt(t, p, o, st[p0]));
            if j - 1 == p0 {
                assert(slot_key_lt(fresh, st2[j]));
            } else {
                assert(slot_key_lt(st[p0], st[j - 1]));
                lemma_slot_key_lt_trans(fresh, st[p0], st[j - 1]);
            }
        } else if j == p0 {
            assert(st2[i] == st[i]);
            assert(st2[j] == fresh);
            assert(!key_lt(t, p, o, st[i]));
            assert(!slot_matches(st[i], t, p, o));
            lemma_slot_key_lt_total(st[i], t, p, o);
            assert(slot_key_lt(st[i], fresh));
        } else if i < p0 && j > p0 {
            assert(st2[i] == st[i]);
            assert(st2[j] == st[j - 1]);
            assert(slot_key_lt(st[i], st[j - 1]));
        } else if j < p0 {
            assert(st2[i] == st[i]);
            assert(st2[j] == st[j]);
        } else {
            assert(st2[i] == st[i - 1]);
            assert(st2[j] == st[j - 1]);
        }
    }
}

/// Every step keeps the slots sorted by key: lookups never reorder, updates
/// keep keys, and new keys are inserted at their position. Together with the
/// sweep walking slots in stored order, reconciliation reports by topic,
/// then partition, then offset.
pub proof fn lemma_integrity_step_preserves_sorted(st: Seq<SlotView>, l: LineView)
    requires
        sorted_slots(st),
    ensures
        sorted_slots(integrity_step(st, l).0),
{
    let st2 = integrity_step(st, l).0;
    match l.event {
        EventView::Read { consumer, message } => {
            let t = message.metadata.topic_name;
            let p = message.metadata.topic_partition;
            let o = message.metadata.topic_partition_offset;
            let h = data_hash(message.data);
            lemma_find_slot_idx_bounds(st, t, p, o);
            match find_slot_idx(st, t, p, o) {
                None => {
                    let fresh = SlotView {
                        topic: t,
                        partition: p,
                        offset: o,
                        read: Some(HashLoc { hash: h, line: l.line }),
                        write: None,
                    };
                    lemma_sorted_insert(st, fresh);
                },
                Some(i0) => {
                    if st[i0].read is None {
                        assert forall|i: int, j: int|
                            0 <= i < j < st2.len() implies slot_key_lt(st2[i], st2[j]) by {
                            assert(st2[i].topic == st[i].topic && st2[i].partition
                                == st[i].partition && st2[i].offset == st[i].offset);
                            assert(st2[j].topic == st[j].topic && st2[j].partition
                                == st[j].partition && st2[j].offset == st[j].offset);
                            assert(slot_key_lt(st[i], st[j]));
                        }
                    }
                },
            }
        },
        EventView::Write { producer, message } => {
            let t = message.metadata.topic_name;
            let p = message.metadata.topic_partition;
            let o = message.metadata.topic_partition_offset;
            let h = data_hash(message.data);
            lemma_find_slot_idx_bounds(st, t, p, o);
            match find_slot_idx(st, t, p, o) {
                None => {
                    let fresh = SlotView {
                        topic: t,
                        partition: p,
                        offset: o,
                        read: None,
                        write: Some(HashLoc { hash: h, line: l.line }),
                    };
                    lemma_sorted_insert(st, fresh);
                },
                Some(i0) => {
                    if st[i0].write is None {
                        assert forall|i: int, j: int|
                            0 <= i < j < st2.len() implies slot_key_lt(st2[i], st2[j]) by {
                            assert(st2[i].topic == st[i].topic && st2[i].partition
                                == st[i].partition && st2[i].offset == st[i].offset);
                            assert(st2[j].topic == st[j].topic && st2[j].partition
                                == st[j].partition && st2[j].offset == st[j].offset);
                            assert(slot_key_lt(st[i], st[j]));
                        }
                    }
                },
            }
        },
        _ => {},
    }
}

/// The sweep appends pointwise: reconciling one more slot appends its
/// findings.
proof fn lemma_reconcile_push(st: Seq<SlotView>, x: SlotView)
    ensures
        reconcile(st.push(x)) == reconcile(st) + slot_failures(x),
    decreases st.len(),
{
    if st.len() == 0 {
        assert(st.push(x)[0] == x);
        assert(st.push(x).skip(1) =~= Seq::<SlotView>::empty());
        assert(reconcile(Seq::<SlotView>::empty()) == Seq::<Option<FailureView>>::empty());
        assert(reconcile(st.push(x)) == slot_failures(x) + Seq::<Option<FailureView>>::empty());
        assert(slot_failures(x) + Seq::<Option<FailureView>>::empty() =~= Seq::<
            Option<FailureView>,
        >::empty() + slot_failures(x));
    } else {
        assert(st.push(x)[0] == st[0]);
        assert(st.push(x).skip(1) =~= st.skip(1).push(x));
        lemma_reconcile_push(st.skip(1), x);
        assert(reconcile(st.push(x)) == slot_failures(st[0]) + reconcile(st.skip(1).push(x)));
        assert(reconcile(st) == slot_failures(st[0]) + reconcile(st.skip(1)));
        assert(slot_failures(st[0]) + (reconcile(st.skip(1)) + slot_failures(x)) =~= (slot_failures(
            st[0],
        ) + reconcile(st.skip(1))) + slot_failures(x));
    }
}

/// Reconciliation completeness: the sweep over a well-formed state emits
/// exactly one finding per one-sided slot — paired slots never reappear —
/// and every finding is a `read-never-written` or `write-never-read` failure.
pub proof fn lemma_reconciliation_complete(st: Seq<SlotView>)
    requires
        wf_state(st),
    ensures
        reconcile(st).len() == count_one_sided(st),
        forall|k: int| 0 <= k < reconcile(st).len() ==> (#[trigger] reconcile(st)[k]) is Some && (
        reconcile(st)[k].unwrap().code == "read-never-written"@ || reconcile(st)[k].unwrap().code
            == "write-never-read"@),
    decreases st.len(),
{
    if st.len() > 0 {
        assert(wf_state(st.skip(1))) by {
            assert(forall|i: int| 0 <= i < st.skip(1).len() ==> st.skip(1)[i] == st[i + 1]);
        }
        lemma_reconciliation_complete(st.skip(1));
        assert(count_one_sided(st) == (if one_sided(st[0]) {
            1int
        } else {
            0int
        }) + count_one_sided(st.skip(1)));
    }
}

/// Whether exactly one side of the slot is recorded.
pub open spec fn one_sided(s: SlotView) -> bool {
    (s.read is Some && s.write is None) || (s.read is None && s.write is Some)
}

/// The number of one-sided slots in a state.
pub open spec fn count_one_sided(st: Seq<SlotView>) -> int
    decreases st.len(),
{
    if st.len() == 0 {
        0
    } else {
        (if one_sided(st[0]) {
            1int
        } else {
            0int
        }) + count_one_sided(st.skip(1))
    }
}

/// A found index is in bounds and its slot matches.
proof fn lemma_find_slot_idx_bounds(st: Seq<SlotView>, t: Seq<char>, p: u64, o: u64)
    ensures
        match find_slot_idx(st, t, p, o) {
            Some(i) => 0 <= i < st.len() && slot_matches(st[i], t, p, o),
            None => true,
        },
    decreases st.len(),
{
    if st.len() > 0 && !slot_matches(st[0], t, p, o) {
        lemma_find_slot_idx_bounds(st.skip(1), t, p, o);
        if find_slot_idx(st.skip(1), t, p, o) is Some {
            let j = find_slot_idx(st.skip(1), t, p, o).unwrap();
            assert(st.skip(1)[j] == st[j + 1]);
        }
    }
}

/// A match at `i` after `i` non-matching slots is the first match.
proof fn lemma_find_slot_at(st: Seq<SlotView>, t: Seq<char>, p: u64, o: u64, i: int)
    requires
        0 <= i < st.len(),
        forall|j: int| 0 <= j < i ==> !slot_matches(st[j], t, p, o),
        slot_matches(st[i], t, p, o),
    ensures
        find_slot_idx(st, t, p, o) == Some(i),
    decreases i,
{
    if i > 0 {
        assert forall|j: int| 0 <= j < i - 1 implies !slot_matches(
            #[trigger] st.skip(1)[j],
            t,
            p,
            o,
        ) by {
            assert(st.skip(1)[j] == st[j + 1]);
        }
        assert(st.skip(1)[i - 1] == st[i]);
        lemma_find_slot_at(st.skip(1), t, p, o, i - 1);
    }
}

/// With no matching slot at all, the lookup is empty.
proof fn lemma_find_slot_none(st: Seq<SlotView>, t: Seq<char>, p: u64, o: u64)
    requires
        forall|j: int| 0 <= j < st.len() ==> !slot_matches(st[j], t, p, o),
    ensures
        find_slot_idx(st, t, p, o) is None,
    decreases st.len(),
{
    if st.len() > 0 {
        assert forall|j: int| 0 <= j < st.skip(1).len() implies !slot_matches(
            #[trigger] st.skip(1)[j],
            t,
            p,
            o,
        ) by {
            assert(st.skip(1)[j] == st[j + 1]);
        }
        lemma_find_slot_none(st.skip(1), t, p, o);
    }
}

/// An empty lookup means no slot matches at all.
proof fn lemma_find_slot_none_converse(st: Seq<SlotView>, t: Seq<char>, p: u64, o: u64)
    requires
        find_slot_idx(st, t, p, o) is None,
    ensures
        forall|j: int| 0 <= j < st.len() ==> !slot_matches(#[trigger] st[j], t, p, o),
    decreases st.len(),
{
    if st.len() > 0 {
        lemma_find_slot_none_converse(st.skip(1), t, p, o);
        assert forall|j: int| 0 <= j < st.len() implies !slot_matches(
            #[trigger] st[j],
            t,
            p,
            o,
        ) by {
            if j > 0 {
                assert(st.skip(1)[j - 1] == st[j]);
            }
        }
    }
}

/// Scans for the sorted insertion position of a new key.
fn find_insert_pos(v: &Vec<SlotEntry>, topic: &String, partition: u64, offset: u64) -> (pos: usize)
    ensures
        pos <= v@.len(),
        pos as int == insert_pos(slot_views(v@), topic@, partition, offset),
{
    let ghost st = slot_views(v@);
    let n = v.len();
    let mut i: usize = 0;
    while i < n
        invariant
            i <= n,
            n == v@.len(),
            st == slot_views(v@),
            forall|j: int| 0 <= j < i ==> !key_lt(topic@, partition, offset, #[trigger] st[j]),
        decreases n - i,
    {
        let e = &v[i];
        let c = chars_cmp(topic.as_str(), e.topic.as_str());
        proof {
            lemma_chars_lt_irrefl(topic@);
            if c == 1 {
                lemma_chars_lt_asym(e.topic@, topic@);
            }
        }
        let less = c == -1 || (c == 0 && (partition < e.partition || (partition == e.partition
            && offset < e.offset)));
        proof {
            if c == 1 && topic@ == st[i as int].topic {
                assert(chars_lt(topic@, topic@));
            }
            assert(less == key_lt(topic@, partition, offset, st[i as int]));
        }
        if less {
            proof {
                lemma_insert_pos_skip(st, topic@, partition, offset, i as int);
                assert(st.skip(i as int)[0] == st[i as int]);
            }
            return i;
        }
        i = i + 1;
    }
    proof {
        lemma_insert_pos_skip(st, topic@, partition, offset, n as int);
        assert(st.skip(n as int) =~= Seq::<SlotView>::empty());
    }
    n
}

/// Whether `a`'s key sorts strictly before `b`'s.
fn slot_key_less(a: &SlotEntry, b: &SlotEntry) -> (r: bool)
    ensures
        r == slot_key_lt(a@, b@),
{
    let c = chars_cmp(a.topic.as_str(), b.topic.as_str());
    proof {
        lemma_chars_lt_irrefl(a.topic@);
        if c == 1 {
            lemma_chars_lt_asym(b.topic@, a.topic@);
            if a.topic@ == b.topic@ {
                assert(chars_lt(a.topic@, a.topic@));
            }
        }
    }
    c == -1 || (c == 0 && (a.partition < b.partition || (a.partition == b.partition && a.offset
        < b.offset)))
}

/// Scans for the slot recorded for (`topic`, `partition`, `offset`).
fn find_slot_index(v: &Vec<SlotEntry>, topic: &String, partition: u64, offset: u64) -> (r: Option<
    usize,
>)
    ensures
        match r {
            Some(i) => i < v@.len() && find_slot_idx(slot_views(v@), topic@, partition, offset)
                == Some(i as int) && slot_matches(v@[i as int]@, topic@, partition, offset),
            None => find_slot_idx(slot_views(v@), topic@, partition, offset) is None,
        },
{
    let ghost st = slot_views(v@);
    let n = v.len();
    let mut i: usize = 0;
    while i < n
        invariant
            i <= n,
            n == v@.len(),
            st == slot_views(v@),
            forall|j: int| 0 <= j < i ==> !slot_matches(st[j], topic@, partition, offset),
        decreases n - i,
    {
        let e = &v[i];
        if e.topic.eq(topic) && e.partition == partition && e.offset == offset {
            proof {
                lemma_find_slot_at(st, topic@, partition, offset, i as int);
            }
            return Some(i);
        }
        i = i + 1;
    }
    proof {
        lemma_find_slot_none(st, topic@, partition, offset);
    }
    None
}

/// Encoding of one optional hash location: `n` for absent, `s` and the two
/// numbers for present.
pub open spec fn enc_opt_hash(o: Option<HashLoc>) -> Seq<char> {
    match o {
        None => seq!['n'],
        Some(hl) => seq!['s'] + enc_u64(hl.hash) + enc_u64(hl.line),
    }
}

/// Parses one optional hash location from the front of `s`.
pub open spec fn parse_opt_hash(s: Seq<char>) -> Option<(Option<HashLoc>, Seq<char>)> {
    if s.len() == 0 {
        None
    } else if s[0] == 'n' {
        Some((None, s.skip(1)))
    } else if s[0] == 's' {
        match parse_u64(s.skip(1)) {
            None => None,
            Some((hash, r1)) => match parse_u64(r1) {
                None => None,
                Some((line, r2)) => Some((Some(HashLoc { hash, line }), r2)),
            },
        }
    } else {
        None
    }
}

/// The optional-hash parser inverts its encoder.
proof fn lemma_parse_enc_opt_hash(o: Option<HashLoc>, rest: Seq<char>)
    ensures
        parse_opt_hash(enc_opt_hash(o) + rest) == Some((o, rest)),
{
    let s = enc_opt_hash(o) + rest;
    match o {
        None => {
            assert(s[0] == 'n');
            assert(s.skip(1) =~= rest);
        },
        Some(hl) => {
            assert(s[0] == 's');
            assert(s.skip(1) =~= enc_u64(hl.hash) + (enc_u64(hl.line) + rest));
            lemma_parse_enc_u64(hl.hash, enc_u64(hl.line) + rest);
            lemma_parse_enc_u64(hl.line, rest);
        },
    }
}

/// Encoding of one slot in a checkpoint blob.
pub open spec fn enc_slot(e: SlotView) -> Seq<char> {
    enc_str(e.topic) + enc_u64(e.partition) + enc_u64(e.offset) + enc_opt_hash(e.read)
        + enc_opt_hash(e.write)
}

/// Encoding of a sequence of slots, in order.
pub open spec fn enc_slots(st: Seq<SlotView>) -> Seq<char>
    decreases st.len(),
{
    if st.len() == 0 {
        Seq::empty()
    } else {
        enc_slots(st.drop_last()) + enc_slot(st.last())
    }
}

/// Parses one slot from the front of `s`; a slot with neither side recorded
/// is structurally invalid and rejected.
pub open spec fn parse_slot(s: Seq<char>) -> Option<(SlotView, Seq<char>)> {
    match parse_str(s) {
        None => None,
        Some((topic, r1)) => match parse_u64(r1) {
            None => None,
            Some((partition, r2)) => match parse_u64(r2) {
                None => None,
                Some((offset, r3)) => match parse_opt_hash(r3) {
                    None => None,
                    Some((read, r4)) => match parse_opt_hash(r4) {
                        None => None,
                        Some((write, r5)) => if read is Some || write is Some {
                            Some((SlotView { topic, partition, offset, read, write }, r5))
                        } else {
                            None
                        },
                    },
                },
            },
        },
    }
}

/// Parses exactly `n` slots from the front of `s`.
pub open spec fn parse_slots(n: nat, s: Seq<char>) -> Option<(Seq<SlotView>, Seq<char>)>
    decreases n,
{
    if n == 0 {
        Some((Seq::empty(), s))
    } else {
        match parse_slot(s) {
            None => None,
            Some((e, r)) => match parse_slots((n - 1) as nat, r) {
                None => None,
                Some((tail, r2)) => Some((seq![e] + tail, r2)),
            },
        }
    }
}

/// Whether a slot's topic fits the length prefix of the wire format.
pub open spec fn slot_bounded(e: SlotView) -> bool {
    e.topic.len() <= u64::MAX
}

/// The slot parser inverts the slot encoder.
#[verifier::rlimit(100)]
proof fn lemma_parse_enc_slot(e: SlotView, rest: Seq<char>)
    requires
        slot_bounded(e),
        wf_slot(e),
    ensures
        parse_slot(enc_slot(e) + rest) == Some((e, rest)),
{
    let t = enc_str(e.topic);
    let p = enc_u64(e.partition);
    let o = enc_u64(e.offset);
    let rd = enc_opt_hash(e.read);
    let w = enc_opt_hash(e.write);
    let r4 = w + rest;
    let r3 = rd + r4;
    let r2 = o + r3;
    let r1 = p + r2;
    crate::codec::lemma_concat_assoc(t + p + o + rd, w, rest);
    crate::codec::lemma_concat_assoc(t + p + o, rd, r4);
    crate::codec::lemma_concat_assoc(t + p, o, r3);
    crate::codec::lemma_concat_assoc(t, p, r2);
    assert(enc_slot(e) + rest == t + r1);
    lemma_parse_enc_str(e.topic, r1);
    lemma_parse_enc_u64(e.partition, r2);
    lemma_parse_enc_u64(e.offset, r3);
    lemma_parse_enc_opt_hash(e.read, r4);
    lemma_parse_enc_opt_hash(e.write, rest);
}

/// A non-empty encoding splits at the front as well.
proof fn lemma_enc_slots_front(st: Seq<SlotView>)
    requires
        st.len() > 0,
    ensures
        enc_slots(st) == enc_slot(st[0]) + enc_slots(st.skip(1)),
    decreases st.len(),
{
    if st.len() == 1 {
        assert(st.drop_last() =~= Seq::<SlotView>::empty());
        assert(st.skip(1) =~= Seq::<SlotView>::empty());
        assert(enc_slots(st) =~= enc_slot(st[0]) + enc_slots(st.skip(1)));
    } else {
        let dl = st.drop_last();
        lemma_enc_slots_front(dl);
        assert(dl[0] == st[0]);
        assert(st.skip(1).drop_last() =~= dl.skip(1));
        assert(st.skip(1).last() == st.last());
        assert(enc_slots(st) =~= enc_slot(st[0]) + enc_slots(st.skip(1)));
    }
}

/// The slot-list parser inverts the slot-list encoder.
#[verifier::rlimit(100)]
proof fn lemma_parse_enc_slots(st: Seq<SlotView>, rest: Seq<char>)
    requires
        forall|i: int| 0 <= i < st.len() ==> slot_bounded(#[trigger] st[i]),
        wf_state(st),
    ensures
        parse_slots(st.len() as nat, enc_slots(st) + rest) == Some((st, rest)),
    decreases st.len(),
{
    if st.len() == 0 {
        assert(enc_slots(st) + rest =~= rest);
        assert(Seq::<SlotView>::empty() =~= st);
    } else {
        lemma_enc_slots_front(st);
        assert(enc_slots(st) + rest =~= enc_slot(st[0]) + (enc_slots(st.skip(1)) + rest));
        lemma_parse_enc_slot(st[0], enc_slots(st.skip(1)) + rest);
        assert forall|j: int| 0 <= j < st.skip(1).len() implies slot_bounded(
            #[trigger] st.skip(1)[j],
        ) && wf_slot(st.skip(1)[j]) by {
            assert(st.skip(1)[j] == st[j + 1]);
        }
        lemma_parse_enc_slots(st.skip(1), rest);
        assert(seq![st[0]] + st.skip(1) =~= st);
    }
}

/// The full checkpoint blob: the validator's name, the slot count, then the
/// slots in order.
pub open spec fn enc_integrity_state(st: Seq<SlotView>) -> Seq<char> {
    enc_str("message-integrity"@) + enc_u64(st.len() as u64) + enc_slots(st)
}

/// Parses a full checkpoint blob; `None` on any malformed, truncated or
/// trailing-garbage input, on a blob of a different validator type, and on
/// one whose slots are not in key order — `save_state` always writes them
/// sorted, so such a blob is structurally incompatible.
pub open spec fn parse_integrity_state(s: Seq<char>) -> Option<Seq<SlotView>> {
    match parse_str(s) {
        None => None,
        Some((name, r1)) => if name != "message-integrity"@ {
            None
        } else {
            match parse_u64(r1) {
                None => None,
                Some((n, r2)) => match parse_slots(n as nat, r2) {
                    None => None,
                    Some((st, r3)) => if r3.len() == 0 && adj_sorted(st) {
                        Some(st)
                    } else {
                        None
                    },
                },
            }
        },
    }
}

/// Round-trip checkpoint law: parsing a saved integrity state yields exactly
/// that state, so replaying the remaining events after a restore produces
/// the same outcomes as an uninterrupted run. Every reachable state is
/// sorted and well-formed (see the step-preservation lemmas), so the
/// hypotheses hold of every state `save_state` can see.
pub proof fn lemma_integrity_round_trip(st: Seq<SlotView>)
    requires
        st.len() <= u64::MAX,
        forall|i: int| 0 <= i < st.len() ==> slot_bounded(#[trigger] st[i]),
        wf_state(st),
        sorted_slots(st),
    ensures
        parse_integrity_state(enc_integrity_state(st)) == Some(st),
{
    let name = "message-integrity"@;
    reveal_strlit("message-integrity");
    let r1 = enc_u64(st.len() as u64) + enc_slots(st);
    assert(enc_integrity_state(st) =~= enc_str(name) + r1);
    lemma_parse_enc_str(name, r1);
    assert(enc_slots(st) + Seq::<char>::empty() =~= enc_slots(st));
    lemma_parse_enc_u64(st.len() as u64, enc_slots(st));
    lemma_parse_enc_slots(st, Seq::<char>::empty());
    assert(parse_slots(st.len() as nat, enc_slots(st) + Seq::<char>::empty()) == Some(
        (st, Seq::<char>::empty()),
    ));
    assert forall|i: int| 0 <= i < st.len() - 1 implies slot_key_lt(
        #[trigger] st[i],
        st[i + 1],
    ) by {
        assert(slot_key_lt(st[i], st[i + 1]));
    }
    assert(adj_sorted(st));
}

/// Verifies end-to-end message integrity across reads, writes and the
/// end-of-stream reconciliation. State: per (topic, partition, offset), the
/// observed read and write content hashes.
pub struct MessageIntegrityValidator {
    messages: Vec<SlotEntry>,
}

impl View for MessageIntegrityValidator {
    type V = Seq<SlotView>;

    closed spec fn view(&self) -> Seq<SlotView> {
        slot_views(self.messages@)
    }
}

impl Default for MessageIntegrityValidator {
    /// A fresh validator has no recorded slots.
    fn default() -> (r: Self)
        ensures
            r@ == Seq::<SlotView>::empty(),
    {
        let r = MessageIntegrityValidator { messages: Vec::new() };
        proof {
            assert(r@ =~= Seq::<SlotView>::empty());
        }
        r
    }
}

impl TestValidator for MessageIntegrityValidator {
    fn validator_name(&self) -> (r: &'static str)
        ensures
            r@ == "message-integrity"@,
    {
        "message-integrity"
    }

    #[verifier::rlimit(100)]
    fn validate_event(&mut self, log: &TestLogLine) -> (r: Vec<Result<(), ValidationFailure>>)
        ensures
            final(self)@ == integrity_step(old(self)@, log@).0,
            outcomes_view(r@) == integrity_step(old(self)@, log@).1,
    {
        let mut results: Vec<Result<(), ValidationFailure>> = Vec::new();
        match &log.data.fields {
            TestEvent::MessageReadSucceeded(event) => {
                let h = compute_data_hash(&event.message.data);
                let topic = &event.message.metadata.topic_name;
                let partition = event.message.metadata.topic_partition;
                let offset = event.message.metadata.topic_partition_offset;
                match find_slot_index(&self.messages, topic, partition, offset) {
                    None => {
                        let entry = SlotEntry {
                            topic: topic.clone(),
                            partition,
                            offset,
                            read: Some(HashLoc { hash: h, line: log.line }),
                            write: None,
                        };
                        let pos = find_insert_pos(&self.messages, topic, partition, offset);
                        let ghost old_vec = self.messages@;
                        let ghost entry_snap = entry@;
                        self.messages.insert(pos, entry);
                        proof {
                            assert(slot_views(old_vec.insert(pos as int, entry)) =~= slot_views(
                                old_vec,
                            ).insert(pos as int, entry_snap));
                            assert(final(self)@ =~= integrity_step(old(self)@, log@).0);
                        }
                    },
                    Some(i) => {
                        let slot_read = self.messages[i].read;
                        let slot_write = self.messages[i].write;
                        match slot_read {
                            Some(prior) => {
                                if prior.hash != h {
                                    let mut msg = String::new();
                                    msg.append("message data differs from previous read at line ");
                                    let l_str = u64_to_string(prior.line);
                                    msg.append(l_str.as_str());
                                    let failure = ValidationFailure {
                                        line: log.line,
                                        code: String::from_str("different-reads"),
                                        error: msg,
                                    };
                                    proof {
                                        assert(failure@ =~= different_reads_failure(
                                            log.line,
                                            prior,
                                        ));
                                    }
                                    results.push(Err(failure));
                                    proof {
                                        assert(outcomes_view(results@) =~= integrity_step(
                                            old(self)@,
                                            log@,
                                        ).1);
                                    }
                                    return results;
                                }
                                if let Some(w) = slot_write {
                                    if w.hash != h {
                                        let mut msg = String::new();
                                        msg.append(
                                            "message data differs from previous write by the producer at line ",
                                        );
                                        let l_str = u64_to_string(w.line);
                                        msg.append(l_str.as_str());
                                        let failure = ValidationFailure {
                                            line: log.line,
                                            code: String::from_str("write-read-different"),
                                            error: msg,
                                        };
                                        proof {
                                            assert(failure@ =~= write_read_different_failure(
                                                log.line,
                                                w,
                                            ));
                                        }
                                        results.push(Err(failure));
                                        proof {
                                            assert(outcomes_view(results@) =~= integrity_step(
                                                old(self)@,
                                                log@,
                                            ).1);
                                        }
                                        return results;
                                    }
                                }
                            },
                            None => {
                                let ghost old_vec = self.messages@;
                                let mut e = self.messages.remove(i);
                                e.read = Some(HashLoc { hash: h, line: log.line });
                                let ghost e_snap = e;
                                self.messages.insert(i, e);
                                proof {
                                    let st = slot_views(old_vec);
                                    let s2 = integrity_step(old(self)@, log@).0[i as int];
                                    assert(self.messages@ =~= old_vec.update(i as int, e_snap));
                                    assert(e_snap@ =~= s2);
                                    assert(slot_views(old_vec.update(i as int, e_snap))
                                        =~= st.update(i as int, s2));
                                    assert(slot_views(self.messages@) =~= integrity_step(
                                        old(self)@,
                                        log@,
                                    ).0);
                                }
                                if let Some(w) = slot_write {
                                    if w.hash != h {
                                        let mut msg = String::new();
                                        msg.append(
                                            "message data differs from previous write by the producer at line ",
                                        );
                                        let l_str = u64_to_string(w.line);
                                        msg.append(l_str.as_str());
                                        let failure = ValidationFailure {
                                            line: log.line,
                                            code: String::from_str("write-read-different"),
                                            error: msg,
                                        };
                                        proof {
                                            assert(failure@ =~= write_read_different_failure(
                                                log.line,
                                                w,
                                            ));
                                        }
                                        results.push(Err(failure));
                                        proof {
                                            assert(outcomes_view(results@) =~= integrity_step(
                                                old(self)@,
                                                log@,
                                            ).1);
                                        }
                                        return results;
                                    }
                                }
                            },
                        }
                    },
                }
            },
            TestEvent::MessageWriteSucceeded(event) => {
                let h = compute_data_hash(&event.message.data);
                let topic = &event.message.metadata.topic_name;
                let partition = event.message.metadata.topic_partition;
                let offset = event.message.metadata.topic_partition_offset;
                match find_slot_index(&self.messages, topic, partition, offset) {
                    None => {
                        let entry = SlotEntry {
                            topic: topic.clone(),
                            partition,
                            offset,
                            read: None,
                            write: Some(HashLoc { hash: h, line: log.line }),
                        };
                        let pos = find_insert_pos(&self.messages, topic, partition, offset);
                        let ghost old_vec = self.messages@;
                        let ghost entry_snap = entry@;
                        self.messages.insert(pos, entry);
                        proof {
                            assert(slot_views(old_vec.insert(pos as int, entry)) =~= slot_views(
                                old_vec,
                            ).insert(pos as int, entry_snap));
                            assert(final(self)@ =~= integrity_step(old(self)@, log@).0);
                        }
                    },
                    Some(i) => {
                        let slot_read = self.messages[i].read;
                        let slot_write = self.messages[i].write;
                        match slot_write {
                            Some(prior) => {
                                if prior.hash != h {
                                    let mut msg = String::new();
                                    msg.append("message data differs from previous write at line ");
                                    let l_str = u64_to_string(prior.line);
                                    msg.append(l_str.as_str());
                                    let failure = ValidationFailure {
                                        line: log.line,
                                        code: String::from_str("different-writes"),
                                        error: msg,
                                    };
                                    proof {
                                        assert(failure@ =~= different_writes_failure(
                                            log.line,
                                            prior,
                                        ));
                                    }
                                    results.push(Err(failure));
                                    proof {
                                        assert(outcomes_view(results@) =~= integrity_step(
                                            old(self)@,
                                            log@,
                                        ).1);
                                    }
                                    return results;
                                }
                                if let Some(rd) = slot_read {
                                    if rd.hash != h {
                                        let mut msg = String::new();
                                        msg.append(
                                            "message data differs from previous read by the consumer at line ",
                                        );
                                        let l_str = u64_to_string(rd.line);
                                        msg.append(l_str.as_str());
                                        let failure = ValidationFailure {
                                            line: log.line,
                                            code: String::from_str("read-write-different"),
                                            error: msg,
                                        };
                                        proof {
                                            assert(failure@ =~= read_write_different_failure(
                                                log.line,
                                                rd,
                                            ));
                                        }
                                        results.push(Err(failure));
                                        proof {
                                            assert(outcomes_view(results@) =~= integrity_step(
                                                old(self)@,
                                                log@,
                                            ).1);
                                        }
                                        return results;
                                    }
                                }
                            },
                            None => {
                                let ghost old_vec = self.messages@;
                                let mut e = self.messages.remove(i);
                                e.write = Some(HashLoc { hash: h, line: log.line });
                                let ghost e_snap = e;
                                self.messages.insert(i, e);
                                proof {
                                    let st = slot_views(old_vec);
                                    let s2 = integrity_step(old(self)@, log@).0[i as int];
                                    assert(self.messages@ =~= old_vec.update(i as int, e_snap));
                                    assert(e_snap@ =~= s2);
                                    assert(slot_views(old_vec.update(i as int, e_snap))
                                        =~= st.update(i as int, s2));
                                    assert(slot_views(self.messages@) =~= integrity_step(
                                        old(self)@,
                                        log@,
                                    ).0);
                                }
                                if let Some(rd) = slot_read {
                                    if rd.hash != h {
                                        let mut msg = String::new();
                                        msg.append(
                                            "message data differs from previous read by the consumer at line ",
                                        );
                                        let l_str = u64_to_string(rd.line);
                                        msg.append(l_str.as_str());
                                        let failure = ValidationFailure {
                                            line: log.line,
                                            code: String::from_str("read-write-different"),
                                            error: msg,
                                        };
                                        proof {
                                            assert(failure@ =~= read_write_different_failure(
                                                log.line,
                                                rd,
                                            ));
                                        }
                                        results.push(Err(failure));
                                        proof {
                                            assert(outcomes_view(results@) =~= integrity_step(
                                                old(self)@,
                                                log@,
                                            ).1);
                                        }
                                        return results;
                                    }
                                }
                            },
                        }
                    },
                }
            },
            TestEvent::WorkloadEnded => {
                return self.reconcile_all(Ghost(log@));
            },
            _ => {},
        }
        results.push(Ok(()));
        proof {
            assert(outcomes_view(results@) =~= integrity_step(old(self)@, log@).1);
        }
        results
    }

    #[verifier::loop_isolation(false)]
    fn load_state(&mut self, data: &str) -> (r: Result<(), DeserializationError>)
        ensures
            r is Ok <==> parse_integrity_state(data@) is Some,
            r is Ok ==> final(self)@ == parse_integrity_state(data@).unwrap(),
            r is Err ==> final(self)@ == old(self)@,
    {
        let v = str_to_chars(data);
        proof {
            assert(v@.skip(0) =~= data@);
        }
        let (name, p0) = match parse_str_chars(&v, 0) {
            None => {
                return Err(DeserializationError {  });
            },
            Some(x) => x,
        };
        let expected = String::from_str("message-integrity");
        if !name.eq(&expected) {
            return Err(DeserializationError {  });
        }
        let (count, p1) = match parse_u64_chars(&v, p0) {
            None => {
                return Err(DeserializationError {  });
            },
            Some(x) => x,
        };
        let ghost tail1 = v@.skip(p1 as int);
        let mut entries: Vec<SlotEntry> = Vec::new();
        let mut pos = p1;
        let mut i: u64 = 0;
        while i < count
            invariant
                i <= count,
                pos <= v@.len(),
                parse_slots(count as nat, tail1) == match parse_slots(
                    (count - i) as nat,
                    v@.skip(pos as int),
                ) {
                    None => None::<(Seq<SlotView>, Seq<char>)>,
                    Some((tail, r)) => Some((slot_views(entries@) + tail, r)),
                },
            decreases count - i,
        {
            match parse_slot_chars(&v, pos) {
                None => {
                    proof {
                        assert((count - i) as nat != 0);
                        assert(parse_slots((count - i) as nat, v@.skip(pos as int)) is None);
                    }
                    return Err(DeserializationError {  });
                },
                Some((e, p2)) => {
                    let ghost old_entries = entries@;
                    entries.push(e);
                    pos = p2;
                    i = i + 1;
                    proof {
                        assert(slot_views(old_entries.push(e)) =~= slot_views(old_entries)
                            + seq![e@]);
                        assert forall|tail: Seq<SlotView>|
                            true implies (slot_views(old_entries) + (seq![e@] + tail)) =~= (
                        slot_views(old_entries.push(e)) + tail) by {
                            assert(slot_views(old_entries.push(e)) =~= slot_views(old_entries)
                                + seq![e@]);
                        }
                    }
                },
            }
        }
        proof {
            assert(parse_slots(0, v@.skip(pos as int)) == Some(
                (Seq::<SlotView>::empty(), v@.skip(pos as int)),
            ));
            assert(slot_views(entries@) + Seq::<SlotView>::empty() =~= slot_views(entries@));
        }
        if pos != v.len() {
            proof {
                assert(v@.skip(pos as int).len() > 0);
            }
            return Err(DeserializationError {  });
        }
        proof {
            assert(v@.skip(pos as int).len() == 0);
        }
        let m = entries.len();
        let mut k: usize = 0;
        while m >= 1 && k < m - 1
            invariant
                k <= m,
                m == entries@.len(),
                forall|j: int|
                    0 <= j < k ==> slot_key_lt(
                        #[trigger] slot_views(entries@)[j],
                        slot_views(entries@)[j + 1],
                    ),
            decreases m - k,
        {
            if !slot_key_less(&entries[k], &entries[k + 1]) {
                proof {
                    let st = slot_views(entries@);
                    assert(st[k as int] == entries@[k as int]@);
                    assert(st[k as int + 1] == entries@[k as int + 1]@);
                    assert(!slot_key_lt(st[k as int], st[k as int + 1]));
                    assert(!adj_sorted(st));
                }
                return Err(DeserializationError {  });
            }
            k = k + 1;
        }
        proof {
            assert(adj_sorted(slot_views(entries@)));
        }
        self.messages = entries;
        Ok(())
    }

    #[verifier::rlimit(100)]
    fn save_state(&self) -> (r: String)
        ensures
            r@ == enc_integrity_state(self@),
    {
        proof {
            reveal_strlit("n");
            reveal_strlit("s");
        }
        let mut out = String::new();
        append_enc_str(&mut out, "message-integrity");
        append_enc_u64(&mut out, self.messages.len() as u64);
        let ghost prefix = out@;
        let n = self.messages.len();
        let mut i: usize = 0;
        while i < n
            invariant
                i <= n,
                n == self.messages@.len(),
                out@ == prefix + enc_slots(slot_views(self.messages@).take(i as int)),
            decreases n - i,
        {
            let e = &self.messages[i];
            append_enc_str(&mut out, e.topic.as_str());
            append_enc_u64(&mut out, e.partition);
            append_enc_u64(&mut out, e.offset);
            append_opt_hash(&mut out, &e.read);
            append_opt_hash(&mut out, &e.write);
            i = i + 1;
            proof {
                let st = slot_views(self.messages@);
                assert(st.take(i as int).drop_last() =~= st.take(i as int - 1));
                assert(st.take(i as int).last() == st[i as int - 1]);
                assert(out@ =~= prefix + enc_slots(st.take(i as int)));
            }
        }
        proof {
            let st = slot_views(self.messages@);
            assert(st.take(n as int) =~= st);
            assert(Seq::<char>::empty() + enc_str("message-integrity"@) =~= enc_str(
                "message-integrity"@,
            ));
            assert(out@ =~= enc_integrity_state(self@));
        }
        out
    }
}

impl MessageIntegrityValidator {
    /// The end-of-stream sweep: walks every slot in stored order and reports
    /// the one-sided ones at their captured lines.
    #[verifier::rlimit(100)]
    fn reconcile_all(&mut self, Ghost(l): Ghost<LineView>) -> (r: Vec<
        Result<(), ValidationFailure>,
    >)
        requires
            l.event is Ended,
        ensures
            final(self)@ == integrity_step(old(self)@, l).0,
            outcomes_view(r@) == integrity_step(old(self)@, l).1,
    {
        let ghost st = slot_views(self.messages@);
        let mut results: Vec<Result<(), ValidationFailure>> = Vec::new();
        let n = self.messages.len();
        let mut i: usize = 0;
        while i < n
            invariant
                i <= n,
                n == self.messages@.len(),
                st == slot_views(self.messages@),
                outcomes_view(results@) == reconcile(st.take(i as int)),
            decreases n - i,
        {
            let e = &self.messages[i];
            let ghost s = st[i as int];
            let ghost before = results@;
            match (&e.read, &e.write) {
                (Some(_), Some(_)) => {},
                (Some(rd), None) => {
                    let mut msg = String::new();
                    msg.append("topic = '");
                    msg.append(e.topic.as_str());
                    msg.append("', partition = ");
                    let p_str = u64_to_string(e.partition);
                    msg.append(p_str.as_str());
                    msg.append(", offset = ");
                    let o_str = u64_to_string(e.offset);
                    msg.append(o_str.as_str());
                    msg.append(": message read at line ");
                    let l_str = u64_to_string(rd.line);
                    msg.append(l_str.as_str());
                    msg.append(" was never written");
                    let failure = ValidationFailure {
                        line: rd.line,
                        code: String::from_str("read-never-written"),
                        error: msg,
                    };
                    proof {
                        assert(failure@ =~= read_never_written_failure(s, s.read.unwrap()));
                    }
                    results.push(Err(failure));
                },
                (None, Some(w)) => {
                    let mut msg = String::new();
                    msg.append("topic = '");
                    msg.append(e.topic.as_str());
                    msg.append("', partition = ");
                    let p_str = u64_to_string(e.partition);
                    msg.append(p_str.as_str());
                    msg.append(", offset = ");
                    let o_str = u64_to_string(e.offset);
                    msg.append(o_str.as_str());
                    msg.append(": message write at line ");
                    let l_str = u64_to_string(w.line);
                    msg.append(l_str.as_str());
                    msg.append(" was never read by any consumer, it may be lost");
                    let failure = ValidationFailure {
                        line: w.line,
                        code: String::from_str("write-never-read"),
                        error: msg,
                    };
                    proof {
                        assert(failure@ =~= write_never_read_failure(s, s.write.unwrap()));
                    }
                    results.push(Err(failure));
                },
                (None, None) => {},
            }
            i = i + 1;
            proof {
                lemma_reconcile_push(st.take(i as int - 1), s);
                assert(st.take(i as int - 1).push(s) =~= st.take(i as int));
                assert(outcomes_view(results@) =~= reconcile(st.take(i as int)));
            }
        }
        proof {
            assert(st.take(n as int) =~= st);
            assert(outcomes_view(results@) =~= integrity_step(old(self)@, l).1);
        }
        results
    }
}

/// Appends the encoding of one optional hash location to `out`.
fn append_opt_hash(out: &mut String, o: &Option<HashLoc>)
    ensures
        final(out)@ == old(out)@ + enc_opt_hash(*o),
{
    proof {
        reveal_strlit("n");
        reveal_strlit("s");
    }
    match o {
        None => {
            out.append("n");
            proof {
                assert("n"@ =~= seq!['n']);
            }
        },
        Some(hl) => {
            out.append("s");
            append_enc_u64(out, hl.hash);
            append_enc_u64(out, hl.line);
            proof {
                assert("s"@ =~= seq!['s']);
                assert(old(out)@ + seq!['s'] + enc_u64(hl.hash) + enc_u64(hl.line) =~= old(out)@
                    + enc_opt_hash(*o));
            }
        },
    }
}

/// Parses one optional hash location from position `pos` of `v`.
fn parse_opt_hash_chars(v: &Vec<char>, pos: usize) -> (r: Option<(Option<HashLoc>, usize)>)
    requires
        pos <= v@.len(),
    ensures
        match r {
            Some(p) => pos <= p.1 && p.1 <= v@.len() && parse_opt_hash(v@.skip(pos as int))
                == Some((p.0, v@.skip(p.1 as int))),
            None => parse_opt_hash(v@.skip(pos as int)) is None,
        },
{
    let ghost s = v@.skip(pos as int);
    if pos == v.len() {
        return None;
    }
    let c = v[pos];
    proof {
        assert(s[0] == v@[pos as int]);
    }
    if c == 'n' {
        proof {
            assert(s.skip(1) =~= v@.skip(pos as int + 1));
        }
        Some((None, pos + 1))
    } else if c == 's' {
        proof {
            assert(s.skip(1) =~= v@.skip(pos as int + 1));
        }
        let (hash, p1) = match parse_u64_chars(v, pos + 1) {
            None => {
                return None;
            },
            Some(x) => x,
        };
        let (line, p2) = match parse_u64_chars(v, p1) {
            None => {
                return None;
            },
            Some(x) => x,
        };
        Some((Some(HashLoc { hash, line }), p2))
    } else {
        None
    }
}

/// Parses one slot from position `pos` of `v`.
fn parse_slot_chars(v: &Vec<char>, pos: usize) -> (r: Option<(SlotEntry, usize)>)
    requires
        pos <= v@.len(),
    ensures
        match r {
            Some(p) => pos <= p.1 && p.1 <= v@.len() && parse_slot(v@.skip(pos as int)) == Some(
                (p.0@, v@.skip(p.1 as int)),
            ),
            None => parse_slot(v@.skip(pos as int)) is None,
        },
{
    let (topic, p1) = match parse_str_chars(v, pos) {
        None => {
            return None;
        },
        Some(x) => x,
    };
    let (partition, p2) = match parse_u64_chars(v, p1) {
        None => {
            return None;
        },
        Some(x) => x,
    };
    let (offset, p3) = match parse_u64_chars(v, p2) {
        None => {
            return None;
        },
        Some(x) => x,
    };
    let (read, p4) = match parse_opt_hash_chars(v, p3) {
        None => {
            return None;
        },
        Some(x) => x,
    };
    let (write, p5) = match parse_opt_hash_chars(v, p4) {
        None => {
            return None;
        },
        Some(x) => x,
    };
    if read.is_none() && write.is_none() {
        return None;
    }
    Some((SlotEntry { topic, partition, offset, read, write }, p5))
}

} // verus!
