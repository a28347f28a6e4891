//! Confirms that a producer's writes to a given topic partition never regress
//! to a lower offset. The stored cursor is overwritten on every write, even a
//! violating one, so a single bad offset is reported once rather than
//! flooding every later comparison.

use vstd::prelude::*;
use vstd::string::StrSliceExecFns;
use vstd::string::StringExecFns;

use crate::codec::enc_str;
use crate::codec::enc_u64;
use crate::codec::parse_str;
use crate::codec::parse_u64;
use crate::codec::append_enc_str;
use crate::codec::append_enc_u64;
use crate::codec::lemma_parse_enc_str;
use crate::codec::lemma_parse_enc_u64;
use crate::codec::parse_str_chars;
use crate::codec::parse_u64_chars;
use crate::codec::str_to_chars;
use crate::domain::DeserializationError;
use crate::domain::EventView;
use crate::domain::FailureView;
use crate::domain::LineView;
use crate::domain::TestEvent;
use crate::domain::TestLogLine;
use crate::domain::TestValidator;
use crate::domain::ValidationFailure;
use crate::domain::outcomes_view;
use crate::text::dec;
use crate::text::u64_to_string;

verus! {

/// The most recently observed offset for a (producer, topic, partition)
/// triple, with the log line that recorded it.
pub struct CursorEntry {
    pub producer: String,
    pub topic: String,
    pub partition: u64,
    pub offset: u64,
    pub line: u64,
}

/// Mathematical model of `CursorEntry`.
#[verifier::ext_equal]
pub struct CursorView {
    pub producer: Seq<char>,
    pub topic: Seq<char>,
    pub partition: u64,
    pub offset: u64,
    pub line: u64,
}

impl View for CursorEntry {
    type V = CursorView;

    open spec fn view(&self) -> CursorView {
        CursorView {
            producer: self.producer@,
            topic: self.topic@,
            partition: self.partition,
            offset: self.offset,
            line: self.line,
        }
    }
}

/// The models of a sequence of entries.
pub open spec fn cursor_views(s: Seq<CursorEntry>) -> Seq<CursorView> {
    s.map_values(|e: CursorEntry| e@)
}

/// Whether entry `c` records the triple (`pr`, `t`, `p`).
pub open spec fn cursor_matches(c: CursorView, pr: Seq<char>, t: Seq<char>, p: u64) -> bool {
    c.producer == pr && c.topic == t && c.partition == p
}

/// The index of the first cursor recorded for (`pr`, `t`, `p`), if any.
pub open spec fn find_cursor_idx(st: Seq<CursorView>, pr: Seq<char>, t: Seq<char>, p: u64) -> Option<
    int,
>
    decreases st.len(),
{
    if st.len() == 0 {
        None
    } else if cursor_matches(st[0], pr, t, p) {
        Some(0)
    } else {
        match find_cursor_idx(st.skip(1), pr, t, p) {
            None => None,
            Some(j) => Some(j + 1),
        }
    }
}

/// The failure reported when an offset regresses: it points at the previous
/// offset and the line that recorded it.
pub open spec fn non_monotonic_failure(line: u64, prior: CursorView) -> FailureView {
    FailureView {
        line,
        code: "non-monotonic"@,
        error: "message offset is not greater than the previous offset "@ + dec(prior.offset)
            + " at line "@ + dec(prior.line),
    }
}

/// What one log line does to the ordering state: a write either establishes a
/// cursor, advances it, or reports `non-monotonic`; the cursor is overwritten
/// with the current offset in every case. Every other event is a no-op.
pub open spec fn ordering_step(st: Seq<CursorView>, l: LineView) -> (
    Seq<CursorView>,
    Seq<Option<FailureView>>,
) {
    match l.event {
        EventView::Write { producer, message } => {
            let t = message.metadata.topic_name;
            let p = message.metadata.topic_partition;
            let o = message.metadata.topic_partition_offset;
            let fresh = CursorView { producer, topic: t, partition: p, offset: o, line: l.line };
            match find_cursor_idx(st, producer, t, p) {
                Some(i) => {
                    let prior = st[i];
                    if prior.offset > o {
                        (st.update(i, fresh), seq![Some(non_monotonic_failure(l.line, prior))])
                    } else {
                        (st.update(i, fresh), seq![None])
                    }
                },
                None => (st.push(fresh), seq![None]),
            }
        },
        _ => (st, seq![None]),
    }
}

/// A match at `i` after `i` non-matching entries is the first match.
proof fn lemma_find_cursor_at(st: Seq<CursorView>, pr: Seq<char>, t: Seq<char>, p: u64, i: int)
    requires
        0 <= i < st.len(),
        forall|j: int| 0 <= j < i ==> !cursor_matches(st[j], pr, t, p),
        cursor_matches(st[i], pr, t, p),
    ensures
        find_cursor_idx(st, pr, t, p) == Some(i),
    decreases i,
{
    if i > 0 {
        assert forall|j: int| 0 <= j < i - 1 implies !cursor_matches(
            #[trigger] st.skip(1)[j],
            pr,
            t,
            p,
        ) by {
            assert(st.skip(1)[j] == st[j + 1]);
        }
        assert(st.skip(1)[i - 1] == st[i]);
        lemma_find_cursor_at(st.skip(1), pr, t, p, i - 1);
    }
}

/// With no matching entry at all, the lookup is empty.
proof fn lemma_find_cursor_none(st: Seq<CursorView>, pr: Seq<char>, t: Seq<char>, p: u64)
    requires
        forall|j: int| 0 <= j < st.len() ==> !cursor_matches(st[j], pr, t, p),
    ensures
        find_cursor_idx(st, pr, t, p) is None,
    decreases st.len(),
{
    if st.len() > 0 {
        assert forall|j: int| 0 <= j < st.skip(1).len() implies !cursor_matches(
            #[trigger] st.skip(1)[j],
            pr,
            t,
            p,
        ) by {
            assert(st.skip(1)[j] == st[j + 1]);
        }
        lemma_find_cursor_none(st.skip(1), pr, t, p);
    }
}

/// Scans for the first cursor recorded for (`producer`, `topic`, `partition`).
fn find_cursor_index(v: &Vec<CursorEntry>, producer: &String, topic: &String, partition: u64) -> (r:
    Option<usize>)
    ensures
        match r {
            Some(i) => i < v@.len() && find_cursor_idx(cursor_views(v@), producer@, topic@, partition)
                == Some(i as int) && cursor_matches(v@[i as int]@, producer@, topic@, partition),
            None => find_cursor_idx(cursor_views(v@), producer@, topic@, partition) is None,
        },
{
    let ghost st = cursor_views(v@);
    let n = v.len();
    let mut i: usize = 0;
    while i < n
        invariant
            i <= n,
            n == v@.len(),
            st == cursor_views(v@),
            forall|j: int| 0 <= j < i ==> !cursor_matches(st[j], producer@, topic@, partition),
        decreases n - i,
    {
        let e = &v[i];
        if e.producer.eq(producer) && e.topic.eq(topic) && e.partition == partition {
            proof {
                lemma_find_cursor_at(st, producer@, topic@, partition, i as int);
            }
            return Some(i);
        }
        i = i + 1;
    }
    proof {
        lemma_find_cursor_none(st, producer@, topic@, partition);
    }
    None
}

/// Encoding of one entry in a checkpoint blob.
pub open spec fn enc_cursor(e: CursorView) -> Seq<char> {
    enc_str(e.producer) + enc_str(e.topic) + enc_u64(e.partition) + enc_u64(e.offset) + enc_u64(
        e.line,
    )
}

/// Encoding of a sequence of entries, in order.
pub open spec fn enc_cursors(st: Seq<CursorView>) -> Seq<char>
    decreases st.len(),
{
    if st.len() == 0 {
        Seq::empty()
    } else {
        enc_cursors(st.drop_last()) + enc_cursor(st.last())
    }
}

/// Parses one entry from the front of `s`.
pub open spec fn parse_cursor(s: Seq<char>) -> Option<(CursorView, Seq<char>)> {
    match parse_str(s) {
        None => None,
        Some((producer, r1)) => match parse_str(r1) {
            None => None,
            Some((topic, r2)) => match parse_u64(r2) {
                None => None,
                Some((partition, r3)) => match parse_u64(r3) {
                    None => None,
                    Some((offset, r4)) => match parse_u64(r4) {
                        None => None,
                        Some((line, r5)) => Some(
                            (CursorView { producer, topic, partition, offset, line }, r5),
                        ),
                    },
                },
            },
        },
    }
}

/// Parses exactly `n` entries from the front of `s`.
pub open spec fn parse_cursors(n: nat, s: Seq<char>) -> Option<(Seq<CursorView>, Seq<char>)>
    decreases n,
{
    if n == 0 {
        Some((Seq::empty(), s))
    } else {
        match parse_cursor(s) {
            None => None,
            Some((e, r)) => match parse_cursors((n - 1) as nat, r) {
                None => None,
                Some((tail, r2)) => Some((seq![e] + tail, r2)),
            },
        }
    }
}

/// Whether an entry's strings fit the length prefix of the wire format.
pub open spec fn cursor_bounded(e: CursorView) -> bool {
    e.producer.len() <= u64::MAX && e.topic.len() <= u64::MAX
}

/// The entry parser inverts the entry encoder.
#[verifier::rlimit(100)]
proof fn lemma_parse_enc_cursor(e: CursorView, rest: Seq<char>)
    requires
        cursor_bounded(e),
    ensures
        parse_cursor(enc_cursor(e) + rest) == Some((e, rest)),
{
    let r4 = enc_u64(e.line) + rest;
    let r3 = enc_u64(e.offset) + r4;
    let r2 = enc_u64(e.partition) + r3;
    let r1 = enc_str(e.topic) + r2;
    assert(enc_cursor(e) + rest =~= enc_str(e.producer) + r1);
    lemma_parse_enc_str(e.producer, r1);
    lemma_parse_enc_str(e.topic, r2);
    lemma_parse_enc_u64(e.partition, r3);
    lemma_parse_enc_u64(e.offset, r4);
    lemma_parse_enc_u64(e.line, rest);
}

/// A non-empty encoding splits at the front as well.
proof fn lemma_enc_cursors_front(st: Seq<CursorView>)
    requires
        st.len() > 0,
    ensures
        enc_cursors(st) == enc_cursor(st[0]) + enc_cursors(st.skip(1)),
    decreases st.len(),
{
    if st.len() == 1 {
        assert(st.drop_last() =~= Seq::<CursorView>::empty());
        assert(st.skip(1) =~= Seq::<CursorView>::empty());
        assert(enc_cursors(st) =~= enc_cursor(st[0]) + enc_cursors(st.skip(1)));
    } else {
        let dl = st.drop_last();
        lemma_enc_cursors_front(dl);
        assert(dl[0] == st[0]);
        assert(st.skip(1).drop_last() =~= dl.skip(1));
        assert(st.skip(1).last() == st.last());
        assert(enc_cursors(st) =~= enc_cursor(st[0]) + enc_cursors(st.skip(1)));
    }
}

/// The entry-list parser inverts the entry-list encoder.
#[verifier::rlimit(100)]
proof fn lemma_parse_enc_cursors(st: Seq<CursorView>, rest: Seq<char>)
    requires
        forall|i: int| 0 <= i < st.len() ==> cursor_bounded(#[trigger] st[i]),
    ensures
        parse_cursors(st.len() as nat, enc_cursors(st) + rest) == Some((st, rest)),
    decreases st.len(),
{
    if st.len() == 0 {
        assert(enc_cursors(st) + rest =~= rest);
        assert(Seq::<CursorView>::empty() =~= st);
    } else {
        lemma_enc_cursors_front(st);
        assert(enc_cursors(st) + rest =~= enc_cursor(st[0]) + (enc_cursors(st.skip(1)) + rest));
        lemma_parse_enc_cursor(st[0], enc_cursors(st.skip(1)) + rest);
        assert forall|j: int| 0 <= j < st.skip(1).len() implies cursor_bounded(
            #[trigger] st.skip(1)[j],
        ) by {
            assert(st.skip(1)[j] == st[j + 1]);
        }
        lemma_parse_enc_cursors(st.skip(1), rest);
        assert(seq![st[0]] + st.skip(1) =~= st);
    }
}

/// The full checkpoint blob: the validator's name, the entry count, then the
/// entries in order.
pub open spec fn enc_ordering_state(st: Seq<CursorView>) -> Seq<char> {
    enc_str("producer-message-ordering"@) + enc_u64(st.len() as u64) + enc_cursors(st)
}

/// Parses a full checkpoint blob; `None` on any malformed, truncated or
/// trailing-garbage input, and on a blob of a different validator type.
pub open spec fn parse_ordering_state(s: Seq<char>) -> Option<Seq<CursorView>> {
    match parse_str(s) {
        None => None,
        Some((name, r1)) => if name != "producer-message-ordering"@ {
            None
        } else {
            match parse_u64(r1) {
                None => None,
                Some((n, r2)) => match parse_cursors(n as nat, r2) {
                    None => None,
                    Some((st, r3)) => if r3.len() == 0 {
                        Some(st)
                    } else {
                        None
                    },
                },
            }
        },
    }
}

/// Round-trip checkpoint law: parsing a saved ordering state yields exactly
/// that state, so replaying the remaining events after a restore produces the
/// same outcomes as an uninterrupted run.
pub proof fn lemma_ordering_round_trip(st: Seq<CursorView>)
    requires
        st.len() <= u64::MAX,
        forall|i: int| 0 <= i < st.len() ==> cursor_bounded(#[trigger] st[i]),
    ensures
        parse_ordering_state(enc_ordering_state(st)) == Some(st),
{
    let name = "producer-message-ordering"@;
    reveal_strlit("producer-message-ordering");
    let r1 = enc_u64(st.len() as u64) + enc_cursors(st);
    assert(enc_ordering_state(st) =~= enc_str(name) + r1);
    lemma_parse_enc_str(name, r1);
    assert(enc_cursors(st) + Seq::<char>::empty() =~= enc_cursors(st));
    lemma_parse_enc_u64(st.len() as u64, enc_cursors(st));
    lemma_parse_enc_cursors(st, Seq::<char>::empty());
    assert(parse_cursors(st.len() as nat, enc_cursors(st) + Seq::<char>::empty()) == Some(
        (st, Seq::<char>::empty()),
    ));
}

/// Verifies that a producer's offsets on each topic partition are
/// non-decreasing. State: per (producer, topic, partition), the most recently
/// observed offset.
pub struct ProducerMessageOrderingValidator {
    cursors: Vec<CursorEntry>,
}

impl View for ProducerMessageOrderingValidator {
    type V = Seq<CursorView>;

    closed spec fn view(&self) -> Seq<CursorView> {
        cursor_views(self.cursors@)
    }
}

impl Default for ProducerMessageOrderingValidator {
    /// A fresh validator has no recorded cursors.
    fn default() -> (r: Self)
        ensures
            r@ == Seq::<CursorView>::empty(),
    {
        let r = ProducerMessageOrderingValidator { cursors: Vec::new() };
        proof {
            assert(r@ =~= Seq::<CursorView>::empty());
        }
        r
    }
}

impl TestValidator for ProducerMessageOrderingValidator {
    fn validator_name(&self) -> (r: &'static str)
        ensures
            r@ == "producer-message-ordering"@,
    {
        "producer-message-ordering"
    }

    fn validate_event(&mut self, log: &TestLogLine) -> (r: Vec<Result<(), ValidationFailure>>)
        ensures
            final(self)@ == ordering_step(old(self)@, log@).0,
            outcomes_view(r@) == ordering_step(old(self)@, log@).1,
    {
        let mut results: Vec<Result<(), ValidationFailure>> = Vec::new();
        match &log.data.fields {
            TestEvent::MessageWriteSucceeded(event) => {
                let producer = &event.producer.id;
                let topic = &event.message.metadata.topic_name;
                let partition = event.message.metadata.topic_partition;
                let offset = event.message.metadata.topic_partition_offset;
                match find_cursor_index(&self.cursors, producer, topic, partition) {
                    Some(i) => {
                        let prior_offset = self.cursors[i].offset;
                        let prior_line = self.cursors[i].line;
                        let ghost prior = self@[i as int];
                        let ghost old_vec = self.cursors@;
                        let mut e = self.cursors.remove(i);
                        e.offset = offset;
                        e.line = log.line;
                        let ghost e_snap = e;
                        self.cursors.insert(i, e);
                        proof {
                            let st = cursor_views(old_vec);
                            let fresh = CursorView {
                                producer: producer@,
                                topic: topic@,
                                partition,
                                offset,
                                line: log.line,
                            };
                            assert(e_snap@ =~= fresh);
                            assert(self.cursors@ =~= old_vec.update(i as int, e_snap));
                            assert(cursor_views(old_vec.update(i as int, e_snap)) =~= st.update(
                                i as int,
                                fresh,
                            ));
                            assert(ordering_step(old(self)@, log@).0 == st.update(i as int, fresh));
                        }
                        if prior_offset > offset {
                            let mut msg = String::new();
                            msg.append(
                                "message offset is not greater than the previous offset ",
                            );
                            let o_str = u64_to_string(prior_offset);
                            msg.append(o_str.as_str());
                            msg.append(" at line ");
                            let l_str = u64_to_string(prior_line);
                            msg.append(l_str.as_str());
                            let failure = ValidationFailure {
                                line: log.line,
                                code: String::from_str("non-monotonic"),
                                error: msg,
                            };
                            proof {
                                assert(failure@ =~= non_monotonic_failure(log.line, prior));
                            }
                            results.push(Err(failure));
                            proof {
                                assert(outcomes_view(results@) =~= ordering_step(
                                    old(self)@,
                                    log@,
                                ).1);
                            }
                            return results;
                        }
                    },
                    None => {
                        let entry = CursorEntry {
                            producer: producer.clone(),
                            topic: topic.clone(),
                            partition,
                            offset,
                            line: log.line,
                        };
                        self.cursors.push(entry);
                        proof {
                            assert(final(self)@ =~= ordering_step(old(self)@, log@).0);
                        }
                    },
                }
            },
            _ => {},
        }
        results.push(Ok(()));
        proof {
            assert(outcomes_view(results@) =~= ordering_step(old(self)@, log@).1);
        }
        results
    }

    #[verifier::loop_isolation(false)]
    fn load_state(&mut self, data: &str) -> (r: Result<(), DeserializationError>)
        ensures
            r is Ok <==> parse_ordering_state(data@) is Some,
            r is Ok ==> final(self)@ == parse_ordering_state(data@).unwrap(),
            r is Err ==> final(self)@ == old(self)@,
    {
        let v = str_to_chars(data);
        proof {
            assert(v@.skip(0) =~= data@);
        }
        let (name, p0) = match parse_str_chars(&v, 0) {
            None => {
                return Err(DeserializationError {  });
            },
            Some(x) => x,
        };
        let expected = String::from_str("producer-message-ordering");
        if !name.eq(&expected) {
            return Err(DeserializationError {  });
        }
        let (count, p1) = match parse_u64_chars(&v, p0) {
            None => {
                return Err(DeserializationError {  });
            },
            Some(x) => x,
        };
        let ghost tail1 = v@.skip(p1 as int);
        let mut entries: Vec<CursorEntry> = Vec::new();
        let mut pos = p1;
        let mut i: u64 = 0;
        while i < count
            invariant
                i <= count,
                pos <= v@.len(),
                parse_cursors(count as nat, tail1) == match parse_cursors(
                    (count - i) as nat,
                    v@.skip(pos as int),
                ) {
                    None => None::<(Seq<CursorView>, Seq<char>)>,
                    Some((tail, r)) => Some((cursor_views(entries@) + tail, r)),
                },
            decreases count - i,
        {
            match parse_cursor_chars(&v, pos) {
                None => {
                    proof {
                        assert((count - i) as nat != 0);
                        assert(parse_cursors((count - i) as nat, v@.skip(pos as int)) is None);
                    }
                    return Err(DeserializationError {  });
                },
                Some((e, p2)) => {
                    let ghost old_entries = entries@;
                    entries.push(e);
                    pos = p2;
                    i = i + 1;
                    proof {
                        assert(cursor_views(old_entries.push(e)) =~= cursor_views(old_entries)
                            + seq![e@]);
                        assert forall|tail: Seq<CursorView>|
                            true implies (cursor_views(old_entries) + (seq![e@] + tail)) =~= (
                        cursor_views(old_entries.push(e)) + tail) by {
                            assert(cursor_views(old_entries.push(e)) =~= cursor_views(old_entries)
                                + seq![e@]);
                        }
                    }
                },
            }
        }
        proof {
            assert(parse_cursors(0, v@.skip(pos as int)) == Some(
                (Seq::<CursorView>::empty(), v@.skip(pos as int)),
            ));
            assert(cursor_views(entries@) + Seq::<CursorView>::empty() =~= cursor_views(
                entries@,
            ));
        }
        if pos != v.len() {
            proof {
                assert(v@.skip(pos as int).len() > 0);
            }
            return Err(DeserializationError {  });
        }
        proof {
            assert(v@.skip(pos as int).len() == 0);
        }
        self.cursors = entries;
        Ok(())
    }

    #[verifier::rlimit(100)]
    fn save_state(&self) -> (r: String)
        ensures
            r@ == enc_ordering_state(self@),
    {
        let mut out = String::new();
        append_enc_str(&mut out, "producer-message-ordering");
        append_enc_u64(&mut out, self.cursors.len() as u64);
        let ghost prefix = out@;
        let n = self.cursors.len();
        let mut i: usize = 0;
        while i < n
            invariant
                i <= n,
                n == self.cursors@.len(),
                out@ == prefix + enc_cursors(cursor_views(self.cursors@).take(i as int)),
            decreases n - i,
        {
            let e = &self.cursors[i];
            append_enc_str(&mut out, e.producer.as_str());
            append_enc_str(&mut out, e.topic.as_str());
            append_enc_u64(&mut out, e.partition);
            append_enc_u64(&mut out, e.offset);
            append_enc_u64(&mut out, e.line);
            i = i + 1;
            proof {
                let st = cursor_views(self.cursors@);
                assert(st.take(i as int).drop_last() =~= st.take(i as int - 1));
                assert(st.take(i as int).last() == st[i as int - 1]);
                assert(out@ =~= prefix + enc_cursors(st.take(i as int)));
            }
        }
        proof {
            let st = cursor_views(self.cursors@);
            assert(st.take(n as int) =~= st);
            assert(Seq::<char>::empty() + enc_str("producer-message-ordering"@) =~= enc_str(
                "producer-message-ordering"@,
            ));
            assert(out@ =~= enc_ordering_state(self@));
        }
        out
    }
}

/// Parses one entry from position `pos` of `v`.
fn parse_cursor_chars(v: &Vec<char>, pos: usize) -> (r: Option<(CursorEntry, usize)>)
    requires
        pos <= v@.len(),
    ensures
        match r {
            Some(p) => pos <= p.1 && p.1 <= v@.len() && parse_cursor(v@.skip(pos as int)) == Some(
                (p.0@, v@.skip(p.1 as int)),
            ),
            None => parse_cursor(v@.skip(pos as int)) is None,
        },
{
    let (producer, p1) = match parse_str_chars(v, pos) {
        None => {
            return None;
        },
        Some(x) => x,
    };
    let (topic, p2) = match parse_str_chars(v, p1) {
        None => {
            return None;
        },
        Some(x) => x,
    };
    let (partition, p3) = match parse_u64_chars(v, p2) {
        None => {
            return None;
        },
        Some(x) => x,
    };
    let (offset, p4) = match parse_u64_chars(v, p3) {
        None => {
            return None;
        },
        Some(x) => x,
    };
    let (line, p5) = match parse_u64_chars(v, p4) {
        None => {
            return None;
        },
        Some(x) => x,
    };
    Some((CursorEntry { producer, topic, partition, offset, line }, p5))
}

} // verus!
