//! Confirms that a given message payload always resolves to the same
//! (topic, partition, offset) triple, across both reads and writes. Payload
//! equality is exact text: two logical messages sharing payload bytes are
//! indistinguishable here, an accepted approximation.

use vstd::prelude::*;
use vstd::string::StrSliceExecFns;
use vstd::string::StringExecFns;

use crate::codec::enc_str;
use crate::codec::enc_u64;
use crate::codec::parse_str;
use crate::codec::parse_u64;
use crate::codec::append_enc_str;
use crate::codec::append_enc_u64;
use crate::codec::lemma_parse_enc_str;
use crate::codec::lemma_parse_enc_u64;
use crate::codec::parse_str_chars;
use crate::codec::parse_u64_chars;
use crate::codec::str_to_chars;
use crate::domain::DeserializationError;
use crate::domain::EventView;
use crate::domain::FailureView;
use crate::domain::LineView;
use crate::domain::Message;
use crate::domain::MessageView;
use crate::domain::MetadataView;
use crate::domain::TestEvent;
use crate::domain::TestLogLine;
use crate::domain::TestValidator;
use crate::domain::ValidationFailure;
use crate::domain::outcomes_view;
use crate::text::dec;
use crate::text::u64_to_string;

verus! {

/// The metadata first observed for a payload, with the log line that
/// recorded it.
pub struct PayloadEntry {
    pub payload: String,
    pub topic: String,
    pub partition: u64,
    pub offset: u64,
    pub line: u64,
}

/// Mathematical model of `PayloadEntry`.
#[verifier::ext_equal]
pub struct PayloadView {
    pub payload: Seq<char>,
    pub topic: Seq<char>,
    pub partition: u64,
    pub offset: u64,
    pub line: u64,
}

impl View for PayloadEntry {
    type V = PayloadView;

    open spec fn view(&self) -> PayloadView {
        PayloadView {
            payload: self.payload@,
            topic: self.topic@,
            partition: self.partition,
            offset: self.offset,
            line: self.line,
        }
    }
}

/// The models of a sequence of entries.
pub open spec fn payload_views(s: Seq<PayloadEntry>) -> Seq<PayloadView> {
    s.map_values(|e: PayloadEntry| e@)
}

/// Whether the entry's recorded metadata equals the message's metadata.
pub open spec fn metadata_agrees(e: PayloadView, m: MetadataView) -> bool {
    e.topic == m.topic_name && e.partition == m.topic_partition && e.offset
        == m.topic_partition_offset
}

/// The first entry recorded for `payload`, if any.
pub open spec fn find_payload(st: Seq<PayloadView>, payload: Seq<char>) -> Option<PayloadView>
    decreases st.len(),
{
    if st.len() == 0 {
        None
    } else if st[0].payload == payload {
        Some(st[0])
    } else {
        find_payload(st.skip(1), payload)
    }
}

/// The failure reported when a payload resolves to different metadata: it
/// points at the line of the first observation.
pub open spec fn non_idempotent_failure(line: u64, code: Seq<char>, prior: PayloadView) -> FailureView {
    FailureView {
        line,
        code,
        error: "identical message previously seen at line "@ + dec(prior.line),
    }
}

/// The shared lookup: a payload either establishes a baseline, confirms it,
/// or reports non-idempotence under the given code.
pub open spec fn idempotence_check(
    st: Seq<PayloadView>,
    line: u64,
    message: MessageView,
    code: Seq<char>,
) -> (Seq<PayloadView>, Seq<Option<FailureView>>) {
    match find_payload(st, message.data.payload) {
        Some(prior) => if !metadata_agrees(prior, message.metadata) {
            (st, seq![Some(non_idempotent_failure(line, code, prior))])
        } else {
            (st, seq![None])
        },
        None => (
            st.push(
                PayloadView {
                    payload: message.data.payload,
                    topic: message.metadata.topic_name,
                    partition: message.metadata.topic_partition,
                    offset: message.metadata.topic_partition_offset,
                    line,
                },
            ),
            seq![None],
        ),
    }
}

/// What one log line does to the idempotence state: reads and writes share
/// one payload namespace and differ only in the reported code; every other
/// event is a no-op.
pub open spec fn idempotence_step(st: Seq<PayloadView>, l: LineView) -> (
    Seq<PayloadView>,
    Seq<Option<FailureView>>,
) {
    match l.event {
        EventView::Read { consumer, message } => idempotence_check(
            st,
            l.line,
            message,
            "non-idempotent-message-read"@,
        ),
        EventView::Write { producer, message } => idempotence_check(
            st,
            l.line,
            message,
            "non-idempotent-message-written"@,
        ),
        _ => (st, seq![None]),
    }
}

/// Skipping past entries that do not match leaves the lookup unchanged.
proof fn lemma_find_payload_skip(st: Seq<PayloadView>, payload: Seq<char>, i: int)
    requires
        0 <= i <= st.len(),
        forall|j: int| 0 <= j < i ==> (#[trigger] st[j]).payload != payload,
    ensures
        find_payload(st, payload) == find_payload(st.skip(i), payload),
    decreases i,
{
    if i == 0 {
        assert(st.skip(0) =~= st);
    } else {
        lemma_find_payload_skip(st, payload, i - 1);
        assert(st.skip(i - 1).len() > 0);
        assert(st.skip(i - 1)[0] == st[i - 1]);
        assert(st.skip(i - 1).skip(1) =~= st.skip(i));
    }
}

/// Scans for the first entry recorded for `payload`.
fn find_payload_index(v: &Vec<PayloadEntry>, payload: &String) -> (r: Option<usize>)
    ensures
        match r {
            Some(i) => i < v@.len() && find_payload(payload_views(v@), payload@) == Some(
                v@[i as int]@,
            ),
            None => find_payload(payload_views(v@), payload@) is None,
        },
{
    let ghost st = payload_views(v@);
    let n = v.len();
    let mut i: usize = 0;
    while i < n
        invariant
            i <= n,
            n == v@.len(),
            st == payload_views(v@),
            forall|j: int| 0 <= j < i ==> (#[trigger] st[j]).payload != payload@,
        decreases n - i,
    {
        let e = &v[i];
        if e.payload.eq(payload) {
            proof {
                lemma_find_payload_skip(st, payload@, i as int);
                assert(st.skip(i as int)[0] == st[i as int]);
            }
            return Some(i);
        }
        i = i + 1;
    }
    proof {
        lemma_find_payload_skip(st, payload@, n as int);
        assert(st.skip(n as int) =~= Seq::<PayloadView>::empty());
    }
    None
}

/// The shared executable lookup behind both event kinds.
fn idempotence_handle(
    entries: &mut Vec<PayloadEntry>,
    line: u64,
    message: &Message,
    read_side: bool,
) -> (r: Vec<Result<(), ValidationFailure>>)
    ensures
        ({
            let code = if read_side {
                "non-idempotent-message-read"@
            } else {
                "non-idempotent-message-written"@
            };
            let step = idempotence_check(payload_views(old(entries)@), line, message@, code);
            payload_views(final(entries)@) == step.0 && outcomes_view(r@) == step.1
        }),
{
    let ghost code = if read_side {
        "non-idempotent-message-read"@
    } else {
        "non-idempotent-message-written"@
    };
    let mut results: Vec<Result<(), ValidationFailure>> = Vec::new();
    match find_payload_index(entries, &message.data.payload) {
        Some(i) => {
            let prior = &entries[i];
            let agrees = prior.topic.eq(&message.metadata.topic_name) && prior.partition
                == message.metadata.topic_partition && prior.offset
                == message.metadata.topic_partition_offset;
            if !agrees {
                let mut msg = String::new();
                msg.append("identical message previously seen at line ");
                let l_str = u64_to_string(prior.line);
                msg.append(l_str.as_str());
                let code_str = if read_side {
                    String::from_str("non-idempotent-message-read")
                } else {
                    String::from_str("non-idempotent-message-written")
                };
                let failure = ValidationFailure { line, code: code_str, error: msg };
                proof {
                    assert(failure@ =~= non_idempotent_failure(
                        line,
                        code,
                        entries@[i as int]@,
                    ));
                }
                results.push(Err(failure));
                proof {
                    assert(outcomes_view(results@) =~= idempotence_check(
                        payload_views(old(entries)@),
                        line,
                        message@,
                        code,
                    ).1);
                }
                return results;
            }
        },
        None => {
            let entry = PayloadEntry {
                payload: message.data.payload.clone(),
                topic: message.metadata.topic_name.clone(),
                partition: message.metadata.topic_partition,
                offset: message.metadata.topic_partition_offset,
                line,
            };
            entries.push(entry);
            proof {
                assert(payload_views(final(entries)@) =~= idempotence_check(
                    payload_views(old(entries)@),
                    line,
                    message@,
                    code,
                ).0);
            }
        },
    }
    results.push(Ok(()));
    proof {
        assert(outcomes_view(results@) =~= idempotence_check(
            payload_views(old(entries)@),
            line,
            message@,
            code,
        ).1);
    }
    results
}

/// Encoding of one entry in a checkpoint blob.
pub open spec fn enc_payload(e: PayloadView) -> Seq<char> {
    enc_str(e.payload) + enc_str(e.topic) + enc_u64(e.partition) + enc_u64(e.offset) + enc_u64(
        e.line,
    )
}

/// Encoding of a sequence of entries, in order.
pub open spec fn enc_payloads(st: Seq<PayloadView>) -> Seq<char>
    decreases st.len(),
{
    if st.len() == 0 {
        Seq::empty()
    } else {
        enc_payloads(st.drop_last()) + enc_payload(st.last())
    }
}

/// Parses one entry from the front of `s`.
pub open spec fn parse_payload(s: Seq<char>) -> Option<(PayloadView, Seq<char>)> {
    match parse_str(s) {
        None => None,
        Some((payload, r1)) => match parse_str(r1) {
            None => None,
            Some((topic, r2)) => match parse_u64(r2) {
                None => None,
                Some((partition, r3)) => match parse_u64(r3) {
                    None => None,
                    Some((offset, r4)) => match parse_u64(r4) {
                        None => None,
                        Some((line, r5)) => Some(
                            (PayloadView { payload, topic, partition, offset, line }, r5),
                        ),
                    },
                },
            },
        },
    }
}

/// Parses exactly `n` entries from the front of `s`.
pub open spec fn parse_payloads(n: nat, s: Seq<char>) -> Option<(Seq<PayloadView>, Seq<char>)>
    decreases n,
{
    if n == 0 {
        Some((Seq::empty(), s))
    } else {
        match parse_payload(s) {
            None => None,
            Some((e, r)) => match parse_payloads((n - 1) as nat, r) {
                None => None,
                Some((tail, r2)) => Some((seq![e] + tail, r2)),
            },
        }
    }
}

/// Whether an entry's strings fit the length prefix of the wire format.
pub open spec fn payload_bounded(e: PayloadView) -> bool {
    e.payload.len() <= u64::MAX && e.topic.len() <= u64::MAX
}

/// The entry parser inverts the entry encoder.
#[verifier::rlimit(100)]
proof fn lemma_parse_enc_payload(e: PayloadView, rest: Seq<char>)
    requires
        payload_bounded(e),
    ensures
        parse_payload(enc_payload(e) + rest) == Some((e, rest)),
{
    let r4 = enc_u64(e.line) + rest;
    let r3 = enc_u64(e.offset) + r4;
    let r2 = enc_u64(e.partition) + r3;
    let r1 = enc_str(e.topic) + r2;
    assert(enc_payload(e) + rest =~= enc_str(e.payload) + r1);
    lemma_parse_enc_str(e.payload, r1);
    lemma_parse_enc_str(e.topic, r2);
    lemma_parse_enc_u64(e.partition, r3);
    lemma_parse_enc_u64(e.offset, r4);
    lemma_parse_enc_u64(e.line, rest);
}

/// A non-empty encoding splits at the front as well.
proof fn lemma_enc_payloads_front(st: Seq<PayloadView>)
    requires
        st.len() > 0,
    ensures
        enc_payloads(st) == enc_payload(st[0]) + enc_payloads(st.skip(1)),
    decreases st.len(),
{
    if st.len() == 1 {
        assert(st.drop_last() =~= Seq::<PayloadView>::empty());
        assert(st.skip(1) =~= Seq::<PayloadView>::empty());
        assert(enc_payloads(st) =~= enc_payload(st[0]) + enc_payloads(st.skip(1)));
    } else {
        let dl = st.drop_last();
        lemma_enc_payloads_front(dl);
        assert(dl[0] == st[0]);
        assert(st.skip(1).drop_last() =~= dl.skip(1));
        assert(st.skip(1).last() == st.last());
        assert(enc_payloads(st) =~= enc_payload(st[0]) + enc_payloads(st.skip(1)));
    }
}

/// The entry-list parser inverts the entry-list encoder.
#[verifier::rlimit(100)]
proof fn lemma_parse_enc_payloads(st: Seq<PayloadView>, rest: Seq<char>)
    requires
        forall|i: int| 0 <= i < st.len() ==> payload_bounded(#[trigger] st[i]),
    ensures
        parse_payloads(st.len() as nat, enc_payloads(st) + rest) == Some((st, rest)),
    decreases st.len(),
{
    if st.len() == 0 {
        assert(enc_payloads(st) + rest =~= rest);
        assert(Seq::<PayloadView>::empty() =~= st);
    } else {
        lemma_enc_payloads_front(st);
        assert(enc_payloads(st) + rest =~= enc_payload(st[0]) + (enc_payloads(st.skip(1)) + rest));
        lemma_parse_enc_payload(st[0], enc_payloads(st.skip(1)) + rest);
        assert forall|j: int| 0 <= j < st.skip(1).len() implies payload_bounded(
            #[trigger] st.skip(1)[j],
        ) by {
            assert(st.skip(1)[j] == st[j + 1]);
        }
        lemma_parse_enc_payloads(st.skip(1), rest);
        assert(seq![st[0]] + st.skip(1) =~= st);
    }
}

/// The full checkpoint blob: the validator's name, the entry count, then the
/// entries in order.
pub open spec fn enc_idempotence_state(st: Seq<PayloadView>) -> Seq<char> {
    enc_str("producer-idempotence"@) + enc_u64(st.len() as u64) + enc_payloads(st)
}

/// Parses a full checkpoint blob; `None` on any malformed, truncated or
/// trailing-garbage input, and on a blob of a different validator type.
pub open spec fn parse_idempotence_state(s: Seq<char>) -> Option<Seq<PayloadView>> {
    match parse_str(s) {
        None => None,
        Some((name, r1)) => if name != "producer-idempotence"@ {
            None
        } else {
            match parse_u64(r1) {
                None => None,
                Some((n, r2)) => match parse_payloads(n as nat, r2) {
                    None => None,
                    Some((st, r3)) => if r3.len() == 0 {
                        Some(st)
                    } else {
                        None
                    },
                },
            }
        },
    }
}

/// Round-trip checkpoint law: parsing a saved idempotence state yields
/// exactly that state, so replaying the remaining events after a restore
/// produces the same outcomes as an uninterrupted run.
pub proof fn lemma_idempotence_round_trip(st: Seq<PayloadView>)
    requires
        st.len() <= u64::MAX,
        forall|i: int| 0 <= i < st.len() ==> payload_bounded(#[trigger] st[i]),
    ensures
        parse_idempotence_state(enc_idempotence_state(st)) == Some(st),
{
    let name = "producer-idempotence"@;
    reveal_strlit("producer-idempotence");
    let r1 = enc_u64(st.len() as u64) + enc_payloads(st);
    assert(enc_idempotence_state(st) =~= enc_str(name) + r1);
    lemma_parse_enc_str(name, r1);
    assert(enc_payloads(st) + Seq::<char>::empty() =~= enc_payloads(st));
    lemma_parse_enc_u64(st.len() as u64, enc_payloads(st));
    lemma_parse_enc_payloads(st, Seq::<char>::empty());
    assert(parse_payloads(st.len() as nat, enc_payloads(st) + Seq::<char>::empty()) == Some(
        (st, Seq::<char>::empty()),
    ));
}

/// Verifies that a message payload resolves to exactly one topic, partition
/// and offset. State: per payload, the first observed metadata.
pub struct ProducerIdempotenceValidator {
    messages: Vec<PayloadEntry>,
}

impl View for ProducerIdempotenceValidator {
    type V = Seq<PayloadView>;

    closed spec fn view(&self) -> Seq<PayloadView> {
        payload_views(self.messages@)
    }
}

impl Default for ProducerIdempotenceValidator {
    /// A fresh validator has no recorded payloads.
    fn default() -> (r: Self)
        ensures
            r@ == Seq::<PayloadView>::empty(),
    {
        let r = ProducerIdempotenceValidator { messages: Vec::new() };
        proof {
            assert(r@ =~= Seq::<PayloadView>::empty());
        }
        r
    }
}

impl TestValidator for ProducerIdempotenceValidator {
    fn validator_name(&self) -> (r: &'static str)
        ensures
            r@ == "producer-idempotence"@,
    {
        "producer-idempotence"
    }

    fn validate_event(&mut self, log: &TestLogLine) -> (r: Vec<Result<(), ValidationFailure>>)
        ensures
            final(self)@ == idempotence_step(old(self)@, log@).0,
            outcomes_view(r@) == idempotence_step(old(self)@, log@).1,
    {
        match &log.data.fields {
            TestEvent::MessageReadSucceeded(event) => {
                idempotence_handle(&mut self.messages, log.line, &event.message, true)
            },
            TestEvent::MessageWriteSucceeded(event) => {
                idempotence_handle(&mut self.messages, log.line, &event.message, false)
            },
            _ => {
                let mut results: Vec<Result<(), ValidationFailure>> = Vec::new();
                results.push(Ok(()));
                proof {
                    assert(outcomes_view(results@) =~= idempotence_step(old(self)@, log@).1);
                }
                results
            },
        }
    }

    #[verifier::loop_isolation(false)]
    fn load_state(&mut self, data: &str) -> (r: Result<(), DeserializationError>)
        ensures
            r is Ok <==> parse_idempotence_state(data@) is Some,
            r is Ok ==> final(self)@ == parse_idempotence_state(data@).unwrap(),
            r is Err ==> final(self)@ == old(self)@,
    {
        let v = str_to_chars(data);
        proof {
            assert(v@.skip(0) =~= data@);
        }
        let (name, p0) = match parse_str_chars(&v, 0) {
            None => {
                return Err(DeserializationError {  });
            },
            Some(x) => x,
        };
        let expected = String::from_str("producer-idempotence");
        if !name.eq(&expected) {
            return Err(DeserializationError {  });
        }
        let (count, p1) = match parse_u64_chars(&v, p0) {
            None => {
                return Err(DeserializationError {  });
            },
            Some(x) => x,
        };
        let ghost tail1 = v@.skip(p1 as int);
        let mut entries: Vec<PayloadEntry> = Vec::new();
        let mut pos = p1;
        let mut i: u64 = 0;
        while i < count
            invariant
                i <= count,
                pos <= v@.len(),
                parse_payloads(count as nat, tail1) == match parse_payloads(
                    (count - i) as nat,
                    v@.skip(pos as int),
                ) {
                    None => None::<(Seq<PayloadView>, Seq<char>)>,
                    Some((tail, r)) => Some((payload_views(entries@) + tail, r)),
                },
            decreases count - i,
        {
            match parse_payload_chars(&v, pos) {
                None => {
                    proof {
                        assert((count - i) as nat != 0);
                        assert(parse_payloads((count - i) as nat, v@.skip(pos as int)) is None);
                    }
                    return Err(DeserializationError {  });
                },
                Some((e, p2)) => {
                    let ghost old_entries = entries@;
                    entries.push(e);
                    pos = p2;
                    i = i + 1;
                    proof {
                        assert(payload_views(old_entries.push(e)) =~= payload_views(old_entries)
                            + seq![e@]);
                        assert forall|tail: Seq<PayloadView>|
                            true implies (payload_views(old_entries) + (seq![e@] + tail)) =~= (
                        payload_views(old_entries.push(e)) + tail) by {
                            assert(payload_views(old_entries.push(e)) =~= payload_views(
                                old_entries,
                            ) + seq![e@]);
                        }
                    }
                },
            }
        }
        proof {
            assert(parse_payloads(0, v@.skip(pos as int)) == Some(
                (Seq::<PayloadView>::empty(), v@.skip(pos as int)),
            ));
            assert(payload_views(entries@) + Seq::<PayloadView>::empty() =~= payload_views(
                entries@,
            ));
        }
        if pos != v.len() {
            proof {
                assert(v@.skip(pos as int).len() > 0);
            }
            return Err(DeserializationError {  });
        }
        proof {
            assert(v@.skip(pos as int).len() == 0);
        }
        self.messages = entries;
        Ok(())
    }

    #[verifier::rlimit(100)]
    fn save_state(&self) -> (r: String)
        ensures
            r@ == enc_idempotence_state(self@),
    {
        let mut out = String::new();
        append_enc_str(&mut out, "producer-idempotence");
        append_enc_u64(&mut out, self.messages.len() as u64);
        let ghost prefix = out@;
        let n = self.messages.len();
        let mut i: usize = 0;
        while i < n
            invariant
                i <= n,
                n == self.messages@.len(),
                out@ == prefix + enc_payloads(payload_views(self.messages@).take(i as int)),
            decreases n - i,
        {
            let e = &self.messages[i];
            append_enc_str(&mut out, e.payload.as_str());
            append_enc_str(&mut out, e.topic.as_str());
            append_enc_u64(&mut out, e.partition);
            append_enc_u64(&mut out, e.offset);
            append_enc_u64(&mut out, e.line);
            i = i + 1;
            proof {
                let st = payload_views(self.messages@);
                assert(st.take(i as int).drop_last() =~= st.take(i as int - 1));
                assert(st.take(i as int).last() == st[i as int - 1]);
                assert(out@ =~= prefix + enc_payloads(st.take(i as int)));
            }
        }
        proof {
            let st = payload_views(self.messages@);
            assert(st.take(n as int) =~= st);
            assert(Seq::<char>::empty() + enc_str("producer-idempotence"@) =~= enc_str(
                "producer-idempotence"@,
            ));
            assert(out@ =~= enc_idempotence_state(self@));
        }
        out
    }
}

/// Parses one entry from position `pos` of `v`.
fn parse_payload_chars(v: &Vec<char>, pos: usize) -> (r: Option<(PayloadEntry, usize)>)
    requires
        pos <= v@.len(),
    ensures
        match r {
            Some(p) => pos <= p.1 && p.1 <= v@.len() && parse_payload(v@.skip(pos as int)) == Some(
                (p.0@, v@.skip(p.1 as int)),
            ),
            None => parse_payload(v@.skip(pos as int)) is None,
        },
{
    let (payload, p1) = match parse_str_chars(v, pos) {
        None => {
            return None;
        },
        Some(x) => x,
    };
    let (topic, p2) = match parse_str_chars(v, p1) {
        None => {
            return None;
        },
        Some(x) => x,
    };
    let (partition, p3) = match parse_u64_chars(v, p2) {
        None => {
            return None;
        },
        Some(x) => x,
    };
    let (offset, p4) = match parse_u64_chars(v, p3) {
        None => {
            return None;
        },
        Some(x) => x,
    };
    let (line, p5) = match parse_u64_chars(v, p4) {
        None => {
            return None;
        },
        Some(x) => x,
    };
    Some((PayloadEntry { payload, topic, partition, offset, line }, p5))
}

} // verus!
