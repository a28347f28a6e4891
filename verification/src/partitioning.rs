//! Confirms that a given message key always maps to the same partition within
//! a topic, judged from the consumer-observed side: only read events are
//! inspected. The first observed assignment is the baseline and stays
//! authoritative even after a violation.

use vstd::prelude::*;
use vstd::string::StrSliceExecFns;
use vstd::string::StringExecFns;

use crate::codec::enc_str;
use crate::codec::enc_u64;
use crate::codec::parse_str;
use crate::codec::parse_u64;
use crate::codec::append_enc_str;
use crate::codec::append_enc_u64;
use crate::codec::lemma_parse_enc_str;
use crate::codec::lemma_parse_enc_u64;
use crate::codec::parse_str_chars;
use crate::codec::parse_u64_chars;
use crate::codec::str_to_chars;
use crate::domain::DeserializationError;
use crate::domain::EventView;
use crate::domain::FailureView;
use crate::domain::LineView;
use crate::domain::TestEvent;
use crate::domain::TestLogLine;
use crate::domain::TestValidator;
use crate::domain::ValidationFailure;
use crate::domain::outcomes_view;
use crate::text::dec;
use crate::text::u64_to_string;

verus! {

/// The first-seen partition for a (topic, key) pair, with the log line that
/// recorded it.
pub struct AssignEntry {
    pub topic: String,
    pub key: String,
    pub partition: u64,
    pub line: u64,
}

/// Mathematical model of `AssignEntry`.
#[verifier::ext_equal]
pub struct AssignView {
    pub topic: Seq<char>,
    pub key: Seq<char>,
    pub partition: u64,
    pub line: u64,
}

impl View for AssignEntry {
    type V = AssignView;

    open spec fn view(&self) -> AssignView {
        AssignView { topic: self.topic@, key: self.key@, partition: self.partition, line: self.line }
    }
}

/// The models of a sequence of entries.
pub open spec fn assign_views(s: Seq<AssignEntry>) -> Seq<AssignView> {
    s.map_values(|e: AssignEntry| e@)
}

/// Whether entry `a` records the pair (`t`, `k`).
pub open spec fn assign_matches(a: AssignView, t: Seq<char>, k: Seq<char>) -> bool {
    a.topic == t && a.key == k
}

/// The first recorded assignment for (`t`, `k`), if any.
pub open spec fn find_assign(st: Seq<AssignView>, t: Seq<char>, k: Seq<char>) -> Option<AssignView>
    decreases st.len(),
{
    if st.len() == 0 {
        None
    } else if assign_matches(st[0], t, k) {
        Some(st[0])
    } else {
        find_assign(st.skip(1), t, k)
    }
}

/// The failure reported when a key maps to a new partition: it points at the
/// original assignment's partition and line.
pub open spec fn key_reassigned_failure(line: u64, prior: AssignView) -> FailureView {
    FailureView {
        line,
        code: "key-reassigned"@,
        error: "message key was previously assigned to partition "@ + dec(prior.partition)
            + " at line "@ + dec(prior.line),
    }
}

/// What one log line does to the partitioning state: reads with a key either
/// establish a baseline, confirm it, or report `key-reassigned`; every other
/// event is a no-op producing a single `Ok`.
pub open spec fn partitioning_step(st: Seq<AssignView>, l: LineView) -> (
    Seq<AssignView>,
    Seq<Option<FailureView>>,
) {
    match l.event {
        EventView::Read { consumer, message } => match message.data.key {
            Some(k) => {
                let t = message.metadata.topic_name;
                match find_assign(st, t, k) {
                    Some(prior) => if prior.partition != message.metadata.topic_partition {
                        (st, seq![Some(key_reassigned_failure(l.line, prior))])
                    } else {
                        (st, seq![None])
                    },
                    None => (
                        st.push(
                            AssignView {
                                topic: t,
                                key: k,
                                partition: message.metadata.topic_partition,
                                line: l.line,
                            },
                        ),
                        seq![None],
                    ),
                }
            },
            None => (st, seq![None]),
        },
        _ => (st, seq![None]),
    }
}

/// Skipping past entries that do not match leaves the lookup unchanged.
proof fn lemma_find_assign_skip(st: Seq<AssignView>, t: Seq<char>, k: Seq<char>, i: int)
    requires
        0 <= i <= st.len(),
        forall|j: int| 0 <= j < i ==> !assign_matches(st[j], t, k),
    ensures
        find_assign(st, t, k) == find_assign(st.skip(i), t, k),
    decreases i,
{
    if i == 0 {
        assert(st.skip(0) =~= st);
    } else {
        lemma_find_assign_skip(st, t, k, i - 1);
        assert(st.skip(i - 1).len() > 0);
        assert(st.skip(i - 1)[0] == st[i - 1]);
        assert(st.skip(i - 1).skip(1) =~= st.skip(i));
    }
}

/// Scans for the first entry recording (`topic`, `key`).
fn find_assign_index(v: &Vec<AssignEntry>, topic: &String, key: &String) -> (r: Option<usize>)
    ensures
        match r {
            Some(i) => i < v@.len() && find_assign(assign_views(v@), topic@, key@) == Some(
                v@[i as int]@,
            ),
            None => find_assign(assign_views(v@), topic@, key@) is None,
        },
{
    let ghost st = assign_views(v@);
    let n = v.len();
    let mut i: usize = 0;
    while i < n
        invariant
            i <= n,
            n == v@.len(),
            st == assign_views(v@),
            forall|j: int| 0 <= j < i ==> !assign_matches(st[j], topic@, key@),
        decreases n - i,
    {
        let e = &v[i];
        if e.topic.eq(topic) && e.key.eq(key) {
            proof {
                lemma_find_assign_skip(st, topic@, key@, i as int);
                assert(st.skip(i as int)[0] == st[i as int]);
            }
            return Some(i);
        }
        i = i + 1;
    }
    proof {
        lemma_find_assign_skip(st, topic@, key@, n as int);
        assert(st.skip(n as int) =~= Seq::<AssignView>::empty());
    }
    None
}

/// Encoding of one entry in a checkpoint blob.
pub open spec fn enc_assign(e: AssignView) -> Seq<char> {
    enc_str(e.topic) + enc_str(e.key) + enc_u64(e.partition) + enc_u64(e.line)
}

/// Encoding of a sequence of entries, in order.
pub open spec fn enc_assigns(st: Seq<AssignView>) -> Seq<char>
    decreases st.len(),
{
    if st.len() == 0 {
        Seq::empty()
    } else {
        enc_assigns(st.drop_last()) + enc_assign(st.last())
    }
}

/// Parses one entry from the front of `s`.
pub open spec fn parse_assign(s: Seq<char>) -> Option<(AssignView, Seq<char>)> {
    match parse_str(s) {
        None => None,
        Some((topic, r1)) => match parse_str(r1) {
            None => None,
            Some((key, r2)) => match parse_u64(r2) {
                None => None,
                Some((partition, r3)) => match parse_u64(r3) {
                    None => None,
                    Some((line, r4)) => Some((AssignView { topic, key, partition, line }, r4)),
                },
            },
        },
    }
}

/// Parses exactly `n` entries from the front of `s`.
pub open spec fn parse_assigns(n: nat, s: Seq<char>) -> Option<(Seq<AssignView>, Seq<char>)>
    decreases n,
{
    if n == 0 {
        Some((Seq::empty(), s))
    } else {
        match parse_assign(s) {
            None => None,
            Some((e, r)) => match parse_assigns((n - 1) as nat, r) {
                None => None,
                Some((tail, r2)) => Some((seq![e] + tail, r2)),
            },
        }
    }
}

/// Whether an entry's strings fit the length prefix of the wire format; true
/// of the model of every executable entry.
pub open spec fn assign_bounded(e: AssignView) -> bool {
    e.topic.len() <= u64::MAX && e.key.len() <= u64::MAX
}

/// The entry parser inverts the entry encoder.
#[verifier::rlimit(100)]
proof fn lemma_parse_enc_assign(e: AssignView, rest: Seq<char>)
    requires
        assign_bounded(e),
    ensures
        parse_assign(enc_assign(e) + rest) == Some((e, rest)),
{
    let r3 = enc_u64(e.line) + rest;
    let r2 = enc_u64(e.partition) + r3;
    let r1 = enc_str(e.key) + r2;
    assert(enc_assign(e) + rest =~= enc_str(e.topic) + r1);
    lemma_parse_enc_str(e.topic, r1);
    lemma_parse_enc_str(e.key, r2);
    lemma_parse_enc_u64(e.partition, r3);
    lemma_parse_enc_u64(e.line, rest);
}

/// A non-empty encoding splits at the front as well.
proof fn lemma_enc_assigns_front(st: Seq<AssignView>)
    requires
        st.len() > 0,
    ensures
        enc_assigns(st) == enc_assign(st[0]) + enc_assigns(st.skip(1)),
    decreases st.len(),
{
    if st.len() == 1 {
        assert(st.drop_last() =~= Seq::<AssignView>::empty());
        assert(st.skip(1) =~= Seq::<AssignView>::empty());
        assert(enc_assigns(st) =~= enc_assign(st[0]) + enc_assigns(st.skip(1)));
    } else {
        let dl = st.drop_last();
        lemma_enc_assigns_front(dl);
        assert(dl[0] == st[0]);
        assert(st.skip(1).drop_last() =~= dl.skip(1));
        assert(st.skip(1).last() == st.last());
        assert(enc_assigns(st) =~= enc_assign(st[0]) + enc_assigns(st.skip(1)));
    }
}

/// The entry-list parser inverts the entry-list encoder.
#[verifier::rlimit(100)]
proof fn lemma_parse_enc_assigns(st: Seq<AssignView>, rest: Seq<char>)
    requires
        forall|i: int| 0 <= i < st.len() ==> assign_bounded(#[trigger] st[i]),
    ensures
        parse_assigns(st.len() as nat, enc_assigns(st) + rest) == Some((st, rest)),
    decreases st.len(),
{
    if st.len() == 0 {
        assert(enc_assigns(st) + rest =~= rest);
        assert(Seq::<AssignView>::empty() =~= st);
    } else {
        lemma_enc_assigns_front(st);
        assert(enc_assigns(st) + rest =~= enc_assign(st[0]) + (enc_assigns(st.skip(1)) + rest));
        lemma_parse_enc_assign(st[0], enc_assigns(st.skip(1)) + rest);
        assert forall|j: int| 0 <= j < st.skip(1).len() implies assign_bounded(
            #[trigger] st.skip(1)[j],
        ) by {
            assert(st.skip(1)[j] == st[j + 1]);
        }
        lemma_parse_enc_assigns(st.skip(1), rest);
        assert(seq![st[0]] + st.skip(1) =~= st);
    }
}

/// The full checkpoint blob: the validator's name, the entry count, then the
/// entries in order.
pub open spec fn enc_partitioning_state(st: Seq<AssignView>) -> Seq<char> {
    enc_str("application-message-partitioning"@) + enc_u64(st.len() as u64) + enc_assigns(st)
}

/// Parses a full checkpoint blob; `None` on any malformed, truncated or
/// trailing-garbage input, and on a blob of a different validator type.
pub open spec fn parse_partitioning_state(s: Seq<char>) -> Option<Seq<AssignView>> {
    match parse_str(s) {
        None => None,
        Some((name, r1)) => if name != "application-message-partitioning"@ {
            None
        } else {
            match parse_u64(r1) {
                None => None,
                Some((n, r2)) => match parse_assigns(n as nat, r2) {
                    None => None,
                    Some((st, r3)) => if r3.len() == 0 {
                        Some(st)
                    } else {
                        None
                    },
                },
            }
        },
    }
}

/// Round-trip checkpoint law: parsing a saved partitioning state yields
/// exactly that state, so replaying the remaining events after a restore
/// produces the same outcomes as an uninterrupted run.
pub proof fn lemma_partitioning_round_trip(st: Seq<AssignView>)
    requires
        st.len() <= u64::MAX,
        forall|i: int| 0 <= i < st.len() ==> assign_bounded(#[trigger] st[i]),
    ensures
        parse_partitioning_state(enc_partitioning_state(st)) == Some(st),
{
    let name = "application-message-partitioning"@;
    reveal_strlit("application-message-partitioning");
    let r1 = enc_u64(st.len() as u64) + enc_assigns(st);
    assert(enc_partitioning_state(st) =~= enc_str(name) + r1);
    lemma_parse_enc_str(name, r1);
    assert(enc_assigns(st) + Seq::<char>::empty() =~= enc_assigns(st));
    lemma_parse_enc_u64(st.len() as u64, enc_assigns(st));
    lemma_parse_enc_assigns(st, Seq::<char>::empty());
    assert(parse_assigns(st.len() as nat, enc_assigns(st) + Seq::<char>::empty()) == Some(
        (st, Seq::<char>::empty()),
    ));
}

/// Verifies that the same partition is always assigned to the same key on the
/// same topic. State: per topic, the first-seen partition for each key.
pub struct ApplicationMessagePartitioningValidator {
    assignments: Vec<AssignEntry>,
}

impl View for ApplicationMessagePartitioningValidator {
    type V = Seq<AssignView>;

    closed spec fn view(&self) -> Seq<AssignView> {
        assign_views(self.assignments@)
    }
}

impl Default for ApplicationMessagePartitioningValidator {
    /// A fresh validator has no recorded assignments.
    fn default() -> (r: Self)
        ensures
            r@ == Seq::<AssignView>::empty(),
    {
        let r = ApplicationMessagePartitioningValidator { assignments: Vec::new() };
        proof {
            assert(r@ =~= Seq::<AssignView>::empty());
        }
        r
    }
}

impl TestValidator for ApplicationMessagePartitioningValidator {
    fn validator_name(&self) -> (r: &'static str)
        ensures
            r@ == "application-message-partitioning"@,
    {
        "application-message-partitioning"
    }

    fn validate_event(&mut self, log: &TestLogLine) -> (r: Vec<Result<(), ValidationFailure>>)
        ensures
            final(self)@ == partitioning_step(old(self)@, log@).0,
            outcomes_view(r@) == partitioning_step(old(self)@, log@).1,
    {
        let mut results: Vec<Result<(), ValidationFailure>> = Vec::new();
        match &log.data.fields {
            TestEvent::MessageReadSucceeded(event) => {
                match &event.message.data.key {
                    Some(key) => {
                        let topic = &event.message.metadata.topic_name;
                        match find_assign_index(&self.assignments, topic, key) {
                            Some(i) => {
                                let prior = &self.assignments[i];
                                if prior.partition != event.message.metadata.topic_partition {
                                    let mut msg = String::new();
                                    msg.append(
                                        "message key was previously assigned to partition ",
                                    );
                                    let p_str = u64_to_string(prior.partition);
                                    msg.append(p_str.as_str());
                                    msg.append(" at line ");
                                    let l_str = u64_to_string(prior.line);
                                    msg.append(l_str.as_str());
                                    let failure = ValidationFailure {
                                        line: log.line,
                                        code: String::from_str("key-reassigned"),
                                        error: msg,
                                    };
                                    proof {
                                        assert(failure@ =~= key_reassigned_failure(
                                            log.line,
                                            self.assignments@[i as int]@,
                                        ));
                                    }
                                    results.push(Err(failure));
                                    proof {
                                        assert(outcomes_view(results@) =~= partitioning_step(
                                            old(self)@,
                                            log@,
                                        ).1);
                                    }
                                    return results;
                                } else {
                                    results.push(Ok(()));
                                    proof {
                                        assert(outcomes_view(results@) =~= partitioning_step(
                                            old(self)@,
                                            log@,
                                        ).1);
                                    }
                                    return results;
                                }
                            },
                            None => {
                                let entry = AssignEntry {
                                    topic: topic.clone(),
                                    key: key.clone(),
                                    partition: event.message.metadata.topic_partition,
                                    line: log.line,
                                };
                                self.assignments.push(entry);
                                proof {
                                    assert(final(self)@ =~= partitioning_step(
                                        old(self)@,
                                        log@,
                                    ).0);
                                }
                            },
                        }
                    },
                    None => {},
                }
            },
            _ => {},
        }
        results.push(Ok(()));
        proof {
            assert(outcomes_view(results@) =~= partitioning_step(old(self)@, log@).1);
        }
        results
    }

    #[verifier::loop_isolation(false)]
    fn load_state(&mut self, data: &str) -> (r: Result<(), DeserializationError>)
        ensures
            r is Ok <==> parse_partitioning_state(data@) is Some,
            r is Ok ==> final(self)@ == parse_partitioning_state(data@).unwrap(),
            r is Err ==> final(self)@ == old(self)@,
    {
        let v = str_to_chars(data);
        proof {
            assert(v@.skip(0) =~= data@);
        }
        let (name, p0) = match parse_str_chars(&v, 0) {
            None => {
                return Err(DeserializationError {  });
            },
            Some(x) => x,
        };
        let expected = String::from_str("application-message-partitioning");
        if !name.eq(&expected) {
            return Err(DeserializationError {  });
        }
        let (count, p1) = match parse_u64_chars(&v, p0) {
            None => {
                return Err(DeserializationError {  });
            },
            Some(x) => x,
        };
        let ghost tail1 = v@.skip(p1 as int);
        let mut entries: Vec<AssignEntry> = Vec::new();
        let mut pos = p1;
        let mut i: u64 = 0;
        while i < count
            invariant
                i <= count,
                pos <= v@.len(),
                parse_assigns(count as nat, tail1) == match parse_assigns(
                    (count - i) as nat,
                    v@.skip(pos as int),
                ) {
                    None => None::<(Seq<AssignView>, Seq<char>)>,
                    Some((tail, r)) => Some((assign_views(entries@) + tail, r)),
                },
            decreases count - i,
        {
            match parse_assign_chars(&v, pos) {
                None => {
                    proof {
                        assert((count - i) as nat != 0);
                        assert(parse_assigns((count - i) as nat, v@.skip(pos as int)) is None);
                    }
                    return Err(DeserializationError {  });
                },
                Some((e, p2)) => {
                    let ghost old_entries = entries@;
                    entries.push(e);
                    pos = p2;
                    i = i + 1;
                    proof {
                        assert(assign_views(old_entries.push(e)) =~= assign_views(old_entries)
                            + seq![e@]);
                        assert forall|tail: Seq<AssignView>|
                            true implies (assign_views(old_entries) + (seq![e@] + tail)) =~= (
                        assign_views(old_entries.push(e)) + tail) by {
                            assert(assign_views(old_entries.push(e)) =~= assign_views(old_entries)
                                + seq![e@]);
                        }
                    }
                },
            }
        }
        proof {
            assert(parse_assigns(0, v@.skip(pos as int)) == Some(
                (Seq::<AssignView>::empty(), v@.skip(pos as int)),
            ));
            assert(assign_views(entries@) + Seq::<AssignView>::empty() =~= assign_views(
                entries@,
            ));
        }
        if pos != v.len() {
            proof {
                assert(v@.skip(pos as int).len() > 0);
            }
            return Err(DeserializationError {  });
        }
        proof {
            assert(v@.skip(pos as int).len() == 0);
        }
        self.assignments = entries;
        Ok(())
    }

    #[verifier::rlimit(100)]
    fn save_state(&self) -> (r: String)
        ensures
            r@ == enc_partitioning_state(self@),
    {
        let mut out = String::new();
        append_enc_str(&mut out, "application-message-partitioning");
        append_enc_u64(&mut out, self.assignments.len() as u64);
        let ghost prefix = out@;
        let n = self.assignments.len();
        let mut i: usize = 0;
        while i < n
            invariant
                i <= n,
                n == self.assignments@.len(),
                out@ == prefix + enc_assigns(assign_views(self.assignments@).take(i as int)),
            decreases n - i,
        {
            let e = &self.assignments[i];
            let ghost before = out@;
            append_enc_str(&mut out, e.topic.as_str());
            append_enc_str(&mut out, e.key.as_str());
            append_enc_u64(&mut out, e.partition);
            append_enc_u64(&mut out, e.line);
            i = i + 1;
            proof {
                let st = assign_views(self.assignments@);
                assert(st.take(i as int).drop_last() =~= st.take(i as int - 1));
                assert(st.take(i as int).last() == st[i as int - 1]);
                assert(out@ =~= prefix + enc_assigns(st.take(i as int)));
            }
        }
        proof {
            let st = assign_views(self.assignments@);
            assert(st.take(n as int) =~= st);
            assert(Seq::<char>::empty() + enc_str("application-message-partitioning"@) =~= enc_str(
                "application-message-partitioning"@,
            ));
            assert(out@ =~= enc_partitioning_state(self@));
        }
        out
    }
}

/// Parses one entry from position `pos` of `v`.
fn parse_assign_chars(v: &Vec<char>, pos: usize) -> (r: Option<(AssignEntry, usize)>)
    requires
        pos <= v@.len(),
    ensures
        match r {
            Some(p) => pos <= p.1 && p.1 <= v@.len() && parse_assign(v@.skip(pos as int)) == Some(
                (p.0@, v@.skip(p.1 as int)),
            ),
            None => parse_assign(v@.skip(pos as int)) is None,
        },
{
    let (topic, p1) = match parse_str_chars(v, pos) {
        None => {
            return None;
        },
        Some(x) => x,
    };
    let (key, p2) = match parse_str_chars(v, p1) {
        None => {
            return None;
        },
        Some(x) => x,
    };
    let (partition, p3) = match parse_u64_chars(v, p2) {
        None => {
            return None;
        },
        Some(x) => x,
    };
    let (line, p4) = match parse_u64_chars(v, p3) {
        None => {
            return None;
        },
        Some(x) => x,
    };
    Some((AssignEntry { topic, key, partition, line }, p4))
}

} // verus!
