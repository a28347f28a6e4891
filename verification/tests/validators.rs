use logcheck::domain::Consumer;
use logcheck::domain::Message;
use logcheck::domain::MessageData;
use logcheck::domain::MessageMetadata;
use logcheck::domain::MessageReadEvent;
use logcheck::domain::MessageWriteEvent;
use logcheck::domain::Producer;
use logcheck::domain::TestEvent;
use logcheck::domain::TestLogData;
use logcheck::domain::TestLogLine;
use logcheck::domain::TestValidator;
use logcheck::domain::ValidationFailure;
use logcheck::idempotence::ProducerIdempotenceValidator;
use logcheck::integrity::MessageIntegrityValidator;
use logcheck::ordering::ProducerMessageOrderingValidator;
use logcheck::partitioning::ApplicationMessagePartitioningValidator;

fn message(topic: &str, partition: u64, offset: u64, key: Option<&str>, payload: &str) -> Message {
    Message {
        metadata: MessageMetadata {
            topic_name: String::from(topic),
            topic_partition: partition,
            topic_partition_offset: offset,
        },
        data: MessageData { key: key.map(String::from), payload: String::from(payload) },
    }
}

fn read_line(line: u64, consumer: &str, msg: Message) -> TestLogLine {
    TestLogLine {
        line,
        data: TestLogData {
            fields: TestEvent::MessageReadSucceeded(MessageReadEvent {
                consumer: Consumer { id: String::from(consumer) },
                message: msg,
            }),
        },
    }
}

fn write_line(line: u64, producer: &str, msg: Message) -> TestLogLine {
    TestLogLine {
        line,
        data: TestLogData {
            fields: TestEvent::MessageWriteSucceeded(MessageWriteEvent {
                producer: Producer { id: String::from(producer) },
                message: msg,
            }),
        },
    }
}

fn ended_line(line: u64) -> TestLogLine {
    TestLogLine { line, data: TestLogData { fields: TestEvent::WorkloadEnded } }
}

fn started_line(line: u64) -> TestLogLine {
    TestLogLine { line, data: TestLogData { fields: TestEvent::WorkloadStarted } }
}

fn errors(results: Vec<Result<(), ValidationFailure>>) -> Vec<ValidationFailure> {
    results.into_iter().filter_map(|r| r.err()).collect()
}

#[test]
fn partitioning_violation_scenario() {
    let mut v = ApplicationMessagePartitioningValidator::default();
    let first = v.validate_event(&read_line(1, "c1", message("t", 0, 0, Some("k1"), "a")));
    assert_eq!(first.len(), 1);
    assert!(first[0].is_ok());
    let second = v.validate_event(&read_line(5, "c1", message("t", 1, 1, Some("k1"), "b")));
    let errs = errors(second);
    assert_eq!(errs.len(), 1);
    assert_eq!(errs[0].code, "key-reassigned");
    assert_eq!(errs[0].line, 5);
    assert!(errs[0].error.contains("partition 0"));
    assert!(errs[0].error.contains("line 1"));
}

#[test]
fn partitioning_stable_key_never_flagged() {
    let mut v = ApplicationMessagePartitioningValidator::default();
    for line in 1..6u64 {
        let out = v.validate_event(&read_line(line, "c1", message("t", 2, line, Some("k"), "p")));
        assert!(out.iter().all(|r| r.is_ok()));
    }
    let out = v.validate_event(&read_line(9, "c2", message("u", 7, 0, Some("k"), "p")));
    assert!(out.iter().all(|r| r.is_ok()));
}

#[test]
fn partitioning_ignores_keyless_reads_and_writes() {
    let mut v = ApplicationMessagePartitioningValidator::default();
    let a = v.validate_event(&read_line(1, "c1", message("t", 0, 0, None, "a")));
    assert!(a[0].is_ok());
    let b = v.validate_event(&read_line(2, "c1", message("t", 3, 1, None, "a")));
    assert!(b[0].is_ok());
    let c = v.validate_event(&write_line(3, "p1", message("t", 0, 0, Some("k1"), "a")));
    assert!(c[0].is_ok());
    let d = v.validate_event(&write_line(4, "p1", message("t", 5, 1, Some("k1"), "a")));
    assert!(d[0].is_ok());
}

#[test]
fn partitioning_baseline_stays_after_violation() {
    let mut v = ApplicationMessagePartitioningValidator::default();
    v.validate_event(&read_line(1, "c1", message("t", 0, 0, Some("k1"), "a")));
    let second = errors(v.validate_event(&read_line(2, "c1", message("t", 1, 1, Some("k1"), "a"))));
    assert_eq!(second.len(), 1);
    let third = errors(v.validate_event(&read_line(3, "c1", message("t", 1, 2, Some("k1"), "a"))));
    assert_eq!(third.len(), 1);
    assert!(third[0].error.contains("partition 0"));
    let fourth = v.validate_event(&read_line(4, "c1", message("t", 0, 3, Some("k1"), "a")));
    assert!(fourth[0].is_ok());
}

#[test]
fn integrity_write_never_read_scenario() {
    let mut v = MessageIntegrityValidator::default();
    let w = v.validate_event(&write_line(2, "p1", message("t", 0, 10, None, "A")));
    assert_eq!(w.len(), 1);
    assert!(w[0].is_ok());
    let end = errors(v.validate_event(&ended_line(3)));
    assert_eq!(end.len(), 1);
    assert_eq!(end[0].code, "write-never-read");
    assert_eq!(end[0].line, 2);
    assert!(end[0].error.contains("topic = 't'"));
    assert!(end[0].error.contains("offset = 10"));
}

#[test]
fn integrity_read_never_written() {
    let mut v = MessageIntegrityValidator::default();
    v.validate_event(&read_line(4, "c1", message("t", 1, 7, None, "B")));
    let end = errors(v.validate_event(&ended_line(5)));
    assert_eq!(end.len(), 1);
    assert_eq!(end[0].code, "read-never-written");
    assert_eq!(end[0].line, 4);
}

#[test]
fn integrity_matched_pair_is_silent() {
    let mut v = MessageIntegrityValidator::default();
    let w = v.validate_event(&write_line(1, "p1", message("t", 0, 0, Some("k"), "same")));
    assert!(w[0].is_ok());
    let r = v.validate_event(&read_line(2, "c1", message("t", 0, 0, Some("k"), "same")));
    assert!(r[0].is_ok());
    let end = v.validate_event(&ended_line(3));
    assert!(end.is_empty());
}

#[test]
fn integrity_different_reads() {
    let mut v = MessageIntegrityValidator::default();
    v.validate_event(&read_line(1, "c1", message("t", 0, 0, None, "one")));
    let errs = errors(v.validate_event(&read_line(2, "c2", message("t", 0, 0, None, "two"))));
    assert_eq!(errs.len(), 1);
    assert_eq!(errs[0].code, "different-reads");
    assert_eq!(errs[0].line, 2);
    assert!(errs[0].error.contains("line 1"));
}

#[test]
fn integrity_different_writes() {
    let mut v = MessageIntegrityValidator::default();
    v.validate_event(&write_line(1, "p1", message("t", 0, 0, None, "one")));
    let errs = errors(v.validate_event(&write_line(2, "p1", message("t", 0, 0, None, "two"))));
    assert_eq!(errs.len(), 1);
    assert_eq!(errs[0].code, "different-writes");
    assert_eq!(errs[0].line, 2);
}

#[test]
fn integrity_write_read_different() {
    let mut v = MessageIntegrityValidator::default();
    v.validate_event(&write_line(1, "p1", message("t", 0, 0, None, "written")));
    let errs = errors(v.validate_event(&read_line(2, "c1", message("t", 0, 0, None, "mangled"))));
    assert_eq!(errs.len(), 1);
    assert_eq!(errs[0].code, "write-read-different");
    assert_eq!(errs[0].line, 2);
    assert!(errs[0].error.contains("line 1"));
}

#[test]
fn integrity_read_write_different() {
    let mut v = MessageIntegrityValidator::default();
    v.validate_event(&read_line(1, "c1", message("t", 0, 0, None, "seen")));
    let errs = errors(v.validate_event(&write_line(2, "p1", message("t", 0, 0, None, "stored"))));
    assert_eq!(errs.len(), 1);
    assert_eq!(errs[0].code, "read-write-different");
    assert_eq!(errs[0].line, 2);
}

#[test]
fn integrity_reconciliation_counts_one_sided_slots() {
    let mut v = MessageIntegrityValidator::default();
    // offsets 0 and 1 paired, offset 2 write-only, offset 3 read-only,
    // offset 4 on another topic write-only
    v.validate_event(&write_line(1, "p1", message("t", 0, 0, None, "a")));
    v.validate_event(&read_line(2, "c1", message("t", 0, 0, None, "a")));
    v.validate_event(&read_line(3, "c1", message("t", 0, 1, None, "b")));
    v.validate_event(&write_line(4, "p1", message("t", 0, 1, None, "b")));
    v.validate_event(&write_line(5, "p1", message("t", 0, 2, None, "c")));
    v.validate_event(&read_line(6, "c1", message("t", 0, 3, None, "d")));
    v.validate_event(&write_line(7, "p1", message("u", 1, 4, None, "e")));
    let end = errors(v.validate_event(&ended_line(8)));
    assert_eq!(end.len(), 3);
    let codes: Vec<&str> = end.iter().map(|f| f.code.as_str()).collect();
    assert_eq!(
        codes.iter().filter(|c| **c == "write-never-read").count(),
        2
    );
    assert_eq!(
        codes.iter().filter(|c| **c == "read-never-written").count(),
        1
    );
    // reported at the captured lines of the one-sided observations
    let lines: Vec<u64> = end.iter().map(|f| f.line).collect();
    assert!(lines.contains(&5));
    assert!(lines.contains(&6));
    assert!(lines.contains(&7));
}

#[test]
fn integrity_reconciliation_reports_in_key_order() {
    let mut v = MessageIntegrityValidator::default();
    // insert out of order: the sweep must still report by topic, then
    // partition, then offset
    v.validate_event(&write_line(1, "p1", message("t", 0, 5, None, "a")));
    v.validate_event(&write_line(2, "p1", message("t", 0, 2, None, "b")));
    v.validate_event(&write_line(3, "p1", message("a", 1, 7, None, "c")));
    v.validate_event(&write_line(4, "p1", message("t", 1, 0, None, "d")));
    let end = errors(v.validate_event(&ended_line(9)));
    assert_eq!(end.len(), 4);
    // key order: (a,1,7), (t,0,2), (t,0,5), (t,1,0) — captured lines 3, 2, 1, 4
    let lines: Vec<u64> = end.iter().map(|f| f.line).collect();
    assert_eq!(lines, vec![3, 2, 1, 4]);
}

#[test]
fn idempotence_violation_scenario() {
    let mut v = ProducerIdempotenceValidator::default();
    let first = v.validate_event(&write_line(1, "p1", message("t", 0, 5, None, "X")));
    assert!(first[0].is_ok());
    let errs = errors(v.validate_event(&write_line(2, "p1", message("t", 0, 6, None, "X"))));
    assert_eq!(errs.len(), 1);
    assert_eq!(errs[0].code, "non-idempotent-message-written");
    assert_eq!(errs[0].line, 2);
    assert!(errs[0].error.contains("line 1"));
}

#[test]
fn idempotence_read_violation_code() {
    let mut v = ProducerIdempotenceValidator::default();
    v.validate_event(&read_line(1, "c1", message("t", 0, 5, None, "X")));
    let errs = errors(v.validate_event(&read_line(2, "c2", message("t", 1, 5, None, "X"))));
    assert_eq!(errs.len(), 1);
    assert_eq!(errs[0].code, "non-idempotent-message-read");
}

#[test]
fn idempotence_same_metadata_accepted() {
    let mut v = ProducerIdempotenceValidator::default();
    v.validate_event(&write_line(1, "p1", message("t", 0, 5, None, "X")));
    let again = v.validate_event(&read_line(2, "c1", message("t", 0, 5, None, "X")));
    assert!(again[0].is_ok());
}

#[test]
fn ordering_duplicate_offset_accepted_scenario() {
    let mut v = ProducerMessageOrderingValidator::default();
    let a = v.validate_event(&write_line(1, "p1", message("t", 0, 3, None, "a")));
    assert!(a[0].is_ok());
    let b = v.validate_event(&write_line(2, "p1", message("t", 0, 3, None, "b")));
    assert_eq!(b.len(), 1);
    assert!(b[0].is_ok());
}

#[test]
fn ordering_regression_detected_once_per_dip() {
    let mut v = ProducerMessageOrderingValidator::default();
    // offsets 5, 7, 3, 4: only the drop from 7 to 3 regresses; after the
    // overwrite the cursor is 3, so 4 is accepted
    assert!(v.validate_event(&write_line(1, "p1", message("t", 0, 5, None, "a")))[0].is_ok());
    assert!(v.validate_event(&write_line(2, "p1", message("t", 0, 7, None, "b")))[0].is_ok());
    let errs = errors(v.validate_event(&write_line(3, "p1", message("t", 0, 3, None, "c"))));
    assert_eq!(errs.len(), 1);
    assert_eq!(errs[0].code, "non-monotonic");
    assert_eq!(errs[0].line, 3);
    assert!(errs[0].error.contains("offset 7"));
    assert!(errs[0].error.contains("line 2"));
    let after = v.validate_event(&write_line(4, "p1", message("t", 0, 4, None, "d")));
    assert!(after[0].is_ok());
}

#[test]
fn ordering_distinct_producers_tracked_separately() {
    let mut v = ProducerMessageOrderingValidator::default();
    assert!(v.validate_event(&write_line(1, "p1", message("t", 0, 9, None, "a")))[0].is_ok());
    assert!(v.validate_event(&write_line(2, "p2", message("t", 0, 1, None, "b")))[0].is_ok());
    let errs = errors(v.validate_event(&write_line(3, "p2", message("t", 0, 0, None, "c"))));
    assert_eq!(errs.len(), 1);
}

#[test]
fn validators_ignore_unrelated_events() {
    let mut p = ApplicationMessagePartitioningValidator::default();
    let mut i = MessageIntegrityValidator::default();
    let mut d = ProducerIdempotenceValidator::default();
    let mut o = ProducerMessageOrderingValidator::default();
    let started = started_line(1);
    assert!(p.validate_event(&started)[0].is_ok());
    assert!(i.validate_event(&started)[0].is_ok());
    assert!(d.validate_event(&started)[0].is_ok());
    assert!(o.validate_event(&started)[0].is_ok());
}

#[test]
fn validator_names_are_stable() {
    let p = ApplicationMessagePartitioningValidator::default();
    let i = MessageIntegrityValidator::default();
    let d = ProducerIdempotenceValidator::default();
    let o = ProducerMessageOrderingValidator::default();
    assert_eq!(p.validator_name(), "application-message-partitioning");
    assert_eq!(i.validator_name(), "message-integrity");
    assert_eq!(d.validator_name(), "producer-idempotence");
    assert_eq!(o.validator_name(), "producer-message-ordering");
}
