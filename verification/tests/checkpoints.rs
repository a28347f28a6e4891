use logcheck::domain::Consumer;
use logcheck::domain::Message;
use logcheck::domain::MessageData;
use logcheck::domain::MessageMetadata;
use logcheck::domain::MessageReadEvent;
use logcheck::domain::MessageWriteEvent;
use logcheck::domain::Producer;
use logcheck::domain::TestEvent;
use logcheck::domain::TestLogData;
use logcheck::domain::TestLogLine;
use logcheck::domain::TestValidator;
use logcheck::idempotence::ProducerIdempotenceValidator;
use logcheck::integrity::MessageIntegrityValidator;
use logcheck::ordering::ProducerMessageOrderingValidator;
use logcheck::partitioning::ApplicationMessagePartitioningValidator;

fn message(topic: &str, partition: u64, offset: u64, key: Option<&str>, payload: &str) -> Message {
    Message {
        metadata: MessageMetadata {
            topic_name: String::from(topic),
            topic_partition: partition,
            topic_partition_offset: offset,
        },
        data: MessageData { key: key.map(String::from), payload: String::from(payload) },
    }
}

fn read_line(line: u64, consumer: &str, msg: Message) -> TestLogLine {
    TestLogLine {
        line,
        data: TestLogData {
            fields: TestEvent::MessageReadSucceeded(MessageReadEvent {
                consumer: Consumer { id: String::from(consumer) },
                message: msg,
            }),
        },
    }
}

fn write_line(line: u64, producer: &str, msg: Message) -> TestLogLine {
    TestLogLine {
        line,
        data: TestLogData {
            fields: TestEvent::MessageWriteSucceeded(MessageWriteEvent {
                producer: Producer { id: String::from(producer) },
                message: msg,
            }),
        },
    }
}

fn ended_line(line: u64) -> TestLogLine {
    TestLogLine { line, data: TestLogData { fields: TestEvent::WorkloadEnded } }
}

#[test]
fn partitioning_round_trip_preserves_outcomes() {
    let mut v = ApplicationMessagePartitioningValidator::default();
    v.validate_event(&read_line(1, "c1", message("topic-a", 0, 0, Some("k1"), "x")));
    v.validate_event(&read_line(2, "c1", message("topic-b", 4, 1, Some("k2"), "y")));
    let blob = v.save_state();
    let mut restored = ApplicationMessagePartitioningValidator::default();
    assert!(restored.load_state(&blob).is_ok());
    assert_eq!(restored.save_state(), blob);
    // the restored baseline still flags the reassignment that an
    // uninterrupted run would
    let next = read_line(7, "c2", message("topic-a", 9, 5, Some("k1"), "z"));
    let from_restored = restored.validate_event(&next);
    let from_uninterrupted = v.validate_event(&next);
    assert_eq!(from_restored.len(), from_uninterrupted.len());
    let e1 = from_restored[0].as_ref().unwrap_err();
    let e2 = from_uninterrupted[0].as_ref().unwrap_err();
    assert_eq!(e1.code, e2.code);
    assert_eq!(e1.line, e2.line);
    assert_eq!(e1.error, e2.error);
}

#[test]
fn integrity_round_trip_preserves_outcomes() {
    let mut v = MessageIntegrityValidator::default();
    v.validate_event(&write_line(1, "p1", message("t", 0, 0, Some("k"), "payload one")));
    v.validate_event(&read_line(2, "c1", message("t", 0, 0, Some("k"), "payload one")));
    v.validate_event(&write_line(3, "p1", message("t", 1, 5, None, "lost")));
    let blob = v.save_state();
    let mut restored = MessageIntegrityValidator::default();
    assert!(restored.load_state(&blob).is_ok());
    assert_eq!(restored.save_state(), blob);
    let a = restored.validate_event(&ended_line(9));
    let b = v.validate_event(&ended_line(9));
    assert_eq!(a.len(), b.len());
    assert_eq!(a.len(), 1);
    let e1 = a[0].as_ref().unwrap_err();
    let e2 = b[0].as_ref().unwrap_err();
    assert_eq!(e1.code, "write-never-read");
    assert_eq!(e1.line, e2.line);
    assert_eq!(e1.error, e2.error);
}

#[test]
fn idempotence_round_trip_preserves_outcomes() {
    let mut v = ProducerIdempotenceValidator::default();
    v.validate_event(&write_line(1, "p1", message("t", 0, 5, None, "X")));
    let blob = v.save_state();
    let mut restored = ProducerIdempotenceValidator::default();
    assert!(restored.load_state(&blob).is_ok());
    assert_eq!(restored.save_state(), blob);
    let next = write_line(2, "p1", message("t", 0, 6, None, "X"));
    let a = restored.validate_event(&next);
    let b = v.validate_event(&next);
    let e1 = a[0].as_ref().unwrap_err();
    let e2 = b[0].as_ref().unwrap_err();
    assert_eq!(e1.code, "non-idempotent-message-written");
    assert_eq!(e1.error, e2.error);
}

#[test]
fn ordering_round_trip_preserves_outcomes() {
    let mut v = ProducerMessageOrderingValidator::default();
    v.validate_event(&write_line(1, "p1", message("t", 0, 8, None, "a")));
    let blob = v.save_state();
    let mut restored = ProducerMessageOrderingValidator::default();
    assert!(restored.load_state(&blob).is_ok());
    assert_eq!(restored.save_state(), blob);
    let next = write_line(2, "p1", message("t", 0, 3, None, "b"));
    let a = restored.validate_event(&next);
    let b = v.validate_event(&next);
    let e1 = a[0].as_ref().unwrap_err();
    let e2 = b[0].as_ref().unwrap_err();
    assert_eq!(e1.code, "non-monotonic");
    assert_eq!(e1.error, e2.error);
}

#[test]
fn empty_state_round_trips() {
    let v = ApplicationMessagePartitioningValidator::default();
    let blob = v.save_state();
    let mut restored = ApplicationMessagePartitioningValidator::default();
    assert!(restored.load_state(&blob).is_ok());
    assert_eq!(restored.save_state(), blob);
}

#[test]
fn load_rejects_malformed_blob() {
    let mut v = ApplicationMessagePartitioningValidator::default();
    assert!(v.load_state("not a checkpoint").is_err());
    assert!(v.load_state("").is_err());
    let mut i = MessageIntegrityValidator::default();
    assert!(i.load_state("5;junk").is_err());
}

#[test]
fn load_rejects_cross_type_blob() {
    let mut p = ApplicationMessagePartitioningValidator::default();
    p.validate_event(&read_line(1, "c1", message("t", 0, 0, Some("k"), "x")));
    let blob = p.save_state();
    let mut i = MessageIntegrityValidator::default();
    assert!(i.load_state(&blob).is_err());
    let mut o = ProducerMessageOrderingValidator::default();
    assert!(o.load_state(&blob).is_err());
    let mut d = ProducerIdempotenceValidator::default();
    assert!(d.load_state(&blob).is_err());
}

#[test]
fn integrity_load_accepts_sorted_and_rejects_unsorted_slots() {
    // blobs written out by hand in the wire format: name, count, then per
    // slot its topic, partition, offset and the two optional hash sides
    let sorted = "7+1;message-integrity2;1;a0;0;ns0;1;1;b0;0;ns0;2;";
    let unsorted = "7+1;message-integrity2;1;b0;0;ns0;2;1;a0;0;ns0;1;";
    let mut v = MessageIntegrityValidator::default();
    assert!(v.load_state(sorted).is_ok());
    assert_eq!(v.save_state(), sorted);
    let mut w = MessageIntegrityValidator::default();
    assert!(w.load_state(unsorted).is_err());
}

#[test]
fn integrity_load_rejects_empty_slot() {
    // a slot with neither a read nor a write side recorded cannot arise from
    // any run and is structurally invalid
    let blob = "7+1;message-integrity1;1;a0;0;nn";
    let mut v = MessageIntegrityValidator::default();
    assert!(v.load_state(blob).is_err());
}

#[test]
fn load_rejects_trailing_garbage() {
    let mut v = ProducerIdempotenceValidator::default();
    v.validate_event(&write_line(1, "p1", message("t", 0, 0, None, "X")));
    let mut blob = v.save_state();
    blob.push('!');
    let mut restored = ProducerIdempotenceValidator::default();
    assert!(restored.load_state(&blob).is_err());
}

#[test]
fn load_failure_keeps_existing_state() {
    let mut v = ProducerMessageOrderingValidator::default();
    v.validate_event(&write_line(1, "p1", message("t", 0, 8, None, "a")));
    let before = v.save_state();
    assert!(v.load_state("garbage").is_err());
    assert_eq!(v.save_state(), before);
    // state still behaves as before the failed load
    let errs = v.validate_event(&write_line(2, "p1", message("t", 0, 3, None, "b")));
    assert!(errs[0].is_err());
}

#[test]
fn round_trip_keeps_awkward_strings() {
    let mut v = ProducerIdempotenceValidator::default();
    // payloads and topics that collide with the wire format's own characters
    v.validate_event(&write_line(1, "p1", message("8;+;n s", 0, 0, None, "5;'\"+;")));
    v.validate_event(&write_line(2, "p1", message("t", 1, 1, None, "")));
    let blob = v.save_state();
    let mut restored = ProducerIdempotenceValidator::default();
    assert!(restored.load_state(&blob).is_ok());
    assert_eq!(restored.save_state(), blob);
    // the restored entry must carry the exact payload: the same payload at
    // different metadata is still flagged
    let errs = restored.validate_event(&write_line(3, "p2", message("other", 2, 9, None, "5;'\"+;")));
    assert!(errs[0].is_err());
    assert_eq!(errs[0].as_ref().unwrap_err().code, "non-idempotent-message-written");
}
