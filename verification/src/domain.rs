//! The event and location model: the typed vocabulary of log events, the
//! value types that identify messages, and the shape of a reported violation.

use vstd::prelude::*;

verus! {

/// A topic is identified by its name.
pub type TopicName = String;

/// Index of a partition within a topic.
pub type TopicPartitionIndex = u64;

/// Offset of a message within a partition.
pub type TopicPartitionOffset = u64;

/// Identifies a message's position in the log; equality is structural.
pub struct MessageMetadata {
    pub topic_name: TopicName,
    pub topic_partition: TopicPartitionIndex,
    pub topic_partition_offset: TopicPartitionOffset,
}

/// Mathematical model of `MessageMetadata`.
#[verifier::ext_equal]
pub struct MetadataView {
    pub topic_name: Seq<char>,
    pub topic_partition: u64,
    pub topic_partition_offset: u64,
}

impl View for MessageMetadata {
    type V = MetadataView;

    open spec fn view(&self) -> MetadataView {
        MetadataView {
            topic_name: self.topic_name@,
            topic_partition: self.topic_partition,
            topic_partition_offset: self.topic_partition_offset,
        }
    }
}

/// Message content; `key` may be absent (keyless messages).
pub struct MessageData {
    pub key: Option<String>,
    pub payload: String,
}

/// Mathematical model of `MessageData`.
#[verifier::ext_equal]
pub struct DataView {
    pub key: Option<Seq<char>>,
    pub payload: Seq<char>,
}

impl View for MessageData {
    type V = DataView;

    open spec fn view(&self) -> DataView {
        DataView {
            key: match self.key {
                Some(k) => Some(k@),
                None => None,
            },
            payload: self.payload@,
        }
    }
}

/// A message: where it sits in the log, and what it carries.
pub struct Message {
    pub metadata: MessageMetadata,
    pub data: MessageData,
}

/// Mathematical model of `Message`.
#[verifier::ext_equal]
pub struct MessageView {
    pub metadata: MetadataView,
    pub data: DataView,
}

impl View for Message {
    type V = MessageView;

    open spec fn view(&self) -> MessageView {
        MessageView { metadata: self.metadata@, data: self.data@ }
    }
}

/// The writing party, identified by a string id.
pub struct Producer {
    pub id: String,
}

/// The reading party, identified by a string id.
pub struct Consumer {
    pub id: String,
}

/// A consumer observed a message.
pub struct MessageReadEvent {
    pub consumer: Consumer,
    pub message: Message,
}

/// A producer durably wrote a message.
pub struct MessageWriteEvent {
    pub producer: Producer,
    pub message: Message,
}

/// One event of the log. The union is forward-compatible: validators ignore
/// variants they do not care about rather than rejecting them.
pub enum TestEvent {
    MessageReadSucceeded(MessageReadEvent),
    MessageWriteSucceeded(MessageWriteEvent),
    WorkloadStarted,
    WorkloadEnded,
}

/// Mathematical model of `TestEvent`.
#[verifier::ext_equal]
pub enum EventView {
    Read { consumer: Seq<char>, message: MessageView },
    Write { producer: Seq<char>, message: MessageView },
    Started,
    Ended,
}

impl View for TestEvent {
    type V = EventView;

    open spec fn view(&self) -> EventView {
        match self {
            TestEvent::MessageReadSucceeded(e) => EventView::Read {
                consumer: e.consumer.id@,
                message: e.message@,
            },
            TestEvent::MessageWriteSucceeded(e) => EventView::Write {
                producer: e.producer.id@,
                message: e.message@,
            },
            TestEvent::WorkloadStarted => EventView::Started,
            TestEvent::WorkloadEnded => EventView::Ended,
        }
    }
}

/// The payload of one parsed log record.
pub struct TestLogData {
    pub fields: TestEvent,
}

/// One parsed log record; `line` is the log's own ordinal and is used
/// verbatim in every failure reported for this record.
pub struct TestLogLine {
    pub line: u64,
    pub data: TestLogData,
}

/// Mathematical model of `TestLogLine`.
#[verifier::ext_equal]
pub struct LineView {
    pub line: u64,
    pub event: EventView,
}

impl View for TestLogLine {
    type V = LineView;

    open spec fn view(&self) -> LineView {
        LineView { line: self.line, event: self.data.fields@ }
    }
}

/// The only failure shape: the log line the violation was detected on, a
/// stable machine-readable code, and a human-readable message.
pub struct ValidationFailure {
    pub line: u64,
    pub code: String,
    pub error: String,
}

/// Mathematical model of `ValidationFailure`.
#[verifier::ext_equal]
pub struct FailureView {
    pub line: u64,
    pub code: Seq<char>,
    pub error: Seq<char>,
}

impl View for ValidationFailure {
    type V = FailureView;

    open spec fn view(&self) -> FailureView {
        FailureView { line: self.line, code: self.code@, error: self.error@ }
    }
}

/// Returned by `load_state` when a checkpoint blob is malformed or was
/// produced by a different validator type.
pub struct DeserializationError {}

/// The model of one outcome: `None` stands for `Ok(())`, `Some(f)` for a
/// reported violation.
pub open spec fn outcome_view(r: Result<(), ValidationFailure>) -> Option<FailureView> {
    match r {
        Ok(_) => None,
        Err(f) => Some(f@),
    }
}

/// The model of a sequence of outcomes.
pub open spec fn outcomes_view(s: Seq<Result<(), ValidationFailure>>) -> Seq<Option<FailureView>> {
    s.map_values(|r: Result<(), ValidationFailure>| outcome_view(r))
}

/// The uniform contract every validator implements: identify itself, consume
/// one event and emit zero or more outcomes, and serialize or restore its
/// internal state as an opaque text blob. Events must be fed in increasing
/// `line` order; each implementation states its exact behaviour in the
/// `ensures` of its own impl.
pub trait TestValidator {
    /// Stable, unique identifier for reporting and configuration.
    fn validator_name(&self) -> (r: &'static str);

    /// Consume one log line; the sole mutating entry point.
    fn validate_event(&mut self, log: &TestLogLine) -> (r: Vec<Result<(), ValidationFailure>>);

    /// Replace internal state atomically from a blob previously produced by
    /// `save_state` on the same validator type; fail without mutation on a
    /// malformed or incompatible blob.
    fn load_state(&mut self, data: &str) -> (r: Result<(), DeserializationError>);

    /// Serialize all internal state losslessly into an opaque text blob.
    fn save_state(&self) -> (r: String);
}

} // verus!
