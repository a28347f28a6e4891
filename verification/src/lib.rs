//! Post-hoc correctness checking for event logs of a publish/subscribe
//! messaging system. Validators consume a forward stream of log lines and
//! report violations of partition-assignment stability, end-to-end message
//! integrity, producer idempotence and per-partition write ordering; each
//! validator can checkpoint its state to an opaque text blob and restore it
//! losslessly.

pub mod codec;
pub mod domain;
pub mod idempotence;
pub mod integrity;
pub mod laws;
pub mod order;
pub mod ordering;
pub mod partitioning;
pub mod text;
