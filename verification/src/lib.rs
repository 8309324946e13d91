//! Wire pipeline for teleporting a racing simulator's shared-memory telemetry
//! snapshots across a UDP link: a fragmenting datagram protocol that carries
//! arbitrarily sized compressed snapshots over MTU-sized datagrams and
//! reassembles them on the receiving side, tolerating reorder, loss and
//! duplication within a sequence; the LZ4-block compression stage around the
//! wire; and the decision logic of the source and target drivers.

pub mod compression;
pub mod laws;
pub mod protocol;
pub mod source;
pub mod stats;
pub mod target;
