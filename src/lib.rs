//! A channel-multiplexed transport for keeping networked entities in sync
//! over an unreliable datagram link.
//!
//! - `bits`, `values`, `entity`: the bit layout of payloads, the field
//!   codecs, entity state records and application messages.
//! - `wire`: the datagram header and the ack list.
//! - `fragment`: splitting oversized datagrams and putting them back together.
//! - `reliability`: sequence numbers, retransmission and acknowledgement.
//! - `ordered`: exactly-once, in-order delivery.
//! - `jitter`: the adaptive jitter buffer for live state.
//! - `scheduler`: priority accumulation and the bandwidth-budgeted tick plan.
//! - `connection`: the lifecycle of a peer and the routing of its datagrams.
//! - `voice`: the ordering of voice frames.

pub mod bits;
pub mod connection;
pub mod entity;
pub mod fragment;
pub mod jitter;
pub mod ordered;
pub mod reliability;
pub mod scheduler;
pub mod values;
pub mod voice;
pub mod wire;
