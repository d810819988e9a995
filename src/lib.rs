//! Core of a QUIC transport endpoint: the frame codec, the per-space
//! reliability engine and the stream sender state machine.

pub mod crypto;
pub mod frame;
pub mod index_deque;
pub mod rtt;
pub mod sender;
pub mod space;
pub mod varint;

