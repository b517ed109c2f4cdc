//! A small reliable-messaging layer tunnelled through ICMP echo datagrams:
//! payloads are split into fragments, framed as Echo Requests, acknowledged
//! by mirrored Echo Replies, and reassembled in fragment order.

pub mod error;
pub mod fragment;
pub mod icmp;
pub mod message;
pub mod ids;
pub mod connection;
