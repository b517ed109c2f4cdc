//! The failures that the protocol distinguishes.

use vstd::prelude::*;

verus! {

#[derive(Clone, Copy, Debug, PartialEq, Eq, Structural)]
pub enum ChatError {
    /// The buffer is too short or too long to hold a fragment frame.
    PacketError,
    /// The checksum carried by a datagram disagrees with its contents.
    ChecksumMismatch,
    /// The datagram is an ICMP message other than Echo Request or Echo Reply.
    UnsupportedIcmpType,
    /// A fragment names a position beyond its message's fragment count.
    FragmentIndexOutOfRange,
    /// Every message identifier is held by a tracked message.
    IdSpaceExhausted,
    /// A message went unacknowledged through the whole retry budget.
    RetryExhausted,
    /// The datagram transport failed; the connection must be rebuilt.
    TransportError,
}

} // verus!
