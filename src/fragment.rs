//! The atomic unit of transmission: one slice of a message's payload,
//! addressed by the message's identifier and the slice's index.

use vstd::prelude::*;

verus! {

/// Identifies one message among those a connection currently tracks.
pub type MessageId = u16;

/// Zero-based position of a fragment inside its message.
pub type FragmentId = u16;

/// Default largest number of application bytes carried by one fragment.
pub const ICMP_PAYLOAD_LEN: usize = 32;

/// Mathematical model of a fragment.
pub struct FragmentView {
    pub fragment_id: u16,
    pub message_id: u16,
    pub fragment_count: u16,
    pub payload: Seq<u8>,
}

#[derive(Clone, Debug, PartialEq, Eq)]
pub struct Fragment {
    /// Position of this fragment inside its message.
    pub fragment_id: FragmentId,
    /// Identifier of the message this fragment belongs to.
    pub message_id: MessageId,
    /// Total number of fragments of the message, so that a receiver can size
    /// its reassembly storage from whichever fragment arrives first.
    pub fragment_count: u16,
    /// The application bytes carried by this fragment.
    pub payload: Vec<u8>,
}

impl View for Fragment {
    type V = FragmentView;

    open spec fn view(&self) -> FragmentView {
        FragmentView {
            fragment_id: self.fragment_id,
            message_id: self.message_id,
            fragment_count: self.fragment_count,
            payload: self.payload@,
        }
    }
}

impl Fragment {
    pub fn new(
        fragment_id: FragmentId,
        message_id: MessageId,
        fragment_count: u16,
        payload: Vec<u8>,
    ) -> (r: Self)
        ensures
            r@ == (FragmentView { fragment_id, message_id, fragment_count, payload: payload@ }),
    {
        Fragment { fragment_id, message_id, fragment_count, payload }
    }

    /// A copy of this fragment with the same identifiers and bytes.
    pub fn duplicate(&self) -> (r: Self)
        ensures
            r@ == self@,
    {
        let payload = self.payload.clone();
        proof {
            assert(payload@ =~= self.payload@);
        }
        Fragment {
            fragment_id: self.fragment_id,
            message_id: self.message_id,
            fragment_count: self.fragment_count,
            payload,
        }
    }
}

} // verus!
