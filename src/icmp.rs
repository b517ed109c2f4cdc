//! The wire form of a fragment: an ICMP echo message whose identifier is
//! the message id and whose sequence number is the fragment id, followed by
//! the message's fragment count and the fragment's bytes.
//!
//! ```text
//! 0: type   1: code   2..4: checksum   4..6: message id
//! 6..8: fragment id   8..10: fragment count   10..: payload
//! ```
//!
//! Every 16-bit field is big-endian. The checksum is the Internet checksum of
//! the whole message, taken with the checksum field set to zero.

use vstd::prelude::*;

use crate::error::ChatError;
use crate::fragment::{Fragment, FragmentView};

verus! {

/// ICMP type of an Echo Request.
pub const ECHO_REQUEST_TYPE: u8 = 8;

/// ICMP type of an Echo Reply.
pub const ECHO_REPLY_TYPE: u8 = 0;

/// The ICMP echo header: type, code, checksum, identifier, sequence number.
pub const ICMP_HEADER_LEN: usize = 8;

/// The ICMP echo header and the 2-byte fragment count.
pub const FRAME_HEADER_LEN: usize = ICMP_HEADER_LEN + 2;

/// The largest datagram an IPv4 packet can carry.
pub const MAX_DATAGRAM_LEN: usize = 65535;

/// The most application bytes one encoded fragment can carry.
pub const MAX_FRAGMENT_PAYLOAD: usize = MAX_DATAGRAM_LEN - FRAME_HEADER_LEN;

/// The two ICMP message types the protocol uses.
#[derive(Clone, Copy, Debug, PartialEq, Eq, Structural)]
pub enum IcmpKind {
    /// Carries a fragment from its sender.
    EchoRequest,
    /// Mirrors a received fragment back to acknowledge it.
    EchoReply,
}

pub open spec fn type_byte(kind: IcmpKind) -> u8 {
    match kind {
        IcmpKind::EchoRequest => ECHO_REQUEST_TYPE,
        IcmpKind::EchoReply => ECHO_REPLY_TYPE,
    }
}

/// `v` as two big-endian bytes.
pub open spec fn be16(v: u16) -> Seq<u8> {
    seq![(v / 256) as u8, (v % 256) as u8]
}

/// The big-endian 16-bit value at `at`.
pub open spec fn read_be16(b: Seq<u8>, at: int) -> u16 {
    (b[at] as int * 256 + b[at + 1] as int) as u16
}

/// The datagram of `f` with `checksum` in its checksum field.
pub open spec fn frame(kind: IcmpKind, f: FragmentView, checksum: u16) -> Seq<u8> {
    seq![type_byte(kind), 0u8] + be16(checksum) + be16(f.message_id) + be16(f.fragment_id) + be16(
        f.fragment_count,
    ) + f.payload
}

/// The Internet checksum (RFC 1071) of `data`, the 16-bit word at index
/// `skipword` counted as zero.
pub uninterp spec fn internet_checksum(data: Seq<u8>, skipword: usize) -> u16;

/// `b` with its checksum field set to zero.
pub open spec fn with_zero_checksum(b: Seq<u8>) -> Seq<u8> {
    b.update(2, 0u8).update(3, 0u8)
}

/// The datagram that carries `f` as an ICMP message of type `kind`.
pub open spec fn encoded(kind: IcmpKind, f: FragmentView) -> Seq<u8> {
    frame(kind, f, internet_checksum(frame(kind, f, 0), 1))
}

/// Why `b` is not a well-formed fragment datagram, if it is not one. The
/// checks come in this order: a buffer that cannot hold an ICMP header, a
/// checksum mismatch, an ICMP type other than the two echo types, and an
/// echo message too short to carry the fragment count.
pub open spec fn decode_error(b: Seq<u8>) -> Option<ChatError> {
    if b.len() < ICMP_HEADER_LEN || b.len() > MAX_DATAGRAM_LEN {
        Some(ChatError::PacketError)
    } else if read_be16(b, 2) != internet_checksum(with_zero_checksum(b), 1) {
        Some(ChatError::ChecksumMismatch)
    } else if b[0] != ECHO_REQUEST_TYPE && b[0] != ECHO_REPLY_TYPE {
        Some(ChatError::UnsupportedIcmpType)
    } else if b.len() < FRAME_HEADER_LEN {
        Some(ChatError::PacketError)
    } else {
        None
    }
}

/// The echo type of a well-formed datagram.
pub open spec fn decoded_kind(b: Seq<u8>) -> IcmpKind {
    if b[0] == ECHO_REQUEST_TYPE {
        IcmpKind::EchoRequest
    } else {
        IcmpKind::EchoReply
    }
}

/// The fragment carried by a well-formed datagram.
pub open spec fn decoded_fragment(b: Seq<u8>) -> FragmentView {
    FragmentView {
        fragment_id: read_be16(b, 6),
        message_id: read_be16(b, 4),
        fragment_count: read_be16(b, 8),
        payload: b.subrange(FRAME_HEADER_LEN as int, b.len() as int),
    }
}

/// Relies on `pnet::util::checksum`: the Internet checksum of `data` with
/// the word at `skipword` counted as zero, a function of its arguments
/// alone. Its 32-bit running sum cannot overflow for a datagram's length.
#[verifier::external_body]
fn checksum(data: &[u8], skipword: usize) -> (r: u16)
    requires
        data@.len() <= MAX_DATAGRAM_LEN,
    ensures
        r == internet_checksum(data@, skipword),
{
    pnet::util::checksum(data, skipword)
}

/// Appends `v` to `out` as two big-endian bytes.
fn push_be16(out: &mut Vec<u8>, v: u16)
    ensures
        final(out)@ == old(out)@ + be16(v),
{
    out.push((v / 256) as u8);
    out.push((v % 256) as u8);
    assert(final(out)@ =~= old(out)@ + be16(v));
}

/// The big-endian 16-bit value at `at`.
fn get_be16(b: &[u8], at: usize) -> (r: u16)
    requires
        at + 1 < b@.len(),
    ensures
        r == read_be16(b@, at as int),
{
    (b[at] as u16) * 256 + (b[at + 1] as u16)
}

/// The datagram that carries `fragment` as an ICMP message of type `kind`.
pub fn encode_fragment(fragment: &Fragment, kind: IcmpKind) -> (r: Vec<u8>)
    requires
        fragment.payload@.len() <= MAX_FRAGMENT_PAYLOAD,
    ensures
        r@ == encoded(kind, fragment@),
{
    let mut out: Vec<u8> = Vec::with_capacity(FRAME_HEADER_LEN + fragment.payload.len());
    out.push(match kind {
        IcmpKind::EchoRequest => ECHO_REQUEST_TYPE,
        IcmpKind::EchoReply => ECHO_REPLY_TYPE,
    });
    out.push(0);
    push_be16(&mut out, 0);
    push_be16(&mut out, fragment.message_id);
    push_be16(&mut out, fragment.fragment_id);
    push_be16(&mut out, fragment.fragment_count);
    let mut k: usize = 0;
    let ghost header = out@;
    while k < fragment.payload.len()
        invariant
            k <= fragment.payload@.len(),
            out@ == header + fragment.payload@.take(k as int),
        decreases fragment.payload@.len() - k,
    {
        out.push(fragment.payload[k]);
        k = k + 1;
        assert(fragment.payload@.take(k as int) =~= fragment.payload@.take(k - 1) + seq![
            fragment.payload@[k - 1],
        ]);
    }
    assert(fragment.payload@.take(k as int) =~= fragment.payload@);
    assert(out@ =~= frame(kind, fragment@, 0));
    let sum = checksum(out.as_slice(), 1);
    out[2] = (sum / 256) as u8;
    out[3] = (sum % 256) as u8;
    assert(out@ =~= encoded(kind, fragment@));
    out
}

/// Encodes `fragment` as an Echo Request, the datagram that sends it; fails
/// when its payload does not fit in one datagram.
pub fn encode_request_packet_from_fragment(fragment: &Fragment) -> (r: Result<Vec<u8>, ChatError>)
    ensures
        match r {
            Ok(bytes) => fragment.payload@.len() <= MAX_FRAGMENT_PAYLOAD && bytes@ == encoded(
                IcmpKind::EchoRequest,
                fragment@,
            ),
            Err(e) => fragment.payload@.len() > MAX_FRAGMENT_PAYLOAD && e == ChatError::PacketError,
        },
{
    if fragment.payload.len() > MAX_FRAGMENT_PAYLOAD {
        return Err(ChatError::PacketError);
    }
    Ok(encode_fragment(fragment, IcmpKind::EchoRequest))
}

impl Fragment {
    /// This fragment as an Echo Request datagram.
    pub fn to_icmp_request_packet(&self) -> (r: Vec<u8>)
        requires
            self.payload@.len() <= MAX_FRAGMENT_PAYLOAD,
        ensures
            r@ == encoded(IcmpKind::EchoRequest, self@),
    {
        encode_fragment(self, IcmpKind::EchoRequest)
    }

    /// This fragment as an Echo Reply datagram, the acknowledgment of it.
    pub fn to_icmp_reply_packet(&self) -> (r: Vec<u8>)
        requires
            self.payload@.len() <= MAX_FRAGMENT_PAYLOAD,
        ensures
            r@ == encoded(IcmpKind::EchoReply, self@),
    {
        encode_fragment(self, IcmpKind::EchoReply)
    }

    /// Decodes an ICMP datagram into its echo type and the fragment it
    /// carries. Fails, without panicking, with `PacketError` on a buffer
    /// shorter than the ICMP header or longer than a datagram, then with
    /// `ChecksumMismatch`, then with `UnsupportedIcmpType` on any ICMP type
    /// but Echo Request and Reply, and with `PacketError` on an echo message
    /// too short to carry the fragment count.
    pub fn from_icmp_packet(bytes: &[u8]) -> (r: Result<(IcmpKind, Fragment), ChatError>)
        ensures
            match r {
                Ok((kind, f)) => decode_error(bytes@) is None && kind == decoded_kind(bytes@) && f@
                    == decoded_fragment(bytes@),
                Err(e) => decode_error(bytes@) == Some(e),
            },
    {
        let len = bytes.len();
        if len < ICMP_HEADER_LEN || len > MAX_DATAGRAM_LEN {
            return Err(ChatError::PacketError);
        }
        let mut zeroed: Vec<u8> = Vec::with_capacity(len);
        let mut k: usize = 0;
        while k < len
            invariant
                k <= len,
                len == bytes@.len(),
                zeroed@ == bytes@.take(k as int),
            decreases len - k,
        {
            zeroed.push(bytes[k]);
            k = k + 1;
            assert(zeroed@ =~= bytes@.take(k as int));
        }
        zeroed[2] = 0;
        zeroed[3] = 0;
        assert(zeroed@ =~= with_zero_checksum(bytes@));
        let computed = checksum(zeroed.as_slice(), 1);
        if get_be16(bytes, 2) != computed {
            return Err(ChatError::ChecksumMismatch);
        }
        let kind = if bytes[0] == ECHO_REQUEST_TYPE {
            IcmpKind::EchoRequest
        } else if bytes[0] == ECHO_REPLY_TYPE {
            IcmpKind::EchoReply
        } else {
            return Err(ChatError::UnsupportedIcmpType);
        };
        if len < FRAME_HEADER_LEN {
            return Err(ChatError::PacketError);
        }
        let mut payload: Vec<u8> = Vec::with_capacity(len - FRAME_HEADER_LEN);
        let mut k: usize = FRAME_HEADER_LEN;
        while k < len
            invariant
                FRAME_HEADER_LEN <= k <= len,
                len == bytes@.len(),
                payload@ == bytes@.subrange(FRAME_HEADER_LEN as int, k as int),
            decreases len - k,
        {
            payload.push(bytes[k]);
            k = k + 1;
            assert(payload@ =~= bytes@.subrange(FRAME_HEADER_LEN as int, k as int));
        }
        let fragment = Fragment::new(get_be16(bytes, 6), get_be16(bytes, 4), get_be16(bytes, 8), payload);
        Ok((kind, fragment))
    }
}

/// Decoding the datagram that encodes a fragment gives the fragment and its
/// echo type back.
pub proof fn lemma_encode_decode(kind: IcmpKind, f: FragmentView)
    requires
        f.payload.len() <= MAX_FRAGMENT_PAYLOAD,
    ensures
        decode_error(encoded(kind, f)) is None,
        decoded_kind(encoded(kind, f)) == kind,
        decoded_fragment(encoded(kind, f)) == f,
{
    let b = encoded(kind, f);
    assert(with_zero_checksum(b) =~= frame(kind, f, 0));
    assert(b.subrange(FRAME_HEADER_LEN as int, b.len() as int) =~= f.payload);
}

/// A datagram whose carried checksum disagrees with its contents, as after a
/// byte of an encoded fragment is corrupted in transit, is rejected as a
/// checksum mismatch and yields no fragment.
pub proof fn lemma_checksum_enforced(kind: IcmpKind, f: FragmentView, i: int, x: u8)
    requires
        f.payload.len() <= MAX_FRAGMENT_PAYLOAD,
        FRAME_HEADER_LEN <= i < encoded(kind, f).len(),
        read_be16(encoded(kind, f).update(i, x), 2) != internet_checksum(
            with_zero_checksum(encoded(kind, f).update(i, x)),
            1,
        ),
    ensures
        decode_error(encoded(kind, f).update(i, x)) == Some(ChatError::ChecksumMismatch),
{
}

} // verus!
