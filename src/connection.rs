//! The protocol state of one peer relationship: the identifier allocator,
//! the outbound messages awaiting acknowledgment and the inbound messages
//! awaiting completion. Each operation takes an event (a payload to send, a
//! datagram that arrived, a retransmission timer that fired) and returns the
//! datagrams to transmit and what to report; the caller owns the transport
//! and the timers.

use vstd::prelude::*;

use std::collections::HashMap;

use crate::error::ChatError;
use crate::fragment::{Fragment, FragmentView, MessageId};
use crate::icmp::{decode_error, decoded_fragment, decoded_kind, encoded, IcmpKind, MAX_FRAGMENT_PAYLOAD};
use crate::ids::IdAllocator;
use crate::message::{all_filled, empty_slots, fragment_count_for, payload_of, place, split_slots, Message};

verus! {

broadcast use vstd::std_specs::hash::group_hash_axioms;

/// Model of an outbound message.
pub struct OutboundView {
    pub slots: Seq<Option<FragmentView>>,
    /// `acked[i]` tells whether fragment `i` has been acknowledged.
    pub acked: Seq<bool>,
    /// How many times the retransmission timer has resent the message.
    pub attempts: nat,
}

/// Model of a connection.
pub struct ConnectionView {
    pub peer: u32,
    pub max_fragment_payload: nat,
    pub max_retries: nat,
    /// The identifiers held by tracked messages.
    pub reserved: Set<MessageId>,
    /// Sent messages that are not yet fully acknowledged.
    pub inflight: Map<MessageId, OutboundView>,
    /// The slots of inbound messages that are not yet complete.
    pub received: Map<MessageId, Seq<Option<FragmentView>>>,
}

/// Slot `i` holds fragment `i` of message `id`, small enough to encode.
pub open spec fn slots_wf(slots: Seq<Option<FragmentView>>, id: MessageId) -> bool {
    forall|i: int|
        0 <= i < slots.len() && (#[trigger] slots[i]) is Some ==> {
            &&& slots[i]->0.fragment_id == i
            &&& slots[i]->0.message_id == id
            &&& slots[i]->0.payload.len() <= MAX_FRAGMENT_PAYLOAD
        }
}

/// Every flag is set.
pub open spec fn all_true(flags: Seq<bool>) -> bool {
    forall|i: int| 0 <= i < flags.len() ==> #[trigger] flags[i]
}

/// The invariant of a connection's model.
pub open spec fn model_wf(v: ConnectionView) -> bool {
    &&& 0 < v.max_fragment_payload <= MAX_FRAGMENT_PAYLOAD
    &&& v.reserved == v.inflight.dom() + v.received.dom()
    &&& v.inflight.dom().disjoint(v.received.dom())
    &&& forall|id: MessageId|
        #[trigger] v.inflight.contains_key(id) ==> {
            let o = v.inflight[id];
            &&& o.slots.len() > 0
            &&& o.acked.len() == o.slots.len()
            &&& all_filled(o.slots)
            &&& slots_wf(o.slots, id)
            &&& !all_true(o.acked)
            &&& o.attempts <= v.max_retries
        }
    &&& forall|id: MessageId|
        #[trigger] v.received.contains_key(id) ==> {
            &&& slots_wf(v.received[id], id)
            &&& !all_filled(v.received[id])
        }
}

/// The Echo Requests that carry the fragments of `slots`, in fragment order.
pub open spec fn request_datagrams(slots: Seq<Option<FragmentView>>) -> Seq<Seq<u8>> {
    Seq::new(slots.len(), |i: int| encoded(IcmpKind::EchoRequest, slots[i]->0))
}

/// The Echo Requests of the fragments among the first `k` that are not
/// acknowledged, in fragment order.
pub open spec fn unacked_datagrams(slots: Seq<Option<FragmentView>>, acked: Seq<bool>, k: nat) -> Seq<Seq<u8>>
    decreases k,
{
    if k == 0 {
        Seq::empty()
    } else {
        let rest = unacked_datagrams(slots, acked, (k - 1) as nat);
        if acked[k - 1] {
            rest
        } else {
            rest.push(encoded(IcmpKind::EchoRequest, slots[k - 1]->0))
        }
    }
}

/// The model after message `id` starts waiting for acknowledgment.
pub open spec fn with_inflight(v: ConnectionView, id: MessageId, o: OutboundView) -> ConnectionView {
    ConnectionView {
        peer: v.peer,
        max_fragment_payload: v.max_fragment_payload,
        max_retries: v.max_retries,
        reserved: v.reserved.insert(id),
        inflight: v.inflight.insert(id, o),
        received: v.received,
    }
}

/// The model after outbound message `id` is dropped and its identifier freed.
pub open spec fn without_inflight(v: ConnectionView, id: MessageId) -> ConnectionView {
    ConnectionView {
        peer: v.peer,
        max_fragment_payload: v.max_fragment_payload,
        max_retries: v.max_retries,
        reserved: v.reserved.remove(id),
        inflight: v.inflight.remove(id),
        received: v.received,
    }
}

/// The model after inbound message `id` gets the slots `s`.
pub open spec fn with_received(v: ConnectionView, id: MessageId, s: Seq<Option<FragmentView>>) -> ConnectionView {
    ConnectionView {
        peer: v.peer,
        max_fragment_payload: v.max_fragment_payload,
        max_retries: v.max_retries,
        reserved: v.reserved.insert(id),
        inflight: v.inflight,
        received: v.received.insert(id, s),
    }
}

/// The model after inbound message `id` is dropped and its identifier freed.
pub open spec fn without_received(v: ConnectionView, id: MessageId) -> ConnectionView {
    ConnectionView {
        peer: v.peer,
        max_fragment_payload: v.max_fragment_payload,
        max_retries: v.max_retries,
        reserved: v.reserved.remove(id),
        inflight: v.inflight,
        received: v.received.remove(id),
    }
}

/// The slots that inbound fragment `f` leads to, or `None` when it is
/// dropped: its position is beyond the message's fragment count, or its
/// identifier is held by an outbound message.
pub open spec fn inbound_slots(v: ConnectionView, f: FragmentView) -> Option<Seq<Option<FragmentView>>> {
    let id = f.message_id;
    if v.received.contains_key(id) {
        if (f.fragment_id as int) < v.received[id].len() {
            Some(place(v.received[id], f))
        } else {
            None
        }
    } else if v.reserved.contains(id) {
        None
    } else if f.fragment_id < f.fragment_count {
        Some(place(empty_slots(f.fragment_count as nat), f))
    } else {
        None
    }
}

/// The model after inbound message `id` reaches the slots `s`: delivered and
/// forgotten when complete, kept otherwise.
pub open spec fn after_inbound(v: ConnectionView, id: MessageId, s: Seq<Option<FragmentView>>) -> ConnectionView {
    if all_filled(s) {
        without_received(v, id)
    } else {
        with_received(v, id, s)
    }
}

/// An acknowledgment of `f` names a fragment of a message in flight.
pub open spec fn ack_applies(v: ConnectionView, f: FragmentView) -> bool {
    &&& v.inflight.contains_key(f.message_id)
    &&& (f.fragment_id as int) < v.inflight[f.message_id].acked.len()
}

/// The acknowledgment flags of `f`'s message once `f` is acknowledged.
pub open spec fn acked_after(v: ConnectionView, f: FragmentView) -> Seq<bool> {
    v.inflight[f.message_id].acked.update(f.fragment_id as int, true)
}

/// The model after the acknowledgment of `f`: the message is done and
/// forgotten once every fragment is acknowledged.
pub open spec fn after_ack(v: ConnectionView, f: FragmentView) -> ConnectionView {
    let id = f.message_id;
    let o = v.inflight[id];
    if all_true(acked_after(v, f)) {
        without_inflight(v, id)
    } else {
        with_inflight(v, id, OutboundView { slots: o.slots, acked: acked_after(v, f), attempts: o.attempts })
    }
}

/// Model of what the expiry of a message's retransmission timer calls for.
pub enum RetryModel {
    /// No such message is in flight: the timer can stop.
    Idle,
    /// Transmit these Echo Requests again.
    Resend(Seq<Seq<u8>>),
    /// The retry budget is spent: the message is dropped and its sender
    /// told that it failed.
    Abandoned,
}

/// The model, and what to do, after the timer of message `id` expires: a
/// message that has been resent `max_retries` times is abandoned and its
/// identifier freed; any other has its unacknowledged fragments resent.
pub open spec fn timeout_step(v: ConnectionView, id: MessageId) -> (ConnectionView, RetryModel) {
    if !v.inflight.contains_key(id) {
        (v, RetryModel::Idle)
    } else {
        let o = v.inflight[id];
        if o.attempts >= v.max_retries {
            (without_inflight(v, id), RetryModel::Abandoned)
        } else {
            (
                with_inflight(
                    v,
                    id,
                    OutboundView { slots: o.slots, acked: o.acked, attempts: o.attempts + 1 },
                ),
                RetryModel::Resend(unacked_datagrams(o.slots, o.acked, o.slots.len())),
            )
        }
    }
}

/// The model after the timer of message `id` expires `k` times in a row.
pub open spec fn after_timeouts(v: ConnectionView, id: MessageId, k: nat) -> ConnectionView
    decreases k,
{
    if k == 0 {
        v
    } else {
        timeout_step(after_timeouts(v, id, (k - 1) as nat), id).0
    }
}

proof fn lemma_timeouts_pending(v: ConnectionView, id: MessageId, k: nat)
    requires
        v.inflight.contains_key(id),
        v.inflight[id].attempts == 0,
        k <= v.max_retries,
    ensures
        after_timeouts(v, id, k).max_retries == v.max_retries,
        after_timeouts(v, id, k).inflight.contains_key(id),
        after_timeouts(v, id, k).inflight[id] == (OutboundView {
            slots: v.inflight[id].slots,
            acked: v.inflight[id].acked,
            attempts: k,
        }),
    decreases k,
{
    if k > 0 {
        lemma_timeouts_pending(v, id, (k - 1) as nat);
    }
}

/// A sent message that no acknowledgment reaches has its fragments resent
/// at each of the first `max_retries` expiries of its timer; at the next
/// one it is abandoned, which reports the failure, and its identifier is
/// free to be reserved again.
pub proof fn lemma_retry_and_release(v: ConnectionView, id: MessageId)
    requires
        v.inflight.contains_key(id),
        v.inflight[id].attempts == 0,
    ensures
        forall|k: nat|
            k < v.max_retries ==> #[trigger] timeout_step(after_timeouts(v, id, k), id).1
                == RetryModel::Resend(
                unacked_datagrams(v.inflight[id].slots, v.inflight[id].acked, v.inflight[id].slots.len()),
            ),
        timeout_step(after_timeouts(v, id, v.max_retries), id).1 == RetryModel::Abandoned,
        !after_timeouts(v, id, v.max_retries + 1).inflight.contains_key(id),
        !after_timeouts(v, id, v.max_retries + 1).reserved.contains(id),
{
    assert forall|k: nat| k < v.max_retries implies #[trigger] timeout_step(after_timeouts(v, id, k), id).1
        == RetryModel::Resend(
        unacked_datagrams(v.inflight[id].slots, v.inflight[id].acked, v.inflight[id].slots.len()),
    ) by {
        lemma_timeouts_pending(v, id, k);
    }
    lemma_timeouts_pending(v, id, v.max_retries);
}

/// What the expiry of a retransmission timer calls for.
pub enum TimerOutcome {
    /// No such message is in flight: the timer can stop.
    Idle,
    /// Transmit these Echo Requests again.
    Resend(Vec<Vec<u8>>),
    /// The retry budget is spent: report the message as failed.
    Abandoned,
}

impl View for TimerOutcome {
    type V = RetryModel;

    open spec fn view(&self) -> RetryModel {
        match self {
            TimerOutcome::Idle => RetryModel::Idle,
            TimerOutcome::Resend(d) => RetryModel::Resend(d@.map_values(|x: Vec<u8>| x@)),
            TimerOutcome::Abandoned => RetryModel::Abandoned,
        }
    }
}

/// What a send hands back: the message's identifier and the Echo Requests
/// to transmit, in fragment order.
pub struct Sent {
    pub message_id: MessageId,
    pub datagrams: Vec<Vec<u8>>,
}

/// What handling one datagram asks of the caller.
pub struct Step {
    /// An Echo Reply to transmit, acknowledging an inbound fragment.
    pub reply: Option<Vec<u8>>,
    /// The payload of an inbound message that has just become complete.
    pub delivered: Option<Vec<u8>>,
    /// An outbound message whose fragments have all been acknowledged.
    pub acknowledged: Option<MessageId>,
}

impl Step {
    pub open spec fn is_quiet(&self) -> bool {
        &&& self.reply is None
        &&& self.delivered is None
        &&& self.acknowledged is None
    }

    /// Nothing to transmit or report.
    pub fn quiet() -> (r: Self)
        ensures
            r.is_quiet(),
    {
        Step { reply: None, delivered: None, acknowledged: None }
    }
}

struct Outbound {
    message: Message,
    acked: Vec<bool>,
    attempts: u32,
}

impl View for Outbound {
    type V = OutboundView;

    closed spec fn view(&self) -> OutboundView {
        OutboundView { slots: self.message.slots(), acked: self.acked@, attempts: self.attempts as nat }
    }
}

pub struct Connection {
    peer: u32,
    max_fragment_payload: usize,
    max_retries: u32,
    ids: IdAllocator,
    inflight: HashMap<MessageId, Outbound>,
    received: HashMap<MessageId, Message>,
}

impl View for Connection {
    type V = ConnectionView;

    closed spec fn view(&self) -> ConnectionView {
        ConnectionView {
            peer: self.peer,
            max_fragment_payload: self.max_fragment_payload as nat,
            max_retries: self.max_retries as nat,
            reserved: self.ids@,
            inflight: self.inflight@.map_values(|o: Outbound| o@),
            received: self.received@.map_values(|m: Message| m.slots()),
        }
    }
}

impl Connection {
    pub closed spec fn wf(&self) -> bool {
        &&& self.ids.wf()
        &&& model_wf(self@)
        &&& forall|id: MessageId|
            #[trigger] self.inflight@.contains_key(id) ==> {
                &&& self.inflight@[id].message.wf()
                &&& self.inflight@[id].message.id() == id
            }
        &&& forall|id: MessageId|
            #[trigger] self.received@.contains_key(id) ==> {
                &&& self.received@[id].wf()
                &&& self.received@[id].id() == id
            }
    }

    /// A well-formed connection's model satisfies the model's invariant.
    pub proof fn lemma_wf_model(&self)
        requires
            self.wf(),
        ensures
            model_wf(self@),
    {
    }

    /// A connection to the host `peer` (an IPv4 address as a 32-bit number)
    /// that splits payloads into fragments of at most `max_fragment_payload`
    /// bytes and resends an unacknowledged message at most `max_retries`
    /// times.
    pub fn new(peer: u32, max_fragment_payload: usize, max_retries: u32) -> (r: Self)
        requires
            0 < max_fragment_payload <= MAX_FRAGMENT_PAYLOAD,
        ensures
            r.wf(),
            r@ == (ConnectionView {
                peer,
                max_fragment_payload: max_fragment_payload as nat,
                max_retries: max_retries as nat,
                reserved: Set::empty(),
                inflight: Map::empty(),
                received: Map::empty(),
            }),
    {
        let r = Connection {
            peer,
            max_fragment_payload,
            max_retries,
            ids: IdAllocator::new(),
            inflight: HashMap::new(),
            received: HashMap::new(),
        };
        assert(r@.inflight =~= Map::empty());
        assert(r@.received =~= Map::empty());
        assert(r@.reserved =~= r@.inflight.dom() + r@.received.dom());
        r
    }

    /// The peer's address.
    pub fn peer(&self) -> (r: u32)
        ensures
            r == self@.peer,
    {
        self.peer
    }

    /// Sends `payload`: reserves the lowest free identifier, splits the
    /// payload into fragments and returns their Echo Requests. The message
    /// then waits for acknowledgment; an empty payload has no fragment and is
    /// done at once. Fails when every identifier is held.
    pub fn send_payload(&mut self, payload: &Vec<u8>) -> (r: Result<Sent, ChatError>)
        requires
            old(self).wf(),
            fragment_count_for(payload@.len(), old(self)@.max_fragment_payload) <= 0xffff,
        ensures
            final(self).wf(),
            match r {
                Ok(sent) => {
                    let id = sent.message_id;
                    let slots = split_slots(id, payload@, old(self)@.max_fragment_payload);
                    &&& !old(self)@.reserved.contains(id)
                    &&& forall|j: MessageId| j < id ==> old(self)@.reserved.contains(j)
                    &&& sent.datagrams@.len() == slots.len()
                    &&& forall|i: int|
                        0 <= i < slots.len() ==> (#[trigger] sent.datagrams@[i])@ == request_datagrams(
                            slots,
                        )[i]
                    &&& final(self)@ == if slots.len() == 0 {
                        old(self)@
                    } else {
                        with_inflight(
                            old(self)@,
                            id,
                            OutboundView {
                                slots,
                                acked: Seq::new(slots.len(), |i: int| false),
                                attempts: 0,
                            },
                        )
                    }
                },
                Err(e) => {
                    &&& e == ChatError::IdSpaceExhausted
                    &&& forall|j: MessageId| old(self)@.reserved.contains(j)
                    &&& final(self)@ == old(self)@
                },
            },
    {
        let id = match self.ids.reserve() {
            Ok(id) => id,
            Err(e) => {
                return Err(e);
            },
        };
        let message = Message::from_payload(id, payload, self.max_fragment_payload);
        proof {
            crate::message::lemma_split_join(id, payload@, self.max_fragment_payload as nat);
        }
        let ghost slots = message.slots();
        let n = message.expected_fragment_count();
        let mut datagrams: Vec<Vec<u8>> = Vec::with_capacity(n);
        let mut acked: Vec<bool> = Vec::with_capacity(n);
        let mut i: usize = 0;
        while i < n
            invariant
                n == slots.len(),
                slots == message.slots(),
                slots == split_slots(id, payload@, self.max_fragment_payload as nat),
                0 < self.max_fragment_payload <= MAX_FRAGMENT_PAYLOAD,
                all_filled(slots),
                forall|k: int| 0 <= k < n ==> (#[trigger] slot_len(slots, k)) <= self.max_fragment_payload,
                i <= n,
                datagrams@.len() == i,
                acked@ == Seq::new(i as nat, |k: int| false),
                forall|k: int| 0 <= k < i ==> (#[trigger] datagrams@[k])@ == request_datagrams(slots)[k],
            decreases n - i,
        {
            assert(slot_len(slots, i as int) <= self.max_fragment_payload);
            match message.fragment(i) {
                Some(f) => {
                    datagrams.push(f.to_icmp_request_packet());
                },
                None => {
                    assert(slots[i as int] is Some);
                },
            }
            acked.push(false);
            i = i + 1;
            assert(acked@ =~= Seq::new(i as nat, |k: int| false));
        }
        if n == 0 {
            self.ids.release(id);
            assert(self.ids@ =~= old(self).ids@);
            return Ok(Sent { message_id: id, datagrams });
        }
        let outbound = Outbound { message, acked, attempts: 0 };
        self.inflight.insert(id, outbound);
        assert(self@.inflight =~= old(self)@.inflight.insert(id, outbound@));
        proof {
            let v = self@;
            assert(v.reserved =~= v.inflight.dom() + v.received.dom());
            assert(!old(self)@.received.contains_key(id));
            assert forall|k: int| 0 <= k < n implies #[trigger] slots[k] is Some && slots[k]->0.fragment_id == k
                && slots[k]->0.message_id == id by {}
            assert(!all_true(outbound@.acked)) by {
                assert(!outbound@.acked[0]);
            }
        }
        Ok(Sent { message_id: id, datagrams })
    }

    /// Handles the expiry of the retransmission timer of message
    /// `message_id`, under the same exclusive access as acknowledgments.
    pub fn on_timeout(&mut self, message_id: MessageId) -> (r: TimerOutcome)
        requires
            old(self).wf(),
        ensures
            final(self).wf(),
            (final(self)@, r@) == timeout_step(old(self)@, message_id),
    {
        let id = message_id;
        if !self.inflight.contains_key(&id) {
            return TimerOutcome::Idle;
        }
        let mut outbound = match self.inflight.remove(&id) {
            Some(o) => o,
            None => {
                return TimerOutcome::Idle;
            },
        };
        assert(outbound@ == old(self)@.inflight[id]);
        assert(old(self)@.inflight.contains_key(id));
        if outbound.attempts >= self.max_retries {
            self.ids.release(id);
            proof {
                assert(self@.inflight =~= old(self)@.inflight.remove(id));
                assert(self@.reserved =~= self@.inflight.dom() + self@.received.dom());
            }
            return TimerOutcome::Abandoned;
        }
        outbound.attempts = outbound.attempts + 1;
        let ghost o = outbound@;
        let n = outbound.acked.len();
        let mut datagrams: Vec<Vec<u8>> = Vec::new();
        let mut i: usize = 0;
        while i < n
            invariant
                o == outbound@,
                n == o.acked.len(),
                o.acked.len() == o.slots.len(),
                all_filled(o.slots),
                slots_wf(o.slots, id),
                i <= n,
                datagrams@.map_values(|x: Vec<u8>| x@) == unacked_datagrams(o.slots, o.acked, i as nat),
            decreases n - i,
        {
            if !outbound.acked[i] {
                assert(o.slots[i as int] is Some);
                match outbound.message.fragment(i) {
                    Some(f) => {
                        datagrams.push(f.to_icmp_request_packet());
                    },
                    None => {},
                }
            }
            i = i + 1;
            assert(datagrams@.map_values(|x: Vec<u8>| x@) =~= unacked_datagrams(o.slots, o.acked, i as nat));
        }
        self.inflight.insert(id, outbound);
        proof {
            assert(self@.inflight =~= old(self)@.inflight.insert(id, o));
            assert(self@.reserved =~= old(self)@.reserved.insert(id));
        }
        TimerOutcome::Resend(datagrams)
    }

    /// Handles one datagram from `source`. A datagram from another host, or
    /// one that does not decode, changes nothing. An Echo Request carries a
    /// fragment of an inbound message: it is stored and mirrored back as an
    /// Echo Reply, and the message's payload is delivered once it is
    /// complete. An Echo Reply acknowledges a fragment of an outbound
    /// message, which is done once all its fragments are acknowledged.
    ///
    /// Inbound and outbound messages share one identifier space, so the
    /// first fragment of an inbound message whose identifier one of this
    /// connection's own sends holds is dropped, unacknowledged. Since both
    /// peers reserve the lowest free identifier, two sends that cross each
    /// other on the wire take the same identifier, each side drops the
    /// other's fragments, and both messages are retried until abandoned. A
    /// fragment resent after its message was delivered opens a new inbound
    /// message under that identifier.
    pub fn handle_datagram(&mut self, source: u32, bytes: &[u8]) -> (r: Step)
        requires
            old(self).wf(),
        ensures
            final(self).wf(),
            source != old(self)@.peer || decode_error(bytes@) is Some ==> final(self)@ == old(self)@
                && r.is_quiet(),
            source == old(self)@.peer && decode_error(bytes@) is None && decoded_kind(bytes@)
                == IcmpKind::EchoRequest ==> inbound_outcome(old(self)@, decoded_fragment(bytes@), final(self)@, r),
            source == old(self)@.peer && decode_error(bytes@) is None && decoded_kind(bytes@)
                == IcmpKind::EchoReply ==> ack_outcome(old(self)@, decoded_fragment(bytes@), final(self)@, r),
    {
        if source != self.peer {
            return Step::quiet();
        }
        let (kind, fragment) = match Fragment::from_icmp_packet(bytes) {
            Ok(decoded) => decoded,
            Err(_) => {
                return Step::quiet();
            },
        };
        match kind {
            IcmpKind::EchoRequest => self.receive_fragment(&fragment),
            IcmpKind::EchoReply => self.acknowledge_fragment(&fragment),
        }
    }

    /// Stores an inbound fragment and acknowledges it.
    fn receive_fragment(&mut self, fragment: &Fragment) -> (r: Step)
        requires
            old(self).wf(),
            fragment.payload@.len() <= MAX_FRAGMENT_PAYLOAD,
        ensures
            final(self).wf(),
            inbound_outcome(old(self)@, fragment@, final(self)@, r),
    {
        let id = fragment.message_id;
        let ghost f = fragment@;
        if self.received.contains_key(&id) {
            let mut message = match self.received.remove(&id) {
                Some(m) => m,
                None => {
                    return Step::quiet();
                },
            };
            assert(message.slots() == old(self)@.received[id]);
            match message.add_fragment(fragment) {
                Ok(()) => {},
                Err(_) => {
                    self.received.insert(id, message);
                    assert(self@.received =~= old(self)@.received);
                    return Step::quiet();
                },
            }
            let reply = fragment.to_icmp_reply_packet();
            if message.contains_all_fragments() {
                let payload = message.to_payload();
                self.ids.release(id);
                proof {
                    assert(self@.received =~= old(self)@.received.remove(id));
                    assert(self@.reserved =~= self@.inflight.dom() + self@.received.dom());
                }
                return Step { reply: Some(reply), delivered: Some(payload), acknowledged: None };
            }
            self.received.insert(id, message);
            proof {
                assert(self@.received =~= old(self)@.received.insert(id, message.slots()));
                assert(self@.reserved =~= old(self)@.reserved.insert(id));
                assert(self@.reserved =~= self@.inflight.dom() + self@.received.dom());
            }
            return Step { reply: Some(reply), delivered: None, acknowledged: None };
        }
        if self.ids.is_reserved(id) || fragment.fragment_id >= fragment.fragment_count {
            return Step::quiet();
        }
        let mut message = Message::new(id, fragment.fragment_count as usize);
        let _ = message.add_fragment(fragment);
        let reply = fragment.to_icmp_reply_packet();
        if message.contains_all_fragments() {
            let payload = message.to_payload();
            proof {
                assert(self@.received =~= old(self)@.received.remove(id));
                assert(self@.reserved =~= old(self)@.reserved.remove(id));
                assert(self@.reserved =~= self@.inflight.dom() + self@.received.dom());
            }
            return Step { reply: Some(reply), delivered: Some(payload), acknowledged: None };
        }
        self.ids.reserve_id(id);
        self.received.insert(id, message);
        proof {
            assert(self@.received =~= old(self)@.received.insert(id, message.slots()));
            assert(self@.reserved =~= self@.inflight.dom() + self@.received.dom());
        }
        Step { reply: Some(reply), delivered: None, acknowledged: None }
    }

    /// Records the acknowledgment of an outbound fragment.
    fn acknowledge_fragment(&mut self, fragment: &Fragment) -> (r: Step)
        requires
            old(self).wf(),
        ensures
            final(self).wf(),
            ack_outcome(old(self)@, fragment@, final(self)@, r),
    {
        let id = fragment.message_id;
        if !self.inflight.contains_key(&id) {
            return Step::quiet();
        }
        let mut outbound = match self.inflight.remove(&id) {
            Some(o) => o,
            None => {
                return Step::quiet();
            },
        };
        let index = fragment.fragment_id as usize;
        if index >= outbound.acked.len() {
            self.inflight.insert(id, outbound);
            assert(self@.inflight =~= old(self)@.inflight);
            return Step::quiet();
        }
        outbound.acked[index] = true;
        if all_set(&outbound.acked) {
            self.ids.release(id);
            proof {
                assert(self@.inflight =~= old(self)@.inflight.remove(id));
                assert(self@.reserved =~= self@.inflight.dom() + self@.received.dom());
            }
            return Step { reply: None, delivered: None, acknowledged: Some(id) };
        }
        self.inflight.insert(id, outbound);
        proof {
            assert(self@.inflight =~= old(self)@.inflight.insert(id, outbound@));
            assert(self@.reserved =~= old(self)@.reserved.insert(id));
        }
        Step { reply: None, delivered: None, acknowledged: None }
    }
}

/// What handling inbound fragment `f` does: a dropped fragment changes
/// nothing; a stored one is mirrored back as an Echo Reply, and the payload
/// is delivered when it completes its message.
pub open spec fn inbound_outcome(v: ConnectionView, f: FragmentView, w: ConnectionView, r: Step) -> bool {
    match inbound_slots(v, f) {
        None => w == v && r.is_quiet(),
        Some(s) => {
            &&& w == after_inbound(v, f.message_id, s)
            &&& r.acknowledged is None
            &&& r.reply is Some && r.reply->0@ == encoded(IcmpKind::EchoReply, f)
            &&& r.delivered is Some <==> all_filled(s)
            &&& all_filled(s) ==> r.delivered->0@ == payload_of(s)
        },
    }
}

/// What handling the acknowledgment of `f` does: one that names no fragment
/// in flight changes nothing; otherwise the fragment is marked, and the
/// message is reported once all its fragments are acknowledged.
pub open spec fn ack_outcome(v: ConnectionView, f: FragmentView, w: ConnectionView, r: Step) -> bool {
    if ack_applies(v, f) {
        &&& w == after_ack(v, f)
        &&& r.reply is None
        &&& r.delivered is None
        &&& r.acknowledged == if all_true(acked_after(v, f)) {
            Some(f.message_id)
        } else {
            None::<MessageId>
        }
    } else {
        w == v && r.is_quiet()
    }
}

/// Whether every flag of `flags` is set.
fn all_set(flags: &Vec<bool>) -> (r: bool)
    ensures
        r == all_true(flags@),
{
    let mut i: usize = 0;
    while i < flags.len()
        invariant
            i <= flags@.len(),
            forall|k: int| 0 <= k < i ==> #[trigger] flags@[k],
        decreases flags@.len() - i,
    {
        if !flags[i] {
            return false;
        }
        i = i + 1;
    }
    true
}

/// No identifier is held by an outbound and an inbound message at once, and
/// each tracked message holds a reserved identifier. Every operation on a
/// connection keeps this.
pub proof fn lemma_id_uniqueness(c: &Connection)
    requires
        c.wf(),
    ensures
        model_wf(c@),
        c@.inflight.dom().disjoint(c@.received.dom()),
        forall|id: MessageId|
            c@.inflight.contains_key(id) || c@.received.contains_key(id) ==> #[trigger] c@.reserved.contains(id),
{
    c.lemma_wf_model();
}

/// The number of bytes in slot `k`.
pub open spec fn slot_len(slots: Seq<Option<FragmentView>>, k: int) -> nat {
    slots[k]->0.payload.len()
}

} // verus!
