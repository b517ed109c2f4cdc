//! A message: a fixed number of fragment slots, filled at once when the
//! message is split from a payload, or one by one, in any order, when its
//! fragments arrive from the peer.

use vstd::prelude::*;

use crate::error::ChatError;
use crate::fragment::{Fragment, FragmentId, FragmentView, MessageId};

use vstd::arithmetic::div_mod::{lemma_fundamental_div_mod, lemma_fundamental_div_mod_converse};

verus! {

/// Number of fragments that `len` bytes need at `max` bytes per fragment:
/// the ceiling of `len / max`.
pub open spec fn fragment_count_for(len: nat, max: nat) -> nat
    recommends
        max > 0,
{
    ((len + max - 1) as int / max as int) as nat
}

/// The bytes of fragment `i` when `b` is split into pieces of `max` bytes.
pub open spec fn chunk(b: Seq<u8>, max: nat, i: nat) -> Seq<u8> {
    let start = i * max;
    let end = if (i + 1) * max < b.len() { (i + 1) * max } else { b.len() };
    b.subrange(start as int, end as int)
}

/// The slots of the message that `b` is split into.
pub open spec fn split_slots(message_id: MessageId, b: Seq<u8>, max: nat) -> Seq<Option<FragmentView>> {
    let n = fragment_count_for(b.len(), max);
    Seq::new(
        n,
        |i: int|
            Some(
                FragmentView {
                    fragment_id: i as u16,
                    message_id,
                    fragment_count: n as u16,
                    payload: chunk(b, max, i as nat),
                },
            ),
    )
}

/// The bytes a slot contributes to the message's payload.
pub open spec fn slot_bytes(s: Option<FragmentView>) -> Seq<u8> {
    match s {
        Some(f) => f.payload,
        None => Seq::empty(),
    }
}

/// The concatenation of the slots' bytes, in slot (fragment id) order.
pub open spec fn payload_of(slots: Seq<Option<FragmentView>>) -> Seq<u8>
    decreases slots.len(),
{
    if slots.len() == 0 {
        Seq::empty()
    } else {
        payload_of(slots.drop_last()) + slot_bytes(slots.last())
    }
}

/// Every slot holds a fragment.
pub open spec fn all_filled(slots: Seq<Option<FragmentView>>) -> bool {
    forall|i: int| 0 <= i < slots.len() ==> (#[trigger] slots[i]) is Some
}

/// `n` slots, none of them filled.
pub open spec fn empty_slots(n: nat) -> Seq<Option<FragmentView>> {
    Seq::new(n, |i: int| None)
}

/// The slots after fragment `f` is stored at its position, when that
/// position exists.
pub open spec fn place(slots: Seq<Option<FragmentView>>, f: FragmentView) -> Seq<Option<FragmentView>> {
    if (f.fragment_id as int) < slots.len() {
        slots.update(f.fragment_id as int, Some(f))
    } else {
        slots
    }
}

/// The slots after the fragments of `fs` are stored one after another.
pub open spec fn place_all(slots: Seq<Option<FragmentView>>, fs: Seq<FragmentView>) -> Seq<Option<FragmentView>>
    decreases fs.len(),
{
    if fs.len() == 0 {
        slots
    } else {
        place(place_all(slots, fs.drop_last()), fs.last())
    }
}

/// The ceiling division, and the bounds that pin it down.
proof fn lemma_fragment_count(len: nat, max: nat)
    requires
        max > 0,
    ensures
        fragment_count_for(len, max) == len / max + if len % max == 0 { 0nat } else { 1nat },
        fragment_count_for(len, max) * max >= len,
        fragment_count_for(len, max) > 0 ==> (fragment_count_for(len, max) - 1) * max < len,
        len > 0 ==> fragment_count_for(len, max) > 0,
{
    let q = len as int / max as int;
    let r = len as int % max as int;
    lemma_fundamental_div_mod(len as int, max as int);
    assert(len == max * q + r);
    if r == 0 {
        lemma_fundamental_div_mod_converse((len + max - 1) as int, max as int, q, max - 1);
        assert((q - 1) * max == q * max - max) by (nonlinear_arith);
        assert(len > 0 ==> q > 0) by (nonlinear_arith)
            requires
                len == max * q,
                max > 0,
                q >= 0,
        ;
    } else {
        assert((len + max - 1) as int == (q + 1) * max + (r - 1)) by (nonlinear_arith)
            requires
                len == max * q + r,
        ;
        lemma_fundamental_div_mod_converse((len + max - 1) as int, max as int, q + 1, r - 1);
        assert((q + 1) * max == q * max + max) by (nonlinear_arith);
    }
}

/// For a position before the last fragment, the fragment starts inside `b`.
proof fn lemma_chunk_start(len: nat, max: nat, i: nat)
    requires
        max > 0,
        i < fragment_count_for(len, max),
    ensures
        i * max < len,
        (i + 1) * max == i * max + max,
{
    lemma_fragment_count(len, max);
    let n = fragment_count_for(len, max);
    assert(i * max <= (n - 1) * max) by (nonlinear_arith)
        requires
            i <= n - 1,
    ;
    assert((i + 1) * max == i * max + max) by (nonlinear_arith);
}

proof fn lemma_payload_prefix(message_id: MessageId, b: Seq<u8>, max: nat, k: nat)
    requires
        max > 0,
        k <= fragment_count_for(b.len(), max),
    ensures
        payload_of(split_slots(message_id, b, max).take(k as int)) == b.subrange(
            0,
            if k * max < b.len() { (k * max) as int } else { b.len() as int },
        ),
    decreases k,
{
    let s = split_slots(message_id, b, max);
    if k == 0 {
        assert(k * max == 0) by (nonlinear_arith)
            requires
                k == 0,
        ;
        assert(s.take(0) =~= Seq::<Option<FragmentView>>::empty());
        assert(b.subrange(0, 0) =~= Seq::<u8>::empty());
    } else {
        lemma_payload_prefix(message_id, b, max, (k - 1) as nat);
        lemma_chunk_start(b.len(), max, (k - 1) as nat);
        let t = s.take(k as int);
        assert(t.drop_last() =~= s.take(k - 1));
        let start = (k - 1) * max;
        let end = if k * max < b.len() { k * max } else { b.len() };
        assert(((k - 1) as nat + 1) * max == k * max);
        assert(t.last() == s[k - 1]);
        assert(slot_bytes(t.last()) == b.subrange(start as int, end as int));
        assert(payload_of(t.drop_last()) == b.subrange(0, start as int));
        assert(payload_of(t) == payload_of(t.drop_last()) + slot_bytes(t.last()));
        assert(b.subrange(0, start as int) + b.subrange(start as int, end as int) =~= b.subrange(0, end as int));
    }
}

/// Splitting `b` into pieces of at most `max` bytes gives the ceiling of
/// `b.len() / max` fragments, numbered in split order; each holds exactly
/// `max` bytes but the last, which holds what remains; and concatenating
/// them in fragment order gives `b` back. Fragment ids are 16-bit, so the
/// numbering holds as long as the count fits them.
pub proof fn lemma_split_join(message_id: MessageId, b: Seq<u8>, max: nat)
    requires
        max > 0,
    ensures
        ({
            let s = split_slots(message_id, b, max);
            let n = fragment_count_for(b.len(), max);
            &&& s.len() == n
            &&& all_filled(s)
            &&& n <= 0x10000 ==> forall|i: int| 0 <= i < n ==> (#[trigger] s[i])->0.fragment_id == i
            &&& forall|i: int| 0 <= i < n - 1 ==> (#[trigger] slot_bytes(s[i])).len() == max
            &&& forall|i: int| 0 <= i < n ==> (#[trigger] s[i])->0.payload.len() <= max
            &&& n > 0 ==> slot_bytes(s[n - 1]).len() == b.len() - (n - 1) * max
            &&& payload_of(s) == b
        }),
{
    let s = split_slots(message_id, b, max);
    let n = fragment_count_for(b.len(), max);
    lemma_fragment_count(b.len(), max);
    lemma_payload_prefix(message_id, b, max, n);
    assert(s.take(n as int) =~= s);
    assert(b.subrange(0, b.len() as int) =~= b);
    assert forall|i: int| 0 <= i < n - 1 implies (#[trigger] slot_bytes(s[i])).len() == max by {
        lemma_chunk_start(b.len(), max, (i + 1) as nat);
        lemma_chunk_start(b.len(), max, i as nat);
    }
    if n > 0 {
        lemma_chunk_start(b.len(), max, (n - 1) as nat);
    }
    assert forall|i: int| 0 <= i < n implies (#[trigger] s[i])->0.payload.len() <= max by {
        lemma_chunk_start(b.len(), max, i as nat);
    }
}

/// Some position of `p` holds `j`.
pub open spec fn lists(p: Seq<int>, j: int) -> bool {
    exists|k: int| 0 <= k < p.len() && #[trigger] p[k] == j
}

/// `p` lists each of `0..n` exactly once.
pub open spec fn is_permutation(p: Seq<int>, n: nat) -> bool {
    &&& p.len() == n
    &&& forall|k: int| 0 <= k < n ==> 0 <= #[trigger] p[k] < n
    &&& forall|k1: int, k2: int| 0 <= k1 < k2 < n ==> #[trigger] p[k1] != #[trigger] p[k2]
    &&& forall|j: int| 0 <= j < n ==> #[trigger] lists(p, j)
}

/// Storing fragments with pairwise distinct ids, each within range, fills
/// exactly their slots with them and leaves the other slots as they were.
proof fn lemma_place_all_distinct(s: Seq<Option<FragmentView>>, fs: Seq<FragmentView>)
    requires
        forall|k: int| 0 <= k < fs.len() ==> (#[trigger] fs[k]).fragment_id < s.len(),
        forall|k1: int, k2: int|
            0 <= k1 < fs.len() && 0 <= k2 < fs.len() && k1 != k2
                ==> (#[trigger] fs[k1]).fragment_id != (#[trigger] fs[k2]).fragment_id,
    ensures
        place_all(s, fs).len() == s.len(),
        forall|k: int|
            0 <= k < fs.len() ==> place_all(s, fs)[(#[trigger] fs[k]).fragment_id as int] == Some(fs[k]),
        forall|j: int|
            0 <= j < s.len() && (forall|k: int| 0 <= k < fs.len() ==> (#[trigger] fs[k]).fragment_id != j)
                ==> #[trigger] place_all(s, fs)[j] == s[j],
    decreases fs.len(),
{
    if fs.len() > 0 {
        let init = fs.drop_last();
        lemma_place_all_distinct(s, init);
        let f = fs.last();
        assert forall|k: int| 0 <= k < init.len() implies (#[trigger] init[k]).fragment_id != f.fragment_id by {
            assert(init[k] == fs[k]);
        }
        assert forall|j: int|
            0 <= j < s.len() && (forall|k: int| 0 <= k < fs.len() ==> (#[trigger] fs[k]).fragment_id != j)
            implies #[trigger] place_all(s, fs)[j] == s[j] by {
            assert forall|k: int| 0 <= k < init.len() implies (#[trigger] init[k]).fragment_id != j by {
                assert(init[k] == fs[k]);
            }
            assert(fs[fs.len() - 1] == f);
        }
        assert forall|k: int| 0 <= k < fs.len() implies place_all(s, fs)[(#[trigger] fs[k]).fragment_id as int]
            == Some(fs[k]) by {
            if k < fs.len() - 1 {
                assert(init[k] == fs[k]);
            }
        }
    }
}

/// Delivering a message's fragments in any order fills the slots exactly as
/// delivering them in fragment id order does; the message is then complete
/// and its reassembled payload is the same.
pub proof fn lemma_order_independence(n: nat, fs: Seq<FragmentView>, p: Seq<int>)
    requires
        fs.len() == n,
        forall|i: int| 0 <= i < n ==> (#[trigger] fs[i]).fragment_id == i,
        is_permutation(p, n),
    ensures
        place_all(empty_slots(n), p.map_values(|k: int| fs[k])) == place_all(empty_slots(n), fs),
        all_filled(place_all(empty_slots(n), p.map_values(|k: int| fs[k]))),
        payload_of(place_all(empty_slots(n), p.map_values(|k: int| fs[k]))) == payload_of(
            place_all(empty_slots(n), fs),
        ),
{
    let q = p.map_values(|k: int| fs[k]);
    let e = empty_slots(n);
    assert forall|k: int| 0 <= k < q.len() implies (#[trigger] q[k]).fragment_id < e.len() by {
        assert(0 <= p[k] < n);
    }
    assert forall|k1: int, k2: int|
        0 <= k1 < q.len() && 0 <= k2 < q.len() && k1 != k2
        implies (#[trigger] q[k1]).fragment_id != (#[trigger] q[k2]).fragment_id by {
        if k1 < k2 {
            assert(p[k1] != p[k2]);
        } else {
            assert(p[k2] != p[k1]);
        }
    }
    lemma_place_all_distinct(e, q);
    lemma_place_all_distinct(e, fs);
    let a = place_all(e, q);
    let b = place_all(e, fs);
    assert forall|j: int| 0 <= j < n implies a[j] == Some(fs[j]) && b[j] == Some(fs[j]) by {
        assert(lists(p, j));
        let k = choose|k: int| 0 <= k < p.len() && #[trigger] p[k] == j;
        assert(q[k] == fs[j]);
        assert(fs[j].fragment_id == j);
    }
    assert(a =~= b);
}

/// Storing the same fragment twice leaves the slots, and so the completion
/// and the reassembled payload, as storing it once does.
pub proof fn lemma_idempotent_fragment(s: Seq<Option<FragmentView>>, f: FragmentView)
    ensures
        place(place(s, f), f) == place(s, f),
        all_filled(place(place(s, f), f)) == all_filled(place(s, f)),
        payload_of(place(place(s, f), f)) == payload_of(place(s, f)),
{
    assert(place(place(s, f), f) =~= place(s, f));
}

pub struct Message {
    message_id: MessageId,
    /// Slot `i` holds the fragment whose id is `i`, once it is known.
    fragments: Vec<Option<Fragment>>,
}

impl Message {
    /// The identifier of the message.
    pub closed spec fn id(&self) -> MessageId {
        self.message_id
    }

    /// The model of the slots, in fragment id order.
    pub closed spec fn slots(&self) -> Seq<Option<FragmentView>> {
        Seq::new(
            self.fragments@.len(),
            |i: int|
                match self.fragments@[i] {
                    Some(f) => Some(f@),
                    None => None,
                },
        )
    }

    /// Each filled slot holds the fragment whose id is the slot's position.
    pub open spec fn wf(&self) -> bool {
        forall|i: int|
            0 <= i < self.slots().len() && (#[trigger] self.slots()[i]) is Some
                ==> self.slots()[i]->0.fragment_id == i
    }

    /// An empty message that waits for `num_fragments` fragments.
    pub fn new(message_id: MessageId, num_fragments: usize) -> (r: Self)
        ensures
            r.wf(),
            r.id() == message_id,
            r.slots() == empty_slots(num_fragments as nat),
    {
        let mut fragments: Vec<Option<Fragment>> = Vec::with_capacity(num_fragments);
        let mut i: usize = 0;
        while i < num_fragments
            invariant
                i <= num_fragments,
                fragments@.len() == i,
                forall|j: int| 0 <= j < i ==> (#[trigger] fragments@[j]) is None,
            decreases num_fragments - i,
        {
            fragments.push(None);
            i = i + 1;
        }
        let r = Message { message_id, fragments };
        assert(r.slots() =~= empty_slots(num_fragments as nat));
        r
    }

    /// Splits `payload` into fragments of at most `max_fragment_payload`
    /// bytes, numbered in split order; the message is complete at once.
    pub fn from_payload(message_id: MessageId, payload: &Vec<u8>, max_fragment_payload: usize) -> (r: Self)
        requires
            max_fragment_payload > 0,
            fragment_count_for(payload@.len(), max_fragment_payload as nat) <= 0xffff,
        ensures
            r.wf(),
            r.id() == message_id,
            r.slots() == split_slots(message_id, payload@, max_fragment_payload as nat),
    {
        let len = payload.len();
        let max = max_fragment_payload;
        proof {
            lemma_fragment_count(len as nat, max as nat);
        }
        let q = len / max;
        let n: usize = if len % max == 0 { q } else { q + 1 };
        let ghost spec_slots = split_slots(message_id, payload@, max as nat);
        let count = n as u16;
        let mut fragments: Vec<Option<Fragment>> = Vec::with_capacity(n);
        let mut i: usize = 0;
        while i < n
            invariant
                n == fragment_count_for(len as nat, max as nat),
                n <= 0xffff,
                count == n,
                len == payload@.len(),
                max == max_fragment_payload,
                max > 0,
                i <= n,
                fragments@.len() == i,
                spec_slots == split_slots(message_id, payload@, max as nat),
                forall|j: int|
                    0 <= j < i ==> match #[trigger] fragments@[j] {
                        Some(f) => Some(f@) == spec_slots[j],
                        None => false,
                    },
            decreases n - i,
        {
            proof {
                lemma_chunk_start(len as nat, max as nat, i as nat);
            }
            let start = i * max;
            let end = if len - start > max { start + max } else { len };
            let bytes = copy_range(payload, start, end);
            fragments.push(Some(Fragment::new(i as FragmentId, message_id, count, bytes)));
            i = i + 1;
        }
        let r = Message { message_id, fragments };
        assert(r.slots() =~= spec_slots);
        r
    }

    pub fn message_id(&self) -> (r: MessageId)
        ensures
            r == self.id(),
    {
        self.message_id
    }

    /// The number of fragment slots.
    pub fn expected_fragment_count(&self) -> (r: usize)
        ensures
            r == self.slots().len(),
    {
        self.fragments.len()
    }

    /// The fragment in slot `i`, if it has arrived.
    pub fn fragment(&self, i: usize) -> (r: Option<&Fragment>)
        requires
            i < self.slots().len(),
        ensures
            match r {
                Some(f) => self.slots()[i as int] == Some(f@),
                None => self.slots()[i as int] is None,
            },
    {
        self.fragments[i].as_ref()
    }

    /// Whether every slot is filled.
    pub fn contains_all_fragments(&self) -> (r: bool)
        ensures
            r == all_filled(self.slots()),
    {
        let mut i: usize = 0;
        while i < self.fragments.len()
            invariant
                i <= self.fragments@.len(),
                forall|j: int| 0 <= j < i ==> (#[trigger] self.slots()[j]) is Some,
            decreases self.fragments@.len() - i,
        {
            if self.fragments[i].is_none() {
                assert(self.slots()[i as int] is None);
                return false;
            }
            i = i + 1;
        }
        true
    }

    /// Stores `fragment` in the slot of its fragment id, replacing what the
    /// slot held; fails when the message has no such slot.
    pub fn add_fragment(&mut self, fragment: &Fragment) -> (r: Result<(), ChatError>)
        requires
            old(self).wf(),
        ensures
            final(self).wf(),
            final(self).id() == old(self).id(),
            final(self).slots() == place(old(self).slots(), fragment@),
            r is Ok <==> (fragment.fragment_id as int) < old(self).slots().len(),
            r is Err ==> r == Err::<(), ChatError>(ChatError::FragmentIndexOutOfRange),
    {
        let index = fragment.fragment_id as usize;
        if index >= self.fragments.len() {
            return Err(ChatError::FragmentIndexOutOfRange);
        }
        let copy = fragment.duplicate();
        self.fragments[index] = Some(copy);
        assert(self.slots() =~= place(old(self).slots(), fragment@));
        Ok(())
    }

    /// The slots' bytes concatenated in fragment id order, whatever order
    /// the fragments arrived in.
    pub fn to_payload(&self) -> (r: Vec<u8>)
        ensures
            r@ == payload_of(self.slots()),
    {
        let mut out: Vec<u8> = Vec::new();
        let mut i: usize = 0;
        while i < self.fragments.len()
            invariant
                i <= self.fragments@.len(),
                out@ == payload_of(self.slots().take(i as int)),
            decreases self.fragments@.len() - i,
        {
            assert(self.slots().take(i + 1).drop_last() =~= self.slots().take(i as int));
            match &self.fragments[i] {
                Some(f) => {
                    let mut k: usize = 0;
                    let ghost before = out@;
                    while k < f.payload.len()
                        invariant
                            k <= f.payload@.len(),
                            out@ == before + f.payload@.take(k as int),
                        decreases f.payload@.len() - k,
                    {
                        out.push(f.payload[k]);
                        k = k + 1;
                        assert(f.payload@.take(k as int) =~= f.payload@.take(k - 1) + seq![f.payload@[k - 1]]);
                    }
                    assert(f.payload@.take(k as int) =~= f.payload@);
                },
                None => {
                    assert(slot_bytes(self.slots()[i as int]) =~= Seq::<u8>::empty());
                },
            }
            i = i + 1;
        }
        assert(self.slots().take(i as int) =~= self.slots());
        out
    }
}

/// The bytes of `b` from `start` up to `end`.
fn copy_range(b: &Vec<u8>, start: usize, end: usize) -> (r: Vec<u8>)
    requires
        start <= end <= b@.len(),
    ensures
        r@ == b@.subrange(start as int, end as int),
{
    let mut out: Vec<u8> = Vec::with_capacity(end - start);
    let mut k: usize = start;
    while k < end
        invariant
            start <= k <= end,
            end <= b@.len(),
            out@ == b@.subrange(start as int, k as int),
        decreases end - k,
    {
        out.push(b[k]);
        k = k + 1;
        assert(out@ =~= b@.subrange(start as int, k as int));
    }
    out
}

} // verus!
