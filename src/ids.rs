//! The identifier allocator of one connection: it hands out the lowest
//! message identifier that no tracked message holds, and takes identifiers
//! back when their messages are done.

use vstd::prelude::*;

use crate::error::ChatError;
use crate::fragment::MessageId;

verus! {

/// The number of distinct message identifiers.
pub const ID_SPACE: usize = 0x10000;

pub struct IdAllocator {
    /// `held[i]` tells whether identifier `i` is reserved.
    held: Vec<bool>,
}

impl View for IdAllocator {
    type V = Set<MessageId>;

    closed spec fn view(&self) -> Set<MessageId> {
        Set::new(|id: MessageId| self.held@[id as int])
    }
}

impl IdAllocator {
    pub closed spec fn wf(&self) -> bool {
        self.held@.len() == ID_SPACE
    }

    /// An allocator with every identifier free.
    pub fn new() -> (r: Self)
        ensures
            r.wf(),
            r@ == Set::<MessageId>::empty(),
    {
        let mut held: Vec<bool> = Vec::with_capacity(ID_SPACE);
        let mut i: usize = 0;
        while i < ID_SPACE
            invariant
                i <= ID_SPACE,
                held@.len() == i,
                forall|j: int| 0 <= j < i ==> !(#[trigger] held@[j]),
            decreases ID_SPACE - i,
        {
            held.push(false);
            i = i + 1;
        }
        let r = IdAllocator { held };
        assert(r@ =~= Set::<MessageId>::empty());
        r
    }

    /// Whether `id` is reserved.
    pub fn is_reserved(&self, id: MessageId) -> (r: bool)
        requires
            self.wf(),
        ensures
            r == self@.contains(id),
    {
        self.held[id as usize]
    }

    /// Reserves the lowest free identifier; fails when all are held.
    pub fn reserve(&mut self) -> (r: Result<MessageId, ChatError>)
        requires
            old(self).wf(),
        ensures
            final(self).wf(),
            match r {
                Ok(id) => {
                    &&& !old(self)@.contains(id)
                    &&& forall|j: MessageId| j < id ==> old(self)@.contains(j)
                    &&& final(self)@ == old(self)@.insert(id)
                },
                Err(e) => {
                    &&& e == ChatError::IdSpaceExhausted
                    &&& forall|j: MessageId| old(self)@.contains(j)
                    &&& final(self)@ == old(self)@
                },
            },
    {
        let mut i: usize = 0;
        while i < ID_SPACE
            invariant
                i <= ID_SPACE,
                self.wf(),
                self.held@ == old(self).held@,
                forall|j: MessageId| (j as int) < i ==> old(self)@.contains(j),
            decreases ID_SPACE - i,
        {
            if !self.held[i] {
                self.held[i] = true;
                let id = i as MessageId;
                assert(self@ =~= old(self)@.insert(id));
                return Ok(id);
            }
            i = i + 1;
        }
        Err(ChatError::IdSpaceExhausted)
    }

    /// Reserves `id` itself, an identifier chosen by the peer.
    pub fn reserve_id(&mut self, id: MessageId)
        requires
            old(self).wf(),
        ensures
            final(self).wf(),
            final(self)@ == old(self)@.insert(id),
    {
        self.held[id as usize] = true;
        assert(self@ =~= old(self)@.insert(id));
    }

    /// Frees `id`; freeing an identifier that is not reserved does nothing.
    pub fn release(&mut self, id: MessageId)
        requires
            old(self).wf(),
        ensures
            final(self).wf(),
            final(self)@ == old(self)@.remove(id),
    {
        self.held[id as usize] = false;
        assert(self@ =~= old(self)@.remove(id));
    }
}

} // verus!
