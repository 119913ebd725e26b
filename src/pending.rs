//! The bounded deque of descriptors claimed from the receive ring and not yet
//! handed to the transmit ring.

use arraydeque::{ArrayDeque, Wrapping};
use vstd::prelude::*;

verus! {

/// Number of descriptors the pending deque holds.
pub const PENDING_LEN: usize = 4096;

/// Descriptors claimed from the receive ring, oldest first; each is a frame
/// address and the length of the data in it. Kept in an `arraydeque`
/// ring of fixed capacity that overwrites its oldest item when full.
#[verifier::external_body]
pub struct PendingDeque {
    items: ArrayDeque<[(u64, u32); 4096], Wrapping>,
}

/// What a pending deque holds, front first.
pub uninterp spec fn pending_items(d: PendingDeque) -> Seq<(u64, u32)>;

impl PendingDeque {
    pub open spec fn view(&self) -> Seq<(u64, u32)> {
        pending_items(*self)
    }

    /// Relies on `ArrayDeque::new`: a new deque is empty.
    #[verifier::external_body]
    pub fn new() -> (r: PendingDeque)
        ensures
            pending_items(r) == Seq::<(u64, u32)>::empty(),
    {
        PendingDeque { items: ArrayDeque::new() }
    }

    /// Relies on `ArrayDeque::len`: the number of items held, at most the
    /// array's size.
    #[verifier::external_body]
    pub fn len(&self) -> (r: usize)
        ensures
            r as int == pending_items(*self).len(),
            r <= PENDING_LEN,
    {
        self.items.len()
    }

    /// Relies on `ArrayDeque::front`: the first item, if any.
    #[verifier::external_body]
    pub fn front(&self) -> (r: Option<(u64, u32)>)
        ensures
            pending_items(*self).len() == 0 ==> r is None,
            pending_items(*self).len() > 0 ==> r == Some(pending_items(*self)[0]),
    {
        self.items.front().copied()
    }

    /// Relies on `ArrayDeque::pop_front`: removes and returns the first item.
    #[verifier::external_body]
    pub fn pop_front(&mut self) -> (r: Option<(u64, u32)>)
        ensures
            pending_items(*old(self)).len() == 0 ==> r is None && pending_items(*final(self))
                == pending_items(*old(self)),
            pending_items(*old(self)).len() > 0 ==> r == Some(pending_items(*old(self))[0])
                && pending_items(*final(self)) == pending_items(*old(self)).drop_first(),
    {
        self.items.pop_front()
    }

    /// Relies on `ArrayDeque::<_, Wrapping>::push_front`: puts the item
    /// first; a full deque first takes out its last item and returns it.
    #[verifier::external_body]
    pub fn push_front(&mut self, x: (u64, u32)) -> (r: Option<(u64, u32)>)
        ensures
            pending_items(*old(self)).len() < PENDING_LEN ==> r is None && pending_items(
                *final(self),
            ) == seq![x] + pending_items(*old(self)),
            pending_items(*old(self)).len() >= PENDING_LEN ==> r == Some(
                pending_items(*old(self)).last(),
            ) && pending_items(*final(self)) == seq![x] + pending_items(*old(self)).drop_last(),
    {
        self.items.push_front(x)
    }

    /// Relies on `ArrayDeque::<_, Wrapping>::push_back`: appends the item; a
    /// full deque first takes out its first item and returns it.
    #[verifier::external_body]
    pub fn push_back(&mut self, x: (u64, u32)) -> (r: Option<(u64, u32)>)
        ensures
            pending_items(*old(self)).len() < PENDING_LEN ==> r is None && pending_items(
                *final(self),
            ) == pending_items(*old(self)).push(x),
            pending_items(*old(self)).len() >= PENDING_LEN ==> r == Some(
                pending_items(*old(self))[0],
            ) && pending_items(*final(self)) == pending_items(*old(self)).drop_first().push(x),
    {
        self.items.push_back(x)
    }
}

} // verus!
