//! The transmit queue of one channel: a short first-in, first-out buffer of
//! words between the caller and the state machine.

use vstd::prelude::*;

verus! {

/// Number of words a transmit queue of the engine holds.
pub const QUEUE_DEPTH: usize = 4;

/// Pending words of one channel, oldest first.
pub struct TransmitQueue {
    words: Vec<u32>,
    depth: usize,
}

impl View for TransmitQueue {
    type V = Seq<u32>;

    closed spec fn view(&self) -> Seq<u32> {
        self.words@
    }
}

impl TransmitQueue {
    /// The queue holds no more words than its depth.
    pub closed spec fn wf(self) -> bool {
        self.words@.len() <= self.depth
    }

    /// Number of words the queue can hold.
    pub closed spec fn capacity(self) -> nat {
        self.depth as nat
    }

    /// An empty queue of the given depth.
    pub fn new(depth: usize) -> (r: TransmitQueue)
        ensures
            r.wf(),
            r@ == Seq::<u32>::empty(),
            r.capacity() == depth,
    {
        TransmitQueue { words: Vec::new(), depth }
    }

    /// Number of pending words.
    pub fn len(&self) -> (r: usize)
        ensures
            r == self@.len(),
    {
        self.words.len()
    }

    /// Depth of the queue.
    pub fn depth(&self) -> (r: usize)
        ensures
            r == self.capacity(),
    {
        self.depth
    }

    pub fn is_empty(&self) -> (r: bool)
        ensures
            r == (self@.len() == 0),
    {
        self.words.len() == 0
    }

    pub fn is_full(&self) -> (r: bool)
        ensures
            r == (self@.len() >= self.capacity()),
    {
        self.words.len() >= self.depth
    }

    /// The oldest pending word, if there is one.
    pub fn front(&self) -> (r: Option<u32>)
        ensures
            r == front_of(self@),
    {
        if self.words.len() == 0 {
            None
        } else {
            Some(self.words[0])
        }
    }

    /// Appends `word` if the queue has room, and tells whether it did.
    pub fn submit(&mut self, word: u32) -> (accepted: bool)
        requires
            old(self).wf(),
        ensures
            final(self).wf(),
            accepted == (old(self)@.len() < old(self).capacity()),
            final(self)@ == after_submit(old(self)@, old(self).capacity(), word),
            final(self).capacity() == old(self).capacity(),
    {
        if self.words.len() < self.depth {
            self.words.push(word);
            true
        } else {
            false
        }
    }

    /// Removes the oldest pending word and returns it; `None` when the queue
    /// is empty.
    pub fn take(&mut self) -> (r: Option<u32>)
        requires
            old(self).wf(),
        ensures
            final(self).wf(),
            r == front_of(old(self)@),
            final(self)@ == after_take(old(self)@),
            final(self).capacity() == old(self).capacity(),
    {
        if self.words.len() == 0 {
            None
        } else {
            let word: u32 = self.words.remove(0);
            Some(word)
        }
    }
}

/// A well-formed queue stays within its depth.
pub proof fn lemma_queue_bounded(queue: TransmitQueue)
    requires
        queue.wf(),
    ensures
        queue@.len() <= queue.capacity(),
{
}

/// The oldest word of a queue.
pub open spec fn front_of(pending: Seq<u32>) -> Option<u32> {
    if pending.len() == 0 {
        None
    } else {
        Some(pending[0])
    }
}

/// A queue of depth `capacity` after a submission: the word goes to the back
/// if there is room and is dropped if there is none.
pub open spec fn after_submit(pending: Seq<u32>, capacity: nat, word: u32) -> Seq<u32> {
    if pending.len() < capacity {
        pending.push(word)
    } else {
        pending
    }
}

/// A queue after its oldest word was taken.
pub open spec fn after_take(pending: Seq<u32>) -> Seq<u32> {
    if pending.len() == 0 {
        pending
    } else {
        pending.drop_first()
    }
}

} // verus!
