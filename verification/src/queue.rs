//! Bounded single-producer/single-consumer channel primitive.
//!
//! Every cross-context message of the engine travels through a [`Queue`]:
//! a bounded first-in/first-out buffer whose push is a non-blocking attempt
//! that hands the value back instead of waiting when the queue is full.
//! The queue owns each value from the moment it is pushed until the moment
//! it is popped, so no two sides ever hold the same message at once.

use vstd::prelude::*;

verus! {

/// A bounded FIFO queue of capacity `cap`.
///
/// The view `q@` is the sequence of queued values, oldest first.
pub struct Queue<T> {
    items: Vec<T>,
    cap: usize,
}

impl<T> View for Queue<T> {
    type V = Seq<T>;

    closed spec fn view(&self) -> Seq<T> {
        self.items@
    }
}

impl<T> Queue<T> {
    /// Capacity the queue was created with; pushes beyond it are refused.
    pub closed spec fn cap(&self) -> usize {
        self.cap
    }

    /// Creates an empty queue that will accept at most `cap` values.
    pub fn new(cap: usize) -> (q: Self)
        ensures
            q@ == Seq::<T>::empty(),
            q.cap() == cap,
    {
        Queue { items: Vec::with_capacity(cap), cap }
    }

    /// Number of values currently queued.
    pub fn len(&self) -> (n: usize)
        ensures
            n == self@.len(),
    {
        self.items.len()
    }

    /// True when nothing is queued.
    pub fn is_empty(&self) -> (b: bool)
        ensures
            b <==> self@.len() == 0,
    {
        self.items.len() == 0
    }

    /// Capacity the queue was created with.
    pub fn capacity(&self) -> (c: usize)
        ensures
            c == self.cap(),
    {
        self.cap
    }

    /// Non-blocking push attempt: appends `v` when there is room and
    /// returns `None`; hands `v` back unchanged when the queue is full.
    pub fn try_push(&mut self, v: T) -> (rejected: Option<T>)
        ensures
            final(self).cap() == old(self).cap(),
            old(self)@.len() < old(self).cap() ==> final(self)@ == old(self)@.push(v) && rejected is None,
            old(self)@.len() >= old(self).cap() ==> final(self)@ == old(self)@ && rejected == Some(v),
    {
        if self.items.len() < self.cap {
            self.items.push(v);
            None
        } else {
            Some(v)
        }
    }

    /// Non-blocking pop: removes and returns the oldest value, or returns
    /// `None` when the queue is empty.
    pub fn pop(&mut self) -> (r: Option<T>)
        ensures
            final(self).cap() == old(self).cap(),
            old(self)@.len() == 0 ==> r is None && final(self)@ == old(self)@,
            old(self)@.len() > 0 ==> r == Some(old(self)@[0]) && final(self)@ == old(self)@.drop_first(),
    {
        if self.items.len() > 0 {
            let v = self.items.remove(0);
            proof {
                assert(self.items@ =~= old(self).items@.drop_first());
            }
            Some(v)
        } else {
            None
        }
    }
}

} // verus!
