//! Minimal LIFO and FIFO sequences used by the traversal algorithms.

use vstd::prelude::*;

verus! {

/// A last-in, first-out sequence. Its view lists the items from the bottom
/// of the stack to the top.
pub struct Stack<T> {
    item: Vec<T>,
}

impl<T> View for Stack<T> {
    type V = Seq<T>;

    closed spec fn view(&self) -> Seq<T> {
        self.item@
    }
}

impl<T> Stack<T> {
    /// An empty stack.
    pub fn new() -> (s: Self)
        ensures
            s@ == Seq::<T>::empty(),
    {
        Self { item: Vec::new() }
    }

    /// Puts `x` on top.
    pub fn push(&mut self, x: T)
        ensures
            final(self)@ == old(self)@.push(x),
    {
        self.item.push(x)
    }

    /// Takes the top item off, or returns `None` and leaves the stack as it
    /// is when there is none.
    pub fn pop(&mut self) -> (top: Option<T>)
        ensures
            match top {
                Some(x) => old(self)@.len() > 0 && x == old(self)@.last() && final(self)@ == old(
                    self,
                )@.drop_last(),
                None => old(self)@.len() == 0 && final(self)@ == old(self)@,
            },
    {
        self.item.pop()
    }

    /// Whether the stack holds no item.
    pub fn empty(&self) -> (b: bool)
        ensures
            b == (self@.len() == 0),
    {
        self.item.len() == 0
    }
}

impl<T> Default for Stack<T> {
    fn default() -> (s: Self)
        ensures
            s@ == Seq::<T>::empty(),
    {
        Stack::new()
    }
}

/// A first-in, first-out sequence. Its view lists the items from the front
/// (next to leave) to the back.
pub struct Queue<T> {
    item: Vec<T>,
}

impl<T> View for Queue<T> {
    type V = Seq<T>;

    closed spec fn view(&self) -> Seq<T> {
        self.item@
    }
}

impl<T> Queue<T> {
    /// An empty queue.
    pub fn new() -> (q: Self)
        ensures
            q@ == Seq::<T>::empty(),
    {
        Self { item: Vec::new() }
    }

    /// Appends `x` at the back.
    pub fn enqueue(&mut self, x: T)
        ensures
            final(self)@ == old(self)@.push(x),
    {
        self.item.push(x);
    }

    /// Removes and returns the item at the front.
    pub fn dequeue(&mut self) -> (front: T)
        requires
            old(self)@.len() > 0,
        ensures
            front == old(self)@[0],
            final(self)@ == old(self)@.subrange(1, old(self)@.len() as int),
    {
        self.item.remove(0)
    }

    /// Whether the queue holds no item.
    pub fn empty(&self) -> (b: bool)
        ensures
            b == (self@.len() == 0),
    {
        self.item.len() == 0
    }
}

impl<T> Default for Queue<T> {
    fn default() -> (q: Self)
        ensures
            q@ == Seq::<T>::empty(),
    {
        Queue::new()
    }
}

} // verus!
