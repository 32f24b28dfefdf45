//! A first-in first-out queue over a vector, and a stack built out of
//! two such queues.

use vstd::prelude::*;

verus! {

/// A first-in first-out queue. The view is the sequence of stored
/// elements, oldest first.
#[derive(Debug)]
pub struct Queue<T> {
    elements: Vec<T>,
}

impl<T> View for Queue<T> {
    type V = Seq<T>;

    closed spec fn view(&self) -> Seq<T> {
        self.elements@
    }
}

impl<T> Queue<T> {
    /// Creates an empty queue.
    pub fn new() -> (q: Queue<T>)
        ensures
            q@ == Seq::<T>::empty(),
    {
        Queue { elements: Vec::new() }
    }

    /// Appends `value` at the back.
    pub fn enqueue(&mut self, value: T)
        ensures
            final(self)@ == old(self)@.push(value),
    {
        self.elements.push(value)
    }

    /// Removes and returns the front element; on an empty queue reports
    /// the error instead.
    pub fn dequeue(&mut self) -> (r: Result<T, &'static str>)
        ensures
            old(self)@.len() == 0 ==> r is Err && final(self)@ == old(self)@,
            old(self)@.len() > 0 ==> (r matches Ok(v) && v == old(self)@[0]) && final(self)@
                == old(self)@.drop_first(),
            r is Err ==> (r matches Err(m) && m@ == "Queue is empty"@),
    {
        if self.elements.len() > 0 {
            let v = self.elements.remove(0usize);
            proof {
                assert(self@ =~= old(self)@.drop_first());
            }
            Ok(v)
        } else {
            Err("Queue is empty")
        }
    }

    /// Returns the front element without removing it; on an empty queue
    /// reports the error instead.
    pub fn peek(&self) -> (r: Result<&T, &'static str>)
        ensures
            self@.len() == 0 ==> r is Err && (r matches Err(m) && m@ == "Queue is empty"@),
            self@.len() > 0 ==> (r matches Ok(v) && *v == self@[0]),
    {
        if self.elements.len() > 0 {
            Ok(&self.elements[0])
        } else {
            Err("Queue is empty")
        }
    }

    /// The number of stored elements.
    pub fn size(&self) -> (n: usize)
        ensures
            n == self@.len(),
    {
        self.elements.len()
    }

    /// Whether no element is stored.
    pub fn is_empty(&self) -> (b: bool)
        ensures
            b == (self@.len() == 0),
    {
        self.elements.len() == 0
    }
}

impl<T> Default for Queue<T> {
    fn default() -> (q: Queue<T>)
        ensures
            q@ == Seq::<T>::empty(),
    {
        Queue { elements: Vec::new() }
    }
}

/// A last-in first-out stack that keeps its elements in one of two
/// queues: at most one queue is ever occupied between operations. The
/// view is the sequence of stored elements, bottom of the stack first.
#[allow(non_camel_case_types)]
pub struct myStack<T> {
    q1: Queue<T>,
    q2: Queue<T>,
}

impl<T> View for myStack<T> {
    type V = Seq<T>;

    closed spec fn view(&self) -> Seq<T> {
        self.q1@ + self.q2@
    }
}

impl<T> myStack<T> {
    /// Between operations at most one of the two queues holds elements.
    pub closed spec fn wf(self) -> bool {
        self.q1@.len() == 0 || self.q2@.len() == 0
    }

    /// Creates an empty stack.
    pub fn new() -> (s: Self)
        ensures
            s@ == Seq::<T>::empty(),
            s.wf(),
    {
        Self { q1: Queue::<T>::new(), q2: Queue::<T>::new() }
    }

    /// Pushes `elem` on top of the stack.
    pub fn push(&mut self, elem: T)
        requires
            old(self).wf(),
        ensures
            final(self).wf(),
            final(self)@ == old(self)@.push(elem),
    {
        if !self.q1.is_empty() {
            self.q1.enqueue(elem);
            proof {
                assert(self@ =~= old(self)@.push(elem));
            }
        } else {
            self.q2.enqueue(elem);
            proof {
                assert(self@ =~= old(self)@.push(elem));
            }
        }
    }

    /// Removes and returns the top of the stack; on an empty stack
    /// reports the error instead.
    pub fn pop(&mut self) -> (r: Result<T, &'static str>)
        requires
            old(self).wf(),
        ensures
            final(self).wf(),
            old(self)@.len() == 0 ==> final(self)@ == old(self)@ && (r matches Err(m) && m@
                == "Stack is empty"@),
            old(self)@.len() > 0 ==> (r matches Ok(v) && v == old(self)@.last()) && final(self)@
                == old(self)@.drop_last(),
    {
        if self.is_empty() {
            return Err("Stack is empty");
        }
        if self.q1.size() > 0 {
            while self.q1.size() > 1
                invariant
                    self.q1@.len() >= 1,
                    self.q2@ + self.q1@ == old(self)@,
                decreases self.q1@.len(),
            {
                if let Ok(elem) = self.q1.dequeue() {
                    self.q2.enqueue(elem);
                }
                proof {
                    assert(self.q2@ + self.q1@ =~= old(self)@);
                }
            }
            let r = self.q1.dequeue();
            proof {
                assert(self@ =~= old(self)@.drop_last());
            }
            r
        } else {
            while self.q2.size() > 1
                invariant
                    self.q2@.len() >= 1,
                    self.q1@ + self.q2@ == old(self)@,
                decreases self.q2@.len(),
            {
                if let Ok(elem) = self.q2.dequeue() {
                    self.q1.enqueue(elem);
                }
                proof {
                    assert(self.q1@ + self.q2@ =~= old(self)@);
                }
            }
            let r = self.q2.dequeue();
            proof {
                assert(self@ =~= old(self)@.drop_last());
            }
            r
        }
    }

    /// Whether no element is stored.
    pub fn is_empty(&self) -> (b: bool)
        ensures
            b == (self@.len() == 0),
    {
        self.q1.is_empty() && self.q2.is_empty()
    }
}

} // verus!
