//! A fixed-capacity buffer that keeps the most recently added values.

use std::collections::VecDeque;
use vstd::prelude::*;
use vstd::std_specs::iter::IteratorSpec;

verus! {

/// The last `n` values of `s` (all of `s` when it holds no more than `n`).
pub open spec fn last_n<T>(s: Seq<T>, n: nat) -> Seq<T> {
    if s.len() <= n {
        s
    } else {
        s.subrange(s.len() - n, s.len() as int)
    }
}

/// A first-in, first-out window of at most `capacity` values: once full,
/// each new value evicts the oldest one.
pub struct CircularBuffer<T> {
    max_size: usize,
    dqueue: VecDeque<T>,
}

impl<T> View for CircularBuffer<T> {
    type V = Seq<T>;

    /// The retained values, oldest first.
    closed spec fn view(&self) -> Seq<T> {
        self.dqueue@
    }
}

impl<T> CircularBuffer<T> {
    /// The buffer holds no more than its capacity.
    pub closed spec fn wf(&self) -> bool {
        self.dqueue@.len() <= self.max_size
    }

    /// The most values the buffer retains.
    pub closed spec fn capacity(&self) -> nat {
        self.max_size as nat
    }

    /// An empty buffer that retains up to `max_size` values; with `max_size`
    /// zero it retains nothing.
    pub fn new(max_size: usize) -> (r: CircularBuffer<T>)
        ensures
            r@ == Seq::<T>::empty(),
            r.capacity() == max_size,
            r.wf(),
    {
        CircularBuffer { max_size: max_size, dqueue: VecDeque::with_capacity(max_size) }
    }

    /// Appends `value`, first evicting the oldest value if the buffer is full.
    pub fn add(&mut self, value: T)
        requires
            old(self).wf(),
        ensures
            final(self).wf(),
            final(self)@ == last_n(old(self)@.push(value), old(self).capacity()),
            final(self).capacity() == old(self).capacity(),
            final(self)@.len() <= final(self).capacity(),
    {
        if self.max_size == 0 {
            return ;
        }
        if self.dqueue.len() == self.max_size {
            self.dqueue.pop_front();
        }
        self.dqueue.push_back(value);
        assert(self.dqueue@ =~= last_n(old(self)@.push(value), old(self).capacity()));
    }

    /// The number of values retained.
    pub fn len(&self) -> (r: usize)
        requires
            self.wf(),
        ensures
            r == self@.len(),
            r <= self.capacity(),
    {
        self.dqueue.len()
    }

    /// The `i`-th retained value, counting from the oldest.
    pub fn get(&self, i: usize) -> (r: &T)
        requires
            i < self@.len(),
        ensures
            *r == self@[i as int],
    {
        &self.dqueue[i]
    }

    /// The retained values, oldest first.
    pub fn iter(&self) -> (r: std::collections::vec_deque::Iter<'_, T>)
        ensures
            r.remaining() == self@.as_ref(),
    {
        self.dqueue.iter()
    }
}

/// What a buffer of capacity `cap` that started empty holds after `items`
/// were added to it in order, one `add` at a time.
pub open spec fn after_adds<T>(cap: nat, items: Seq<T>) -> Seq<T>
    decreases items.len(),
{
    if items.len() == 0 {
        Seq::empty()
    } else {
        last_n(after_adds(cap, items.drop_last()).push(items.last()), cap)
    }
}

/// After any sequence of additions a buffer holds at most `cap` values, and
/// these are exactly the last `cap` values added (all of them, if fewer were
/// added), in the order they arrived.
pub proof fn lemma_capacity<T>(cap: nat, items: Seq<T>)
    ensures
        after_adds(cap, items).len() <= cap,
        after_adds(cap, items) == last_n(items, cap),
    decreases items.len(),
{
    if items.len() > 0 {
        lemma_capacity(cap, items.drop_last());
        assert(items.drop_last().push(items.last()) =~= items);
        assert(after_adds(cap, items) =~= last_n(items, cap));
    }
}

/// Once more than `cap` values `a1..ak` were added, iterating the buffer
/// yields exactly `a(k-cap+1), ..., ak`: the oldest values left first.
pub proof fn lemma_fifo_eviction<T>(cap: nat, items: Seq<T>)
    requires
        items.len() > cap,
    ensures
        after_adds(cap, items) == items.subrange(items.len() - cap, items.len() as int),
        after_adds(cap, items).len() == cap,
{
    lemma_capacity(cap, items);
}

} // verus!
