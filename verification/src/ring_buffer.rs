//! A buffer that keeps the most recent items, up to a fixed number of them.

use std::collections::VecDeque;
use vstd::prelude::*;

verus! {

/// What a buffer of at most `size` items holds after `item` was put at its
/// front: the item, then what it held, without the last item where the
/// buffer was full. A buffer of size zero holds nothing.
pub open spec fn pushed_front<T>(items: Seq<T>, item: T, size: nat) -> Seq<T> {
    if size == 0 {
        items
    } else if items.len() >= size {
        seq![item] + items.subrange(0, size - 1)
    } else {
        seq![item] + items
    }
}

/// What a buffer of at most `size` items holds after `item` was put at its
/// back: what it held, without the first item where the buffer was full,
/// then the item. A buffer of size zero holds nothing.
pub open spec fn pushed_back<T>(items: Seq<T>, item: T, size: nat) -> Seq<T> {
    if size == 0 {
        items
    } else if items.len() >= size {
        items.subrange(items.len() - size + 1, items.len() as int).push(item)
    } else {
        items.push(item)
    }
}

/// The last `size` items of a sequence, or all of them where there are
/// fewer.
pub open spec fn last_items<T>(items: Seq<T>, size: nat) -> Seq<T> {
    if items.len() > size {
        items.subrange(items.len() - size, items.len() as int)
    } else {
        items
    }
}

/// A buffer of at most `SIZE` items. An item that is put in when the buffer
/// is full pushes out the item at the other end.
#[derive(Debug, Clone)]
pub struct RingBuffer<T, const SIZE: usize>(VecDeque<T>);

impl<T, const SIZE: usize> View for RingBuffer<T, SIZE> {
    type V = Seq<T>;

    /// The items, front first.
    closed spec fn view(&self) -> Seq<T> {
        self.0@
    }
}

impl<T> Default for RingBuffer<T, 10> {
    /// An empty buffer of ten items.
    fn default() -> (ring: Self)
        ensures
            ring.wf(),
            ring@ == Seq::<T>::empty(),
    {
        Self::new()
    }
}

impl<const SIZE: usize, T> RingBuffer<T, SIZE> {
    /// The buffer holds no more items than its size.
    pub open spec fn wf(&self) -> bool {
        self@.len() <= SIZE
    }

    /// An empty buffer.
    pub fn new() -> (ring: Self)
        ensures
            ring.wf(),
            ring@ == Seq::<T>::empty(),
    {
        Self(VecDeque::with_capacity(SIZE))
    }

    /// Puts `item` at the front; where the buffer is full, the item at the
    /// back leaves first.
    pub fn push_front(&mut self, item: T)
        requires
            old(self).wf(),
        ensures
            final(self).wf(),
            final(self)@ == pushed_front(old(self)@, item, SIZE as nat),
    {
        if SIZE == 0 {
            return ;
        }
        if self.0.len() == SIZE {
            self.0.pop_back();
            self.0.push_front(item);
        } else {
            self.0.push_front(item);
        }
    }

    /// Puts `item` at the back; where the buffer is full, the item at the
    /// front leaves first.
    pub fn push_back(&mut self, item: T)
        requires
            old(self).wf(),
        ensures
            final(self).wf(),
            final(self)@ == pushed_back(old(self)@, item, SIZE as nat),
    {
        if SIZE == 0 {
            return ;
        }
        if self.0.len() == SIZE {
            self.0.pop_front();
            self.0.push_back(item);
        } else {
            self.0.push_back(item);
        }
    }

    /// The number of items in the buffer.
    pub fn len(&self) -> (len: usize)
        ensures
            len == self@.len(),
    {
        self.0.len()
    }

    /// The item at place `index`, counted from the front.
    pub fn get(&self, index: usize) -> (item: &T)
        requires
            index < self@.len(),
        ensures
            *item == self@[index as int],
    {
        &self.0[index]
    }

    /// The buffer that putting the items of `items` at the back, one after
    /// the other, leaves: it holds the last `SIZE` of them.
    pub fn from_vec(items: Vec<T>) -> (ring: Self)
        ensures
            ring.wf(),
            ring@ == last_items(items@, SIZE as nat),
    {
        let mut items = items;
        let ghost all = items@;
        let mut ring: VecDeque<T> = VecDeque::with_capacity(SIZE);
        while ring.len() < SIZE && items.len() > 0
            invariant
                ring@.len() <= SIZE,
                items@.len() + ring@.len() <= all.len(),
                items@ == all.subrange(0, items@.len() as int),
                ring@ == all.subrange(items@.len() as int, all.len() as int),
            decreases items.len(),
        {
            let item = items.pop().unwrap();
            ring.push_front(item);
            assert(ring@ =~= all.subrange(items@.len() as int, all.len() as int));
            assert(items@ =~= all.subrange(0, items@.len() as int));
        }
        assert(ring@ =~= last_items(all, SIZE as nat));
        Self(ring)
    }

    /// The items of the buffer, front first.
    pub fn into_vec(self) -> (items: Vec<T>)
        ensures
            items@ == self@,
    {
        let mut ring = self.0;
        let ghost all = ring@;
        let mut items: Vec<T> = Vec::new();
        while ring.len() > 0
            invariant
                items@.len() + ring@.len() == all.len(),
                items@ == all.subrange(0, items@.len() as int),
                ring@ == all.subrange(items@.len() as int, all.len() as int),
            decreases ring.len(),
        {
            let item = ring.pop_front().unwrap();
            items.push(item);
            assert(items@ =~= all.subrange(0, items@.len() as int));
            assert(ring@ =~= all.subrange(items@.len() as int, all.len() as int));
        }
        assert(items@ =~= all);
        items
    }
}

} // verus!
