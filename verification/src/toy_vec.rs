//! A growable array that doubles its capacity when it is full.

use vstd::prelude::*;

verus! {

/// A growable array. Its slots are allocated ahead of use; the first `len()`
/// of them hold the elements.
#[derive(Debug)]
pub struct ToyVec<T> {
    elements: Vec<T>,
    len: usize,
}

impl<T> ToyVec<T> {
    #[verifier::type_invariant]
    spec fn slots_hold_elements(self) -> bool {
        self.len <= self.elements.len()
    }

    /// The elements, oldest first.
    pub closed spec fn view(&self) -> Seq<T> {
        self.elements@.subrange(0, self.len as int)
    }

    /// The number of slots.
    pub closed spec fn slots(&self) -> nat {
        self.elements@.len()
    }
}

/// The capacity of a full array after it has grown.
pub open spec fn grown(capacity: nat) -> nat {
    if capacity == 0 {
        1
    } else {
        2 * capacity
    }
}

impl<T: Default> ToyVec<T> {
    /// An empty array without slots.
    pub fn new() -> (r: Self)
        ensures
            r@ == Seq::<T>::empty(),
            r.slots() == 0,
    {
        Self::with_capacity(0)
    }

    /// An empty array with `capacity` slots.
    pub fn with_capacity(capacity: usize) -> (r: Self)
        ensures
            r@ == Seq::<T>::empty(),
            r.slots() == capacity,
    {
        Self { elements: Self::allocate_in_heap(capacity), len: 0 }
    }

    /// `size` slots, each filled with the default value.
    fn allocate_in_heap(size: usize) -> (r: Vec<T>)
        ensures
            r.len() == size,
            forall|i: int| 0 <= i < size ==> call_ensures(T::default, (), #[trigger] r[i]),
    {
        let mut slots: Vec<T> = Vec::new();
        while slots.len() < size
            invariant
                slots.len() <= size,
                forall|i: int| 0 <= i < slots.len() ==> call_ensures(T::default, (), #[trigger] slots[i]),
            decreases size - slots.len(),
        {
            slots.push(T::default());
        }
        slots
    }

    /// The number of elements.
    pub fn len(&self) -> (r: usize)
        ensures
            r == self@.len(),
    {
        proof {
            use_type_invariant(self);
        }
        self.len
    }

    /// Whether the array holds no element.
    pub fn is_empty(&self) -> (r: bool)
        ensures
            r == (self@.len() == 0),
    {
        proof {
            use_type_invariant(self);
        }
        self.len == 0
    }

    /// The number of slots: how many elements fit before the array grows.
    pub fn capacity(&self) -> (r: usize)
        ensures
            r == self.slots(),
    {
        self.elements.len()
    }

    /// Appends an element. A full array grows first: to one slot if it had
    /// none, to twice its slots otherwise.
    pub fn push(&mut self, element: T)
        requires
            old(self)@.len() == old(self).slots() ==> grown(old(self).slots()) <= usize::MAX,
        ensures
            final(self)@ == old(self)@.push(element),
            final(self).slots() == if old(self)@.len() == old(self).slots() {
                grown(old(self).slots())
            } else {
                old(self).slots()
            },
    {
        proof {
            use_type_invariant(&*self);
        }
        if self.len == self.capacity() {
            self.grow()
        }
        proof {
            use_type_invariant(&*self);
        }
        let ghost before = self@;
        self.elements[self.len] = element;
        self.len += 1;
        assert(self@ =~= before.push(element));
    }

    /// Gives the array one slot if it had none, and twice its slots
    /// otherwise. The elements stay.
    fn grow(&mut self)
        requires
            grown(old(self).slots()) <= usize::MAX,
        ensures
            final(self)@ == old(self)@,
            final(self).slots() == grown(old(self).slots()),
    {
        proof {
            use_type_invariant(&*self);
        }
        if self.capacity() == 0 {
            self.elements = Self::allocate_in_heap(1);
            assert(self@ =~= old(self)@);
        } else {
            let mut old_elements = Self::allocate_in_heap(self.capacity() * 2);
            core::mem::swap(&mut self.elements, &mut old_elements);
            let ghost moved = old_elements@;
            let mut i: usize = old_elements.len();
            while i > 0
                invariant
                    i == old_elements.len(),
                    i <= moved.len(),
                    old_elements@ == moved.subrange(0, i as int),
                    self.elements.len() == 2 * moved.len(),
                    self.len == old(self).len,
                    self.len <= moved.len(),
                    forall|j: int| i <= j < moved.len() ==> self.elements[j] == moved[j],
                decreases i,
            {
                i -= 1;
                let elem = old_elements.pop().unwrap();
                self.elements[i] = elem;
            }
            assert(self@ =~= old(self)@);
        }
    }

    /// Removes the last element and returns it, or `None` if there is none.
    pub fn pop(&mut self) -> (r: Option<T>)
        ensures
            old(self)@.len() == 0 ==> r is None && final(self)@ == old(self)@,
            old(self)@.len() > 0 ==> r == Some(old(self)@.last()) && final(self)@ == old(
                self,
            )@.drop_last(),
            final(self).slots() == old(self).slots(),
    {
        proof {
            use_type_invariant(&*self);
        }
        if self.len == 0 {
            None
        } else {
            self.len -= 1;
            let mut elem = T::default();
            core::mem::swap(&mut self.elements[self.len], &mut elem);
            assert(self@ =~= old(self)@.drop_last());
            Some(elem)
        }
    }

    /// The element at `index`, or `None` behind the last element.
    pub fn get(&self, index: usize) -> (r: Option<&T>)
        ensures
            index < self@.len() ==> r == Some(&self@[index as int]),
            index >= self@.len() ==> r is None,
    {
        proof {
            use_type_invariant(self);
        }
        if index < self.len() {
            Some(&self.elements[index])
        } else {
            None
        }
    }

    /// The element at `index`, or `default` behind the last element.
    pub fn get_or<'a, 'b>(&'a self, index: usize, default: &'b T) -> (r: &'a T) where 'b: 'a
        ensures
            *r == if index < self@.len() {
                self@[index as int]
            } else {
                *default
            },
    {
        self.get(index).unwrap_or(default)
    }

    /// An iterator over the elements, oldest first.
    pub fn iter(&self) -> (r: Iter<'_, T>)
        ensures
            r@ == self@,
    {
        proof {
            use_type_invariant(self);
        }
        Iter { elements: self.elements.as_slice(), len: self.len, pos: 0 }
    }

    /// The same as `iter`.
    pub fn into_iter(&self) -> (r: Iter<'_, T>)
        ensures
            r@ == self@,
    {
        self.iter()
    }
}

impl<T: Default> Default for ToyVec<T> {
    fn default() -> (r: Self)
        ensures
            r@ == Seq::<T>::empty(),
            r.slots() == 0,
    {
        Self::new()
    }
}

/// A walk over the elements of a `ToyVec`.
pub struct Iter<'vec, T> {
    elements: &'vec [T],
    len: usize,
    pos: usize,
}

impl<'vec, T> Iter<'vec, T> {
    #[verifier::type_invariant]
    spec fn inside(self) -> bool {
        self.pos <= self.len <= self.elements@.len()
    }

    /// The elements still to come, next first.
    pub closed spec fn view(&self) -> Seq<T> {
        self.elements@.subrange(self.pos as int, self.len as int)
    }

    /// Hands out the next element, or `None` when none is left.
    pub fn next(&mut self) -> (r: Option<&'vec T>)
        ensures
            old(self)@.len() == 0 ==> r is None && final(self)@ == old(self)@,
            old(self)@.len() > 0 ==> r == Some(&old(self)@[0]) && final(self)@ == old(self)@.skip(
                1,
            ),
    {
        proof {
            use_type_invariant(&*self);
        }
        if self.pos >= self.len {
            None
        } else {
            let res = Some(&self.elements[self.pos]);
            self.pos += 1;
            assert(self@ =~= old(self)@.skip(1));
            res
        }
    }
}

} // verus!
