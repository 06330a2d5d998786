//! A fixed-capacity, append-only buffer whose storage is allocated once.
use vstd::prelude::*;
use crate::error::SplitVecError;

verus! {

/// Relies on `Vec::capacity`: the allocation holds at least as many slots as elements.
#[verifier::external_body]
fn vec_capacity<T>(v: &Vec<T>) -> (r: usize)
    ensures
        r >= v@.len(),
{
    v.capacity()
}

/// A buffer of fixed capacity that holds a contiguous run of elements. Its storage
/// is reserved at creation and never grown, so elements never move.
pub struct Fragment<T> {
    data: Vec<T>,
    capacity: usize,
}

impl<T> View for Fragment<T> {
    type V = Seq<T>;

    closed spec fn view(&self) -> Seq<T> {
        self.data@
    }
}

impl<T> Fragment<T> {
    /// The fixed number of slots of the fragment.
    pub closed spec fn cap(&self) -> nat {
        self.capacity as nat
    }

    /// The length never exceeds the capacity.
    pub closed spec fn wf(&self) -> bool {
        self.data@.len() <= self.capacity
    }

    /// An empty fragment with room for `capacity` elements.
    pub fn new(capacity: usize) -> (r: Fragment<T>)
        ensures
            r.wf(),
            r@ == Seq::<T>::empty(),
            r.cap() == capacity,
    {
        Fragment { data: Vec::with_capacity(capacity), capacity }
    }

    /// Adopts `data` as a fragment without copying: its allocation becomes the
    /// fragment's storage and its allocated capacity the fragment's capacity.
    pub fn from_vec(data: Vec<T>) -> (r: Fragment<T>)
        ensures
            r.wf(),
            r@ == data@,
            r.cap() >= data@.len(),
    {
        let capacity = vec_capacity(&data);
        Fragment { data, capacity }
    }

    /// The number of elements held.
    pub fn len(&self) -> (r: usize)
        ensures
            r == self@.len(),
    {
        self.data.len()
    }

    /// The fixed number of slots.
    pub fn capacity(&self) -> (r: usize)
        ensures
            r == self.cap(),
    {
        self.capacity
    }

    /// Whether every slot is taken.
    pub fn is_full(&self) -> (r: bool)
        requires
            self.wf(),
        ensures
            r == (self@.len() == self.cap()),
    {
        self.data.len() >= self.capacity
    }

    /// Appends `value` if a slot is free; a full fragment refuses it and is left as it was.
    pub fn push(&mut self, value: T) -> (r: Result<(), SplitVecError>)
        requires
            old(self).wf(),
        ensures
            final(self).wf(),
            final(self).cap() == old(self).cap(),
            old(self)@.len() < old(self).cap() ==> r is Ok && final(self)@ == old(self)@.push(value),
            old(self)@.len() == old(self).cap() ==> r == Err::<(), SplitVecError>(SplitVecError::CapacityExceeded)
                && final(self)@ == old(self)@,
    {
        if self.data.len() >= self.capacity {
            Err(SplitVecError::CapacityExceeded)
        } else {
            self.data.push(value);
            Ok(())
        }
    }

    /// The element at `index`, or `None` past the length.
    pub fn get(&self, index: usize) -> (r: Option<&T>)
        ensures
            index < self@.len() ==> r == Some(&self@[index as int]),
            index >= self@.len() ==> r is None,
    {
        if index < self.data.len() {
            Some(&self.data[index])
        } else {
            None
        }
    }

    /// A mutable reference to the element at `index`, or `None` past the length.
    pub fn get_mut(&mut self, index: usize) -> (r: Option<&mut T>)
        requires
            old(self).wf(),
        ensures
            index < old(self)@.len() ==> (r matches Some(e) && *e == old(self)@[index as int]
                && final(self)@ == old(self)@.update(index as int, *final(e))),
            index >= old(self)@.len() ==> r is None && final(self)@ == old(self)@,
            final(self).wf(),
            final(self).cap() == old(self).cap(),
    {
        if index < self.data.len() {
            Some(&mut self.data[index])
        } else {
            None
        }
    }

    /// Replaces the element at `index`, which must be below the length.
    pub fn set(&mut self, index: usize, value: T)
        requires
            index < old(self)@.len(),
            old(self).wf(),
        ensures
            final(self).wf(),
            final(self).cap() == old(self).cap(),
            final(self)@ == old(self)@.update(index as int, value),
    {
        self.data.set(index, value);
    }

    /// Removes and returns the last element, or `None` when empty.
    pub fn pop(&mut self) -> (r: Option<T>)
        requires
            old(self).wf(),
        ensures
            final(self).wf(),
            final(self).cap() == old(self).cap(),
            old(self)@.len() == 0 ==> r is None && final(self)@ == old(self)@,
            old(self)@.len() > 0 ==> r == Some(old(self)@.last()) && final(self)@
                == old(self)@.drop_last(),
    {
        self.data.pop()
    }

    /// Moves every element, in order, to the end of `out`, leaving the fragment empty.
    pub fn move_into(&mut self, out: &mut Vec<T>)
        requires
            old(self).wf(),
        ensures
            final(self).wf(),
            final(self)@ == Seq::<T>::empty(),
            final(out)@ == old(out)@ + old(self)@,
    {
        out.append(&mut self.data);
    }

    /// Gives up the fragment and returns its elements as a vector.
    pub fn into_vec(self) -> (r: Vec<T>)
        ensures
            r@ == self@,
    {
        self.data
    }
}

} // verus!
