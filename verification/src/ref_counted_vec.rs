//! A vector whose slots carry reference counts.
//!
//! Slots are appended with a count of zero; holders of an index announce
//! themselves with `make_ref` and leave with `release_ref`. Counts are `u128`
//! so that no sequence of references that fits in memory can overflow them.

use vstd::prelude::*;

verus! {

pub struct RefCountedVec<T> {
    pub values: Vec<T>,
    pub ref_counts: Vec<u128>,
}

impl<T> RefCountedVec<T> {
    /// One count per value.
    pub open spec fn wf(&self) -> bool {
        self.values@.len() == self.ref_counts@.len()
    }

    pub fn new() -> (r: Self)
        ensures
            r.wf(),
            r.values@ == Seq::<T>::empty(),
            r.ref_counts@ == Seq::<u128>::empty(),
    {
        RefCountedVec { values: Vec::new(), ref_counts: Vec::new() }
    }

    pub fn len(&self) -> (n: usize)
        ensures
            n == self.values@.len(),
    {
        self.values.len()
    }

    /// Appends `value` with a count of zero and returns its index.
    pub fn insert(&mut self, value: T) -> (index: usize)
        requires
            old(self).wf(),
        ensures
            final(self).wf(),
            index == old(self).values@.len(),
            final(self).values@ == old(self).values@.push(value),
            final(self).ref_counts@ == old(self).ref_counts@.push(0),
    {
        self.values.push(value);
        self.ref_counts.push(0);
        self.values.len() - 1
    }

    /// Adds one reference to slot `index`; returns the new count.
    pub fn make_ref(&mut self, index: usize) -> (count: u128)
        requires
            old(self).wf(),
            index < old(self).values@.len(),
            old(self).ref_counts@[index as int] < u128::MAX,
        ensures
            final(self).wf(),
            final(self).values@ == old(self).values@,
            count == old(self).ref_counts@[index as int] + 1,
            final(self).ref_counts@ == old(self).ref_counts@.update(index as int, count),
    {
        let c = self.ref_counts[index] + 1;
        self.ref_counts.set(index, c);
        c
    }

    /// Removes one reference from slot `index`; returns the new count.
    pub fn release_ref(&mut self, index: usize) -> (count: u128)
        requires
            old(self).wf(),
            index < old(self).values@.len(),
            old(self).ref_counts@[index as int] > 0,
        ensures
            final(self).wf(),
            final(self).values@ == old(self).values@,
            count == old(self).ref_counts@[index as int] - 1,
            final(self).ref_counts@ == old(self).ref_counts@.update(index as int, count),
    {
        let c = self.ref_counts[index] - 1;
        self.ref_counts.set(index, c);
        c
    }
}

} // verus!
