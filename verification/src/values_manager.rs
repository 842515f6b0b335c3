use std::ops::Range;
use vstd::prelude::*;

verus! {

/// Flat storage that holds, one after the other, the values of every leaf group
/// of a combat, so that a branch group can name all values below it by a range.
#[derive(Debug, Clone)]
pub struct ValuesManager<T> {
    values: Vec<T>,
}

/// The values of one group: a leaf owns its values, a branch names a range of the
/// manager's storage.
#[derive(Debug)]
pub enum Values<T> {
    Leaf(Vec<T>),
    Branch(Range<usize>),
}

impl<T: Clone> Clone for Values<T> {
    fn clone(&self) -> (res: Self) {
        match self {
            Values::Leaf(values) => Values::Leaf(values.clone()),
            Values::Branch(range) => Values::Branch(range.start..range.end),
        }
    }
}

impl<T> View for ValuesManager<T> {
    type V = Seq<T>;

    closed spec fn view(&self) -> Seq<T> {
        self.values@
    }
}

impl<T> Values<T> {
    /// A branch range can be resolved against storage of length `len`.
    pub open spec fn resolvable(self, len: nat) -> bool {
        match self {
            Values::Leaf(_) => true,
            Values::Branch(r) => r.start <= r.end && r.end <= len,
        }
    }

    /// The values that this group stands for, given the manager's storage.
    pub open spec fn resolve(self, storage: Seq<T>) -> Seq<T> {
        match self {
            Values::Leaf(v) => v@,
            Values::Branch(r) => storage.subrange(r.start as int, r.end as int),
        }
    }
}

impl<T> Default for ValuesManager<T> {
    fn default() -> (res: Self)
        ensures
            res@ == Seq::<T>::empty(),
    {
        ValuesManager { values: Vec::new() }
    }
}

impl<T: Copy> ValuesManager<T> {
    /// Runs `fill` on the manager and returns the branch range of everything it appended.
    pub fn track_group<F: FnOnce(&mut Self)>(&mut self, fill: F) -> (res: Values<T>)
        requires
            forall|m: &mut Self| fill.requires((m,)),
        ensures
            res == Values::<T>::Branch(
                Range { start: old(self)@.len() as usize, end: final(self)@.len() as usize },
            ),
            exists|m: &mut Self| *m == *old(self) && *final(m) == *final(self) && call_ensures(fill, (m,), ()),
    {
        let start = self.values.len();
        fill(self);
        Values::Branch(start..self.values.len())
    }

    /// The number of values in the storage.
    pub fn len(&self) -> (res: usize)
        ensures
            res == self@.len(),
    {
        self.values.len()
    }

    /// The values that `values` stands for.
    pub fn get<'a>(&'a self, values: &'a Values<T>) -> (res: &'a [T])
        requires
            values.resolvable(self@.len()),
        ensures
            res@ == values.resolve(self@),
    {
        match values {
            Values::Leaf(v) => v.as_slice(),
            Values::Branch(range) => {
                let all = self.values.as_slice();
                &all[range.start..range.end]
            },
        }
    }

    /// Appends the values of a leaf to the storage.
    pub fn add_leaf(&mut self, values: &[T])
        ensures
            final(self)@ == old(self)@ + values@,
    {
        let n = values.len();
        let mut i: usize = 0;
        while i < n
            invariant
                i <= n,
                n == values@.len(),
                self@ == old(self)@ + values@.subrange(0, i as int),
            decreases n - i,
        {
            self.values.push(values[i]);
            i = i + 1;
            assert(values@.subrange(0, i as int) == values@.subrange(0, i - 1).push(values@[i - 1]));
        }
        assert(values@.subrange(0, n as int) == values@);
    }

    /// Removes every value from the storage.
    pub fn clear(&mut self)
        ensures
            final(self)@ == Seq::<T>::empty(),
    {
        self.values.clear();
    }
}

impl<T: Copy> Values<T> {
    /// An empty branch.
    pub fn empty_branch() -> (res: Self)
        ensures
            res == Values::<T>::Branch(Range { start: 0, end: 0 }),
    {
        Values::Branch(0..0)
    }

    /// An empty leaf.
    pub fn empty_leaf() -> (res: Self)
        ensures
            res matches Values::Leaf(v) && v@ == Seq::<T>::empty(),
    {
        Values::Leaf(Vec::new())
    }

    /// The values that `self` stands for.
    pub fn get<'a>(&'a self, manager: &'a ValuesManager<T>) -> (res: &'a [T])
        requires
            self.resolvable(manager@.len()),
        ensures
            res@ == self.resolve(manager@),
    {
        manager.get(self)
    }

    pub fn is_leaf(&self) -> (res: bool)
        ensures
            res == (self is Leaf),
    {
        if let Values::Leaf(_) = self {
            return true;
        }
        false
    }

    pub fn is_branch(&self) -> (res: bool)
        ensures
            res == (self is Branch),
    {
        if let Values::Branch(_) = self {
            return true;
        }
        false
    }

    /// Appends a value to a leaf.
    pub fn push(&mut self, value: T)
        requires
            *old(self) is Leaf,
        ensures
            *final(self) is Leaf,
            (*final(self))->Leaf_0@ == (*old(self))->Leaf_0@.push(value),
    {
        match self {
            Values::Leaf(values) => values.push(value),
            Values::Branch(_) => {},
        }
    }

    /// The values owned by a leaf.
    pub fn get_leaf(&self) -> (res: &[T])
        requires
            self is Leaf,
        ensures
            res@ == self->Leaf_0@,
    {
        match self {
            Values::Leaf(values) => values.as_slice(),
            Values::Branch(_) => &[],
        }
    }
}

impl<T: Copy> Default for Values<T> {
    fn default() -> (res: Self)
        ensures
            res == Values::<T>::Branch(Range { start: 0, end: 0 }),
    {
        Self::empty_branch()
    }
}

} // verus!
