use vstd::prelude::*;
use crate::hashmap::{MapKey, U64HashMap};

verus! {

impl MapKey for usize {
    open spec fn spec_fold(&self) -> u64 {
        *self as u64
    }

    fn fold(&self) -> (r: u64) {
        *self as u64
    }

    fn same_key(&self, other: &Self) -> (r: bool) {
        *self == *other
    }
}

/// Results that arrive in any order, handed out in the order of their
/// indexes: a result waits until every one before it has gone out.
pub struct OrderedOutputs<T> {
    waiting: U64HashMap<usize, T>,
    next_index: usize,
}

impl<T> OrderedOutputs<T> {
    /// The results not handed out yet, by index.
    pub closed spec fn spec_waiting(&self) -> Map<usize, T> {
        self.waiting@
    }

    /// The index of the next result to hand out.
    pub closed spec fn spec_next(&self) -> usize {
        self.next_index
    }

    pub closed spec fn wf(&self) -> bool {
        self.waiting.wf()
    }

    pub fn new() -> (r: Self)
        ensures
            r.wf(),
            r.spec_waiting() == Map::<usize, T>::empty(),
            r.spec_next() == 0,
    {
        OrderedOutputs { waiting: U64HashMap::new(), next_index: 0 }
    }

    /// Takes the result with index `index`.
    pub fn insert(&mut self, index: usize, output: T)
        requires
            old(self).wf(),
        ensures
            final(self).wf(),
            final(self).spec_waiting() == old(self).spec_waiting().insert(index, output),
            final(self).spec_next() == old(self).spec_next(),
    {
        self.waiting.insert(index, output);
    }

    /// The next result in index order, if it has arrived.
    pub fn next(&mut self) -> (r: Option<T>)
        requires
            old(self).wf(),
            old(self).spec_next() < usize::MAX,
        ensures
            final(self).wf(),
            match r {
                Some(output) => {
                    &&& old(self).spec_waiting().contains_key(old(self).spec_next())
                    &&& output == old(self).spec_waiting()[old(self).spec_next()]
                    &&& final(self).spec_waiting() == old(self).spec_waiting().remove(old(self).spec_next())
                    &&& final(self).spec_next() == old(self).spec_next() + 1
                },
                None => {
                    &&& !old(self).spec_waiting().contains_key(old(self).spec_next())
                    &&& final(self).spec_waiting() == old(self).spec_waiting()
                    &&& final(self).spec_next() == old(self).spec_next()
                },
            },
    {
        let index = self.next_index;
        match self.waiting.remove(&index) {
            Some(output) => {
                self.next_index = index + 1;
                Some(output)
            },
            None => None,
        }
    }
}

} // verus!
