use vstd::prelude::*;

verus! {

/// Hands out a list in runs of a fixed size, in order; the last run may be
/// shorter.
pub struct Batcher<T> {
    size: usize,
    reversed: Vec<T>,
}

impl<T> Batcher<T> {
    /// The items not handed out yet, in order.
    pub closed spec fn remaining(&self) -> Seq<T> {
        self.reversed@.reverse()
    }

    pub closed spec fn spec_size(&self) -> usize {
        self.size
    }

    pub fn new(items: Vec<T>, size: usize) -> (r: Self)
        requires
            size > 0,
        ensures
            r.remaining() == items@,
            r.spec_size() == size,
    {
        let mut items = items;
        let ghost all = items@;
        let mut reversed: Vec<T> = Vec::new();
        while items.len() > 0
            invariant
                items@ == all.subrange(0, items@.len() as int),
                reversed@ == all.subrange(items@.len() as int, all.len() as int).reverse(),
                items@.len() <= all.len(),
            decreases items@.len(),
        {
            let item = items.pop().unwrap();
            reversed.push(item);
            assert(reversed@ =~= all.subrange(items@.len() as int, all.len() as int).reverse());
        }
        assert(reversed@.reverse() =~= all);
        Batcher { size, reversed }
    }

    /// The next run: the first `size` items left, or all of them if fewer.
    pub fn next(&mut self) -> (r: Option<Vec<T>>)
        ensures
            final(self).spec_size() == old(self).spec_size(),
            match r {
                None => old(self).remaining().len() == 0 && final(self).remaining() == old(self).remaining(),
                Some(batch) => {
                    let k = if old(self).remaining().len() < old(self).spec_size() {
                        old(self).remaining().len() as int
                    } else {
                        old(self).spec_size() as int
                    };
                    &&& k > 0 || old(self).spec_size() == 0
                    &&& batch@ == old(self).remaining().subrange(0, k)
                    &&& final(self).remaining() == old(self).remaining().subrange(k, old(self).remaining().len() as int)
                },
            },
    {
        if self.reversed.len() == 0 {
            return None;
        }
        let ghost start = self.remaining();
        let mut batch: Vec<T> = Vec::new();
        while batch.len() < self.size && self.reversed.len() > 0
            invariant
                batch@.len() <= self.size,
                batch@ == start.subrange(0, batch@.len() as int),
                self.remaining() == start.subrange(batch@.len() as int, start.len() as int),
                self.size == old(self).spec_size(),
                start == old(self).remaining(),
                self.reversed@.len() + batch@.len() == start.len(),
                start.len() > 0,
            decreases self.reversed@.len(),
        {
            let ghost before = self.reversed@;
            let ghost n = batch@.len() as int;
            let item = self.reversed.pop().unwrap();
            assert(before.reverse() =~= start.subrange(n, start.len() as int));
            assert(item == before.reverse()[0]);
            assert(self.reversed@.reverse() =~= before.reverse().drop_first());
            batch.push(item);
            assert(batch@ =~= start.subrange(0, batch@.len() as int));
            assert(self.remaining() =~= start.subrange(batch@.len() as int, start.len() as int));
        }
        Some(batch)
    }
}

} // verus!
