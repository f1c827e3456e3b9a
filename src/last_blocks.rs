use vstd::prelude::*;
use crate::block::{Block, BlockTrait};
use crate::hashmap::U64HashMap;
use crate::store::store::{apply_blocks, AugmentedStore, Store};
use crate::store::transaction_store::{apply_transaction, TransactionStore};
use crate::transaction::transaction_wf;
use crate::store::transaction_store_backend::{AugmentedTransactionStoreBackend, TransactionStoreAugmentation};
use crate::store::transaction_store_backend_trait::{OutputRecord, TransactionStoreBackendTrait};
use crate::transaction::Transaction;
use crate::transaction_output::{is_coinbase_input, TransactionOutput};

verus! {

/// The mempool transactions in the node's order, leaving out those not fetched.
pub open spec fn mempool_order(hashes: Seq<[u8; 32]>, fetched: Map<[u8; 32], Transaction>) -> Seq<Transaction>
    decreases hashes.len(),
{
    if hashes.len() == 0 {
        Seq::empty()
    } else if fetched.contains_key(hashes.last()) {
        mempool_order(hashes.drop_last(), fetched).push(fetched[hashes.last()])
    } else {
        mempool_order(hashes.drop_last(), fetched)
    }
}

/// The unspent outputs after one pass over the mempool in order: a
/// transaction is applied when each of its inputs but the coinbase one is
/// unspent at its turn, and skipped otherwise.
pub open spec fn apply_mempool(m: Map<TransactionOutput, OutputRecord>, txs: Seq<Transaction>) -> Map<
    TransactionOutput,
    OutputRecord,
>
    decreases txs.len(),
{
    if txs.len() == 0 {
        m
    } else {
        let before = apply_mempool(m, txs.drop_last());
        let tx = txs.last();
        if forall|i: int| 0 <= i < tx.inputs@.len() ==> is_coinbase_input(#[trigger] tx.inputs@[i]) || before.contains_key(
            tx.inputs@[i],
        ) {
            apply_transaction(before, tx)
        } else {
            before
        }
    }
}

/// Entry `i` of the fetched transactions is for hash `h`, and each of its
/// outputs can be indexed.
pub open spec fn kept_at(fetched: Seq<([u8; 32], Transaction)>, i: int, h: [u8; 32]) -> bool {
    fetched[i].0 == h && transaction_wf(fetched[i].1)
}

/// Entry `i` is the first from `from` on that is kept for hash `h`.
pub open spec fn first_kept(fetched: Seq<([u8; 32], Transaction)>, from: int, i: int, h: [u8; 32]) -> bool {
    &&& from <= i < fetched.len()
    &&& kept_at(fetched, i, h)
    &&& forall|j: int| from <= j < i ==> !#[trigger] kept_at(fetched, j, h)
}

/// The node's mempool: the hashes in its order, and the transactions fetched.
#[derive(Debug)]
pub struct Mempool {
    hashes: Vec<[u8; 32]>,
    transactions: U64HashMap<[u8; 32], Transaction>,
}

impl Mempool {
    pub closed spec fn spec_hashes(&self) -> Seq<[u8; 32]> {
        self.hashes@
    }

    pub closed spec fn spec_fetched(&self) -> Map<[u8; 32], Transaction> {
        self.transactions@
    }

    pub closed spec fn wf(&self) -> bool {
        &&& self.transactions.wf()
        &&& forall|h: [u8; 32]| #[trigger] self.transactions@.contains_key(h) ==> transaction_wf(self.transactions@[h])
    }

    /// The transactions in the node's order.
    pub open spec fn spec_transactions(&self) -> Seq<Transaction> {
        mempool_order(self.spec_hashes(), self.spec_fetched())
    }

    pub fn new() -> (r: Self)
        ensures
            r.wf(),
            r.spec_transactions() == Seq::<Transaction>::empty(),
    {
        let r = Mempool { hashes: Vec::new(), transactions: U64HashMap::new() };
        r
    }

    /// A mempool of the node's hashes in order, with the transactions fetched
    /// for them. A transaction whose outputs cannot all be indexed is left
    /// out; where a hash comes more than once, its first transaction is kept.
    pub fn from_parts(hashes: Vec<[u8; 32]>, fetched: Vec<([u8; 32], Transaction)>) -> (r: Self)
        ensures
            r.wf(),
            r.spec_hashes() == hashes@,
            forall|h: [u8; 32]| #[trigger] r.spec_fetched().contains_key(h) <==> exists|i: int|
                0 <= i < fetched@.len() && #[trigger] kept_at(fetched@, i, h),
            forall|h: [u8; 32], i: int| #[trigger] first_kept(fetched@, 0, i, h) ==> r.spec_fetched().contains_key(h)
                && r.spec_fetched()[h] == fetched@[i].1,
    {
        let ghost all = fetched@;
        let mut transactions: U64HashMap<[u8; 32], Transaction> = U64HashMap::with_capacity(fetched.len());
        let mut fetched = fetched;
        while fetched.len() > 0
            invariant
                fetched@.len() <= all.len(),
                fetched@ == all.subrange(0, fetched@.len() as int),
                transactions.wf(),
                forall|h: [u8; 32]| #[trigger] transactions@.contains_key(h) ==> transaction_wf(transactions@[h]),
                forall|h: [u8; 32]| #[trigger] transactions@.contains_key(h) <==> exists|i: int|
                    fetched@.len() <= i < all.len() && #[trigger] kept_at(all, i, h),
                forall|h: [u8; 32], i: int| #[trigger] first_kept(all, fetched@.len() as int, i, h) ==> transactions@.contains_key(h)
                    && transactions@[h] == all[i].1,
            decreases fetched@.len(),
        {
            let ghost k = (fetched@.len() - 1) as int;
            let ghost before = transactions@;
            assert(fetched@[k] == all[k]);
            let (hash, transaction) = fetched.pop().unwrap();
            assert(hash == all[k].0 && transaction == all[k].1);
            if transaction.outputs.len() <= u32::MAX as usize {
                transactions.insert(hash, transaction);
            }
            proof {
                assert forall|h: [u8; 32]| #[trigger] transactions@.contains_key(h) <==> exists|i: int|
                    k <= i < all.len() && #[trigger] kept_at(all, i, h) by {
                    if transactions@.contains_key(h) {
                        if h == hash && kept_at(all, k, h) {
                        } else {
                            assert(before.contains_key(h));
                            let i = choose|i: int| k + 1 <= i < all.len() && #[trigger] kept_at(all, i, h);
                            assert(k <= i);
                        }
                    }
                    if exists|i: int| k <= i < all.len() && #[trigger] kept_at(all, i, h) {
                        let i = choose|i: int| k <= i < all.len() && #[trigger] kept_at(all, i, h);
                        if i == k {
                            assert(transactions@.contains_key(h));
                        } else {
                            assert(before.contains_key(h));
                        }
                    }
                }
                assert forall|h: [u8; 32], i: int| #[trigger] first_kept(all, k, i, h) implies transactions@.contains_key(h)
                    && transactions@[h] == all[i].1 by {
                    if i > k {
                        assert(!kept_at(all, k, h));
                        assert(first_kept(all, k + 1, i, h));
                    }
                }
            }
        }
        Mempool { hashes, transactions }
    }

    /// Takes out the fetched transaction of `hash`, to be kept across refreshes.
    pub fn take(&mut self, hash: &[u8; 32]) -> (r: Option<Transaction>)
        requires
            old(self).wf(),
        ensures
            final(self).wf(),
            match r {
                Some(t) => old(self).spec_fetched().contains_key(*hash) && t == old(self).spec_fetched()[*hash],
                None => !old(self).spec_fetched().contains_key(*hash),
            },
    {
        self.transactions.remove(hash)
    }

    /// Applies the mempool in one pass over the node's order: each
    /// transaction whose inputs are all unspent at its turn.
    pub fn apply<T: TransactionStoreBackendTrait>(&self, store: &mut TransactionStore<T>)
        requires
            self.wf(),
            old(store).wf(),
        ensures
            final(store).wf(),
            final(store).spec_strict() == old(store).spec_strict(),
            final(store).unspent() == apply_mempool(old(store).unspent(), self.spec_transactions()),
            final(store).spec_backend().records_unknown_spends() == old(store).spec_backend().records_unknown_spends(),
            final(store).spec_backend().underlying() == old(store).spec_backend().underlying(),
    {
        let mut i: usize = 0;
        while i < self.hashes.len()
            invariant
                self.wf(),
                store.wf(),
                i <= self.spec_hashes().len(),
                store.spec_strict() == old(store).spec_strict(),
                store.spec_backend().records_unknown_spends() == old(store).spec_backend().records_unknown_spends(),
                store.spec_backend().underlying() == old(store).spec_backend().underlying(),
                store.unspent() == apply_mempool(
                    old(store).unspent(),
                    mempool_order(self.spec_hashes().subrange(0, i as int), self.spec_fetched()),
                ),
            decreases self.spec_hashes().len() - i,
        {
            assert(self.spec_hashes().subrange(0, i + 1).drop_last() =~= self.spec_hashes().subrange(0, i as int));
            match self.transactions.get(&self.hashes[i]) {
                Some(transaction) => {
                    let ghost txs = mempool_order(self.spec_hashes().subrange(0, i + 1), self.spec_fetched());
                    assert(txs.drop_last() == mempool_order(self.spec_hashes().subrange(0, i as int), self.spec_fetched()));
                    if store.can_add_transaction(transaction) {
                        store.add_transaction(transaction);
                    }
                },
                None => {},
            }
            i = i + 1;
        }
        assert(self.spec_hashes().subrange(0, self.spec_hashes().len() as int) =~= self.spec_hashes());
    }
}

/// What a tail block does to the tail.
#[derive(Debug, Clone, Copy, PartialEq, Eq)]
pub enum TailChange {
    /// The block extends the tail.
    Pushed,
    /// The block does not extend the tail: its last block was dropped (a reorg).
    Popped,
    /// The block does not extend the tail, and the tail was empty.
    Unlinked,
}

/// The blocks above the canonical store that are not yet final, and the mempool.
pub struct LastBlocks {
    blocks: Vec<Block>,
    mempool: Mempool,
}

impl LastBlocks {
    pub closed spec fn spec_blocks(&self) -> Seq<Block> {
        self.blocks@
    }

    pub closed spec fn spec_mempool(&self) -> Mempool {
        self.mempool
    }

    pub open spec fn wf(&self) -> bool {
        &&& forall|i: int| 0 <= i < self.spec_blocks().len() ==> (#[trigger] self.spec_blocks()[i]).wf()
        &&& self.spec_mempool().wf()
    }

    /// The unspent outputs seen after the first `count` tail blocks and then
    /// the mempool, over the unspent outputs `base`.
    pub open spec fn view_after(&self, base: Map<TransactionOutput, OutputRecord>, count: int) -> Map<
        TransactionOutput,
        OutputRecord,
    > {
        apply_mempool(apply_blocks(base, self.spec_blocks().subrange(0, count)), self.spec_mempool().spec_transactions())
    }

    pub fn new() -> (r: Self)
        ensures
            r.wf(),
            r.spec_blocks() == Seq::<Block>::empty(),
    {
        LastBlocks { blocks: Vec::new(), mempool: Mempool::new() }
    }

    /// The number of views the tail gives: one per block, and one without any.
    pub fn len(&self) -> (r: usize)
        requires
            self.spec_blocks().len() < usize::MAX,
        ensures
            r == self.spec_blocks().len() + 1,
    {
        self.blocks.len() + 1
    }

    /// The height that the next block will have.
    pub fn next_height<T: TransactionStoreBackendTrait>(&self, store: &Store<T>) -> (r: Option<usize>)
        ensures
            match r {
                Some(h) => h == store.spec_headers().len() + self.spec_blocks().len(),
                None => store.spec_headers().len() + self.spec_blocks().len() > usize::MAX,
            },
    {
        store.height().checked_add(self.blocks.len())
    }

    /// The hash of the last block: the tail's, else the store's.
    pub open spec fn spec_last_hash<T: TransactionStoreBackendTrait>(&self, store: &Store<T>) -> Option<[u8; 32]> {
        if self.spec_blocks().len() > 0 {
            Some(self.spec_blocks().last().spec_header().hash)
        } else if store.spec_headers().len() > 0 {
            Some(store.spec_headers().last().hash)
        } else {
            None
        }
    }

    /// The hash of the last block: the tail's, else the store's.
    pub fn last_block_hash<T: TransactionStoreBackendTrait>(&self, store: &Store<T>) -> (r: Option<[u8; 32]>)
        ensures
            r == self.spec_last_hash(store),
    {
        if self.blocks.len() > 0 {
            Some(self.blocks[self.blocks.len() - 1].hash())
        } else {
            store.last_block_hash()
        }
    }

    /// Takes a block the node reports at the next height: it extends the tail
    /// when its parent is the last block; otherwise the tail's last block is
    /// dropped, a reorganisation one block deep.
    pub fn add_block<T: TransactionStoreBackendTrait>(&mut self, store: &Store<T>, block: Block) -> (r: TailChange)
        requires
            old(self).wf(),
            block.wf(),
        ensures
            final(self).wf(),
            final(self).spec_mempool() == old(self).spec_mempool(),
            r == TailChange::Pushed <==> old(self).spec_last_hash(store) == Some(block.spec_header().previous_block_hash),
            final(self).spec_blocks() == match r {
                TailChange::Pushed => old(self).spec_blocks().push(block),
                TailChange::Popped => old(self).spec_blocks().drop_last(),
                TailChange::Unlinked => old(self).spec_blocks(),
            },
            r == TailChange::Unlinked ==> old(self).spec_blocks().len() == 0,
    {
        let extends = match self.last_block_hash(store) {
            Some(h) => crate::transaction_output::same_bytes(&h, &block.header().previous_block_hash),
            None => false,
        };
        if extends {
            self.blocks.push(block);
            TailChange::Pushed
        } else if self.blocks.len() > 0 {
            self.blocks.pop();
            TailChange::Popped
        } else {
            TailChange::Unlinked
        }
    }

    /// Takes out the oldest blocks until `confirmations - 1` are left, to be
    /// added to the canonical store, oldest first.
    pub fn pop(&mut self, confirmations: usize) -> (r: Vec<Block>)
        requires
            old(self).wf(),
            confirmations >= 1,
        ensures
            final(self).wf(),
            final(self).spec_mempool() == old(self).spec_mempool(),
            old(self).spec_blocks().len() >= confirmations ==> {
                &&& r@ + final(self).spec_blocks() == old(self).spec_blocks()
                &&& final(self).spec_blocks().len() == confirmations - 1
            },
            old(self).spec_blocks().len() < confirmations ==> r@.len() == 0 && final(self).spec_blocks() == old(self).spec_blocks(),
            forall|i: int| 0 <= i < r@.len() ==> (#[trigger] r@[i]).wf(),
    {
        let mut blocks: Vec<Block> = Vec::new();
        if self.blocks.len() < confirmations {
            return blocks;
        }
        let keep_from = self.blocks.len() - (confirmations - 1);
        let mut rest: Vec<Block> = Vec::new();
        let mut old_blocks: Vec<Block> = Vec::new();
        std::mem::swap(&mut old_blocks, &mut self.blocks);
        let ghost all = old_blocks@;
        let mut i: usize = old_blocks.len();
        while i > 0
            invariant
                i <= all.len(),
                old_blocks@ == all.subrange(0, i as int),
                keep_from <= all.len(),
                i >= keep_from ==> rest@ == all.subrange(i as int, all.len() as int).reverse() && blocks@.len() == 0,
                i < keep_from ==> rest@ == all.subrange(keep_from as int, all.len() as int).reverse()
                    && blocks@ == all.subrange(i as int, keep_from as int).reverse(),
            decreases i,
        {
            let block = old_blocks.pop().unwrap();
            i = i - 1;
            if i >= keep_from {
                rest.push(block);
                assert(rest@ =~= all.subrange(i as int, all.len() as int).reverse());
            } else {
                blocks.push(block);
                assert(blocks@ =~= all.subrange(i as int, keep_from as int).reverse());
            }
        }
        let blocks = reverse_blocks(blocks);
        let kept = reverse_blocks(rest);
        self.blocks = kept;
        assert(blocks@ =~= all.subrange(0, keep_from as int));
        assert(self.blocks@ =~= all.subrange(keep_from as int, all.len() as int));
        assert(blocks@ + self.blocks@ =~= all);
        blocks
    }

    /// The augmentation that shows the first `count` tail blocks and then the
    /// mempool over `store`.
    fn augmentation<T: TransactionStoreBackendTrait>(&self, store: &Store<T>, count: usize) -> (r: TransactionStoreAugmentation)
        requires
            self.wf(),
            store.wf(),
            count <= self.spec_blocks().len(),
        ensures
            r.wf(),
            r.over(store.unspent()) == self.view_after(store.unspent(), count as int),
    {
        let backend = AugmentedTransactionStoreBackend::new(store.backend());
        let mut augmented = TransactionStore::new_with_backend(true, backend);
        proof {
            assert(augmented.unspent() =~= store.unspent());
        }
        let mut i: usize = 0;
        while i < count
            invariant
                self.wf(),
                store.wf(),
                i <= count <= self.spec_blocks().len(),
                augmented.wf(),
                augmented.spec_backend().underlying() == store.unspent(),
                augmented.unspent() == apply_blocks(store.unspent(), self.spec_blocks().subrange(0, i as int)),
            decreases count - i,
        {
            assert(self.spec_blocks().subrange(0, i + 1).drop_last() =~= self.spec_blocks().subrange(0, i as int));
            assert(self.spec_blocks()[i as int].wf());
            augmented.add_transactions(self.blocks[i].transactions());
            i = i + 1;
        }
        self.mempool.apply(&mut augmented);
        augmented.take_backend().take_augmentation()
    }

    /// The augmentation over the whole tail and the mempool.
    pub fn last_augmentation<T: TransactionStoreBackendTrait>(&self, store: &Store<T>) -> (r: TransactionStoreAugmentation)
        requires
            self.wf(),
            store.wf(),
        ensures
            r.wf(),
            r.over(store.unspent()) == self.view_after(store.unspent(), self.spec_blocks().len() as int),
    {
        self.augmentation(store, self.blocks.len())
    }

    /// One augmentation per number of tail blocks shown, from none to all:
    /// the `i`-th laid over the store gives what replaying the first `i` tail
    /// blocks on the store, then the mempool in one pass, gives.
    pub fn augmentations<T: TransactionStoreBackendTrait>(&self, store: &Store<T>) -> (r: Vec<TransactionStoreAugmentation>)
        requires
            self.wf(),
            store.wf(),
        ensures
            r@.len() == self.spec_blocks().len() + 1,
            forall|i: int| 0 <= i < r@.len() ==> {
                &&& (#[trigger] r@[i]).wf()
                &&& r@[i].over(store.unspent()) == self.view_after(store.unspent(), i)
            },
    {
        let mut augmentations: Vec<TransactionStoreAugmentation> = Vec::new();
        let mut i: usize = 0;
        while i < self.blocks.len()
            invariant
                self.wf(),
                store.wf(),
                i <= self.spec_blocks().len(),
                augmentations@.len() == i,
                forall|j: int| 0 <= j < i ==> {
                    &&& (#[trigger] augmentations@[j]).wf()
                    &&& augmentations@[j].over(store.unspent()) == self.view_after(store.unspent(), j)
                },
            decreases self.spec_blocks().len() - i,
        {
            augmentations.push(self.augmentation(store, i));
            i = i + 1;
        }
        augmentations.push(self.augmentation(store, i));
        augmentations
    }

    /// The augmentations to publish once `promoted` blocks go to the canonical
    /// store: laid over the store with those blocks applied, the `i`-th gives
    /// what replaying the first `i` tail blocks, then the mempool, gives.
    pub fn augmentations_after<T: TransactionStoreBackendTrait>(&self, store: &Store<T>, promoted: &Vec<Block>) -> (r: Vec<
        TransactionStoreAugmentation,
    >)
        requires
            self.wf(),
            store.wf(),
            forall|i: int| 0 <= i < promoted@.len() ==> (#[trigger] promoted@[i]).wf(),
        ensures
            r@.len() == self.spec_blocks().len() + 1,
            forall|i: int| 0 <= i < r@.len() ==> {
                &&& (#[trigger] r@[i]).wf()
                &&& r@[i].over(apply_blocks(store.unspent(), promoted@)) == self.view_after(
                    apply_blocks(store.unspent(), promoted@),
                    i,
                )
            },
    {
        let over = AugmentedStore::with_blocks(store, promoted);
        self.augmentations(&over)
    }

    /// Replaces the mempool.
    pub fn set_mempool(&mut self, mempool: Mempool)
        requires
            mempool.wf(),
        ensures
            final(self).spec_blocks() == old(self).spec_blocks(),
            final(self).spec_mempool() == mempool,
    {
        self.mempool = mempool;
    }

    /// Takes out the mempool, leaving an empty one, to reuse its transactions.
    pub fn take_mempool(&mut self) -> (r: Mempool)
        ensures
            final(self).spec_blocks() == old(self).spec_blocks(),
            r == old(self).spec_mempool(),
            final(self).spec_mempool().wf(),
    {
        let mut mempool = Mempool::new();
        std::mem::swap(&mut mempool, &mut self.mempool);
        mempool
    }
}

fn reverse_blocks(v: Vec<Block>) -> (r: Vec<Block>)
    ensures
        r@ == v@.reverse(),
{
    let mut v = v;
    let ghost all = v@;
    let mut r: Vec<Block> = Vec::new();
    while v.len() > 0
        invariant
            v@ == all.subrange(0, v@.len() as int),
            r@ == all.subrange(v@.len() as int, all.len() as int).reverse(),
            v@.len() <= all.len(),
        decreases v@.len(),
    {
        let b = v.pop().unwrap();
        r.push(b);
        assert(r@ =~= all.subrange(v@.len() as int, all.len() as int).reverse());
    }
    assert(r@ =~= all.reverse());
    r
}

} // verus!
