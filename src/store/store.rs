use vstd::prelude::*;
use crate::block::{Block, BlockHeader, BlockTrait};
use crate::store::transaction_store::{apply_transactions, transactions_known, unknown_in_transactions, TransactionStore};
use crate::store::transaction_store_backend::{
    AugmentedTransactionStoreBackend, IndexedTransactionStoreBackend, IntermediaryTransactionStoreBackend,
};
use crate::store::transaction_store_backend_trait::{OutputRecord, TransactionStoreBackendTrait};
use crate::block::header_view;
use crate::buffer_writer::BufferWriter;
use crate::hashing_buffer_reader::{le_value, HashingBufferReader};
use crate::hashmap::{entries_map, keys_of};
use crate::store::store_file::{
    encode_headers, encode_store, header_views_linked, lemma_headers_fail, lemma_store_file_round_trip, spec_headers_at,
    spec_store_file, utxo_view, utxos_map,
};
use crate::transaction_output::TransactionOutput;

verus! {

/// Each header names the one before it as its parent.
pub open spec fn headers_linked(headers: Seq<BlockHeader>) -> bool {
    forall|i: int| 0 < i < headers.len() ==> #[trigger] headers[i].previous_block_hash == headers[i - 1].hash
}

/// Why a block could not be added to a store.
#[derive(Debug, Clone, Copy, PartialEq, Eq)]
pub enum AddBlockError {
    /// The block's parent is not the store's last block; nothing was changed.
    Discontinuity,
    /// A strict store was asked to spend an output that it did not know; the
    /// block was applied as far as it could be.
    UnknownOutput,
}

/// A transaction store with the headers of the blocks it was built from.
#[derive(Debug)]
pub struct Store<T> {
    transaction_store: TransactionStore<T>,
    block_headers: Vec<BlockHeader>,
}

impl<T: TransactionStoreBackendTrait> Store<T> {
    pub closed spec fn spec_headers(&self) -> Seq<BlockHeader> {
        self.block_headers@
    }

    pub closed spec fn spec_transaction_store(&self) -> TransactionStore<T> {
        self.transaction_store
    }

    pub open spec fn wf(&self) -> bool {
        &&& self.spec_transaction_store().wf()
        &&& headers_linked(self.spec_headers())
    }

    pub open spec fn unspent(&self) -> Map<TransactionOutput, OutputRecord> {
        self.spec_transaction_store().unspent()
    }

    /// Whether `header` may come next: the store is empty, or its last block
    /// is the header's parent.
    pub open spec fn links(&self, header: BlockHeader) -> bool {
        self.spec_headers().len() == 0 || self.spec_headers().last().hash == header.previous_block_hash
    }

    pub fn from_parts(transaction_store: TransactionStore<T>, block_headers: Vec<BlockHeader>) -> (r: Self)
        requires
            headers_linked(block_headers@),
        ensures
            r.spec_transaction_store() == transaction_store,
            r.spec_headers() == block_headers@,
    {
        Store { transaction_store, block_headers }
    }

    /// The number of blocks the store holds.
    pub fn height(&self) -> (r: usize)
        ensures
            r == self.spec_headers().len(),
    {
        self.block_headers.len()
    }

    pub fn backend(&self) -> (r: &T)
        ensures
            *r == self.spec_transaction_store().spec_backend(),
    {
        self.transaction_store.backend()
    }

    pub fn take_backend(self) -> (r: T)
        ensures
            r == self.spec_transaction_store().spec_backend(),
    {
        self.transaction_store.take_backend()
    }

    pub fn transaction_store(&self) -> (r: &TransactionStore<T>)
        ensures
            *r == self.spec_transaction_store(),
    {
        &self.transaction_store
    }

    pub fn block_headers(&self) -> (r: &Vec<BlockHeader>)
        ensures
            r@ == self.spec_headers(),
    {
        &self.block_headers
    }

    /// The hash of the last block, if the store has one.
    pub fn last_block_hash(&self) -> (r: Option<[u8; 32]>)
        ensures
            r == if self.spec_headers().len() == 0 {
                None
            } else {
                Some(self.spec_headers().last().hash)
            },
    {
        if self.block_headers.len() == 0 {
            None
        } else {
            Some(self.block_headers[self.block_headers.len() - 1].hash)
        }
    }

    /// Appends `header` if its parent is the last block; returns whether it did.
    fn add_block_header(&mut self, header: BlockHeader) -> (r: bool)
        requires
            headers_linked(old(self).spec_headers()),
        ensures
            r == old(self).links(header),
            final(self).spec_headers() == if r {
                old(self).spec_headers().push(header)
            } else {
                old(self).spec_headers()
            },
            final(self).spec_transaction_store() == old(self).spec_transaction_store(),
            headers_linked(final(self).spec_headers()),
    {
        let n = self.block_headers.len();
        if n > 0 && !crate::transaction_output::same_bytes(&self.block_headers[n - 1].hash, &header.previous_block_hash) {
            return false;
        }
        self.block_headers.push(header);
        true
    }

    /// Adds a block whose parent is the store's last block: records its header
    /// and applies its transactions in order.
    pub fn add_block(&mut self, block: &Block) -> (r: Result<(), AddBlockError>)
        requires
            old(self).wf(),
            block.wf(),
        ensures
            final(self).wf(),
            final(self).spec_transaction_store().spec_strict() == old(self).spec_transaction_store().spec_strict(),
            r == Err::<(), AddBlockError>(AddBlockError::Discontinuity) <==> !old(self).links(block.spec_header()),
            !old(self).links(block.spec_header()) ==> {
                &&& final(self).spec_headers() == old(self).spec_headers()
                &&& final(self).spec_transaction_store() == old(self).spec_transaction_store()
            },
            old(self).links(block.spec_header()) ==> {
                &&& final(self).spec_headers() == old(self).spec_headers().push(block.spec_header())
                &&& final(self).unspent() == apply_transactions(old(self).unspent(), block.spec_transactions())
                &&& (r is Ok <==> (transactions_known(old(self).unspent(), block.spec_transactions())
                    || !old(self).spec_transaction_store().spec_strict()))
                &&& final(self).spec_transaction_store().spec_backend().unknown_spends() == if old(
                    self,
                ).spec_transaction_store().spec_backend().records_unknown_spends() {
                    old(self).spec_transaction_store().spec_backend().unknown_spends() + unknown_in_transactions(
                        old(self).unspent(),
                        block.spec_transactions(),
                    )
                } else {
                    old(self).spec_transaction_store().spec_backend().unknown_spends()
                }
            },
            final(self).spec_transaction_store().spec_backend().records_unknown_spends()
                == old(self).spec_transaction_store().spec_backend().records_unknown_spends(),
            final(self).spec_transaction_store().spec_backend().underlying()
                == old(self).spec_transaction_store().spec_backend().underlying(),
    {
        if !self.add_block_header(*block.header()) {
            return Err(AddBlockError::Discontinuity);
        }
        if self.transaction_store.add_transactions(block.transactions()) {
            Ok(())
        } else {
            Err(AddBlockError::UnknownOutput)
        }
    }
}

/// The canonical store.
pub type IndexedStore = Store<IndexedTransactionStoreBackend>;

impl Store<IndexedTransactionStoreBackend> {
    /// An empty strict store with room reserved for a whole chain.
    pub fn large() -> (r: Self)
        ensures
            r.wf(),
            r.spec_headers().len() == 0,
            r.unspent() == Map::<TransactionOutput, OutputRecord>::empty(),
            r.spec_transaction_store().spec_strict(),
    {
        Store {
            transaction_store: TransactionStore::new_with_backend(true, IndexedTransactionStoreBackend::large()),
            block_headers: Vec::new(),
        }
    }

    /// Builds the canonical store from a chain of blocks, one after the other.
    /// It succeeds when each block's parent is the block before it and each
    /// block spends only outputs unspent at its turn; otherwise it stops at
    /// the first block that fails and says why.
    pub fn from_blocks(blocks: &Vec<Block>) -> (r: Result<Self, AddBlockError>)
        requires
            forall|i: int| 0 <= i < blocks@.len() ==> (#[trigger] blocks@[i]).wf(),
        ensures
            r is Ok <==> (forall|i: int| 0 <= i < blocks@.len() ==> #[trigger] block_fits(blocks@, i)),
            match r {
                Ok(store) => {
                    &&& store.wf()
                    &&& store.spec_transaction_store().spec_strict()
                    &&& store.spec_headers() == blocks@.map_values(|b: Block| b.spec_header())
                    &&& store.unspent() == apply_blocks(Map::empty(), blocks@)
                },
                Err(AddBlockError::Discontinuity) => exists|k: int| 0 <= k < blocks@.len() && fits_before(blocks@, k)
                    && !#[trigger] block_links(blocks@, k),
                Err(AddBlockError::UnknownOutput) => exists|k: int| 0 <= k < blocks@.len() && fits_before(blocks@, k)
                    && #[trigger] block_links(blocks@, k) && !block_applies(blocks@, k),
            },
    {
        let mut store = Self::large();
        let mut i: usize = 0;
        while i < blocks.len()
            invariant
                i <= blocks@.len(),
                store.wf(),
                store.spec_transaction_store().spec_strict(),
                forall|j: int| 0 <= j < blocks@.len() ==> (#[trigger] blocks@[j]).wf(),
                store.spec_headers() == blocks@.subrange(0, i as int).map_values(|b: Block| b.spec_header()),
                store.unspent() == apply_blocks(Map::empty(), blocks@.subrange(0, i as int)),
                fits_before(blocks@, i as int),
            decreases blocks@.len() - i,
        {
            assert(blocks@.subrange(0, i + 1).drop_last() =~= blocks@.subrange(0, i as int));
            proof {
                if i > 0 {
                    assert(store.spec_headers().last() == blocks@[i - 1].spec_header());
                }
                assert(store.links(blocks@[i as int].spec_header()) == block_links(blocks@, i as int));
            }
            match store.add_block(&blocks[i]) {
                Ok(()) => {},
                Err(e) => {
                    proof {
                        assert(block_links(blocks@, i as int) || e == AddBlockError::Discontinuity);
                        assert(!block_fits(blocks@, i as int));
                    }
                    return Err(e);
                },
            }
            assert(store.spec_headers() =~= blocks@.subrange(0, i + 1).map_values(|b: Block| b.spec_header()));
            assert(block_fits(blocks@, i as int));
            i = i + 1;
        }
        assert(blocks@.subrange(0, blocks@.len() as int) =~= blocks@);
        Ok(store)
    }
}

/// Block `i`'s parent is the block before it; the first has no constraint.
pub open spec fn block_links(blocks: Seq<Block>, i: int) -> bool {
    i == 0 || blocks[i].spec_header().previous_block_hash == blocks[i - 1].spec_header().hash
}

/// Block `i` spends only outputs unspent after the blocks before it.
pub open spec fn block_applies(blocks: Seq<Block>, i: int) -> bool {
    transactions_known(apply_blocks(Map::empty(), blocks.subrange(0, i)), blocks[i].spec_transactions())
}

pub open spec fn block_fits(blocks: Seq<Block>, i: int) -> bool {
    block_links(blocks, i) && block_applies(blocks, i)
}

/// Every block before `k` fits.
pub open spec fn fits_before(blocks: Seq<Block>, k: int) -> bool {
    forall|j: int| 0 <= j < k ==> #[trigger] block_fits(blocks, j)
}

impl TransactionStore<IndexedTransactionStoreBackend> {
    /// A strict canonical transaction store read from a store file's outputs.
    pub fn from_reader(reader: &mut HashingBufferReader) -> (r: Option<Self>)
        requires
            old(reader).wf(),
        ensures
            final(reader).wf(),
            final(reader).bytes() == old(reader).bytes(),
            match r {
                Some(t) => t.wf() && t.spec_strict() && old(reader).has(4) && exists|us: Seq<crate::store::store_file::UtxoView>|
                    crate::store::store_file::spec_utxos(old(reader).bytes(), old(reader).spec_offset() + 4, le_value(old(reader).ahead(4)))
                        == Some((us, final(reader).spec_offset())) && t.unspent() == utxos_map(us),
                None => !old(reader).has(4) || crate::store::store_file::spec_utxos(
                    old(reader).bytes(),
                    old(reader).spec_offset() + 4,
                    le_value(old(reader).ahead(4)),
                ) is None,
            },
    {
        let backend = IndexedTransactionStoreBackend::from_reader(reader)?;
        Some(TransactionStore::new_with_backend(true, backend))
    }
}

impl Store<IndexedTransactionStoreBackend> {
    /// The unspent outputs in the order the store file lists them.
    pub open spec fn spec_entries(&self) -> Seq<(TransactionOutput, OutputRecord)> {
        self.spec_transaction_store().spec_backend().spec_entries()
    }

    /// The store file of this store.
    pub fn to_buffer(&self) -> (r: Vec<u8>)
        requires
            self.wf(),
            self.spec_headers().len() <= u32::MAX,
            self.unspent().len() <= u32::MAX,
        ensures
            r@ == encode_store(self.spec_headers(), self.spec_entries()),
    {
        proof {
            self.spec_transaction_store().spec_backend().lemma_entries();
        }
        let mut writer = BufferWriter::new();
        writer.write_u32(self.block_headers.len() as u32);
        let mut i: usize = 0;
        while i < self.block_headers.len()
            invariant
                i <= self.spec_headers().len(),
                self.spec_headers().len() <= u32::MAX,
                writer.written() == crate::buffer_writer::le_bytes(self.spec_headers().len(), 4)
                    + encode_headers(self.spec_headers().subrange(0, i as int)),
            decreases self.spec_headers().len() - i,
        {
            let header = self.block_headers[i];
            writer.write_hash(header.hash);
            writer.write_hash(header.previous_block_hash);
            assert(self.spec_headers().subrange(0, i + 1).drop_last() =~= self.spec_headers().subrange(0, i as int));
            i = i + 1;
            assert(writer.written() =~= crate::buffer_writer::le_bytes(self.spec_headers().len(), 4)
                + encode_headers(self.spec_headers().subrange(0, i as int)));
        }
        assert(self.spec_headers().subrange(0, self.spec_headers().len() as int) =~= self.spec_headers());
        self.transaction_store.backend().to_writer(&mut writer);
        writer.buffer()
    }

    /// The store that a store file holds; `None` when the bytes are no store
    /// file or its headers are not linked.
    pub fn from_buffer(buffer: &[u8]) -> (r: Option<Self>)
        ensures
            match r {
                Some(s) => {
                    &&& s.wf()
                    &&& s.spec_transaction_store().spec_strict()
                    &&& spec_store_file(buffer@) is Some
                    &&& s.spec_headers().map_values(|h: BlockHeader| header_view(h)) == spec_store_file(buffer@)->Some_0.0
                    &&& s.unspent() == utxos_map(spec_store_file(buffer@)->Some_0.1)
                },
                None => spec_store_file(buffer@) is None || !header_views_linked(spec_store_file(buffer@)->Some_0.0),
            },
    {
        let ghost buf = buffer@;
        let mut reader = HashingBufferReader::new(buffer);
        let count = reader.read_u32_le(false)?;
        let mut block_headers: Vec<BlockHeader> = Vec::new();
        let mut i: u32 = 0;
        while i < count
            invariant
                reader.wf(),
                reader.bytes() == buf,
                buf == buffer@,
                buf.len() >= 4,
                count == le_value(buf.subrange(0, 4)),
                i <= count,
                spec_headers_at(buf, 4, i as nat) == Some((
                    block_headers@.map_values(|h: BlockHeader| header_view(h)),
                    reader.spec_offset(),
                )),
            decreases count - i,
        {
            let ghost p = reader.spec_offset();
            let hash = match reader.read_hash(false) {
                Some(h) => h,
                None => {
                    proof {
                        lemma_headers_fail(buf, 4, (i + 1) as nat, count as nat);
                    }
                    return None;
                },
            };
            let previous_block_hash = match reader.read_hash(false) {
                Some(h) => h,
                None => {
                    proof {
                        lemma_headers_fail(buf, 4, (i + 1) as nat, count as nat);
                    }
                    return None;
                },
            };
            let ghost prev = block_headers@;
            block_headers.push(BlockHeader { hash, previous_block_hash });
            assert(block_headers@.map_values(|h: BlockHeader| header_view(h))
                =~= prev.map_values(|h: BlockHeader| header_view(h)).push((hash@, previous_block_hash@)));
            i = i + 1;
        }
        let ghost hv = block_headers@.map_values(|h: BlockHeader| header_view(h));
        let n = block_headers.len();
        let mut k: usize = 1;
        while k < n
            invariant
                1 <= k,
                reader.wf(),
                reader.bytes() == buf,
                buf == buffer@,
                buf.len() >= 4,
                count == le_value(buf.subrange(0, 4)),
                spec_headers_at(buf, 4, count as nat) == Some((hv, reader.spec_offset())),
                n == block_headers@.len(),
                hv == block_headers@.map_values(|h: BlockHeader| header_view(h)),
                forall|j: int| 0 < j < k && j < n ==> #[trigger] block_headers@[j].previous_block_hash == block_headers@[j - 1].hash,
            decreases n - k,
        {
            if !crate::transaction_output::same_bytes(&block_headers[k].previous_block_hash, &block_headers[k - 1].hash) {
                proof {
                    if hv[k as int].1 == hv[k - 1].0 {
                        vstd::array::axiom_array_ext_equal(
                            block_headers@[k as int].previous_block_hash,
                            block_headers@[k - 1].hash,
                        );
                    }
                    assert(!header_views_linked(hv));
                }
                return None;
            }
            k = k + 1;
        }
        let transaction_store = TransactionStore::from_reader(&mut reader)?;
        proof {
            assert forall|j: int| 0 < j < hv.len() implies #[trigger] hv[j].1 == hv[j - 1].0 by {
                assert(block_headers@[j].previous_block_hash == block_headers@[j - 1].hash);
            }
        }
        Some(Store { transaction_store, block_headers })
    }
}

/// A canonical store written to its file reads back as itself: the same
/// linked headers, and the same unspent outputs with their values and
/// addresses.
pub proof fn lemma_store_round_trip(store: &IndexedStore)
    requires
        store.wf(),
        store.spec_headers().len() <= u32::MAX,
        store.unspent().len() <= u32::MAX,
    ensures
        spec_store_file(encode_store(store.spec_headers(), store.spec_entries())) == Some((
            store.spec_headers().map_values(|h: BlockHeader| header_view(h)),
            store.spec_entries().map_values(|e: (TransactionOutput, OutputRecord)| utxo_view(e)),
        )),
        utxos_map(store.spec_entries().map_values(|e: (TransactionOutput, OutputRecord)| utxo_view(e))) == store.unspent(),
        header_views_linked(store.spec_headers().map_values(|h: BlockHeader| header_view(h))),
{
    store.spec_transaction_store().spec_backend().lemma_entries();
    lemma_store_file_round_trip(store.spec_headers(), store.spec_entries());
    let hv = store.spec_headers().map_values(|h: BlockHeader| header_view(h));
    assert forall|j: int| 0 < j < hv.len() implies #[trigger] hv[j].1 == hv[j - 1].0 by {
        assert(store.spec_headers()[j].previous_block_hash == store.spec_headers()[j - 1].hash);
    }
}

/// The unspent outputs after the blocks' transactions, block after block.
pub open spec fn apply_blocks(m: Map<TransactionOutput, OutputRecord>, blocks: Seq<Block>) -> Map<
    TransactionOutput,
    OutputRecord,
>
    decreases blocks.len(),
{
    if blocks.len() == 0 {
        m
    } else {
        apply_transactions(apply_blocks(m, blocks.drop_last()), blocks.last().spec_transactions())
    }
}

/// A staging store that one worker fills from a run of blocks.
pub type IntermediaryStore = Store<IntermediaryTransactionStoreBackend>;

impl Store<IntermediaryTransactionStoreBackend> {
    pub fn new() -> (r: Self)
        ensures
            r.wf(),
            r.spec_headers().len() == 0,
            !r.spec_transaction_store().spec_strict(),
            r.unspent() == Map::<TransactionOutput, OutputRecord>::empty(),
            r.spec_transaction_store().spec_backend().unknown_spends() == Seq::<TransactionOutput>::empty(),
    {
        Store {
            transaction_store: TransactionStore::new_with_backend(false, IntermediaryTransactionStoreBackend::new()),
            block_headers: Vec::new(),
        }
    }
}

impl Store<IntermediaryTransactionStoreBackend> {
    /// Appends this staging store's headers to `store`, then replays its
    /// spends and outputs there. When the first staged header does not
    /// continue `store`'s chain, nothing changes and the error says so.
    /// Otherwise the headers and outputs are applied in full, and the result
    /// says whether a strict `store` found every replayed spend.
    pub fn merge<T: TransactionStoreBackendTrait>(&self, store: &mut Store<T>) -> (r: Result<(), AddBlockError>)
        requires
            self.wf(),
            old(store).wf(),
        ensures
            final(store).wf(),
            final(store).spec_transaction_store().spec_strict() == old(store).spec_transaction_store().spec_strict(),
            r == Err::<(), AddBlockError>(AddBlockError::Discontinuity) <==> !self.continues(*old(store)),
            !self.continues(*old(store)) ==> {
                &&& final(store).spec_headers() == old(store).spec_headers()
                &&& final(store).spec_transaction_store() == old(store).spec_transaction_store()
            },
            self.continues(*old(store)) ==> {
                &&& final(store).spec_headers() == old(store).spec_headers() + self.spec_headers()
                &&& final(store).unspent() == crate::store::transaction_store::spend_all(
                    old(store).unspent(),
                    self.spec_transaction_store().spec_backend().spec_spent(),
                ).union_prefer_right(self.unspent())
                &&& (r == Err::<(), AddBlockError>(AddBlockError::UnknownOutput) <==> (old(store).spec_transaction_store().spec_strict()
                    && !crate::store::transaction_store::inputs_known(
                    old(store).unspent(),
                    self.spec_transaction_store().spec_backend().spec_spent(),
                )))
            },
    {
        let mut i: usize = 0;
        while i < self.block_headers.len()
            invariant
                self.wf(),
                store.wf(),
                i <= self.spec_headers().len(),
                i > 0 ==> self.continues(*old(store)),
                store.spec_headers() == old(store).spec_headers() + self.spec_headers().subrange(0, i as int),
                store.spec_transaction_store() == old(store).spec_transaction_store(),
            decreases self.spec_headers().len() - i,
        {
            proof {
                if i > 0 {
                    assert(store.spec_headers().last() == self.spec_headers()[i - 1]);
                    assert(self.spec_headers()[i as int].previous_block_hash == self.spec_headers()[i - 1].hash);
                }
            }
            if !store.add_block_header(self.block_headers[i]) {
                assert(i == 0);
                return Err(AddBlockError::Discontinuity);
            }
            assert(store.spec_headers() =~= old(store).spec_headers() + self.spec_headers().subrange(0, i + 1));
            i = i + 1;
        }
        assert(self.spec_headers().subrange(0, self.spec_headers().len() as int) =~= self.spec_headers());
        if self.transaction_store.merge(&mut store.transaction_store) {
            Ok(())
        } else {
            Err(AddBlockError::UnknownOutput)
        }
    }

    /// This store's headers continue `store`'s chain: there are none, or the
    /// first names `store`'s last block as its parent.
    pub open spec fn continues<T: TransactionStoreBackendTrait>(&self, store: Store<T>) -> bool {
        self.spec_headers().len() == 0 || store.links(self.spec_headers()[0])
    }
}

/// A store that lays blocks over a base store without changing it.
pub type AugmentedStore<'a, T> = Store<AugmentedTransactionStoreBackend<'a, T>>;

impl<'a, T: TransactionStoreBackendTrait> Store<AugmentedTransactionStoreBackend<'a, T>> {
    pub fn new(base_store: &'a Store<T>) -> (r: Self)
        requires
            base_store.wf(),
        ensures
            r.wf(),
            r.spec_headers().len() == 0,
            r.spec_transaction_store().spec_strict(),
            r.unspent() == base_store.unspent(),
            r.spec_transaction_store().spec_backend().base() == base_store.spec_transaction_store().spec_backend(),
    {
        let backend = AugmentedTransactionStoreBackend::new(base_store.backend());
        let r = Store { transaction_store: TransactionStore::new_with_backend(true, backend), block_headers: Vec::new() };
        assert(r.unspent() =~= base_store.unspent());
        r
    }

    /// An overlay on `base_store` that shows the transactions of `blocks`
    /// applied in order, as if they were added to the base.
    pub fn with_blocks(base_store: &'a Store<T>, blocks: &Vec<Block>) -> (r: Self)
        requires
            base_store.wf(),
            forall|i: int| 0 <= i < blocks@.len() ==> (#[trigger] blocks@[i]).wf(),
        ensures
            r.wf(),
            r.unspent() == apply_blocks(base_store.unspent(), blocks@),
    {
        let mut r = Self::new(base_store);
        let mut i: usize = 0;
        while i < blocks.len()
            invariant
                r.wf(),
                i <= blocks@.len(),
                forall|j: int| 0 <= j < blocks@.len() ==> (#[trigger] blocks@[j]).wf(),
                r.unspent() == apply_blocks(base_store.unspent(), blocks@.subrange(0, i as int)),
            decreases blocks@.len() - i,
        {
            assert(blocks@.subrange(0, i + 1).drop_last() =~= blocks@.subrange(0, i as int));
            assert(blocks@[i as int].wf());
            r.transaction_store.add_transactions(blocks[i].transactions());
            i = i + 1;
        }
        assert(blocks@.subrange(0, blocks@.len() as int) =~= blocks@);
        r
    }
}

/// A store's header chain is linked: each header names the previous one as
/// its parent.
pub proof fn lemma_header_chain<T: TransactionStoreBackendTrait>(store: &Store<T>)
    requires
        store.wf(),
    ensures
        forall|i: int| 0 < i < store.spec_headers().len() ==>
            #[trigger] store.spec_headers()[i].previous_block_hash == store.spec_headers()[i - 1].hash,
{
}

} // verus!
