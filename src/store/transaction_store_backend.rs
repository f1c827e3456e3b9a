use vstd::prelude::*;
use crate::address::{address_from_bytes, address_parts, lemma_address_with_parts, Address};
use crate::buffer_writer::{le_bytes, BufferWriter};
use crate::hashing_buffer_reader::{le_value, HashingBufferReader};
use crate::store::store_file::{encode_utxo, encode_utxos, lemma_utxo_entry_of, lemma_utxos_fail, spec_utxos, utxo_view, utxos_map, UtxoView};
use crate::hashmap::{entries_map, keys_of, MapKey, U64HashMap};
use crate::store::transaction_store_backend_trait::{
    lists, OutputRecord, ReadonlyTransactionStoreBackendTrait, TransactionStoreBackendTrait,
};
use crate::transaction_output::TransactionOutput;

verus! {

/// The two maps of the canonical index agree: each output that pays to an
/// address stands under that address with its value, each output under an
/// address pays to it, and no address stands with no output.
pub open spec fn maps_agree(
    unspent: Map<TransactionOutput, OutputRecord>,
    by_address: Map<Address, Map<TransactionOutput, u64>>,
) -> bool {
    &&& forall|txo: TransactionOutput|
        #[trigger] unspent.contains_key(txo) && unspent[txo].1 is Some ==> {
            let a = unspent[txo].1->Some_0;
            by_address.contains_key(a) && by_address[a].contains_key(txo) && by_address[a][txo]
                == unspent[txo].0
        }
    &&& forall|a: Address, txo: TransactionOutput|
        #[trigger] by_address.contains_key(a) && #[trigger] by_address[a].contains_key(txo) ==> {
            unspent.contains_key(txo) && unspent[txo] == (by_address[a][txo], Some(a))
        }
    &&& forall|a: Address| #[trigger] by_address.contains_key(a)
        ==> by_address[a].dom().finite() && by_address[a].len() > 0
}

/// The canonical index: each unspent output with its value and address, and
/// for each address the outputs that pay to it.
#[derive(Debug)]
pub struct IndexedTransactionStoreBackend {
    unspent_txo_address_map: U64HashMap<TransactionOutput, OutputRecord>,
    address_unspent_txos_map: U64HashMap<Address, U64HashMap<TransactionOutput, u64>>,
}

impl IndexedTransactionStoreBackend {
    pub closed spec fn spec_unspent(&self) -> Map<TransactionOutput, OutputRecord> {
        self.unspent_txo_address_map@
    }

    /// For each address, its unspent outputs and their values.
    pub closed spec fn by_address(&self) -> Map<Address, Map<TransactionOutput, u64>> {
        self.address_unspent_txos_map@.map_values(|m: U64HashMap<TransactionOutput, u64>| m@)
    }

    pub closed spec fn spec_wf(&self) -> bool {
        &&& self.unspent_txo_address_map.wf()
        &&& self.address_unspent_txos_map.wf()
        &&& forall|a: Address| #[trigger] self.address_unspent_txos_map@.contains_key(a)
            ==> self.address_unspent_txos_map@[a].wf()
        &&& maps_agree(self.spec_unspent(), self.by_address())
    }

    /// The canonical index keeps its two maps in agreement: each output that
    /// pays to an address stands under that address with its value, and the
    /// other way round; no address stands with no output. So the outputs of
    /// an address are exactly those of the first map that pay to it.
    pub proof fn lemma_two_map_agreement(&self)
        requires
            self.spec_wf(),
        ensures
            maps_agree(self.spec_unspent(), self.by_address()),
            forall|a: Address, txo: TransactionOutput| #[trigger] self.outputs_of_address(a).contains_key(txo)
                <==> (self.spec_unspent().contains_key(txo) && self.spec_unspent()[txo].1 == Some(a)),
            forall|a: Address, txo: TransactionOutput| #[trigger] self.outputs_of_address(a).contains_key(txo)
                ==> self.outputs_of_address(a)[txo] == self.spec_unspent()[txo].0,
    {
        assert forall|a: Address, txo: TransactionOutput| #[trigger] self.outputs_of_address(a).contains_key(txo)
            <==> (self.spec_unspent().contains_key(txo) && self.spec_unspent()[txo].1 == Some(a)) by {
            if self.spec_unspent().contains_key(txo) && self.spec_unspent()[txo].1 == Some(a) {
                assert(self.by_address().contains_key(a));
            }
            if self.by_address().contains_key(a) {
                assert(self.by_address()[a] == self.address_unspent_txos_map@[a]@);
            }
        }
    }

    /// The outputs of `address`, empty when it has none.
    pub open spec fn outputs_of_address(&self, address: Address) -> Map<TransactionOutput, u64> {
        if self.by_address().contains_key(address) {
            self.by_address()[address]
        } else {
            Map::empty()
        }
    }

    pub fn new() -> (r: Self)
        ensures
            r.spec_wf(),
            r.spec_unspent() == Map::<TransactionOutput, OutputRecord>::empty(),
    {
        let r = IndexedTransactionStoreBackend {
            unspent_txo_address_map: U64HashMap::with_capacity(1 << 15),
            address_unspent_txos_map: U64HashMap::with_capacity(1 << 14),
        };
        assert(r.by_address() =~= Map::empty());
        r
    }

    /// An empty index with room reserved for a whole chain's outputs.
    pub fn large() -> (r: Self)
        ensures
            r.spec_wf(),
            r.spec_unspent() == Map::<TransactionOutput, OutputRecord>::empty(),
    {
        let r = IndexedTransactionStoreBackend {
            unspent_txo_address_map: U64HashMap::with_capacity(1 << 23),
            address_unspent_txos_map: U64HashMap::with_capacity(1 << 22),
        };
        assert(r.by_address() =~= Map::empty());
        r
    }

    /// The unspent outputs with their records, each once, in no particular order.
    pub fn unspent_transaction_outputs(&self) -> (r: Vec<(TransactionOutput, OutputRecord)>)
        requires
            self.spec_wf(),
        ensures
            keys_of(r@).no_duplicates(),
            entries_map(r@) == self.spec_unspent(),
    {
        proof {
            self.unspent_txo_address_map.lemma_entries();
        }
        self.unspent_txo_address_map.iter()
    }

    /// The unspent outputs in the order they are kept.
    pub closed spec fn spec_entries(&self) -> Seq<(TransactionOutput, OutputRecord)> {
        self.unspent_txo_address_map.entries()
    }

    /// The kept order lists each unspent output once.
    pub proof fn lemma_entries(&self)
        requires
            self.spec_wf(),
        ensures
            keys_of(self.spec_entries()).no_duplicates(),
            entries_map(self.spec_entries()) == self.spec_unspent(),
            self.spec_entries().len() == self.spec_unspent().len(),
    {
        self.unspent_txo_address_map.lemma_entries();
    }

    /// Writes the output count and each unspent output, in the kept order.
    pub fn to_writer(&self, writer: &mut BufferWriter)
        requires
            self.spec_wf(),
            self.spec_unspent().len() <= u32::MAX,
        ensures
            final(writer).written() == old(writer).written() + le_bytes(self.spec_entries().len(), 4)
                + encode_utxos(self.spec_entries()),
    {
        proof {
            self.unspent_txo_address_map.lemma_entries();
        }
        let entries = self.unspent_txo_address_map.iter();
        assert(entries@.len() == self.spec_unspent().len());
        writer.write_u32(entries.len() as u32);
        let ghost start = writer.written();
        let mut i: usize = 0;
        while i < entries.len()
            invariant
                i <= entries@.len(),
                entries@ == self.spec_entries(),
                writer.written() == start + encode_utxos(entries@.subrange(0, i as int)),
            decreases entries@.len() - i,
        {
            let (txo, (value, address)) = entries[i];
            let ghost before = writer.written();
            writer.write_hash(txo.hash);
            writer.write_u32(txo.index);
            writer.write_u64(value);
            match address {
                Some(a) => {
                    writer.write_u8(1);
                    let bytes = a.to_vec();
                    writer.write_buffer(bytes.as_slice());
                },
                None => {
                    writer.write_u8(0);
                },
            }
            assert(entries@.subrange(0, i + 1).drop_last() =~= entries@.subrange(0, i as int));
            assert(writer.written() =~= before + encode_utxo(entries@[i as int]));
            i = i + 1;
        }
        assert(entries@.subrange(0, entries@.len() as int) =~= entries@);
    }

    /// Reads an output count and that many outputs, and indexes them in order.
    pub fn from_reader(reader: &mut HashingBufferReader) -> (r: Option<Self>)
        requires
            old(reader).wf(),
        ensures
            final(reader).wf(),
            final(reader).bytes() == old(reader).bytes(),
            match r {
                Some(b) => b.spec_wf() && old(reader).has(4) && exists|us: Seq<UtxoView>|
                    spec_utxos(old(reader).bytes(), old(reader).spec_offset() + 4, le_value(old(reader).ahead(4)))
                        == Some((us, final(reader).spec_offset())) && b.spec_unspent() == utxos_map(us),
                None => !old(reader).has(4) || spec_utxos(
                    old(reader).bytes(),
                    old(reader).spec_offset() + 4,
                    le_value(old(reader).ahead(4)),
                ) is None,
            },
    {
        let ghost buf = reader.bytes();
        let ghost r0 = *reader;
        let count = reader.read_u32_le(false)?;
        let ghost start = reader.spec_offset();
        let mut store = Self::new();
        let mut i: u32 = 0;
        let ghost mut us: Seq<UtxoView> = Seq::empty();
        while i < count
            invariant
                reader.wf(),
                reader.bytes() == buf,
                buf == old(reader).bytes(),
                r0 == *old(reader),
                r0.has(4),
                count == le_value(r0.ahead(4)),
                start == r0.spec_offset() + 4,
                i <= count,
                store.spec_wf(),
                spec_utxos(buf, start, i as nat) == Some((us, reader.spec_offset())),
                store.spec_unspent() == utxos_map(us),
            decreases count - i,
        {
            let ghost p = reader.spec_offset();
            let parsed = read_utxo(reader);
            match parsed {
                Some((txo, value, address)) => {
                    proof {
                        lemma_utxo_entry_of(txo.hash, txo.index, value, address);
                        let prev = us;
                        us = us.push(utxo_view((txo, (value, address))));
                        assert(us.drop_last() =~= prev);
                    }
                    store.add_transaction_output(txo, address, value);
                },
                None => {
                    proof {
                        lemma_utxos_fail(buf, start, (i + 1) as nat, count as nat);
                    }
                    return None;
                },
            }
            i = i + 1;
        }
        Some(store)
    }

    /// How many outputs are unspent, capped at the largest `usize`.
    pub fn len(&self) -> (r: usize)
        requires
            self.spec_wf(),
        ensures
            r as int == if self.spec_unspent().len() > usize::MAX {
                usize::MAX as int
            } else {
                self.spec_unspent().len() as int
            },
    {
        self.unspent_txo_address_map.len()
    }

    fn remove_from_address(&mut self, address: &Address, txo: &TransactionOutput)
        requires
            old(self).unspent_txo_address_map.wf(),
            old(self).address_unspent_txos_map.wf(),
            forall|a: Address| #[trigger] old(self).address_unspent_txos_map@.contains_key(a)
                ==> old(self).address_unspent_txos_map@[a].wf(),
            old(self).by_address().contains_key(*address),
        ensures
            final(self).unspent_txo_address_map == old(self).unspent_txo_address_map,
            final(self).address_unspent_txos_map.wf(),
            forall|a: Address| #[trigger] final(self).address_unspent_txos_map@.contains_key(a)
                ==> final(self).address_unspent_txos_map@[a].wf(),
            final(self).by_address() == (if old(self).by_address()[*address].remove(*txo).len() == 0 {
                old(self).by_address().remove(*address)
            } else {
                old(self).by_address().insert(*address, old(self).by_address()[*address].remove(*txo))
            }),
    {
        let ghost before = self.by_address();
        let removed = self.address_unspent_txos_map.remove(address);
        match removed {
            Some(mut txos) => {
                txos.remove(txo);
                if txos.len() == 0 {
                    assert(self.by_address() =~= before.remove(*address));
                } else {
                    let ghost inner = txos@;
                    self.address_unspent_txos_map.insert(*address, txos);
                    assert(self.by_address() =~= before.insert(*address, inner));
                }
            },
            None => {},
        }
    }

    fn add_to_address(&mut self, address: Address, txo: TransactionOutput, value: u64)
        requires
            old(self).unspent_txo_address_map.wf(),
            old(self).address_unspent_txos_map.wf(),
            forall|a: Address| #[trigger] old(self).address_unspent_txos_map@.contains_key(a)
                ==> old(self).address_unspent_txos_map@[a].wf(),
        ensures
            final(self).unspent_txo_address_map == old(self).unspent_txo_address_map,
            final(self).address_unspent_txos_map.wf(),
            forall|a: Address| #[trigger] final(self).address_unspent_txos_map@.contains_key(a)
                ==> final(self).address_unspent_txos_map@[a].wf(),
            final(self).by_address() == old(self).by_address().insert(
                address,
                if old(self).by_address().contains_key(address) {
                    old(self).by_address()[address].insert(txo, value)
                } else {
                    Map::empty().insert(txo, value)
                },
            ),
    {
        let ghost before = self.by_address();
        let mut txos = match self.address_unspent_txos_map.remove(&address) {
            Some(txos) => txos,
            None => U64HashMap::new(),
        };
        txos.insert(txo, value);
        let ghost inner = txos@;
        self.address_unspent_txos_map.insert(address, txos);
        assert(self.by_address() =~= before.insert(address, inner));
    }
}

/// What a canonical index writes reads back as that index: placed anywhere
/// in a buffer, the output count reads as the number of outputs written, the
/// outputs parse from there, and indexing them in order gives back the same
/// unspent outputs with their values and addresses.
pub proof fn lemma_backend_round_trip(backend: &IndexedTransactionStoreBackend, pre: Seq<u8>, post: Seq<u8>)
    requires
        backend.spec_wf(),
        backend.spec_unspent().len() <= u32::MAX,
    ensures
        ({
            let es = backend.spec_entries();
            let bytes = pre + le_bytes(es.len(), 4) + encode_utxos(es) + post;
            &&& le_value(bytes.subrange(pre.len() as int, (pre.len() + 4) as int)) == es.len()
            &&& spec_utxos(bytes, (pre.len() + 4) as int, es.len()) == Some((
                es.map_values(|e: (TransactionOutput, OutputRecord)| utxo_view(e)),
                (pre.len() + 4 + encode_utxos(es).len()) as int,
            ))
            &&& utxos_map(es.map_values(|e: (TransactionOutput, OutputRecord)| utxo_view(e))) == backend.spec_unspent()
        }),
{
    backend.lemma_entries();
    let es = backend.spec_entries();
    let count = le_bytes(es.len(), 4);
    assert(crate::hashing_buffer_reader::pow256(4) == 0x1_0000_0000) by {
        assert(crate::hashing_buffer_reader::pow256(0) == 1);
        assert(crate::hashing_buffer_reader::pow256(1) == 0x100);
        assert(crate::hashing_buffer_reader::pow256(2) == 0x1_0000);
        assert(crate::hashing_buffer_reader::pow256(3) == 0x100_0000);
    }
    crate::buffer_writer::lemma_le_round_trip(es.len(), 4);
    let bytes = pre + count + encode_utxos(es) + post;
    assert(bytes.subrange(pre.len() as int, (pre.len() + 4) as int) =~= count);
    crate::store::store_file::lemma_utxos_parse(pre + count, es, post);
    crate::store::store_file::lemma_utxos_map(es);
}

/// Reads one unspent output of the store file.
fn read_utxo(reader: &mut HashingBufferReader) -> (r: Option<(TransactionOutput, u64, Option<Address>)>)
    requires
        old(reader).wf(),
    ensures
        final(reader).wf(),
        final(reader).bytes() == old(reader).bytes(),
        match r {
            Some((txo, value, address)) => crate::store::store_file::spec_utxo(old(reader).bytes(), old(reader).spec_offset())
                == Some((utxo_view((txo, (value, address))), final(reader).spec_offset())),
            None => crate::store::store_file::spec_utxo(old(reader).bytes(), old(reader).spec_offset()) is None,
        },
{
    let ghost r0 = *reader;
    let hash = reader.read_hash(false)?;
    let index = reader.read_u32_le(false)?;
    let value = reader.read_u64_le(false)?;
    let has_address = reader.read_bool(false)?;
    let address = if has_address {
        let bytes = reader.read_buffer(21, false)?;
        match Address::from_slice(bytes) {
            Ok(a) => Some(a),
            Err(_) => return None,
        }
    } else {
        None
    };
    Some((TransactionOutput::new(hash, index), value, address))
}

impl ReadonlyTransactionStoreBackendTrait for IndexedTransactionStoreBackend {
    open spec fn readable(&self) -> bool {
        self.spec_wf()
    }

    open spec fn outputs_of(&self, address: Address) -> Map<TransactionOutput, u64> {
        self.outputs_of_address(address)
    }

    fn transaction_outputs(&self, address: &Address) -> (r: Vec<(TransactionOutput, u64)>) {
        let mut r: Vec<(TransactionOutput, u64)> = Vec::new();
        match self.address_unspent_txos_map.get(address) {
            Some(txos) => {
                let entries = txos.iter();
                proof {
                    txos.lemma_entries();
                }
                let mut i: usize = 0;
                while i < entries.len()
                    invariant
                        i <= entries@.len(),
                        entries@ == txos.entries(),
                        r@ == entries@.subrange(0, i as int),
                    decreases entries@.len() - i,
                {
                    r.push(entries[i]);
                    i = i + 1;
                }
                assert(r@ =~= entries@);
                assert(self.by_address()[*address] == txos@);
            },
            None => {
                assert(entries_map(r@) =~= Map::empty());
                assert(keys_of(r@) =~= Seq::empty());
            },
        }
        r
    }
}

impl TransactionStoreBackendTrait for IndexedTransactionStoreBackend {
    open spec fn wf(&self) -> bool {
        self.spec_wf()
    }

    open spec fn unspent(&self) -> Map<TransactionOutput, OutputRecord> {
        self.spec_unspent()
    }

    open spec fn unknown_spends(&self) -> Seq<TransactionOutput> {
        Seq::empty()
    }


    open spec fn underlying(&self) -> Map<TransactionOutput, OutputRecord> {
        Map::empty()
    }

    open spec fn records_unknown_spends(&self) -> bool {
        false
    }

    fn has_transaction_output(&self, txo: &TransactionOutput) -> (r: bool) {
        self.unspent_txo_address_map.contains_key(txo)
    }

    fn spend_transaction_output(&mut self, txo: &TransactionOutput) -> (r: bool) {
        let ghost unspent0 = self.spec_unspent();
        let ghost by0 = self.by_address();
        match self.unspent_txo_address_map.remove(txo) {
            Some((_, address)) => {
                match address {
                    Some(a) => {
                        self.remove_from_address(&a, txo);
                        let ghost unspent1 = self.spec_unspent();
                        let ghost by1 = self.by_address();
                        assert forall|t: TransactionOutput|
                            #[trigger] unspent1.contains_key(t) && unspent1[t].1 is Some implies {
                                let b = unspent1[t].1->Some_0;
                                by1.contains_key(b) && by1[b].contains_key(t) && by1[b][t] == unspent1[t].0
                            } by {
                            let b = unspent1[t].1->Some_0;
                            assert(unspent0.contains_key(t) && unspent0[t] == unspent1[t]);
                            assert(by0.contains_key(b) && by0[b].contains_key(t));
                            if b == a {
                                assert(by0[a].remove(*txo).contains_key(t));
                                assert(by0[a].remove(*txo).dom().contains(t));
                                vstd::set_lib::lemma_set_empty_equivalency_len(by0[a].remove(*txo).dom());
                            }
                        }
                        assert forall|b: Address, t: TransactionOutput|
                            #[trigger] by1.contains_key(b) && #[trigger] by1[b].contains_key(t) implies {
                                unspent1.contains_key(t) && unspent1[t] == (by1[b][t], Some(b))
                            } by {
                            assert(by0.contains_key(b) && by0[b].contains_key(t));
                            if b == a {
                                assert(t != *txo);
                            } else {
                                assert(unspent0[t] == (by0[b][t], Some(b)));
                                if t == *txo {
                                    assert(unspent0[*txo].1 == Some(a));
                                }
                            }
                        }
                        assert forall|b: Address| #[trigger] by1.contains_key(b) implies by1[b].dom().finite()
                            && by1[b].len() > 0 by {
                            assert(by0.contains_key(b));
                        }
                    },
                    None => {
                        assert forall|b: Address, t: TransactionOutput|
                            #[trigger] by0.contains_key(b) && #[trigger] by0[b].contains_key(t) implies t != *txo by {
                            assert(unspent0.contains_key(t) && unspent0[t].1 == Some(b));
                        }
                    },
                }
                true
            },
            None => {
                assert(self.spec_unspent() =~= unspent0.remove(*txo));
                false
            },
        }
    }

    fn add_transaction_output(&mut self, txo: TransactionOutput, address: Option<Address>, value: u64) {
        let ghost unspent_start = self.spec_unspent();
        self.spend_transaction_output(&txo);
        let ghost unspent0 = self.spec_unspent();
        let ghost by0 = self.by_address();
        self.unspent_txo_address_map.insert(txo, (value, address));
        match address {
            Some(a) => {
                self.add_to_address(a, txo, value);
                let ghost unspent1 = self.spec_unspent();
                let ghost by1 = self.by_address();
                assert forall|t: TransactionOutput|
                    #[trigger] unspent1.contains_key(t) && unspent1[t].1 is Some implies {
                        let b = unspent1[t].1->Some_0;
                        by1.contains_key(b) && by1[b].contains_key(t) && by1[b][t] == unspent1[t].0
                    } by {
                    if t != txo {
                        let b = unspent1[t].1->Some_0;
                        assert(by0.contains_key(b) && by0[b].contains_key(t));
                    }
                }
                assert forall|b: Address, t: TransactionOutput|
                    #[trigger] by1.contains_key(b) && #[trigger] by1[b].contains_key(t) implies {
                        unspent1.contains_key(t) && unspent1[t] == (by1[b][t], Some(b))
                    } by {
                    if !(b == a && t == txo) {
                        assert(by0.contains_key(b) && by0[b].contains_key(t));
                        assert(unspent0.contains_key(t));
                    }
                }
                assert forall|b: Address| #[trigger] by1.contains_key(b) implies by1[b].dom().finite()
                    && by1[b].len() > 0 by {
                    if b == a {
                        assert(by1[a].contains_key(txo));
                        assert(by1[a].dom().contains(txo));
                        vstd::set_lib::lemma_set_empty_equivalency_len(by1[a].dom());
                    } else {
                        assert(by0.contains_key(b));
                    }
                }
            },
            None => {
                let ghost unspent1 = self.spec_unspent();
                assert forall|b: Address, t: TransactionOutput|
                    #[trigger] by0.contains_key(b) && #[trigger] by0[b].contains_key(t) implies {
                        unspent1.contains_key(t) && unspent1[t] == (by0[b][t], Some(b))
                    } by {
                    assert(unspent0.contains_key(t));
                }
            },
        }
        assert(self.spec_unspent() =~= unspent_start.insert(txo, (value, address)));
    }
}

/// A staging buffer that one worker fills from a run of blocks: the outputs
/// the run created and did not spend, and the outputs it spent that an
/// earlier run created.
#[derive(Debug)]
pub struct IntermediaryTransactionStoreBackend {
    spent_txos: Vec<TransactionOutput>,
    unspent_txos: U64HashMap<TransactionOutput, OutputRecord>,
}

impl IntermediaryTransactionStoreBackend {
    pub closed spec fn spec_spent(&self) -> Seq<TransactionOutput> {
        self.spent_txos@
    }

    pub closed spec fn spec_unspent(&self) -> Map<TransactionOutput, OutputRecord> {
        self.unspent_txos@
    }

    pub closed spec fn spec_wf(&self) -> bool {
        self.unspent_txos.wf()
    }

    pub fn new() -> (r: Self)
        ensures
            r.spec_wf(),
            r.spec_spent() == Seq::<TransactionOutput>::empty(),
            r.spec_unspent() == Map::<TransactionOutput, OutputRecord>::empty(),
    {
        IntermediaryTransactionStoreBackend { spent_txos: Vec::new(), unspent_txos: U64HashMap::with_capacity(1 << 18) }
    }

    /// The outputs spent that this buffer did not create, in order.
    pub fn spent_txos(&self) -> (r: &Vec<TransactionOutput>)
        ensures
            r@ == self.spec_spent(),
    {
        &self.spent_txos
    }

    /// The outputs created and not spent, each once, in no particular order.
    pub fn unspent_txos(&self) -> (r: Vec<(TransactionOutput, OutputRecord)>)
        requires
            self.spec_wf(),
        ensures
            keys_of(r@).no_duplicates(),
            entries_map(r@) == self.spec_unspent(),
    {
        proof {
            self.unspent_txos.lemma_entries();
        }
        self.unspent_txos.iter()
    }
}

impl TransactionStoreBackendTrait for IntermediaryTransactionStoreBackend {
    open spec fn wf(&self) -> bool {
        self.spec_wf()
    }

    open spec fn unspent(&self) -> Map<TransactionOutput, OutputRecord> {
        self.spec_unspent()
    }

    open spec fn unknown_spends(&self) -> Seq<TransactionOutput> {
        self.spec_spent()
    }


    open spec fn underlying(&self) -> Map<TransactionOutput, OutputRecord> {
        Map::empty()
    }

    open spec fn records_unknown_spends(&self) -> bool {
        true
    }

    fn has_transaction_output(&self, txo: &TransactionOutput) -> (r: bool) {
        self.unspent_txos.contains_key(txo)
    }

    fn spend_transaction_output(&mut self, txo: &TransactionOutput) -> (r: bool) {
        match self.unspent_txos.remove(txo) {
            Some(_) => true,
            None => {
                self.spent_txos.push(*txo);
                assert(self.spec_unspent() =~= old(self).spec_unspent().remove(*txo));
                false
            },
        }
    }

    fn add_transaction_output(&mut self, txo: TransactionOutput, address: Option<Address>, value: u64) {
        self.unspent_txos.insert(txo, (value, address));
    }
}

/// An overlay's own state: the base outputs it has spent, and the outputs it
/// has added.
pub struct TransactionStoreAugmentation {
    spent_txos: U64HashMap<TransactionOutput, ()>,
    store: IndexedTransactionStoreBackend,
}

/// The outputs that an overlay sees over `base`: its own, and those of the
/// base that it has not spent.
pub open spec fn overlay(
    base: Map<TransactionOutput, OutputRecord>,
    spent: Set<TransactionOutput>,
    delta: Map<TransactionOutput, OutputRecord>,
) -> Map<TransactionOutput, OutputRecord> {
    Map::new(
        |t: TransactionOutput| delta.contains_key(t) || (base.contains_key(t) && !spent.contains(t)),
        |t: TransactionOutput| if delta.contains_key(t) { delta[t] } else { base[t] },
    )
}

impl TransactionStoreAugmentation {
    pub closed spec fn spent(&self) -> Set<TransactionOutput> {
        self.spent_txos@.dom()
    }

    pub closed spec fn delta(&self) -> IndexedTransactionStoreBackend {
        self.store
    }

    pub closed spec fn wf(&self) -> bool {
        self.spent_txos.wf() && self.store.spec_wf()
    }

    /// Each output the augmentation holds that `base` holds too is marked
    /// spent in the base, so only the augmentation's own copy shows.
    pub open spec fn masks(&self, base: Map<TransactionOutput, OutputRecord>) -> bool {
        forall|t: TransactionOutput| #[trigger] self.delta().spec_unspent().contains_key(t) && base.contains_key(t)
            ==> self.spent().contains(t)
    }

    /// The outputs that this augmentation sees over a base whose unspent
    /// outputs are `base`.
    pub open spec fn over(&self, base: Map<TransactionOutput, OutputRecord>) -> Map<TransactionOutput, OutputRecord> {
        overlay(base, self.spent(), self.delta().spec_unspent())
    }

    fn new() -> (r: Self)
        ensures
            r.wf(),
            r.spent() == Set::<TransactionOutput>::empty(),
            r.delta().spec_unspent() == Map::<TransactionOutput, OutputRecord>::empty(),
    {
        let r = TransactionStoreAugmentation {
            spent_txos: U64HashMap::with_capacity(1 << 15),
            store: IndexedTransactionStoreBackend::new(),
        };
        assert(r.spent() =~= Set::empty());
        r
    }

    /// Whether this augmentation has spent `txo` from its base.
    pub fn is_spent(&self, txo: &TransactionOutput) -> (r: bool)
        requires
            self.wf(),
        ensures
            r == self.spent().contains(*txo),
    {
        self.spent_txos.contains_key(txo)
    }

    /// The outputs that this augmentation has added.
    pub fn store(&self) -> (r: &IndexedTransactionStoreBackend)
        ensures
            *r == self.delta(),
    {
        &self.store
    }
}

/// An overlay on a base backend that it must not change.
pub struct AugmentedTransactionStoreBackend<'a, T> {
    base_store: &'a T,
    store: TransactionStoreAugmentation,
}

impl<'a, T: TransactionStoreBackendTrait> AugmentedTransactionStoreBackend<'a, T> {
    pub closed spec fn base(&self) -> T {
        *self.base_store
    }

    pub closed spec fn spec_augmentation(&self) -> TransactionStoreAugmentation {
        self.store
    }

    pub fn new(base_store: &'a T) -> (r: Self)
        requires
            base_store.wf(),
        ensures
            r.base() == *base_store,
            r.spec_augmentation().wf(),
            r.spec_augmentation().spent() == Set::<TransactionOutput>::empty(),
            r.spec_augmentation().delta().spec_unspent() == Map::<TransactionOutput, OutputRecord>::empty(),
    {
        AugmentedTransactionStoreBackend { base_store, store: TransactionStoreAugmentation::new() }
    }

    pub fn augmentation(&self) -> (r: &TransactionStoreAugmentation)
        ensures
            *r == self.spec_augmentation(),
    {
        &self.store
    }

    /// Spends `txo`: in the augmentation's own outputs when it holds it; else,
    /// when the base holds it and it is not spent yet, by marking it spent;
    /// else it fails and nothing changes. The base is never changed.
    pub fn spend(&mut self, txo: &TransactionOutput) -> (r: bool)
        requires
            old(self).wf(),
        ensures
            final(self).wf(),
            final(self).base() == old(self).base(),
            r == old(self).unspent().contains_key(*txo),
            final(self).unspent() == old(self).unspent().remove(*txo),
            old(self).spec_augmentation().delta().spec_unspent().contains_key(*txo) ==> {
                &&& final(self).spec_augmentation().delta().spec_unspent()
                    == old(self).spec_augmentation().delta().spec_unspent().remove(*txo)
                &&& final(self).spec_augmentation().spent() == old(self).spec_augmentation().spent()
            },
            !old(self).spec_augmentation().delta().spec_unspent().contains_key(*txo) && r ==> {
                &&& final(self).spec_augmentation().delta().spec_unspent() == old(self).spec_augmentation().delta().spec_unspent()
                &&& final(self).spec_augmentation().spent() == old(self).spec_augmentation().spent().insert(*txo)
            },
            !r ==> {
                &&& final(self).spec_augmentation().delta().spec_unspent() == old(self).spec_augmentation().delta().spec_unspent()
                &&& final(self).spec_augmentation().spent() == old(self).spec_augmentation().spent()
            },
    {
        if self.store.store.has_transaction_output(txo) {
            self.store.store.spend_transaction_output(txo);
            assert(self.unspent() =~= old(self).unspent().remove(*txo));
            true
        } else if !self.store.spent_txos.contains_key(txo) && self.base_store.has_transaction_output(txo) {
            self.store.spent_txos.insert(*txo, ());
            assert(self.spec_augmentation().spent() =~= old(self).spec_augmentation().spent().insert(*txo));
            assert(self.unspent() =~= old(self).unspent().remove(*txo));
            true
        } else {
            assert(self.unspent() =~= old(self).unspent().remove(*txo));
            false
        }
    }

    /// Adds `txo` to the augmentation's own outputs. When the base holds an
    /// unspent output of the same outpoint, that copy is marked spent, so the
    /// new one takes its place.
    pub fn add(&mut self, txo: TransactionOutput, address: Option<Address>, value: u64)
        requires
            old(self).wf(),
        ensures
            final(self).wf(),
            final(self).base() == old(self).base(),
            final(self).unspent() == old(self).unspent().insert(txo, (value, address)),
            final(self).spec_augmentation().delta().spec_unspent() == old(self).spec_augmentation().delta().spec_unspent().insert(
                txo,
                (value, address),
            ),
            final(self).spec_augmentation().spent() == if old(self).base().unspent().contains_key(txo) {
                old(self).spec_augmentation().spent().insert(txo)
            } else {
                old(self).spec_augmentation().spent()
            },
    {
        if !self.store.spent_txos.contains_key(&txo) && self.base_store.has_transaction_output(&txo) {
            self.store.spent_txos.insert(txo, ());
        }
        self.store.store.add_transaction_output(txo, address, value);
        proof {
            if old(self).base().unspent().contains_key(txo) {
                assert(self.spec_augmentation().spent() =~= old(self).spec_augmentation().spent().insert(txo));
            }
        }
        assert(self.unspent() =~= old(self).unspent().insert(txo, (value, address)));
    }

    pub fn take_augmentation(self) -> (r: TransactionStoreAugmentation)
        ensures
            r == self.spec_augmentation(),
    {
        self.store
    }
}

impl<'a, T: TransactionStoreBackendTrait> TransactionStoreBackendTrait for AugmentedTransactionStoreBackend<'a, T> {
    open spec fn wf(&self) -> bool {
        self.base().wf() && self.spec_augmentation().wf() && self.spec_augmentation().masks(self.base().unspent())
    }

    open spec fn unspent(&self) -> Map<TransactionOutput, OutputRecord> {
        self.spec_augmentation().over(self.base().unspent())
    }

    open spec fn unknown_spends(&self) -> Seq<TransactionOutput> {
        Seq::empty()
    }


    open spec fn underlying(&self) -> Map<TransactionOutput, OutputRecord> {
        self.base().unspent()
    }

    open spec fn records_unknown_spends(&self) -> bool {
        false
    }

    fn has_transaction_output(&self, txo: &TransactionOutput) -> (r: bool) {
        self.store.store.has_transaction_output(txo) || (!self.store.spent_txos.contains_key(txo)
            && self.base_store.has_transaction_output(txo))
    }

    fn spend_transaction_output(&mut self, txo: &TransactionOutput) -> (r: bool) {
        self.spend(txo)
    }

    fn add_transaction_output(&mut self, txo: TransactionOutput, address: Option<Address>, value: u64) {
        self.add(txo, address, value)
    }
}

/// Read access to a base index, seen through at most one augmentation.
pub struct ReadonlyAugmentedTransactionStoreBackend<'a, T> {
    store: &'a T,
    augmentation: Option<&'a TransactionStoreAugmentation>,
}

impl<'a, T: ReadonlyTransactionStoreBackendTrait> ReadonlyAugmentedTransactionStoreBackend<'a, T> {
    pub closed spec fn base(&self) -> T {
        *self.store
    }

    pub closed spec fn spec_augmentation(&self) -> Option<TransactionStoreAugmentation> {
        match self.augmentation {
            Some(a) => Some(*a),
            None => None,
        }
    }

    pub fn new(store: &'a T, augmentation: Option<&'a TransactionStoreAugmentation>) -> (r: Self)
        ensures
            r.base() == *store,
            r.spec_augmentation() == match augmentation {
                Some(a) => Some(*a),
                None => None::<TransactionStoreAugmentation>,
            },
    {
        ReadonlyAugmentedTransactionStoreBackend { store, augmentation }
    }
}

impl<'a, T: ReadonlyTransactionStoreBackendTrait> ReadonlyTransactionStoreBackendTrait for ReadonlyAugmentedTransactionStoreBackend<'a, T> {
    open spec fn readable(&self) -> bool {
        &&& self.base().readable()
        &&& match self.spec_augmentation() {
            Some(a) => a.wf(),
            None => true,
        }
    }

    /// The base's outputs of the address that the augmentation has not
    /// spent, and the augmentation's own.
    open spec fn outputs_of(&self, address: Address) -> Map<TransactionOutput, u64> {
        match self.spec_augmentation() {
            Some(a) => Map::new(
                |t: TransactionOutput| a.delta().outputs_of_address(address).contains_key(t)
                    || (self.base().outputs_of(address).contains_key(t) && !a.spent().contains(t)),
                |t: TransactionOutput| if a.delta().outputs_of_address(address).contains_key(t) {
                    a.delta().outputs_of_address(address)[t]
                } else {
                    self.base().outputs_of(address)[t]
                },
            ),
            None => self.base().outputs_of(address),
        }
    }

    fn transaction_outputs(&self, address: &Address) -> (r: Vec<(TransactionOutput, u64)>) {
        match self.augmentation {
            Some(augmentation) => {
                let base = self.store.transaction_outputs(address);
                let own = augmentation.store.transaction_outputs(address);
                let ghost own_map = augmentation.delta().outputs_of_address(*address);
                let ghost base_map = self.base().outputs_of(*address);
                let mut r: Vec<(TransactionOutput, u64)> = Vec::new();
                let mut i: usize = 0;
                while i < base.len()
                    invariant
                        i <= base@.len(),
                        lists(base@, base_map),
                        lists(own@, own_map),
                        augmentation.wf(),
                        keys_of(r@).no_duplicates(),
                        forall|t: TransactionOutput| #[trigger] entries_map(r@).contains_key(t) ==> !own_map.contains_key(t),
                        entries_map(r@) == Map::new(
                            |t: TransactionOutput| entries_map(base@.subrange(0, i as int)).contains_key(t)
                                && !augmentation.spent().contains(t) && !own_map.contains_key(t),
                            |t: TransactionOutput| base_map[t],
                        ),
                    decreases base@.len() - i,
                {
                    let (txo, value) = base[i];
                    proof {
                        crate::hashmap::lemma_entry_in_map(base@, i as int);
                    }
                    if !augmentation.is_spent(&txo) && !contains_output(&own, &txo) {
                        proof {
                            assert(!keys_of(r@).contains(txo)) by {
                                if keys_of(r@).contains(txo) {
                                    let j = choose|j: int| 0 <= j < keys_of(r@).len() && keys_of(r@)[j] == txo;
                                    crate::hashmap::lemma_entry_in_map(r@, j);
                                    let k = choose|k: int| 0 <= k < keys_of(base@.subrange(0, i as int)).len()
                                        && keys_of(base@.subrange(0, i as int))[k] == txo;
                                    assert(keys_of(base@)[k] == keys_of(base@)[i as int]);
                                }
                            }
                            crate::hashmap::lemma_push_entry(r@, txo, value);
                        }
                        r.push((txo, value));
                    }
                    proof {
                        lemma_prefix_map(base@, i as int);
                    }
                    assert(entries_map(r@) =~= Map::new(
                        |t: TransactionOutput| entries_map(base@.subrange(0, i + 1)).contains_key(t)
                            && !augmentation.spent().contains(t) && !own_map.contains_key(t),
                        |t: TransactionOutput| base_map[t],
                    ));
                    i = i + 1;
                }
                assert(base@.subrange(0, base@.len() as int) =~= base@);
                let mut j: usize = 0;
                let ghost from_base = entries_map(r@);
                let ghost before = r@;
                while j < own.len()
                    invariant
                        j <= own@.len(),
                        lists(own@, own_map),
                        keys_of(r@).no_duplicates(),
                        forall|t: TransactionOutput| #[trigger] from_base.contains_key(t) ==> !own_map.contains_key(t),
                        entries_map(r@) == from_base.union_prefer_right(entries_map(own@.subrange(0, j as int))),
                        keys_of(own@.subrange(0, j as int)).no_duplicates(),
                    decreases own@.len() - j,
                {
                    proof {
                        lemma_prefix_map(own@, j as int);
                        crate::hashmap::lemma_entry_in_map(own@, j as int);
                        assert(!keys_of(r@).contains(own@[j as int].0)) by {
                            if keys_of(r@).contains(own@[j as int].0) {
                                let k = choose|k: int| 0 <= k < keys_of(r@).len() && keys_of(r@)[k] == own@[j as int].0;
                                crate::hashmap::lemma_entry_in_map(r@, k);
                                if !from_base.contains_key(own@[j as int].0) {
                                    let m = choose|m: int| 0 <= m < keys_of(own@.subrange(0, j as int)).len()
                                        && keys_of(own@.subrange(0, j as int))[m] == own@[j as int].0;
                                    assert(keys_of(own@)[m] == keys_of(own@)[j as int]);
                                }
                            }
                        }
                        crate::hashmap::lemma_push_entry(r@, own@[j as int].0, own@[j as int].1);
                    }
                    r.push(own[j]);
                    assert(entries_map(r@) =~= from_base.union_prefer_right(entries_map(own@.subrange(0, j + 1))));
                    j = j + 1;
                }
                assert(own@.subrange(0, own@.len() as int) =~= own@);
                assert(entries_map(r@) =~= self.outputs_of(*address));
                r
            },
            None => self.store.transaction_outputs(address),
        }
    }
}

/// Whether `txo` is among the outputs listed in `outputs`.
fn contains_output(outputs: &Vec<(TransactionOutput, u64)>, txo: &TransactionOutput) -> (r: bool)
    ensures
        r == keys_of(outputs@).contains(*txo),
{
    let mut i: usize = 0;
    while i < outputs.len()
        invariant
            i <= outputs@.len(),
            forall|j: int| 0 <= j < i ==> outputs@[j].0 != *txo,
        decreases outputs@.len() - i,
    {
        if outputs[i].0.same_key(txo) {
            assert(keys_of(outputs@)[i as int] == *txo);
            return true;
        }
        i = i + 1;
    }
    proof {
        if keys_of(outputs@).contains(*txo) {
            let j = choose|j: int| 0 <= j < keys_of(outputs@).len() && keys_of(outputs@)[j] == *txo;
            assert(outputs@[j].0 == *txo);
        }
    }
    false
}

/// The map of a prefix of entries grows by one entry at a time.
pub proof fn lemma_prefix_map<K, V>(s: Seq<(K, V)>, i: int)
    requires
        keys_of(s).no_duplicates(),
        0 <= i < s.len(),
    ensures
        keys_of(s.subrange(0, i)).no_duplicates(),
        keys_of(s.subrange(0, i + 1)).no_duplicates(),
        !keys_of(s.subrange(0, i)).contains(s[i].0),
        entries_map(s.subrange(0, i + 1)) == entries_map(s.subrange(0, i)).insert(s[i].0, s[i].1),
{
    assert(keys_of(s.subrange(0, i)) =~= keys_of(s).subrange(0, i));
    assert(keys_of(s.subrange(0, i + 1)) =~= keys_of(s).subrange(0, i + 1));
    assert(s.subrange(0, i + 1) =~= s.subrange(0, i).push(s[i]));
    if keys_of(s.subrange(0, i)).contains(s[i].0) {
        let j = choose|j: int| 0 <= j < keys_of(s.subrange(0, i)).len() && keys_of(s.subrange(0, i))[j] == s[i].0;
        assert(keys_of(s)[j] == keys_of(s)[i]);
    }
    crate::hashmap::lemma_push_entry(s.subrange(0, i), s[i].0, s[i].1);
}

} // verus!
