use utxo_indexer::address::Address;
use utxo_indexer::block::{Block, BlockHeader, BlockTrait};
use utxo_indexer::hex;
use utxo_indexer::last_blocks::{LastBlocks, Mempool, TailChange};
use utxo_indexer::reverse_hex;
use utxo_indexer::store::store::{AddBlockError, IndexedStore, IntermediaryStore};
use utxo_indexer::store::transaction_store::ReadonlyTransactionStore;
use utxo_indexer::store::transaction_store_backend::{AugmentedTransactionStoreBackend, ReadonlyAugmentedTransactionStoreBackend};
use utxo_indexer::store::transaction_store_backend_trait::{ReadonlyTransactionStoreBackendTrait, TransactionStoreBackendTrait};
use utxo_indexer::transaction::{Output, Transaction};
use utxo_indexer::transaction_output::TransactionOutput;

fn p2pkh(tag: u8) -> (Address, Vec<u8>) {
    let hash = [tag; 20];
    let mut script = vec![0x76, 0xA9, 0x14];
    script.extend_from_slice(&hash);
    script.extend_from_slice(&[0x88, 0xAC]);
    (Address::P2PKH(hash), script)
}

fn hash_of(tag: u8, n: u16) -> [u8; 32] {
    let mut h = [0u8; 32];
    h[0] = tag;
    h[1] = n as u8;
    h[2] = (n >> 8) as u8;
    h[31] = 1;
    h
}

fn coinbase_input() -> TransactionOutput {
    TransactionOutput::new([0u8; 32], u32::MAX)
}

fn block(height: usize, hash: [u8; 32], previous: [u8; 32], transactions: Vec<Transaction>) -> Block {
    Block::from_parts(height, BlockHeader { hash, previous_block_hash: previous }, transactions)
}

fn coinbase(tag: u8, n: u16, value: u64, script: Vec<u8>) -> Transaction {
    Transaction { hash: hash_of(tag, n), inputs: vec![coinbase_input()], outputs: vec![Output { value, script }] }
}

#[test]
fn genesis_only() {
    let (a, script) = p2pkh(1);
    let tx = Transaction { hash: hash_of(9, 0), inputs: vec![], outputs: vec![Output { value: 5_000_000_000, script }] };
    let genesis = block(0, hash_of(0, 0), [0u8; 32], vec![tx]);
    let store = IndexedStore::from_blocks(&vec![genesis]).unwrap();
    assert_eq!(store.backend().balance(&a), 5_000_000_000);
    let utxos = store.backend().transaction_outputs(&a);
    assert_eq!(utxos.len(), 1);
    assert_eq!(utxos[0].0.index, 0);
    assert_eq!(utxos[0].0.hash, hash_of(9, 0));
    assert_eq!(store.height(), 1);
}

#[test]
fn spend_within_block() {
    let (a, script_a) = p2pkh(1);
    let (b, script_b) = p2pkh(2);
    let (_, script_c) = p2pkh(3);
    let b1 = block(0, hash_of(0, 0), [0u8; 32], vec![coinbase(8, 0, 50, script_c)]);
    let mut store = IndexedStore::from_blocks(&vec![b1]).unwrap();
    let before = store.backend().len();
    let t1 = Transaction {
        hash: hash_of(7, 1),
        inputs: vec![TransactionOutput::new(hash_of(8, 0), 0)],
        outputs: vec![Output { value: 10, script: script_a }],
    };
    let t2 = Transaction {
        hash: hash_of(7, 2),
        inputs: vec![TransactionOutput::new(hash_of(7, 1), 0)],
        outputs: vec![Output { value: 7, script: script_b }, Output { value: 3, script: vec![0x6a, 0x01, 0x02] }],
    };
    let b2 = block(1, hash_of(0, 1), hash_of(0, 0), vec![t1, t2]);
    assert_eq!(store.add_block(&b2), Ok(()));
    assert_eq!(store.backend().balance(&a), 0);
    assert_eq!(store.backend().balance(&b), 7);
    assert_eq!(store.backend().len(), before);
    assert!(!store.backend().has_transaction_output(&TransactionOutput::new(hash_of(7, 2), 1)));
    assert!(store.backend().has_transaction_output(&TransactionOutput::new(hash_of(7, 2), 0)));
}

#[test]
fn op_return_outputs_are_not_indexed() {
    let tx = Transaction { hash: hash_of(9, 3), inputs: vec![], outputs: vec![Output { value: 1, script: vec![0x6a] }] };
    let store = IndexedStore::from_blocks(&vec![block(0, hash_of(0, 0), [0u8; 32], vec![tx])]).unwrap();
    assert_eq!(store.backend().len(), 0);
}

#[test]
fn unknown_spend_is_reported() {
    let (_, script) = p2pkh(1);
    let tx = Transaction {
        hash: hash_of(9, 4),
        inputs: vec![TransactionOutput::new(hash_of(5, 5), 0)],
        outputs: vec![Output { value: 1, script }],
    };
    let result = IndexedStore::from_blocks(&vec![block(0, hash_of(0, 0), [0u8; 32], vec![tx])]);
    assert_eq!(result.err(), Some(AddBlockError::UnknownOutput));
}

#[test]
fn discontinuous_block_is_refused() {
    let (_, script) = p2pkh(1);
    let b0 = block(0, hash_of(0, 0), [0u8; 32], vec![coinbase(8, 0, 1, script.clone())]);
    let mut store = IndexedStore::from_blocks(&vec![b0]).unwrap();
    let stray = block(1, hash_of(0, 2), hash_of(4, 4), vec![coinbase(8, 1, 1, script)]);
    assert_eq!(store.add_block(&stray), Err(AddBlockError::Discontinuity));
    assert_eq!(store.height(), 1);
}

fn chain(length: u16) -> (Vec<Block>, Vec<Address>) {
    let mut blocks = Vec::new();
    let mut addresses = Vec::new();
    let mut previous = [0u8; 32];
    for n in 0..length {
        let (a, script) = p2pkh((n % 5 + 1) as u8);
        addresses.push(a);
        let mut transactions = vec![coinbase(100, n, 50, script.clone())];
        if n > 0 {
            let (_, next) = p2pkh(((n + 1) % 5 + 1) as u8);
            transactions.push(Transaction {
                hash: hash_of(101, n),
                inputs: vec![TransactionOutput::new(hash_of(100, n - 1), 0)],
                outputs: vec![Output { value: 20, script: next }, Output { value: 30, script }],
            });
        }
        let hash = hash_of(0, n);
        blocks.push(block(n as usize, hash, previous, transactions));
        previous = hash;
    }
    (blocks, addresses)
}

#[test]
fn round_trip_persistence() {
    let (blocks, addresses) = chain(1001);
    let store = IndexedStore::from_blocks(&blocks).unwrap();
    let bytes = store.to_buffer();
    let read = IndexedStore::from_buffer(&bytes).unwrap();
    assert_eq!(read.height(), store.height());
    assert_eq!(read.last_block_hash(), store.last_block_hash());
    assert_eq!(read.backend().len(), store.backend().len());
    for a in &addresses {
        assert_eq!(read.backend().balance(a), store.backend().balance(a));
    }
    assert_eq!(read.to_buffer(), bytes);
}

#[test]
fn truncated_store_file_is_refused() {
    let (blocks, _) = chain(3);
    let store = IndexedStore::from_blocks(&blocks).unwrap();
    let bytes = store.to_buffer();
    assert!(IndexedStore::from_buffer(&bytes[0..bytes.len() - 1]).is_none());
}

#[test]
fn parallel_and_sequential_builds_agree() {
    let (blocks, addresses) = chain(30);
    let sequential = IndexedStore::from_blocks(&blocks).unwrap();
    let mut merged = IndexedStore::large();
    for batch in blocks.chunks(7) {
        let mut staging = IntermediaryStore::new();
        for b in batch {
            assert!(staging.add_block(b).is_ok() || !staging.transaction_store().is_strict());
        }
        assert_eq!(staging.merge(&mut merged), Ok(()));
    }
    assert_eq!(merged.height(), sequential.height());
    assert_eq!(merged.backend().len(), sequential.backend().len());
    for a in &addresses {
        assert_eq!(merged.backend().balance(a), sequential.backend().balance(a));
    }
}

#[test]
fn reorg_at_depth_one() {
    let (blocks, _) = chain(3);
    let store = IndexedStore::from_blocks(&blocks).unwrap();
    let (a, script_a) = p2pkh(21);
    let (b, script_b) = p2pkh(22);
    let tip = store.last_block_hash().unwrap();
    let first = block(3, hash_of(50, 1), tip, vec![coinbase(60, 1, 50, script_a)]);
    let second = block(3, hash_of(50, 2), tip, vec![coinbase(60, 2, 50, script_b)]);
    let mut tail = LastBlocks::new();
    assert_eq!(tail.add_block(&store, first), TailChange::Pushed);
    assert_eq!(tail.add_block(&store, second.clone()), TailChange::Popped);
    assert_eq!(tail.add_block(&store, second), TailChange::Pushed);
    assert_eq!(tail.len(), 2);
    let augmentations = tail.augmentations(&store);
    assert_eq!(augmentations.len(), 2);
    let view = ReadonlyAugmentedTransactionStoreBackend::new(store.backend(), Some(&augmentations[1]));
    assert_eq!(view.balance(&a), 0);
    assert_eq!(view.balance(&b), 50);
    assert_eq!(store.backend().balance(&b), 0);
    assert_eq!(store.height(), 3);
}

#[test]
fn mempool_propagation() {
    let (blocks, _) = chain(2);
    let mut store = IndexedStore::from_blocks(&blocks).unwrap();
    let (a, script_a) = p2pkh(31);
    let prior = store.backend().balance(&a);
    let spend = Transaction {
        hash: hash_of(70, 1),
        inputs: vec![TransactionOutput::new(hash_of(101, 1), 1)],
        outputs: vec![Output { value: 10, script: script_a }],
    };
    let confirmations = 6;
    let mut tail = LastBlocks::new();
    tail.set_mempool(Mempool::from_parts(vec![spend.hash], vec![(spend.hash, spend.clone())]));
    let augmentations = tail.augmentations(&store);
    let unconfirmed = ReadonlyAugmentedTransactionStoreBackend::new(store.backend(), augmentations.last());
    assert_eq!(unconfirmed.balance(&a), prior + 10);
    assert_eq!(store.backend().balance(&a), prior);
    // T is mined, then buried under five more blocks.
    tail.set_mempool(Mempool::new());
    let mut previous = store.last_block_hash().unwrap();
    let (_, filler) = p2pkh(40);
    for n in 0..confirmations as u16 {
        let mut transactions = vec![coinbase(80, n, 1, filler.clone())];
        if n == 0 {
            transactions.push(spend.clone());
        }
        let b = block(2 + n as usize, hash_of(90, n), previous, transactions);
        previous = b.hash();
        assert_eq!(tail.add_block(&store, b), TailChange::Pushed);
    }
    for b in tail.pop(confirmations) {
        assert_eq!(store.add_block(&b), Ok(()));
    }
    assert_eq!(store.backend().balance(&a), prior + 10);
}

#[test]
fn genesis_block_parses() {
    let header = "0100000000000000000000000000000000000000000000000000000000000000000000003ba3edfd7a7b12b27ac72c3e67768f617fc81bc3888a51323a9fb8aa4b1e5e4a29ab5f49ffff001d1dac2b7c";
    let coinbase = "01000000010000000000000000000000000000000000000000000000000000000000000000ffffffff4d04ffff001d0104455468652054696d65732030332f4a616e2f32303039204368616e63656c6c6f72206f6e206272696e6b206f66207365636f6e64206261696c6f757420666f722062616e6b73ffffffff0100f2052a01000000434104678afdb0fe5548271967f1a67130b7105cd6a828e03909a67962e0ea1f61deb649f6bc3f4cef38c4f35504e51ec112de5c384df7ba0b8d578a4c702b6bf11d5fac00000000";
    let text = format!("{}01{}", header, coinbase);
    let raw = hex::decode(text.as_bytes()).unwrap();
    let genesis = Block::new(&raw, 0).unwrap();
    assert_eq!(reverse_hex::encode(&genesis.hash()), "000000000019d6689c085ae165831e934ff763ae46a2a6c172b3f1b60a8ce26f");
    assert_eq!(genesis.previous_block_hash(), [0u8; 32]);
    let transactions = genesis.transactions();
    assert_eq!(transactions.len(), 1);
    assert_eq!(
        reverse_hex::encode(&transactions[0].hash),
        "4a5e1e4baab89f3a32518a88c31bc87f618f76673e2cc77ab2127b7afdeda33b"
    );
    assert_eq!(transactions[0].outputs[0].value, 5_000_000_000);
    assert!(transactions[0].inputs[0].is_coinbase());
    assert!(Block::new(&raw[0..raw.len() - 1], 0).is_none());
}

#[test]
fn address_strings() {
    let hash = hex::decode(b"62e907b15cbf27d5425399ebf6f0fb50ebb88f18").unwrap();
    let mut h = [0u8; 20];
    h.copy_from_slice(&hash);
    let a = Address::P2PKH(h);
    assert_eq!(a.to_string(), "1A1zP1eP5QGefi2DMPTfTL5SLmv7DivfNa");
    assert_eq!(Address::from_string("1A1zP1eP5QGefi2DMPTfTL5SLmv7DivfNa").unwrap(), a);
    assert!(Address::from_string("1A1zP1eP5QGefi2DMPTfTL5SLmv7DivfNb").is_err());
    assert_eq!(a.to_vec()[0], 0);
    assert_eq!(Address::from_slice(&a.to_vec()).unwrap(), a);
}

#[test]
fn scripts_to_addresses() {
    let (a, script) = p2pkh(3);
    assert_eq!(Address::from_script(&script).unwrap(), a);
    let mut p2sh = vec![0xA9, 0x14];
    p2sh.extend_from_slice(&[4u8; 20]);
    p2sh.push(0x87);
    assert_eq!(Address::from_script(&p2sh).unwrap(), Address::P2SH([4u8; 20]));
    assert_eq!(Address::P2SH([4u8; 20]).to_vec()[0], 5);
    assert!(Address::from_script(&[0x6a, 0x00]).is_err());
}

#[test]
fn coinbase_input_is_not_looked_up() {
    let store = IndexedStore::large();
    let (_, script) = p2pkh(1);
    let tx = coinbase(8, 0, 1, script);
    assert!(store.transaction_store().can_add_transaction(&tx));
}

#[test]
fn from_blocks_reports_first_failure() {
    let (_, script) = p2pkh(1);
    let b0 = block(0, hash_of(0, 0), [0u8; 32], vec![coinbase(8, 0, 1, script.clone())]);
    let stray = block(1, hash_of(0, 1), hash_of(4, 4), vec![coinbase(8, 1, 1, script)]);
    assert_eq!(IndexedStore::from_blocks(&vec![b0, stray]).err(), Some(AddBlockError::Discontinuity));
}

#[test]
fn merge_refuses_a_staging_store_that_does_not_continue() {
    let (blocks, _) = chain(3);
    let mut store = IndexedStore::from_blocks(&blocks).unwrap();
    let before = store.backend().len();
    let (_, script) = p2pkh(2);
    let mut staging = IntermediaryStore::new();
    assert!(staging.add_block(&block(9, hash_of(0, 9), hash_of(4, 4), vec![coinbase(8, 9, 1, script)])).is_ok());
    assert_eq!(staging.merge(&mut store), Err(AddBlockError::Discontinuity));
    assert_eq!(store.height(), 3);
    assert_eq!(store.backend().len(), before);
}

#[test]
fn mempool_keeps_first_transaction_of_a_hash() {
    let (_, script_a) = p2pkh(1);
    let (_, script_b) = p2pkh(2);
    let first = coinbase(8, 0, 1, script_a);
    let second = coinbase(8, 0, 2, script_b);
    let mut mempool = Mempool::from_parts(vec![first.hash], vec![(first.hash, first.clone()), (first.hash, second)]);
    let kept = mempool.take(&first.hash).unwrap();
    assert_eq!(kept.outputs[0].value, 1);
    assert!(mempool.take(&first.hash).is_none());
}

#[test]
fn overlay_spends_follow_the_layers() {
    let (blocks, _) = chain(2);
    let store = IndexedStore::from_blocks(&blocks).unwrap();
    let base_output = TransactionOutput::new(hash_of(101, 1), 0);
    let mut overlay = AugmentedTransactionStoreBackend::new(store.backend());
    assert!(overlay.spend(&base_output));
    assert!(overlay.augmentation().is_spent(&base_output));
    assert!(!overlay.spend(&base_output));
    let own = TransactionOutput::new(hash_of(77, 0), 0);
    overlay.add(own, None, 5);
    assert!(overlay.spend(&own));
    assert!(!overlay.augmentation().is_spent(&own));
    assert!(store.backend().has_transaction_output(&base_output));
}

#[test]
fn genesis_balance_through_a_readonly_store() {
    let (a, script) = p2pkh(1);
    let tx = Transaction { hash: hash_of(9, 0), inputs: vec![coinbase_input()], outputs: vec![Output { value: 5_000_000_000, script }] };
    let mut store = IndexedStore::large();
    assert_eq!(store.add_block(&block(0, hash_of(0, 0), [0u8; 32], vec![tx])), Ok(()));
    let readonly = ReadonlyTransactionStore::new(ReadonlyAugmentedTransactionStoreBackend::new(store.backend(), None));
    assert_eq!(readonly.balance(&a), 5_000_000_000);
}
