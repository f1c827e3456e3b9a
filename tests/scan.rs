use utxo_indexer::base_common::alphabet::{Alphabet, Error as AlphabetError};
use utxo_indexer::batcher::Batcher;
use utxo_indexer::block::BlockHeader;
use utxo_indexer::block_file_reader::{is_block_file_name, BlockFileReader, FileBlock, ScanError};
use utxo_indexer::create_server::{parse_confirmations, parse_usize};
use utxo_indexer::sequential_thread_pool::OrderedOutputs;

fn file_block(hash: u8, previous: u8) -> FileBlock {
    let mut h = [0u8; 32];
    h[0] = hash;
    let mut p = [0u8; 32];
    p[0] = previous;
    FileBlock { file_path: "blk00000.dat".to_string(), offset: hash as u64, length: 0, header: BlockHeader { hash: h, previous_block_hash: p }, height: 0 }
}

#[test]
fn longest_chain_is_selected() {
    // 1 <- 2 <- 4, 1 <- 3, and 5 whose parent is unknown.
    let blocks = vec![file_block(3, 1), file_block(1, 0), file_block(5, 9), file_block(4, 2), file_block(2, 1)];
    let chain = BlockFileReader::find_longest_chain(blocks);
    let hashes: Vec<u8> = chain.iter().map(|b| b.header.hash[0]).collect();
    assert_eq!(hashes, vec![1, 2, 4]);
    let heights: Vec<usize> = chain.iter().map(|b| b.height).collect();
    assert_eq!(heights, vec![0, 1, 2]);
}

#[test]
fn no_genesis_no_chain() {
    let chain = BlockFileReader::find_longest_chain(vec![file_block(2, 1)]);
    assert!(chain.is_empty());
}

fn container(magic: u32, body: &[u8]) -> Vec<u8> {
    let mut bytes = magic.to_le_bytes().to_vec();
    bytes.extend_from_slice(&(body.len() as u32).to_le_bytes());
    bytes.extend_from_slice(body);
    bytes
}

#[test]
fn block_file_is_scanned() {
    let mut header = vec![0u8; 80];
    header[4] = 7;
    let mut body = header.clone();
    body.extend_from_slice(&[1, 2, 3]);
    let mut bytes = container(0xD9B4BEF9, &body);
    bytes.extend_from_slice(&container(0xD9B4BEF9, &body));
    bytes.extend_from_slice(&[0u8; 100]);
    let blocks = BlockFileReader::scan_block_file("blk00000.dat", &bytes).unwrap();
    assert_eq!(blocks.len(), 2);
    assert_eq!(blocks[0].offset, 8);
    assert_eq!(blocks[0].length, 83);
    assert_eq!(blocks[1].offset, 8 + 83 + 8);
    assert_eq!(blocks[0].header.previous_block_hash[0], 7);
    assert_eq!(blocks[0].file_path, "blk00000.dat");
}

#[test]
fn bad_magic_is_an_error() {
    let bytes = container(0x12345678, &[0u8; 90]);
    assert_eq!(BlockFileReader::scan_block_file("blk00001.dat", &bytes).err(), Some(ScanError::BadMagic { offset: 0 }));
    let short = container(0xD9B4BEF9, &[0u8; 10]);
    assert_eq!(BlockFileReader::scan_block_file("blk00001.dat", &short).err(), Some(ScanError::Truncated { offset: 0 }));
}

#[test]
fn block_file_names() {
    assert!(is_block_file_name("blk00000.dat"));
    assert!(is_block_file_name("blk01234.dat"));
    assert!(!is_block_file_name("blk0000.dat"));
    assert!(!is_block_file_name("rev00000.dat"));
    assert!(!is_block_file_name("blk0000a.dat"));
    assert!(!is_block_file_name("blk00000.datx"));
}

#[test]
fn confirmations_parameter() {
    assert_eq!(parse_confirmations(None, 6).unwrap(), 0);
    assert_eq!(parse_confirmations(Some("3"), 6).unwrap(), 3);
    assert_eq!(parse_confirmations(Some("+6"), 6).unwrap(), 6);
    assert!(parse_confirmations(Some("7"), 6).is_err());
    assert!(parse_confirmations(Some("x"), 6).is_err());
    assert!(parse_confirmations(Some(""), 6).is_err());
    assert_eq!(parse_usize("18446744073709551615"), Some(usize::MAX));
    assert_eq!(parse_usize("18446744073709551616"), None);
}

#[test]
fn batches_keep_order() {
    let mut batcher = Batcher::new(vec![1, 2, 3, 4, 5], 2);
    assert_eq!(batcher.next(), Some(vec![1, 2]));
    assert_eq!(batcher.next(), Some(vec![3, 4]));
    assert_eq!(batcher.next(), Some(vec![5]));
    assert_eq!(batcher.next(), None);
}

#[test]
fn outputs_come_out_in_order() {
    let mut outputs = OrderedOutputs::new();
    outputs.insert(1, "b");
    assert_eq!(outputs.next(), None);
    outputs.insert(0, "a");
    assert_eq!(outputs.next(), Some("a"));
    assert_eq!(outputs.next(), Some("b"));
    assert_eq!(outputs.next(), None);
}

#[test]
fn alphabets_longer_than_ascii_are_refused() {
    let mut repeated = [0u8; 130];
    for i in 0..128 {
        repeated[i] = i as u8;
    }
    repeated[128] = 5;
    repeated[129] = 6;
    match Alphabet::new(&repeated) {
        Err(AlphabetError::DuplicateCharacter { first, second, .. }) => assert_eq!((first, second), (5, 128)),
        _ => panic!("expected a duplicate"),
    }
    repeated[128] = 200;
    match Alphabet::new(&repeated) {
        Err(AlphabetError::NonAsciiCharacter { character, index }) => assert_eq!((character, index), (200, 128)),
        _ => panic!("expected a non-ascii character"),
    }
}
