//! An index of the unspent outputs of a Bitcoin-compatible chain: block and
//! transaction parsing, chain selection, the two-way output index with its
//! staging and overlay variants, its file format, and the codecs around it.

pub mod address;
pub mod base58;
pub mod base58_check;
pub mod base64;
pub mod base_common;
pub mod batcher;
pub mod block;
pub mod block_file_reader;
pub mod buffer_writer;
pub mod counting;
pub mod create_server;
pub mod error;
pub mod hashmap;
pub mod hashing_buffer_reader;
pub mod hex;
pub mod last_blocks;
pub mod reverse_hex;
pub mod sequential_thread_pool;
pub mod store;
pub mod text;
pub mod transaction;
pub mod transaction_output;
