use vstd::prelude::*;
use crate::hashing_buffer_reader::{double_sha256, spec_var_int, HashingBufferReader};
use crate::store::transaction_store::transactions_wf;
use crate::transaction::{spec_transaction, transaction_view, transaction_wf, Transaction};

verus! {

/// A block header as the index keeps it: the block's hash and its parent's,
/// in wire byte order.
#[derive(Debug, Clone, Copy)]
pub struct BlockHeader {
    pub hash: [u8; 32],
    pub previous_block_hash: [u8; 32],
}

/// The header of the block at the start of `buf`: the double SHA-256 of its
/// first 80 bytes, and the parent's hash at bytes 4 to 36.
pub open spec fn spec_header(buf: Seq<u8>) -> Option<(Seq<u8>, Seq<u8>)> {
    if buf.len() < 80 {
        None
    } else {
        Some((double_sha256(buf.subrange(0, 80)), buf.subrange(4, 36)))
    }
}

pub open spec fn header_view(h: BlockHeader) -> (Seq<u8>, Seq<u8>) {
    (h.hash@, h.previous_block_hash@)
}

/// `n` transactions one after the other from `off`, with the offset after them.
pub open spec fn spec_transactions(buf: Seq<u8>, off: int, n: nat) -> Option<
    (Seq<(Seq<u8>, Seq<(Seq<u8>, u32)>, Seq<(u64, Seq<u8>)>)>, int),
>
    decreases n,
{
    if n == 0 {
        Some((Seq::empty(), off))
    } else {
        match spec_transactions(buf, off, (n - 1) as nat) {
            Some((s, p)) => match spec_transaction(buf, p) {
                Some((t, q)) => Some((s.push(t), q)),
                None => None,
            },
            None => None,
        }
    }
}

/// The transactions of the block at the start of `buf`: after the 80-byte
/// header, a count and that many transactions.
pub open spec fn spec_block_transactions(buf: Seq<u8>) -> Option<Seq<(Seq<u8>, Seq<(Seq<u8>, u32)>, Seq<(u64, Seq<u8>)>)>> {
    if buf.len() < 80 {
        None
    } else {
        match spec_var_int(buf, 80) {
            Some((n, p)) => match spec_transactions(buf, p, n as nat) {
                Some((s, _)) => Some(s),
                None => None,
            },
            None => None,
        }
    }
}

proof fn lemma_transactions_fail(buf: Seq<u8>, off: int, k: nat, n: nat)
    requires
        spec_transactions(buf, off, k) is None,
        k <= n,
    ensures
        spec_transactions(buf, off, n) is None,
    decreases n,
{
    if k < n {
        lemma_transactions_fail(buf, off, k, (n - 1) as nat);
    }
}

impl BlockHeader {
    /// The header of the block at the start of `buffer`.
    pub fn from_buffer(buffer: &[u8]) -> (r: Option<Self>)
        ensures
            match r {
                Some(h) => spec_header(buffer@) == Some(header_view(h)),
                None => spec_header(buffer@) is None,
            },
    {
        let mut reader = HashingBufferReader::new(buffer);
        let header = reader.read_buffer(80, true)?;
        let hash = reader.digest();
        let mut reader = HashingBufferReader::new(header);
        reader.skip(4, false);
        let previous_block_hash = reader.read_hash(false)?;
        proof {
            assert(header@.subrange(4, 36) =~= buffer@.subrange(4, 36));
        }
        Some(BlockHeader { hash, previous_block_hash })
    }
}

/// The transactions of the block at the start of `buffer`, in order.
pub fn iterate_transactions(buffer: &[u8]) -> (r: Option<Vec<Transaction>>)
    ensures
        match r {
            Some(txs) => spec_block_transactions(buffer@) == Some(txs@.map_values(|t: Transaction| transaction_view(t)))
                && transactions_wf(txs@),
            None => spec_block_transactions(buffer@) is None,
        },
{
    let mut reader = HashingBufferReader::new(buffer);
    if !reader.skip(80, false) {
        return None;
    }
    let ghost buf = buffer@;
    let count = reader.read_var_int_le(false)?;
    let ghost p = reader.spec_offset();
    let mut transactions: Vec<Transaction> = Vec::new();
    let mut i: u64 = 0;
    while i < count
        invariant
            reader.wf(),
            reader.bytes() == buf,
            buf == buffer@,
            buf.len() >= 80,
            spec_var_int(buf, 80) == Some((count, p)),
            i <= count,
            transactions_wf(transactions@),
            spec_transactions(buf, p, i as nat) == Some((
                transactions@.map_values(|t: Transaction| transaction_view(t)),
                reader.spec_offset(),
            )),
        decreases count - i,
    {
        let ghost at = reader.spec_offset();
        match Transaction::from_reader(&mut reader) {
            Some(t) => {
                let ghost tv = transaction_view(t);
                transactions.push(t);
                assert(transactions@.map_values(|t: Transaction| transaction_view(t))
                    =~= transactions@.drop_last().map_values(|t: Transaction| transaction_view(t)).push(tv));
            },
            None => {
                proof {
                    assert(spec_transaction(buf, at) is None);
                    assert(spec_transactions(buf, p, (i + 1) as nat) is None);
                    lemma_transactions_fail(buf, p, (i + 1) as nat, count as nat);
                    assert(spec_block_transactions(buf) is None);
                }
                return None;
            },
        }
        i = i + 1;
    }
    Some(transactions)
}

/// What the index reads of a block: its header and its height.
pub trait BlockTrait {
    spec fn spec_header(&self) -> BlockHeader;

    spec fn spec_height(&self) -> usize;

    fn header(&self) -> (r: &BlockHeader)
        ensures
            *r == self.spec_header(),
    ;

    fn height(&self) -> (r: usize)
        ensures
            r == self.spec_height(),
    ;

    fn hash(&self) -> (r: [u8; 32])
        ensures
            r == self.spec_header().hash,
    {
        self.header().hash
    }

    fn previous_block_hash(&self) -> (r: [u8; 32])
        ensures
            r == self.spec_header().previous_block_hash,
    {
        self.header().previous_block_hash
    }
}

/// A block with its transactions, at a height of the chain.
#[derive(Debug, Clone)]
pub struct Block {
    height: usize,
    header: BlockHeader,
    transactions: Vec<Transaction>,
}

impl Block {
    pub closed spec fn spec_transactions(&self) -> Seq<Transaction> {
        self.transactions@
    }

    pub open spec fn wf(&self) -> bool {
        transactions_wf(self.spec_transactions())
    }

    /// A block made of its parts.
    pub fn from_parts(height: usize, header: BlockHeader, transactions: Vec<Transaction>) -> (r: Self)
        ensures
            r.spec_height() == height,
            r.spec_header() == header,
            r.spec_transactions() == transactions@,
    {
        Block { height, header, transactions }
    }

    /// Parses the block at the start of `buffer`, and places it at `height`.
    pub fn new(buffer: &[u8], height: usize) -> (r: Option<Self>)
        ensures
            match r {
                Some(b) => {
                    &&& b.wf()
                    &&& b.spec_height() == height
                    &&& spec_header(buffer@) == Some(header_view(b.spec_header()))
                    &&& spec_block_transactions(buffer@) == Some(
                        b.spec_transactions().map_values(|t: Transaction| transaction_view(t)),
                    )
                },
                None => spec_header(buffer@) is None || spec_block_transactions(buffer@) is None,
            },
    {
        let header = BlockHeader::from_buffer(buffer)?;
        let transactions = iterate_transactions(buffer)?;
        Some(Block { height, header, transactions })
    }

    /// The transactions in the block's order.
    pub fn transactions(&self) -> (r: &Vec<Transaction>)
        ensures
            r@ == self.spec_transactions(),
    {
        &self.transactions
    }
}

impl BlockTrait for Block {
    closed spec fn spec_header(&self) -> BlockHeader {
        self.header
    }

    closed spec fn spec_height(&self) -> usize {
        self.height
    }

    fn header(&self) -> (r: &BlockHeader) {
        &self.header
    }

    fn height(&self) -> (r: usize) {
        self.height
    }
}

} // verus!
