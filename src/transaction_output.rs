use vstd::prelude::*;
use crate::hashmap::MapKey;

verus! {

/// Whether two byte arrays hold the same bytes.
pub fn same_bytes<const N: usize>(a: &[u8; N], b: &[u8; N]) -> (r: bool)
    ensures
        r == (*a == *b),
{
    let mut i: usize = 0;
    while i < N
        invariant
            i <= N,
            a@.len() == N,
            b@.len() == N,
            forall|j: int| 0 <= j < i ==> a@[j] == b@[j],
        decreases N - i,
    {
        if a[i] != b[i] {
            return false;
        }
        i = i + 1;
    }
    proof {
        assert(a@ =~= b@);
        vstd::array::axiom_array_ext_equal(*a, *b);
    }
    true
}

/// Bytes 4 to 12 of a hash read as a little-endian integer: the hash of a
/// content-addressed key is already uniformly spread.
pub open spec fn fold_bytes(h: Seq<u8>) -> u64 {
    (h[4] as u64) | ((h[5] as u64) << 8) | ((h[6] as u64) << 16) | ((h[7] as u64) << 24) | ((h[8] as u64) << 32)
        | ((h[9] as u64) << 40) | ((h[10] as u64) << 48) | ((h[11] as u64) << 56)
}

/// Folds bytes 4 to 12 of `h` into an integer.
pub fn fold_hash(h: &[u8]) -> (r: u64)
    requires
        h@.len() >= 12,
    ensures
        r == fold_bytes(h@),
{
    (h[4] as u64) | ((h[5] as u64) << 8) | ((h[6] as u64) << 16) | ((h[7] as u64) << 24) | ((h[8] as u64) << 32)
        | ((h[9] as u64) << 40) | ((h[10] as u64) << 48) | ((h[11] as u64) << 56)
}

/// An output of a transaction: the transaction's hash and the output's index.
#[derive(Copy, Clone, Debug, PartialEq, Eq, Hash)]
pub struct TransactionOutput {
    pub hash: [u8; 32],
    pub index: u32,
}

/// The input that a coinbase transaction carries: no output is spent there.
pub open spec fn is_coinbase_input(txo: TransactionOutput) -> bool {
    &&& forall|i: int| 0 <= i < 32 ==> #[trigger] txo.hash@[i] == 0
    &&& txo.index == u32::MAX
}

impl TransactionOutput {
    pub fn new(hash: [u8; 32], index: u32) -> (r: Self)
        ensures
            r.hash == hash,
            r.index == index,
    {
        TransactionOutput { hash, index }
    }

    /// Whether this is the input of a coinbase transaction.
    pub fn is_coinbase(&self) -> (r: bool)
        ensures
            r == is_coinbase_input(*self),
    {
        if self.index != u32::MAX {
            return false;
        }
        let mut i: usize = 0;
        while i < 32
            invariant
                i <= 32,
                self.hash@.len() == 32,
                forall|j: int| 0 <= j < i ==> #[trigger] self.hash@[j] == 0,
            decreases 32 - i,
        {
            if self.hash[i] != 0 {
                return false;
            }
            i = i + 1;
        }
        true
    }
}

impl MapKey for [u8; 32] {
    open spec fn spec_fold(&self) -> u64 {
        fold_bytes(self@)
    }

    fn fold(&self) -> (r: u64) {
        fold_hash(self)
    }

    fn same_key(&self, other: &Self) -> (r: bool) {
        same_bytes(self, other)
    }
}

impl MapKey for TransactionOutput {
    open spec fn spec_fold(&self) -> u64 {
        fold_bytes(self.hash@) ^ (self.index as u64)
    }

    fn fold(&self) -> (r: u64) {
        fold_hash(&self.hash) ^ (self.index as u64)
    }

    fn same_key(&self, other: &Self) -> (r: bool) {
        same_bytes(&self.hash, &other.hash) && self.index == other.index
    }
}

} // verus!
