use vstd::prelude::*;
use crate::hashing_buffer_reader::{le_value, pow256};

verus! {

/// The `n` little-endian bytes of `v`.
pub open spec fn le_bytes(v: nat, n: nat) -> Seq<u8>
    decreases n,
{
    if n == 0 {
        Seq::empty()
    } else {
        seq![(v % 256) as u8] + le_bytes(v / 256, (n - 1) as nat)
    }
}

/// Bytes written little-endian read back as the value.
pub proof fn lemma_le_round_trip(v: nat, n: nat)
    requires
        v < pow256(n),
    ensures
        le_bytes(v, n).len() == n,
        le_value(le_bytes(v, n)) == v,
    decreases n,
{
    if n > 0 {
        assert(v / 256 < pow256((n - 1) as nat)) by (nonlinear_arith)
            requires
                v < 256 * pow256((n - 1) as nat),
        ;
        lemma_le_round_trip(v / 256, (n - 1) as nat);
        let s = le_bytes(v, n);
        assert(s.drop_first() =~= le_bytes(v / 256, (n - 1) as nat));
        assert(v == v % 256 + 256 * (v / 256)) by (nonlinear_arith);
    } else {
        assert(v == 0);
    }
}

/// A growing byte buffer that takes little-endian fields.
pub struct BufferWriter {
    buffer: Vec<u8>,
}

impl BufferWriter {
    pub closed spec fn written(&self) -> Seq<u8> {
        self.buffer@
    }

    pub fn new() -> (r: Self)
        ensures
            r.written() == Seq::<u8>::empty(),
    {
        BufferWriter { buffer: Vec::new() }
    }

    fn write_le(&mut self, value: u64, n: usize)
        requires
            n <= 8,
        ensures
            final(self).written() == old(self).written() + le_bytes(value as nat, n as nat),
    {
        let mut v: u64 = value;
        let mut i: usize = 0;
        while i < n
            invariant
                i <= n,
                self.buffer@ + le_bytes(v as nat, (n - i) as nat) == old(self).written() + le_bytes(value as nat, n as nat),
            decreases n - i,
        {
            let ghost before = self.buffer@;
            self.buffer.push((v % 256) as u8);
            assert(le_bytes(v as nat, (n - i) as nat) == seq![(v % 256) as u8] + le_bytes((v / 256) as nat, (n - i - 1) as nat));
            assert(self.buffer@ + le_bytes((v / 256) as nat, (n - i - 1) as nat)
                =~= before + le_bytes(v as nat, (n - i) as nat));
            v = v / 256;
            i = i + 1;
        }
        assert(self.buffer@ =~= self.buffer@ + le_bytes(v as nat, 0));
    }

    pub fn write_u8(&mut self, value: u8)
        ensures
            final(self).written() == old(self).written().push(value),
    {
        self.buffer.push(value);
    }

    pub fn write_u32(&mut self, value: u32)
        ensures
            final(self).written() == old(self).written() + le_bytes(value as nat, 4),
    {
        self.write_le(value as u64, 4);
    }

    pub fn write_u64(&mut self, value: u64)
        ensures
            final(self).written() == old(self).written() + le_bytes(value as nat, 8),
    {
        self.write_le(value, 8);
    }

    pub fn write_buffer(&mut self, value: &[u8])
        ensures
            final(self).written() == old(self).written() + value@,
    {
        let mut i: usize = 0;
        while i < value.len()
            invariant
                i <= value@.len(),
                self.buffer@ == old(self).written() + value@.subrange(0, i as int),
            decreases value@.len() - i,
        {
            self.buffer.push(value[i]);
            i = i + 1;
            assert(self.buffer@ =~= old(self).written() + value@.subrange(0, i as int));
        }
        assert(value@.subrange(0, value@.len() as int) =~= value@);
    }

    pub fn write_hash(&mut self, value: [u8; 32])
        ensures
            final(self).written() == old(self).written() + value@,
    {
        self.write_buffer(&value);
    }

    /// The bytes written so far.
    pub fn buffer(self) -> (r: Vec<u8>)
        ensures
            r@ == self.written(),
    {
        self.buffer
    }
}

} // verus!
