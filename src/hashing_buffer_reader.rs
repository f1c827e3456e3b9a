use vstd::prelude::*;

verus! {

/// The SHA-256 digest of a byte string.
pub uninterp spec fn sha256_of(bytes: Seq<u8>) -> Seq<u8>;

/// Relies on `sha2::Sha256::digest`: the 32-byte SHA-256 digest of `bytes`.
#[verifier::external_body]
pub(crate) fn sha256(bytes: &[u8]) -> (r: [u8; 32])
    ensures
        r@ == sha256_of(bytes@),
{
    <sha2::Sha256 as sha2::Digest>::digest(bytes).into()
}

/// The double SHA-256 that names blocks and transactions.
pub open spec fn double_sha256(bytes: Seq<u8>) -> Seq<u8> {
    sha256_of(sha256_of(bytes))
}

pub open spec fn pow256(k: nat) -> nat
    decreases k,
{
    if k == 0 {
        1
    } else {
        256 * pow256((k - 1) as nat)
    }
}

/// The value of bytes read little-endian.
pub open spec fn le_value(s: Seq<u8>) -> nat
    decreases s.len(),
{
    if s.len() == 0 {
        0
    } else {
        s[0] as nat + 256 * le_value(s.drop_first())
    }
}

proof fn lemma_le_bound(s: Seq<u8>)
    ensures
        le_value(s) < pow256(s.len()),
    decreases s.len(),
{
    if s.len() > 0 {
        lemma_le_bound(s.drop_first());
        let rest = le_value(s.drop_first());
        let p = pow256((s.len() - 1) as nat);
        assert(s[0] as nat + 256 * rest < 256 * p) by (nonlinear_arith)
            requires
                rest < p,
                s[0] < 256,
        ;
    }
}

/// A variable-length integer at `off`: one byte below 0xFD, else a marker
/// 0xFD, 0xFE or 0xFF and then 2, 4 or 8 little-endian bytes. With the
/// offset after it.
pub open spec fn spec_var_int(buf: Seq<u8>, off: int) -> Option<(u64, int)> {
    if off < 0 || off + 1 > buf.len() {
        None
    } else {
        let b = buf[off];
        let n: int = if b == 0xFD { 2 } else if b == 0xFE { 4 } else if b == 0xFF { 8 } else { 0 };
        if n == 0 {
            Some((b as u64, off + 1))
        } else if off + 1 + n <= buf.len() {
            Some((le_value(buf.subrange(off + 1, off + 1 + n)) as u64, off + 1 + n))
        } else {
            None
        }
    }
}

/// A byte string prefixed by its length as a variable-length integer, with
/// the offset after it.
pub open spec fn spec_var_buffer(buf: Seq<u8>, off: int) -> Option<(Seq<u8>, int)> {
    match spec_var_int(buf, off) {
        Some((n, p)) => if p + n <= buf.len() {
            Some((buf.subrange(p, p + n), p + n))
        } else {
            None
        },
        None => None,
    }
}

/// A vector holding the bytes of `b`.
pub fn copy_bytes(b: &[u8]) -> (r: Vec<u8>)
    ensures
        r@ == b@,
{
    let mut v: Vec<u8> = Vec::new();
    let mut i: usize = 0;
    while i < b.len()
        invariant
            i <= b@.len(),
            v@ == b@.subrange(0, i as int),
        decreases b@.len() - i,
    {
        v.push(b[i]);
        i = i + 1;
        assert(v@ =~= b@.subrange(0, i as int));
    }
    assert(b@.subrange(0, b@.len() as int) =~= b@);
    v
}

/// Accumulates the bytes to be hashed, and hashes them twice on demand.
pub struct Hasher {
    buffer: Vec<u8>,
}

impl Hasher {
    pub closed spec fn fed(&self) -> Seq<u8> {
        self.buffer@
    }

    pub fn new() -> (r: Self)
        ensures
            r.fed() == Seq::<u8>::empty(),
    {
        Hasher { buffer: Vec::new() }
    }

    pub fn update(&mut self, bytes: &[u8])
        ensures
            final(self).fed() == old(self).fed() + bytes@,
    {
        let mut i: usize = 0;
        while i < bytes.len()
            invariant
                i <= bytes@.len(),
                self.buffer@ == old(self).fed() + bytes@.subrange(0, i as int),
            decreases bytes@.len() - i,
        {
            self.buffer.push(bytes[i]);
            i = i + 1;
            assert(self.buffer@ =~= old(self).fed() + bytes@.subrange(0, i as int));
        }
        assert(bytes@.subrange(0, bytes@.len() as int) =~= bytes@);
    }

    /// The double SHA-256 of what was fed.
    pub fn digest(self) -> (r: [u8; 32])
        ensures
            r@ == double_sha256(self.fed()),
    {
        let first = sha256(self.buffer.as_slice());
        sha256(&first)
    }
}

/// A cursor over a byte string that pulls little-endian fields, and feeds
/// the bytes it is asked to into a hash.
pub struct HashingBufferReader<'a> {
    buffer: &'a [u8],
    offset: usize,
    hasher: Hasher,
}

impl<'a> HashingBufferReader<'a> {
    pub closed spec fn bytes(&self) -> Seq<u8> {
        self.buffer@
    }

    pub closed spec fn spec_offset(&self) -> int {
        self.offset as int
    }

    /// The bytes fed to the hash since it was last started.
    pub closed spec fn hashed(&self) -> Seq<u8> {
        self.hasher.fed()
    }

    pub open spec fn wf(&self) -> bool {
        0 <= self.spec_offset() <= self.bytes().len() <= usize::MAX
    }

    /// The reader after `n` more bytes, fed to the hash or not.
    pub open spec fn advanced(&self, next: &Self, n: int, hash: bool) -> bool {
        &&& next.bytes() == self.bytes()
        &&& next.spec_offset() == self.spec_offset() + n
        &&& next.hashed() == if hash {
            self.hashed() + self.bytes().subrange(self.spec_offset(), self.spec_offset() + n)
        } else {
            self.hashed()
        }
    }

    /// Whether `n` more bytes are there.
    pub open spec fn has(&self, n: int) -> bool {
        self.spec_offset() + n <= self.bytes().len()
    }

    pub open spec fn ahead(&self, n: int) -> Seq<u8> {
        self.bytes().subrange(self.spec_offset(), self.spec_offset() + n)
    }

    pub fn new(buffer: &'a [u8]) -> (r: Self)
        ensures
            r.wf(),
            r.bytes() == buffer@,
            r.spec_offset() == 0,
            r.hashed() == Seq::<u8>::empty(),
    {
        let length = buffer.len();
        assert(length == buffer@.len());
        HashingBufferReader { buffer, offset: 0, hasher: Hasher::new() }
    }

    pub fn offset(&self) -> (r: usize)
        ensures
            r == self.spec_offset(),
    {
        self.offset
    }

    /// Starts a new hash: what was fed before is dropped.
    pub fn start_hash(&mut self)
        ensures
            final(self).bytes() == old(self).bytes(),
            final(self).spec_offset() == old(self).spec_offset(),
            final(self).hashed() == Seq::<u8>::empty(),
    {
        self.hasher = Hasher::new();
    }

    /// The double SHA-256 of the bytes fed since the hash was started.
    pub fn digest(&self) -> (r: [u8; 32])
        ensures
            r@ == double_sha256(self.hashed()),
    {
        let first = sha256(self.hasher.buffer.as_slice());
        sha256(&first)
    }

    /// The next `length` bytes, fed to the hash when `hash` is set; `None`
    /// when fewer are left, and then nothing moves.
    pub fn read_buffer(&mut self, length: usize, hash: bool) -> (r: Option<&'a [u8]>)
        requires
            old(self).wf(),
        ensures
            final(self).wf(),
            match r {
                Some(b) => old(self).has(length as int) && b@ == old(self).ahead(length as int)
                    && old(self).advanced(&*final(self), length as int, hash),
                None => !old(self).has(length as int) && *final(self) == *old(self),
            },
    {
        if length > self.buffer.len() - self.offset {
            return None;
        }
        let start = self.offset;
        let end = start + length;
        let bytes = &self.buffer[start..end];
        self.offset = end;
        if hash {
            self.hasher.update(bytes);
        }
        Some(bytes)
    }

    /// The next `n` bytes read little-endian.
    fn read_le(&mut self, n: usize, hash: bool) -> (r: Option<u64>)
        requires
            old(self).wf(),
            n <= 8,
        ensures
            final(self).wf(),
            match r {
                Some(v) => old(self).has(n as int) && v == le_value(old(self).ahead(n as int))
                    && old(self).advanced(&*final(self), n as int, hash),
                None => !old(self).has(n as int) && *final(self) == *old(self),
            },
    {
        let bytes = match self.read_buffer(n, hash) {
            Some(b) => b,
            None => return None,
        };
        let mut value: u64 = 0;
        let mut i: usize = n;
        while i > 0
            invariant
                i <= n <= 8,
                bytes@.len() == n,
                value == le_value(bytes@.subrange(i as int, n as int)),
            decreases i,
        {
            i = i - 1;
            let ghost rest = bytes@.subrange(i + 1, n as int);
            proof {
                assert(bytes@.subrange(i as int, n as int).drop_first() =~= rest);
                lemma_le_bound(rest);
                assert(pow256((n - i - 1) as nat) <= pow256(7)) by {
                    lemma_pow256_monotone((n - i - 1) as nat, 7);
                }
                lemma_pow256_values();
                assert(value * 256 + bytes@[i as int] < 0x1_0000_0000_0000_0000) by (nonlinear_arith)
                    requires
                        value < 72057594037927936,
                        bytes@[i as int] < 256,
                ;
            }
            value = value * 256 + bytes[i] as u64;
        }
        assert(bytes@.subrange(0, n as int) =~= bytes@);
        Some(value)
    }

    pub fn read_u8(&mut self, hash: bool) -> (r: Option<u8>)
        requires
            old(self).wf(),
        ensures
            final(self).wf(),
            match r {
                Some(v) => old(self).has(1) && v == old(self).bytes()[old(self).spec_offset()]
                    && old(self).advanced(&*final(self), 1, hash),
                None => !old(self).has(1) && *final(self) == *old(self),
            },
    {
        match self.read_buffer(1, hash) {
            Some(b) => Some(b[0]),
            None => None,
        }
    }

    pub fn read_bool(&mut self, hash: bool) -> (r: Option<bool>)
        requires
            old(self).wf(),
        ensures
            final(self).wf(),
            match r {
                Some(v) => old(self).has(1) && v == (old(self).bytes()[old(self).spec_offset()] != 0)
                    && old(self).advanced(&*final(self), 1, hash),
                None => !old(self).has(1) && *final(self) == *old(self),
            },
    {
        match self.read_u8(hash) {
            Some(b) => Some(b != 0),
            None => None,
        }
    }

    pub fn read_u16_le(&mut self, hash: bool) -> (r: Option<u16>)
        requires
            old(self).wf(),
        ensures
            final(self).wf(),
            match r {
                Some(v) => old(self).has(2) && v == le_value(old(self).ahead(2))
                    && old(self).advanced(&*final(self), 2, hash),
                None => !old(self).has(2) && *final(self) == *old(self),
            },
    {
        let ghost before = *self;
        match self.read_le(2, hash) {
            Some(v) => {
                proof {
                    lemma_le_bound(before.ahead(2));
                    lemma_pow256_values();
                }
                Some(v as u16)
            },
            None => None,
        }
    }

    pub fn read_u32_le(&mut self, hash: bool) -> (r: Option<u32>)
        requires
            old(self).wf(),
        ensures
            final(self).wf(),
            match r {
                Some(v) => old(self).has(4) && v == le_value(old(self).ahead(4))
                    && old(self).advanced(&*final(self), 4, hash),
                None => !old(self).has(4) && *final(self) == *old(self),
            },
    {
        let ghost before = *self;
        match self.read_le(4, hash) {
            Some(v) => {
                proof {
                    lemma_le_bound(before.ahead(4));
                    lemma_pow256_values();
                }
                Some(v as u32)
            },
            None => None,
        }
    }

    /// Four bytes read as a little-endian two's-complement integer.
    pub fn read_i32_le(&mut self, hash: bool) -> (r: Option<i32>)
        requires
            old(self).wf(),
        ensures
            final(self).wf(),
            match r {
                Some(v) => old(self).has(4) && v == (le_value(old(self).ahead(4)) as u32) as i32
                    && old(self).advanced(&*final(self), 4, hash),
                None => !old(self).has(4) && *final(self) == *old(self),
            },
    {
        match self.read_u32_le(hash) {
            Some(v) => Some(v as i32),
            None => None,
        }
    }

    pub fn read_u64_le(&mut self, hash: bool) -> (r: Option<u64>)
        requires
            old(self).wf(),
        ensures
            final(self).wf(),
            match r {
                Some(v) => old(self).has(8) && v == le_value(old(self).ahead(8))
                    && old(self).advanced(&*final(self), 8, hash),
                None => !old(self).has(8) && *final(self) == *old(self),
            },
    {
        self.read_le(8, hash)
    }

    /// Thirty-two bytes, as a hash is held.
    pub fn read_hash(&mut self, hash: bool) -> (r: Option<[u8; 32]>)
        requires
            old(self).wf(),
        ensures
            final(self).wf(),
            match r {
                Some(h) => old(self).has(32) && h@ == old(self).ahead(32)
                    && old(self).advanced(&*final(self), 32, hash),
                None => !old(self).has(32) && *final(self) == *old(self),
            },
    {
        let bytes = match self.read_buffer(32, hash) {
            Some(b) => b,
            None => return None,
        };
        let mut h = [0u8; 32];
        let mut i: usize = 0;
        while i < 32
            invariant
                i <= 32,
                bytes@.len() == 32,
                h@.len() == 32,
                forall|j: int| 0 <= j < i ==> h@[j] == bytes@[j],
            decreases 32 - i,
        {
            h[i] = bytes[i];
            i = i + 1;
        }
        assert(h@ =~= bytes@);
        Some(h)
    }

    /// A variable-length integer.
    pub fn read_var_int_le(&mut self, hash: bool) -> (r: Option<u64>)
        requires
            old(self).wf(),
        ensures
            final(self).wf(),
            final(self).bytes() == old(self).bytes(),
            !hash ==> final(self).hashed() == old(self).hashed(),
            final(self).spec_offset() >= old(self).spec_offset(),
            match r {
                Some(v) => spec_var_int(old(self).bytes(), old(self).spec_offset()) == Some((
                    v,
                    final(self).spec_offset(),
                )) && old(self).advanced(&*final(self), final(self).spec_offset() - old(self).spec_offset(), hash),
                None => spec_var_int(old(self).bytes(), old(self).spec_offset()) is None,
            },
    {
        let ghost start = *self;
        let first = self.read_u8(hash)?;
        let ghost mid = *self;
        let n: usize = if first == 0xFD { 2 } else if first == 0xFE { 4 } else if first == 0xFF { 8 } else { 0 };
        if n == 0 {
            return Some(first as u64);
        }
        match self.read_le(n, hash) {
            Some(v) => {
                proof {
                    lemma_le_bound(mid.ahead(n as int));
                    lemma_pow256_values();
                    lemma_pow256_monotone(n as nat, 8);
                    assert(start.bytes().subrange(start.spec_offset(), start.spec_offset() + 1)
                        + start.bytes().subrange(start.spec_offset() + 1, start.spec_offset() + 1 + n)
                        =~= start.bytes().subrange(start.spec_offset(), start.spec_offset() + 1 + n));
                    assert(mid.ahead(n as int) == start.bytes().subrange(start.spec_offset() + 1, start.spec_offset() + 1 + n));
                    let off = start.spec_offset();
                    let buf = start.bytes();
                    assert(buf[off] == first);
                    assert(off + 1 + n <= buf.len());
                    assert(le_value(buf.subrange(off + 1, off + 1 + n)) == v);
                    assert(spec_var_int(buf, off) == Some((v, off + 1 + n)));
                    assert(self.spec_offset() == off + 1 + n);
                    if hash {
                        assert(self.hashed() =~= start.hashed() + buf.subrange(off, off + 1 + n));
                    }
                }
                Some(v)
            },
            None => None,
        }
    }

    /// A byte string prefixed by its length.
    pub fn read_var_buffer_le(&mut self, hash: bool) -> (r: Option<Vec<u8>>)
        requires
            old(self).wf(),
        ensures
            final(self).wf(),
            final(self).bytes() == old(self).bytes(),
            !hash ==> final(self).hashed() == old(self).hashed(),
            final(self).spec_offset() >= old(self).spec_offset(),
            match r {
                Some(v) => spec_var_buffer(old(self).bytes(), old(self).spec_offset()) == Some((
                    v@,
                    final(self).spec_offset(),
                )) && old(self).advanced(&*final(self), final(self).spec_offset() - old(self).spec_offset(), hash),
                None => spec_var_buffer(old(self).bytes(), old(self).spec_offset()) is None,
            },
    {
        let ghost start = *self;
        let length = self.read_var_int_le(hash)?;
        let ghost mid = *self;
        if length > usize::MAX as u64 {
            return None;
        }
        match self.read_buffer(length as usize, hash) {
            Some(b) => {
                proof {
                    assert(start.bytes().subrange(start.spec_offset(), mid.spec_offset())
                        + mid.ahead(length as int)
                        =~= start.bytes().subrange(start.spec_offset(), mid.spec_offset() + length));
                    if hash {
                        assert(self.hashed() =~= start.hashed() + start.bytes().subrange(
                            start.spec_offset(),
                            mid.spec_offset() + length,
                        ));
                    }
                }
                Some(copy_bytes(b))
            },
            None => None,
        }
    }

    /// The next byte, without moving.
    pub fn peek_u8(&self) -> (r: Option<u8>)
        requires
            self.wf(),
        ensures
            match r {
                Some(v) => self.has(1) && v == self.bytes()[self.spec_offset()],
                None => !self.has(1),
            },
    {
        if self.offset < self.buffer.len() {
            Some(self.buffer[self.offset])
        } else {
            None
        }
    }

    /// Moves past `length` bytes; returns whether they were there.
    pub fn skip(&mut self, length: usize, hash: bool) -> (r: bool)
        requires
            old(self).wf(),
        ensures
            final(self).wf(),
            r == old(self).has(length as int),
            r ==> old(self).advanced(&*final(self), length as int, hash),
            !r ==> *final(self) == *old(self),
    {
        self.read_buffer(length, hash).is_some()
    }
}

proof fn lemma_pow256_values()
    ensures
        pow256(2) == 0x1_0000,
        pow256(4) == 0x1_0000_0000,
        pow256(7) == 0x100_0000_0000_0000,
        pow256(8) == 0x1_0000_0000_0000_0000,
{
    assert(pow256(0) == 1);
    assert(pow256(1) == 0x100);
    assert(pow256(2) == 0x1_0000);
    assert(pow256(3) == 0x100_0000);
    assert(pow256(4) == 0x1_0000_0000);
    assert(pow256(5) == 0x100_0000_0000);
    assert(pow256(6) == 0x1_0000_0000_0000);
    assert(pow256(7) == 0x100_0000_0000_0000);
    assert(pow256(8) == 0x1_0000_0000_0000_0000);
}

proof fn lemma_pow256_monotone(a: nat, b: nat)
    requires
        a <= b,
    ensures
        pow256(a) <= pow256(b),
    decreases b,
{
    if a < b {
        lemma_pow256_monotone(a, (b - 1) as nat);
    }
}

} // verus!
