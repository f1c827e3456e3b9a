use vstd::prelude::*;
use crate::hashing_buffer_reader::{double_sha256, le_value, spec_var_buffer, spec_var_int, HashingBufferReader};
use crate::transaction_output::TransactionOutput;

verus! {

/// An output of a transaction: a value and the script that locks it.
#[derive(Debug, Clone)]
pub struct Output {
    pub value: u64,
    pub script: Vec<u8>,
}

/// A transaction: its hash, the outputs it spends and the outputs it creates.
#[derive(Debug, Clone)]
pub struct Transaction {
    pub hash: [u8; 32],
    pub inputs: Vec<TransactionOutput>,
    pub outputs: Vec<Output>,
}

/// The index of each output fits the 32 bits of an outpoint.
pub open spec fn transaction_wf(tx: Transaction) -> bool {
    tx.outputs@.len() <= u32::MAX
}

pub open spec fn txo_view(t: TransactionOutput) -> (Seq<u8>, u32) {
    (t.hash@, t.index)
}

pub open spec fn output_view(o: Output) -> (u64, Seq<u8>) {
    (o.value, o.script@)
}

/// A transaction as its hash, its inputs and its outputs.
pub open spec fn transaction_view(tx: Transaction) -> (Seq<u8>, Seq<(Seq<u8>, u32)>, Seq<(u64, Seq<u8>)>) {
    (tx.hash@, tx.inputs@.map_values(|t: TransactionOutput| txo_view(t)), tx.outputs@.map_values(|o: Output| output_view(o)))
}

/// An input at `off`: the spent transaction's hash, the output's index, a
/// script and a sequence number.
pub open spec fn spec_input(buf: Seq<u8>, off: int) -> Option<((Seq<u8>, u32), int)> {
    if off < 0 || off + 36 > buf.len() {
        None
    } else {
        match spec_var_buffer(buf, off + 36) {
            Some((_, p)) => if p + 4 <= buf.len() {
                Some(((buf.subrange(off, off + 32), le_value(buf.subrange(off + 32, off + 36)) as u32), p + 4))
            } else {
                None
            },
            None => None,
        }
    }
}

pub open spec fn spec_inputs(buf: Seq<u8>, off: int, n: nat) -> Option<(Seq<(Seq<u8>, u32)>, int)>
    decreases n,
{
    if n == 0 {
        Some((Seq::empty(), off))
    } else {
        match spec_inputs(buf, off, (n - 1) as nat) {
            Some((s, p)) => match spec_input(buf, p) {
                Some((i, q)) => Some((s.push(i), q)),
                None => None,
            },
            None => None,
        }
    }
}

/// An output at `off`: its value and its script.
pub open spec fn spec_output(buf: Seq<u8>, off: int) -> Option<((u64, Seq<u8>), int)> {
    if off < 0 || off + 8 > buf.len() {
        None
    } else {
        match spec_var_buffer(buf, off + 8) {
            Some((script, p)) => Some(((le_value(buf.subrange(off, off + 8)) as u64, script), p)),
            None => None,
        }
    }
}

pub open spec fn spec_outputs(buf: Seq<u8>, off: int, n: nat) -> Option<(Seq<(u64, Seq<u8>)>, int)>
    decreases n,
{
    if n == 0 {
        Some((Seq::empty(), off))
    } else {
        match spec_outputs(buf, off, (n - 1) as nat) {
            Some((s, p)) => match spec_output(buf, p) {
                Some((o, q)) => Some((s.push(o), q)),
                None => None,
            },
            None => None,
        }
    }
}

/// The offset after `n` length-prefixed byte strings.
pub open spec fn spec_var_buffers(buf: Seq<u8>, off: int, n: nat) -> Option<int>
    decreases n,
{
    if n == 0 {
        Some(off)
    } else {
        match spec_var_buffers(buf, off, (n - 1) as nat) {
            Some(p) => match spec_var_buffer(buf, p) {
                Some((_, q)) => Some(q),
                None => None,
            },
            None => None,
        }
    }
}

/// The offset after the witnesses of `n` inputs: for each, a count and that
/// many length-prefixed byte strings.
pub open spec fn spec_witnesses(buf: Seq<u8>, off: int, n: nat) -> Option<int>
    decreases n,
{
    if n == 0 {
        Some(off)
    } else {
        match spec_witnesses(buf, off, (n - 1) as nat) {
            Some(p) => match spec_var_int(buf, p) {
                Some((k, q)) => spec_var_buffers(buf, q, k as nat),
                None => None,
            },
            None => None,
        }
    }
}

/// A transaction at `off`, with the offset after it: a version, an optional
/// segwit marker and flag, the inputs, the outputs, the witnesses when the
/// flag asks for them, and a lock time. Its hash is the double SHA-256 of all
/// but the marker, the flag and the witnesses. There are at most `u32::MAX`
/// outputs, so that each has an index.
pub open spec fn spec_transaction(buf: Seq<u8>, off: int) -> Option<
    ((Seq<u8>, Seq<(Seq<u8>, u32)>, Seq<(u64, Seq<u8>)>), int),
> {
    let p = off + 4;
    if off < 0 || p + 1 > buf.len() {
        None
    } else {
        let segwit = buf[p] == 0;
        if segwit && p + 2 > buf.len() {
            None
        } else {
            let flags: u8 = if segwit { buf[p + 1] } else { 0 };
            let q = if segwit { p + 2 } else { p };
            match spec_var_int(buf, q) {
                None => None,
                Some((n_in, a)) => match spec_inputs(buf, a, n_in as nat) {
                    None => None,
                    Some((inputs, b)) => match spec_var_int(buf, b) {
                        None => None,
                        Some((n_out, c)) => if n_out > u32::MAX {
                            None
                        } else {
                            match spec_outputs(buf, c, n_out as nat) {
                                None => None,
                                Some((outputs, d)) => {
                                    let e = if flags & 1 != 0 { spec_witnesses(buf, d, n_in as nat) } else { Some(d) };
                                    match e {
                                        None => None,
                                        Some(e) => if e + 4 > buf.len() {
                                            None
                                        } else {
                                            let hashed = buf.subrange(off, off + 4) + buf.subrange(q, d) + buf.subrange(e, e + 4);
                                            Some(((double_sha256(hashed), inputs, outputs), e + 4))
                                        },
                                    }
                                },
                            }
                        },
                    },
                },
            }
        }
    }
}

proof fn lemma_extend(h: Seq<u8>, buf: Seq<u8>, q: int, x: int, y: int)
    requires
        0 <= q <= x <= y <= buf.len(),
    ensures
        (h + buf.subrange(q, x)) + buf.subrange(x, y) == h + buf.subrange(q, y),
{
    assert((h + buf.subrange(q, x)) + buf.subrange(x, y) =~= h + buf.subrange(q, y));
}

proof fn lemma_inputs_fail(buf: Seq<u8>, off: int, k: nat, n: nat)
    requires
        spec_inputs(buf, off, k) is None,
        k <= n,
    ensures
        spec_inputs(buf, off, n) is None,
    decreases n,
{
    if k < n {
        lemma_inputs_fail(buf, off, k, (n - 1) as nat);
    }
}

proof fn lemma_outputs_fail(buf: Seq<u8>, off: int, k: nat, n: nat)
    requires
        spec_outputs(buf, off, k) is None,
        k <= n,
    ensures
        spec_outputs(buf, off, n) is None,
    decreases n,
{
    if k < n {
        lemma_outputs_fail(buf, off, k, (n - 1) as nat);
    }
}

proof fn lemma_var_buffers_fail(buf: Seq<u8>, off: int, k: nat, n: nat)
    requires
        spec_var_buffers(buf, off, k) is None,
        k <= n,
    ensures
        spec_var_buffers(buf, off, n) is None,
    decreases n,
{
    if k < n {
        lemma_var_buffers_fail(buf, off, k, (n - 1) as nat);
    }
}

proof fn lemma_witnesses_fail(buf: Seq<u8>, off: int, k: nat, n: nat)
    requires
        spec_witnesses(buf, off, k) is None,
        k <= n,
    ensures
        spec_witnesses(buf, off, n) is None,
    decreases n,
{
    if k < n {
        lemma_witnesses_fail(buf, off, k, (n - 1) as nat);
    }
}

fn read_input(reader: &mut HashingBufferReader) -> (r: Option<TransactionOutput>)
    requires
        old(reader).wf(),
    ensures
        final(reader).wf(),
        final(reader).bytes() == old(reader).bytes(),
        final(reader).spec_offset() >= old(reader).spec_offset(),
        match r {
            Some(t) => spec_input(old(reader).bytes(), old(reader).spec_offset()) == Some((txo_view(t), final(reader).spec_offset()))
                && old(reader).advanced(&*final(reader), final(reader).spec_offset() - old(reader).spec_offset(), true),
            None => spec_input(old(reader).bytes(), old(reader).spec_offset()) is None,
        },
{
    let ghost r0 = *reader;
    let ghost buf = r0.bytes();
    let ghost off = r0.spec_offset();
    let hash = reader.read_hash(true)?;
    let index = reader.read_u32_le(true)?;
    let ghost r2 = *reader;
    let _script = reader.read_var_buffer_le(true)?;
    let ghost r3 = *reader;
    let _sequence = reader.read_u32_le(true)?;
    proof {
        lemma_extend(r0.hashed(), buf, off, off + 32, off + 36);
        lemma_extend(r0.hashed(), buf, off, off + 36, r3.spec_offset());
        lemma_extend(r0.hashed(), buf, off, r3.spec_offset(), r3.spec_offset() + 4);
    }
    Some(TransactionOutput::new(hash, index))
}

fn read_output(reader: &mut HashingBufferReader) -> (r: Option<Output>)
    requires
        old(reader).wf(),
    ensures
        final(reader).wf(),
        final(reader).bytes() == old(reader).bytes(),
        final(reader).spec_offset() >= old(reader).spec_offset(),
        match r {
            Some(o) => spec_output(old(reader).bytes(), old(reader).spec_offset()) == Some((output_view(o), final(reader).spec_offset()))
                && old(reader).advanced(&*final(reader), final(reader).spec_offset() - old(reader).spec_offset(), true),
            None => spec_output(old(reader).bytes(), old(reader).spec_offset()) is None,
        },
{
    let ghost r0 = *reader;
    let ghost buf = r0.bytes();
    let ghost off = r0.spec_offset();
    let value = reader.read_u64_le(true)?;
    let script = reader.read_var_buffer_le(true)?;
    proof {
        lemma_extend(r0.hashed(), buf, off, off + 8, reader.spec_offset());
    }
    Some(Output { value, script })
}

/// Moves past the witnesses of `count` inputs, hashing none of them.
fn skip_witnesses(reader: &mut HashingBufferReader, count: u64) -> (r: bool)
    requires
        old(reader).wf(),
    ensures
        final(reader).wf(),
        final(reader).bytes() == old(reader).bytes(),
        final(reader).hashed() == old(reader).hashed(),
        match spec_witnesses(old(reader).bytes(), old(reader).spec_offset(), count as nat) {
            Some(e) => r && final(reader).spec_offset() == e,
            None => !r,
        },
{
    let ghost buf = reader.bytes();
    let ghost start = reader.spec_offset();
    let mut i: u64 = 0;
    while i < count
        invariant
            reader.wf(),
            reader.bytes() == buf,
            reader.hashed() == old(reader).hashed(),
            buf == old(reader).bytes(),
            start == old(reader).spec_offset(),
            i <= count,
            spec_witnesses(buf, start, i as nat) == Some(reader.spec_offset()),
        decreases count - i,
    {
        let ghost p = reader.spec_offset();
        let items = match reader.read_var_int_le(false) {
            Some(k) => k,
            None => {
                proof {
                    lemma_witnesses_fail(buf, start, (i + 1) as nat, count as nat);
                }
                return false;
            },
        };
        let ghost q = reader.spec_offset();
        let mut j: u64 = 0;
        while j < items
            invariant
                reader.wf(),
                reader.bytes() == buf,
                buf == old(reader).bytes(),
                reader.hashed() == old(reader).hashed(),
                i < count,
                start == old(reader).spec_offset(),
                spec_witnesses(buf, start, i as nat) == Some(p),
                spec_var_int(buf, p) == Some((items, q)),
                j <= items,
                spec_var_buffers(buf, q, j as nat) == Some(reader.spec_offset()),
            decreases items - j,
        {
            match reader.read_var_buffer_le(false) {
                Some(_) => {},
                None => {
                    proof {
                        lemma_var_buffers_fail(buf, q, (j + 1) as nat, items as nat);
                        assert(spec_witnesses(buf, start, (i + 1) as nat) is None);
                        lemma_witnesses_fail(buf, start, (i + 1) as nat, count as nat);
                    }
                    return false;
                },
            }
            j = j + 1;
        }
        i = i + 1;
    }
    true
}

impl Transaction {
    /// Parses a transaction at the start of `buffer`.
    pub fn from_slice(buffer: &[u8]) -> (r: Option<Self>)
        ensures
            match r {
                Some(tx) => transaction_wf(tx) && exists|end: int| spec_transaction(buffer@, 0) == Some((transaction_view(tx), end)),
                None => spec_transaction(buffer@, 0) is None,
            },
    {
        let mut reader = HashingBufferReader::new(buffer);
        Self::from_reader(&mut reader)
    }

    /// Parses a transaction where `reader` stands, and moves past it.
    pub fn from_reader(reader: &mut HashingBufferReader) -> (r: Option<Self>)
        requires
            old(reader).wf(),
        ensures
            final(reader).wf(),
            final(reader).bytes() == old(reader).bytes(),
            match r {
                Some(tx) => transaction_wf(tx) && spec_transaction(old(reader).bytes(), old(reader).spec_offset())
                    == Some((transaction_view(tx), final(reader).spec_offset())),
                None => spec_transaction(old(reader).bytes(), old(reader).spec_offset()) is None,
            },
    {
        let ghost buf = reader.bytes();
        let ghost off = reader.spec_offset();
        reader.start_hash();
        let _version = reader.read_i32_le(true)?;
        let ghost h0 = reader.hashed();
        assert(h0 =~= buf.subrange(off, off + 4));
        let mut flags: u8 = 0;
        match reader.peek_u8() {
            Some(0) => {
                reader.skip(1, false);
                flags = reader.read_u8(false)?;
            },
            Some(_) => {},
            None => return None,
        }
        let ghost q = reader.spec_offset();
        assert(reader.hashed() =~= h0 + buf.subrange(q, q));
        let count_inputs = reader.read_var_int_le(true)?;
        let ghost a = reader.spec_offset();
        proof {
            lemma_extend(h0, buf, q, q, a);
        }
        let mut inputs: Vec<TransactionOutput> = Vec::new();
        let mut i: u64 = 0;
        while i < count_inputs
            invariant
                reader.wf(),
                reader.bytes() == buf,
                buf == old(reader).bytes(),
                off == old(reader).spec_offset(),
                0 <= off,
                off + 5 <= buf.len(),
                q == if buf[off + 4] == 0 { off + 6 } else { off + 4 },
                buf[off + 4] == 0 ==> off + 6 <= buf.len() && flags == buf[off + 5],
                buf[off + 4] != 0 ==> flags == 0,
                spec_var_int(buf, q) == Some((count_inputs, a)),
                q <= a <= reader.spec_offset(),
                i <= count_inputs,
                reader.hashed() == h0 + buf.subrange(q, reader.spec_offset()),
                spec_inputs(buf, a, i as nat) == Some((inputs@.map_values(|t: TransactionOutput| txo_view(t)), reader.spec_offset())),
            decreases count_inputs - i,
        {
            let ghost p = reader.spec_offset();
            match read_input(reader) {
                Some(t) => {
                    proof {
                        lemma_extend(h0, buf, q, p, reader.spec_offset());
                    }
                    inputs.push(t);
                    assert(inputs@.map_values(|t: TransactionOutput| txo_view(t))
                        =~= old_inputs_view(inputs@).push(txo_view(t)));
                },
                None => {
                    proof {
                        lemma_inputs_fail(buf, a, (i + 1) as nat, count_inputs as nat);
                    }
                    return None;
                },
            }
            i = i + 1;
        }
        let ghost b = reader.spec_offset();
        let count_outputs = reader.read_var_int_le(true)?;
        let ghost c = reader.spec_offset();
        proof {
            lemma_extend(h0, buf, q, b, c);
        }
        if count_outputs > u32::MAX as u64 {
            return None;
        }
        let mut outputs: Vec<Output> = Vec::new();
        let mut j: u64 = 0;
        while j < count_outputs
            invariant
                reader.wf(),
                reader.bytes() == buf,
                buf == old(reader).bytes(),
                off == old(reader).spec_offset(),
                0 <= off,
                off + 5 <= buf.len(),
                q == if buf[off + 4] == 0 { off + 6 } else { off + 4 },
                buf[off + 4] == 0 ==> off + 6 <= buf.len() && flags == buf[off + 5],
                buf[off + 4] != 0 ==> flags == 0,
                spec_var_int(buf, q) == Some((count_inputs, a)),
                spec_inputs(buf, a, count_inputs as nat) == Some((inputs@.map_values(|t: TransactionOutput| txo_view(t)), b)),
                spec_var_int(buf, b) == Some((count_outputs, c)),
                q <= a <= b <= c <= reader.spec_offset(),
                j <= count_outputs,
                count_outputs <= u32::MAX,
                outputs@.len() == j,
                reader.hashed() == h0 + buf.subrange(q, reader.spec_offset()),
                spec_outputs(buf, c, j as nat) == Some((outputs@.map_values(|o: Output| output_view(o)), reader.spec_offset())),
            decreases count_outputs - j,
        {
            let ghost p = reader.spec_offset();
            match read_output(reader) {
                Some(o) => {
                    proof {
                        lemma_extend(h0, buf, q, p, reader.spec_offset());
                    }
                    let ghost ov = output_view(o);
                    outputs.push(o);
                    assert(outputs@.map_values(|o: Output| output_view(o)) =~= old_outputs_view(outputs@).push(ov));
                },
                None => {
                    proof {
                        lemma_outputs_fail(buf, c, (j + 1) as nat, count_outputs as nat);
                    }
                    return None;
                },
            }
            j = j + 1;
        }
        let ghost d = reader.spec_offset();
        if (flags & 1) != 0 {
            if !skip_witnesses(reader, count_inputs) {
                return None;
            }
        }
        let ghost e = reader.spec_offset();
        let _locktime = reader.read_u32_le(true)?;
        assert(reader.hashed() =~= buf.subrange(off, off + 4) + buf.subrange(q, d) + buf.subrange(e, e + 4));
        let hash = reader.digest();
        Some(Transaction { hash, inputs, outputs })
    }
}

/// The views of all but the last input.
spec fn old_inputs_view(s: Seq<TransactionOutput>) -> Seq<(Seq<u8>, u32)> {
    s.drop_last().map_values(|t: TransactionOutput| txo_view(t))
}

/// The views of all but the last output.
spec fn old_outputs_view(s: Seq<Output>) -> Seq<(u64, Seq<u8>)> {
    s.drop_last().map_values(|o: Output| output_view(o))
}

} // verus!
