use vstd::prelude::*;
use crate::hex::{self, decode_result, hex_text, Error};
use crate::text::ascii_string;

verus! {

/// Reverses the first `len` bytes of `buffer` in place.
pub(crate) fn reverse_prefix(buffer: &mut [u8], len: usize)
    requires
        len <= old(buffer)@.len(),
    ensures
        final(buffer)@.len() == old(buffer)@.len(),
        final(buffer)@.subrange(0, len as int) == old(buffer)@.subrange(0, len as int).reverse(),
        final(buffer)@.subrange(len as int, final(buffer)@.len() as int)
            == old(buffer)@.subrange(len as int, old(buffer)@.len() as int),
{
    let ghost before = buffer@;
    let mut i: usize = 0;
    while i < len / 2
        invariant
            len <= before.len(),
            buffer@.len() == before.len(),
            i <= len / 2,
            forall|j: int| 0 <= j < i ==> #[trigger] buffer@[j] == before[len - 1 - j],
            forall|j: int| len - i <= j < len ==> #[trigger] buffer@[j] == before[len - 1 - j],
            forall|j: int| i <= j < len - i ==> #[trigger] buffer@[j] == before[j],
            forall|j: int| len <= j < before.len() ==> #[trigger] buffer@[j] == before[j],
        decreases len / 2 - i,
    {
        let a = buffer[i];
        let b = buffer[len - 1 - i];
        buffer[i] = b;
        buffer[len - 1 - i] = a;
        i = i + 1;
    }
    assert(buffer@.subrange(0, len as int) =~= before.subrange(0, len as int).reverse());
    assert(buffer@.subrange(len as int, buffer@.len() as int)
        =~= before.subrange(len as int, before.len() as int));
}

/// Decodes a hexadecimal text and reverses the bytes: the text writes the
/// last byte first.
pub fn decode(input: &[u8]) -> (r: Result<Vec<u8>, Error>)
    ensures
        match r {
            Ok(v) => exists|d: Seq<u8>| decode_result(input@) == Ok::<Seq<u8>, Error>(d) && v@ == d.reverse(),
            Err(e) => decode_result(input@) == Err::<Seq<u8>, Error>(e),
        },
{
    match hex::decode(input) {
        Ok(mut output) => {
            let ghost d = output@;
            let n = output.len();
            reverse_prefix(output.as_mut_slice(), n);
            assert(output@ =~= output@.subrange(0, n as int));
            assert(d.subrange(0, n as int) =~= d);
            Ok(output)
        },
        Err(e) => Err(e),
    }
}

/// Decodes a hexadecimal text into the front of `output`, last byte first,
/// and returns how many bytes were written.
pub fn decode_into(input: &[u8], output: &mut [u8]) -> (r: Result<usize, Error>)
    ensures
        final(output)@.len() == old(output)@.len(),
        match r {
            Ok(n) => {
                &&& decode_result(input@) == Ok::<Seq<u8>, Error>(final(output)@.subrange(0, n as int).reverse())
                &&& n == input@.len() / 2
                &&& n <= final(output)@.len()
                &&& final(output)@.subrange(n as int, final(output)@.len() as int)
                    == old(output)@.subrange(n as int, old(output)@.len() as int)
            },
            Err(Error::OddLength) => input@.len() % 2 != 0,
            Err(Error::BufferTooSmall) => input@.len() % 2 == 0 && old(output)@.len() < input@.len() / 2,
            Err(e) => input@.len() % 2 == 0 && old(output)@.len() >= input@.len() / 2 && decode_result(input@) == Err::<Seq<u8>, Error>(e),
        },
{
    let len = hex::decode_into(input, output)?;
    let ghost written = output@;
    reverse_prefix(output, len);
    assert(output@.subrange(0, len as int).reverse() =~= written.subrange(0, len as int));
    Ok(len)
}

/// The hexadecimal text of `input` read from its last byte to its first.
pub fn encode(input: &[u8]) -> (r: String)
    ensures
        r@ == hex_text(input@.reverse()),
{
    ascii_string(hex::encode_bytes(input, true))
}

} // verus!
