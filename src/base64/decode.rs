use vstd::prelude::*;
use crate::base_common::digits::{be_digits, pown};

verus! {

/// Why a base64 text could not be read.
#[derive(Copy, Clone, Debug, Eq, PartialEq)]
pub enum Error {
    BufferTooSmall,
    NonAsciiCharacter { character: u8, index: usize },
    InvalidCharacter { character: char, index: usize },
    /// The bits after the last whole byte are not all zero.
    NonZeroTrailingBits,
}

/// The 6-bit value of a base64 character.
pub open spec fn base64_value(c: u8) -> Option<u8> {
    if 0x41 <= c <= 0x5A {
        Some((c - 0x41) as u8)
    } else if 0x61 <= c <= 0x7A {
        Some((c - 0x61 + 26) as u8)
    } else if 0x30 <= c <= 0x39 {
        Some((c - 0x30 + 52) as u8)
    } else if c == 0x2B {
        Some(62u8)
    } else if c == 0x2F {
        Some(63u8)
    } else {
        None
    }
}

/// Every character before `n` is a base64 character or the padding `=`.
pub open spec fn valid_prefix(text: Seq<u8>, n: int) -> bool {
    forall|i: int| 0 <= i < n ==> #[trigger] text[i] == 0x3D || base64_value(text[i]) is Some
}

/// The 6-bit values of the characters, padding left out.
pub open spec fn sextets(text: Seq<u8>) -> Seq<u8>
    decreases text.len(),
{
    if text.len() == 0 {
        Seq::empty()
    } else if text.last() == 0x3D {
        sextets(text.drop_last())
    } else {
        sextets(text.drop_last()).push(base64_value(text.last())->Some_0)
    }
}

/// `bytes` is what reading the base64 text `text` gives.
pub open spec fn decodes_to(text: Seq<u8>, bytes: Seq<u8>) -> bool {
    let v = sextets(text);
    &&& valid_prefix(text, text.len() as int)
    &&& bytes.len() == (6 * v.len()) / 8
    &&& be_digits(bytes, 256) * pown(2, (6 * v.len() - 8 * bytes.len()) as nat) == be_digits(v, 64)
}

/// `e` is why reading the base64 text `text` fails.
pub open spec fn decode_error(text: Seq<u8>, e: Error) -> bool {
    match e {
        Error::NonZeroTrailingBits => valid_prefix(text, text.len() as int)
            && be_digits(sextets(text), 64) % pown(2, ((6 * sextets(text).len()) % 8) as nat) != 0,
        Error::NonAsciiCharacter { character, index } => index < text.len() && valid_prefix(text, index as int)
            && base64_value(text[index as int]) is None && text[index as int] != 0x3D && character == text[index as int],
        Error::InvalidCharacter { character, index } => index < text.len() && valid_prefix(text, index as int)
            && base64_value(text[index as int]) is None && text[index as int] != 0x3D
            && character == text[index as int] as char,
        Error::BufferTooSmall => false,
    }
}

fn value(c: u8, index: usize) -> (r: Result<u8, Error>)
    ensures
        match r {
            Ok(v) => base64_value(c) == Some(v) && v < 64,
            Err(Error::NonAsciiCharacter { character, index: i }) => base64_value(c) is None && c >= 128 && character == c && i == index,
            Err(Error::InvalidCharacter { character, index: i }) => base64_value(c) is None && c < 128 && character == c as char
                && i == index,
            Err(_) => false,
        },
{
    if 0x41 <= c && c <= 0x5A {
        Ok(c - 0x41)
    } else if 0x61 <= c && c <= 0x7A {
        Ok(c - 0x61 + 26)
    } else if 0x30 <= c && c <= 0x39 {
        Ok(c - 0x30 + 52)
    } else if c == 0x2B {
        Ok(62)
    } else if c == 0x2F {
        Ok(63)
    } else if c >= 128 {
        Err(Error::NonAsciiCharacter { character: c, index })
    } else {
        Err(Error::InvalidCharacter { character: c as char, index })
    }
}

/// Reads a base64 text: the padding `=` is skipped wherever it stands, each
/// other character gives six bits, and every eight bits make a byte. The
/// bytes, followed by the bits left over, spell the number that the 6-bit
/// values spell; the bits left over must be zero.
pub fn decode(input: &[u8]) -> (r: Result<Vec<u8>, Error>)
    ensures
        match r {
            Ok(bytes) => decodes_to(input@, bytes@),
            Err(e) => decode_error(input@, e),
        },
{
    let mut output: Vec<u8> = Vec::new();
    let mut accumulator: u32 = 0;
    let mut bits: u32 = 0;
    let mut i: usize = 0;
    proof {
        assert(input@.subrange(0, 0) =~= Seq::<u8>::empty());
        assert(pown(2, 0) == 1);
        assert(be_digits(output@, 256) == 0);
    }
    while i < input.len()
        invariant
            i <= input@.len(),
            valid_prefix(input@, i as int),
            bits < 8,
            accumulator < pown(2, bits as nat),
            6 * sextets(input@.subrange(0, i as int)).len() == 8 * output@.len() + bits,
            be_digits(output@, 256) * pown(2, bits as nat) + accumulator == be_digits(sextets(input@.subrange(0, i as int)), 64),
        decreases input@.len() - i,
    {
        let c = input[i];
        assert(input@.subrange(0, i + 1).drop_last() =~= input@.subrange(0, i as int));
        if c == 0x3D {
            i = i + 1;
            continue;
        }
        let v = match value(c, i) {
            Ok(v) => v,
            Err(e) => return Err(e),
        };
        let ghost out0 = output@;
        let ghost acc0 = accumulator as int;
        let ghost bits0 = bits as nat;
        let ghost prefix = sextets(input@.subrange(0, i as int));
        proof {
            assert(sextets(input@.subrange(0, i + 1)) == prefix.push(v));
            assert(prefix.push(v).drop_last() =~= prefix);
            lemma_pow2_small(bits0);
            assert(accumulator * 64 + v < 64 * pown(2, bits0)) by (nonlinear_arith)
                requires
                    accumulator < pown(2, bits0),
                    v < 64,
            ;
        }
        let widened = accumulator * 64 + v as u32;
        if bits >= 2 {
            let rest = bits - 2;
            let byte = widened >> rest;
            assert((1u32 << rest) >= 1) by (bit_vector)
                requires
                    rest < 6,
            ;
            let low = widened & ((1u32 << rest) - 1);
            proof {
                lemma_pow2_small(rest as nat);
                assert(pown(2, bits0) == 4 * pown(2, rest as nat));
                assert(widened < (256u32 << rest));
                assert(widened == byte * (1u32 << rest) + low && low < (1u32 << rest) && byte < 256) by (bit_vector)
                    requires
                        rest < 6,
                        widened < (256u32 << rest),
                        byte == widened >> rest,
                        low == widened & (((1u32 << rest) - 1u32) as u32),
                ;
                let p = pown(2, rest as nat);
                assert(be_digits(out0.push(byte as u8), 256) == be_digits(out0, 256) * 256 + byte) by {
                    assert(out0.push(byte as u8).drop_last() =~= out0);
                }
                assert((be_digits(out0, 256) * 256 + byte) * p + low == 64 * (be_digits(out0, 256) * (4 * p) + acc0) + v)
                    by (nonlinear_arith)
                    requires
                        widened == byte * p + low,
                        widened == acc0 * 64 + v,
                ;
            }
            output.push(byte as u8);
            accumulator = low;
            bits = rest;
        } else {
            proof {
                lemma_pow2_small((bits0 + 6) as nat);
                assert(pown(2, (bits0 + 6) as nat) == 64 * pown(2, bits0));
                assert(be_digits(out0, 256) * (64 * pown(2, bits0)) + (acc0 * 64 + v) == 64 * (be_digits(out0, 256) * pown(2, bits0) + acc0)
                    + v) by (nonlinear_arith);
            }
            accumulator = widened;
            bits = bits + 6;
        }
        i = i + 1;
    }
    assert(input@.subrange(0, input@.len() as int) =~= input@);
    let ghost m = sextets(input@).len();
    proof {
        lemma_pow2_small(bits as nat);
        assert((6 * m) % 8 == bits && (6 * m) / 8 == output@.len()) by {
            vstd::arithmetic::div_mod::lemma_fundamental_div_mod_converse(
                (6 * m) as int,
                8,
                output@.len() as int,
                bits as int,
            );
        }
        vstd::arithmetic::div_mod::lemma_fundamental_div_mod_converse(
            be_digits(sextets(input@), 64) as int,
            pown(2, bits as nat) as int,
            be_digits(output@, 256) as int,
            accumulator as int,
        );
    }
    if accumulator != 0 {
        return Err(Error::NonZeroTrailingBits);
    }
    Ok(output)
}

proof fn lemma_pow2_small(n: nat)
    requires
        n < 14,
    ensures
        pown(2, n) >= 1,
        n >= 2 ==> pown(2, n) == 4 * pown(2, (n - 2) as nat),
        n >= 6 ==> pown(2, n) == 64 * pown(2, (n - 6) as nat),
        n < 8 ==> pown(2, n) <= 128,
        n < 6 ==> pown(2, n) == (1u32 << n),
        n < 6 ==> (256u32 << n) == 256 * pown(2, n),
{
    assert(pown(2, 0) == 1);
    assert(pown(2, 1) == 2);
    assert(pown(2, 2) == 4);
    assert(pown(2, 3) == 8);
    assert(pown(2, 4) == 16);
    assert(pown(2, 5) == 32);
    assert(pown(2, 6) == 64);
    assert(pown(2, 7) == 128);
    assert(pown(2, 8) == 256);
    assert(pown(2, 9) == 512);
    assert(pown(2, 10) == 1024);
    assert(pown(2, 11) == 2048);
    assert(pown(2, 12) == 4096);
    assert(pown(2, 13) == 8192);
    assert((1u32 << 0u32) == 1 && (1u32 << 1u32) == 2 && (1u32 << 2u32) == 4 && (1u32 << 3u32) == 8 && (1u32 << 4u32) == 16
        && (1u32 << 5u32) == 32) by (bit_vector);
    assert((256u32 << 0u32) == 256 && (256u32 << 1u32) == 512 && (256u32 << 2u32) == 1024 && (256u32 << 3u32) == 2048
        && (256u32 << 4u32) == 4096 && (256u32 << 5u32) == 8192) by (bit_vector);
}

/// Writes the bytes that the base64 text `input` stands for to the front of
/// `output`, and returns how many there are.
pub fn decode_into(input: &[u8], output: &mut [u8]) -> (r: Result<usize, Error>)
    ensures
        final(output)@.len() == old(output)@.len(),
        match r {
            Ok(n) => n <= old(output)@.len() && decodes_to(input@, final(output)@.subrange(0, n as int)),
            Err(Error::BufferTooSmall) => exists|bytes: Seq<u8>| decodes_to(input@, bytes) && bytes.len() > old(output)@.len(),
            Err(e) => decode_error(input@, e),
        },
{
    let bytes = decode(input)?;
    match crate::base58::encode::copy_into(&bytes, output) {
        Ok(n) => Ok(n),
        Err(_) => Err(Error::BufferTooSmall),
    }
}

} // verus!
