use vstd::prelude::*;
use crate::text::{all_ascii, ascii_chars, ascii_string};

verus! {

/// Why a hexadecimal text could not be decoded.
#[derive(Copy, Clone, Debug, PartialEq, Eq)]
pub enum Error {
    BufferTooSmall,
    InvalidHexCharacter { character: char, index: usize },
    OddLength,
}

/// `0-9`, `A-F` or `a-f`.
pub open spec fn is_hex_digit(c: u8) -> bool {
    (0x30 <= c <= 0x39) || (0x41 <= c <= 0x46) || (0x61 <= c <= 0x66)
}

/// The value of a hexadecimal digit.
pub open spec fn digit_value(c: u8) -> u8 {
    if c <= 0x39 {
        (c - 0x30) as u8
    } else if c <= 0x46 {
        (c - 0x41 + 10) as u8
    } else {
        (c - 0x61 + 10) as u8
    }
}

/// The lower-case digit for a value below 16.
pub open spec fn hex_digit(n: u8) -> u8 {
    if n < 10 {
        (0x30 + n) as u8
    } else {
        (0x61 + n - 10) as u8
    }
}

/// Every byte of `s` before `n` is a hexadecimal digit.
pub open spec fn hex_prefix(s: Seq<u8>, n: int) -> bool {
    forall|i: int| 0 <= i < n ==> is_hex_digit(#[trigger] s[i])
}

/// The bytes that a text of hexadecimal digit pairs spells, high digit first.
pub open spec fn decoded_bytes(s: Seq<u8>) -> Seq<u8> {
    Seq::new(
        s.len() / 2,
        |i: int| (digit_value(s[2 * i]) * 16 + digit_value(s[2 * i + 1])) as u8,
    )
}

/// Two lower-case digits for each byte, high digit first.
pub open spec fn encoded_bytes(b: Seq<u8>) -> Seq<u8> {
    Seq::new(
        2 * b.len(),
        |i: int|
            if i % 2 == 0 {
                hex_digit(b[i / 2] / 16)
            } else {
                hex_digit(b[i / 2] % 16)
            },
    )
}

/// The lower-case hexadecimal text of a byte string.
pub open spec fn hex_text(b: Seq<u8>) -> Seq<char> {
    ascii_chars(encoded_bytes(b))
}

/// What decoding `s` gives: the odd-length error first, then the first byte
/// that is no digit, else the bytes.
pub open spec fn decode_result(s: Seq<u8>) -> Result<Seq<u8>, Error> {
    if s.len() % 2 != 0 {
        Err(Error::OddLength)
    } else if hex_prefix(s, s.len() as int) {
        Ok(decoded_bytes(s))
    } else {
        let k = choose|k: int| 0 <= k < s.len() && !is_hex_digit(s[k]) && hex_prefix(s, k);
        Err(Error::InvalidHexCharacter { character: s[k] as char, index: k as usize })
    }
}

fn value(character: u8, index: usize) -> (r: Result<u8, Error>)
    ensures
        match r {
            Ok(v) => is_hex_digit(character) && v == digit_value(character) && v < 16,
            Err(e) => !is_hex_digit(character) && e == (Error::InvalidHexCharacter {
                character: character as char,
                index,
            }),
        },
{
    if 0x41 <= character && character <= 0x46 {
        Ok(character - 0x41 + 10)
    } else if 0x61 <= character && character <= 0x66 {
        Ok(character - 0x61 + 10)
    } else if 0x30 <= character && character <= 0x39 {
        Ok(character - 0x30)
    } else {
        Err(Error::InvalidHexCharacter { character: character as char, index })
    }
}

proof fn lemma_first_invalid_unique(s: Seq<u8>, k: int)
    requires
        s.len() % 2 == 0,
        0 <= k < s.len(),
        !is_hex_digit(s[k]),
        hex_prefix(s, k),
    ensures
        decode_result(s) == Err::<Seq<u8>, Error>(
            Error::InvalidHexCharacter { character: s[k] as char, index: k as usize },
        ),
{
    let j = choose|j: int| 0 <= j < s.len() && !is_hex_digit(s[j]) && hex_prefix(s, j);
    if j < k {
        assert(is_hex_digit(s[j]));
    }
    if k < j {
        assert(is_hex_digit(s[k]));
    }
}

/// Decodes pairs of hexadecimal digits into the front of `output`, and
/// returns how many bytes were written.
pub fn decode_into(input: &[u8], output: &mut [u8]) -> (r: Result<usize, Error>)
    ensures
        final(output)@.len() == old(output)@.len(),
        match r {
            Ok(n) => {
                &&& decode_result(input@) == Ok::<Seq<u8>, Error>(final(output)@.subrange(0, n as int))
                &&& n == input@.len() / 2
                &&& n <= final(output)@.len()
                &&& final(output)@.subrange(n as int, final(output)@.len() as int)
                    == old(output)@.subrange(n as int, old(output)@.len() as int)
            },
            Err(Error::OddLength) => input@.len() % 2 != 0,
            Err(Error::BufferTooSmall) => input@.len() % 2 == 0 && old(output)@.len() < input@.len() / 2,
            Err(e) => input@.len() % 2 == 0 && old(output)@.len() >= input@.len() / 2 && decode_result(input@) == Err::<Seq<u8>, Error>(e),
        },
{
    if input.len() % 2 != 0 {
        return Err(Error::OddLength);
    }
    let total = input.len();
    let len = total / 2;
    if output.len() < len {
        return Err(Error::BufferTooSmall);
    }
    let mut i: usize = 0;
    while i < len
        invariant
            len == input@.len() / 2,
            input@.len() % 2 == 0,
            2 * len == input@.len(),
            total == input@.len(),
            i <= len,
            len <= output@.len(),
            output@.len() == old(output)@.len(),
            hex_prefix(input@, 2 * i),
            forall|j: int| 0 <= j < i ==> #[trigger] output@[j] == decoded_bytes(input@)[j],
            forall|j: int| i <= j < output@.len() ==> #[trigger] output@[j] == old(output)@[j],
        decreases len - i,
    {
        let high = match value(input[2 * i], 2 * i) {
            Ok(v) => v,
            Err(e) => {
                proof {
                    lemma_first_invalid_unique(input@, 2 * i as int);
                }
                return Err(e);
            },
        };
        let low = match value(input[2 * i + 1], 2 * i + 1) {
            Ok(v) => v,
            Err(e) => {
                proof {
                    lemma_first_invalid_unique(input@, 2 * i + 1);
                }
                return Err(e);
            },
        };
        let byte = (high << 4) | low;
        assert(byte == high * 16 + low) by (bit_vector)
            requires
                high < 16,
                low < 16,
                byte == (high << 4) | low,
        ;
        output[i] = byte;
        i = i + 1;
    }
    assert(hex_prefix(input@, input@.len() as int));
    assert(final(output)@.subrange(0, len as int) =~= decoded_bytes(input@));
    assert(final(output)@.subrange(len as int, final(output)@.len() as int)
        =~= old(output)@.subrange(len as int, old(output)@.len() as int));
    Ok(len)
}

/// Decodes a text of hexadecimal digit pairs.
pub fn decode(input: &[u8]) -> (r: Result<Vec<u8>, Error>)
    ensures
        match r {
            Ok(v) => decode_result(input@) == Ok::<Seq<u8>, Error>(v@),
            Err(e) => decode_result(input@) == Err::<Seq<u8>, Error>(e),
        },
{
    let mut output: Vec<u8> = vec![0u8; input.len() / 2];
    match decode_into(input, output.as_mut_slice()) {
        Ok(n) => {
            assert(output@.subrange(0, n as int) =~= output@);
            Ok(output)
        },
        Err(e) => Err(e),
    }
}

fn digit(n: u8) -> (r: u8)
    requires
        n < 16,
    ensures
        r == hex_digit(n),
        r < 128,
{
    if n < 10 {
        0x30 + n
    } else {
        0x57 + n
    }
}

/// The lower-case digits of `input` in the order that `next` yields them.
pub(crate) fn encode_bytes(input: &[u8], reversed: bool) -> (r: Vec<u8>)
    ensures
        r@ == encoded_bytes(if reversed { input@.reverse() } else { input@ }),
        all_ascii(r@),
{
    let ghost source = if reversed { input@.reverse() } else { input@ };
    let mut output: Vec<u8> = Vec::new();
    let mut i: usize = 0;
    while i < input.len()
        invariant
            i <= input@.len(),
            source == (if reversed { input@.reverse() } else { input@ }),
            output@ =~= encoded_bytes(source.subrange(0, i as int)),
            all_ascii(output@),
        decreases input@.len() - i,
    {
        let byte = if reversed { input[input.len() - 1 - i] } else { input[i] };
        assert(byte == source[i as int]);
        let high = byte >> 4;
        let low = byte & 0x0F;
        assert(high == byte / 16 && low == byte % 16) by (bit_vector)
            requires
                high == byte >> 4,
                low == byte & 0x0F,
        ;
        output.push(digit(high));
        output.push(digit(low));
        assert(output@ =~= encoded_bytes(source.subrange(0, i + 1)));
        i = i + 1;
    }
    assert(source.subrange(0, input@.len() as int) =~= source);
    output
}

/// The lower-case hexadecimal text of `input`, two digits per byte.
pub fn encode(input: &[u8]) -> (r: String)
    ensures
        r@ == hex_text(input@),
{
    ascii_string(encode_bytes(input, false))
}

} // verus!
