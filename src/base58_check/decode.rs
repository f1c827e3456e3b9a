use vstd::prelude::*;
use crate::base58::{self, base58_characters, base58_digits, digit_text, lemma_ascending_distinct, lemma_base58_round_trip};
use crate::base58::decode::{decode_result, text_digits, valid_prefix};
use crate::base58_check::checksum::{checksum_of, compute_checksum};
use crate::base58_check::encode::check_text;
use crate::base_common::alphabet::{digit_in, Alphabet};
use crate::base_common::digits::all_below;

verus! {

/// Why a base58-check text could not be read.
#[derive(Copy, Clone, Debug, Eq, PartialEq)]
pub enum Error {
    BufferTooSmall,
    InvalidCharacter { character: char, index: usize },
    NonAsciiCharacter { index: usize, character: u8 },
    InvalidChecksum { checksum: [u8; 4], expected_checksum: [u8; 4] },
    NoChecksum,
}

impl Error {
    pub fn from(error: base58::decode::Error) -> (r: Self)
        ensures
            r == match error {
                base58::decode::Error::BufferTooSmall => Error::BufferTooSmall,
                base58::decode::Error::InvalidCharacter { character, index } => Error::InvalidCharacter { character, index },
                base58::decode::Error::NonAsciiCharacter { character, index } => Error::NonAsciiCharacter { character, index },
            },
    {
        match error {
            base58::decode::Error::BufferTooSmall => Error::BufferTooSmall,
            base58::decode::Error::InvalidCharacter { character, index } => Error::InvalidCharacter { character, index },
            base58::decode::Error::NonAsciiCharacter { character, index } => Error::NonAsciiCharacter { character, index },
        }
    }
}

/// What reading a base58-check text gives, given what reading it as base58
/// gave: the payload when the last four bytes are its checksum.
pub open spec fn checked(decoded: Result<Seq<u8>, base58::decode::Error>, r: Result<Seq<u8>, Error>) -> bool {
    match decoded {
        Err(e) => r == Err::<Seq<u8>, Error>(Error::from_spec(e)),
        Ok(b) => if b.len() < 4 {
            r == Err::<Seq<u8>, Error>(Error::NoChecksum)
        } else if b.subrange(b.len() - 4, b.len() as int) != checksum_of(b.subrange(0, b.len() - 4)) {
            match r {
                Err(Error::InvalidChecksum { checksum, expected_checksum }) => checksum@ == b.subrange(b.len() - 4, b.len() as int)
                    && expected_checksum@ == checksum_of(b.subrange(0, b.len() - 4)),
                _ => false,
            }
        } else {
            r == Ok::<Seq<u8>, Error>(b.subrange(0, b.len() - 4))
        },
    }
}

impl Error {
    pub open spec fn from_spec(error: base58::decode::Error) -> Self {
        match error {
            base58::decode::Error::BufferTooSmall => Error::BufferTooSmall,
            base58::decode::Error::InvalidCharacter { character, index } => Error::InvalidCharacter { character, index },
            base58::decode::Error::NonAsciiCharacter { character, index } => Error::NonAsciiCharacter { character, index },
        }
    }
}

fn verify_checksum(buffer: &[u8]) -> (r: Result<(), Error>)
    ensures
        match r {
            Ok(()) => buffer@.len() >= 4 && buffer@.subrange(buffer@.len() - 4, buffer@.len() as int)
                == checksum_of(buffer@.subrange(0, buffer@.len() - 4)),
            Err(Error::NoChecksum) => buffer@.len() < 4,
            Err(Error::InvalidChecksum { checksum, expected_checksum }) => buffer@.len() >= 4
                && buffer@.subrange(buffer@.len() - 4, buffer@.len() as int) != checksum_of(buffer@.subrange(0, buffer@.len() - 4))
                && checksum@ == buffer@.subrange(buffer@.len() - 4, buffer@.len() as int)
                && expected_checksum@ == checksum_of(buffer@.subrange(0, buffer@.len() - 4)),
            _ => false,
        },
{
    let n = buffer.len();
    if n < 4 {
        return Err(Error::NoChecksum);
    }
    let payload = &buffer[0..n - 4];
    let expected = compute_checksum(payload);
    let found = [buffer[n - 4], buffer[n - 3], buffer[n - 2], buffer[n - 1]];
    assert(found@ =~= buffer@.subrange(n - 4, n as int));
    if !crate::transaction_output::same_bytes(&found, &expected) {
        proof {
            if found@ == expected@ {
                vstd::array::axiom_array_ext_equal(found, expected);
            }
        }
        return Err(Error::InvalidChecksum { checksum: found, expected_checksum: expected });
    }
    Ok(())
}

/// Reads base58-check texts with an alphabet.
pub struct Decoder<'a> {
    decoder: base58::decode::Decoder<'a>,
}

impl<'a> Decoder<'a> {
    pub closed spec fn spec_alphabet(&self) -> Alphabet<58> {
        self.decoder.spec_alphabet()
    }

    pub fn new(alphabet: &'a Alphabet<58>) -> (r: Self)
        ensures
            r.spec_alphabet() == *alphabet,
    {
        Decoder { decoder: base58::decode::Decoder::new(alphabet) }
    }

    /// The payload of the base58-check text `input`.
    pub fn decode(&self, input: &[u8]) -> (r: Result<Vec<u8>, Error>)
        requires
            self.spec_alphabet().wf(),
        ensures
            checked(decode_result(self.spec_alphabet().characters(), input@), match r {
                Ok(v) => Ok(v@),
                Err(e) => Err(e),
            }),
    {
        let mut bytes = match self.decoder.decode(input) {
            Ok(b) => b,
            Err(e) => return Err(Error::from(e)),
        };
        verify_checksum(bytes.as_slice())?;
        let n = bytes.len();
        bytes.truncate(n - 4);
        Ok(bytes)
    }

    /// Writes the payload of the base58-check text `input` to the front of
    /// `output`, and returns its length.
    pub fn decode_into(&self, input: &[u8], output: &mut [u8]) -> (r: Result<usize, Error>)
        requires
            self.spec_alphabet().wf(),
        ensures
            final(output)@.len() == old(output)@.len(),
            match r {
                Ok(n) => n <= old(output)@.len() && checked(
                    decode_result(self.spec_alphabet().characters(), input@),
                    Ok(final(output)@.subrange(0, n as int)),
                ),
                Err(Error::BufferTooSmall) => exists|payload: Seq<u8>| checked(
                    decode_result(self.spec_alphabet().characters(), input@),
                    Ok(payload),
                ) && payload.len() > old(output)@.len(),
                Err(e) => checked(decode_result(self.spec_alphabet().characters(), input@), Err(e)),
            },
    {
        let payload = self.decode(input)?;
        match base58::encode::copy_into(&payload, output) {
            Ok(n) => Ok(n),
            Err(_) => Err(Error::BufferTooSmall),
        }
    }
}

/// The payload of the base58-check text `input`.
pub fn decode(input: &[u8]) -> (r: Result<Vec<u8>, Error>)
    ensures
        checked(decode_result(base58_characters(), input@), match r {
            Ok(v) => Ok(v@),
            Err(e) => Err(e),
        }),
{
    let alphabet = base58::alphabet();
    Decoder::new(&alphabet).decode(input)
}

/// Writes the payload of the base58-check text `input` to the front of
/// `output`, and returns its length.
pub fn decode_into(input: &[u8], output: &mut [u8]) -> (r: Result<usize, Error>)
    ensures
        final(output)@.len() == old(output)@.len(),
        match r {
            Ok(n) => n <= old(output)@.len() && checked(decode_result(base58_characters(), input@), Ok(final(output)@.subrange(0, n as int))),
            Err(Error::BufferTooSmall) => exists|payload: Seq<u8>| checked(decode_result(base58_characters(), input@), Ok(payload))
                && payload.len() > old(output)@.len(),
            Err(e) => checked(decode_result(base58_characters(), input@), Err(e)),
        },
{
    let alphabet = base58::alphabet();
    Decoder::new(&alphabet).decode_into(input, output)
}

/// Base58-check read back gives the payload written: the text of a payload
/// decodes as base58 to the payload and its checksum, and so passes the check.
pub proof fn lemma_base58_check_round_trip(input: Seq<u8>)
    ensures
        checked(decode_result(base58_characters(), check_text(base58_characters(), input)), Ok(input)),
{
    let cs = base58_characters();
    let extended = input + checksum_of(input);
    assert(all_below(extended, 256)) by {
        assert forall|i: int| 0 <= i < extended.len() implies #[trigger] extended[i] < 256 by {}
    }
    lemma_base58_round_trip(extended);
    let ds = base58_digits(extended);
    let text = digit_text(cs, ds);
    lemma_ascending_distinct(cs);
    assert forall|i: int| 0 <= i < text.len() implies #[trigger] digit_in(cs, text[i]) == Some(ds[i]) by {
        let d = ds[i] as int;
        assert(d < 58);
        assert(text[i] == cs[d]);
        let e = choose|e: int| 0 <= e < cs.len() && cs[e] == cs[d];
        if e != d {
            if e < d {
                assert(cs[e] != cs[d]);
            } else {
                assert(cs[d] != cs[e]);
            }
        }
    }
    assert(valid_prefix(cs, text, text.len() as int));
    assert(text_digits(cs, text) =~= ds);
    assert(extended.subrange(0, extended.len() - 4) =~= input);
    assert(extended.subrange(extended.len() - 4, extended.len() as int) =~= checksum_of(input));
}

} // verus!
