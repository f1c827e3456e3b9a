use vstd::prelude::*;
use crate::base58::{self, base58_characters, base58_digits, digit_text};
use crate::base58::encode::Error;
use crate::base58_check::checksum::{checksum_of, compute_checksum};
use crate::base_common::alphabet::Alphabet;
use crate::text::ascii_chars;

verus! {

/// The base58-check text of a payload: base58 of the payload followed by its
/// checksum.
pub open spec fn check_text(characters: Seq<u8>, input: Seq<u8>) -> Seq<u8> {
    digit_text(characters, base58_digits(input + checksum_of(input)))
}

/// Writes payloads in base58 with their checksum.
pub struct Encoder<'a> {
    encoder: base58::encode::Encoder<'a>,
}

impl<'a> Encoder<'a> {
    pub closed spec fn spec_alphabet(&self) -> Alphabet<58> {
        self.encoder.spec_alphabet()
    }

    pub fn new(alphabet: &'a Alphabet<58>) -> (r: Self)
        ensures
            r.spec_alphabet() == *alphabet,
    {
        Encoder { encoder: base58::encode::Encoder::new(alphabet) }
    }

    fn extend_input(&self, input: &[u8]) -> (r: Vec<u8>)
        ensures
            r@ == input@ + checksum_of(input@),
    {
        let checksum = compute_checksum(input);
        let mut extended = crate::hashing_buffer_reader::copy_bytes(input);
        let mut i: usize = 0;
        while i < 4
            invariant
                i <= 4,
                checksum@.len() == 4,
                extended@ == input@ + checksum@.subrange(0, i as int),
            decreases 4 - i,
        {
            extended.push(checksum[i]);
            i = i + 1;
            assert(extended@ =~= input@ + checksum@.subrange(0, i as int));
        }
        assert(checksum@.subrange(0, 4) =~= checksum@);
        extended
    }

    /// The base58-check text of `input`.
    pub fn encode(&self, input: &[u8]) -> (r: String)
        requires
            self.spec_alphabet().wf(),
        ensures
            r@ == ascii_chars(check_text(self.spec_alphabet().characters(), input@)),
    {
        let extended = self.extend_input(input);
        self.encoder.encode(extended.as_slice())
    }

    /// Writes the base58-check text of `input` to the front of `output`, and
    /// returns its length.
    pub fn encode_into(&self, input: &[u8], output: &mut [u8]) -> (r: Result<usize, Error>)
        requires
            self.spec_alphabet().wf(),
        ensures
            final(output)@.len() == old(output)@.len(),
            match r {
                Ok(n) => n <= old(output)@.len() && final(output)@.subrange(0, n as int)
                    == check_text(self.spec_alphabet().characters(), input@),
                Err(Error::BufferTooSmall) => check_text(self.spec_alphabet().characters(), input@).len() > old(output)@.len(),
            },
    {
        let extended = self.extend_input(input);
        self.encoder.encode_into(extended.as_slice(), output)
    }
}

/// The base58-check text of `input`.
pub fn encode(input: &[u8]) -> (r: String)
    ensures
        r@ == ascii_chars(check_text(base58_characters(), input@)),
{
    let alphabet = base58::alphabet();
    Encoder::new(&alphabet).encode(input)
}

/// Writes the base58-check text of `input` to the front of `output`, and
/// returns its length.
pub fn encode_into(input: &[u8], output: &mut [u8]) -> (r: Result<usize, Error>)
    ensures
        final(output)@.len() == old(output)@.len(),
        match r {
            Ok(n) => n <= old(output)@.len() && final(output)@.subrange(0, n as int) == check_text(base58_characters(), input@),
            Err(Error::BufferTooSmall) => check_text(base58_characters(), input@).len() > old(output)@.len(),
        },
{
    let alphabet = base58::alphabet();
    Encoder::new(&alphabet).encode_into(input, output)
}

} // verus!
