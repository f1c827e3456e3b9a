use vstd::prelude::*;
use crate::base58::{alphabet, base58_bytes, base58_characters};
use crate::base58::encode::copy_into;
use crate::base_common::alphabet::{digit_in, Alphabet, DecodeError};
use crate::base_common::digits::{all_below, be_digits, le_digits, leading, lemma_be_reverse, lemma_digits_unique, push_digit};

verus! {

/// Why a base58 text could not be read.
#[derive(Copy, Clone, Debug, Eq, PartialEq)]
pub enum Error {
    BufferTooSmall,
    InvalidCharacter { character: char, index: usize },
    NonAsciiCharacter { index: usize, character: u8 },
}

impl Error {
    pub fn from(error: DecodeError) -> (r: Self)
        ensures
            r == match error {
                DecodeError::InvalidCharacter { character, index } => Error::InvalidCharacter { character, index },
                DecodeError::NonAsciiCharacter { character, index } => Error::NonAsciiCharacter { character, index },
            },
    {
        match error {
            DecodeError::InvalidCharacter { character, index } => Error::InvalidCharacter { character, index },
            DecodeError::NonAsciiCharacter { character, index } => Error::NonAsciiCharacter { character, index },
        }
    }
}

/// Every character of `text` before `n` is a digit of the alphabet.
pub open spec fn valid_prefix(characters: Seq<u8>, text: Seq<u8>, n: int) -> bool {
    forall|i: int| 0 <= i < n ==> #[trigger] digit_in(characters, text[i]) is Some
}

/// The digits that the characters of `text` stand for.
pub open spec fn text_digits(characters: Seq<u8>, text: Seq<u8>) -> Seq<u8> {
    text.map_values(|c: u8| digit_in(characters, c)->Some_0)
}

/// What reading `text` in base58 gives: the bytes, or an error at its first
/// character that is no digit.
pub open spec fn decode_result(characters: Seq<u8>, text: Seq<u8>) -> Result<Seq<u8>, Error> {
    if valid_prefix(characters, text, text.len() as int) {
        Ok(base58_bytes(text_digits(characters, text)))
    } else {
        let k = choose|k: int| 0 <= k < text.len() && digit_in(characters, text[k]) is None && valid_prefix(characters, text, k);
        if text[k] >= 128 {
            Err(Error::NonAsciiCharacter { index: k as usize, character: text[k] })
        } else {
            Err(Error::InvalidCharacter { character: text[k] as char, index: k as usize })
        }
    }
}

proof fn lemma_first_bad(characters: Seq<u8>, text: Seq<u8>, k: int)
    requires
        0 <= k < text.len(),
        digit_in(characters, text[k]) is None,
        valid_prefix(characters, text, k),
    ensures
        decode_result(characters, text) == if text[k] >= 128 {
            Err::<Seq<u8>, Error>(Error::NonAsciiCharacter { index: k as usize, character: text[k] })
        } else {
            Err::<Seq<u8>, Error>(Error::InvalidCharacter { character: text[k] as char, index: k as usize })
        },
{
    let j = choose|j: int| 0 <= j < text.len() && digit_in(characters, text[j]) is None && valid_prefix(characters, text, j);
    if j < k {
        assert(digit_in(characters, text[j]) is Some);
    }
    if k < j {
        assert(digit_in(characters, text[k]) is Some);
    }
}

/// Reads base58 texts with an alphabet.
pub struct Decoder<'a> {
    alphabet: &'a Alphabet<58>,
}

impl<'a> Decoder<'a> {
    pub closed spec fn spec_alphabet(&self) -> Alphabet<58> {
        *self.alphabet
    }

    pub fn new(alphabet: &'a Alphabet<58>) -> (r: Self)
        ensures
            r.spec_alphabet() == *alphabet,
    {
        Decoder { alphabet }
    }

    /// The bytes that the base58 text `input` stands for.
    pub fn decode(&self, input: &[u8]) -> (r: Result<Vec<u8>, Error>)
        requires
            self.spec_alphabet().wf(),
        ensures
            match r {
                Ok(v) => decode_result(self.spec_alphabet().characters(), input@) == Ok::<Seq<u8>, Error>(v@),
                Err(e) => decode_result(self.spec_alphabet().characters(), input@) == Err::<Seq<u8>, Error>(e),
            },
    {
        let ghost alpha = self.spec_alphabet();
        proof {
            self.alphabet.lemma_wf();
        }
        let mut number: Vec<u8> = Vec::new();
        let mut i: usize = 0;
        while i < input.len()
            invariant
                alpha == self.spec_alphabet(),
                alpha.wf(),
                i <= input@.len(),
                valid_prefix(alpha.characters(), input@, i as int),
                all_below(number@, 256),
                number@.len() == 0 || number@.last() != 0,
                le_digits(number@, 256) == be_digits(text_digits(alpha.characters(), input@.subrange(0, i as int)), 58),
            decreases input@.len() - i,
        {
            let digit = match self.alphabet.decode(input[i], i) {
                Ok(d) => d,
                Err(e) => {
                    proof {
                        lemma_first_bad(alpha.characters(), input@, i as int);
                    }
                    return Err(Error::from(e));
                },
            };
            push_digit(&mut number, digit as u32, 58, 256);
            assert(text_digits(alpha.characters(), input@.subrange(0, i + 1)).drop_last() =~= text_digits(alpha.characters(), input@.subrange(0, i as int)));
            i = i + 1;
        }
        assert(input@.subrange(0, input@.len() as int) =~= input@);
        let ghost digits = text_digits(alpha.characters(), input@);
        proof {
            lemma_be_reverse(number@, 256);
            assert forall|k: int| 0 <= k < number@.reverse().len() implies #[trigger] number@.reverse()[k] < 256 by {}
            if number@.len() > 0 {
                assert(number@.reverse()[0] == number@.last());
            }
            lemma_digits_unique(number@.reverse(), 256);
        }
        let zero = self.alphabet.encode(0);
        let mut output: Vec<u8> = Vec::new();
        let mut k: usize = 0;
        while k < input.len() && input[k] == zero
            invariant
                alpha == self.spec_alphabet(),
                alpha.wf(),
                valid_prefix(alpha.characters(), input@, input@.len() as int),
                digits == text_digits(alpha.characters(), input@),
                zero == alpha.characters()[0],
                k <= input@.len(),
                forall|j: int| 0 <= j < k ==> #[trigger] digits[j] == 0,
                output@ == crate::base58::zeros(k as nat),
            decreases input@.len() - k,
        {
            proof {
                alpha.lemma_wf();
                assert(alpha.digit_of(alpha.characters()[0]) == Some(0u8));
            }
            output.push(0);
            k = k + 1;
            assert(output@ =~= crate::base58::zeros(k as nat));
        }
        proof {
            alpha.lemma_wf();
            if k < input@.len() {
                assert(input@[k as int] != zero);
                let d = digit_in(alpha.characters(), input@[k as int])->Some_0;
                assert(digit_in(alpha.characters(), input@[k as int]) is Some);
                if d == 0 {
                    let e = choose|e: int| 0 <= e < alpha.characters().len() && alpha.characters()[e] == input@[k as int];
                    assert(e == 0);
                }
                assert(digits[k as int] == d);
            }
            lemma_leading_digits(digits, k as int);
        }
        let ghost front = output@;
        let mut m: usize = number.len();
        while m > 0
            invariant
                m <= number@.len(),
                output@ == front + number@.reverse().subrange(0, (number@.len() - m) as int),
            decreases m,
        {
            m = m - 1;
            output.push(number[m]);
            assert(number@.reverse()[(number@.len() - 1 - m) as int] == number@[m as int]);
            assert(output@ =~= front + number@.reverse().subrange(0, (number@.len() - m) as int));
        }
        assert(number@.reverse().subrange(0, number@.len() as int) =~= number@.reverse());
        Ok(output)
    }

    /// Writes the bytes that the base58 text `input` stands for to the front
    /// of `output`, and returns how many there are.
    pub fn decode_into(&self, input: &[u8], output: &mut [u8]) -> (r: Result<usize, Error>)
        requires
            self.spec_alphabet().wf(),
        ensures
            final(output)@.len() == old(output)@.len(),
            match r {
                Ok(n) => {
                    &&& n <= old(output)@.len()
                    &&& decode_result(self.spec_alphabet().characters(), input@) == Ok::<Seq<u8>, Error>(final(output)@.subrange(0, n as int))
                    &&& final(output)@.subrange(n as int, final(output)@.len() as int)
                        == old(output)@.subrange(n as int, old(output)@.len() as int)
                },
                Err(Error::BufferTooSmall) => decode_result(self.spec_alphabet().characters(), input@) is Ok
                    && decode_result(self.spec_alphabet().characters(), input@)->Ok_0.len() > old(output)@.len(),
                Err(e) => decode_result(self.spec_alphabet().characters(), input@) == Err::<Seq<u8>, Error>(e),
            },
    {
        let bytes = self.decode(input)?;
        match copy_into(&bytes, output) {
            Ok(n) => Ok(n),
            Err(_) => Err(Error::BufferTooSmall),
        }
    }
}

proof fn lemma_leading_digits(s: Seq<u8>, k: int)
    requires
        0 <= k <= s.len(),
        forall|j: int| 0 <= j < k ==> #[trigger] s[j] == 0,
        k == s.len() || s[k] != 0,
    ensures
        leading(s, 0) == k,
    decreases k,
{
    if k > 0 {
        assert forall|j: int| 0 <= j < k - 1 implies #[trigger] s.drop_first()[j] == 0 by {
            assert(s.drop_first()[j] == s[j + 1]);
        }
        lemma_leading_digits(s.drop_first(), k - 1);
    }
}

/// The bytes that the base58 text `input` stands for.
pub fn decode(input: &[u8]) -> (r: Result<Vec<u8>, Error>)
    ensures
        match r {
            Ok(v) => decode_result(base58_characters(), input@) == Ok::<Seq<u8>, Error>(v@),
            Err(e) => decode_result(base58_characters(), input@) == Err::<Seq<u8>, Error>(e),
        },
{
    let alphabet = alphabet();
    Decoder::new(&alphabet).decode(input)
}

/// Writes the bytes that the base58 text `input` stands for to the front of
/// `output`, and returns how many there are.
pub fn decode_into(input: &[u8], output: &mut [u8]) -> (r: Result<usize, Error>)
    ensures
        final(output)@.len() == old(output)@.len(),
        match r {
            Ok(n) => n <= old(output)@.len() && decode_result(base58_characters(), input@) == Ok::<Seq<u8>, Error>(
                final(output)@.subrange(0, n as int),
            ),
            Err(Error::BufferTooSmall) => decode_result(base58_characters(), input@) is Ok,
            Err(e) => decode_result(base58_characters(), input@) == Err::<Seq<u8>, Error>(e),
        },
{
    let alphabet = alphabet();
    Decoder::new(&alphabet).decode_into(input, output)
}

} // verus!
