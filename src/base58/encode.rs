use vstd::prelude::*;
use crate::base58::{alphabet, base58_characters, base58_digits, digit_text};
use crate::base_common::alphabet::Alphabet;
use crate::base_common::digits::{all_below, be_digits, digits_of, le_digits, leading, lemma_be_reverse, lemma_digits_unique, push_digit};
use crate::text::{all_ascii, ascii_chars, ascii_string};

verus! {

/// Why a text could not be written.
#[derive(Copy, Clone, Debug, Eq, PartialEq)]
pub enum Error {
    /// The output buffer was too small to contain the entire input.
    BufferTooSmall,
}

/// Writes byte strings in base58 with an alphabet.
pub struct Encoder<'a> {
    alphabet: &'a Alphabet<58>,
}

impl<'a> Encoder<'a> {
    pub closed spec fn spec_alphabet(&self) -> Alphabet<58> {
        *self.alphabet
    }

    pub fn new(alphabet: &'a Alphabet<58>) -> (r: Self)
        ensures
            r.spec_alphabet() == *alphabet,
    {
        Encoder { alphabet }
    }

    /// The characters of the base58 text of `input`.
    pub fn encode_bytes(&self, input: &[u8]) -> (r: Vec<u8>)
        requires
            self.spec_alphabet().wf(),
        ensures
            r@ == digit_text(self.spec_alphabet().characters(), base58_digits(input@)),
            all_ascii(r@),
    {
        proof {
            self.alphabet.lemma_wf();
        }
        let mut number: Vec<u8> = Vec::new();
        let mut i: usize = 0;
        while i < input.len()
            invariant
                i <= input@.len(),
                all_below(number@, 58),
                number@.len() == 0 || number@.last() != 0,
                le_digits(number@, 58) == be_digits(input@.subrange(0, i as int), 256),
            decreases input@.len() - i,
        {
            push_digit(&mut number, input[i] as u32, 256, 58);
            assert(input@.subrange(0, i + 1).drop_last() =~= input@.subrange(0, i as int));
            i = i + 1;
        }
        assert(input@.subrange(0, input@.len() as int) =~= input@);
        let ghost value = be_digits(input@, 256);
        proof {
            lemma_be_reverse(number@, 58);
            assert forall|k: int| 0 <= k < number@.reverse().len() implies #[trigger] number@.reverse()[k] < 58 by {
                assert(number@.reverse()[k] == number@[number@.len() - 1 - k]);
            }
            if number@.len() > 0 {
                assert(number@.reverse()[0] == number@.last());
            }
            lemma_digits_unique(number@.reverse(), 58);
        }
        let ghost zero_count = leading(input@, 0);
        let mut output: Vec<u8> = Vec::new();
        let mut k: usize = 0;
        while k < input.len() && input[k] == 0
            invariant
                k <= input@.len(),
                self.spec_alphabet().wf(),
                self.spec_alphabet().characters().len() == 58,
                forall|j: int| 0 <= j < k ==> input@[j] == 0,
                output@ == digit_text(self.spec_alphabet().characters(), crate::base58::zeros(k as nat)),
                all_ascii(output@),
            decreases input@.len() - k,
        {
            output.push(self.alphabet.encode(0));
            k = k + 1;
            assert(output@ =~= digit_text(self.spec_alphabet().characters(), crate::base58::zeros(k as nat)));
        }
        proof {
            lemma_leading_prefix(input@, k as int);
        }
        let ghost front = output@;
        let mut m: usize = number.len();
        while m > 0
            invariant
                m <= number@.len(),
                self.spec_alphabet().wf(),
                self.spec_alphabet().characters().len() == 58,
                all_below(number@, 58),
                output@ == front + digit_text(self.spec_alphabet().characters(), number@.reverse().subrange(0, (number@.len() - m) as int)),
                all_ascii(output@),
            decreases m,
        {
            m = m - 1;
            let c = self.alphabet.encode(number[m] as usize);
            output.push(c);
            assert(number@.reverse()[(number@.len() - 1 - m) as int] == number@[m as int]);
            assert(output@ =~= front + digit_text(self.spec_alphabet().characters(), number@.reverse().subrange(0, (number@.len() - m) as int)));
        }
        assert(number@.reverse().subrange(0, number@.len() as int) =~= number@.reverse());
        assert(output@ =~= digit_text(self.spec_alphabet().characters(), base58_digits(input@)));
        output
    }

    /// Writes the base58 text of `input` to the front of `output`, and returns
    /// its length.
    pub fn encode_into(&self, input: &[u8], output: &mut [u8]) -> (r: Result<usize, Error>)
        requires
            self.spec_alphabet().wf(),
        ensures
            final(output)@.len() == old(output)@.len(),
            match r {
                Ok(n) => {
                    let text = digit_text(self.spec_alphabet().characters(), base58_digits(input@));
                    &&& n == text.len() && n <= old(output)@.len()
                    &&& final(output)@.subrange(0, n as int) == text
                    &&& final(output)@.subrange(n as int, final(output)@.len() as int)
                        == old(output)@.subrange(n as int, old(output)@.len() as int)
                },
                Err(Error::BufferTooSmall) => digit_text(self.spec_alphabet().characters(), base58_digits(input@)).len()
                    > old(output)@.len(),
            },
    {
        let text = self.encode_bytes(input);
        copy_into(&text, output)
    }

    /// The base58 text of `input`.
    pub fn encode(&self, input: &[u8]) -> (r: String)
        requires
            self.spec_alphabet().wf(),
        ensures
            r@ == ascii_chars(digit_text(self.spec_alphabet().characters(), base58_digits(input@))),
    {
        ascii_string(self.encode_bytes(input))
    }
}

proof fn lemma_leading_prefix(s: Seq<u8>, k: int)
    requires
        0 <= k <= s.len(),
        forall|j: int| 0 <= j < k ==> s[j] == 0,
        k == s.len() || s[k] != 0,
    ensures
        leading(s, 0) == k,
    decreases k,
{
    if k > 0 {
        lemma_leading_prefix(s.drop_first(), k - 1);
    }
}

/// Copies `text` to the front of `output` when it fits.
pub(crate) fn copy_into(text: &Vec<u8>, output: &mut [u8]) -> (r: Result<usize, Error>)
    ensures
        final(output)@.len() == old(output)@.len(),
        match r {
            Ok(n) => {
                &&& n == text@.len() && n <= old(output)@.len()
                &&& final(output)@.subrange(0, n as int) == text@
                &&& final(output)@.subrange(n as int, final(output)@.len() as int)
                    == old(output)@.subrange(n as int, old(output)@.len() as int)
            },
            Err(Error::BufferTooSmall) => text@.len() > old(output)@.len(),
        },
{
    if text.len() > output.len() {
        return Err(Error::BufferTooSmall);
    }
    let mut i: usize = 0;
    while i < text.len()
        invariant
            i <= text@.len() <= output@.len(),
            output@.len() == old(output)@.len(),
            forall|j: int| 0 <= j < i ==> output@[j] == text@[j],
            forall|j: int| i <= j < output@.len() ==> output@[j] == old(output)@[j],
        decreases text@.len() - i,
    {
        output[i] = text[i];
        i = i + 1;
    }
    assert(output@.subrange(0, text@.len() as int) =~= text@);
    assert(output@.subrange(text@.len() as int, output@.len() as int)
        =~= old(output)@.subrange(text@.len() as int, old(output)@.len() as int));
    Ok(text.len())
}

/// The base58 text of `input`.
pub fn encode(input: &[u8]) -> (r: String)
    ensures
        r@ == ascii_chars(digit_text(base58_characters(), base58_digits(input@))),
{
    let alphabet = alphabet();
    Encoder::new(&alphabet).encode(input)
}

/// Writes the base58 text of `input` to the front of `output`, and returns
/// its length.
pub fn encode_into(input: &[u8], output: &mut [u8]) -> (r: Result<usize, Error>)
    ensures
        final(output)@.len() == old(output)@.len(),
        match r {
            Ok(n) => {
                let text = digit_text(base58_characters(), base58_digits(input@));
                &&& n == text.len() && n <= old(output)@.len()
                &&& final(output)@.subrange(0, n as int) == text
            },
            Err(Error::BufferTooSmall) => digit_text(base58_characters(), base58_digits(input@)).len() > old(output)@.len(),
        },
{
    let alphabet = alphabet();
    Encoder::new(&alphabet).encode_into(input, output)
}

} // verus!
