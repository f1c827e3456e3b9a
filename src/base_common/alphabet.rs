use vstd::prelude::*;

verus! {

/// Why a list of characters is no alphabet.
#[derive(Copy, Clone, Debug, PartialEq, Eq)]
pub enum Error {
    DuplicateCharacter { character: char, first: usize, second: usize },
    NonAsciiCharacter { character: u8, index: usize },
    InvalidCharacter { character: char, index: usize },
}

/// Why a character could not be decoded.
#[derive(Copy, Clone, Debug, PartialEq, Eq)]
pub enum DecodeError {
    NonAsciiCharacter { character: u8, index: usize },
    InvalidCharacter { character: char, index: usize },
}

/// The characters before `n` are ASCII and distinct.
pub open spec fn ascii_distinct(cs: Seq<u8>, n: int) -> bool {
    &&& forall|i: int| 0 <= i < n ==> #[trigger] cs[i] < 128
    &&& forall|i: int, j: int| 0 <= i < j < n ==> #[trigger] cs[i] != #[trigger] cs[j]
}

/// The digit of character `c` in an alphabet whose digits are `characters`.
pub open spec fn digit_in(characters: Seq<u8>, c: u8) -> Option<u8> {
    if exists|d: int| 0 <= d < characters.len() && characters[d] == c {
        Some((choose|d: int| 0 <= d < characters.len() && characters[d] == c) as u8)
    } else {
        None
    }
}

/// The digits of an alphabet, and the digit of each ASCII character.
pub struct Alphabet<const N: usize> {
    encode: [u8; N],
    decode: [Option<u8>; 128],
}

impl<const N: usize> Alphabet<N> {
    /// The character of each digit.
    pub closed spec fn characters(&self) -> Seq<u8> {
        self.encode@
    }

    /// The digit of character `c`, if it is one.
    pub open spec fn digit_of(&self, c: u8) -> Option<u8> {
        digit_in(self.characters(), c)
    }

    pub closed spec fn wf(&self) -> bool {
        &&& N <= 128
        &&& self.encode@.len() == N
        &&& self.decode@.len() == 128
        &&& ascii_distinct(self.encode@, N as int)
        &&& forall|d: int| 0 <= d < N ==> self.decode@[self.encode@[d] as int] == Some(d as u8)
        &&& forall|c: int| 0 <= c < 128 ==> match #[trigger] self.decode@[c] {
            Some(d) => d < N && self.encode@[d as int] == c,
            None => forall|d: int| 0 <= d < N ==> self.encode@[d] != c,
        }
    }

    pub proof fn lemma_wf(&self)
        requires
            self.wf(),
        ensures
            N <= 128,
            self.characters().len() == N,
            ascii_distinct(self.characters(), N as int),
            forall|d: int| 0 <= d < N ==> #[trigger] self.digit_of(self.characters()[d]) == Some(d as u8),
    {
        assert forall|d: int| 0 <= d < N implies #[trigger] self.digit_of(self.characters()[d]) == Some(d as u8) by {
            let c = self.characters()[d];
            assert(self.characters().len() == N);
            let e = choose|e: int| 0 <= e < self.characters().len() && self.characters()[e] == c;
            if e != d {
                if e < d {
                    assert(self.encode@[e] != self.encode@[d]);
                } else {
                    assert(self.encode@[d] != self.encode@[e]);
                }
            }
        }
    }

    /// The character of digit `value`.
    pub fn encode(&self, value: usize) -> (r: u8)
        requires
            self.wf(),
            value < N,
        ensures
            r == self.characters()[value as int],
            r < 128,
    {
        self.encode[value]
    }

    /// The digit of character `value`, found at `index` of a text.
    pub fn decode(&self, value: u8, index: usize) -> (r: Result<u8, DecodeError>)
        requires
            self.wf(),
        ensures
            match r {
                Ok(d) => self.digit_of(value) == Some(d) && (d as int) < N,
                Err(DecodeError::NonAsciiCharacter { character, index: i }) => value >= 128 && self.digit_of(value) is None
                    && character == value && i == index,
                Err(DecodeError::InvalidCharacter { character, index: i }) => value < 128 && self.digit_of(value) is None
                    && character == value as char && i == index,
            },
    {
        if value >= 128 {
            proof {
                assert forall|d: int| 0 <= d < N implies self.characters()[d] != value by {
                    assert(self.encode@[d] < 128);
                }
            }
            return Err(DecodeError::NonAsciiCharacter { index, character: value });
        }
        match self.decode[value as usize] {
            Some(d) => {
                proof {
                    self.lemma_wf();
                    assert(self.decode@[value as int] == Some(d));
                    assert(self.digit_of(self.characters()[d as int]) == Some(d));
                }
                Ok(d)
            },
            None => {
                proof {
                    assert(self.decode@[value as int] is None);
                }
                Err(DecodeError::InvalidCharacter { character: value as char, index })
            },
        }
    }

    /// The alphabet whose digit `i` is `characters[i]`: each must be ASCII,
    /// and none may come twice, so an alphabet has at most 128 digits.
    pub fn new(characters: &[u8; N]) -> (r: Result<Self, Error>)
        ensures
            match r {
                Ok(a) => a.wf() && a.characters() == characters@ && ascii_distinct(characters@, N as int),
                Err(Error::NonAsciiCharacter { character, index }) => index < N && characters@[index as int] >= 128
                    && character == characters@[index as int] && ascii_distinct(characters@, index as int),
                Err(Error::DuplicateCharacter { character, first, second }) => first < second < N
                    && characters@[first as int] == characters@[second as int] && character == characters@[second as int] as char
                    && ascii_distinct(characters@, second as int),
                Err(Error::InvalidCharacter { .. }) => false,
            },
    {
        let mut encode = [0u8; N];
        let mut decode: [Option<u8>; 128] = [None; 128];
        let mut index: usize = 0;
        while index < N
            invariant
                index <= N,
                index <= 128,
                encode@.len() == N,
                decode@.len() == 128,
                characters@.len() == N,
                ascii_distinct(characters@, index as int),
                forall|d: int| 0 <= d < index ==> encode@[d] == characters@[d],
                forall|d: int| 0 <= d < index ==> decode@[characters@[d] as int] == Some(d as u8),
                forall|c: int| 0 <= c < 128 ==> match #[trigger] decode@[c] {
                    Some(d) => d < index && characters@[d as int] == c,
                    None => forall|d: int| 0 <= d < index ==> characters@[d] != c,
                },
            decreases N - index,
        {
            let character = characters[index];
            if character >= 128 {
                return Err(Error::NonAsciiCharacter { index, character });
            }
            match decode[character as usize] {
                Some(v) => {
                    proof {
                        assert(decode@[character as int] == Some(v));
                    }
                    return Err(Error::DuplicateCharacter { character: character as char, first: v as usize, second: index });
                },
                None => {},
            }
            proof {
                if index >= 128 {
                    let cs = Seq::new(129, |d: int| characters@[d] as int);
                    crate::counting::lemma_pigeonhole(cs, 128);
                    let (a, b) = choose|a: int, b: int| 0 <= a < b < cs.len() && cs[a] == cs[b];
                    if b < 128 {
                        assert(characters@[a] != characters@[b]);
                    }
                    assert(decode@[characters@[a] as int] == Some(a as u8));
                }
            }
            let ghost before = decode@;
            encode[index] = character;
            decode[character as usize] = Some(index as u8);
            proof {
                assert forall|c: int| 0 <= c < 128 implies match #[trigger] decode@[c] {
                    Some(d) => d < index + 1 && characters@[d as int] == c,
                    None => forall|d: int| 0 <= d < index + 1 ==> characters@[d] != c,
                } by {
                    if c != character as int {
                        assert(decode@[c] == before[c]);
                    }
                }
                assert forall|d: int| 0 <= d < index + 1 implies decode@[characters@[d] as int] == Some(d as u8) by {
                    if d < index {
                        assert(characters@[d] != character);
                        assert(decode@[characters@[d] as int] == before[characters@[d] as int]);
                    }
                }
                assert(before[character as int] is None);
            }
            index = index + 1;
        }
        let r = Alphabet { encode, decode };
        assert(r.encode@ =~= characters@);
        Ok(r)
    }

    pub fn len(&self) -> (r: usize)
        ensures
            r == N,
    {
        N
    }
}

} // verus!
