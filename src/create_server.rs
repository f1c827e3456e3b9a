use vstd::prelude::*;
use vstd::string::StringSliceAdditionalSpecFns;

verus! {

/// An error in a request: its message goes back to the client.
#[derive(Debug)]
pub struct Error {
    message: String,
}

impl Error {
    pub closed spec fn spec_message(&self) -> Seq<char> {
        self.message@
    }

    pub fn new(message: &str) -> (r: Self)
        ensures
            r.spec_message() == message@,
    {
        Error { message: message.to_owned() }
    }

    pub fn message(&self) -> (r: &str)
        ensures
            r@ == self.spec_message(),
    {
        self.message.as_str()
    }
}

pub open spec fn is_digit(c: u8) -> bool {
    0x30 <= c <= 0x39
}

/// The value of a string of decimal digits.
pub open spec fn decimal_value(s: Seq<u8>) -> nat
    decreases s.len(),
{
    if s.len() == 0 {
        0
    } else {
        decimal_value(s.drop_last()) * 10 + (s.last() - 0x30) as nat
    }
}

/// The digits of a decimal number, after an optional `+`.
pub open spec fn decimal_digits(s: Seq<u8>) -> Seq<u8> {
    if s.len() > 0 && s[0] == 0x2B {
        s.drop_first()
    } else {
        s
    }
}

/// The number that `s` writes in decimal, with an optional `+`, when it
/// fits a `usize`.
pub open spec fn parsed_usize(s: Seq<u8>) -> Option<usize> {
    let d = decimal_digits(s);
    if d.len() > 0 && (forall|i: int| 0 <= i < d.len() ==> #[trigger] is_digit(d[i])) && decimal_value(d) <= usize::MAX {
        Some(decimal_value(d) as usize)
    } else {
        None
    }
}

proof fn lemma_decimal_grows(s: Seq<u8>, n: int)
    requires
        0 <= n <= s.len(),
        forall|i: int| 0 <= i < s.len() ==> #[trigger] is_digit(s[i]),
    ensures
        decimal_value(s.subrange(0, n)) <= decimal_value(s),
    decreases s.len() - n,
{
    if n < s.len() {
        lemma_decimal_grows(s, n + 1);
        assert(s.subrange(0, n + 1).drop_last() =~= s.subrange(0, n));
    } else {
        assert(s.subrange(0, n) =~= s);
    }
}

/// Reads a decimal number that fits a `usize`.
pub fn parse_usize(text: &str) -> (r: Option<usize>)
    ensures
        r == parsed_usize(text.spec_bytes()),
{
    let bytes = text.as_bytes();
    let start: usize = if bytes.len() > 0 && bytes[0] == 0x2B { 1 } else { 0 };
    let ghost d = decimal_digits(bytes@);
    assert(d =~= bytes@.subrange(start as int, bytes@.len() as int));
    if bytes.len() == start {
        return None;
    }
    let mut value: usize = 0;
    let mut i: usize = start;
    while i < bytes.len()
        invariant
            start <= i <= bytes@.len(),
            bytes@ == text.spec_bytes(),
            d == decimal_digits(text.spec_bytes()),
            d == bytes@.subrange(start as int, bytes@.len() as int),
            forall|j: int| 0 <= j < i - start ==> #[trigger] is_digit(d[j]),
            value == decimal_value(d.subrange(0, i - start)),
        decreases bytes@.len() - i,
    {
        let c = bytes[i];
        if !(0x30 <= c && c <= 0x39) {
            assert(!is_digit(d[i - start]));
            assert(!(forall|j: int| 0 <= j < d.len() ==> #[trigger] is_digit(d[j])));
            return None;
        }
        assert(d.subrange(0, i - start + 1).drop_last() =~= d.subrange(0, i - start));
        assert(d[i - start] == c);
        if value > (usize::MAX - (c - 0x30) as usize) / 10 {
            proof {
                assert(decimal_value(d.subrange(0, i - start + 1)) > usize::MAX) by (nonlinear_arith)
                    requires
                        value > (usize::MAX - (c - 0x30)) / 10,
                        decimal_value(d.subrange(0, i - start + 1)) == value * 10 + (c - 0x30),
                        c >= 0x30,
                ;
                if forall|j: int| 0 <= j < d.len() ==> #[trigger] is_digit(d[j]) {
                    lemma_decimal_grows(d, i - start + 1);
                }
            }
            return None;
        }
        value = value * 10 + (c - 0x30) as usize;
        i = i + 1;
    }
    assert(d.subrange(0, d.len() as int) =~= d);
    Some(value)
}

/// The confirmations a request asks for: none given means 0; a value that is
/// no number, or more than `max_confirmations`, is refused.
pub fn parse_confirmations(value: Option<&str>, max_confirmations: usize) -> (r: Result<usize, Error>)
    ensures
        match value {
            None => r == Ok::<usize, Error>(0),
            Some(v) => match parsed_usize(v.spec_bytes()) {
                Some(c) => if c <= max_confirmations {
                    r == Ok::<usize, Error>(c)
                } else {
                    r is Err
                },
                None => r is Err,
            },
        },
{
    match value {
        Some(confirmations) => match parse_usize(confirmations) {
            Some(c) => {
                if c <= max_confirmations {
                    Ok(c)
                } else {
                    Err(Error::new("Expecting confirmations parameter to be less or equal to the confirmation window"))
                }
            },
            None => Err(Error::new("Invalid confirmations parameter")),
        },
        None => Ok(0),
    }
}

} // verus!
