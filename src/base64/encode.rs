use vstd::prelude::*;
use crate::text::{all_ascii, ascii_chars, ascii_string};

verus! {

/// The character of a 6-bit value: `A-Z`, `a-z`, `0-9`, `+`, `/`.
pub open spec fn base64_char(v: u8) -> u8 {
    if v < 26 {
        (0x41 + v) as u8
    } else if v < 52 {
        (0x61 + v - 26) as u8
    } else if v < 62 {
        (0x30 + v - 52) as u8
    } else if v == 62 {
        0x2B
    } else {
        0x2F
    }
}

/// The padding character `=`.
pub open spec fn pad() -> u8 {
    0x3D
}

/// The four characters of one group of up to three bytes, padded with `=`.
pub open spec fn base64_group(g: Seq<u8>) -> Seq<u8> {
    if g.len() >= 3 {
        seq![
            base64_char(g[0] / 4),
            base64_char(((g[0] % 4) * 16 + g[1] / 16) as u8),
            base64_char(((g[1] % 16) * 4 + g[2] / 64) as u8),
            base64_char(g[2] % 64),
        ]
    } else if g.len() == 2 {
        seq![base64_char(g[0] / 4), base64_char(((g[0] % 4) * 16 + g[1] / 16) as u8), base64_char(((g[1] % 16) * 4) as u8), pad()]
    } else {
        seq![base64_char(g[0] / 4), base64_char(((g[0] % 4) * 16) as u8), pad(), pad()]
    }
}

/// The base64 text of a byte string: a group of four characters for each
/// three bytes, the last group padded.
pub open spec fn base64_text(b: Seq<u8>) -> Seq<u8>
    decreases b.len(),
{
    if b.len() == 0 {
        Seq::empty()
    } else if b.len() <= 3 {
        base64_group(b)
    } else {
        base64_group(b.subrange(0, 3)) + base64_text(b.subrange(3, b.len() as int))
    }
}

fn char_of(v: u8) -> (r: u8)
    requires
        v < 64,
    ensures
        r == base64_char(v),
        r < 128,
{
    if v < 26 {
        0x41 + v
    } else if v < 52 {
        0x61 + v - 26
    } else if v < 62 {
        0x30 + v - 52
    } else if v == 62 {
        0x2B
    } else {
        0x2F
    }
}

proof fn lemma_text_step(b: Seq<u8>, i: int)
    requires
        0 <= i,
        i + 3 < b.len(),
    ensures
        base64_text(b.subrange(i, b.len() as int)) == base64_group(b.subrange(i, i + 3)) + base64_text(
            b.subrange(i + 3, b.len() as int),
        ),
{
    let s = b.subrange(i, b.len() as int);
    assert(s.subrange(0, 3) =~= b.subrange(i, i + 3));
    assert(s.subrange(3, s.len() as int) =~= b.subrange(i + 3, b.len() as int));
}

/// The characters of the base64 text of `input`.
pub fn encode_bytes(input: &[u8]) -> (r: Vec<u8>)
    ensures
        r@ == base64_text(input@),
        all_ascii(r@),
{
    let n = input.len();
    let mut output: Vec<u8> = Vec::new();
    let mut i: usize = 0;
    assert(input@.subrange(0, n as int) =~= input@);
    assert(output@ + base64_text(input@) =~= base64_text(input@));
    while n - i > 3
        invariant
            n == input@.len(),
            i <= n,
            i % 3 == 0,
            output@ + base64_text(input@.subrange(i as int, n as int)) == base64_text(input@),
            all_ascii(output@),
        decreases n - i,
    {
        let (a, b, c) = (input[i], input[i + 1], input[i + 2]);
        let ghost group = input@.subrange(i as int, i + 3);
        proof {
            lemma_text_step(input@, i as int);
        }
        let ghost before = output@;
        output.push(char_of(a / 4));
        output.push(char_of((a % 4) * 16 + b / 16));
        output.push(char_of((b % 16) * 4 + c / 64));
        output.push(char_of(c % 64));
        assert(output@ =~= before + base64_group(group));
        assert(output@ + base64_text(input@.subrange(i + 3, n as int)) =~= before + (base64_group(group)
            + base64_text(input@.subrange(i + 3, n as int))));
        i = i + 3;
    }
    let rest = n - i;
    let ghost tail = input@.subrange(i as int, n as int);
    let ghost before = output@;
    if rest == 3 {
        let (a, b, c) = (input[i], input[i + 1], input[i + 2]);
        output.push(char_of(a / 4));
        output.push(char_of((a % 4) * 16 + b / 16));
        output.push(char_of((b % 16) * 4 + c / 64));
        output.push(char_of(c % 64));
    } else if rest == 2 {
        let (a, b) = (input[i], input[i + 1]);
        output.push(char_of(a / 4));
        output.push(char_of((a % 4) * 16 + b / 16));
        output.push(char_of((b % 16) * 4));
        output.push(0x3D);
    } else if rest == 1 {
        let a = input[i];
        output.push(char_of(a / 4));
        output.push(char_of((a % 4) * 16));
        output.push(0x3D);
        output.push(0x3D);
    }
    assert(output@ =~= before + base64_text(tail));
    output
}

/// The base64 text of `input`.
pub fn encode(input: &[u8]) -> (r: String)
    ensures
        r@ == ascii_chars(base64_text(input@)),
{
    ascii_string(encode_bytes(input))
}

} // verus!
