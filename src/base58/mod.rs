use vstd::prelude::*;
use crate::base_common::alphabet::{ascii_distinct, Alphabet};
use crate::base_common::digits::{all_below, be_digits, digits_of, leading};

pub mod decode;
pub mod encode;

verus! {

/// The base58 digits: the digits and letters without `0`, `O`, `I` and `l`.
pub open spec fn base58_characters() -> Seq<u8> {
    seq![
        0x31u8, 0x32, 0x33, 0x34, 0x35, 0x36, 0x37, 0x38, 0x39, 0x41, 0x42, 0x43, 0x44, 0x45, 0x46, 0x47, 0x48, 0x4A,
        0x4B, 0x4C, 0x4D, 0x4E, 0x50, 0x51, 0x52, 0x53, 0x54, 0x55, 0x56, 0x57, 0x58, 0x59, 0x5A, 0x61, 0x62, 0x63,
        0x64, 0x65, 0x66, 0x67, 0x68, 0x69, 0x6A, 0x6B, 0x6D, 0x6E, 0x6F, 0x70, 0x71, 0x72, 0x73, 0x74, 0x75, 0x76,
        0x77, 0x78, 0x79, 0x7A,
    ]
}

/// The alphabet of base58.
pub fn alphabet() -> (r: Alphabet<58>)
    ensures
        r.wf(),
        r.characters() == base58_characters(),
{
    let characters: [u8; 58] = [
        0x31u8, 0x32, 0x33, 0x34, 0x35, 0x36, 0x37, 0x38, 0x39, 0x41, 0x42, 0x43, 0x44, 0x45, 0x46, 0x47, 0x48, 0x4A,
        0x4B, 0x4C, 0x4D, 0x4E, 0x50, 0x51, 0x52, 0x53, 0x54, 0x55, 0x56, 0x57, 0x58, 0x59, 0x5A, 0x61, 0x62, 0x63,
        0x64, 0x65, 0x66, 0x67, 0x68, 0x69, 0x6A, 0x6B, 0x6D, 0x6E, 0x6F, 0x70, 0x71, 0x72, 0x73, 0x74, 0x75, 0x76,
        0x77, 0x78, 0x79, 0x7A,
    ];
    proof {
        assert(characters@ =~= base58_characters());
        lemma_ascending_distinct(characters@);
    }
    let r = Alphabet::new(&characters);
    assert(r is Ok);
    r.unwrap()
}

pub proof fn lemma_ascending_distinct(cs: Seq<u8>)
    requires
        cs == base58_characters(),
    ensures
        ascii_distinct(cs, 58),
{
    assert forall|i: int| 0 <= i < 57 implies #[trigger] cs[i] < cs[i + 1] by {}
    assert forall|i: int, j: int| 0 <= i < j < 58 implies #[trigger] cs[i] < #[trigger] cs[j] by {
        lemma_ascending_step(cs, i, j);
    }
}

proof fn lemma_ascending_step(cs: Seq<u8>, i: int, j: int)
    requires
        cs.len() == 58,
        forall|k: int| 0 <= k < 57 ==> #[trigger] cs[k] < cs[k + 1],
        0 <= i < j < 58,
    ensures
        cs[i] < cs[j],
    decreases j - i,
{
    if j > i + 1 {
        lemma_ascending_step(cs, i, j - 1);
        assert(cs[j - 1] < cs[j]);
    }
}

/// `n` zero digits.
pub open spec fn zeros(n: nat) -> Seq<u8> {
    Seq::new(n, |i: int| 0u8)
}

/// The base58 digits of a byte string: a zero digit for each leading zero
/// byte, then the digits of the number that the bytes spell, big-endian.
pub open spec fn base58_digits(input: Seq<u8>) -> Seq<u8> {
    zeros(leading(input, 0)) + digits_of(be_digits(input, 256), 58)
}

/// The bytes that base58 digits stand for: a zero byte for each leading zero
/// digit, then the bytes of the number that the digits spell, big-endian.
pub open spec fn base58_bytes(digits: Seq<u8>) -> Seq<u8> {
    zeros(leading(digits, 0)) + digits_of(be_digits(digits, 58), 256)
}

/// The characters for the digits.
pub open spec fn digit_text(characters: Seq<u8>, digits: Seq<u8>) -> Seq<u8> {
    digits.map_values(|d: u8| characters[d as int])
}

pub proof fn lemma_digits_of_canonical(v: nat, base: nat)
    requires
        2 <= base <= 256,
    ensures
        all_below(digits_of(v, base), base),
        digits_of(v, base).len() == 0 || digits_of(v, base)[0] != 0,
        be_digits(digits_of(v, base), base) == v,
    decreases v,
{
    if v > 0 {
        vstd::arithmetic::div_mod::lemma_div_decreases(v as int, base as int);
        lemma_digits_of_canonical(v / base, base);
        let d = digits_of(v, base);
        let rest = digits_of(v / base, base);
        assert(d.drop_last() =~= rest);
        vstd::arithmetic::div_mod::lemma_fundamental_div_mod(v as int, base as int);
        assert((v % base) < base) by {
            vstd::arithmetic::div_mod::lemma_mod_bound(v as int, base as int);
        }
        assert forall|i: int| 0 <= i < d.len() implies #[trigger] d[i] < base by {
            if i < rest.len() {
                assert(d[i] == rest[i]);
            }
        }
        if rest.len() == 0 {
            assert(v / base == 0) by {
                if v / base > 0 {
                    vstd::arithmetic::div_mod::lemma_div_decreases((v / base) as int, base as int);
                    assert(digits_of(v / base, base).len() > 0);
                }
            }
            assert(v % base == v);
            assert(d[0] == (v % base) as u8);
        } else {
            assert(d[0] == rest[0]);
        }
        assert(be_digits(d, base) == be_digits(rest, base) * base + d.last());
        assert(v == base * (v / base) + v % base);
        assert((v / base) * base == base * (v / base)) by (nonlinear_arith);
    }
}

/// Zero digits in front add nothing.
pub proof fn lemma_zeros_value(n: nat, s: Seq<u8>, base: nat)
    ensures
        be_digits(zeros(n) + s, base) == be_digits(s, base),
    decreases s.len(),
{
    if s.len() == 0 {
        lemma_zeros_value_alone(n, base);
        assert(zeros(n) + s =~= zeros(n));
    } else {
        lemma_zeros_value(n, s.drop_last(), base);
        assert((zeros(n) + s).drop_last() =~= zeros(n) + s.drop_last());
    }
}

proof fn lemma_zeros_value_alone(n: nat, base: nat)
    ensures
        be_digits(zeros(n), base) == 0,
    decreases n,
{
    if n > 0 {
        lemma_zeros_value_alone((n - 1) as nat, base);
        assert(zeros(n).drop_last() =~= zeros((n - 1) as nat));
        assert(0 * base == 0) by (nonlinear_arith);
    }
}

/// Leading zeros before a start that is not zero are counted exactly.
pub proof fn lemma_leading_zeros(n: nat, s: Seq<u8>)
    requires
        s.len() == 0 || s[0] != 0,
    ensures
        leading(zeros(n) + s, 0) == n,
    decreases n,
{
    if n > 0 {
        lemma_leading_zeros((n - 1) as nat, s);
        assert((zeros(n) + s).drop_first() =~= zeros((n - 1) as nat) + s);
    } else {
        assert(zeros(0) + s =~= s);
    }
}

/// A byte string is its leading zeros and the rest.
pub proof fn lemma_split_leading(s: Seq<u8>)
    ensures
        leading(s, 0) <= s.len(),
        s == zeros(leading(s, 0)) + s.subrange(leading(s, 0) as int, s.len() as int),
        s.subrange(leading(s, 0) as int, s.len() as int).len() == 0
            || s.subrange(leading(s, 0) as int, s.len() as int)[0] != 0,
    decreases s.len(),
{
    if s.len() > 0 && s[0] == 0 {
        lemma_split_leading(s.drop_first());
        let k = leading(s.drop_first(), 0);
        assert(s.drop_first().subrange(k as int, s.drop_first().len() as int) =~= s.subrange((k + 1) as int, s.len() as int));
        let rest = s.subrange((k + 1) as int, s.len() as int);
        assert(s.drop_first() == zeros(k) + rest);
        assert(s =~= seq![0u8] + s.drop_first());
        assert(seq![0u8] + zeros(k) =~= zeros((k + 1) as nat));
        assert(s =~= zeros((k + 1) as nat) + rest);
    } else {
        assert(s =~= zeros(0) + s.subrange(0, s.len() as int));
    }
}

/// Bytes written in base58 read back as the same bytes.
pub proof fn lemma_base58_round_trip(input: Seq<u8>)
    requires
        all_below(input, 256),
    ensures
        all_below(base58_digits(input), 58),
        base58_bytes(base58_digits(input)) == input,
{
    let z = leading(input, 0);
    lemma_split_leading(input);
    let rest = input.subrange(z as int, input.len() as int);
    let v = be_digits(input, 256);
    lemma_zeros_value(z, rest, 256);
    lemma_digits_of_canonical(v, 58);
    let d = digits_of(v, 58);
    assert forall|i: int| 0 <= i < base58_digits(input).len() implies #[trigger] base58_digits(input)[i] < 58 by {
        if i >= z {
            assert(base58_digits(input)[i] == d[i - z]);
        }
    }
    lemma_leading_zeros(z, d);
    lemma_zeros_value(z, d, 58);
    assert forall|i: int| 0 <= i < rest.len() implies #[trigger] rest[i] < 256 by {}
    crate::base_common::digits::lemma_digits_unique(rest, 256);
}

} // verus!
