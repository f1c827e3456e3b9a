use vstd::prelude::*;

verus! {

pub open spec fn pown(b: nat, n: nat) -> nat
    decreases n,
{
    if n == 0 {
        1
    } else {
        b * pown(b, (n - 1) as nat)
    }
}

/// The value of digits written least significant first.
pub open spec fn le_digits(s: Seq<u8>, base: nat) -> nat
    decreases s.len(),
{
    if s.len() == 0 {
        0
    } else {
        s[0] as nat + base * le_digits(s.drop_first(), base)
    }
}

/// The value of digits written most significant first.
pub open spec fn be_digits(s: Seq<u8>, base: nat) -> nat
    decreases s.len(),
{
    if s.len() == 0 {
        0
    } else {
        be_digits(s.drop_last(), base) * base + s.last() as nat
    }
}

/// The digits of `v`, most significant first, with no leading zero.
pub open spec fn digits_of(v: nat, base: nat) -> Seq<u8>
    recommends
        2 <= base <= 256,
    decreases v,
    via digits_of_decreases
{
    if v == 0 || base < 2 {
        Seq::empty()
    } else {
        digits_of(v / base, base).push((v % base) as u8)
    }
}

#[via_fn]
proof fn digits_of_decreases(v: nat, base: nat) {
    if v != 0 && base >= 2 {
        vstd::arithmetic::div_mod::lemma_div_decreases(v as int, base as int);
    }
}

pub open spec fn all_below(s: Seq<u8>, base: nat) -> bool {
    forall|i: int| 0 <= i < s.len() ==> #[trigger] s[i] < base
}

/// The number of leading entries of `s` equal to `x`.
pub open spec fn leading(s: Seq<u8>, x: u8) -> nat
    decreases s.len(),
{
    if s.len() == 0 || s[0] != x {
        0
    } else {
        1 + leading(s.drop_first(), x)
    }
}

pub proof fn lemma_le_push(s: Seq<u8>, x: u8, base: nat)
    ensures
        le_digits(s.push(x), base) == le_digits(s, base) + x * pown(base, s.len()),
    decreases s.len(),
{
    if s.len() == 0 {
        assert(s.push(x).drop_first() =~= Seq::<u8>::empty());
        assert(s.push(x)[0] == x);
        assert(base * 0 == 0) by (nonlinear_arith);
        assert(le_digits(s.push(x), base) == x + base * le_digits(Seq::<u8>::empty(), base));
        assert(pown(base, 0) == 1);
        assert(le_digits(s, base) == 0);
    } else {
        assert(s.push(x)[0] == s[0]);
        assert(s.push(x).drop_first() =~= s.drop_first().push(x));
        lemma_le_push(s.drop_first(), x, base);
        let p = pown(base, (s.len() - 1) as nat);
        assert(pown(base, s.len()) == base * p);
        assert(le_digits(s.push(x), base) == s[0] + base * le_digits(s.drop_first().push(x), base));
        assert(base * (le_digits(s.drop_first(), base) + x * p) == base * le_digits(s.drop_first(), base) + x * (base * p))
            by (nonlinear_arith);
        assert(le_digits(s, base) == s[0] + base * le_digits(s.drop_first(), base));
    }
}

pub proof fn lemma_be_reverse(s: Seq<u8>, base: nat)
    ensures
        be_digits(s.reverse(), base) == le_digits(s, base),
    decreases s.len(),
{
    if s.len() > 0 {
        lemma_be_reverse(s.drop_first(), base);
        assert(s.reverse().drop_last() =~= s.drop_first().reverse());
        assert(s.reverse().last() == s[0]);
        assert(be_digits(s.reverse(), base) == le_digits(s.drop_first(), base) * base + s[0]);
        assert(le_digits(s.drop_first(), base) * base == base * le_digits(s.drop_first(), base)) by (nonlinear_arith);
    }
}

/// Digits with no leading zero are the digits of their value.
pub proof fn lemma_digits_unique(s: Seq<u8>, base: nat)
    requires
        2 <= base <= 256,
        all_below(s, base),
        s.len() == 0 || s[0] != 0,
    ensures
        digits_of(be_digits(s, base), base) == s,
    decreases s.len(),
{
    if s.len() > 0 {
        let rest = s.drop_last();
        let v = be_digits(s, base);
        let r = be_digits(rest, base);
        assert(all_below(rest, base)) by {
            assert forall|i: int| 0 <= i < rest.len() implies #[trigger] rest[i] < base by {
                assert(rest[i] == s[i]);
            }
        }
        assert(s.last() < base);
        assert(v == r * base + s.last());
        vstd::arithmetic::div_mod::lemma_fundamental_div_mod_converse(v as int, base as int, r as int, s.last() as int);
        if rest.len() == 0 {
            assert(r == 0);
            assert(0 * base == 0) by (nonlinear_arith);
            assert(v == s.last());
            assert(v != 0);
            assert(digits_of(0, base) =~= Seq::<u8>::empty());
            assert(s =~= Seq::<u8>::empty().push(s.last()));
        } else {
            assert(rest[0] == s[0]);
            lemma_digits_unique(rest, base);
            lemma_be_top(rest, base);
            assert(v != 0) by {
                assert(r >= 1);
                assert(r * base >= base) by (nonlinear_arith)
                    requires
                        r >= 1,
                ;
            }
            assert(s =~= rest.push(s.last()));
        }
    }
}

proof fn lemma_be_top(s: Seq<u8>, base: nat)
    requires
        s.len() > 0,
        s[0] != 0,
        base >= 1,
    ensures
        be_digits(s, base) >= 1,
    decreases s.len(),
{
    if s.len() > 1 {
        assert(s.drop_last()[0] == s[0]);
        lemma_be_top(s.drop_last(), base);
        let r = be_digits(s.drop_last(), base);
        assert(r * base >= 1) by (nonlinear_arith)
            requires
                r >= 1,
                base >= 1,
        ;
    }
}

/// Multiplies the number that `digits` holds, least significant digit first
/// in base `base_out`, by `base_in`, and adds `digit`; the digits stay free
/// of a zero at the top.
pub fn push_digit(digits: &mut Vec<u8>, digit: u32, base_in: u32, base_out: u32)
    requires
        2 <= base_in <= 256,
        2 <= base_out <= 256,
        digit < base_in,
        all_below(old(digits)@, base_out as nat),
        old(digits)@.len() == 0 || old(digits)@.last() != 0,
    ensures
        le_digits(final(digits)@, base_out as nat) == le_digits(old(digits)@, base_out as nat) * base_in + digit,
        all_below(final(digits)@, base_out as nat),
        final(digits)@.len() == 0 || final(digits)@.last() != 0,
{
    let ghost bo = base_out as nat;
    let ghost old_digits = digits@;
    let n = digits.len();
    let mut carry: u32 = digit;
    let mut j: usize = 0;
    proof {
        assert(digits@.subrange(0, 0) =~= Seq::<u8>::empty());
        assert(old_digits.subrange(0, 0) =~= Seq::<u8>::empty());
        assert(0 * base_in == 0) by (nonlinear_arith);
        assert(pown(bo, 0) == 1);
    }
    while j < n
        invariant
            2 <= base_in <= 256,
            2 <= base_out <= 256,
            bo == base_out as nat,
            n == old_digits.len(),
            old_digits.len() == 0 || old_digits.last() != 0,
            digits@.len() == n,
            j <= n,
            carry < base_in,
            all_below(old_digits, bo),
            forall|i: int| 0 <= i < j ==> #[trigger] digits@[i] < base_out,
            forall|i: int| j <= i < n ==> #[trigger] digits@[i] == old_digits[i],
            le_digits(digits@.subrange(0, j as int), bo) + pown(bo, j as nat) * carry
                == le_digits(old_digits.subrange(0, j as int), bo) * base_in + digit,
            j == n && n > 0 && carry == 0 ==> digits@[n - 1] != 0,
        decreases n - j,
    {
        let ghost before = digits@;
        let old_digit = digits[j];
        assert(old_digit == old_digits[j as int]);
        assert(old_digit < base_out);
        assert((old_digit as u32) * base_in <= 65536) by (nonlinear_arith)
            requires
                old_digit < 256,
                base_in <= 256,
        ;
        let total = carry + (old_digit as u32) * base_in;
        assert(total < base_in * base_out) by (nonlinear_arith)
            requires
                carry < base_in,
                old_digit < base_out,
                total == carry + old_digit * base_in,
        ;
        let low = (total % base_out) as u8;
        let next = total / base_out;
        assert(next < base_in) by (nonlinear_arith)
            requires
                total < base_in * base_out,
                next == total / base_out,
                base_out >= 2,
        ;
        digits.set(j, low);
        proof {
            let p = pown(bo, j as nat);
            assert(digits@.subrange(0, j + 1) =~= before.subrange(0, j as int).push(low));
            assert(before.subrange(0, j as int) =~= digits@.subrange(0, j as int));
            assert(old_digits.subrange(0, j + 1) =~= old_digits.subrange(0, j as int).push(old_digit));
            lemma_le_push(digits@.subrange(0, j as int), low, bo);
            lemma_le_push(old_digits.subrange(0, j as int), old_digit, bo);
            vstd::arithmetic::div_mod::lemma_fundamental_div_mod(total as int, base_out as int);
            assert(total == base_out * next + low);
            let a = le_digits(digits@.subrange(0, j as int), bo);
            let b = le_digits(old_digits.subrange(0, j as int), bo);
            assert(a + low * p + pown(bo, (j + 1) as nat) * next == (b + old_digit * p) * base_in + digit)
                by (nonlinear_arith)
                requires
                    a + p * carry == b * base_in + digit,
                    total == base_out * next + low,
                    total == carry + old_digit * base_in,
                    pown(bo, (j + 1) as nat) == bo * p,
                    bo == base_out,
            ;
            if j + 1 == n && next == 0 {
                assert(old_digit == old_digits.last());
                assert(old_digit * base_in >= base_in) by (nonlinear_arith)
                    requires
                        old_digit >= 1,
                ;
                assert(base_out * next == 0) by (nonlinear_arith)
                    requires
                        next == 0,
                ;
                assert(low == total);
            }
        }
        carry = next;
        j = j + 1;
    }
    assert(digits@.subrange(0, n as int) =~= digits@);
    assert(old_digits.subrange(0, n as int) =~= old_digits);
    while carry > 0
        invariant
            2 <= base_out <= 256,
            bo == base_out as nat,
            all_below(digits@, bo),
            le_digits(digits@, bo) + pown(bo, digits@.len() as nat) * carry
                == le_digits(old_digits, bo) * base_in + digit,
            carry == 0 ==> (digits@.len() == 0 || digits@.last() != 0),
        decreases carry,
    {
        let low = (carry % base_out) as u8;
        let next = carry / base_out;
        proof {
            vstd::arithmetic::div_mod::lemma_div_decreases(carry as int, base_out as int);
            let p = pown(bo, digits@.len() as nat);
            lemma_le_push(digits@, low, bo);
            vstd::arithmetic::div_mod::lemma_fundamental_div_mod(carry as int, base_out as int);
            assert(le_digits(digits@, bo) + low * p + (bo * p) * next == le_digits(digits@, bo) + p * carry)
                by (nonlinear_arith)
                requires
                    carry == base_out * next + low,
                    bo == base_out,
            ;
            if next == 0 {
                assert(base_out * next == 0) by (nonlinear_arith)
                    requires
                        next == 0,
                ;
                assert(low == carry);
            }
        }
        digits.push(low);
        carry = next;
    }
}

} // verus!
